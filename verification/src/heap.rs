//! The blob heap: byte strings under dense, stable ids.

use crate::codec;
use crate::codec::{get_u32, put_slice, put_u32};
use crate::error::ArenaError;
use crate::id;
use crate::id::BlobId;
use crate::parse;
use vstd::prelude::*;

verus! {

/// Bytes of all blobs.
pub open spec fn total_bytes(blobs: Seq<Seq<u8>>) -> int
    decreases blobs.len(),
{
    if blobs.len() == 0 {
        0
    } else {
        total_bytes(blobs.drop_last()) + blobs.last().len()
    }
}

/// What pushing a blob does: the new blob takes the next id.
pub open spec fn pushed(
    blobs: Seq<Seq<u8>>,
    max_bytes: int,
    max_blob: int,
    blob: Seq<u8>,
) -> Result<(Seq<Seq<u8>>, BlobId), ArenaError> {
    if blob.len() > max_blob {
        Err(ArenaError::BlobTooLarge)
    } else if total_bytes(blobs) + blob.len() > max_bytes || blobs.len() >= id::NONE_U32 {
        Err(ArenaError::CapacityExceeded)
    } else {
        Ok((blobs.push(blob), BlobId(blobs.len() as u32)))
    }
}

pub open spec fn blob_views(blobs: Seq<Vec<u8>>) -> Seq<Seq<u8>> {
    blobs.map_values(|b: Vec<u8>| b@)
}

/// The blob lengths, as the heap's index section.
pub open spec fn index_bytes(blobs: Seq<Seq<u8>>) -> Seq<u8> {
    parse::flat(|b: Seq<u8>| codec::le32(b.len() as u32), blobs)
}

/// The blobs one behind the other, as the heap's pool section.
pub open spec fn pool_content(blobs: Seq<Seq<u8>>) -> Seq<u8> {
    parse::flat(|b: Seq<u8>| b, blobs)
}

/// The length of blob `i` in an index section.
pub open spec fn len_at(index: Seq<u8>, i: int) -> int {
    codec::num_at(index, 4 * i, 4) as int
}

/// Where blob `i` starts in the pool section.
pub open spec fn start_at(index: Seq<u8>, i: int) -> int
    decreases i,
{
    if i <= 0 {
        0
    } else {
        start_at(index, i - 1) + len_at(index, i - 1)
    }
}

/// The blobs that two sections describe.
pub open spec fn blobs_at(index: Seq<u8>, pool: Seq<u8>) -> Seq<Seq<u8>> {
    Seq::new(
        index.len() / 4,
        |i: int| pool.subrange(start_at(index, i), start_at(index, i) + len_at(index, i)),
    )
}

/// What a stored heap holds.
pub open spec fn heap_loaded(index: Seq<u8>, pool: Seq<u8>, max_bytes: int, max_blob: int) -> Result<
    Seq<Seq<u8>>,
    ArenaError,
> {
    if index.len() % 4 != 0 || index.len() / 4 > id::NONE_U32 {
        Err(ArenaError::Malformed)
    } else if pool.len() > max_bytes {
        Err(ArenaError::CapacityExceeded)
    } else if exists|i: int| 0 <= i < index.len() / 4 && #[trigger] len_at(index, i) > max_blob {
        Err(ArenaError::BlobTooLarge)
    } else if start_at(index, (index.len() / 4) as int) != pool.len() {
        Err(ArenaError::Malformed)
    } else {
        Ok(blobs_at(index, pool))
    }
}

pub proof fn lemma_total_push(blobs: Seq<Seq<u8>>, blob: Seq<u8>)
    ensures
        total_bytes(blobs.push(blob)) == total_bytes(blobs) + blob.len(),
{
    assert(blobs.push(blob).drop_last() =~= blobs);
}

pub proof fn lemma_start_mono(index: Seq<u8>, i: int, j: int)
    requires
        0 <= i <= j,
    ensures
        0 <= start_at(index, i) <= start_at(index, j),
        i < j ==> start_at(index, i) + len_at(index, i) <= start_at(index, j),
    decreases j,
{
    if i < j {
        lemma_start_mono(index, i, j - 1);
    } else if i > 0 {
        lemma_start_mono(index, i - 1, j - 1);
    }
}

proof fn lemma_blobs_total(index: Seq<u8>, pool: Seq<u8>, n: int)
    requires
        0 <= n <= index.len() / 4,
        start_at(index, (index.len() / 4) as int) == pool.len(),
    ensures
        total_bytes(blobs_at(index, pool).take(n)) == start_at(index, n),
    decreases n,
{
    let all = blobs_at(index, pool);
    if n > 0 {
        lemma_blobs_total(index, pool, n - 1);
        assert(all.take(n).drop_last() =~= all.take(n - 1));
        lemma_start_mono(index, n - 1, (index.len() / 4) as int);
        lemma_start_mono(index, n, (index.len() / 4) as int);
    } else {
        assert(all.take(0) =~= Seq::empty());
    }
}

proof fn lemma_index_len(blobs: Seq<Seq<u8>>)
    ensures
        index_bytes(blobs).len() == 4 * blobs.len(),
    decreases blobs.len(),
{
    if blobs.len() > 0 {
        lemma_index_len(blobs.drop_last());
        codec::lemma_le_bytes_len(blobs.last().len() as u32 as nat, 4);
    }
}

proof fn lemma_pool_len(blobs: Seq<Seq<u8>>)
    ensures
        pool_content(blobs).len() == total_bytes(blobs),
    decreases blobs.len(),
{
    if blobs.len() > 0 {
        lemma_pool_len(blobs.drop_last());
    }
}

proof fn lemma_len_read(index: Seq<u8>, blobs: Seq<Seq<u8>>, i: int)
    requires
        0 <= i < blobs.len(),
        blobs[i].len() <= u32::MAX,
        codec::has_at(index, 0, index_bytes(blobs)),
    ensures
        len_at(index, i) == blobs[i].len(),
    decreases blobs.len(),
{
    let init = blobs.drop_last();
    codec::lemma_has_split(
        index,
        0,
        index_bytes(init),
        codec::le32(blobs.last().len() as u32),
    );
    lemma_index_len(init);
    if i < blobs.len() - 1 {
        lemma_len_read(index, init, i);
    } else {
        codec::lemma_pow256();
        codec::lemma_num_at(index, 4 * i, blobs.last().len() as u32 as nat, 4);
    }
}

proof fn lemma_blob_read(pool: Seq<u8>, blobs: Seq<Seq<u8>>, i: int)
    requires
        0 <= i < blobs.len(),
        codec::has_at(pool, 0, pool_content(blobs)),
    ensures
        codec::has_at(pool, total_bytes(blobs.take(i)), blobs[i]),
    decreases blobs.len(),
{
    let init = blobs.drop_last();
    codec::lemma_has_split(pool, 0, pool_content(init), blobs.last());
    lemma_pool_len(init);
    if i < blobs.len() - 1 {
        lemma_blob_read(pool, init, i);
        assert(init.take(i) =~= blobs.take(i));
    } else {
        assert(blobs.take(i) =~= init);
    }
}

proof fn lemma_starts(index: Seq<u8>, blobs: Seq<Seq<u8>>, i: int)
    requires
        0 <= i <= blobs.len(),
        forall|k: int| 0 <= k < blobs.len() ==> #[trigger] len_at(index, k) == blobs[k].len(),
    ensures
        start_at(index, i) == total_bytes(blobs.take(i)),
    decreases i,
{
    if i > 0 {
        lemma_starts(index, blobs, i - 1);
        assert(blobs.take(i).drop_last() =~= blobs.take(i - 1));
        assert(len_at(index, i - 1) == blobs[i - 1].len());
    } else {
        assert(blobs.take(0) =~= Seq::empty());
    }
}

/// A heap loads back from its dump.
pub proof fn heap_round_trip(blobs: Seq<Seq<u8>>, max_bytes: int, max_blob: int)
    requires
        blobs.len() <= id::NONE_U32,
        total_bytes(blobs) <= max_bytes,
        forall|i: int|
            0 <= i < blobs.len() ==> (#[trigger] blobs[i]).len() <= max_blob && blobs[i].len()
                <= u32::MAX,
    ensures
        heap_loaded(index_bytes(blobs), pool_content(blobs), max_bytes, max_blob) == Ok::<
            _,
            ArenaError,
        >(blobs),
{
    let index = index_bytes(blobs);
    let pool = pool_content(blobs);
    assert(codec::has_at(index, 0, index) && codec::has_at(pool, 0, pool)) by {
        reveal(codec::has_at);
        assert(index.subrange(0, index.len() as int) =~= index);
        assert(pool.subrange(0, pool.len() as int) =~= pool);
    }
    lemma_index_len(blobs);
    lemma_pool_len(blobs);
    assert forall|k: int| 0 <= k < blobs.len() implies #[trigger] len_at(index, k)
        == blobs[k].len() by {
        lemma_len_read(index, blobs, k);
    }
    lemma_starts(index, blobs, blobs.len() as int);
    assert(blobs.take(blobs.len() as int) =~= blobs);
    assert forall|i: int| 0 <= i < blobs.len() implies pool.subrange(
        start_at(index, i),
        start_at(index, i) + len_at(index, i),
    ) == #[trigger] blobs[i] by {
        lemma_starts(index, blobs, i);
        lemma_blob_read(pool, blobs, i);
        reveal(codec::has_at);
    }
    assert(blobs_at(index, pool) =~= blobs);
}

/// Byte strings under dense ids.
#[derive(Debug)]
pub struct BlobHeap {
    blobs: Vec<Vec<u8>>,
    bytes: usize,
    max_bytes: usize,
    max_blob: usize,
}

impl View for BlobHeap {
    type V = Seq<Seq<u8>>;

    closed spec fn view(&self) -> Seq<Seq<u8>> {
        blob_views(self.blobs@)
    }
}

impl BlobHeap {
    pub closed spec fn wf(&self) -> bool {
        &&& self.bytes == total_bytes(self@)
        &&& self.bytes <= self.max_bytes
        &&& self@.len() <= id::NONE_U32
        &&& forall|i: int| 0 <= i < self@.len() ==> (#[trigger] self@[i]).len() <= self.max_blob
    }

    /// The ceiling for all blobs.
    pub closed spec fn ceiling(&self) -> int {
        self.max_bytes as int
    }

    /// The ceiling for one blob.
    pub closed spec fn blob_ceiling(&self) -> int {
        self.max_blob as int
    }

    pub broadcast proof fn lemma_wf(&self)
        ensures
            #[trigger] self.wf() ==> total_bytes(self@) <= self.ceiling() && self@.len()
                <= id::NONE_U32,
            self.wf() ==> forall|i: int|
                0 <= i < self@.len() ==> (#[trigger] self@[i]).len() <= self.blob_ceiling(),
    {
    }

    /// An empty heap.
    pub fn new(max_bytes: usize, max_blob: usize) -> (r: BlobHeap)
        ensures
            r.wf(),
            r@ == Seq::<Seq<u8>>::empty(),
            r.ceiling() == max_bytes,
            r.blob_ceiling() == max_blob,
    {
        let r = BlobHeap { blobs: Vec::new(), bytes: 0, max_bytes, max_blob };
        assert(r@ =~= Seq::empty());
        r
    }

    /// Number of blobs.
    pub fn len(&self) -> (r: usize)
        ensures
            r == self@.len(),
    {
        self.blobs.len()
    }

    /// Stores a blob under the next id.
    pub fn push(&mut self, blob: &[u8]) -> (r: Result<BlobId, ArenaError>)
        requires
            old(self).wf(),
        ensures
            final(self).wf(),
            final(self).ceiling() == old(self).ceiling(),
            final(self).blob_ceiling() == old(self).blob_ceiling(),
            match r {
                Ok(id) => pushed(
                    old(self)@,
                    old(self).ceiling(),
                    old(self).blob_ceiling(),
                    blob@,
                ) == Ok::<_, ArenaError>((final(self)@, id)),
                Err(e) => pushed(
                    old(self)@,
                    old(self).ceiling(),
                    old(self).blob_ceiling(),
                    blob@,
                ) == Err::<(Seq<Seq<u8>>, BlobId), _>(e) && final(self)@ == old(self)@,
            },
    {
        if blob.len() > self.max_blob {
            return Err(ArenaError::BlobTooLarge);
        }
        if blob.len() > self.max_bytes - self.bytes || self.blobs.len() as u64
            >= id::NONE_U32 as u64 {
            return Err(ArenaError::CapacityExceeded);
        }
        let id: u32 = self.blobs.len() as u32;
        let mut copy: Vec<u8> = Vec::new();
        put_slice(&mut copy, blob);
        proof {
            assert(copy@ =~= blob@);
            lemma_total_push(self@, blob@);
        }
        self.blobs.push(copy);
        self.bytes = self.bytes + blob.len();
        assert(self@ =~= old(self)@.push(blob@));
        Ok(BlobId(id))
    }

    /// The bytes of a blob.
    pub fn get(&self, id: BlobId) -> (r: &[u8])
        requires
            id.0 < self@.len(),
        ensures
            r@ == self@[id.0 as int],
    {
        self.blobs[id.0 as usize].as_slice()
    }

    /// Bytes of all blobs.
    pub fn pool_bytes(&self) -> (r: usize)
        requires
            self.wf(),
        ensures
            r == total_bytes(self@),
    {
        self.bytes
    }

    /// The blob lengths, as the heap's index section.
    pub fn dump_index(&self) -> (r: Vec<u8>)
        ensures
            r@ == index_bytes(self@),
    {
        let mut out: Vec<u8> = Vec::new();
        let ghost f = |b: Seq<u8>| codec::le32(b.len() as u32);
        let mut i: usize = 0;
        assert(self@.take(0) =~= Seq::empty());
        while i < self.blobs.len()
            invariant
                i <= self@.len(),
                self@.len() == self.blobs@.len(),
                f == (|b: Seq<u8>| codec::le32(b.len() as u32)),
                out@ == parse::flat(f, self@.take(i as int)),
            decreases self@.len() - i,
        {
            put_u32(&mut out, self.blobs[i].len() as u32);
            proof {
                assert(self@[i as int] == self.blobs@[i as int]@);
                assert(self@.take(i + 1) =~= self@.take(i as int).push(self@[i as int]));
                parse::lemma_flat_push(f, self@.take(i as int), self@[i as int]);
            }
            i = i + 1;
        }
        assert(self@.take(i as int) =~= self@);
        out
    }

    /// The blobs one behind the other, as the heap's pool section.
    pub fn dump_pool(&self) -> (r: Vec<u8>)
        ensures
            r@ == pool_content(self@),
    {
        let mut out: Vec<u8> = Vec::new();
        let ghost f = |b: Seq<u8>| b;
        let mut i: usize = 0;
        assert(self@.take(0) =~= Seq::empty());
        while i < self.blobs.len()
            invariant
                i <= self@.len(),
                self@.len() == self.blobs@.len(),
                f == (|b: Seq<u8>| b),
                out@ == parse::flat(f, self@.take(i as int)),
            decreases self@.len() - i,
        {
            put_slice(&mut out, self.blobs[i].as_slice());
            proof {
                assert(self@[i as int] == self.blobs@[i as int]@);
                assert(self@.take(i + 1) =~= self@.take(i as int).push(self@[i as int]));
                parse::lemma_flat_push(f, self@.take(i as int), self@[i as int]);
            }
            i = i + 1;
        }
        assert(self@.take(i as int) =~= self@);
        out
    }

    /// Rebuilds a heap from its two sections.
    pub fn load(index: &[u8], pool: &[u8], max_bytes: usize, max_blob: usize) -> (r: Result<
        BlobHeap,
        ArenaError,
    >)
        ensures
            match r {
                Ok(h) => h.wf() && h.ceiling() == max_bytes && h.blob_ceiling() == max_blob
                    && heap_loaded(index@, pool@, max_bytes as int, max_blob as int) == Ok::<
                    _,
                    ArenaError,
                >(h@),
                Err(e) => heap_loaded(index@, pool@, max_bytes as int, max_blob as int) == Err::<
                    Seq<Seq<u8>>,
                    _,
                >(e),
            },
    {
        if index.len() % 4 != 0 || (index.len() / 4) as u64 > id::NONE_U32 as u64 {
            return Err(ArenaError::Malformed);
        }
        if pool.len() > max_bytes {
            return Err(ArenaError::CapacityExceeded);
        }
        let n: usize = index.len() / 4;
        let width: usize = index.len();
        let total: usize = pool.len();
        let mut sum: u64 = 0;
        let mut k: usize = 0;
        while k < n
            invariant
                k <= n <= id::NONE_U32,
                4 * n == width,
                width == index@.len(),
                sum == start_at(index@, k as int),
                sum <= k * 0xFFFF_FFFF,
                forall|j: int| 0 <= j < k ==> #[trigger] len_at(index@, j) <= max_blob,
                index@.len() % 4 == 0,
                pool@.len() <= max_bytes,
            decreases n - k,
        {
            let len: u32 = get_u32(index, 4 * k);
            assert(len as int == len_at(index@, k as int));
            if len as u64 > max_blob as u64 {
                return Err(ArenaError::BlobTooLarge);
            }
            sum = sum + len as u64;
            k = k + 1;
        }
        if sum != total as u64 {
            return Err(ArenaError::Malformed);
        }
        let ghost want = blobs_at(index@, pool@);
        let mut blobs: Vec<Vec<u8>> = Vec::new();
        let mut at: usize = 0;
        let mut i: usize = 0;
        assert(blob_views(blobs@) =~= want.take(0));
        while i < n
            invariant
                i <= n,
                want.len() == n,
                blobs@.len() == i,
                4 * n == width,
                width == index@.len(),
                total == pool@.len(),
                start_at(index@, n as int) == total,
                at == start_at(index@, i as int),
                at <= total,
                want == blobs_at(index@, pool@),
                blob_views(blobs@) == want.take(i as int),
            decreases n - i,
        {
            let len: u32 = get_u32(index, 4 * i);
            proof {
                assert(len as int == len_at(index@, i as int));
                lemma_start_mono(index@, i as int, n as int);
            }
            let end: usize = at + len as usize;
            let mut copy: Vec<u8> = Vec::new();
            put_slice(&mut copy, &pool[at..end]);
            assert(copy@ =~= want[i as int]);
            blobs.push(copy);
            proof {
                let got = blob_views(blobs@);
                assert(got.len() == i + 1);
                assert forall|j: int| 0 <= j < i + 1 implies #[trigger] got[j] == want[j] by {
                    if j < i {
                        assert(want.take(i as int)[j] == want[j]);
                    }
                }
                assert(got =~= want.take(i + 1));
            }
            at = end;
            i = i + 1;
        }
        proof {
            assert(want.take(n as int) =~= want);
            lemma_blobs_total(index@, pool@, n as int);
            assert forall|j: int| 0 <= j < want.len() implies (#[trigger] want[j]).len()
                <= max_blob by {
                lemma_start_mono(index@, j, n as int);
                assert(len_at(index@, j) <= max_blob);
            }
        }
        Ok(BlobHeap { blobs, bytes: total, max_bytes, max_blob })
    }
}

} // verus!
