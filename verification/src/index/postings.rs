//! Posting storage shared by every id-list index.
//!
//! One shape serves BM25 postings, tag to facts and entity to facts: a table
//! of per-key headers plus one byte list per key. Entries are appended in
//! ascending fact-id order (ids are assigned monotonically, so appends keep
//! lists sorted for free) and encoded as varint deltas: `[delta]` for plain id
//! lists, `[delta][tf u8]` for BM25 (`TF = true`).

use crate::codec;
use crate::error::{ArenaError, Error};
use crate::heap;
use crate::heap::BlobHeap;
use crate::id;
use crate::id::{BlobId, FactId};
use crate::index::varint;
use crate::index::varint::{decode_u32_at, put_varint};
use crate::model;
use crate::model::{ListHandle, Slot};
use crate::table;
use crate::table::Table;
use vstd::prelude::*;

verus! {

pub use crate::model::IdListSlot;

/// One entry of a list: an id and its term frequency.
pub type Entry = (u32, u8);

/// A key and its list.
pub type List = (u32, Seq<Entry>);

/// The number stored for the last entry of `xs`: the distance from the entry
/// before it, or the id itself for the first one.
pub open spec fn last_delta(xs: Seq<Entry>) -> nat {
    if xs.len() <= 1 {
        xs.last().0 as nat
    } else {
        (xs.last().0 - xs[xs.len() - 2].0) as nat
    }
}

/// The bytes stored for the last entry of `xs`.
pub open spec fn last_bytes(tf: bool, xs: Seq<Entry>) -> Seq<u8> {
    varint::leb(last_delta(xs)) + if tf {
        seq![xs.last().1]
    } else {
        Seq::<u8>::empty()
    }
}

/// The bytes of a list.
pub open spec fn list_bytes(tf: bool, xs: Seq<Entry>) -> Seq<u8>
    decreases xs.len(),
{
    if xs.len() == 0 {
        Seq::empty()
    } else {
        list_bytes(tf, xs.drop_last()) + last_bytes(tf, xs)
    }
}

/// Ids strictly ascending; plain lists carry a frequency of one.
pub open spec fn list_ok(tf: bool, xs: Seq<Entry>) -> bool {
    &&& forall|i: int, j: int|
        0 <= i < j < xs.len() ==> (#[trigger] xs[i]).0 < (#[trigger] xs[j]).0
    &&& forall|i: int| 0 <= i < xs.len() ==> tf || (#[trigger] xs[i]).1 == 1
}

/// Keys strictly ascending, every list valid and not empty.
pub open spec fn lists_ok(tf: bool, v: Seq<List>) -> bool {
    &&& forall|i: int, j: int|
        0 <= i < j < v.len() ==> (#[trigger] v[i]).0 < (#[trigger] v[j]).0
    &&& forall|i: int| 0 <= i < v.len() ==> list_ok(tf, (#[trigger] v[i]).1) && v[i].1.len() > 0
}

/// Some list carries `key`.
pub open spec fn lists_have(v: Seq<List>, key: u32) -> bool {
    exists|i: int| 0 <= i < v.len() && (#[trigger] v[i]).0 == key
}

/// Where the list of `key` stands, or would stand.
pub open spec fn list_rank(v: Seq<List>, key: u32) -> int
    decreases v.len(),
{
    if v.len() == 0 {
        0
    } else if v.last().0 < key {
        v.len() as int
    } else {
        list_rank(v.drop_last(), key)
    }
}

/// The entries of `key`'s list, empty when there is none.
pub open spec fn entries_of(v: Seq<List>, key: u32) -> Seq<Entry> {
    if lists_have(v, key) {
        v[list_rank(v, key)].1
    } else {
        Seq::empty()
    }
}

/// `v` with `e` appended to the list of `key`.
pub open spec fn with_entry(v: Seq<List>, key: u32, e: Entry) -> Seq<List> {
    let at = list_rank(v, key);
    if lists_have(v, key) {
        v.update(at, (key, v[at].1.push(e)))
    } else {
        v.insert(at, (key, seq![e]))
    }
}

/// Bytes of all lists.
pub open spec fn store_bytes(tf: bool, v: Seq<List>) -> int
    decreases v.len(),
{
    if v.len() == 0 {
        0
    } else {
        store_bytes(tf, v.drop_last()) + list_bytes(tf, v.last().1).len()
    }
}

/// The entry as a store keeps it: plain stores forget the frequency.
pub open spec fn kept_entry(tf: bool, id: u32, f: u8) -> Entry {
    (id, if tf { f } else { 1u8 })
}

/// What appending an entry does.
pub open spec fn entry_pushed(tf: bool, v: Seq<List>, max_bytes: int, key: u32, e: Entry) -> Result<
    Seq<List>,
    ArenaError,
> {
    let xs = entries_of(v, key).push(e);
    let n = last_bytes(tf, xs).len();
    if store_bytes(tf, v) + n > max_bytes || list_bytes(tf, xs).len() > u32::MAX {
        Err(ArenaError::CapacityExceeded)
    } else if !lists_have(v, key) && (v.len() + 1) * 24 > max_bytes {
        Err(ArenaError::CapacityExceeded)
    } else {
        Ok(with_entry(v, key, e))
    }
}

pub proof fn lemma_list_rank(tf: bool, v: Seq<List>, key: u32)
    requires
        lists_ok(tf, v),
    ensures
        0 <= list_rank(v, key) <= v.len(),
        forall|i: int| 0 <= i < list_rank(v, key) ==> (#[trigger] v[i]).0 < key,
        forall|i: int| list_rank(v, key) <= i < v.len() ==> (#[trigger] v[i]).0 >= key,
        lists_have(v, key) <==> list_rank(v, key) < v.len() && v[list_rank(v, key)].0 == key,
    decreases v.len(),
{
    if v.len() > 0 {
        let init = v.drop_last();
        assert(lists_ok(tf, init)) by {
            assert forall|i: int, j: int| 0 <= i < j < init.len() implies (#[trigger] init[i]).0
                < (#[trigger] init[j]).0 by {
                assert(v[i].0 < v[j].0);
            }
            assert forall|i: int| 0 <= i < init.len() implies list_ok(tf, (#[trigger] init[i]).1)
                && init[i].1.len() > 0 by {
                assert(init[i] == v[i]);
            }
        }
        lemma_list_rank(tf, init, key);
        let r = list_rank(v, key);
        if v.last().0 < key {
            assert forall|i: int| 0 <= i < v.len() implies (#[trigger] v[i]).0 < key by {
                if i < v.len() - 1 {
                    assert(v[i].0 < v[v.len() - 1].0);
                }
            }
        } else {
            assert forall|i: int| 0 <= i < r implies (#[trigger] v[i]).0 < key by {
                assert(init[i].0 < key);
            }
            assert forall|i: int| r <= i < v.len() implies (#[trigger] v[i]).0 >= key by {
                if i < v.len() - 1 {
                    assert(init[i].0 >= key);
                }
            }
        }
        if lists_have(v, key) {
            let k = choose|k: int| 0 <= k < v.len() && (#[trigger] v[k]).0 == key;
            if k != r {
                assert(k > r);
                assert(v[r].0 < v[k].0);
            }
        }
    }
}

/// A list found by its index is the list of its key.
pub proof fn lemma_list_found(tf: bool, v: Seq<List>, k: int)
    requires
        lists_ok(tf, v),
        0 <= k < v.len(),
    ensures
        lists_have(v, v[k].0),
        list_rank(v, v[k].0) == k,
        entries_of(v, v[k].0) == v[k].1,
{
    let key = v[k].0;
    lemma_list_rank(tf, v, key);
    let r = list_rank(v, key);
    if r < k {
        assert(v[r].0 < v[k].0);
    } else if k < r {
        assert(v[k].0 < key);
    }
}

/// Appending to one list appends there and nowhere else, and keeps the store
/// valid.
pub proof fn appending_touches_one_list(tf: bool, v: Seq<List>, key: u32, e: Entry)
    requires
        lists_ok(tf, v),
        tf || e.1 == 1,
        entries_of(v, key).len() > 0 ==> entries_of(v, key).last().0 < e.0,
    ensures
        lists_ok(tf, with_entry(v, key, e)),
        entries_of(with_entry(v, key, e), key) == entries_of(v, key).push(e),
        forall|k: u32|
            k != key ==> #[trigger] entries_of(with_entry(v, key, e), k) == entries_of(v, k),
{
    lemma_list_rank(tf, v, key);
    let r = list_rank(v, key);
    let out = with_entry(v, key, e);
    let xs = entries_of(v, key);
    assert(list_ok(tf, xs.push(e))) by {
        if lists_have(v, key) {
            assert(list_ok(tf, v[r].1));
            assert(v[r].1 == xs);
        }
        assert forall|i: int, j: int| 0 <= i < j < xs.push(e).len() implies (#[trigger] xs.push(
            e,
        )[i]).0 < (#[trigger] xs.push(e)[j]).0 by {
            if j == xs.len() && i < xs.len() - 1 {
                assert(xs[i].0 < xs[xs.len() - 1].0);
            }
        }
    }
    if lists_have(v, key) {
        assert forall|i: int, j: int| 0 <= i < j < out.len() implies (#[trigger] out[i]).0
            < (#[trigger] out[j]).0 by {
            assert(v[i].0 < v[j].0);
        }
        assert forall|i: int| 0 <= i < out.len() implies list_ok(tf, (#[trigger] out[i]).1)
            && out[i].1.len() > 0 by {
            if i != r {
                assert(out[i] == v[i]);
            }
        }
        lemma_list_found(tf, out, r);
    } else {
        assert(xs.push(e) =~= seq![e]);
        assert forall|i: int| r <= i < v.len() implies (#[trigger] v[i]).0 > key by {
            assert(v[i].0 != key);
        }
        assert forall|i: int, j: int| 0 <= i < j < out.len() implies (#[trigger] out[i]).0
            < (#[trigger] out[j]).0 by {
            if i < r {
                assert(out[i] == v[i]);
            } else if i > r {
                assert(out[i] == v[i - 1]);
            }
            if j < r {
                assert(out[j] == v[j]);
            } else if j > r {
                assert(out[j] == v[j - 1]);
            }
        }
        assert forall|i: int| 0 <= i < out.len() implies list_ok(tf, (#[trigger] out[i]).1)
            && out[i].1.len() > 0 by {
            if i < r {
                assert(out[i] == v[i]);
            } else if i > r {
                assert(out[i] == v[i - 1]);
            }
        }
        lemma_list_found(tf, out, r);
    }
    assert forall|k: u32| k != key implies #[trigger] entries_of(out, k) == entries_of(v, k) by {
        if lists_have(v, k) {
            let p = choose|p: int| 0 <= p < v.len() && (#[trigger] v[p]).0 == k;
            lemma_list_found(tf, v, p);
            if lists_have(v, key) || p < r {
                assert(out[p] == v[p]);
                lemma_list_found(tf, out, p);
            } else {
                assert(out[p + 1] == v[p]);
                lemma_list_found(tf, out, p + 1);
            }
        } else if lists_have(out, k) {
            let p = choose|p: int| 0 <= p < out.len() && (#[trigger] out[p]).0 == k;
            if lists_have(v, key) || p < r {
                assert(v[p].0 == k);
            } else {
                assert(v[p - 1].0 == k);
            }
        }
    }
}

proof fn lemma_store_split(tf: bool, v: Seq<List>, at: int)
    requires
        0 <= at < v.len(),
    ensures
        store_bytes(tf, v) == store_bytes(tf, v.remove(at)) + list_bytes(tf, v[at].1).len(),
    decreases v.len(),
{
    if at == v.len() - 1 {
        assert(v.remove(at) =~= v.drop_last());
    } else {
        let init = v.drop_last();
        lemma_store_split(tf, init, at);
        assert(v.remove(at).drop_last() =~= init.remove(at));
        assert(v.remove(at).last() == v.last());
    }
}

proof fn lemma_store_nonneg(tf: bool, v: Seq<List>)
    ensures
        0 <= store_bytes(tf, v),
    decreases v.len(),
{
    if v.len() > 0 {
        lemma_store_nonneg(tf, v.drop_last());
    }
}

proof fn lemma_store_push(tf: bool, v: Seq<List>, key: u32, e: Entry)
    requires
        lists_ok(tf, v),
    ensures
        store_bytes(tf, with_entry(v, key, e)) == store_bytes(tf, v) + last_bytes(
            tf,
            entries_of(v, key).push(e),
        ).len(),
        list_bytes(tf, entries_of(v, key).push(e)) == list_bytes(tf, entries_of(v, key))
            + last_bytes(tf, entries_of(v, key).push(e)),
{
    lemma_list_rank(tf, v, key);
    let r = list_rank(v, key);
    let out = with_entry(v, key, e);
    let xs = entries_of(v, key);
    assert(xs.push(e).drop_last() =~= xs);
    if lists_have(v, key) {
        lemma_store_split(tf, v, r);
        lemma_store_split(tf, out, r);
        assert(out.remove(r) =~= v.remove(r));
    } else {
        lemma_store_split(tf, out, r);
        assert(out.remove(r) =~= v);
        assert(xs.push(e) =~= seq![e]);
        assert(list_bytes(tf, xs) =~= Seq::empty());
        assert(out[r].1 == xs.push(e));
    }
}

/// Ascending ids leave room: the last of `n` ids is at least `n - 1`.
pub proof fn lemma_last_id(tf: bool, xs: Seq<Entry>)
    requires
        list_ok(tf, xs),
        xs.len() > 0,
    ensures
        xs.len() <= xs.last().0 + 1,
    decreases xs.len(),
{
    if xs.len() > 1 {
        let init = xs.drop_last();
        assert(list_ok(tf, init)) by {
            assert forall|i: int, j: int| 0 <= i < j < init.len() implies (#[trigger] init[i]).0
                < (#[trigger] init[j]).0 by {
                assert(xs[i].0 < xs[j].0);
            }
            assert forall|i: int| 0 <= i < init.len() implies tf || (#[trigger] init[i]).1 == 1 by {
                assert(init[i] == xs[i]);
            }
        }
        lemma_last_id(tf, init);
        assert(xs[xs.len() - 2].0 < xs[xs.len() - 1].0);
    }
}

/// Entry `i` stands in a list behind the entries before it.
proof fn lemma_entry_at(tf: bool, xs: Seq<Entry>, i: int)
    requires
        0 <= i < xs.len(),
    ensures
        codec::has_at(
            list_bytes(tf, xs),
            list_bytes(tf, xs.take(i)).len() as int,
            last_bytes(tf, xs.take(i + 1)),
        ),
        list_bytes(tf, xs.take(i + 1)).len() == list_bytes(tf, xs.take(i)).len() + last_bytes(
            tf,
            xs.take(i + 1),
        ).len(),
        list_bytes(tf, xs.take(i + 1)).len() <= list_bytes(tf, xs).len(),
    decreases xs.len(),
{
    let b = list_bytes(tf, xs);
    let init = xs.drop_last();
    assert(xs.take(i + 1).drop_last() =~= xs.take(i));
    assert(codec::has_at(b, 0, b)) by {
        reveal(codec::has_at);
        assert(b.subrange(0, b.len() as int) =~= b);
    }
    codec::lemma_has_split(b, 0, list_bytes(tf, init), last_bytes(tf, xs));
    if i == xs.len() - 1 {
        assert(xs.take(i + 1) =~= xs);
        assert(xs.take(i) =~= init);
    } else {
        lemma_entry_at(tf, init, i);
        assert(init.take(i) =~= xs.take(i));
        assert(init.take(i + 1) =~= xs.take(i + 1));
        let at = list_bytes(tf, xs.take(i)).len() as int;
        let piece = last_bytes(tf, xs.take(i + 1));
        reveal(codec::has_at);
        assert(b.subrange(at, at + piece.len()) =~= list_bytes(tf, init).subrange(
            at,
            at + piece.len(),
        ));
    }
}

/// A walk over one list's entries, in ascending id order.
pub struct Entries<'a, const TF: bool> {
    bytes: &'a [u8],
    at: usize,
    prev: u32,
    first: bool,
    all: Ghost<Seq<Entry>>,
    done: Ghost<int>,
}

impl<'a, const TF: bool> Entries<'a, TF> {
    /// The entries not handed out yet.
    pub closed spec fn rest(&self) -> Seq<Entry> {
        self.all@.skip(self.done@)
    }

    pub closed spec fn wf(&self) -> bool {
        &&& list_ok(TF, self.all@)
        &&& 0 <= self.done@ <= self.all@.len()
        &&& self.bytes@ == list_bytes(TF, self.all@)
        &&& self.at == list_bytes(TF, self.all@.take(self.done@)).len()
        &&& self.first == (self.done@ == 0)
        &&& self.done@ > 0 ==> self.prev == self.all@[self.done@ - 1].0
    }

    /// What is left is valid too.
    pub broadcast proof fn lemma_rest(&self)
        requires
            #[trigger] self.wf(),
        ensures
            list_ok(TF, self.rest()),
    {
        let rest = self.rest();
        assert forall|i: int, j: int| 0 <= i < j < rest.len() implies (#[trigger] rest[i]).0
            < (#[trigger] rest[j]).0 by {
            assert(self.all@[i + self.done@].0 < self.all@[j + self.done@].0);
        }
        assert forall|i: int| 0 <= i < rest.len() implies TF || (#[trigger] rest[i]).1 == 1 by {
            assert(rest[i] == self.all@[i + self.done@]);
        }
    }

    /// The next entry.
    pub fn next(&mut self) -> (r: Option<(FactId, u8)>)
        requires
            old(self).wf(),
        ensures
            final(self).wf(),
            match r {
                Some((id, tf)) => old(self).rest().len() > 0 && (id.0, tf) == old(self).rest()[0] && final(self).rest() == old(self).rest().skip(1),
                None => old(self).rest().len() == 0 && final(self).rest() == old(self).rest(),
            },
    {
        let ghost xs = self.all@;
        let ghost i = self.done@;
        proof {
            if i < xs.len() {
                lemma_entry_at(TF, xs, i);
                let piece = last_bytes(TF, xs.take(i + 1));
                let delta = last_delta(xs.take(i + 1));
                if i > 0 {
                    assert(xs[i - 1].0 < xs[i].0);
                }
                let tail = if TF {
                    seq![xs[i].1]
                } else {
                    Seq::<u8>::empty()
                };
                codec::lemma_has_split(
                    self.bytes@,
                    self.at as int,
                    varint::leb(delta),
                    tail,
                );
                varint::lemma_varint_at(self.bytes@, self.at as int, delta as u32);
                varint::lemma_leb_len(delta);
                if TF {
                    reveal(codec::has_at);
                    let p = self.at + varint::leb(delta).len();
                    assert(self.bytes@.subrange(p as int, p + 1)[0] == tail[0]);
                }
            } else {
                assert(xs.take(i) =~= xs);
            }
        }
        if self.at >= self.bytes.len() {
            return None;
        }
        let (delta, end) = decode_u32_at(self.bytes, self.at).unwrap();
        let mut at: usize = end;
        let mut tf: u8 = 1;
        if TF {
            tf = self.bytes[at];
            at = at + 1;
        }
        let id: u32 = if self.first { delta } else { self.prev + delta };
        self.at = at;
        self.prev = id;
        self.first = false;
        proof {
            self.done@ = i + 1;
            assert(xs.skip(i).skip(1) =~= xs.skip(i + 1));
        }
        Some((FactId(id), tf))
    }
}

/// Key to sorted id list storage; `TF` adds a one-byte term frequency to every
/// entry (the BM25 flavor).
pub struct PostingStore<const TF: bool> {
    slots: Table<IdListSlot>,
    lists: Vec<Vec<u8>>,
    bytes: usize,
    max_bytes: usize,
    held: Ghost<Seq<List>>,
}

impl<const TF: bool> View for PostingStore<TF> {
    type V = Seq<List>;

    closed spec fn view(&self) -> Seq<List> {
        self.held@
    }
}

/// The header of a list.
pub open spec fn header_of(list: List) -> IdListSlot {
    IdListSlot {
        key: list.0,
        handle: model::empty_handle(),
        count: list.1.len() as u32,
        last: list.1.last().0,
    }
}

/// The headers of all lists.
pub open spec fn headers_of(v: Seq<List>) -> Seq<IdListSlot> {
    v.map_values(|l: List| header_of(l))
}

proof fn lemma_headers(tf: bool, v: Seq<List>, key: u32)
    requires
        lists_ok(tf, v),
    ensures
        table::ascending(headers_of(v)),
        table::has_key(headers_of(v), key as int) == lists_have(v, key),
        table::rank(headers_of(v), key as int) == list_rank(v, key),
{
    let h = headers_of(v);
    assert forall|i: int, j: int| 0 <= i < j < h.len() implies (#[trigger] h[i]).key()
        < (#[trigger] h[j]).key() by {
        assert(v[i].0 < v[j].0);
    }
    lemma_list_rank(tf, v, key);
    let r = list_rank(v, key);
    assert forall|i: int| 0 <= i < r implies (#[trigger] h[i]).key() < key by {
        assert(v[i].0 < key);
    }
    assert forall|i: int| r <= i < h.len() implies (#[trigger] h[i]).key() >= key by {
        assert(v[i].0 >= key);
    }
    table::lemma_rank_is(h, key as int, r);
    table::lemma_rank(h, key as int);
}

impl<const TF: bool> PostingStore<TF> {
    pub closed spec fn wf(&self) -> bool {
        &&& lists_ok(TF, self@)
        &&& self.slots.wf()
        &&& self.slots.ceiling() == self.max_bytes
        &&& self.slots@ == headers_of(self@)
        &&& self.lists@.len() == self@.len()
        &&& forall|i: int|
            0 <= i < self@.len() ==> (#[trigger] self.lists@[i])@ == list_bytes(TF, self@[i].1)
        &&& forall|i: int|
            0 <= i < self@.len() ==> (#[trigger] self@[i]).1.len() <= u32::MAX && list_bytes(
                TF,
                self@[i].1,
            ).len() <= u32::MAX && self@[i].1.last().0 < id::NONE_U32
        &&& self.bytes == store_bytes(TF, self@)
        &&& self.bytes <= self.max_bytes
    }

    /// The byte ceiling.
    pub closed spec fn ceiling(&self) -> int {
        self.max_bytes as int
    }

    pub broadcast proof fn lemma_wf(&self)
        ensures
            #[trigger] self.wf() ==> lists_ok(TF, self@) && store_bytes(TF, self@)
                <= self.ceiling() && self@.len() * 24 <= self.ceiling() && self@.len() <= usize::MAX,
            self.ceiling() <= usize::MAX,
            self.wf() ==> lists_bounded(TF, self@),
            self.wf() ==> forall|i: int|
                0 <= i < self@.len() ==> (#[trigger] self@[i]).1.last().0 < id::NONE_U32,
    {
        if self.wf() {
            self.slots.lemma_wf();
        }
    }

    /// An empty store; `max_bytes` bounds the headers and the lists.
    pub fn new(max_bytes: usize) -> (r: PostingStore<TF>)
        ensures
            r.wf(),
            r@ == Seq::<List>::empty(),
            r.ceiling() == max_bytes,
    {
        let r = PostingStore {
            slots: Table::new(max_bytes),
            lists: Vec::new(),
            bytes: 0,
            max_bytes,
            held: Ghost(Seq::empty()),
        };
        assert(headers_of(r@) =~= Seq::empty());
        r
    }

    /// Appends `(id, tf)` to `key`'s list. Ids arrive in strictly ascending
    /// order per key.
    pub fn push(&mut self, raw_key: u32, id: FactId, tf: u8) -> (r: Result<(), ArenaError>)
        requires
            old(self).wf(),
            id.0 < id::NONE_U32,
            entries_of(old(self)@, raw_key).len() > 0 ==> entries_of(
                old(self)@,
                raw_key,
            ).last().0 < id.0,
        ensures
            final(self).wf(),
            final(self).ceiling() == old(self).ceiling(),
            match r {
                Ok(()) => entry_pushed(
                    TF,
                    old(self)@,
                    old(self).ceiling(),
                    raw_key,
                    kept_entry(TF, id.0, tf),
                ) == Ok::<_, ArenaError>(final(self)@),
                Err(e) => entry_pushed(
                    TF,
                    old(self)@,
                    old(self).ceiling(),
                    raw_key,
                    kept_entry(TF, id.0, tf),
                ) == Err::<Seq<List>, _>(e) && final(self)@ == old(self)@,
            },
    {
        let ghost v = self@;
        let ghost e = kept_entry(TF, id.0, tf);
        let ghost xs = entries_of(v, raw_key);
        proof {
            lemma_headers(TF, v, raw_key);
            lemma_list_rank(TF, v, raw_key);
            appending_touches_one_list(TF, v, raw_key, e);
            lemma_store_push(TF, v, raw_key, e);
            self.slots.lemma_wf();
        }
        let at: usize = self.slots.lower_bound(raw_key as u128);
        let found: bool = at < self.slots.len() && self.slots.row(at).key == raw_key;
        let mut delta: u32 = id.0;
        if found {
            let slot = self.slots.row(at);
            assert(slot == header_of(v[at as int]));
            delta = id.0 - slot.last;
        }
        assert(delta as nat == last_delta(xs.push(e)));
        let mut piece: Vec<u8> = Vec::new();
        put_varint(&mut piece, delta);
        if TF {
            piece.push(tf);
        }
        assert(piece@ =~= last_bytes(TF, xs.push(e)));
        let mut len: usize = 0;
        if found {
            len = self.lists[at].len();
        }
        assert(len == list_bytes(TF, xs).len());
        if piece.len() > self.max_bytes - self.bytes {
            return Err(ArenaError::CapacityExceeded);
        }
        if len as u128 + piece.len() as u128 > u32::MAX as u128 {
            return Err(ArenaError::CapacityExceeded);
        }
        if found {
            proof {
                lemma_last_id(TF, xs);
            }
            let slot = self.slots.row(at);
            let updated = IdListSlot { count: slot.count + 1, last: id.0, ..slot };
            let ghost next = with_entry(v, raw_key, e);
            proof {
                assert(updated.key() == raw_key);
                assert(updated == header_of(next[at as int]));
                assert(headers_of(next) =~= table::replaced(self.slots@, updated));
            }
            self.slots.set(updated);
            let mut list: Vec<u8> = Vec::new();
            core::mem::swap(&mut self.lists[at], &mut list);
            codec::put_slice(&mut list, piece.as_slice());
            self.lists[at] = list;
            self.bytes = self.bytes + piece.len();
            proof {
                self.held@ = next;
                assert forall|i: int| 0 <= i < self@.len() implies (#[trigger] self.lists@[i])@
                    == list_bytes(TF, self@[i].1) by {
                    if i != at {
                        assert(self@[i] == v[i]);
                    }
                }
                assert forall|i: int| 0 <= i < self@.len() implies (#[trigger] self@[i]).1.len()
                    <= u32::MAX && list_bytes(TF, self@[i].1).len() <= u32::MAX
                    && self@[i].1.last().0 < id::NONE_U32 by {
                    if i != at {
                        assert(self@[i] == v[i]);
                    } else {
                        lemma_last_id(TF, self@[i].1);
                    }
                }
            }
        } else {
            let fresh = IdListSlot {
                key: raw_key,
                handle: ListHandle::empty(),
                count: 1,
                last: id.0,
            };
            match self.slots.insert(fresh) {
                Err(err) => {
                    return Err(err);
                },
                Ok(_) => {},
            }
            self.lists.insert(at, piece);
            self.bytes = self.bytes + self.lists[at].len();
            proof {
                let next = with_entry(v, raw_key, e);
                assert(fresh == header_of(next[at as int]));
                assert(headers_of(next) =~= table::with_row(headers_of(v), fresh));
                self.held@ = next;
                assert forall|i: int| 0 <= i < self@.len() implies (#[trigger] self.lists@[i])@
                    == list_bytes(TF, self@[i].1) by {
                    if i < at {
                        assert(self@[i] == v[i]);
                    } else if i > at {
                        assert(self@[i] == v[i - 1]);
                        assert(self.lists@[i] == old(self).lists@[i - 1]);
                    } else {
                        assert(xs =~= Seq::empty());
                        assert(xs.push(e) =~= seq![e]);
                    }
                }
                assert forall|i: int| 0 <= i < self@.len() implies (#[trigger] self@[i]).1.len()
                    <= u32::MAX && list_bytes(TF, self@[i].1).len() <= u32::MAX
                    && self@[i].1.last().0 < id::NONE_U32 by {
                    if i < at {
                        assert(self@[i] == v[i]);
                    } else if i > at {
                        assert(self@[i] == v[i - 1]);
                    } else {
                        assert(xs.push(e) =~= seq![e]);
                    }
                }
            }
        }
        Ok(())
    }

    /// Number of entries in `key`'s list (0 when absent): the document
    /// frequency for BM25 keys.
    pub fn count(&self, raw_key: u32) -> (r: u32)
        requires
            self.wf(),
        ensures
            r == entries_of(self@, raw_key).len(),
    {
        proof {
            lemma_headers(TF, self@, raw_key);
            lemma_list_rank(TF, self@, raw_key);
        }
        match self.slots.get(raw_key as u128) {
            Some(s) => s.count,
            None => 0,
        }
    }

    /// Walks `key`'s list as `(id, tf)` pairs in ascending id order (`tf` is 1
    /// for `TF = false` stores).
    pub fn entries<'b>(&'b self, raw_key: u32) -> (r: Entries<'b, TF>)
        requires
            self.wf(),
        ensures
            r.wf(),
            r.rest() == entries_of(self@, raw_key),
    {
        proof {
            lemma_headers(TF, self@, raw_key);
            lemma_list_rank(TF, self@, raw_key);
        }
        let at: usize = self.slots.lower_bound(raw_key as u128);
        let ghost xs = entries_of(self@, raw_key);
        proof {
            assert(xs.take(0) =~= Seq::empty());
            assert(xs.skip(0) =~= xs);
        }
        if at < self.slots.len() && self.slots.row(at).key == raw_key {
            Entries {
                bytes: self.lists[at].as_slice(),
                at: 0,
                prev: 0,
                first: true,
                all: Ghost(xs),
                done: Ghost(0),
            }
        } else {
            let none: &'b [u8] = &[];
            assert(none@ =~= Seq::empty());
            Entries {
                bytes: none,
                at: 0,
                prev: 0,
                first: true,
                all: Ghost(xs),
                done: Ghost(0),
            }
        }
    }

    /// Total bytes held by the headers and the lists.
    pub fn pool_bytes(&self) -> (r: u128)
        requires
            self.wf(),
        ensures
            r == self@.len() * 24 + store_bytes(TF, self@),
            r <= 0x2_0000_0000_0000_0000,
    {
        proof {
            self.slots.lemma_wf();
        }
        self.slots.pool_bytes() as u128 + self.bytes as u128
    }

    /// Number of distinct keys.
    pub fn keys(&self) -> (r: usize)
        requires
            self.wf(),
        ensures
            r == self@.len(),
    {
        self.slots.len()
    }

    /// Key number `i` in ascending order.
    pub fn key_at(&self, i: usize) -> (r: u32)
        requires
            self.wf(),
            i < self@.len(),
        ensures
            r == self@[i as int].0,
    {
        assert(self.slots@[i as int] == header_of(self@[i as int]));
        self.slots.row(i).key
    }

    /// The last id on list number `i`.
    pub fn last_at(&self, i: usize) -> (r: u32)
        requires
            self.wf(),
            i < self@.len(),
        ensures
            r == self@[i as int].1.last().0,
            self@[i as int].1.len() > 0,
    {
        assert(self.slots@[i as int] == header_of(self@[i as int]));
        self.slots.row(i).last
    }
}

/// Reads the entries of a stored list from `at` on, behind those in `acc`.
pub open spec fn list_walk(tf: bool, b: Seq<u8>, at: int, acc: Seq<Entry>) -> Result<
    Seq<Entry>,
    Error,
>
    decreases b.len() - at,
{
    if at < 0 || at >= b.len() {
        Ok(acc)
    } else {
        match varint::unleb(b, at, 0) {
            None => Err(Error::Corrupt("posting entry is malformed")),
            Some((delta, p)) => {
                let q = if tf { p + 1 } else { p };
                let id = if acc.len() == 0 { delta as int } else { acc.last().0 + delta };
                if tf && p >= b.len() {
                    Err(Error::Corrupt("posting entry is malformed"))
                } else if acc.len() > 0 && delta == 0 {
                    Err(Error::Corrupt("posting ids are not ascending"))
                } else if id >= id::NONE_U32 {
                    Err(Error::Corrupt("posting id overflows"))
                } else {
                    proof {
                        varint::lemma_unleb_bounds(b, at, 0);
                    }
                    list_walk(tf, b, q, acc.push((id as u32, if tf { b[p] } else { 1u8 })))
                }
            },
        }
    }
}

/// Row `k` claims list `list`.
pub open spec fn claims(rows: Seq<IdListSlot>, k: int, list: int) -> bool {
    rows[k].handle.list == list
}

/// One of the first `n` rows claims list `list`.
pub open spec fn claimed(rows: Seq<IdListSlot>, n: int, list: int) -> bool {
    exists|k: int| 0 <= k < n && #[trigger] claims(rows, k, list)
}

/// A header names a list that exists and agrees with its length.
pub open spec fn handle_ok(h: ListHandle, lists: Seq<Seq<u8>>) -> bool {
    h.list < lists.len() && h.reserved == 0 && h.bytes == lists[h.list as int].len()
}

/// Reads the lists of the first `n` headers.
pub open spec fn lists_read(
    tf: bool,
    rows: Seq<IdListSlot>,
    lists: Seq<Seq<u8>>,
    n: int,
) -> Result<Seq<List>, Error>
    decreases n,
{
    if n <= 0 {
        Ok(Seq::empty())
    } else {
        match lists_read(tf, rows, lists, n - 1) {
            Err(e) => Err(e),
            Ok(v) => {
                let s = rows[n - 1];
                if !handle_ok(s.handle, lists) || claimed(rows, n - 1, s.handle.list as int) {
                    Err(Error::Arena(ArenaError::Malformed))
                } else {
                    match list_walk(tf, lists[s.handle.list as int], 0, Seq::empty()) {
                        Err(e) => Err(e),
                        Ok(xs) => if xs.len() == 0 || xs.len() != s.count || xs.last().0
                            != s.last {
                            Err(Error::Corrupt("posting list disagrees with its handle"))
                        } else {
                            Ok(v.push((s.key, xs)))
                        },
                    }
                }
            },
        }
    }
}

/// What a stored posting store holds, from its header table and its lists.
pub open spec fn store_read(tf: bool, rows: Seq<IdListSlot>, lists: Seq<Seq<u8>>) -> Result<
    Seq<List>,
    Error,
> {
    match lists_read(tf, rows, lists, rows.len() as int) {
        Err(e) => Err(e),
        Ok(v) => if exists|l: int|
            0 <= l < lists.len() && !#[trigger] claimed(rows, rows.len() as int, l) {
            Err(Error::Corrupt("posting pool has orphan chunks"))
        } else {
            Ok(v)
        },
    }
}

/// What four stored sections hold.
pub open spec fn store_loaded(
    tf: bool,
    max_bytes: int,
    hm: Seq<u8>,
    hp: Seq<u8>,
    cm: Seq<u8>,
    cp: Seq<u8>,
) -> Result<Seq<List>, Error> {
    match table::table_loaded::<IdListSlot>(hm, hp, max_bytes) {
        Err(e) => Err(Error::Arena(e)),
        Ok(rows) => match heap::heap_loaded(cm, cp, max_bytes, u32::MAX as int) {
            Err(e) => Err(Error::Arena(e)),
            Ok(lists) => store_read(tf, rows, lists),
        },
    }
}

/// The header of list `i` as stored.
pub open spec fn stored_header(tf: bool, v: Seq<List>, i: int) -> IdListSlot {
    IdListSlot {
        handle: ListHandle {
            list: i as u32,
            bytes: list_bytes(tf, v[i].1).len() as u32,
            reserved: 0,
        },
        ..header_of(v[i])
    }
}

/// The headers as stored.
pub open spec fn stored_headers(tf: bool, v: Seq<List>) -> Seq<IdListSlot> {
    Seq::new(v.len(), |i: int| stored_header(tf, v, i))
}

/// The lists as stored.
pub open spec fn stored_lists(tf: bool, v: Seq<List>) -> Seq<Seq<u8>> {
    Seq::new(v.len(), |i: int| list_bytes(tf, v[i].1))
}

proof fn lemma_lists_err(tf: bool, rows: Seq<IdListSlot>, lists: Seq<Seq<u8>>, k: int, n: int)
    requires
        0 <= k <= n,
        lists_read(tf, rows, lists, k) is Err,
    ensures
        lists_read(tf, rows, lists, n) == lists_read(tf, rows, lists, k),
    decreases n,
{
    if k < n {
        lemma_lists_err(tf, rows, lists, k, n - 1);
    }
}

proof fn lemma_walk_list(tf: bool, xs: Seq<Entry>, i: int)
    requires
        list_ok(tf, xs),
        xs.len() > 0 ==> xs.last().0 < id::NONE_U32,
        0 <= i <= xs.len(),
    ensures
        list_walk(
            tf,
            list_bytes(tf, xs),
            list_bytes(tf, xs.take(i)).len() as int,
            xs.take(i),
        ) == Ok::<_, Error>(xs),
    decreases xs.len() - i,
{
    let b = list_bytes(tf, xs);
    let at = list_bytes(tf, xs.take(i)).len() as int;
    if i == xs.len() {
        assert(xs.take(i) =~= xs);
    } else {
        lemma_entry_at(tf, xs, i);
        let delta = last_delta(xs.take(i + 1));
        let acc = xs.take(i);
        if i > 0 {
            assert(xs[i - 1].0 < xs[i].0);
            assert(acc.last() == xs[i - 1]);
        }
        if i < xs.len() - 1 {
            assert(xs[i].0 < xs[xs.len() - 1].0);
        }
        let tail = if tf {
            seq![xs[i].1]
        } else {
            Seq::<u8>::empty()
        };
        codec::lemma_has_split(b, at, varint::leb(delta), tail);
        varint::lemma_varint_at(b, at, delta as u32);
        varint::lemma_leb_len(delta);
        let p = at + varint::leb(delta).len();
        if tf {
            reveal(codec::has_at);
            assert(b.subrange(p, p + 1)[0] == tail[0]);
        }
        assert(acc.push(xs[i]) =~= xs.take(i + 1));
        lemma_walk_list(tf, xs, i + 1);
    }
}

proof fn lemma_lists_read(tf: bool, v: Seq<List>, n: int)
    requires
        lists_ok(tf, v),
        v.len() <= u32::MAX,
        0 <= n <= v.len(),
        forall|i: int|
            0 <= i < v.len() ==> (#[trigger] v[i]).1.len() <= u32::MAX && list_bytes(
                tf,
                v[i].1,
            ).len() <= u32::MAX && v[i].1.last().0 < id::NONE_U32,
    ensures
        lists_read(tf, stored_headers(tf, v), stored_lists(tf, v), n) == Ok::<_, Error>(v.take(n)),
    decreases n,
{
    let rows = stored_headers(tf, v);
    let lists = stored_lists(tf, v);
    if n > 0 {
        lemma_lists_read(tf, v, n - 1);
        let s = rows[n - 1];
        let xs = v[n - 1].1;
        assert(lists[n - 1] == list_bytes(tf, xs));
        if claimed(rows, n - 1, n - 1) {
            let k = choose|k: int| 0 <= k < n - 1 && #[trigger] claims(rows, k, n - 1);
            assert(rows[k].handle.list == k);
        }
        lemma_walk_list(tf, xs, 0);
        assert(xs.take(0) =~= Seq::empty());
        assert(v.take(n) =~= v.take(n - 1).push(v[n - 1]));
    } else {
        assert(v.take(0) =~= Seq::empty());
    }
}

/// Every list is short enough for its header.
pub open spec fn lists_bounded(tf: bool, v: Seq<List>) -> bool {
    forall|i: int|
        0 <= i < v.len() ==> (#[trigger] v[i]).1.len() <= u32::MAX && list_bytes(
            tf,
            v[i].1,
        ).len() <= u32::MAX && v[i].1.last().0 < id::NONE_U32
}

proof fn lemma_lists_total(tf: bool, v: Seq<List>, n: nat)
    requires
        n <= v.len(),
    ensures
        heap::total_bytes(stored_lists(tf, v).take(n as int)) == store_bytes(
            tf,
            v.take(n as int),
        ),
    decreases n,
{
    let all = stored_lists(tf, v);
    if n > 0 {
        assert(all.take(n as int).drop_last() =~= all.take(n - 1));
        assert(v.take(n as int).drop_last() =~= v.take(n - 1));
        lemma_lists_total(tf, v, (n - 1) as nat);
    }
}

/// A store loads back from its four sections.
pub proof fn sections_round_trip(tf: bool, v: Seq<List>, max_bytes: int)
    requires
        lists_ok(tf, v),
        lists_bounded(tf, v),
        v.len() <= u32::MAX,
        v.len() * 24 <= max_bytes,
        store_bytes(tf, v) <= max_bytes,
    ensures
        store_loaded(
            tf,
            max_bytes,
            codec::le64(v.len() as u64),
            table::rows_bytes(stored_headers(tf, v)),
            heap::index_bytes(stored_lists(tf, v)),
            heap::pool_content(stored_lists(tf, v)),
        ) == Ok::<_, Error>(v),
{
    let rows = stored_headers(tf, v);
    let lists = stored_lists(tf, v);
    assert forall|i: int, j: int| 0 <= i < j < rows.len() implies (#[trigger] rows[i]).key()
        < (#[trigger] rows[j]).key() by {
        assert(v[i].0 < v[j].0);
    }
    table::table_round_trip(rows, max_bytes);
    lemma_lists_total(tf, v, v.len());
    assert(lists.take(v.len() as int) =~= lists);
    assert(v.take(v.len() as int) =~= v);
    heap::heap_round_trip(lists, max_bytes, u32::MAX as int);
    store_round_trip(tf, v);
}

/// A store reads back from its headers and lists.
pub proof fn store_round_trip(tf: bool, v: Seq<List>)
    requires
        lists_ok(tf, v),
        v.len() <= u32::MAX,
        lists_bounded(tf, v),
    ensures
        store_read(tf, stored_headers(tf, v), stored_lists(tf, v)) == Ok::<_, Error>(v),
{
    lemma_lists_read(tf, v, v.len() as int);
    let rows = stored_headers(tf, v);
    assert(v.take(v.len() as int) =~= v);
    assert forall|l: int| 0 <= l < v.len() implies #[trigger] claimed(rows, v.len() as int, l) by {
        assert(claims(rows, l, l));
    }
}

/// The shortest form of a number is never longer than a form it was read from.
proof fn lemma_shortest(b: Seq<u8>, i: int, group: nat)
    requires
        0 <= i,
    ensures
        varint::unleb(b, i, group) matches Some((v, end)) ==> varint::leb(v).len() <= end - i,
    decreases 5 - group,
{
    if group < 5 && i < b.len() {
        lemma_shortest(b, i + 1, group + 1);
        varint::lemma_unleb_bounds(b, i, group);
    }
}

/// Reads one stored list into its entries and their shortest encoding.
fn read_list<const TF: bool>(bytes: &[u8]) -> (r: Result<(Vec<u8>, u32, u32, Ghost<Seq<Entry>>), Error>)
    requires
        bytes@.len() <= u32::MAX,
    ensures
        match r {
            Ok((list, count, last, xs)) => list_walk(TF, bytes@, 0, Seq::empty()) == Ok::<
                _,
                Error,
            >(xs@) && list_ok(TF, xs@) && list@ == list_bytes(TF, xs@) && list@.len()
                <= bytes@.len() && count == xs@.len() && (count > 0 ==> last == xs@.last().0 && last
                < id::NONE_U32),
            Err(e) => list_walk(TF, bytes@, 0, Seq::empty()) == Err::<Seq<Entry>, _>(e),
        },
{
    let ghost mut xs: Seq<Entry> = Seq::empty();
    let mut list: Vec<u8> = Vec::new();
    let mut at: usize = 0;
    let mut last: u32 = 0;
    let mut count: u32 = 0;
    while at < bytes.len()
        invariant
            at <= bytes@.len() <= u32::MAX,
            count == xs.len(),
            count <= at,
            list_ok(TF, xs),
            xs.len() > 0 ==> last == xs.last().0 && last < id::NONE_U32,
            list@ == list_bytes(TF, xs),
            list@.len() <= at,
            list_walk(TF, bytes@, 0, Seq::empty()) == list_walk(TF, bytes@, at as int, xs),
        decreases bytes@.len() - at,
    {
        proof {
            varint::lemma_unleb_bounds(bytes@, at as int, 0);
            lemma_shortest(bytes@, at as int, 0);
        }
        let (delta, p) = match decode_u32_at(bytes, at) {
            Some(x) => x,
            None => return Err(Error::Corrupt("posting entry is malformed")),
        };
        let mut q: usize = p;
        let mut tf: u8 = 1;
        if TF {
            if p >= bytes.len() {
                return Err(Error::Corrupt("posting entry is malformed"));
            }
            tf = bytes[p];
            q = p + 1;
        }
        if count > 0 && delta == 0 {
            return Err(Error::Corrupt("posting ids are not ascending"));
        }
        let id: u64 = if count == 0 { delta as u64 } else { last as u64 + delta as u64 };
        if id >= id::NONE_U32 as u64 {
            return Err(Error::Corrupt("posting id overflows"));
        }
        put_varint(&mut list, delta);
        if TF {
            list.push(tf);
        }
        proof {
            let e: Entry = (id as u32, tf);
            let next = xs.push(e);
            assert(next.drop_last() =~= xs);
            assert(list@ =~= list_bytes(TF, next));
            assert forall|i: int, j: int| 0 <= i < j < next.len() implies (#[trigger] next[i]).0
                < (#[trigger] next[j]).0 by {
                if j == xs.len() && i < xs.len() - 1 {
                    assert(xs[i].0 < xs[xs.len() - 1].0);
                }
            }
            xs = next;
        }
        last = id as u32;
        count = count + 1;
        at = q;
    }
    Ok((list, count, last, Ghost(xs)))
}

impl<const TF: bool> PostingStore<TF> {
    /// The header table's meta section.
    pub fn handles_meta(&self) -> (r: Vec<u8>)
        requires
            self.wf(),
        ensures
            r@ == codec::le64(self@.len() as u64),
    {
        self.slots.dump_meta()
    }

    /// The header table's pool section.
    pub fn handles_pool(&self) -> (r: Vec<u8>)
        requires
            self.wf(),
        ensures
            r@ == table::rows_bytes(stored_headers(TF, self@)),
    {
        let mut out: Vec<u8> = Vec::new();
        let ghost all = stored_headers(TF, self@);
        let ghost f = |row: IdListSlot| row.bytes();
        let mut i: usize = 0;
        assert(all.take(0) =~= Seq::empty());
        while i < self.slots.len()
            invariant
                i <= self@.len(),
                self.wf(),
                all == stored_headers(TF, self@),
                f == (|row: IdListSlot| row.bytes()),
                out@ == crate::parse::flat(f, all.take(i as int)),
            decreases self@.len() - i,
        {
            let head = self.slots.row(i);
            assert(head == header_of(self@[i as int]));
            let handle = ListHandle {
                list: i as u32,
                bytes: self.lists[i].len() as u32,
                reserved: 0,
            };
            let row = IdListSlot { handle, ..head };
            assert(row == all[i as int]);
            row.write(&mut out);
            proof {
                assert(all.take(i + 1) =~= all.take(i as int).push(all[i as int]));
                crate::parse::lemma_flat_push(f, all.take(i as int), all[i as int]);
            }
            i = i + 1;
        }
        assert(all.take(i as int) =~= all);
        out
    }

    /// The list lengths, as the list pool's meta section.
    pub fn chunks_meta(&self) -> (r: Vec<u8>)
        requires
            self.wf(),
        ensures
            r@ == heap::index_bytes(stored_lists(TF, self@)),
    {
        let mut out: Vec<u8> = Vec::new();
        let ghost all = stored_lists(TF, self@);
        let ghost f = |b: Seq<u8>| codec::le32(b.len() as u32);
        let mut i: usize = 0;
        assert(all.take(0) =~= Seq::empty());
        while i < self.lists.len()
            invariant
                i <= self@.len(),
                self.wf(),
                all == stored_lists(TF, self@),
                f == (|b: Seq<u8>| codec::le32(b.len() as u32)),
                out@ == crate::parse::flat(f, all.take(i as int)),
            decreases self@.len() - i,
        {
            codec::put_u32(&mut out, self.lists[i].len() as u32);
            proof {
                assert(all[i as int] == self.lists@[i as int]@);
                assert(all.take(i + 1) =~= all.take(i as int).push(all[i as int]));
                crate::parse::lemma_flat_push(f, all.take(i as int), all[i as int]);
            }
            i = i + 1;
        }
        assert(all.take(i as int) =~= all);
        out
    }

    /// The lists one behind the other, as the list pool's section.
    pub fn chunks_pool(&self) -> (r: Vec<u8>)
        requires
            self.wf(),
        ensures
            r@ == heap::pool_content(stored_lists(TF, self@)),
    {
        let mut out: Vec<u8> = Vec::new();
        let ghost all = stored_lists(TF, self@);
        let ghost f = |b: Seq<u8>| b;
        let mut i: usize = 0;
        assert(all.take(0) =~= Seq::empty());
        while i < self.lists.len()
            invariant
                i <= self@.len(),
                self.wf(),
                all == stored_lists(TF, self@),
                f == (|b: Seq<u8>| b),
                out@ == crate::parse::flat(f, all.take(i as int)),
            decreases self@.len() - i,
        {
            codec::put_slice(&mut out, self.lists[i].as_slice());
            proof {
                assert(all[i as int] == self.lists@[i as int]@);
                assert(all.take(i + 1) =~= all.take(i as int).push(all[i as int]));
                crate::parse::lemma_flat_push(f, all.take(i as int), all[i as int]);
            }
            i = i + 1;
        }
        assert(all.take(i as int) =~= all);
        out
    }

    /// Rebuilds a store from its headers and lists, validating every list:
    /// each is claimed by exactly one header, decodes to ascending ids, and
    /// agrees with its header's count and last id.
    fn validate_lists(rows: &Table<IdListSlot>, lists: &BlobHeap, max_bytes: usize) -> (r: Result<
        PostingStore<TF>,
        Error,
    >)
        requires
            rows.wf(),
            rows.ceiling() == max_bytes,
            lists.wf(),
            lists.ceiling() == max_bytes,
            lists.blob_ceiling() == u32::MAX,
        ensures
            match r {
                Ok(s) => s.wf() && s.ceiling() == max_bytes && store_read(
                    TF,
                    rows@,
                    lists@,
                ) == Ok::<_, Error>(s@),
                Err(e) => store_read(TF, rows@, lists@) == Err::<Seq<List>, _>(e),
            },
    {
        proof {
            rows.lemma_wf();
            lists.lemma_wf();
        }
        let n: usize = rows.len();
        let m: usize = lists.len();
        let mut visited: Vec<bool> = Vec::new();
        visited.resize(m, false);
        let mut out: PostingStore<TF> = PostingStore::new(max_bytes);
        let mut i: usize = 0;
        proof {
            lemma_unclaimed_all(rows@, lists@, m as int);
        }
        while i < n
            invariant
                i <= n,
                n == rows@.len(),
                m == lists@.len(),
                rows.wf(),
                lists.wf(),
                rows.ceiling() == max_bytes,
                lists.ceiling() == max_bytes,
                lists.blob_ceiling() == u32::MAX,
                visited@.len() == m,
                forall|l: int| 0 <= l < m ==> (#[trigger] visited@[l] <==> claimed(
                    rows@,
                    i as int,
                    l,
                )),
                out.wf(),
                out.ceiling() == max_bytes,
                lists_read(TF, rows@, lists@, i as int) == Ok::<_, Error>(out@),
                out@.len() == i,
                forall|k: int| 0 <= k < i ==> (#[trigger] out@[k]).0 == rows@[k].key,
                store_bytes(TF, out@) + unclaimed_bytes(rows@, i as int, lists@, m as int)
                    <= max_bytes,
            decreases n - i,
        {
            proof {
                rows.lemma_wf();
                lists.lemma_wf();
            }
            let s: IdListSlot = rows.row(i);
            let l: u32 = s.handle.list;
            let mut sound: bool = (l as usize) < m && s.handle.reserved == 0;
            if sound {
                sound = s.handle.bytes as usize == lists.get(BlobId(l)).len()
                    && !visited[l as usize];
            }
            if !sound {
                proof {
                    lemma_lists_err(TF, rows@, lists@, i + 1, n as int);
                }
                return Err(Error::Arena(ArenaError::Malformed));
            }
            match read_list::<TF>(lists.get(BlobId(l))) {
                Err(e) => {
                    proof {
                        lemma_lists_err(TF, rows@, lists@, i + 1, n as int);
                    }
                    return Err(e);
                },
                Ok((list, count, last, xs)) => {
                    if count == 0 || count != s.count || last != s.last {
                        proof {
                            lemma_lists_err(TF, rows@, lists@, i + 1, n as int);
                        }
                        return Err(Error::Corrupt("posting list disagrees with its handle"));
                    }
                    visited[l as usize] = true;
                    proof {
                        lemma_claim_one(rows@, i as int, lists@, m as int, l as int);
                        if i > 0 {
                            assert(rows@[i - 1].key() < rows@[i as int].key());
                        }
                        assert forall|x: int| 0 <= x < m implies (#[trigger] visited@[x]
                            <==> claimed(rows@, i + 1, x)) by {
                            if x == l {
                                assert(claims(rows@, i as int, x));
                            } else if claimed(rows@, i + 1, x) {
                                let k = choose|k: int|
                                    0 <= k < i + 1 && #[trigger] claims(rows@, k, x);
                                assert(claims(rows@, k, x));
                            } else if claimed(rows@, i as int, x) {
                                let k = choose|k: int|
                                    0 <= k < i && #[trigger] claims(rows@, k, x);
                                assert(claims(rows@, k, x));
                            }
                        }
                        assert forall|k: int| 0 <= k < i implies (#[trigger] out@[k]).0
                            < s.key by {
                            assert(rows@[k].key() < rows@[i as int].key());
                        }
                        lemma_store_nonneg(TF, out@);
                        lemma_unclaimed_nonneg(rows@, i + 1, lists@, m as int);
                    }
                    out.append_list(s.key, list, count, last, xs);
                },
            }
            i = i + 1;
        }
        let mut l: usize = 0;
        while l < m
            invariant
                l <= m,
                m == lists@.len(),
                n == rows@.len(),
                visited@.len() == m,
                out.wf(),
                out.ceiling() == max_bytes,
                lists_read(TF, rows@, lists@, n as int) == Ok::<_, Error>(out@),
                forall|x: int| 0 <= x < m ==> (#[trigger] visited@[x] <==> claimed(
                    rows@,
                    n as int,
                    x,
                )),
                forall|x: int| 0 <= x < l ==> #[trigger] visited@[x],
            decreases m - l,
        {
            if !visited[l] {
                assert(!claimed(rows@, n as int, l as int));
                return Err(Error::Corrupt("posting pool has orphan chunks"));
            }
            l = l + 1;
        }
        assert forall|x: int| 0 <= x < m implies #[trigger] claimed(rows@, n as int, x) by {
            assert(visited@[x]);
        }
        Ok(out)
    }

    /// Puts a whole list behind all others.
    fn append_list(&mut self, key: u32, list: Vec<u8>, count: u32, last: u32, xs: Ghost<Seq<Entry>>)
        requires
            old(self).wf(),
            list_ok(TF, xs@),
            xs@.len() == count,
            0 < count,
            last == xs@.last().0,
            last < id::NONE_U32,
            list@ == list_bytes(TF, xs@),
            list@.len() <= u32::MAX,
            store_bytes(TF, old(self)@) + list@.len() <= old(self).ceiling(),
            (old(self)@.len() + 1) * 24 <= old(self).ceiling(),
            forall|k: int| 0 <= k < old(self)@.len() ==> (#[trigger] old(self)@[k]).0 < key,
        ensures
            final(self).wf(),
            final(self).ceiling() == old(self).ceiling(),
            final(self)@ == old(self)@.push((key, xs@)),
            store_bytes(TF, final(self)@) == store_bytes(TF, old(self)@) + list@.len(),
    {
        let ghost v = self@;
        let ghost next = v.push((key, xs@));
        let fresh = IdListSlot { key, handle: ListHandle::empty(), count, last };
        proof {
            lemma_headers(TF, v, key);
            lemma_list_rank(TF, v, key);
            assert(list_rank(v, key) == v.len());
            assert(headers_of(next) =~= table::with_row(headers_of(v), fresh));
            assert(next.drop_last() =~= v);
        }
        let _ = self.slots.insert(fresh);
        self.bytes = self.bytes + list.len();
        self.lists.push(list);
        proof {
            self.held@ = next;
            assert forall|i: int| 0 <= i < self@.len() implies (#[trigger] self.lists@[i])@
                == list_bytes(TF, self@[i].1) by {
                if i < v.len() {
                    assert(self@[i] == v[i]);
                }
            }
            assert forall|i: int| 0 <= i < self@.len() implies (#[trigger] self@[i]).1.len()
                <= u32::MAX && list_bytes(TF, self@[i].1).len() <= u32::MAX && self@[i].1.last().0
                < id::NONE_U32 by {
                if i < v.len() {
                    assert(self@[i] == v[i]);
                }
            }
            assert forall|i: int, j: int| 0 <= i < j < next.len() implies (#[trigger] next[i]).0
                < (#[trigger] next[j]).0 by {
                assert(next[i] == v[i]);
                if j < v.len() {
                    assert(next[j] == v[j]);
                }
            }
            assert forall|i: int| 0 <= i < next.len() implies list_ok(TF, (#[trigger] next[i]).1)
                && next[i].1.len() > 0 by {
                if i < v.len() {
                    assert(next[i] == v[i]);
                }
            }
        }
    }

    /// Rebuilds a store from its four sections.
    pub fn load_sections(
        max_bytes: usize,
        hm: &[u8],
        hp: &[u8],
        cm: &[u8],
        cp: &[u8],
    ) -> (r: Result<PostingStore<TF>, Error>)
        ensures
            match r {
                Ok(s) => s.wf() && s.ceiling() == max_bytes && store_loaded(
                    TF,
                    max_bytes as int,
                    hm@,
                    hp@,
                    cm@,
                    cp@,
                ) == Ok::<_, Error>(s@),
                Err(e) => store_loaded(TF, max_bytes as int, hm@, hp@, cm@, cp@) == Err::<
                    Seq<List>,
                    _,
                >(e),
            },
    {
        let rows: Table<IdListSlot> = match Table::load(hm, hp, max_bytes) {
            Ok(t) => t,
            Err(e) => return Err(Error::Arena(e)),
        };
        let lists: BlobHeap = match BlobHeap::load(cm, cp, max_bytes, u32::MAX as usize) {
            Ok(h) => h,
            Err(e) => return Err(Error::Arena(e)),
        };
        Self::validate_lists(&rows, &lists, max_bytes)
    }
}

/// Bytes of the first `m` lists that no row of the first `n` claims.
spec fn unclaimed_bytes(rows: Seq<IdListSlot>, n: int, lists: Seq<Seq<u8>>, m: int) -> int
    decreases m,
{
    if m <= 0 {
        0
    } else {
        unclaimed_bytes(rows, n, lists, m - 1) + if claimed(rows, n, m - 1) {
            0
        } else {
            lists[m - 1].len() as int
        }
    }
}

proof fn lemma_unclaimed_nonneg(rows: Seq<IdListSlot>, n: int, lists: Seq<Seq<u8>>, m: int)
    ensures
        0 <= unclaimed_bytes(rows, n, lists, m),
    decreases m,
{
    if m > 0 {
        lemma_unclaimed_nonneg(rows, n, lists, m - 1);
    }
}

proof fn lemma_unclaimed_all(rows: Seq<IdListSlot>, lists: Seq<Seq<u8>>, m: int)
    requires
        0 <= m <= lists.len(),
    ensures
        unclaimed_bytes(rows, 0, lists, m) == heap::total_bytes(lists.take(m)),
        m == lists.len() ==> unclaimed_bytes(rows, 0, lists, m) == heap::total_bytes(lists),
    decreases m,
{
    if m > 0 {
        lemma_unclaimed_all(rows, lists, m - 1);
        assert(lists.take(m).drop_last() =~= lists.take(m - 1));
    } else {
        assert(lists.take(0) =~= Seq::empty());
    }
    if m == lists.len() {
        assert(lists.take(m) =~= lists);
    }
}

/// Claiming one more list takes its bytes out of the unclaimed ones.
proof fn lemma_claim_one(rows: Seq<IdListSlot>, n: int, lists: Seq<Seq<u8>>, m: int, l: int)
    requires
        0 <= n < rows.len(),
        0 <= m <= lists.len(),
        rows[n].handle.list == l,
        0 <= l,
        !claimed(rows, n, l),
    ensures
        l < m ==> unclaimed_bytes(rows, n, lists, m) == unclaimed_bytes(rows, n + 1, lists, m)
            + lists[l].len(),
        l >= m ==> unclaimed_bytes(rows, n, lists, m) == unclaimed_bytes(rows, n + 1, lists, m),
    decreases m,
{
    if m > 0 {
        lemma_claim_one(rows, n, lists, m - 1, l);
        if l == m - 1 {
            assert(claims(rows, n, l));
        } else {
            if claimed(rows, n + 1, m - 1) {
                let k = choose|k: int| 0 <= k < n + 1 && #[trigger] claims(rows, k, m - 1);
                assert(claims(rows, k, m - 1));
            } else if claimed(rows, n, m - 1) {
                let k = choose|k: int| 0 <= k < n && #[trigger] claims(rows, k, m - 1);
                assert(claims(rows, k, m - 1));
            }
        }
    }
}

} // verus!
