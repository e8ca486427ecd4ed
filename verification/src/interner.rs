//! The interner: every distinct term once, under a dense, stable id.

use crate::codec;
use crate::codec::{get_u32, put_u32};
use crate::error::ArenaError;
use crate::heap;
use crate::heap::BlobHeap;
use crate::id;
use crate::id::{BlobId, TermId};
use crate::parse;
use crate::text;
use crate::text::{str_before, str_eq, str_from_utf8};
use vstd::prelude::*;
use vstd::string::*;
use vstd::utf8::*;

verus! {

/// No term occurs twice.
pub open spec fn distinct(terms: Seq<Seq<char>>) -> bool {
    forall|i: int, j: int|
        0 <= i < j < terms.len() ==> #[trigger] terms[i] != #[trigger] terms[j]
}

/// The id of `t`, if it is interned.
pub open spec fn lookup_of(terms: Seq<Seq<char>>, t: Seq<char>) -> Option<TermId> {
    if terms.contains(t) {
        Some(TermId(terms.index_of(t) as u32))
    } else {
        None
    }
}

/// The terms as byte strings.
pub open spec fn term_blobs(terms: Seq<Seq<char>>) -> Seq<Seq<u8>> {
    terms.map_values(|t: Seq<char>| encode_utf8(t))
}

/// What interning `t` does: a new term takes the next id.
pub open spec fn interned(
    terms: Seq<Seq<char>>,
    max_bytes: int,
    max_blob: int,
    t: Seq<char>,
) -> Result<(Seq<Seq<char>>, TermId), ArenaError> {
    match lookup_of(terms, t) {
        Some(id) => Ok((terms, id)),
        None => match heap::pushed(term_blobs(terms), max_bytes, max_blob, encode_utf8(t)) {
            Err(e) => Err(e),
            Ok((_, id)) => Ok((terms.push(t), TermId(id.0))),
        },
    }
}

pub proof fn lemma_lookup(terms: Seq<Seq<char>>, i: int)
    requires
        distinct(terms),
        0 <= i < terms.len() <= id::NONE_U32,
    ensures
        lookup_of(terms, terms[i]) == Some(TermId(i as u32)),
{
    assert(terms.contains(terms[i]));
    let k = terms.index_of(terms[i]);
    assert(0 <= k < terms.len() && terms[k] == terms[i]);
    if k < i {
        assert(terms[k] != terms[i]);
    } else if i < k {
        assert(terms[i] != terms[k]);
    }
}

/// Interning keeps every id: old terms stay where they are, and the new one is
/// found under the id it got.
pub proof fn interning_keeps_ids(
    terms: Seq<Seq<char>>,
    max_bytes: int,
    max_blob: int,
    t: Seq<char>,
)
    requires
        distinct(terms),
        terms.len() <= id::NONE_U32,
    ensures
        interned(terms, max_bytes, max_blob, t) matches Ok((out, id)) ==> {
            &&& distinct(out)
            &&& out.len() <= id::NONE_U32
            &&& terms.is_prefix_of(out)
            &&& id.0 < out.len()
            &&& out[id.0 as int] == t
            &&& lookup_of(out, t) == Some(id)
            &&& forall|s: Seq<char>|
                s != t ==> #[trigger] lookup_of(out, s) == lookup_of(terms, s)
        },
{
    if let Ok((out, id)) = interned(terms, max_bytes, max_blob, t) {
        if terms.contains(t) {
            let k = terms.index_of(t);
            assert(0 <= k < terms.len() && terms[k] == t);
        } else {
            assert(out =~= terms.push(t));
            assert forall|i: int, j: int| 0 <= i < j < out.len() implies #[trigger] out[i]
                != #[trigger] out[j] by {
                if j == terms.len() {
                    assert(terms.contains(terms[i]));
                }
            }
            assert(out[terms.len() as int] == t);
            lemma_lookup(out, terms.len() as int);
            assert forall|s: Seq<char>| s != t implies #[trigger] lookup_of(out, s) == lookup_of(
                terms,
                s,
            ) by {
                if terms.contains(s) {
                    let k = terms.index_of(s);
                    assert(0 <= k < terms.len() && terms[k] == s);
                    assert(out[k] == s);
                    lemma_lookup(terms, k);
                    lemma_lookup(out, k);
                } else if out.contains(s) {
                    let k = out.index_of(s);
                    assert(0 <= k < out.len() && out[k] == s);
                    assert(terms[k] == s);
                }
            }
        }
    }
}

pub open spec fn string_views(xs: Seq<String>) -> Seq<Seq<char>> {
    xs.map_values(|s: String| s@)
}

/// `order` lists every term id once, by ascending term.
pub open spec fn order_ok(order: Seq<u32>, terms: Seq<Seq<char>>) -> bool {
    &&& order.len() == terms.len()
    &&& forall|p: int| 0 <= p < order.len() ==> (#[trigger] order[p]) < terms.len()
    &&& forall|p: int, q: int|
        0 <= p < q < order.len() ==> text::str_lt(
            terms[(#[trigger] order[p]) as int],
            terms[(#[trigger] order[q]) as int],
        )
    &&& forall|i: int| 0 <= i < terms.len() ==> #[trigger] listed(order, i)
}

/// The number `i` occurs in `order`.
pub open spec fn listed(order: Seq<u32>, i: int) -> bool {
    exists|p: int| 0 <= p < order.len() && #[trigger] order[p] == i
}

/// The ids of some terms by ascending term.
pub open spec fn order_of(terms: Seq<Seq<char>>) -> Seq<u32> {
    choose|order: Seq<u32>| order_ok(order, terms)
}

/// There is one ascending order at most.
pub proof fn order_is_unique(a: Seq<u32>, b: Seq<u32>, terms: Seq<Seq<char>>)
    requires
        order_ok(a, terms),
        order_ok(b, terms),
    ensures
        a == b,
{
    lemma_same_order(a, b, terms, a.len() as int);
    assert(a =~= b);
}

proof fn lemma_same_order(a: Seq<u32>, b: Seq<u32>, terms: Seq<Seq<char>>, n: int)
    requires
        order_ok(a, terms),
        order_ok(b, terms),
        0 <= n <= a.len(),
    ensures
        forall|p: int| 0 <= p < n ==> #[trigger] a[p] == b[p],
    decreases n,
{
    if n > 0 {
        let p = n - 1;
        lemma_same_order(a, b, terms, p);
        let x = terms[a[p] as int];
        let y = terms[b[p] as int];
        assert(listed(b, a[p] as int) && listed(a, b[p] as int));
        let q = choose|q: int| 0 <= q < b.len() && #[trigger] b[q] == a[p];
        let r = choose|r: int| 0 <= r < a.len() && #[trigger] a[r] == b[p];
        text::lemma_str_total(x, y);
        text::lemma_str_total(x, x);
        text::lemma_str_total(y, y);
        if q < p {
            assert(a[q] == b[q]);
            assert(text::str_lt(terms[a[q] as int], terms[a[p] as int]));
        } else if q > p {
            assert(text::str_lt(terms[b[p] as int], terms[b[q] as int]));
            if r < p {
                assert(a[r] == b[r]);
                assert(text::str_lt(terms[b[r] as int], terms[b[p] as int]));
            } else if r > p {
                assert(text::str_lt(terms[a[p] as int], terms[a[r] as int]));
            }
        }
    }
}

/// The sorted order, as the interner's table section.
pub open spec fn order_bytes(order: Seq<u32>) -> Seq<u8> {
    parse::flat(|v: u32| codec::le32(v), order)
}

/// Every distinct term once.
#[derive(Debug)]
pub struct Interner {
    terms: Vec<String>,
    /// Term ids by ascending term.
    order: Vec<u32>,
    bytes: usize,
    max_bytes: usize,
    max_blob: usize,
}

impl View for Interner {
    type V = Seq<Seq<char>>;

    closed spec fn view(&self) -> Seq<Seq<char>> {
        string_views(self.terms@)
    }
}

impl Interner {
    pub closed spec fn wf(&self) -> bool {
        &&& distinct(self@)
        &&& order_ok(self.order@, self@)
        &&& self.bytes == heap::total_bytes(term_blobs(self@))
        &&& self.bytes <= self.max_bytes
        &&& self@.len() <= id::NONE_U32
        &&& forall|i: int|
            0 <= i < self@.len() ==> encode_utf8(#[trigger] self@[i]).len() <= self.max_blob
    }

    pub closed spec fn ceiling(&self) -> int {
        self.max_bytes as int
    }

    pub closed spec fn blob_ceiling(&self) -> int {
        self.max_blob as int
    }

    /// The term ids by ascending term.
    pub closed spec fn sorted_ids(&self) -> Seq<u32> {
        self.order@
    }

    pub broadcast proof fn lemma_wf(&self)
        ensures
            #[trigger] self.wf() ==> distinct(self@) && self@.len() <= id::NONE_U32 && order_ok(
                self.sorted_ids(),
                self@,
            ) && heap::total_bytes(term_blobs(self@)) <= self.ceiling(),
            self.wf() ==> forall|i: int|
                0 <= i < self@.len() ==> encode_utf8(#[trigger] self@[i]).len()
                    <= self.blob_ceiling(),
    {
    }

    /// An empty interner.
    pub fn new(max_bytes: usize, max_blob: usize) -> (r: Interner)
        ensures
            r.wf(),
            r@ == Seq::<Seq<char>>::empty(),
            r.ceiling() == max_bytes,
            r.blob_ceiling() == max_blob,
    {
        let r = Interner {
            terms: Vec::new(),
            order: Vec::new(),
            bytes: 0,
            max_bytes,
            max_blob,
        };
        assert(r@ =~= Seq::empty());
        assert(term_blobs(r@) =~= Seq::empty());
        r
    }

    /// Number of terms.
    pub fn len(&self) -> (r: usize)
        ensures
            r == self@.len(),
    {
        self.terms.len()
    }

    /// The term behind an id.
    pub fn resolve(&self, id: TermId) -> (r: &str)
        requires
            id.0 < self@.len(),
        ensures
            r@ == self@[id.0 as int],
    {
        self.terms[id.0 as usize].as_str()
    }

    /// The place of `t` in the sorted order: the number of smaller terms.
    fn place(&self, t: &str) -> (r: usize)
        requires
            self.wf(),
        ensures
            r <= self.order@.len(),
            forall|p: int|
                0 <= p < r ==> text::str_lt(self@[(#[trigger] self.order@[p]) as int], t@),
            forall|p: int|
                r <= p < self.order@.len() ==> !text::str_lt(
                    self@[(#[trigger] self.order@[p]) as int],
                    t@,
                ),
    {
        let mut lo: usize = 0;
        let mut hi: usize = self.order.len();
        while lo < hi
            invariant
                self.wf(),
                lo <= hi <= self.order@.len(),
                forall|p: int|
                    0 <= p < lo ==> text::str_lt(self@[(#[trigger] self.order@[p]) as int], t@),
                forall|p: int|
                    hi <= p < self.order@.len() ==> !text::str_lt(
                        self@[(#[trigger] self.order@[p]) as int],
                        t@,
                    ),
            decreases hi - lo,
        {
            let mid: usize = lo + (hi - lo) / 2;
            let ghost at = self@[self.order@[mid as int] as int];
            let m = self.terms[self.order[mid] as usize].as_str();
            if str_before(m, t) {
                proof {
                    assert forall|p: int| 0 <= p < mid + 1 implies text::str_lt(
                        self@[(#[trigger] self.order@[p]) as int],
                        t@,
                    ) by {
                        if p < mid {
                            text::lemma_str_transitive(
                                self@[self.order@[p] as int],
                                self@[self.order@[mid as int] as int],
                                t@,
                            );
                        }
                    }
                }
                lo = mid + 1;
            } else {
                proof {
                    assert forall|p: int| mid <= p < self.order@.len() implies !text::str_lt(
                        self@[(#[trigger] self.order@[p]) as int],
                        t@,
                    ) by {
                        if p > mid {
                            let x = self@[self.order@[p] as int];
                            if text::str_lt(x, t@) {
                                text::lemma_str_transitive(
                                    self@[self.order@[mid as int] as int],
                                    x,
                                    t@,
                                );
                            }
                        }
                    }
                }
                hi = mid;
            }
        }
        lo
    }

    /// The id of `t`, if it is interned.
    pub fn lookup(&self, t: &str) -> (r: Option<TermId>)
        requires
            self.wf(),
        ensures
            r == lookup_of(self@, t@),
    {
        let at: usize = self.place(t);
        if at < self.order.len() {
            let i: u32 = self.order[at];
            if str_eq(self.terms[i as usize].as_str(), t) {
                proof {
                    lemma_lookup(self@, i as int);
                }
                return Some(TermId(i));
            }
        }
        proof {
            if self@.contains(t@) {
                let k = self@.index_of(t@);
                assert(0 <= k < self@.len() && self@[k] == t@);
                assert(listed(self.order@, k));
                let p = choose|p: int|
                    0 <= p < self.order@.len() && #[trigger] self.order@[p] == k;
                text::lemma_str_total(t@, t@);
                if p > at {
                    assert(text::str_lt(
                        self@[self.order@[at as int] as int],
                        self@[self.order@[p] as int],
                    ));
                }
            }
        }
        None
    }

    /// Interns `t`: the id it has, or a new one.
    pub fn intern(&mut self, t: &str) -> (r: Result<TermId, ArenaError>)
        requires
            old(self).wf(),
        ensures
            final(self).wf(),
            final(self).ceiling() == old(self).ceiling(),
            final(self).blob_ceiling() == old(self).blob_ceiling(),
            match r {
                Ok(id) => interned(
                    old(self)@,
                    old(self).ceiling(),
                    old(self).blob_ceiling(),
                    t@,
                ) == Ok::<_, ArenaError>((final(self)@, id)),
                Err(e) => interned(
                    old(self)@,
                    old(self).ceiling(),
                    old(self).blob_ceiling(),
                    t@,
                ) == Err::<(Seq<Seq<char>>, TermId), _>(e) && final(self)@ == old(self)@,
            },
    {
        if let Some(id) = self.lookup(t) {
            return Ok(id);
        }
        let len: usize = t.as_bytes().len();
        if len > self.max_blob {
            return Err(ArenaError::BlobTooLarge);
        }
        assert(term_blobs(self@).len() == self@.len());
        if len > self.max_bytes - self.bytes || self.terms.len() as u64 >= id::NONE_U32 as u64 {
            return Err(ArenaError::CapacityExceeded);
        }
        let at: usize = self.place(t);
        let id: u32 = self.terms.len() as u32;
        proof {
            interning_keeps_ids(self@, self.ceiling(), self.blob_ceiling(), t@);
            heap::lemma_total_push(term_blobs(self@), encode_utf8(t@));
            assert(term_blobs(self@.push(t@)) =~= term_blobs(self@).push(encode_utf8(t@)));
        }
        let ghost old_order = self.order@;
        let ghost old_terms = self@;
        self.terms.push(t.to_owned());
        self.order.insert(at, id);
        self.bytes = self.bytes + len;
        proof {
            let terms = self@;
            let order = self.order@;
            assert(terms =~= old_terms.push(t@));
            assert forall|i: int| 0 <= i < terms.len() implies encode_utf8(
                #[trigger] terms[i],
            ).len() <= self.max_blob by {
                if i < old_terms.len() {
                    assert(terms[i] == old_terms[i]);
                }
            }
            assert(order =~= old_order.insert(at as int, id));
            assert forall|p: int| 0 <= p < order.len() implies (#[trigger] order[p])
                < terms.len() by {
                if p < at {
                    assert(order[p] == old_order[p]);
                } else if p > at {
                    assert(order[p] == old_order[p - 1]);
                }
            }
            assert forall|p: int, q: int| 0 <= p < q < order.len() implies text::str_lt(
                terms[(#[trigger] order[p]) as int],
                terms[(#[trigger] order[q]) as int],
            ) by {
                if p < at {
                    assert(order[p] == old_order[p]);
                    assert(terms[order[p] as int] == old_terms[old_order[p] as int]);
                } else if p > at {
                    assert(order[p] == old_order[p - 1]);
                    assert(terms[order[p] as int] == old_terms[old_order[p - 1] as int]);
                }
                if q < at {
                    assert(order[q] == old_order[q]);
                    assert(terms[order[q] as int] == old_terms[old_order[q] as int]);
                } else if q > at {
                    assert(order[q] == old_order[q - 1]);
                    assert(terms[order[q] as int] == old_terms[old_order[q - 1] as int]);
                }
                if p == at {
                    let x = old_terms[old_order[q - 1] as int];
                    text::lemma_str_total(x, t@);
                    assert(old_terms.contains(x));
                }
            }
            assert forall|i: int| 0 <= i < terms.len() implies #[trigger] listed(order, i) by {
                if i == old_terms.len() {
                    assert(order[at as int] == i);
                } else {
                    assert(listed(old_order, i));
                    let p = choose|p: int|
                        0 <= p < old_order.len() && #[trigger] old_order[p] == i;
                    if p < at {
                        assert(order[p] == i);
                    } else {
                        assert(order[p + 1] == i);
                    }
                }
            }
        }
        Ok(TermId(id))
    }

    /// Bytes of all terms.
    pub fn pool_bytes(&self) -> (r: usize)
        requires
            self.wf(),
        ensures
            r == heap::total_bytes(term_blobs(self@)),
    {
        self.bytes
    }
}

/// The order that a table section describes.
pub open spec fn order_at(table: Seq<u8>) -> Seq<u32> {
    Seq::new(table.len() / 4, |p: int| codec::num_at(table, 4 * p, 4) as u32)
}

/// Every blob is UTF-8.
pub open spec fn all_text(blobs: Seq<Seq<u8>>) -> bool {
    forall|i: int| 0 <= i < blobs.len() ==> valid_utf8(#[trigger] blobs[i])
}

/// The terms behind UTF-8 blobs.
pub open spec fn texts_of(blobs: Seq<Seq<u8>>) -> Seq<Seq<char>> {
    blobs.map_values(|b: Seq<u8>| decode_utf8(b))
}

/// What a stored interner holds.
pub open spec fn interner_loaded(
    index: Seq<u8>,
    pool: Seq<u8>,
    table: Seq<u8>,
    max_bytes: int,
    max_blob: int,
) -> Result<Seq<Seq<char>>, ArenaError> {
    match heap::heap_loaded(index, pool, max_bytes, max_blob) {
        Err(e) => Err(e),
        Ok(blobs) => if !all_text(blobs) || table.len() != 4 * blobs.len() || !order_ok(
            order_at(table),
            texts_of(blobs),
        ) {
            Err(ArenaError::Malformed)
        } else {
            Ok(texts_of(blobs))
        },
    }
}

/// A complete ascending order proves the terms distinct.
proof fn lemma_order_distinct(order: Seq<u32>, terms: Seq<Seq<char>>)
    requires
        order_ok(order, terms),
    ensures
        distinct(terms),
{
    assert forall|i: int, j: int| 0 <= i < j < terms.len() implies #[trigger] terms[i]
        != #[trigger] terms[j] by {
        assert(listed(order, i) && listed(order, j));
        let p = choose|p: int| 0 <= p < order.len() && #[trigger] order[p] == i;
        let q = choose|q: int| 0 <= q < order.len() && #[trigger] order[q] == j;
        text::lemma_str_total(terms[i], terms[j]);
        if p < q {
            assert(text::str_lt(terms[order[p] as int], terms[order[q] as int]));
        } else {
            assert(text::str_lt(terms[order[q] as int], terms[order[p] as int]));
        }
    }
}

proof fn lemma_texts_round_trip(blobs: Seq<Seq<u8>>)
    requires
        all_text(blobs),
    ensures
        term_blobs(texts_of(blobs)) == blobs,
{
    assert forall|i: int| 0 <= i < blobs.len() implies term_blobs(texts_of(blobs))[i]
        == #[trigger] blobs[i] by {
        decode_utf8_encode_utf8(blobs[i]);
    }
    assert(term_blobs(texts_of(blobs)) =~= blobs);
}

proof fn lemma_blobs_round_trip(terms: Seq<Seq<char>>)
    ensures
        all_text(term_blobs(terms)),
        texts_of(term_blobs(terms)) == terms,
{
    assert forall|i: int| 0 <= i < terms.len() implies valid_utf8(
        #[trigger] term_blobs(terms)[i],
    ) && decode_utf8(term_blobs(terms)[i]) == terms[i] by {
        encode_utf8_valid_utf8(terms[i]);
        encode_utf8_decode_utf8(terms[i]);
    }
    assert(texts_of(term_blobs(terms)) =~= terms);
}

proof fn lemma_order_read(order: Seq<u32>)
    ensures
        order_bytes(order).len() == 4 * order.len(),
        order_at(order_bytes(order)) == order,
    decreases order.len(),
{
    let b = order_bytes(order);
    assert(codec::has_at(b, 0, b)) by {
        reveal(codec::has_at);
        assert(b.subrange(0, b.len() as int) =~= b);
    }
    lemma_order_len(order);
    assert forall|p: int| 0 <= p < order.len() implies order_at(b)[p] == #[trigger] order[p] by {
        lemma_order_word(b, order, p);
    }
    assert(order_at(b) =~= order);
}

proof fn lemma_order_len(order: Seq<u32>)
    ensures
        order_bytes(order).len() == 4 * order.len(),
    decreases order.len(),
{
    if order.len() > 0 {
        lemma_order_len(order.drop_last());
        codec::lemma_le_bytes_len(order.last() as nat, 4);
    }
}

proof fn lemma_order_word(b: Seq<u8>, order: Seq<u32>, p: int)
    requires
        0 <= p < order.len(),
        codec::has_at(b, 0, order_bytes(order)),
    ensures
        codec::num_at(b, 4 * p, 4) == order[p],
    decreases order.len(),
{
    let init = order.drop_last();
    codec::lemma_has_split(b, 0, order_bytes(init), codec::le32(order.last()));
    lemma_order_len(init);
    if p < order.len() - 1 {
        lemma_order_word(b, init, p);
    } else {
        codec::lemma_pow256();
        codec::lemma_num_at(b, 4 * p, order[p] as nat, 4);
    }
}

/// An interner loads back from its dump.
pub proof fn interner_round_trip(
    terms: Seq<Seq<char>>,
    order: Seq<u32>,
    max_bytes: int,
    max_blob: int,
)
    requires
        order_ok(order, terms),
        terms.len() <= id::NONE_U32,
        heap::total_bytes(term_blobs(terms)) <= max_bytes,
        forall|i: int|
            0 <= i < terms.len() ==> encode_utf8(#[trigger] terms[i]).len() <= max_blob
                && encode_utf8(terms[i]).len() <= u32::MAX,
    ensures
        interner_loaded(
            heap::index_bytes(term_blobs(terms)),
            heap::pool_content(term_blobs(terms)),
            order_bytes(order),
            max_bytes,
            max_blob,
        ) == Ok::<_, ArenaError>(terms),
{
    heap::heap_round_trip(term_blobs(terms), max_bytes, max_blob);
    lemma_blobs_round_trip(terms);
    lemma_order_read(order);
}

impl Interner {
    /// The term lengths, as the interner's index section.
    pub fn dump_index(&self) -> (r: Vec<u8>)
        ensures
            r@ == heap::index_bytes(term_blobs(self@)),
    {
        let mut out: Vec<u8> = Vec::new();
        let ghost all = term_blobs(self@);
        let ghost f = |b: Seq<u8>| codec::le32(b.len() as u32);
        let mut i: usize = 0;
        assert(all.take(0) =~= Seq::empty());
        while i < self.terms.len()
            invariant
                i <= self.terms@.len(),
                all == term_blobs(self@),
                all.len() == self.terms@.len(),
                f == (|b: Seq<u8>| codec::le32(b.len() as u32)),
                out@ == parse::flat(f, all.take(i as int)),
            decreases self.terms@.len() - i,
        {
            let bytes = self.terms[i].as_str().as_bytes();
            put_u32(&mut out, bytes.len() as u32);
            proof {
                assert(all[i as int] == bytes@);
                assert(all.take(i + 1) =~= all.take(i as int).push(all[i as int]));
                parse::lemma_flat_push(f, all.take(i as int), all[i as int]);
            }
            i = i + 1;
        }
        assert(all.take(i as int) =~= all);
        out
    }

    /// The terms one behind the other, as the interner's pool section.
    pub fn dump_pool(&self) -> (r: Vec<u8>)
        ensures
            r@ == heap::pool_content(term_blobs(self@)),
    {
        let mut out: Vec<u8> = Vec::new();
        let ghost all = term_blobs(self@);
        let ghost f = |b: Seq<u8>| b;
        let mut i: usize = 0;
        assert(all.take(0) =~= Seq::empty());
        while i < self.terms.len()
            invariant
                i <= self.terms@.len(),
                all == term_blobs(self@),
                all.len() == self.terms@.len(),
                f == (|b: Seq<u8>| b),
                out@ == parse::flat(f, all.take(i as int)),
            decreases self.terms@.len() - i,
        {
            let bytes = self.terms[i].as_str().as_bytes();
            codec::put_slice(&mut out, bytes);
            proof {
                assert(all[i as int] == bytes@);
                assert(all.take(i + 1) =~= all.take(i as int).push(all[i as int]));
                parse::lemma_flat_push(f, all.take(i as int), all[i as int]);
            }
            i = i + 1;
        }
        assert(all.take(i as int) =~= all);
        out
    }

    /// The term ids by ascending term, as the interner's table section.
    pub fn dump_table(&self) -> (r: Vec<u8>)
        requires
            self.wf(),
        ensures
            r@ == order_bytes(order_of(self@)),
    {
        let mut out: Vec<u8> = Vec::new();
        proof {
            self.lemma_wf();
            order_is_unique(self.order@, order_of(self@), self@);
        }
        parse::put_u32s(&mut out, &self.order);
        assert(out@ =~= order_bytes(self.order@));
        out
    }

    /// Rebuilds an interner from its three sections.
    pub fn load(
        index: &[u8],
        pool: &[u8],
        table: &[u8],
        max_bytes: usize,
        max_blob: usize,
    ) -> (r: Result<Interner, ArenaError>)
        ensures
            match r {
                Ok(x) => x.wf() && x.ceiling() == max_bytes && x.blob_ceiling() == max_blob
                    && interner_loaded(
                    index@,
                    pool@,
                    table@,
                    max_bytes as int,
                    max_blob as int,
                ) == Ok::<_, ArenaError>(x@),
                Err(e) => interner_loaded(
                    index@,
                    pool@,
                    table@,
                    max_bytes as int,
                    max_blob as int,
                ) == Err::<Seq<Seq<char>>, _>(e),
            },
    {
        let blobs: BlobHeap = match BlobHeap::load(index, pool, max_bytes, max_blob) {
            Ok(h) => h,
            Err(e) => return Err(e),
        };
        proof {
            blobs.lemma_wf();
        }
        let n: usize = blobs.len();
        let mut terms: Vec<String> = Vec::new();
        let mut i: usize = 0;
        let ghost want = texts_of(blobs@);
        assert(string_views(terms@) =~= want.take(0));
        while i < n
            invariant
                i <= n,
                n == blobs@.len(),
                n <= id::NONE_U32,
                want == texts_of(blobs@),
                terms@.len() == i,
                string_views(terms@) == want.take(i as int),
                forall|k: int| 0 <= k < i ==> valid_utf8(#[trigger] blobs@[k]),
                heap::heap_loaded(index@, pool@, max_bytes as int, max_blob as int) == Ok::<
                    _,
                    ArenaError,
                >(blobs@),
            decreases n - i,
        {
            match str_from_utf8(blobs.get(BlobId(i as u32))) {
                None => {
                    return Err(ArenaError::Malformed);
                },
                Some(t) => {
                    terms.push(t.to_owned());
                    assert(want[i as int] == t@);
                    assert(string_views(terms@) =~= want.take(i + 1));
                },
            }
            i = i + 1;
        }
        assert(want.take(n as int) =~= want);
        let width: usize = table.len();
        if width % 4 != 0 || width / 4 != n {
            return Err(ArenaError::Malformed);
        }
        let ghost places = order_at(table@);
        let mut order: Vec<u32> = Vec::new();
        let mut seen: Vec<bool> = Vec::new();
        seen.resize(n, false);
        let mut p: usize = 0;
        while p < n
            invariant
                p <= n,
                n <= id::NONE_U32,
                width == table@.len(),
                width == 4 * n,
                want.len() == n,
                places == order_at(table@),
                places.len() == n,
                terms@.len() == n,
                string_views(terms@) == want,
                order@ == places.take(p as int),
                seen@.len() == n,
                forall|k: int| 0 <= k < p ==> (#[trigger] places[k]) < n,
                forall|a: int, b: int|
                    0 <= a < b < p ==> text::str_lt(
                        want[(#[trigger] places[a]) as int],
                        want[(#[trigger] places[b]) as int],
                    ),
                forall|k: int| 0 <= k < n && #[trigger] seen@[k] ==> listed(places, k),
                forall|k: int| 0 <= k < p ==> seen@[(#[trigger] places[k]) as int],
                heap::heap_loaded(index@, pool@, max_bytes as int, max_blob as int) == Ok::<
                    _,
                    ArenaError,
                >(blobs@),
                want == texts_of(blobs@),
            decreases n - p,
        {
            let t: u32 = get_u32(table, 4 * p);
            assert(places[p as int] == t);
            if t as usize >= n {
                assert(!order_ok(places, want));
                return Err(ArenaError::Malformed);
            }
            if p > 0 {
                let last: u32 = order[p - 1];
                assert(places[p - 1] == last);
                assert(want[last as int] == terms@[last as int]@);
                assert(want[t as int] == terms@[t as int]@);
                if !str_before(terms[last as usize].as_str(), terms[t as usize].as_str()) {
                    proof {
                        if order_ok(places, want) {
                            assert(text::str_lt(
                                want[places[p - 1] as int],
                                want[places[p as int] as int],
                            ));
                        }
                    }
                    return Err(ArenaError::Malformed);
                }
                proof {
                    assert forall|a: int, b: int| 0 <= a < b < p + 1 implies text::str_lt(
                        want[(#[trigger] places[a]) as int],
                        want[(#[trigger] places[b]) as int],
                    ) by {
                        if b == p && a < p - 1 {
                            text::lemma_str_transitive(
                                want[places[a] as int],
                                want[places[p - 1] as int],
                                want[places[p as int] as int],
                            );
                        }
                    }
                }
            }
            order.push(t);
            seen[t as usize] = true;
            assert(listed(places, t as int));
            assert(order@ =~= places.take(p + 1));
            p = p + 1;
        }
        assert(places.take(n as int) =~= places);
        let mut k: usize = 0;
        while k < n
            invariant
                k <= n,
                seen@.len() == n,
                places.len() == n,
                want.len() == n,
                forall|j: int| 0 <= j < n ==> seen@[(#[trigger] places[j]) as int],
                forall|j: int| 0 <= j < k ==> seen@[j],
                forall|j: int| 0 <= j < n ==> (#[trigger] places[j]) < n,
                heap::heap_loaded(index@, pool@, max_bytes as int, max_blob as int) == Ok::<
                    _,
                    ArenaError,
                >(blobs@),
                want == texts_of(blobs@),
                places == order_at(table@),
            decreases n - k,
        {
            if !seen[k] {
                proof {
                    if order_ok(places, want) {
                        assert(listed(places, k as int));
                        let q = choose|q: int| 0 <= q < places.len() && #[trigger] places[q] == k;
                        assert(seen@[places[q] as int]);
                    }
                }
                return Err(ArenaError::Malformed);
            }
            k = k + 1;
        }
        proof {
            assert forall|j: int| 0 <= j < want.len() implies #[trigger] listed(places, j) by {
                assert(seen@[j]);
            }
            assert(order_ok(places, want));
            lemma_order_distinct(places, want);
            lemma_texts_round_trip(blobs@);
            assert forall|j: int| 0 <= j < want.len() implies encode_utf8(
                #[trigger] want[j],
            ).len() <= max_blob by {
                assert(term_blobs(want)[j] == blobs@[j]);
            }
        }
        let bytes: usize = blobs.pool_bytes();
        Ok(Interner { terms, order, bytes, max_bytes, max_blob })
    }
}

} // verus!
