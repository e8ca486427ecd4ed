//! The lexical index: postings with term frequencies, document lengths and
//! corpus statistics.
//!
//! The index hands out the postings a query touches and ranks scored
//! documents; the score itself (Robertson idf and the length-normalized term
//! frequency) is computed by the host from the numbers in [`Contribution`].
//!
//! Deletions never touch the postings: forgotten facts are filtered by the
//! caller and fall out when a compaction rebuilds the index.

use crate::error::ArenaError;
use crate::float::F32Bits;
use crate::id;
use crate::id::FactId;
use crate::index::postings;
use crate::index::postings::{Entry, List, PostingStore};
use crate::index::rank;
use crate::index::rank::{rank_top, Scored};
use crate::model::{DocLenSlot, FactRecord, Slot};
use crate::table;
use crate::table::Table;
use vstd::prelude::*;

verus! {

/// The index as a mathematical value.
#[verifier::ext_equal]
pub struct Bm25State {
    /// Term id to entries.
    pub postings: Seq<List>,
    /// Document lengths, by fact id.
    pub docs: Seq<DocLenSlot>,
    /// Number of indexed documents.
    pub total_docs: u64,
    /// Token count across the corpus.
    pub total_len: u64,
}

/// An empty index.
pub open spec fn no_docs() -> Bm25State {
    Bm25State { postings: Seq::empty(), docs: Seq::empty(), total_docs: 0, total_len: 0 }
}

/// `a + b`, or the largest `u64` where that does not fit.
pub open spec fn sat(a: int, b: int) -> u64 {
    if a + b > u64::MAX {
        u64::MAX
    } else {
        (a + b) as u64
    }
}

fn sat_sum(a: u64, b: u64) -> (r: u64)
    ensures
        r == sat(a as int, b as int),
{
    if a > u64::MAX - b {
        u64::MAX
    } else {
        a + b
    }
}

/// A list entry together with the key of its list.
pub type Keyed = (u32, Entry);

/// Appends every item in turn; stops at the first one that does not fit.
pub open spec fn pushed_all(tf: bool, v: Seq<List>, max_bytes: int, items: Seq<Keyed>) -> (
    Seq<List>,
    Result<(), ArenaError>,
)
    decreases items.len(),
{
    if items.len() == 0 {
        (v, Ok(()))
    } else {
        let (w, r) = pushed_all(tf, v, max_bytes, items.drop_last());
        match r {
            Err(e) => (w, Err(e)),
            Ok(()) => match postings::entry_pushed(
                tf,
                w,
                max_bytes,
                items.last().0,
                items.last().1,
            ) {
                Ok(x) => (x, Ok(())),
                Err(e) => (w, Err(e)),
            },
        }
    }
}

/// A failure part way is the failure of the whole.
proof fn lemma_pushed_err(tf: bool, v: Seq<List>, max_bytes: int, items: Seq<Keyed>, n: int)
    requires
        0 <= n <= items.len(),
        pushed_all(tf, v, max_bytes, items.take(n)).1 is Err,
    ensures
        pushed_all(tf, v, max_bytes, items) == pushed_all(tf, v, max_bytes, items.take(n)),
    decreases items.len() - n,
{
    if n == items.len() {
        assert(items.take(n) =~= items);
    } else {
        assert(items.take(n + 1).drop_last() =~= items.take(n));
        lemma_pushed_err(tf, v, max_bytes, items, n + 1);
    }
}

/// The `(term, frequency)` pairs of one document as posting entries.
pub open spec fn doc_items(fact: u32, pairs: Seq<(u32, u8)>) -> Seq<Keyed> {
    pairs.map_values(|p: (u32, u8)| (p.0, (fact, p.1)))
}

/// The number of tokens that the pairs count.
pub open spec fn doc_tokens(pairs: Seq<(u32, u8)>) -> u64
    decreases pairs.len(),
{
    if pairs.len() == 0 {
        0
    } else {
        sat(doc_tokens(pairs.drop_last()) as int, pairs.last().1 as int)
    }
}

/// The signature bit of a term.
pub open spec fn term_bit(term: u32) -> u64 {
    1u64 << ((term % 64) as u64)
}

/// The summary of a document after one more of its terms.
pub open spec fn with_term(doc: DocLenSlot, term: u32) -> DocLenSlot {
    DocLenSlot {
        distinct: if doc.distinct == u16::MAX {
            u16::MAX
        } else {
            (doc.distinct + 1) as u16
        },
        sig: doc.sig | term_bit(term),
        ..doc
    }
}

/// The summary of a document's terms.
pub open spec fn with_terms(doc: DocLenSlot, pairs: Seq<(u32, u8)>) -> DocLenSlot
    decreases pairs.len(),
{
    if pairs.len() == 0 {
        doc
    } else {
        with_term(with_terms(doc, pairs.drop_last()), pairs.last().0)
    }
}

/// The record of a document of `n` tokens whose terms are not counted yet.
pub open spec fn blank_doc(fact: FactId, n: u64) -> DocLenSlot {
    DocLenSlot {
        fact,
        len: if n > u16::MAX {
            u16::MAX
        } else {
            n as u16
        },
        distinct: 0,
        sig: 0,
    }
}

/// A record whose term summary is unknown.
pub open spec fn unsummarized(doc: DocLenSlot) -> bool {
    doc.len > 0 && doc.distinct == 0
}

/// Some document lacks its summary.
pub open spec fn missing_summary(docs: Seq<DocLenSlot>) -> bool {
    exists|i: int| 0 <= i < docs.len() && unsummarized(#[trigger] docs[i])
}

/// What indexing one document does. Where a ceiling is hit the index is left
/// part way.
pub open spec fn doc_indexed(
    s: Bm25State,
    max_bytes: int,
    fact: FactId,
    pairs: Seq<(u32, u8)>,
) -> (Bm25State, Result<(), ArenaError>) {
    let (lists, r) = pushed_all(true, s.postings, max_bytes, doc_items(fact.0, pairs));
    let n = doc_tokens(pairs);
    let t = Bm25State { postings: lists, ..s };
    match r {
        Err(e) => (t, Err(e)),
        Ok(()) => match table::inserted(s.docs, max_bytes, with_terms(blank_doc(fact, n), pairs)) {
            Err(e) => (t, Err(e)),
            Ok((docs, _)) => (
                Bm25State {
                    postings: lists,
                    docs,
                    total_docs: sat(s.total_docs as int, 1),
                    total_len: sat(s.total_len as int, n as int),
                },
                Ok(()),
            ),
        },
    }
}

/// No list holds `fact` or a later one.
pub open spec fn ids_below(v: Seq<List>, fact: int) -> bool {
    forall|k: u32|
        (#[trigger] postings::entries_of(v, k)).len() > 0 ==> postings::entries_of(v, k).last().0
            < fact
}

/// No term occurs twice.
pub open spec fn terms_once(pairs: Seq<(u32, u8)>) -> bool {
    forall|i: int, j: int|
        0 <= i < j < pairs.len() ==> (#[trigger] pairs[i]).0 != (#[trigger] pairs[j]).0
}

/// `fact` is on record and not forgotten.
pub open spec fn living(facts: Seq<FactRecord>, fact: u32) -> bool {
    match table::row_of(facts, fact as int) {
        Some(f) => !f.tombstone(),
        None => false,
    }
}

/// The entries of one list whose facts live.
pub open spec fn kept_entries(facts: Seq<FactRecord>, key: u32, xs: Seq<Entry>) -> Seq<Keyed>
    decreases xs.len(),
{
    if xs.len() == 0 {
        Seq::empty()
    } else {
        let front = kept_entries(facts, key, xs.drop_last());
        if living(facts, xs.last().0) {
            front.push((key, xs.last()))
        } else {
            front
        }
    }
}

/// The entries of all lists whose facts live, in the order of the keys.
pub open spec fn kept_items(facts: Seq<FactRecord>, v: Seq<List>) -> Seq<Keyed>
    decreases v.len(),
{
    if v.len() == 0 {
        Seq::empty()
    } else {
        kept_items(facts, v.drop_last()) + kept_entries(facts, v.last().0, v.last().1)
    }
}

/// The records of the documents that live, their term summaries reset.
pub open spec fn kept_docs(facts: Seq<FactRecord>, docs: Seq<DocLenSlot>) -> Seq<DocLenSlot>
    decreases docs.len(),
{
    if docs.len() == 0 {
        Seq::empty()
    } else {
        let front = kept_docs(facts, docs.drop_last());
        if living(facts, docs.last().fact.0) {
            front.push(DocLenSlot { distinct: 0, sig: 0, ..docs.last() })
        } else {
            front
        }
    }
}

/// The summed lengths of the documents.
pub open spec fn docs_len(docs: Seq<DocLenSlot>) -> u64
    decreases docs.len(),
{
    if docs.len() == 0 {
        0
    } else {
        sat(docs_len(docs.drop_last()) as int, docs.last().len as int)
    }
}

/// The records with the terms of the entries counted into them.
pub open spec fn summed(docs: Seq<DocLenSlot>, items: Seq<Keyed>) -> Seq<DocLenSlot>
    decreases items.len(),
{
    if items.len() == 0 {
        docs
    } else {
        let front = summed(docs, items.drop_last());
        match table::row_of(front, items.last().1.0 as int) {
            Some(d) => table::replaced(front, with_term(d, items.last().0)),
            None => front,
        }
    }
}

/// The index rebuilt from the postings of the facts that live.
pub open spec fn compacted(s: Bm25State, facts: Seq<FactRecord>, max_bytes: int) -> Result<
    Bm25State,
    ArenaError,
> {
    let docs = kept_docs(facts, s.docs);
    let items = kept_items(facts, s.postings);
    let (lists, r) = pushed_all(true, Seq::empty(), max_bytes, items);
    if docs.len() * 16 > max_bytes {
        Err(ArenaError::CapacityExceeded)
    } else {
        match r {
            Err(e) => Err(e),
            Ok(()) => Ok(
                Bm25State {
                    postings: lists,
                    docs: summed(docs, items),
                    total_docs: docs.len() as u64,
                    total_len: docs_len(docs),
                },
            ),
        }
    }
}

/// The numbers a score is computed from: one query term met in one document.
#[derive(Clone, Copy, Debug, PartialEq, Eq, Structural)]
pub struct Contribution {
    /// The document.
    pub fact: FactId,
    /// How often the term occurs in it.
    pub tf: u8,
    /// The document's token count.
    pub len: u16,
    /// In how many documents the term occurs.
    pub df: u32,
}

/// The contributions of one list, without documents that have no record.
pub open spec fn list_matches(docs: Seq<DocLenSlot>, xs: Seq<Entry>, df: u32) -> Seq<Contribution>
    decreases xs.len(),
{
    if xs.len() == 0 {
        Seq::empty()
    } else {
        let front = list_matches(docs, xs.drop_last(), df);
        match table::row_of(docs, xs.last().0 as int) {
            Some(d) => front.push(
                Contribution { fact: FactId(xs.last().0), tf: xs.last().1, len: d.len, df },
            ),
            None => front,
        }
    }
}

/// The contributions of a query, term by term; a repeated term counts again.
pub open spec fn query_matches(s: Bm25State, terms: Seq<u32>) -> Seq<Contribution>
    decreases terms.len(),
{
    if terms.len() == 0 {
        Seq::empty()
    } else {
        let xs = postings::entries_of(s.postings, terms.last());
        query_matches(s, terms.drop_last()) + list_matches(s.docs, xs, xs.len() as u32)
    }
}

/// The lexical index.
pub struct Bm25Index {
    postings: PostingStore<true>,
    doc_len: Table<DocLenSlot>,
    total_docs: u64,
    total_len: u64,
}

impl View for Bm25Index {
    type V = Bm25State;

    closed spec fn view(&self) -> Bm25State {
        Bm25State {
            postings: self.postings@,
            docs: self.doc_len@,
            total_docs: self.total_docs,
            total_len: self.total_len,
        }
    }
}

pub proof fn lemma_items(fact: u32, pairs: Seq<(u32, u8)>, n: int)
    requires
        0 <= n < pairs.len(),
    ensures
        doc_items(fact, pairs).take(n + 1).drop_last() == doc_items(fact, pairs).take(n),
        doc_items(fact, pairs).take(n + 1).last() == (pairs[n].0, (fact, pairs[n].1)),
{
    assert(doc_items(fact, pairs).take(n + 1).drop_last() =~= doc_items(fact, pairs).take(n));
}

/// Terms that were not pushed keep their lists.
pub proof fn lemma_pushed_ids(v: Seq<List>, max_bytes: int, fact: u32, pairs: Seq<(u32, u8)>, n: int)
    requires
        postings::lists_ok(true, v),
        ids_below(v, fact as int),
        terms_once(pairs),
        0 <= n <= pairs.len(),
        pushed_all(true, v, max_bytes, doc_items(fact, pairs).take(n)).1 is Ok,
    ensures
        postings::lists_ok(
            true,
            pushed_all(true, v, max_bytes, doc_items(fact, pairs).take(n)).0,
        ),
        forall|k: u32|
            (forall|i: int| 0 <= i < n ==> (#[trigger] pairs[i]).0 != k)
                ==> #[trigger] postings::entries_of(
                pushed_all(true, v, max_bytes, doc_items(fact, pairs).take(n)).0,
                k,
            ) == postings::entries_of(v, k),
        ids_below(
            pushed_all(true, v, max_bytes, doc_items(fact, pairs).take(n)).0,
            fact + 1,
        ),
    decreases n,
{
    let items = doc_items(fact, pairs);
    let out = pushed_all(true, v, max_bytes, items.take(n)).0;
    if n == 0 {
        assert(items.take(0) =~= Seq::empty());
    } else {
        lemma_items(fact, pairs, n - 1);
        lemma_pushed_ids(v, max_bytes, fact, pairs, n - 1);
        let mid = pushed_all(true, v, max_bytes, items.take(n - 1)).0;
        let key = pairs[n - 1].0;
        let e = (fact, pairs[n - 1].1);
        assert(postings::entries_of(mid, key) == postings::entries_of(v, key));
        postings::appending_touches_one_list(true, mid, key, e);
        assert(out == postings::with_entry(mid, key, e));
        assert forall|k: u32|
            (#[trigger] postings::entries_of(out, k)).len() > 0 implies postings::entries_of(
            out,
            k,
        ).last().0 < fact + 1 by {
            if k != key {
                assert(postings::entries_of(out, k) == postings::entries_of(mid, k));
            }
        }
    }
}

impl Bm25Index {
    pub closed spec fn wf(&self) -> bool {
        &&& self.postings.wf()
        &&& self.doc_len.wf()
        &&& self.postings.ceiling() == self.doc_len.ceiling()
    }

    /// The byte ceiling of each pool.
    pub closed spec fn ceiling(&self) -> int {
        self.doc_len.ceiling()
    }

    /// The lists and records are valid.
    pub broadcast proof fn lemma_wf(&self)
        ensures
            #[trigger] self.wf() ==> postings::lists_ok(true, self@.postings) && table::ascending(
                self@.docs,
            ) && self@.postings.len() <= usize::MAX && self@.docs.len() * 16 <= self.ceiling(),
            self.wf() ==> postings::lists_bounded(true, self@.postings) && self@.postings.len()
                * 24 <= self.ceiling() && postings::store_bytes(true, self@.postings)
                <= self.ceiling(),
    {
        self.postings.lemma_wf();
        self.doc_len.lemma_wf();
    }

    /// An empty index; `max_bytes` bounds each pool.
    pub fn new(max_bytes: usize) -> (r: Bm25Index)
        ensures
            r.wf(),
            r@ == no_docs(),
            r.ceiling() == max_bytes,
    {
        Bm25Index {
            postings: PostingStore::new(max_bytes),
            doc_len: Table::new(max_bytes),
            total_docs: 0,
            total_len: 0,
        }
    }

    /// Indexes one document given its `(term, frequency)` pairs. Documents
    /// arrive in ascending id order.
    pub fn index_doc(&mut self, fact: FactId, term_tfs: &Vec<(u32, u8)>) -> (r: Result<
        (),
        ArenaError,
    >)
        requires
            old(self).wf(),
            fact.0 < id::NONE_U32,
            ids_below(old(self)@.postings, fact.0 as int),
            terms_once(term_tfs@),
        ensures
            final(self).wf(),
            final(self).ceiling() == old(self).ceiling(),
            doc_indexed(old(self)@, old(self).ceiling(), fact, term_tfs@) == (final(self)@, r),
            r is Ok ==> ids_below(final(self)@.postings, fact.0 + 1),
    {
        let ghost s = self@;
        let ghost max = self.ceiling();
        let ghost items = doc_items(fact.0, term_tfs@);
        let mut doc: DocLenSlot = DocLenSlot { fact, len: 0, distinct: 0, sig: 0 };
        let mut n: u64 = 0;
        let mut i: usize = 0;
        proof {
            self.postings.lemma_wf();
            assert(items.take(0) =~= Seq::empty());
            assert(term_tfs@.take(0) =~= Seq::empty());
        }
        let ghost blank = doc;
        while i < term_tfs.len()
            invariant
                i <= term_tfs@.len(),
                s == old(self)@,
                max == old(self).ceiling(),
                self.wf(),
                self.ceiling() == max,
                self.doc_len@ == s.docs,
                self.total_docs == s.total_docs,
                self.total_len == s.total_len,
                items == doc_items(fact.0, term_tfs@),
                pushed_all(true, s.postings, max, items.take(i as int)) == (
                    self.postings@,
                    Ok::<(), ArenaError>(()),
                ),
                n == doc_tokens(term_tfs@.take(i as int)),
                doc == with_terms(blank, term_tfs@.take(i as int)),
                fact.0 < id::NONE_U32,
                postings::lists_ok(true, s.postings),
                ids_below(s.postings, fact.0 as int),
                terms_once(term_tfs@),
            decreases term_tfs@.len() - i,
        {
            let (term, tf) = term_tfs[i];
            proof {
                lemma_items(fact.0, term_tfs@, i as int);
                lemma_pushed_ids(s.postings, max, fact.0, term_tfs@, i as int);
                assert(postings::entries_of(self.postings@, term) == postings::entries_of(
                    s.postings,
                    term,
                ));
                assert(term_tfs@.take(i + 1).drop_last() =~= term_tfs@.take(i as int));
            }
            let pushed: Result<(), ArenaError> = self.postings.push(term, fact, tf);
            if let Err(e) = pushed {
                proof {
                    lemma_pushed_err(true, s.postings, max, items, i + 1);
                }
                return Err(e);
            }
            n = sat_sum(n, tf as u64);
            if doc.distinct < u16::MAX {
                doc.distinct = doc.distinct + 1;
            }
            doc.sig = doc.sig | (1u64 << ((term % 64) as u64));
            i = i + 1;
        }
        proof {
            assert(items.take(i as int) =~= items);
            assert(term_tfs@.take(i as int) =~= term_tfs@);
            lemma_pushed_ids(s.postings, max, fact.0, term_tfs@, i as int);
            lemma_blank(blank, blank_doc(fact, n), term_tfs@);
        }
        doc.len = if n > u16::MAX as u64 { u16::MAX } else { n as u16 };
        let inserted: Result<bool, ArenaError> = self.doc_len.insert(doc);
        if let Err(e) = inserted {
            return Err(e);
        }
        self.total_docs = sat_sum(self.total_docs, 1);
        self.total_len = sat_sum(self.total_len, n);
        Ok(())
    }

    /// Builds a compacted index from the postings and records whose facts are
    /// on record and not forgotten, and counts each document's terms anew.
    ///
    /// Term ids and frequencies stay as they were indexed, so no text is read.
    pub fn compact_live(&self, facts: &Table<FactRecord>, max_bytes: usize) -> (r: Result<
        Bm25Index,
        ArenaError,
    >)
        requires
            self.wf(),
            facts.wf(),
        ensures
            match r {
                Ok(out) => out.wf() && out.ceiling() == max_bytes && compacted(
                    self@,
                    facts@,
                    max_bytes as int,
                ) == Ok::<_, ArenaError>(out@) && forall|b: int|
                    ids_below(self@.postings, b) ==> #[trigger] ids_below(out@.postings, b),
                Err(e) => compacted(self@, facts@, max_bytes as int) == Err::<Bm25State, _>(e),
            },
    {
        let mut out: Bm25Index = Bm25Index::new(max_bytes);
        let mut i: usize = 0;
        proof {
            self.doc_len.lemma_wf();
            self.postings.lemma_wf();
            assert(self.doc_len@.take(0) =~= Seq::empty());
        }
        while i < self.doc_len.len()
            invariant
                i <= self.doc_len@.len(),
                self.wf(),
                facts.wf(),
                table::ascending(self.doc_len@),
                out.wf(),
                out.ceiling() == max_bytes,
                out.postings@ == Seq::<List>::empty(),
                out.doc_len@ == kept_docs(facts@, self.doc_len@.take(i as int)),
                out.total_docs == out.doc_len@.len(),
                out.total_len == docs_len(out.doc_len@),
                forall|k: int|
                    0 <= k < out.doc_len@.len() ==> i > 0 && (#[trigger] out.doc_len@[k]).fact.0
                        <= self.doc_len@[i - 1].fact.0,
            decreases self.doc_len@.len() - i,
        {
            let doc: DocLenSlot = self.doc_len.row(i);
            let ghost before = out.doc_len@;
            assert(self.doc_len@.take(i + 1).drop_last() =~= self.doc_len@.take(i as int));
            if is_living(facts, doc.fact.0) {
                let row: DocLenSlot = DocLenSlot {
                    fact: doc.fact,
                    len: doc.len,
                    distinct: 0,
                    sig: 0,
                };
                proof {
                    out.doc_len.lemma_wf();
                    assert forall|k: int| 0 <= k < before.len() implies (#[trigger] before[k]).key()
                        < row.key() by {
                        assert(self.doc_len@[i - 1].key() < self.doc_len@[i as int].key());
                    }
                    table::lemma_append(before, row);
                }
                let pushed: Result<bool, ArenaError> = out.doc_len.insert(row);
                if let Err(e) = pushed {
                    proof {
                        lemma_kept_grows(facts@, self.doc_len@, i + 1);
                    }
                    return Err(e);
                }
                assert(out.doc_len@ == before.push(row));
                assert(before.push(row).drop_last() =~= before);
                proof {
                    out.doc_len.lemma_wf();
                }
                out.total_docs = sat_sum(out.total_docs, 1);
                out.total_len = sat_sum(out.total_len, doc.len as u64);
            } else {
                assert forall|k: int| 0 <= k < out.doc_len@.len() implies (
                #[trigger] out.doc_len@[k]).fact.0 <= self.doc_len@[i as int].fact.0 by {
                    assert(self.doc_len@[i - 1].key() < self.doc_len@[i as int].key());
                }
            }
            i = i + 1;
        }
        assert(self.doc_len@.take(i as int) =~= self.doc_len@);
        proof {
            out.doc_len.lemma_wf();
        }
        let filled: Result<(), ArenaError> = self.compact_lists(facts, &mut out);
        match filled {
            Ok(()) => Ok(out),
            Err(e) => Err(e),
        }
    }

    /// Copies the entries whose facts live into `out`, counting their terms.
    fn compact_lists(&self, facts: &Table<FactRecord>, out: &mut Bm25Index) -> (r: Result<
        (),
        ArenaError,
    >)
        requires
            self.wf(),
            facts.wf(),
            old(out).wf(),
            old(out)@.postings == Seq::<List>::empty(),
        ensures
            final(out).wf(),
            final(out).ceiling() == old(out).ceiling(),
            pushed_all(
                true,
                Seq::empty(),
                old(out).ceiling(),
                kept_items(facts@, self@.postings),
            ).1 == r,
            forall|b: int|
                ids_below(self@.postings, b) ==> #[trigger] ids_below(final(out)@.postings, b),
            r is Ok ==> final(out)@ == (Bm25State {
                postings: pushed_all(
                    true,
                    Seq::empty(),
                    old(out).ceiling(),
                    kept_items(facts@, self@.postings),
                ).0,
                docs: summed(old(out)@.docs, kept_items(facts@, self@.postings)),
                ..old(out)@
            }),
    {
        let ghost max = out.ceiling();
        let ghost start = out@;
        let ghost v = self.postings@;
        let mut i: usize = 0;
        let total: usize = self.postings.keys();
        proof {
            self.postings.lemma_wf();
            assert(v.take(0) =~= Seq::empty());
            assert forall|k: u32| #[trigger] postings::entries_of(
                Seq::<List>::empty(),
                k,
            ).len() == 0 by {}
        }
        while i < total
            invariant
                i <= total,
                total == v.len(),
                v == self.postings@,
                max == old(out).ceiling(),
                self.wf(),
                facts.wf(),
                postings::lists_ok(true, v),
                out.wf(),
                out.ceiling() == max,
                out@.total_docs == start.total_docs,
                out@.total_len == start.total_len,
                pushed_all(true, Seq::empty(), max, kept_items(facts@, v.take(i as int))) == (
                    out@.postings,
                    Ok::<(), ArenaError>(()),
                ),
                out@.docs == summed(start.docs, kept_items(facts@, v.take(i as int))),
                forall|k: u32|
                    i > 0 && v[i - 1].0 < k ==> (#[trigger] postings::entries_of(
                        out@.postings,
                        k,
                    )).len() == 0,
                i == 0 ==> forall|k: u32|
                    (#[trigger] postings::entries_of(out@.postings, k)).len() == 0,
                forall|b: int| ids_below(v, b) ==> #[trigger] ids_below(out@.postings, b),
            decreases total - i,
        {
            let key: u32 = self.postings.key_at(i);
            let ghost done = kept_items(facts@, v.take(i as int));
            let ghost xs = v[i as int].1;
            let mut walk = self.postings.entries(key);
            proof {
                postings::lemma_list_found(true, v, i as int);
                assert(xs.take(0) =~= Seq::empty());
                assert(xs.skip(0) =~= xs);
                assert(done + Seq::<Keyed>::empty() =~= done);
                assert(v.take(i + 1).drop_last() =~= v.take(i as int));
                if i > 0 {
                    assert(v[i - 1].0 < v[i as int].0);
                }
                assert(list_ok_of(v, i as int));
            }
            let mut more: bool = true;
            let ghost mut n: int = 0;
            while more
                invariant
                    i < total,
                    total == v.len(),
                    v == self.postings@,
                    max == old(out).ceiling(),
                    key == v[i as int].0,
                    xs == v[i as int].1,
                    self.wf(),
                    facts.wf(),
                    postings::list_ok(true, xs),
                    walk.wf(),
                    0 <= n <= xs.len(),
                    walk.rest() == xs.skip(n),
                    more || n == xs.len(),
                    done == kept_items(facts@, v.take(i as int)),
                    v.take(i + 1).drop_last() == v.take(i as int),
                    out.wf(),
                    out.ceiling() == max,
                    out@.total_docs == start.total_docs,
                    out@.total_len == start.total_len,
                    pushed_all(
                        true,
                        Seq::empty(),
                        max,
                        done + kept_entries(facts@, key, xs.take(n)),
                    ) == (out@.postings, Ok::<(), ArenaError>(())),
                    out@.docs == summed(
                        start.docs,
                        done + kept_entries(facts@, key, xs.take(n)),
                    ),
                    forall|k: u32|
                        v[i as int].0 < k ==> (#[trigger] postings::entries_of(
                            out@.postings,
                            k,
                        )).len() == 0,
                    postings::entries_of(out@.postings, key).len() > 0 ==> n > 0
                        && postings::entries_of(out@.postings, key).last().0 <= xs[n - 1].0,
                    postings::entries_of(v, key) == xs,
                    forall|b: int| ids_below(v, b) ==> #[trigger] ids_below(out@.postings, b),
                decreases (xs.len() - n) + (if more { 1int } else { 0 }),
            {
                let ghost before = done + kept_entries(facts@, key, xs.take(n));
                match walk.next() {
                    None => {
                        more = false;
                        assert(xs.take(n) =~= xs);
                    },
                    Some((fact, tf)) => {
                        proof {
                            assert(xs.skip(n)[0] == xs[n]);
                            assert(xs.skip(n).skip(1) =~= xs.skip(n + 1));
                            assert(xs.take(n + 1).drop_last() =~= xs.take(n));
                            if n > 0 {
                                assert(xs[n - 1].0 < xs[n].0);
                            }
                            self.postings.lemma_wf();
                            out.postings.lemma_wf();
                            assert(xs[n].0 <= xs[xs.len() - 1].0);
                        }
                        if is_living(facts, fact.0) {
                            let ghost item = (key, (fact.0, tf));
                            proof {
                                postings::appending_touches_one_list(
                                    true,
                                    out@.postings,
                                    key,
                                    (fact.0, tf),
                                );
                                assert(done + kept_entries(facts@, key, xs.take(n + 1))
                                    =~= before.push(item));
                                assert(before.push(item).drop_last() =~= before);
                            }
                            let ghost held = out@.postings;
                            let pushed: Result<(), ArenaError> = out.postings.push(key, fact, tf);
                            proof {
                                if pushed is Ok {
                                    lemma_bounded(v, held, out@.postings, key, (fact.0, tf));
                                }
                            }
                            if let Err(e) = pushed {
                                proof {
                                    lemma_kept_prefix(facts@, v, i as int, n + 1);
                                    let all = kept_items(facts@, v);
                                    let m = before.push(item).len() as int;
                                    assert(all.take(m) =~= before.push(item));
                                    lemma_pushed_err(true, Seq::empty(), max, all, m);
                                }
                                return Err(e);
                            }
                            if let Some(doc) = out.doc_len.get(fact.0 as u128) {
                                let distinct: u16 = if doc.distinct < u16::MAX {
                                    doc.distinct + 1
                                } else {
                                    u16::MAX
                                };
                                proof {
                                    out.doc_len.lemma_wf();
                                    table::lemma_rank(out.doc_len@, fact.0 as int);
                                }
                                out.doc_len.set(
                                    DocLenSlot {
                                        fact: doc.fact,
                                        len: doc.len,
                                        distinct,
                                        sig: doc.sig | (1u64 << ((key % 64) as u64)),
                                    },
                                );
                            }
                        } else {
                            assert(done + kept_entries(facts@, key, xs.take(n + 1)) =~= before);
                        }
                        proof {
                            n = n + 1;
                        }
                    },
                }
            }
            assert(xs.take(n) =~= xs);
            i = i + 1;
        }
        assert(v.take(i as int) =~= v);
        Ok(())
    }

    /// Document frequency of a term.
    pub fn df(&self, term: u32) -> (r: u32)
        requires
            self.wf(),
        ensures
            r == postings::entries_of(self@.postings, term).len(),
    {
        self.postings.count(term)
    }

    /// Number of indexed documents.
    pub fn docs(&self) -> (r: u64)
        ensures
            r == self@.total_docs,
    {
        self.total_docs
    }

    /// Token count across the corpus.
    pub fn total_len(&self) -> (r: u64)
        ensures
            r == self@.total_len,
    {
        self.total_len
    }

    /// Whether some document's term summary is unknown.
    pub fn needs_resummarize(&self) -> (r: bool)
        ensures
            r == missing_summary(self@.docs),
    {
        let mut i: usize = 0;
        while i < self.doc_len.len()
            invariant
                i <= self.doc_len@.len(),
                forall|k: int| 0 <= k < i ==> !unsummarized(#[trigger] self.doc_len@[k]),
            decreases self.doc_len@.len() - i,
        {
            let doc: DocLenSlot = self.doc_len.row(i);
            if doc.len > 0 && doc.distinct == 0 {
                assert(unsummarized(self@.docs[i as int]));
                return true;
            }
            i = i + 1;
        }
        false
    }

    /// The numbers that score a query: every posting of every term, with its
    /// document's length. Repeated terms count again.
    pub fn matches(&self, terms: &Vec<u32>) -> (r: Vec<Contribution>)
        requires
            self.wf(),
        ensures
            r@ == query_matches(self@, terms@),
    {
        let mut out: Vec<Contribution> = Vec::new();
        let mut i: usize = 0;
        assert(terms@.take(0) =~= Seq::empty());
        while i < terms.len()
            invariant
                i <= terms@.len(),
                self.wf(),
                out@ == query_matches(self@, terms@.take(i as int)),
            decreases terms@.len() - i,
        {
            let term: u32 = terms[i];
            assert(terms@.take(i + 1).drop_last() =~= terms@.take(i as int));
            self.list_into(term, &mut out);
            i = i + 1;
        }
        assert(terms@.take(i as int) =~= terms@);
        out
    }

    /// Appends the contributions of one term.
    fn list_into(&self, term: u32, out: &mut Vec<Contribution>)
        requires
            self.wf(),
        ensures
            final(out)@ == old(out)@ + list_matches(
                self@.docs,
                postings::entries_of(self@.postings, term),
                postings::entries_of(self@.postings, term).len() as u32,
            ),
    {
        let ghost before = out@;
        let ghost xs = postings::entries_of(self.postings@, term);
        let df: u32 = self.postings.count(term);
        let mut walk = self.postings.entries(term);
        let mut more: bool = true;
        let ghost mut n: int = 0;
        proof {
            assert(xs.take(0) =~= Seq::empty());
            assert(xs.skip(0) =~= xs);
            assert(before + Seq::<Contribution>::empty() =~= before);
        }
        while more
            invariant
                self.wf(),
                walk.wf(),
                0 <= n <= xs.len(),
                walk.rest() == xs.skip(n),
                more || n == xs.len(),
                out@ == before + list_matches(self.doc_len@, xs.take(n), df),
            decreases (xs.len() - n) + (if more { 1int } else { 0 }),
        {
            match walk.next() {
                None => {
                    more = false;
                },
                Some((fact, tf)) => {
                    proof {
                        assert(xs.skip(n)[0] == xs[n]);
                        assert(xs.skip(n).skip(1) =~= xs.skip(n + 1));
                        assert(xs.take(n + 1).drop_last() =~= xs.take(n));
                    }
                    if let Some(doc) = self.doc_len.get(fact.0 as u128) {
                        out.push(Contribution { fact, tf, len: doc.len, df });
                    }
                    assert(out@ =~= before + list_matches(self.doc_len@, xs.take(n + 1), df));
                    proof {
                        n = n + 1;
                    }
                },
            }
        }
        assert(xs.take(n) =~= xs);
    }

    /// Bytes held by the pools.
    pub fn pool_bytes(&self) -> (r: u128)
        requires
            self.wf(),
        ensures
            r == self@.postings.len() * 24 + postings::store_bytes(true, self@.postings)
                + self@.docs.len() * 16,
            r <= 0x10_0000_0000_0000_0000,
    {
        proof {
            self.postings.lemma_wf();
        }
        self.postings.pool_bytes() + self.doc_len.pool_bytes() as u128
    }

    /// The posting store.
    pub fn postings(&self) -> (r: &PostingStore<true>)
        requires
            self.wf(),
        ensures
            r.wf(),
            r@ == self@.postings,
            r.ceiling() == self.ceiling(),
    {
        &self.postings
    }

    /// The per-document records.
    pub fn doc_len_arena(&self) -> (r: &Table<DocLenSlot>)
        requires
            self.wf(),
        ensures
            r.wf(),
            r@ == self@.docs,
            r.ceiling() == self.ceiling(),
    {
        &self.doc_len
    }

    /// Assembles an index from loaded parts.
    pub fn from_parts(
        postings: PostingStore<true>,
        doc_len: Table<DocLenSlot>,
        total_docs: u64,
        total_len: u64,
    ) -> (r: Bm25Index)
        requires
            postings.wf(),
            doc_len.wf(),
            postings.ceiling() == doc_len.ceiling(),
        ensures
            r.wf(),
            r.ceiling() == doc_len.ceiling(),
            r@ == (Bm25State { postings: postings@, docs: doc_len@, total_docs, total_len }),
    {
        Bm25Index { postings, doc_len, total_docs, total_len }
    }
}

proof fn lemma_bounded(v: Seq<List>, held: Seq<List>, out: Seq<List>, key: u32, e: Entry)
    requires
        forall|k: u32|
            k != key ==> #[trigger] postings::entries_of(out, k) == postings::entries_of(held, k),
        postings::entries_of(out, key) == postings::entries_of(held, key).push(e),
        postings::entries_of(v, key).len() > 0,
        e.0 <= postings::entries_of(v, key).last().0,
        forall|b: int| ids_below(v, b) ==> #[trigger] ids_below(held, b),
    ensures
        forall|b: int| ids_below(v, b) ==> #[trigger] ids_below(out, b),
{
    assert forall|b: int| ids_below(v, b) implies #[trigger] ids_below(out, b) by {
        assert(ids_below(held, b));
        assert forall|k: u32| (#[trigger] postings::entries_of(out, k)).len() > 0 implies
            postings::entries_of(out, k).last().0 < b by {
            if k != key {
                assert(postings::entries_of(out, k) == postings::entries_of(held, k));
            }
        }
    }
}

spec fn list_ok_of(v: Seq<List>, i: int) -> bool {
    postings::list_ok(true, v[i].1)
}

/// Whether `fact` is on record and not forgotten.
fn is_living(facts: &Table<FactRecord>, fact: u32) -> (r: bool)
    requires
        facts.wf(),
    ensures
        r == living(facts@, fact),
{
    match facts.get(fact as u128) {
        Some(f) => !f.is_tombstone(),
        None => false,
    }
}

/// The summary does not depend on the recorded length.
proof fn lemma_blank(a: DocLenSlot, b: DocLenSlot, pairs: Seq<(u32, u8)>)
    requires
        a == (DocLenSlot { len: a.len, ..b }),
    ensures
        with_terms(b, pairs) == (DocLenSlot { len: b.len, ..with_terms(a, pairs) }),
    decreases pairs.len(),
{
    if pairs.len() > 0 {
        lemma_blank(a, b, pairs.drop_last());
    }
}

/// More documents keep at least as many records.
proof fn lemma_kept_grows(facts: Seq<FactRecord>, docs: Seq<DocLenSlot>, n: int)
    requires
        0 <= n <= docs.len(),
    ensures
        kept_docs(facts, docs.take(n)).len() <= kept_docs(facts, docs).len(),
    decreases docs.len() - n,
{
    if n < docs.len() {
        lemma_kept_grows(facts, docs, n + 1);
        assert(docs.take(n + 1).drop_last() =~= docs.take(n));
    } else {
        assert(docs.take(n) =~= docs);
    }
}

/// The entries kept up to one place are a prefix of all that are kept.
proof fn lemma_kept_prefix(facts: Seq<FactRecord>, v: Seq<List>, i: int, n: int)
    requires
        0 <= i < v.len(),
        0 <= n <= v[i].1.len(),
    ensures
        ({
            let part = kept_items(facts, v.take(i)) + kept_entries(
                facts,
                v[i].0,
                v[i].1.take(n),
            );
            part.len() <= kept_items(facts, v).len() && kept_items(facts, v).take(
                part.len() as int,
            ) == part
        }),
    decreases v.len() - i, v[i].1.len() - n,
{
    let xs = v[i].1;
    let part = kept_items(facts, v.take(i)) + kept_entries(facts, v[i].0, xs.take(n));
    let all = kept_items(facts, v);
    if n < xs.len() {
        lemma_kept_prefix(facts, v, i, n + 1);
        assert(xs.take(n + 1).drop_last() =~= xs.take(n));
        let next = kept_items(facts, v.take(i)) + kept_entries(facts, v[i].0, xs.take(n + 1));
        assert(next.take(part.len() as int) =~= part);
        assert(all.take(part.len() as int) =~= next.take(part.len() as int));
    } else {
        assert(xs.take(n) =~= xs);
        assert(v.take(i + 1).drop_last() =~= v.take(i));
        assert(part == kept_items(facts, v.take(i + 1)));
        if i + 1 < v.len() {
            lemma_kept_prefix(facts, v, i + 1, 0);
            assert(v[i + 1].1.take(0) =~= Seq::empty());
            assert(part + kept_entries(facts, v[i + 1].0, v[i + 1].1.take(0)) =~= part);
        } else {
            assert(v.take(i + 1) =~= v);
            assert(all.take(all.len() as int) =~= all);
        }
    }
}

/// The best `k` documents of a query, best first: `scored` holds the summed
/// score of each document that may be returned.
pub fn top_documents(scored: &Vec<Scored>, k: usize) -> (r: Vec<(FactId, F32Bits)>)
    ensures
        r@ == rank::top(scored@, k as int).map_values(|x: Scored| (FactId(x.1), x.0)),
{
    let best: Vec<Scored> = rank_top(scored, k);
    let mut out: Vec<(FactId, F32Bits)> = Vec::new();
    let ghost f = |x: Scored| (FactId(x.1), x.0);
    let mut i: usize = 0;
    while i < best.len()
        invariant
            i <= best@.len(),
            f == (|x: Scored| (FactId(x.1), x.0)),
            out@ == best@.take(i as int).map_values(f),
        decreases best@.len() - i,
    {
        out.push((FactId(best[i].1), best[i].0));
        i = i + 1;
        assert(out@ =~= best@.take(i as int).map_values(f));
    }
    assert(best@.take(i as int) =~= best@);
    out
}

} // verus!
