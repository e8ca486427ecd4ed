//! What maintenance leaves of the indexes: every living fact is still found
//! under its words, its tags and its subject, and no forgotten one is.

use crate::id::{FactId, NONE_U32};
use crate::index;
use crate::index::bm25;
use crate::index::bm25::{Bm25State, Keyed};
use crate::index::postings;
use crate::index::postings::{Entry, List};
use crate::memory::compaction;
use crate::memory::maintain;
use crate::memory::maintain::Carry;
use crate::memory::state;
use crate::memory::state::State;
use crate::memory::tagging;
use crate::model::{fact_flags, DocLenSlot, FactRecord, Slot};
use crate::table;
use vstd::prelude::*;

verus! {

/// A fact on record that is not forgotten.
pub open spec fn lives(facts: Seq<FactRecord>, id: u32) -> bool {
    table::row_of(facts, id as int) matches Some(f) && f.flags & fact_flags::TOMBSTONE == 0
}

/// Items of one key come with rising ids.
spec fn rising(items: Seq<Keyed>) -> bool {
    forall|i: int, j: int|
        0 <= i < j < items.len() && (#[trigger] items[i]).0 == (#[trigger] items[j]).0
            ==> items[i].1.0 < items[j].1.0
}

proof fn lemma_kept_entries(facts: Seq<FactRecord>, key: u32, xs: Seq<Entry>)
    requires
        forall|i: int, j: int|
            0 <= i < j < xs.len() ==> (#[trigger] xs[i]).0 < (#[trigger] xs[j]).0,
    ensures
        rising(bm25::kept_entries(facts, key, xs)),
        forall|e: Keyed| #[trigger]
            bm25::kept_entries(facts, key, xs).contains(e) <==> e.0 == key && xs.contains(e.1)
                && lives(facts, e.1.0),
    decreases xs.len(),
{
    let all = bm25::kept_entries(facts, key, xs);
    if xs.len() > 0 {
        let init = xs.drop_last();
        assert forall|i: int, j: int| 0 <= i < j < init.len() implies (#[trigger] init[i]).0 < (
        #[trigger] init[j]).0 by {
            assert(init[i] == xs[i] && init[j] == xs[j]);
        }
        lemma_kept_entries(facts, key, init);
        let front = bm25::kept_entries(facts, key, init);
        let last = xs.last();
        assert(xs[xs.len() - 1] == last);
        assert forall|e: Keyed| #[trigger] all.contains(e) <==> e.0 == key && xs.contains(e.1)
            && lives(facts, e.1.0) by {
            if all.contains(e) {
                let k = all.index_of(e);
                if k < front.len() {
                    assert(front[k] == e);
                    assert(front.contains(e));
                    let j = init.index_of(e.1);
                    assert(xs[j] == e.1);
                }
            }
            if e.0 == key && xs.contains(e.1) && lives(facts, e.1.0) {
                let j = xs.index_of(e.1);
                if j < init.len() {
                    assert(init[j] == e.1);
                    assert(front.contains(e));
                    let k = front.index_of(e);
                    assert(all[k] == e);
                } else {
                    assert(all[all.len() - 1] == e);
                }
            }
        }
        assert forall|i: int, j: int|
            0 <= i < j < all.len() && (#[trigger] all[i]).0 == (#[trigger] all[j]).0 implies all[i].1.0
            < all[j].1.0 by {
            if j < front.len() {
                assert(all[i] == front[i] && all[j] == front[j]);
            } else {
                assert(all[i] == front[i]);
                assert(front.contains(front[i]));
                let k = init.index_of(front[i].1);
                assert(xs[k] == front[i].1);
                assert(xs[k].0 < xs[xs.len() - 1].0);
            }
        }
    }
}

proof fn lemma_kept_items(facts: Seq<FactRecord>, v: Seq<List>)
    requires
        postings::lists_ok(true, v),
    ensures
        rising(bm25::kept_items(facts, v)),
        forall|e: Keyed| #[trigger]
            bm25::kept_items(facts, v).contains(e) <==> on_list(v, e) && lives(facts, e.1.0),
    decreases v.len(),
{
    let all = bm25::kept_items(facts, v);
    if v.len() > 0 {
        let init = v.drop_last();
        assert(postings::lists_ok(true, init)) by {
            assert forall|i: int| 0 <= i < init.len() implies postings::list_ok(
                true,
                (#[trigger] init[i]).1,
            ) && init[i].1.len() > 0 by {
                assert(init[i] == v[i]);
            }
            assert forall|i: int, j: int| 0 <= i < j < init.len() implies (#[trigger] init[i]).0 < (
            #[trigger] init[j]).0 by {
                assert(init[i] == v[i] && init[j] == v[j]);
            }
        }
        lemma_kept_items(facts, init);
        let front = bm25::kept_items(facts, init);
        let (key, xs) = v.last();
        assert(v[v.len() - 1] == (key, xs));
        assert(postings::list_ok(true, v[v.len() - 1].1));
        lemma_kept_entries(facts, key, xs);
        let more = bm25::kept_entries(facts, key, xs);
        assert(all == front + more);
        assert forall|e: Keyed| #[trigger] all.contains(e) <==> on_list(v, e) && lives(
            facts,
            e.1.0,
        ) by {
            if all.contains(e) {
                let k = all.index_of(e);
                if k < front.len() {
                    assert(front[k] == e);
                    assert(front.contains(e));
                    let i = choose|i: int|
                        0 <= i < init.len() && (#[trigger] init[i]).0 == e.0 && init[i].1.contains(
                            e.1,
                        );
                    assert(v[i] == init[i]);
                } else {
                    assert(more[k - front.len()] == e);
                    assert(more.contains(e));
                }
            }
            if on_list(v, e) && lives(facts, e.1.0) {
                let i = choose|i: int|
                    0 <= i < v.len() && (#[trigger] v[i]).0 == e.0 && v[i].1.contains(e.1);
                if i < init.len() {
                    assert(init[i] == v[i]);
                    assert(on_list(init, e));
                    assert(front.contains(e));
                    let k = front.index_of(e);
                    assert(all[k] == e);
                } else {
                    assert(more.contains(e));
                    let k = more.index_of(e);
                    assert(all[front.len() + k] == e);
                }
            }
        }
        assert forall|i: int, j: int|
            0 <= i < j < all.len() && (#[trigger] all[i]).0 == (#[trigger] all[j]).0 implies all[i].1.0
            < all[j].1.0 by {
            if j < front.len() {
                assert(all[i] == front[i] && all[j] == front[j]);
            } else if i < front.len() {
                assert(all[i] == front[i] && all[j] == more[j - front.len()]);
                assert(front.contains(front[i]));
                assert(more.contains(more[j - front.len()]));
                let k = choose|k: int|
                    0 <= k < init.len() && (#[trigger] init[k]).0 == front[i].0
                        && init[k].1.contains(front[i].1);
                assert(v[k] == init[k]);
                assert(v[k].0 < v[v.len() - 1].0);
            } else {
                assert(all[i] == more[i - front.len()] && all[j] == more[j - front.len()]);
            }
        }
    }
}

/// Some list of a key holds an entry.
spec fn on_list(v: Seq<List>, e: Keyed) -> bool {
    exists|i: int| 0 <= i < v.len() && (#[trigger] v[i]).0 == e.0 && v[i].1.contains(e.1)
}

proof fn lemma_on_list(v: Seq<List>, key: u32, e: Entry)
    requires
        postings::lists_ok(true, v),
    ensures
        on_list(v, (key, e)) <==> postings::entries_of(v, key).contains(e),
{
    postings::lemma_list_rank(true, v, key);
    if on_list(v, (key, e)) {
        let i = choose|i: int| 0 <= i < v.len() && (#[trigger] v[i]).0 == key && v[i].1.contains(e);
        postings::lemma_list_found(true, v, i);
    }
    if postings::entries_of(v, key).contains(e) {
        let i = postings::list_rank(v, key);
        assert(v[i].0 == key);
    }
}

proof fn lemma_pushed(max_bytes: int, items: Seq<Keyed>)
    requires
        rising(items),
        bm25::pushed_all(true, Seq::empty(), max_bytes, items).1 is Ok,
    ensures
        ({
            let out = bm25::pushed_all(true, Seq::empty(), max_bytes, items).0;
            &&& postings::lists_ok(true, out)
            &&& forall|k: u32, e: Entry|
                #![trigger postings::entries_of(out, k).contains(e)]
                postings::entries_of(out, k).contains(e) <==> items.contains((k, e))
        }),
    decreases items.len(),
{
    let none = Seq::<List>::empty();
    let out = bm25::pushed_all(true, none, max_bytes, items).0;
    if items.len() == 0 {
        assert forall|k: u32, e: Entry|
            #![trigger postings::entries_of(out, k).contains(e)]
            postings::entries_of(out, k).contains(e) <==> items.contains((k, e)) by {
            assert(!postings::lists_have(out, k));
        }
    } else {
        let init = items.drop_last();
        assert forall|i: int, j: int|
            0 <= i < j < init.len() && (#[trigger] init[i]).0 == (
            #[trigger] init[j]).0 implies init[i].1.0 < init[j].1.0 by {
            assert(init[i] == items[i] && init[j] == items[j]);
        }
        lemma_pushed(max_bytes, init);
        let mid = bm25::pushed_all(true, none, max_bytes, init).0;
        let (key, x) = items.last();
        assert(items[items.len() - 1] == (key, x));
        let xs = postings::entries_of(mid, key);
        if xs.len() > 0 {
            assert(xs.contains(xs[xs.len() - 1]));
            assert(init.contains((key, xs.last())));
            let i = init.index_of((key, xs.last()));
            assert(items[i] == (key, xs.last()));
            assert(items[i].1.0 < items[items.len() - 1].1.0);
        }
        postings::appending_touches_one_list(true, mid, key, x);
        assert(out == postings::with_entry(mid, key, x));
        assert forall|k: u32, e: Entry|
            #![trigger postings::entries_of(out, k).contains(e)]
            postings::entries_of(out, k).contains(e) <==> items.contains((k, e)) by {
            let was = postings::entries_of(mid, k);
            assert(was.contains(e) <==> init.contains((k, e)));
            assert(items.contains((k, e)) <==> init.contains((k, e)) || (k, e) == (key, x)) by {
                if init.contains((k, e)) {
                    let i = init.index_of((k, e));
                    assert(items[i] == (k, e));
                }
                if items.contains((k, e)) && (k, e) != (key, x) {
                    let i = items.index_of((k, e));
                    assert(init[i] == (k, e));
                }
            }
            if k == key {
                let now = was.push(x);
                assert(postings::entries_of(out, k) == now);
                assert(now.contains(e) <==> was.contains(e) || e == x) by {
                    if was.contains(e) {
                        let i = was.index_of(e);
                        assert(now[i] == e);
                    }
                    assert(now[was.len() as int] == x);
                    if now.contains(e) && e != x {
                        let i = now.index_of(e);
                        assert(was[i] == e);
                    }
                }
            } else {
                assert(postings::entries_of(out, k) == was);
            }
        }
    }
}

/// Compacting the lexical index keeps exactly the entries of living facts,
/// each with its own frequency.
pub proof fn compaction_keeps_the_words_of_living_facts(
    b: Bm25State,
    facts: Seq<FactRecord>,
    max_bytes: int,
    term: u32,
    e: Entry,
)
    requires
        postings::lists_ok(true, b.postings),
        bm25::compacted(b, facts, max_bytes) is Ok,
    ensures
        ({
            let c = bm25::compacted(b, facts, max_bytes)->Ok_0;
            &&& postings::lists_ok(true, c.postings)
            &&& postings::entries_of(c.postings, term).contains(e) <==> postings::entries_of(
                b.postings,
                term,
            ).contains(e) && lives(facts, e.0)
        }),
{
    let items = bm25::kept_items(facts, b.postings);
    lemma_kept_items(facts, b.postings);
    lemma_pushed(max_bytes, items);
    lemma_on_list(b.postings, term, e);
    assert(items.contains((term, e)) <==> on_list(b.postings, (term, e)) && lives(facts, e.0));
}

proof fn lemma_kept_docs(facts: Seq<FactRecord>, docs: Seq<DocLenSlot>)
    requires
        table::ascending(docs),
    ensures
        ({
            let r = bm25::kept_docs(facts, docs);
            &&& table::ascending(r)
            &&& forall|i: int|
                0 <= i < r.len() ==> lives(facts, (#[trigger] r[i]).fact.0) && has_doc(
                    docs,
                    r[i].fact,
                    r[i].len,
                )
            &&& forall|j: int|
                0 <= j < docs.len() && lives(facts, (#[trigger] docs[j]).fact.0) ==> has_doc(
                    r,
                    docs[j].fact,
                    docs[j].len,
                )
        }),
    decreases docs.len(),
{
    let r = bm25::kept_docs(facts, docs);
    if docs.len() > 0 {
        let init = docs.drop_last();
        assert(table::ascending(init)) by {
            assert forall|i: int, j: int| 0 <= i < j < init.len() implies (
            #[trigger] init[i]).key() < (#[trigger] init[j]).key() by {
                assert(init[i] == docs[i] && init[j] == docs[j]);
            }
        }
        lemma_kept_docs(facts, init);
        let front = bm25::kept_docs(facts, init);
        let last = docs.last();
        assert(docs[docs.len() - 1] == last);
        assert forall|i: int| 0 <= i < front.len() implies (#[trigger] front[i]).key()
            < last.key() by {
            let k = choose|k: int|
                0 <= k < init.len() && (#[trigger] init[k]).fact == front[i].fact && init[k].len
                    == front[i].len;
            assert(docs[k].key() < docs[docs.len() - 1].key());
        }
        assert forall|i: int| 0 <= i < r.len() implies lives(facts, (#[trigger] r[i]).fact.0)
            && has_doc(docs, r[i].fact, r[i].len) by {
            if i < front.len() {
                assert(r[i] == front[i]);
                let k = choose|k: int|
                    0 <= k < init.len() && (#[trigger] init[k]).fact == front[i].fact
                        && init[k].len == front[i].len;
                assert(docs[k] == init[k]);
            }
        }
        assert forall|j: int|
            0 <= j < docs.len() && lives(facts, (#[trigger] docs[j]).fact.0) implies has_doc(
            r,
            docs[j].fact,
            docs[j].len,
        ) by {
            if j < init.len() {
                assert(init[j] == docs[j]);
                let k = choose|k: int|
                    0 <= k < front.len() && (#[trigger] front[k]).fact == docs[j].fact
                        && front[k].len == docs[j].len;
                assert(r[k] == front[k]);
            } else {
                assert(r[r.len() - 1].fact == last.fact);
            }
        }
    }
}

/// Some record gives a document its length.
pub open spec fn has_doc(docs: Seq<DocLenSlot>, fact: FactId, len: u16) -> bool {
    exists|k: int| 0 <= k < docs.len() && (#[trigger] docs[k]).fact == fact && docs[k].len == len
}

proof fn lemma_summed(docs: Seq<DocLenSlot>, items: Seq<Keyed>)
    requires
        table::ascending(docs),
    ensures
        ({
            let r = bm25::summed(docs, items);
            &&& r.len() == docs.len()
            &&& table::ascending(r)
            &&& forall|i: int|
                0 <= i < docs.len() ==> (#[trigger] r[i]).fact == docs[i].fact && r[i].len
                    == docs[i].len
        }),
    decreases items.len(),
{
    if items.len() > 0 {
        let init = items.drop_last();
        lemma_summed(docs, init);
        let front = bm25::summed(docs, init);
        let id = items.last().1.0 as int;
        if let Some(d) = table::row_of(front, id) {
            table::lemma_rank(front, id);
            let row = bm25::with_term(d, items.last().0);
            assert(row.key() == d.key());
            table::lemma_replaced(front, row);
        }
    }
}

/// Compacting the lexical index keeps the length of every living document.
pub proof fn compaction_keeps_the_documents_of_living_facts(
    b: Bm25State,
    facts: Seq<FactRecord>,
    max_bytes: int,
    fact: FactId,
    len: u16,
)
    requires
        table::ascending(b.docs),
        bm25::compacted(b, facts, max_bytes) is Ok,
    ensures
        ({
            let c = bm25::compacted(b, facts, max_bytes)->Ok_0;
            &&& table::ascending(c.docs)
            &&& c.total_docs == c.docs.len() as u64
            &&& has_doc(c.docs, fact, len) <==> has_doc(b.docs, fact, len) && lives(facts, fact.0)
        }),
{
    let kept = bm25::kept_docs(facts, b.docs);
    let c = bm25::compacted(b, facts, max_bytes)->Ok_0;
    lemma_kept_docs(facts, b.docs);
    lemma_summed(kept, bm25::kept_items(facts, b.postings));
    if has_doc(c.docs, fact, len) {
        let k = choose|k: int|
            0 <= k < c.docs.len() && (#[trigger] c.docs[k]).fact == fact && c.docs[k].len == len;
        assert(kept[k].fact == fact && kept[k].len == len);
    }
    if has_doc(b.docs, fact, len) && lives(facts, fact.0) {
        let k = choose|k: int|
            0 <= k < b.docs.len() && (#[trigger] b.docs[k]).fact == fact && b.docs[k].len == len;
        assert(has_doc(kept, fact, len));
        let j = choose|j: int|
            0 <= j < kept.len() && (#[trigger] kept[j]).fact == fact && kept[j].len == len;
        assert(c.docs[j].fact == fact);
    }
}

/// A living fact stands under its subject and under each of its tags.
pub open spec fn stands(s: State, d: State, id: FactId) -> bool {
    match (table::row_of(s.facts, id.0 as int), table::row_of(s.aux, id.0 as int)) {
        (Some(f), Some(a)) => lives(s.facts, id.0) ==> {
            &&& f.entity.0 != NONE_U32 ==> index::has_id(
                postings::entries_of(d.entity_facts, f.entity.0),
                id.0,
            )
            &&& forall|t: u32|
                maintain::tag_ids(s, a.tags).contains(t) ==> index::has_id(
                    #[trigger] postings::entries_of(d.tags_idx, t),
                    id.0,
                )
        },
        _ => true,
    }
}

/// The rebuilt listings so far.
spec fn standing(s: State, d: State, n: int) -> bool {
    &&& postings::lists_ok(false, d.tags_idx)
    &&& postings::lists_ok(false, d.entity_facts)
    &&& bm25::ids_below(d.tags_idx, n)
    &&& bm25::ids_below(d.entity_facts, n)
    &&& forall|id: FactId| id.0 < n ==> #[trigger] stands(s, d, id)
}

proof fn lemma_below(v: Seq<List>, n: int)
    requires
        bm25::ids_below(v, n),
    ensures
        bm25::ids_below(v, n + 1),
{
}

proof fn lemma_still_has(xs: Seq<Entry>, e: Entry, id: u32)
    ensures
        index::has_id(xs, id) ==> index::has_id(xs.push(e), id),
        index::has_id(xs.push(e), e.0),
{
    let ys = xs.push(e);
    if index::has_id(xs, id) {
        let i = choose|i: int| 0 <= i < xs.len() && (#[trigger] xs[i]).0 == id;
        assert(ys[i] == xs[i]);
    }
    assert(ys[xs.len() as int] == e);
}

proof fn lemma_one_stands(s: State, c: Carry, fid: int, reindex: bool)
    requires
        table::ascending(s.facts),
        table::ascending(s.aux),
        0 <= fid < NONE_U32,
        standing(s, c.state, fid),
        maintain::fact_carried(s, c, fid, reindex) is Ok,
    ensures
        standing(s, maintain::fact_carried(s, c, fid, reindex)->Ok_0.state, fid + 1),
{
    let b = c.state;
    let d = maintain::fact_carried(s, c, fid, reindex)->Ok_0.state;
    let id = FactId(fid as u32);
    lemma_below(b.tags_idx, fid);
    lemma_below(b.entity_facts, fid);
    table::lemma_rank(s.facts, fid);
    table::lemma_rank(s.aux, fid);
    if table::row_of(s.facts, fid) is Some && !table::row_of(s.facts, fid)->0.tombstone() {
        let rec = table::row_of(s.facts, fid)->0;
        let a = table::row_of(s.aux, fid)->0;
        assert(rec.id == id && a.id == id);
        let b1 = state::text_stored(b, s.texts[rec.text.0 as int]).0;
        let b2 = if reindex {
            maintain::doc_reindexed(s, b1, rec)->Ok_0
        } else {
            b1
        };
        let ids = maintain::tag_ids(s, a.tags);
        let (e, list) = maintain::tags_carried(b2, ids, id)->Ok_0;
        assert(b2.tags_idx == b.tags_idx && b2.entity_facts == b.entity_facts);
        compaction::lemma_tags_carried(b2, ids, id);
        tagging::lemma_carried_listed(b2, ids, id);
        let b3 = maintain::aux_carried(s, b2, a)->Ok_0;
        assert(b3.tags_idx == e.tags_idx && b3.entity_facts == b.entity_facts);
        let b4 = maintain::listed(b3, rec)->Ok_0;
        assert(b4.tags_idx == e.tags_idx);
        assert(d.tags_idx == b4.tags_idx && d.entity_facts == b4.entity_facts);
        let x = (id.0, 1u8);
        if rec.entity.0 != NONE_U32 {
            postings::appending_touches_one_list(false, b.entity_facts, rec.entity.0, x);
            assert(d.entity_facts == postings::with_entry(b.entity_facts, rec.entity.0, x));
        }
        assert(bm25::ids_below(d.entity_facts, fid + 1)) by {
            assert forall|k: u32|
                (#[trigger] postings::entries_of(
                    d.entity_facts,
                    k,
                )).len() > 0 implies postings::entries_of(d.entity_facts, k).last().0 < fid + 1 by {
                if rec.entity.0 == NONE_U32 || k != rec.entity.0 {
                    assert(postings::entries_of(d.entity_facts, k) == postings::entries_of(
                        b.entity_facts,
                        k,
                    ));
                }
            }
        }
        assert(bm25::ids_below(d.tags_idx, fid + 1)) by {
            assert forall|k: u32|
                (#[trigger] postings::entries_of(
                    d.tags_idx,
                    k,
                )).len() > 0 implies postings::entries_of(d.tags_idx, k).last().0 < fid + 1 by {
                if list.contains(k) {
                    let i = list.index_of(k);
                    assert(postings::entries_of(e.tags_idx, list[i]) == postings::entries_of(
                        b.tags_idx,
                        list[i],
                    ).push(x));
                } else {
                    assert(postings::entries_of(e.tags_idx, k) == postings::entries_of(
                        b.tags_idx,
                        k,
                    ));
                }
            }
        }
        assert forall|t: u32, o: u32|
            #![trigger index::has_id(postings::entries_of(d.tags_idx, t), o)]
            index::has_id(postings::entries_of(b.tags_idx, t), o) || (list.contains(t) && o
                == id.0) implies index::has_id(postings::entries_of(d.tags_idx, t), o) by {
            if list.contains(t) {
                let i = list.index_of(t);
                assert(postings::entries_of(e.tags_idx, list[i]) == postings::entries_of(
                    b.tags_idx,
                    list[i],
                ).push(x));
                lemma_still_has(postings::entries_of(b.tags_idx, t), x, o);
            } else {
                assert(postings::entries_of(e.tags_idx, t) == postings::entries_of(b.tags_idx, t));
            }
        }
        assert forall|k: u32, o: u32|
            #![trigger index::has_id(postings::entries_of(d.entity_facts, k), o)]
            index::has_id(postings::entries_of(b.entity_facts, k), o) || (rec.entity.0 != NONE_U32
                && k == rec.entity.0 && o == id.0) implies index::has_id(
            postings::entries_of(d.entity_facts, k),
            o,
        ) by {
            lemma_still_has(postings::entries_of(b.entity_facts, k), x, o);
        }
        assert forall|o: FactId| o.0 < fid + 1 implies #[trigger] stands(s, d, o) by {
            if o.0 < fid {
                assert(stands(s, b, o));
                if let (Some(f), Some(g)) = (
                    table::row_of(s.facts, o.0 as int),
                    table::row_of(s.aux, o.0 as int),
                ) {
                    if lives(s.facts, o.0) {
                        assert forall|t: u32|
                            maintain::tag_ids(s, g.tags).contains(t) implies index::has_id(
                            #[trigger] postings::entries_of(d.tags_idx, t),
                            o.0,
                        ) by {
                            assert(index::has_id(postings::entries_of(b.tags_idx, t), o.0));
                        }
                        if f.entity.0 != NONE_U32 {
                            assert(index::has_id(
                                postings::entries_of(b.entity_facts, f.entity.0),
                                o.0,
                            ));
                            assert(index::has_id(
                                postings::entries_of(d.entity_facts, f.entity.0),
                                o.0,
                            ));
                        }
                    }
                }
            } else {
                assert(o == id);
                assert forall|t: u32| ids.contains(t) implies index::has_id(
                    #[trigger] postings::entries_of(d.tags_idx, t),
                    o.0,
                ) by {
                    assert(list.contains(t));
                    assert(index::has_id(postings::entries_of(d.tags_idx, t), o.0));
                }
                if rec.entity.0 != NONE_U32 {
                    assert(index::has_id(
                        postings::entries_of(d.entity_facts, rec.entity.0),
                        o.0,
                    ));
                }
            }
        }
    } else {
        assert(d == b);
        assert forall|o: FactId| o.0 < fid + 1 implies #[trigger] stands(s, d, o) by {
            if o.0 < fid {
                assert(stands(s, b, o));
            } else {
                assert(!lives(s.facts, o.0));
            }
        }
    }
}

proof fn lemma_all_stand(s: State, c: Carry, n: nat, reindex: bool)
    requires
        table::ascending(s.facts),
        table::ascending(s.aux),
        n <= NONE_U32,
        standing(s, c.state, 0),
        maintain::facts_carried(s, c, n, reindex) is Ok,
    ensures
        standing(s, maintain::facts_carried(s, c, n, reindex)->Ok_0.state, n as int),
    decreases n,
{
    if n > 0 {
        lemma_all_stand(s, c, (n - 1) as nat, reindex);
        let d = maintain::facts_carried(s, c, (n - 1) as nat, reindex)->Ok_0;
        lemma_one_stands(s, d, n - 1, reindex);
    }
}

/// A rebuild lists every living fact under its subject and under each of its
/// tags.
pub proof fn a_rebuild_lists_every_living_fact(s: State, reindex: bool, id: FactId)
    requires
        table::ascending(s.facts),
        table::ascending(s.aux),
        table::ascending(s.entities),
        s.next_fact <= NONE_U32,
        id.0 < s.next_fact,
        maintain::rebuilt(s, reindex) is Ok,
    ensures
        stands(s, maintain::rebuilt(s, reindex)->Ok_0.state, id),
{
    let index = maintain::base_index(s, reindex)->Ok_0;
    let a = State { bm25: index, ..maintain::cleared(s) };
    let b = maintain::entities_carried(s, a, s.next_entity as nat)->Ok_0;
    compaction::lemma_entities_carried(s, a, s.next_entity as nat);
    let c = Carry { state: b, map: maintain::no_slots(s), purged: 0 };
    assert(standing(s, b, 0)) by {
        assert(b.tags_idx.len() == 0 && b.entity_facts.len() == 0);
        assert forall|k: u32| (#[trigger] postings::entries_of(b.tags_idx, k)).len() == 0 by {
            assert(!postings::lists_have(b.tags_idx, k));
        }
        assert forall|k: u32| (#[trigger] postings::entries_of(b.entity_facts, k)).len() == 0 by {
            assert(!postings::lists_have(b.entity_facts, k));
        }
    }
    lemma_all_stand(s, c, s.next_fact as nat, reindex);
}

} // verus!
