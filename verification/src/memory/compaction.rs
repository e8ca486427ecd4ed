//! What maintenance leaves of a state: everything that can be read.
//!
//! Forgotten facts go, and nothing else does. Ids, records, texts, tags,
//! metadata and names read the same behind a pass as before it; only the
//! places they are stored at change.

use crate::heap;
use crate::id::{FactId, TermId, NONE_U32};
use crate::index::bm25;
use crate::index::bm25::{Bm25State, Keyed};
use crate::index::hnsw::HnswState;
use crate::journal::OpView;
use crate::memory;
use crate::memory::history;
use crate::memory::links;
use crate::memory::load;
use crate::memory::maintain;
use crate::memory::maintain::{Carry, WorkPlan};
use crate::memory::replay;
use crate::memory::state;
use crate::memory::state::State;
use crate::memory::tagging;
use crate::memory::whole;
use crate::model;
use crate::model::{DocLenSlot, EntityRecord, FactAux, FactRecord, ListHandle, Slot, TemporalSlot};
use crate::table;
use vstd::prelude::*;

verus! {

/// The fact, auxiliary and entity tables are in order, and fact ids are below
/// the next one.
pub open spec fn ordered(s: State) -> bool {
    replay::numbered(s) && table::ascending(s.aux) && table::ascending(s.entities)
}

/// The record is the same but for where its text and vector are stored, and
/// the text is the same.
pub open spec fn same_fact(s: State, f: FactRecord, b: State, g: FactRecord) -> bool {
    &&& g == (FactRecord { text: g.text, vector: g.vector, ..f })
    &&& !f.vectored() ==> g.vector == NONE_U32
    &&& g.text.0 < b.texts.len()
    &&& b.texts[g.text.0 as int] == s.texts[f.text.0 as int]
}

/// Fact id `k`: kept when it lives, gone when it does not.
pub open spec fn fact_kept(s: State, b: State, k: int) -> bool {
    match table::row_of(s.facts, k) {
        Some(f) => if f.tombstone() {
            table::row_of(b.facts, k) is None
        } else {
            match table::row_of(b.facts, k) {
                Some(g) => same_fact(s, f, b, g),
                None => false,
            }
        },
        None => table::row_of(b.facts, k) is None,
    }
}

/// A record of a rebuilt table.
pub open spec fn row_kept(s: State, n: int, g: FactRecord) -> bool {
    &&& g.id.0 < n
    &&& !g.tombstone()
    &&& whole::facts_whole(s) ==> whole::fact_sane(s.next_fact, s.next_entity, g)
}

/// The first `n` fact ids are rebuilt.
pub open spec fn facts_kept(s: State, b: State, n: int) -> bool {
    &&& table::ascending(b.facts)
    &&& forall|i: int| 0 <= i < b.facts.len() ==> row_kept(s, n, #[trigger] b.facts[i])
    &&& forall|k: int| 0 <= k < n ==> #[trigger] fact_kept(s, b, k)
}

/// The metadata is the same, and so is the set of tags.
pub open spec fn same_aux(s: State, a: FactAux, b: State, c: FactAux) -> bool {
    &&& c.id == a.id
    &&& a.meta.0 == NONE_U32 <==> c.meta.0 == NONE_U32
    &&& a.meta.0 != NONE_U32 ==> c.meta.0 < b.metas.len() && b.metas[c.meta.0 as int]
        == s.metas[a.meta.0 as int]
    &&& c.tags != model::empty_handle() ==> c.tags.list < b.tag_lists.len()
    &&& forall|t: u32| #[trigger]
        maintain::tag_ids(b, c.tags).contains(t) <==> maintain::tag_ids(s, a.tags).contains(t)
}

/// The auxiliary record of fact id `k`: kept when the fact lives.
pub open spec fn aux_kept(s: State, b: State, k: int) -> bool {
    match table::row_of(s.facts, k) {
        Some(f) => if f.tombstone() {
            table::row_of(b.aux, k) is None
        } else {
            match (table::row_of(s.aux, k), table::row_of(b.aux, k)) {
                (Some(a), Some(c)) => same_aux(s, a, b, c),
                _ => false,
            }
        },
        None => table::row_of(b.aux, k) is None,
    }
}

/// The auxiliary records of the first `n` fact ids are rebuilt.
pub open spec fn auxes_kept(s: State, b: State, n: int) -> bool {
    &&& 0 <= n <= u32::MAX
    &&& whole::aux_whole(b.aux, b.tag_lists, n as u32)
    &&& forall|k: int| 0 <= k < n ==> #[trigger] aux_kept(s, b, k)
}

/// Blobs put behind others leave those where they are.
pub open spec fn extends(a: Seq<Seq<u8>>, b: Seq<Seq<u8>>) -> bool {
    a.len() <= b.len() && forall|i: int| 0 <= i < a.len() ==> #[trigger] b[i] == a[i]
}

/// The tags of a fact inverted anew are the same tags.
pub proof fn lemma_tags_carried(b: State, tags: Seq<u32>, fact: FactId)
    requires
        maintain::tags_carried(b, tags, fact) is Ok,
    ensures
        ({
            let (c, list) = maintain::tags_carried(b, tags, fact)->Ok_0;
            &&& c == (State { tags_idx: c.tags_idx, ..b })
            &&& list.len() <= tags.len()
            &&& forall|t: u32| #[trigger] list.contains(t) <==> tags.contains(t)
        }),
    decreases tags.len(),
{
    if tags.len() > 0 {
        lemma_tags_carried(b, tags.drop_last(), fact);
        let (c, front) = maintain::tags_carried(b, tags.drop_last(), fact)->Ok_0;
        let list = maintain::tags_carried(b, tags, fact)->Ok_0.1;
        let last = tags.last();
        assert(tags.drop_last().push(last) =~= tags);
        assert forall|t: u32| #[trigger] list.contains(t) <==> tags.contains(t) by {
            assert(front.contains(t) <==> tags.drop_last().contains(t));
            lemma_push_contains(tags.drop_last(), last, t);
            lemma_push_contains(front, last, t);
        }
    }
}

proof fn lemma_push_contains(xs: Seq<u32>, x: u32, t: u32)
    ensures
        xs.push(x).contains(t) <==> xs.contains(t) || x == t,
{
    let ys = xs.push(x);
    if xs.contains(t) {
        let i = choose|i: int| 0 <= i < xs.len() && xs[i] == t;
        assert(ys[i] == t);
    }
    assert(ys[xs.len() as int] == x);
}

/// A stored tag list reads back as the terms it was made of.
pub proof fn lemma_tags_stored(b: State, list: Seq<u32>)
    requires
        4 * list.len() <= u32::MAX,
        state::tags_stored(b, list).1 is Ok,
    ensures
        ({
            let (c, h) = state::tags_stored(b, list);
            &&& maintain::tag_ids(c, h->Ok_0) =~= list
            &&& extends(b.tag_lists, c.tag_lists)
            &&& c == (State { tag_lists: c.tag_lists, ..b })
            &&& if list.len() == 0 {
                h->Ok_0 == model::empty_handle() && c == b
            } else {
                &&& h->Ok_0 != model::empty_handle()
                &&& h->Ok_0.list == b.tag_lists.len()
                &&& c.tag_lists == b.tag_lists.push(state::tag_bytes(list))
            }
        }),
{
    let (c, h) = state::tags_stored(b, list);
    if list.len() > 0 {
        assert forall|k: int| 0 <= k < list.len() implies #[trigger] maintain::tag_ids(
            c,
            h->Ok_0,
        )[k] == list[k] by {
            memory::lemma_tag_at(list, k);
        }
    }
}

/// The terms of a stored list depend on that list alone.
pub proof fn lemma_same_ids(b: State, d: State, h: ListHandle)
    requires
        extends(b.tag_lists, d.tag_lists),
        h != model::empty_handle() ==> h.list < b.tag_lists.len(),
    ensures
        maintain::tag_ids(b, h) == maintain::tag_ids(d, h),
{
    assert(maintain::tag_ids(b, h) =~= maintain::tag_ids(d, h));
}

/// The auxiliary record of a fact is carried over behind the others.
pub proof fn lemma_aux_carried(s: State, b: State, a: FactAux)
    requires
        state::aux_ok(s, a),
        a.id.0 < NONE_U32,
        whole::aux_whole(b.aux, b.tag_lists, a.id.0),
        maintain::aux_carried(s, b, a) is Ok,
    ensures
        ({
            let d = maintain::aux_carried(s, b, a)->Ok_0;
            &&& d == (State {
                tags_idx: d.tags_idx,
                tag_lists: d.tag_lists,
                metas: d.metas,
                aux: d.aux,
                ..b
            })
            &&& extends(b.tag_lists, d.tag_lists)
            &&& extends(b.metas, d.metas)
            &&& whole::aux_whole(d.aux, d.tag_lists, (a.id.0 + 1) as u32)
            &&& match table::row_of(d.aux, a.id.0 as int) {
                Some(c) => same_aux(s, a, d, c),
                None => false,
            }
            &&& forall|k: int|
                k != a.id.0 ==> #[trigger] table::row_of(d.aux, k) == table::row_of(b.aux, k)
        }),
{
    let ids = maintain::tag_ids(s, a.tags);
    lemma_tags_carried(b, ids, a.id);
    let (c, list) = maintain::tags_carried(b, ids, a.id)->Ok_0;
    lemma_tags_stored(c, list);
    let (d, tags) = state::tags_stored(c, list);
    let f = maintain::aux_carried(s, b, a)->Ok_0;
    let meta = if a.meta.0 == NONE_U32 {
        a.meta
    } else {
        heap::pushed(d.metas, state::cap(s), state::blob_cap(s), s.metas[a.meta.0 as int])->Ok_0.1
    };
    let row = FactAux { id: a.id, tags: tags->Ok_0, meta };
    whole::lemma_aux_added(b.aux, b.tag_lists, a.id.0, row, state::tag_bytes(list));
    table::lemma_with_row(b.aux, row);
    assert(f.aux == table::with_row(b.aux, row));
    lemma_same_ids(d, f, row.tags);
    assert(same_aux(s, a, f, row)) by {
        assert forall|t: u32| #[trigger]
            maintain::tag_ids(f, row.tags).contains(t) <==> ids.contains(t) by {
            assert(maintain::tag_ids(d, row.tags) == list);
            assert(list.contains(t) <==> ids.contains(t));
        }
    }
}

/// What was rebuilt stays rebuilt while blobs and records are added.
proof fn lemma_aux_stays(s: State, b: State, d: State, k: int)
    requires
        aux_kept(s, b, k),
        table::row_of(d.aux, k) == table::row_of(b.aux, k),
        extends(b.tag_lists, d.tag_lists),
        extends(b.metas, d.metas),
    ensures
        aux_kept(s, d, k),
{
    if let (Some(a), Some(c)) = (table::row_of(s.aux, k), table::row_of(b.aux, k)) {
        if same_aux(s, a, b, c) {
            lemma_same_ids(b, d, c.tags);
            assert(same_aux(s, a, d, c)) by {
                assert forall|t: u32| #[trigger]
                    maintain::tag_ids(d, c.tags).contains(t) <==> maintain::tag_ids(
                        s,
                        a.tags,
                    ).contains(t) by {
                    assert(maintain::tag_ids(b, c.tags).contains(t) <==> maintain::tag_ids(
                        s,
                        a.tags,
                    ).contains(t));
                }
            }
        }
    }
}

proof fn lemma_fact_stays(s: State, b: State, d: State, k: int)
    requires
        fact_kept(s, b, k),
        table::row_of(d.facts, k) == table::row_of(b.facts, k),
        extends(b.texts, d.texts),
    ensures
        fact_kept(s, d, k),
{
}

/// One living fact carried over: what changes, and what becomes of it.
pub proof fn lemma_live_carried(s: State, b: State, map: Seq<u32>, rec: FactRecord, reindex: bool)
    requires
        state::refs(s),
        table::ascending(s.facts),
        table::ascending(s.aux),
        table::row_of(s.facts, rec.id.0 as int) == Some(rec),
        rec.id.0 < s.next_fact,
        whole::facts_whole(s) ==> whole::fact_sane(s.next_fact, s.next_entity, rec),
        !rec.tombstone(),
        facts_kept(s, b, rec.id.0 as int),
        whole::aux_whole(b.aux, b.tag_lists, rec.id.0),
        whole::moments_whole(b.temporal, rec.id.0),
        reindex ==> whole::docs_whole(b.bm25.docs, b.bm25.total_docs, rec.id.0),
        tagging::tagged(b),
        maintain::live_carried(s, b, map, rec, reindex) is Ok,
    ensures
        ({
            let d = maintain::live_carried(s, b, map, rec, reindex)->Ok_0.0;
            &&& d == (State {
                facts: d.facts,
                aux: d.aux,
                temporal: d.temporal,
                texts: d.texts,
                metas: d.metas,
                tag_lists: d.tag_lists,
                bm25: d.bm25,
                tags_idx: d.tags_idx,
                entity_facts: d.entity_facts,
                vecs: d.vecs,
                ..b
            })
            &&& extends(b.texts, d.texts)
            &&& extends(b.tag_lists, d.tag_lists)
            &&& extends(b.metas, d.metas)
            &&& whole::aux_whole(d.aux, d.tag_lists, (rec.id.0 + 1) as u32)
            &&& aux_kept(s, d, rec.id.0 as int)
            &&& forall|k: int|
                k != rec.id.0 ==> #[trigger] table::row_of(d.aux, k) == table::row_of(b.aux, k)
            &&& whole::moments_whole(d.temporal, (rec.id.0 + 1) as u32)
            &&& d.temporal == history::timed_after(b.temporal, rec)
            &&& tagging::tagged(d)
            &&& if reindex {
                whole::docs_whole(d.bm25.docs, d.bm25.total_docs, (rec.id.0 + 1) as u32)
            } else {
                d.bm25 == b.bm25
            }
            &&& d.facts == b.facts.push(d.facts.last())
            &&& same_fact(s, rec, d, d.facts.last())
        }),
{
    let d = maintain::live_carried(s, b, map, rec, reindex)->Ok_0.0;
    let (b1, text) = state::text_stored(b, s.texts[rec.text.0 as int]);
    let b2 = if reindex {
        maintain::doc_reindexed(s, b1, rec)->Ok_0
    } else {
        b1
    };
    if reindex {
        let words = maintain::words_found(
            s,
            state::tokens(vstd::utf8::decode_utf8(s.texts[rec.text.0 as int])),
        );
        whole::lemma_doc_added(b1, rec.id, words, rec.id.0);
    }
    let a = table::row_of(s.aux, rec.id.0 as int)->0;
    links::lemma_row(s.aux, rec.id.0 as int);
    table::lemma_rank(s.aux, rec.id.0 as int);
    assert(state::aux_ok(s, s.aux[table::rank(s.aux, rec.id.0 as int)]));
    lemma_aux_carried(s, b2, a);
    tagging::lemma_tagged_same(b, b2);
    tagging::lemma_aux_tagged(s, b2, a);
    let b3 = maintain::aux_carried(s, b2, a)->Ok_0;
    lemma_listed(b3, rec);
    let b4 = maintain::listed(b3, rec)->Ok_0;
    let (b5, _, vector) = maintain::vector_carried(s, b4, map, rec)->Ok_0;
    let row = FactRecord { text: text->Ok_0, vector, ..rec };
    table::lemma_append(b.facts, row);
    lemma_aux_row(s, b3, d, rec.id.0 as int);
    tagging::lemma_tagged_same(b3, d);
}

/// The auxiliary record reads the same once the rest of the fact is in place.
proof fn lemma_aux_row(s: State, b: State, d: State, k: int)
    requires
        d.aux == b.aux,
        d.tag_lists == b.tag_lists,
        d.metas == b.metas,
        table::row_of(s.facts, k) matches Some(f) && !f.tombstone(),
        match (table::row_of(s.aux, k), table::row_of(b.aux, k)) {
            (Some(a), Some(c)) => same_aux(s, a, b, c),
            _ => false,
        },
    ensures
        aux_kept(s, d, k),
{
    lemma_aux_stays(s, b, d, k);
}

/// The listings of a fact.
proof fn lemma_listed(b: State, rec: FactRecord)
    requires
        rec.id.0 < NONE_U32,
        whole::moments_whole(b.temporal, rec.id.0),
        maintain::listed(b, rec) is Ok,
    ensures
        ({
            let d = maintain::listed(b, rec)->Ok_0;
            &&& d == (State { entity_facts: d.entity_facts, temporal: d.temporal, ..b })
            &&& d.temporal == history::timed_after(b.temporal, rec)
            &&& whole::moments_whole(d.temporal, (rec.id.0 + 1) as u32)
        }),
{
    let d = maintain::listed(b, rec)->Ok_0;
    let m = TemporalSlot { recorded_at: rec.recorded_at, fact: rec.id };
    whole::lemma_rank_bound(b.temporal, m.key());
    let at = table::rank(b.temporal, m.key());
    assert forall|i: int| 0 <= i < d.temporal.len() implies (#[trigger] d.temporal[i]).fact.0
        < rec.id.0 + 1 by {
        if d.temporal == b.temporal || i < at {
            assert(b.temporal[i].fact.0 < rec.id.0);
        } else if i > at {
            assert(b.temporal[i - 1].fact.0 < rec.id.0);
        }
    }
}

/// What a rebuild holds once the first `n` fact ids are carried over.
pub open spec fn carried(s: State, b: State, d: State, n: int, reindex: bool) -> bool {
    &&& 0 <= n <= u32::MAX
    &&& d == (State {
        facts: d.facts,
        aux: d.aux,
        temporal: d.temporal,
        texts: d.texts,
        metas: d.metas,
        tag_lists: d.tag_lists,
        bm25: d.bm25,
        tags_idx: d.tags_idx,
        entity_facts: d.entity_facts,
        vecs: d.vecs,
        ..b
    })
    &&& extends(b.texts, d.texts)
    &&& tagging::tagged(d)
    &&& facts_kept(s, d, n)
    &&& auxes_kept(s, d, n)
    &&& whole::moments_whole(d.temporal, n as u32)
    &&& if reindex {
        whole::docs_whole(d.bm25.docs, d.bm25.total_docs, n as u32)
    } else {
        d.bm25 == b.bm25
    }
}

/// An id that is burned or forgotten leaves nothing behind.
proof fn lemma_passed_over(s: State, b: State, d: State, n: int, reindex: bool)
    requires
        carried(s, b, d, n, reindex),
        n < u32::MAX,
        table::row_of(s.facts, n) is None || table::row_of(s.facts, n)->0.tombstone(),
    ensures
        carried(s, b, d, n + 1, reindex),
{
    assert(table::row_of(d.facts, n) is None) by {
        links::lemma_row(d.facts, n);
        table::lemma_rank(d.facts, n);
        if table::has_key(d.facts, n) {
            assert(row_kept(s, n, d.facts[table::rank(d.facts, n)]));
        }
    }
    assert(table::row_of(d.aux, n) is None) by {
        links::lemma_row(d.aux, n);
        table::lemma_rank(d.aux, n);
        if table::has_key(d.aux, n) {
            assert(d.aux[table::rank(d.aux, n)].id.0 < n);
        }
    }
    assert(fact_kept(s, d, n));
    assert(aux_kept(s, d, n));
    assert forall|i: int| 0 <= i < d.facts.len() implies row_kept(s, n + 1, #[trigger] d.facts[i]) by {
        assert(row_kept(s, n, d.facts[i]));
    }
    assert forall|k: int| 0 <= k < n + 1 implies #[trigger] fact_kept(s, d, k) by {
        if k < n {
            assert(fact_kept(s, d, k));
        }
    }
    assert forall|k: int| 0 <= k < n + 1 implies #[trigger] aux_kept(s, d, k) by {
        if k < n {
            assert(aux_kept(s, d, k));
        }
    }
    assert(whole::aux_whole(d.aux, d.tag_lists, (n + 1) as u32)) by {
        assert forall|i: int| 0 <= i < d.aux.len() implies (#[trigger] d.aux[i]).id.0 < n + 1 by {
            assert(d.aux[i].id.0 < n as u32);
        }
    }
}

/// A living fact is carried over behind the others.
proof fn lemma_one_carried(s: State, b: State, c: Carry, n: int, reindex: bool)
    requires
        state::refs(s),
        replay::numbered(s),
        table::ascending(s.aux),
        carried(s, b, c.state, n, reindex),
        n < s.next_fact,
        maintain::fact_carried(s, c, n, reindex) is Ok,
    ensures
        carried(s, b, maintain::fact_carried(s, c, n, reindex)->Ok_0.state, n + 1, reindex),
{
    let e = c.state;
    links::lemma_row(s.facts, n);
    table::lemma_rank(s.facts, n);
    match table::row_of(s.facts, n) {
        None => {
            lemma_passed_over(s, b, e, n, reindex);
        },
        Some(rec) => {
            if rec.tombstone() {
                lemma_passed_over(s, b, e, n, reindex);
            } else {
                assert(s.facts[table::rank(s.facts, n)] == rec);
                lemma_live_carried(s, e, c.map, rec, reindex);
                let d = maintain::live_carried(s, e, c.map, rec, reindex)->Ok_0.0;
                lemma_rows_kept(s, e, d, rec);
                assert forall|k: int| 0 <= k < n + 1 implies #[trigger] aux_kept(s, d, k) by {
                    if k < n {
                        assert(aux_kept(s, e, k));
                        lemma_aux_stays(s, e, d, k);
                    }
                }
                assert(extends(b.texts, d.texts)) by {
                    assert forall|i: int| 0 <= i < b.texts.len() implies #[trigger] d.texts[i]
                        == b.texts[i] by {
                        assert(e.texts[i] == b.texts[i]);
                    }
                }
            }
        },
    }
}

/// The fact table with one more record.
proof fn lemma_rows_kept(s: State, e: State, d: State, rec: FactRecord)
    requires
        facts_kept(s, e, rec.id.0 as int),
        table::row_of(s.facts, rec.id.0 as int) == Some(rec),
        !rec.tombstone(),
        whole::facts_whole(s) ==> whole::fact_sane(s.next_fact, s.next_entity, rec),
        d.facts == e.facts.push(d.facts.last()),
        same_fact(s, rec, d, d.facts.last()),
        extends(e.texts, d.texts),
    ensures
        facts_kept(s, d, rec.id.0 + 1),
{
    let n = rec.id.0 as int;
    let g = d.facts.last();
    table::lemma_append(e.facts, g);
    table::lemma_with_row(e.facts, g);
    assert forall|i: int| 0 <= i < d.facts.len() implies row_kept(s, n + 1, #[trigger] d.facts[i]) by {
        if i < e.facts.len() {
            assert(row_kept(s, n, e.facts[i]));
        }
    }
    assert forall|k: int| 0 <= k < n + 1 implies #[trigger] fact_kept(s, d, k) by {
        if k < n {
            assert(fact_kept(s, e, k));
            lemma_fact_stays(s, e, d, k);
        }
    }
}

/// The facts of a state carried over in the order of their ids.
pub proof fn lemma_facts_carried(s: State, c: Carry, n: nat, reindex: bool)
    requires
        state::refs(s),
        replay::numbered(s),
        table::ascending(s.aux),
        n <= s.next_fact,
        carried(s, c.state, c.state, 0, reindex),
        maintain::facts_carried(s, c, n, reindex) is Ok,
    ensures
        carried(
            s,
            c.state,
            maintain::facts_carried(s, c, n, reindex)->Ok_0.state,
            n as int,
            reindex,
        ),
    decreases n,
{
    if n > 0 {
        lemma_facts_carried(s, c, (n - 1) as nat, reindex);
        let d = maintain::facts_carried(s, c, (n - 1) as nat, reindex)->Ok_0;
        lemma_one_carried(s, c.state, d, n - 1, reindex);
    }
}

/// The name of entity `k` is stored anew and reads the same.
pub open spec fn entity_kept(s: State, b: State, k: int) -> bool {
    match (table::row_of(s.entities, k), table::row_of(b.entities, k)) {
        (Some(e), Some(f)) => f == (EntityRecord { name: f.name, ..e }) && f.name.0 < b.texts.len()
            && b.texts[f.name.0 as int] == s.texts[e.name.0 as int],
        _ => false,
    }
}

/// The first `n` entities are carried over.
pub open spec fn entities_kept(s: State, b: State, c: State, n: int) -> bool {
    &&& c == (State { entities: c.entities, texts: c.texts, ..b })
    &&& table::ascending(c.entities)
    &&& c.entities.len() == n
    &&& forall|i: int| 0 <= i < c.entities.len() ==> (#[trigger] c.entities[i]).id.0 < n
    &&& forall|k: int| 0 <= k < n ==> #[trigger] entity_kept(s, c, k)
}

pub proof fn lemma_entities_carried(s: State, b: State, n: nat)
    requires
        table::ascending(s.entities),
        b.entities.len() == 0,
        n <= s.next_entity,
        maintain::entities_carried(s, b, n) is Ok,
    ensures
        entities_kept(s, b, maintain::entities_carried(s, b, n)->Ok_0, n as int),
    decreases n,
{
    if n > 0 {
        lemma_entities_carried(s, b, (n - 1) as nat);
        let c = maintain::entities_carried(s, b, (n - 1) as nat)->Ok_0;
        let d = maintain::entities_carried(s, b, n)->Ok_0;
        links::lemma_row(s.entities, n - 1);
        let rec = table::row_of(s.entities, n - 1)->0;
        let name = state::text_stored(c, s.texts[rec.name.0 as int]).1->Ok_0;
        let row = EntityRecord { name, ..rec };
        table::lemma_append(c.entities, row);
        table::lemma_with_row(c.entities, row);
        assert(d.entities == c.entities.push(row));
        assert forall|k: int| 0 <= k < n implies #[trigger] entity_kept(s, d, k) by {
            if k < n - 1 {
                assert(entity_kept(s, c, k));
            }
        }
    }
}

/// The documents of living facts, in order.
proof fn lemma_kept_docs(facts: Seq<FactRecord>, docs: Seq<DocLenSlot>, n: u32)
    requires
        table::ascending(docs),
        forall|i: int| 0 <= i < docs.len() ==> (#[trigger] docs[i]).fact.0 < n,
    ensures
        ({
            let out = bm25::kept_docs(facts, docs);
            &&& table::ascending(out)
            &&& forall|i: int|
                0 <= i < out.len() ==> (#[trigger] out[i]).fact.0 < n && (docs.len() > 0
                    && out[i].key() <= docs.last().key())
        }),
    decreases docs.len(),
{
    if docs.len() > 0 {
        let init = docs.drop_last();
        assert(table::ascending(init)) by {
            assert forall|i: int, j: int| 0 <= i < j < init.len() implies (#[trigger] init[i]).key()
                < (#[trigger] init[j]).key() by {
                assert(docs[i].key() < docs[j].key());
            }
        }
        assert forall|i: int| 0 <= i < init.len() implies (#[trigger] init[i]).fact.0 < n by {
            assert(docs[i].fact.0 < n);
        }
        lemma_kept_docs(facts, init, n);
        let front = bm25::kept_docs(facts, init);
        let out = bm25::kept_docs(facts, docs);
        assert(docs.last().fact.0 < n);
        if init.len() > 0 {
            assert(init.last() == docs[docs.len() - 2]);
            assert(init.last().key() < docs.last().key());
        }
        assert forall|i: int| 0 <= i < front.len() implies (#[trigger] front[i]).key()
            < docs.last().key() by {}
        if bm25::living(facts, docs.last().fact.0) {
            let last = DocLenSlot { distinct: 0, sig: 0, ..docs.last() };
            table::lemma_append(front, last);
        }
    }
}

/// Counting terms into documents changes neither their number nor whose they
/// are.
proof fn lemma_summed(docs: Seq<DocLenSlot>, items: Seq<Keyed>, n: u32)
    requires
        table::ascending(docs),
        forall|i: int| 0 <= i < docs.len() ==> (#[trigger] docs[i]).fact.0 < n,
    ensures
        ({
            let out = bm25::summed(docs, items);
            &&& table::ascending(out)
            &&& out.len() == docs.len()
            &&& forall|i: int| 0 <= i < out.len() ==> (#[trigger] out[i]).fact.0 < n
        }),
    decreases items.len(),
{
    if items.len() > 0 {
        lemma_summed(docs, items.drop_last(), n);
        let front = bm25::summed(docs, items.drop_last());
        let k = items.last().1.0 as int;
        if let Some(d) = table::row_of(front, k) {
            links::lemma_row(front, k);
            table::lemma_rank(front, k);
            let e = bm25::with_term(d, items.last().0);
            table::lemma_replaced(front, e);
            let out = bm25::summed(docs, items);
            assert(out == front.update(table::rank(front, k), e));
            assert forall|i: int| 0 <= i < out.len() implies (#[trigger] out[i]).fact.0 < n by {
                assert(front[i].fact.0 < n);
            }
        }
    }
}

/// A compacted index counts its documents.
proof fn lemma_compacted(b: Bm25State, facts: Seq<FactRecord>, max_bytes: int, n: u32)
    requires
        whole::docs_whole(b.docs, b.total_docs, n),
        max_bytes <= u64::MAX,
        bm25::compacted(b, facts, max_bytes) is Ok,
    ensures
        ({
            let c = bm25::compacted(b, facts, max_bytes)->Ok_0;
            whole::docs_whole(c.docs, c.total_docs, n)
        }),
{
    lemma_kept_docs(facts, b.docs, n);
    let docs = bm25::kept_docs(facts, b.docs);
    lemma_summed(docs, bm25::kept_items(facts, b.postings), n);
}

/// An index rebuilt from the texts counts its documents.
proof fn lemma_reindexed(s: State, n: nat)
    requires
        replay::numbered(s),
        n <= s.next_fact,
        maintain::reindexed(s, n) is Ok,
    ensures
        ({
            let b = maintain::reindexed(s, n)->Ok_0;
            whole::docs_whole(b.bm25.docs, b.bm25.total_docs, n as u32)
        }),
    decreases n,
{
    if n > 0 {
        lemma_reindexed(s, (n - 1) as nat);
        let b = maintain::reindexed(s, (n - 1) as nat)->Ok_0;
        let k = (n - 1) as u32;
        links::lemma_row(s.facts, n - 1);
        assert(whole::docs_whole(b.bm25.docs, b.bm25.total_docs, n as u32)) by {
            assert forall|i: int| 0 <= i < b.bm25.docs.len() implies (#[trigger] b.bm25.docs[i]).fact.0
                < n by {
                assert(b.bm25.docs[i].fact.0 < k);
            }
        }
        if let Some(rec) = table::row_of(s.facts, n - 1) {
            if !rec.tombstone() {
                let words = maintain::words_found(
                    s,
                    state::tokens(vstd::utf8::decode_utf8(s.texts[rec.text.0 as int])),
                );
                whole::lemma_doc_added(b, rec.id, words, k);
            }
        }
    }
}

/// The rebuilt structures of a state.
proof fn lemma_rebuilt(s: State, reindex: bool)
    requires
        replay::numbered(s),
        table::ascending(s.aux),
        table::ascending(s.entities),
        state::refs(s),
        maintain::rebuilt(s, reindex) is Ok,
    ensures
        ({
            let d = maintain::rebuilt(s, reindex)->Ok_0.state;
            &&& facts_kept(s, d, s.next_fact as int)
            &&& auxes_kept(s, d, s.next_fact as int)
            &&& whole::moments_whole(d.temporal, s.next_fact)
            &&& tagging::tagged(d)
            &&& reindex || whole::docs_whole(s.bm25.docs, s.bm25.total_docs, s.next_fact)
                ==> whole::docs_whole(d.bm25.docs, d.bm25.total_docs, s.next_fact)
            &&& table::ascending(d.entities)
            &&& d.entities.len() == s.next_entity
            &&& forall|k: int| 0 <= k < s.next_entity ==> #[trigger] entity_kept(s, d, k)
        }),
{
    let index = maintain::base_index(s, reindex)->Ok_0;
    let a = State { bm25: index, ..maintain::cleared(s) };
    let b = maintain::entities_carried(s, a, s.next_entity as nat)->Ok_0;
    lemma_entities_carried(s, a, s.next_entity as nat);
    let c = Carry { state: b, map: maintain::no_slots(s), purged: 0 };
    tagging::lemma_untagged(b);
    lemma_facts_carried(s, c, s.next_fact as nat, reindex);
    let d = maintain::rebuilt(s, reindex)->Ok_0.state;
    if !reindex && whole::docs_whole(s.bm25.docs, s.bm25.total_docs, s.next_fact) {
        lemma_compacted(s.bm25, s.facts, state::cap(s), s.next_fact);
    }
    assert forall|k: int| 0 <= k < s.next_entity implies #[trigger] entity_kept(s, d, k) by {
        assert(entity_kept(s, b, k));
    }
}

/// No tombstones are among living records.
proof fn lemma_no_tombstones(rows: Seq<FactRecord>, n: nat)
    requires
        n <= rows.len(),
        forall|i: int| 0 <= i < n ==> !(#[trigger] rows[i]).tombstone(),
    ensures
        load::tombstone_count(rows, n) == 0,
    decreases n,
{
    if n > 0 {
        lemma_no_tombstones(rows, (n - 1) as nat);
    }
}

/// Distinct ids below a bound are no more than the bound.
proof fn lemma_row_count(rows: Seq<FactRecord>, n: int)
    requires
        table::ascending(rows),
        0 <= n,
        forall|i: int| 0 <= i < rows.len() ==> (#[trigger] rows[i]).id.0 < n,
    ensures
        rows.len() <= n,
    decreases rows.len(),
{
    if rows.len() > 0 {
        let init = rows.drop_last();
        let last = rows.last().id.0 as int;
        assert(rows[rows.len() - 1].id.0 < n);
        assert forall|i: int| 0 <= i < init.len() implies (#[trigger] init[i]).id.0 < last by {
            assert(rows[i].key() < rows[rows.len() - 1].key());
        }
        assert(table::ascending(init)) by {
            assert forall|i: int, j: int| 0 <= i < j < init.len() implies (#[trigger] init[i]).key()
                < (#[trigger] init[j]).key() by {
                assert(rows[i].key() < rows[j].key());
            }
        }
        lemma_row_count(init, last);
    }
}

/// A compaction leaves a whole state whole.
proof fn lemma_compaction_whole(s: State, plan: WorkPlan)
    requires
        whole::whole(s),
        state::refs(s),
        plan.compact,
        maintain::pass(s, plan) is Ok,
    ensures
        whole::whole(maintain::pass(s, plan)->Ok_0),
{
    lemma_rebuilt(s, plan.bm25_reindex);
    let d = maintain::rebuilt(s, plan.bm25_reindex)->Ok_0.state;
    let t = maintain::pass(s, plan)->Ok_0;
    assert forall|k: int| table::has_key(s.entities, k) implies #[trigger] table::has_key(
        t.entities,
        k,
    ) by {
        links::lemma_row(s.entities, k);
        table::lemma_rank(s.entities, k);
        let e = s.entities[table::rank(s.entities, k)];
        assert(state::entity_ok(s, e));
        assert(entity_kept(s, d, k));
    }
    links::lemma_links_grow(s, t, s.next_fact, s.next_fact);
    tagging::lemma_tagged_same(d, t);
    assert(whole::names_whole(t)) by {
        assert forall|i: int| 0 <= i < t.by_name.len() implies whole::name_sane(
            t,
            #[trigger] t.by_name[i],
        ) by {
            assert(whole::name_sane(s, s.by_name[i]));
        }
    }
    assert(whole::facts_whole(t)) by {
        assert forall|i: int| 0 <= i < t.facts.len() implies whole::fact_sane(
            t.next_fact,
            t.next_entity,
            #[trigger] t.facts[i],
        ) && !t.facts[i].tombstone() by {
            assert(row_kept(s, s.next_fact as int, d.facts[i]));
        }
        lemma_no_tombstones(t.facts, t.facts.len());
        lemma_row_count(t.facts, s.next_fact as int);
    }
}

/// A maintenance pass leaves a whole state whole.
pub proof fn maintenance_keeps_whole(s: State, plan: WorkPlan)
    requires
        whole::whole(s),
        state::inv(s),
        maintain::pass(s, plan) is Ok,
    ensures
        whole::whole(maintain::pass(s, plan)->Ok_0),
{
    let t = maintain::pass(s, plan)->Ok_0;
    if plan.compact {
        lemma_compaction_whole(s, plan);
    } else if plan.needed() {
        links::lemma_links_grow(s, t, s.next_fact, s.next_fact);
        whole::lemma_names_same(s, t);
        whole::lemma_facts_grow(s, t);
        tagging::lemma_tagged_same(s, t);
        if plan.bm25_reindex {
            lemma_reindexed(s, s.next_fact as nat);
        }
    }
}

/// Maintenance is not seen by readers: every fact that could be read reads the
/// same behind a pass, but for where its text and vector are stored, and no
/// other can be read.
pub proof fn maintenance_keeps_facts(s: State, plan: WorkPlan, fact: FactId)
    requires
        ordered(s),
        state::inv(s),
        maintain::pass(s, plan) is Ok,
    ensures
        match (
            state::read_fact(s, fact),
            state::read_fact(maintain::pass(s, plan)->Ok_0, fact),
        ) {
            (None, None) => true,
            (Some((f, text)), Some((g, same))) => text == same && g == (FactRecord {
                text: g.text,
                vector: g.vector,
                ..f
            }),
            _ => false,
        },
{
    if plan.compact {
        lemma_rebuilt(s, plan.bm25_reindex);
        let d = maintain::rebuilt(s, plan.bm25_reindex)->Ok_0.state;
        lemma_beyond(s, d, fact.0 as int);
        if fact.0 < s.next_fact {
            assert(fact_kept(s, d, fact.0 as int));
        }
    }
}

/// Ids that were never given out are on no record.
proof fn lemma_beyond(s: State, d: State, k: int)
    requires
        replay::numbered(s),
        facts_kept(s, d, s.next_fact as int),
    ensures
        k >= s.next_fact ==> table::row_of(s.facts, k) is None && table::row_of(d.facts, k) is None,
{
    table::lemma_rank(s.facts, k);
    table::lemma_rank(d.facts, k);
    if k >= s.next_fact {
        if table::has_key(s.facts, k) {
            assert(s.facts[table::rank(s.facts, k)].id.0 < s.next_fact);
        }
        if table::has_key(d.facts, k) {
            assert(row_kept(s, s.next_fact as int, d.facts[table::rank(d.facts, k)]));
        }
    }
}

/// Every fact has the same tags behind a pass.
pub proof fn maintenance_keeps_tags(s: State, plan: WorkPlan, fact: FactId, tag: TermId)
    requires
        ordered(s),
        state::inv(s),
        maintain::pass(s, plan) is Ok,
    ensures
        state::fact_tags(maintain::pass(s, plan)->Ok_0, fact).contains(tag) == state::fact_tags(
            s,
            fact,
        ).contains(tag),
{
    let t = maintain::pass(s, plan)->Ok_0;
    let k = fact.0 as int;
    if plan.compact {
        lemma_rebuilt(s, plan.bm25_reindex);
        let d = maintain::rebuilt(s, plan.bm25_reindex)->Ok_0.state;
        lemma_beyond(s, d, k);
        if fact.0 < s.next_fact {
            assert(fact_kept(s, d, k));
            assert(aux_kept(s, d, k));
            if let Some(f) = table::row_of(s.facts, k) {
                if !f.tombstone() {
                    let a = table::row_of(s.aux, k)->0;
                    let c = table::row_of(d.aux, k)->0;
                    lemma_tags_read(s, fact, tag);
                    lemma_tags_read(t, fact, tag);
                    assert(maintain::tag_ids(t, c.tags) == maintain::tag_ids(d, c.tags));
                    assert(maintain::tag_ids(d, c.tags).contains(tag.0) <==> maintain::tag_ids(
                        s,
                        a.tags,
                    ).contains(tag.0));
                }
            }
        }
    }
}

/// The tags of a living fact are the terms of its list.
pub proof fn lemma_tags_read(s: State, fact: FactId, tag: TermId)
    requires
        table::row_of(s.facts, fact.0 as int) matches Some(f) && !f.tombstone(),
        table::row_of(s.aux, fact.0 as int) is Some,
    ensures
        state::fact_tags(s, fact).contains(tag) == maintain::tag_ids(
            s,
            table::row_of(s.aux, fact.0 as int)->0.tags,
        ).contains(tag.0),
{
    let h = table::row_of(s.aux, fact.0 as int)->0.tags;
    let read = state::fact_tags(s, fact);
    let ids = maintain::tag_ids(s, h);
    if read.contains(tag) {
        let i = choose|i: int| 0 <= i < read.len() && read[i] == tag;
        assert(ids[i] == tag.0);
    }
    if ids.contains(tag.0) {
        let i = choose|i: int| 0 <= i < ids.len() && ids[i] == tag.0;
        assert(read[i] == tag);
    }
}

/// A compaction leaves no forgotten fact behind, and gives out no id anew.
pub proof fn compaction_purges(s: State, plan: WorkPlan, fact: FactId)
    requires
        ordered(s),
        state::inv(s),
        plan.compact,
        maintain::pass(s, plan) is Ok,
    ensures
        ({
            let t = maintain::pass(s, plan)->Ok_0;
            &&& t.tombstones == 0
            &&& state::fact_of(t, fact) matches Some(g) ==> !g.tombstone()
            &&& t.next_fact == s.next_fact
            &&& t.next_entity == s.next_entity
            &&& t.next_edge == s.next_edge
        }),
{
    lemma_rebuilt(s, plan.bm25_reindex);
    let d = maintain::rebuilt(s, plan.bm25_reindex)->Ok_0.state;
    table::lemma_rank(d.facts, fact.0 as int);
    if table::has_key(d.facts, fact.0 as int) {
        assert(row_kept(s, s.next_fact as int, d.facts[table::rank(d.facts, fact.0 as int)]));
    }
}

/// Names resolve as before, to entities whose stored names read the same.
pub proof fn maintenance_keeps_names(s: State, plan: WorkPlan, name: Seq<char>)
    requires
        whole::whole(s),
        state::inv(s),
        maintain::pass(s, plan) is Ok,
    ensures
        ({
            let t = maintain::pass(s, plan)->Ok_0;
            &&& state::entity_found(t, name) == state::entity_found(s, name)
            &&& state::entity_found(s, name) matches Some(e) ==> entity_kept(s, t, e.0 as int)
        }),
{
    let t = maintain::pass(s, plan)->Ok_0;
    if let Some(e) = state::entity_found(s, name) {
        lemma_found_known(s, name);
        links::lemma_row(s.entities, e.0 as int);
        table::lemma_rank(s.entities, e.0 as int);
        assert(state::entity_ok(s, s.entities[table::rank(s.entities, e.0 as int)]));
        if plan.compact {
            lemma_rebuilt(s, plan.bm25_reindex);
            let d = maintain::rebuilt(s, plan.bm25_reindex)->Ok_0.state;
            assert(entity_kept(s, d, e.0 as int));
        }
    }
}

/// A name that is found is that of a known entity.
proof fn lemma_found_known(s: State, name: Seq<char>)
    requires
        whole::names_whole(s),
        state::entity_found(s, name) is Some,
    ensures
        links::known(s, state::entity_found(s, name)->0),
{
    let norm = state::normalized(name);
    let t = crate::interner::lookup_of(s.terms, norm)->0;
    let key = 0x1_0000_0000 * (t.0 as int);
    table::lemma_rank(s.by_name, key);
    assert(whole::name_sane(s, s.by_name[table::rank(s.by_name, key)]));
}

/// The stored metadata of a fact; none of an unknown or forgotten one.
pub open spec fn stored_metadata(s: State, fact: FactId) -> Option<Seq<u8>> {
    match (state::fact_of(s, fact), table::row_of(s.aux, fact.0 as int)) {
        (Some(f), Some(a)) => if f.tombstone() || a.meta.0 == NONE_U32 {
            None
        } else {
            Some(s.metas[a.meta.0 as int])
        },
        _ => None,
    }
}

/// Every fact has the same metadata behind a pass.
pub proof fn maintenance_keeps_metadata(s: State, plan: WorkPlan, fact: FactId)
    requires
        ordered(s),
        state::inv(s),
        maintain::pass(s, plan) is Ok,
    ensures
        stored_metadata(maintain::pass(s, plan)->Ok_0, fact) == stored_metadata(s, fact),
{
    if plan.compact {
        lemma_rebuilt(s, plan.bm25_reindex);
        let d = maintain::rebuilt(s, plan.bm25_reindex)->Ok_0.state;
        lemma_beyond(s, d, fact.0 as int);
        if fact.0 < s.next_fact {
            assert(fact_kept(s, d, fact.0 as int));
            assert(aux_kept(s, d, fact.0 as int));
        }
    }
}

/// Applying a journaled operation leaves a whole state whole, for links whose
/// provenance is absent or on record.
pub proof fn replaying_keeps_whole(s: State, op: OpView)
    requires
        whole::whole(s),
        state::inv(s),
        op matches OpView::Link { provenance, .. } ==> links::source_sane(provenance, s.next_fact),
        replay::op_applied(s, op).1 is Ok,
    ensures
        whole::whole(replay::op_applied(s, op).0),
{
    reveal(replay::op_applied);
    match op {
        OpView::Remember {
            now,
            valid_from,
            entity,
            text,
            tags,
            links,
            metadata,
            revises,
            assigned,
            ..
        } => {
            let input = state::input_of(now, valid_from, entity, text, tags, links, metadata);
            if assigned.0 == s.next_fact {
                if revises.0 == NONE_U32 {
                    whole::remembering_keeps_whole(s, input, revises);
                } else {
                    whole::revising_keeps_whole(s, revises, input);
                }
            }
        },
        OpView::Forget { fact, .. } => {
            whole::forgetting_keeps_whole(s, fact);
        },
        OpView::Link { now, src, rel, dst, provenance } => {
            whole::linking_keeps_whole(s, now, src, rel, dst, provenance);
        },
        OpView::Maintain { mode, max_hnsw_inserts, .. } => {
            let o = maintain::options_of(mode, max_hnsw_inserts)->Ok_0;
            maintenance_keeps_whole(s, maintain::plan_of(s, o));
        },
        _ => {},
    }
}

/// Without forgotten facts there is nothing to purge.
proof fn lemma_none_purged(s: State, c: Carry, n: nat, reindex: bool)
    requires
        table::ascending(s.facts),
        forall|i: int| 0 <= i < s.facts.len() ==> !(#[trigger] s.facts[i]).tombstone(),
        maintain::facts_carried(s, c, n, reindex) is Ok,
    ensures
        maintain::facts_carried(s, c, n, reindex)->Ok_0.purged == c.purged,
    decreases n,
{
    if n > 0 {
        lemma_none_purged(s, c, (n - 1) as nat, reindex);
        table::lemma_rank(s.facts, n - 1);
    }
}

/// A compaction behind a compaction purges nothing.
pub proof fn a_second_pass_purges_nothing(s: State, first: WorkPlan, second: WorkPlan)
    requires
        ordered(s),
        state::inv(s),
        first.compact,
        maintain::pass(s, first) is Ok,
        maintain::pass(maintain::pass(s, first)->Ok_0, second) is Ok,
    ensures
        maintain::purged_by(maintain::pass(s, first)->Ok_0, second) == 0,
{
    let t = maintain::pass(s, first)->Ok_0;
    if second.compact {
        lemma_rebuilt(s, first.bm25_reindex);
        let d = maintain::rebuilt(s, first.bm25_reindex)->Ok_0.state;
        assert forall|i: int| 0 <= i < t.facts.len() implies !(
        #[trigger] t.facts[i]).tombstone() by {
            assert(row_kept(s, s.next_fact as int, d.facts[i]));
        }
        let index = maintain::base_index(t, second.bm25_reindex)->Ok_0;
        let a = State { bm25: index, ..maintain::cleared(t) };
        let b = maintain::entities_carried(t, a, t.next_entity as nat)->Ok_0;
        let c = Carry { state: b, map: maintain::no_slots(t), purged: 0 };
        lemma_none_purged(t, c, t.next_fact as nat, second.bm25_reindex);
    }
}

/// A fact reads the same, but for where its text and vector are stored.
pub open spec fn reads_same(s: State, t: State, fact: FactId) -> bool {
    match (state::read_fact(s, fact), state::read_fact(t, fact)) {
        (None, None) => true,
        (Some((f, text)), Some((g, same))) => text == same && g == (FactRecord {
            text: g.text,
            vector: g.vector,
            ..f
        }),
        _ => false,
    }
}

/// Readers see no difference: facts, tags and metadata are the same, and so
/// are the next ids.
#[verifier::opaque]
pub open spec fn unseen(s: State, t: State) -> bool {
    &&& forall|fact: FactId| #[trigger] reads_same(s, t, fact)
    &&& forall|fact: FactId, tag: TermId| #[trigger]
        state::fact_tags(t, fact).contains(tag) == state::fact_tags(s, fact).contains(tag)
    &&& forall|fact: FactId| #[trigger] stored_metadata(t, fact) == stored_metadata(s, fact)
    &&& t.next_fact == s.next_fact
    &&& t.next_entity == s.next_entity
    &&& t.next_edge == s.next_edge
    &&& t.terms == s.terms
}

/// No pass is seen by readers.
pub proof fn maintenance_is_unseen(s: State, plan: WorkPlan)
    requires
        ordered(s),
        state::inv(s),
        maintain::pass(s, plan) is Ok,
    ensures
        unseen(s, maintain::pass(s, plan)->Ok_0),
{
    reveal(unseen);
    let t = maintain::pass(s, plan)->Ok_0;
    assert forall|fact: FactId| #[trigger] reads_same(s, t, fact) by {
        maintenance_keeps_facts(s, plan, fact);
    }
    assert forall|fact: FactId, tag: TermId| #[trigger]
        state::fact_tags(t, fact).contains(tag) == state::fact_tags(s, fact).contains(tag) by {
        maintenance_keeps_tags(s, plan, fact, tag);
    }
    assert forall|fact: FactId| #[trigger] stored_metadata(t, fact) == stored_metadata(s, fact) by {
        maintenance_keeps_metadata(s, plan, fact);
    }
}

pub proof fn lemma_unseen_same(s: State)
    ensures
        unseen(s, s),
{
    reveal(unseen);
}

pub proof fn lemma_maintain_kept(s: State, plan: WorkPlan)
    requires
        state::inv(s),
        maintain::pass(s, plan) is Ok,
    ensures
        whole::kept(s, maintain::pass(s, plan)->Ok_0),
{
    reveal(whole::kept);
    if whole::whole(s) {
        maintenance_keeps_whole(s, plan);
    }
}

/// Readers see nothing of the graph, and saving relies on nothing of it.
pub proof fn links_are_unseen(s: State, t: State, g: HnswState)
    requires
        unseen(s, t),
        whole::kept(s, t),
    ensures
        unseen(s, State { graph: g, ..t }),
        whole::kept(s, State { graph: g, ..t }),
{
    reveal(unseen);
    reveal(whole::kept);
    reveal(links::links_whole);
    let u = State { graph: g, ..t };
    if whole::whole(t) {
        tagging::lemma_tagged_same(t, u);
        assert forall|i: int| 0 <= i < u.by_name.len() implies whole::name_sane(
            u,
            #[trigger] u.by_name[i],
        ) by {
            assert(whole::name_sane(t, t.by_name[i]));
        }
        assert(links::links_whole(u, u.next_fact));
    }
    assert forall|fact: FactId| #[trigger] reads_same(s, u, fact) by {
        assert(reads_same(s, t, fact));
    }
    assert forall|fact: FactId, tag: TermId| #[trigger]
        state::fact_tags(u, fact).contains(tag) == state::fact_tags(s, fact).contains(tag) by {
        assert(state::fact_tags(t, fact).contains(tag) == state::fact_tags(s, fact).contains(tag));
    }
    assert forall|fact: FactId| #[trigger] stored_metadata(u, fact) == stored_metadata(s, fact) by {
        assert(stored_metadata(t, fact) == stored_metadata(s, fact));
    }
}

pub proof fn lemma_replay_kept(s: State, op: OpView)
    requires
        state::inv(s),
        op matches OpView::Link { provenance, .. } ==> links::source_sane(provenance, s.next_fact),
        replay::op_applied(s, op).1 is Ok,
    ensures
        whole::kept(s, replay::op_applied(s, op).0),
{
    reveal(whole::kept);
    if whole::whole(s) {
        replaying_keeps_whole(s, op);
    }
}

} // verus!
