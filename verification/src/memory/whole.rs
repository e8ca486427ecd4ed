//! What every successful verb keeps: a state that can be saved and loaded.
//!
//! A state is whole when its records refer only to what is there, its mirrored
//! tables agree, and its counters cover its records. An empty database is
//! whole, and remembering, revising, forgetting and linking keep it so.

use crate::error::Error;
use crate::id::{BlobId, EntityId, FactId, TermId, NONE_U32};
use crate::index::bm25;
use crate::index::postings;
use crate::interner;
use crate::memory::integrity;
use crate::memory::links;
use crate::memory::load;
use crate::memory::open;
use crate::memory::persist;
use crate::memory::state;
use crate::memory::state::{InputView, State};
use crate::memory::tagging;
use crate::memory::Memory;
use crate::model;
use crate::model::{
    DocLenSlot, EdgeHistorySlot, EntityByName, EntityRecord, FactAux, FactRecord, Slot,
    TemporalSlot, VALID_TO_OPEN,
};
use crate::table;
use vstd::prelude::*;

verus! {

/// A by-name record of a known entity.
pub open spec fn name_sane(s: State, b: EntityByName) -> bool {
    links::known(s, b.id) && b.name_term.0 < s.terms.len()
}

/// The entities and their names.
pub open spec fn names_whole(s: State) -> bool {
    &&& table::ascending(s.entities)
    &&& table::ascending(s.by_name)
    &&& s.entities.len() <= s.next_entity
    &&& forall|i: int| 0 <= i < s.by_name.len() ==> name_sane(s, #[trigger] s.by_name[i])
}

/// A fact whose subject and predecessor are in range; until it is closed it
/// holds without end.
pub open spec fn fact_sane(next_fact: u32, next_entity: u32, f: FactRecord) -> bool {
    &&& f.id.0 < next_fact
    &&& f.entity.0 == NONE_U32 || f.entity.0 < next_entity
    &&& links::source_sane(f.revises, next_fact)
    &&& f.kind == 0
    &&& !f.vectored() ==> f.vector == NONE_U32
    &&& !f.closed() ==> f.valid_to == VALID_TO_OPEN
}

/// The fact records and their counters.
pub open spec fn facts_whole(s: State) -> bool {
    &&& table::ascending(s.facts)
    &&& s.facts.len() <= s.next_fact
    &&& s.tombstones == load::tombstone_count(s.facts, s.facts.len())
    &&& forall|i: int|
        0 <= i < s.facts.len() ==> fact_sane(s.next_fact, s.next_entity, #[trigger] s.facts[i])
}

/// Auxiliary records below the bound that share no tag list and leave none
/// unclaimed.
pub open spec fn aux_whole(aux: Seq<FactAux>, lists: Seq<Seq<u8>>, n: u32) -> bool {
    &&& table::ascending(aux)
    &&& forall|i: int| 0 <= i < aux.len() ==> (#[trigger] aux[i]).id.0 < n
    &&& forall|i: int, l: int|
        0 <= i < aux.len() && #[trigger] integrity::tags_claim(aux, i, l) ==> l < lists.len()
            && !integrity::tags_claimed(aux, i, l)
    &&& forall|l: int|
        0 <= l < lists.len() ==> #[trigger] integrity::tags_claimed(aux, aux.len() as int, l)
}

/// The document records: one below the bound for each document counted.
pub open spec fn docs_whole(docs: Seq<DocLenSlot>, total: u64, n: u32) -> bool {
    &&& table::ascending(docs)
    &&& total == docs.len()
    &&& forall|i: int| 0 <= i < docs.len() ==> (#[trigger] docs[i]).fact.0 < n
}

/// The temporal records below the bound.
pub open spec fn moments_whole(rows: Seq<TemporalSlot>, n: u32) -> bool {
    forall|i: int| 0 <= i < rows.len() ==> (#[trigger] rows[i]).fact.0 < n
}

/// Everything about a state that saving and loading relies on.
pub open spec fn whole(s: State) -> bool {
    &&& names_whole(s)
    &&& links::links_whole(s, s.next_fact)
    &&& facts_whole(s)
    &&& aux_whole(s.aux, s.tag_lists, s.next_fact)
    &&& docs_whole(s.bm25.docs, s.bm25.total_docs, s.next_fact)
    &&& moments_whole(s.temporal, s.next_fact)
    &&& tagging::tagged(s)
}

/// An empty database is whole.
pub proof fn empty_is_whole(cfg: crate::config::Config, tokenizer_version: u32)
    ensures
        whole(state::empty_state(cfg, tokenizer_version)),
{
    reveal(links::links_whole);
    tagging::lemma_untagged(state::empty_state(cfg, tokenizer_version));
}

/// What resolving names and interning terms may change, and how.
pub open spec fn grown(s: State, t: State) -> bool {
    &&& t == (State {
        entities: t.entities,
        by_name: t.by_name,
        next_entity: t.next_entity,
        terms: t.terms,
        texts: t.texts,
        ..s
    })
    &&& s.next_entity <= t.next_entity
    &&& s.terms.len() <= t.terms.len()
    &&& forall|k: int| table::has_key(s.entities, k) ==> #[trigger] table::has_key(t.entities, k)
}

pub proof fn lemma_term_interned(s: State, t: Seq<char>)
    requires
        names_whole(s),
        state::term_interned(s, t).1 is Ok,
    ensures
        grown(s, state::term_interned(s, t).0),
        names_whole(state::term_interned(s, t).0),
        state::term_interned(s, t).1->Ok_0.0 < state::term_interned(s, t).0.terms.len(),
{
    let u = state::term_interned(s, t).0;
    if s.terms.contains(t) {
        assert(0 <= s.terms.index_of(t) < s.terms.len());
    }
    assert forall|i: int| 0 <= i < u.by_name.len() implies name_sane(u, #[trigger] u.by_name[i]) by {
        assert(name_sane(s, s.by_name[i]));
    }
}

/// The records of a new entity.
proof fn lemma_entity_added(s: State, name: BlobId, term: TermId, now: u64)
    requires
        names_whole(s),
        term.0 < s.terms.len(),
        s.next_entity < NONE_U32,
        state::entity_added(s, name, term, now).1 is Ok,
    ensures
        grown(s, state::entity_added(s, name, term, now).0),
        names_whole(state::entity_added(s, name, term, now).0),
        links::known(
            state::entity_added(s, name, term, now).0,
            state::entity_added(s, name, term, now).1->Ok_0,
        ),
{
    let id = EntityId(s.next_entity);
    let row = EntityRecord { id, name, name_term: term, created_at: now, flags: 0 };
    let b = EntityByName { name_term: term, id };
    let t = state::entity_added(s, name, term, now).0;
    if !table::has_key(s.entities, row.key()) {
        table::lemma_with_row(s.entities, row);
    }
    links::lemma_row(t.entities, id.0 as int);
    assert forall|k: int| table::has_key(s.entities, k) implies #[trigger] table::has_key(
        t.entities,
        k,
    ) by {
        links::lemma_row(s.entities, k);
        links::lemma_row(t.entities, k);
    }
    if !table::has_key(s.by_name, b.key()) {
        table::lemma_with_row(s.by_name, b);
    }
    table::lemma_rank(s.by_name, b.key());
    assert forall|i: int| 0 <= i < t.by_name.len() implies name_sane(t, #[trigger] t.by_name[i]) by {
        let at = table::rank(s.by_name, b.key());
        if i < at || t.by_name == s.by_name {
            assert(name_sane(s, s.by_name[i]));
        } else if i > at {
            assert(name_sane(s, s.by_name[i - 1]));
        }
    }
}

/// Resolving a name keeps the names and finds a known entity.
pub proof fn lemma_entity_resolved(s: State, name: Seq<char>, now: u64)
    requires
        names_whole(s),
        state::entity_resolved(s, name, now).1 is Ok,
    ensures
        grown(s, state::entity_resolved(s, name, now).0),
        names_whole(state::entity_resolved(s, name, now).0),
        links::known(
            state::entity_resolved(s, name, now).0,
            state::entity_resolved(s, name, now).1->Ok_0,
        ),
{
    let norm = state::normalized(name);
    if state::entity_named(s, norm) is Some {
        let t = interner::lookup_of(s.terms, norm)->0;
        let key = 0x1_0000_0000 * (t.0 as int);
        table::lemma_rank(s.by_name, key);
        assert(name_sane(s, s.by_name[table::rank(s.by_name, key)]));
    } else {
        lemma_term_interned(s, norm);
        let (t, term) = state::term_interned(s, norm);
        let (u, blob) = state::text_stored(t, vstd::utf8::encode_utf8(name));
        assert(names_whole(u)) by {
            assert forall|i: int| 0 <= i < u.by_name.len() implies name_sane(
                u,
                #[trigger] u.by_name[i],
            ) by {
                assert(name_sane(t, t.by_name[i]));
            }
        }
        lemma_entity_added(u, blob->Ok_0, term->Ok_0, now);
    }
}

/// Interning the words of a text keeps the names.
pub proof fn lemma_words_counted(s: State, words: Seq<Seq<char>>)
    requires
        names_whole(s),
        state::words_counted(s, words).2 is Ok,
    ensures
        grown(s, state::words_counted(s, words).0),
        names_whole(state::words_counted(s, words).0),
    decreases words.len(),
{
    if words.len() > 0 {
        lemma_words_counted(s, words.drop_last());
        lemma_term_interned(state::words_counted(s, words.drop_last()).0, words.last());
    }
}

/// Adding tags keeps the names; it changes the terms and the tag index.
pub proof fn lemma_tags_added(s: State, tags: Seq<Seq<char>>, fact: FactId)
    requires
        names_whole(s),
        state::tags_added(s, tags, fact).2 is Ok,
    ensures
        ({
            let t = state::tags_added(s, tags, fact).0;
            &&& grown(State { tags_idx: t.tags_idx, ..s }, t)
            &&& names_whole(t)
        }),
    decreases tags.len(),
{
    if tags.len() > 0 {
        lemma_tags_added(s, tags.drop_last(), fact);
        let u = state::tags_added(s, tags.drop_last(), fact).0;
        let v = state::term_interned(u, tags.last()).0;
        let t = state::tags_added(s, tags, fact).0;
        lemma_term_interned(u, tags.last());
        assert(names_whole(t)) by {
            assert forall|i: int| 0 <= i < t.by_name.len() implies name_sane(
                t,
                #[trigger] t.by_name[i],
            ) by {
                assert(name_sane(v, v.by_name[i]));
            }
        }
    }
}

/// Entities that are known stay known.
pub proof fn lemma_still_known(s: State, t: State, n: u32, e: EntityId)
    requires
        links::links_whole(s, n),
        grown(s, t),
    ensures
        links::links_whole(t, n),
        links::known(s, e) ==> links::known(t, e),
{
    links::lemma_links_grow(s, t, n, n);
}

/// What the links of a fact may change.
pub open spec fn relinked(s: State, t: State) -> bool {
    &&& t == (State {
        entities: t.entities,
        by_name: t.by_name,
        next_entity: t.next_entity,
        terms: t.terms,
        texts: t.texts,
        edges_out: t.edges_out,
        edges_in: t.edges_in,
        hist_out: t.hist_out,
        hist_in: t.hist_in,
        next_edge: t.next_edge,
        ..s
    })
    &&& s.next_entity <= t.next_entity
}

/// One link keeps the names and the edges.
pub proof fn lemma_link_added(
    s: State,
    n: u32,
    src: EntityId,
    link: (Seq<char>, Seq<char>),
    fact: FactId,
    now: u64,
)
    requires
        names_whole(s),
        links::links_whole(s, n),
        links::known(s, src),
        links::source_sane(fact, n),
        state::link_added(s, src, link, fact, now).1 is Ok,
    ensures
        ({
            let t = state::link_added(s, src, link, fact, now).0;
            &&& relinked(s, t)
            &&& names_whole(t)
            &&& links::links_whole(t, n)
            &&& links::known(t, src)
        }),
{
    let (t, dst) = state::entity_resolved(s, link.1, now);
    lemma_entity_resolved(s, link.1, now);
    lemma_still_known(s, t, n, src);
    let (u, rel) = state::term_interned(t, link.0);
    lemma_term_interned(t, link.0);
    lemma_still_known(t, u, n, src);
    links::lemma_links_upserted(u, n, src, rel->Ok_0, dst->Ok_0, fact, now);
    let v = state::link_added(s, src, link, fact, now).0;
    assert(v == state::edge_upserted(u, src, rel->Ok_0, dst->Ok_0, fact, now).0);
    assert(v == (State {
        edges_out: v.edges_out,
        edges_in: v.edges_in,
        hist_out: v.hist_out,
        hist_in: v.hist_in,
        next_edge: v.next_edge,
        ..u
    }));
    assert forall|i: int| 0 <= i < v.by_name.len() implies name_sane(v, #[trigger] v.by_name[i]) by {
        assert(name_sane(u, u.by_name[i]));
    }
}

/// The links of a fact keep the names and the edges.
pub proof fn lemma_links_added(
    s: State,
    n: u32,
    src: EntityId,
    links: Seq<(Seq<char>, Seq<char>)>,
    fact: FactId,
    now: u64,
)
    requires
        names_whole(s),
        links::links_whole(s, n),
        links::known(s, src),
        links::source_sane(fact, n),
        state::links_added(s, src, links, fact, now).1 is Ok,
    ensures
        ({
            let t = state::links_added(s, src, links, fact, now).0;
            &&& relinked(s, t)
            &&& names_whole(t)
            &&& links::links_whole(t, n)
        }),
        links::known(state::links_added(s, src, links, fact, now).0, src),
    decreases links.len(),
{
    if links.len() > 0 {
        lemma_links_added(s, n, src, links.drop_last(), fact, now);
        lemma_link_added(
            state::links_added(s, src, links.drop_last(), fact, now).0,
            n,
            src,
            links.last(),
            fact,
            now,
        );
    }
}

/// Indexing a document counts it.
pub proof fn lemma_doc_added(s: State, fact: FactId, pairs: Seq<(u32, u8)>, n: u32)
    requires
        docs_whole(s.bm25.docs, s.bm25.total_docs, n),
        fact.0 == n,
        n < NONE_U32,
        state::doc_added(s, fact, pairs).1 is Ok,
    ensures
        ({
            let t = state::doc_added(s, fact, pairs).0;
            &&& t == (State { bm25: t.bm25, ..s })
            &&& docs_whole(t.bm25.docs, t.bm25.total_docs, (n + 1) as u32)
        }),
{
    let doc = bm25::with_terms(bm25::blank_doc(fact, bm25::doc_tokens(pairs)), pairs);
    lemma_terms_of(bm25::blank_doc(fact, bm25::doc_tokens(pairs)), pairs);
    let docs = s.bm25.docs;
    table::lemma_append(docs, doc);
    let t = state::doc_added(s, fact, pairs).0;
    assert(table::has_room(docs, state::cap(s)));
    assert((docs.len() + 1) * 16 <= s.cfg.max_bytes);
    assert(t.bm25.docs == docs.push(doc));
}

/// Counting terms does not change whose document it is.
proof fn lemma_terms_of(doc: DocLenSlot, pairs: Seq<(u32, u8)>)
    ensures
        bm25::with_terms(doc, pairs).fact == doc.fact,
    decreases pairs.len(),
{
    if pairs.len() > 0 {
        lemma_terms_of(doc, pairs.drop_last());
    }
}

/// An auxiliary record put behind the others claims the list stored for it.
pub proof fn lemma_aux_added(
    aux: Seq<FactAux>,
    lists: Seq<Seq<u8>>,
    n: u32,
    a: FactAux,
    list: Seq<u8>,
)
    requires
        aux_whole(aux, lists, n),
        n < NONE_U32,
        a.id.0 == n,
        a.tags != model::empty_handle() ==> a.tags.list == lists.len(),
    ensures
        !table::has_key(aux, a.key()),
        aux_whole(
            table::with_row(aux, a),
            if a.tags == model::empty_handle() {
                lists
            } else {
                lists.push(list)
            },
            (n + 1) as u32,
        ),
{
    table::lemma_append(aux, a);
    let out = aux.push(a);
    let all = if a.tags == model::empty_handle() {
        lists
    } else {
        lists.push(list)
    };
    assert forall|i: int, l: int|
        0 <= i < out.len() && #[trigger] integrity::tags_claim(out, i, l) implies l < all.len()
        && !integrity::tags_claimed(out, i, l) by {
        if i < aux.len() {
            assert(integrity::tags_claim(aux, i, l));
        }
        assert forall|k: int| 0 <= k < i implies !#[trigger] integrity::tags_claim(out, k, l) by {
            if integrity::tags_claim(out, k, l) {
                assert(integrity::tags_claim(aux, k, l));
            }
        }
    }
    assert forall|l: int| 0 <= l < all.len() implies #[trigger] integrity::tags_claimed(
        out,
        out.len() as int,
        l,
    ) by {
        if l < lists.len() {
            assert(integrity::tags_claimed(aux, aux.len() as int, l));
            let k = choose|k: int| 0 <= k < aux.len() && #[trigger] integrity::tags_claim(aux, k, l);
            assert(integrity::tags_claim(out, k, l));
        } else {
            assert(integrity::tags_claim(out, aux.len() as int, l));
        }
    }
}

/// The tombstones among the first records depend on those alone.
proof fn lemma_same_count(a: Seq<FactRecord>, b: Seq<FactRecord>, n: nat)
    requires
        n <= a.len(),
        n <= b.len(),
        forall|i: int| 0 <= i < n ==> (#[trigger] a[i]).tombstone() == b[i].tombstone(),
    ensures
        load::tombstone_count(a, n) == load::tombstone_count(b, n),
    decreases n,
{
    if n > 0 {
        lemma_same_count(a, b, (n - 1) as nat);
    }
}

/// One more forgotten record counts once.
proof fn lemma_one_more(a: Seq<FactRecord>, b: Seq<FactRecord>, at: int, n: nat)
    requires
        n <= a.len(),
        a.len() == b.len(),
        0 <= at < a.len(),
        !a[at].tombstone(),
        b[at].tombstone(),
        forall|i: int| 0 <= i < n && i != at ==> (#[trigger] a[i]).tombstone() == b[i].tombstone(),
    ensures
        load::tombstone_count(b, n) == load::tombstone_count(a, n) + (if at < n {
            1int
        } else {
            0
        }),
        at < n ==> load::tombstone_count(a, n) < n,
    decreases n,
{
    lemma_count_bound(a, n);
    if n > 0 {
        lemma_one_more(a, b, at, (n - 1) as nat);
        lemma_count_bound(a, (n - 1) as nat);
    }
}

proof fn lemma_count_bound(a: Seq<FactRecord>, n: nat)
    ensures
        load::tombstone_count(a, n) <= n,
    decreases n,
{
    if n > 0 {
        lemma_count_bound(a, (n - 1) as nat);
    }
}

/// The record of a new fact stands behind the others.
proof fn lemma_record_added(s: State, f: FactRecord)
    requires
        facts_whole(s),
        moments_whole(s.temporal, s.next_fact),
        s.next_fact < NONE_U32,
        f.id.0 == s.next_fact,
        f.entity.0 == NONE_U32 || f.entity.0 < s.next_entity,
        links::source_sane(f.revises, s.next_fact),
        f.kind == 0,
        f.vector == NONE_U32,
        f.valid_to == VALID_TO_OPEN,
        !f.tombstone(),
        state::record_added(s, f).1 is Ok,
    ensures
        ({
            let t = state::record_added(s, f).0;
            &&& t == (State {
                facts: t.facts,
                temporal: t.temporal,
                next_fact: (s.next_fact + 1) as u32,
                ..s
            })
            &&& facts_whole(t)
            &&& moments_whole(t.temporal, t.next_fact)
        }),
{
    let t = state::record_added(s, f).0;
    table::lemma_append(s.facts, f);
    assert(t.facts == s.facts.push(f));
    lemma_same_count(s.facts, t.facts, s.facts.len());
    assert(t.facts.len() == s.facts.len() + 1);
    let m = TemporalSlot { recorded_at: f.recorded_at, fact: f.id };
    lemma_rank_bound(s.temporal, m.key());
    let at = table::rank(s.temporal, m.key());
    assert forall|i: int| 0 <= i < t.temporal.len() implies (#[trigger] t.temporal[i]).fact.0
        < t.next_fact by {
        if t.temporal == s.temporal || i < at {
            assert(s.temporal[i].fact.0 < s.next_fact);
        } else if i > at {
            assert(s.temporal[i - 1].fact.0 < s.next_fact);
        }
    }
}

pub proof fn lemma_rank_bound<T: Slot>(rows: Seq<T>, key: int)
    ensures
        0 <= table::rank(rows, key) <= rows.len(),
    decreases rows.len(),
{
    if rows.len() > 0 {
        lemma_rank_bound(rows.drop_last(), key);
    }
}

/// The tags and the metadata of a fact, and the record that holds both.
proof fn lemma_aux_finished(s: State, list: Seq<u32>, pairs: Seq<(Seq<char>, Seq<char>)>)
    requires
        aux_whole(s.aux, s.tag_lists, s.next_fact),
        s.next_fact < NONE_U32,
        state::tags_stored(s, list).1 is Ok,
        state::meta_stored(state::tags_stored(s, list).0, pairs).1 is Ok,
    ensures
        ({
            let (t, tags) = state::tags_stored(s, list);
            let (u, meta) = state::meta_stored(t, pairs);
            let a = FactAux { id: FactId(s.next_fact), tags: tags->Ok_0, meta: meta->Ok_0 };
            let v = state::aux_added(u, a).0;
            state::aux_added(u, a).1 is Ok ==> {
                &&& v == (State { tag_lists: v.tag_lists, metas: v.metas, aux: v.aux, ..s })
                &&& aux_whole(v.aux, v.tag_lists, (s.next_fact + 1) as u32)
            }
        }),
{
    let (t, tags) = state::tags_stored(s, list);
    let (u, meta) = state::meta_stored(t, pairs);
    let a = FactAux { id: FactId(s.next_fact), tags: tags->Ok_0, meta: meta->Ok_0 };
    lemma_aux_added(s.aux, s.tag_lists, s.next_fact, a, state::tag_bytes(list));
}

/// What a state is like while a fact is being put in: everything but its
/// record.
spec fn nearly_whole(s: State) -> bool {
    let n = (s.next_fact + 1) as u32;
    &&& s.next_fact < NONE_U32
    &&& names_whole(s)
    &&& links::links_whole(s, n)
    &&& facts_whole(s)
    &&& aux_whole(s.aux, s.tag_lists, n)
    &&& docs_whole(s.bm25.docs, s.bm25.total_docs, n)
    &&& moments_whole(s.temporal, s.next_fact)
}

/// More entities leave the facts as they were.
pub proof fn lemma_facts_grow(s: State, t: State)
    requires
        facts_whole(s),
        t.facts == s.facts,
        t.next_fact == s.next_fact,
        t.tombstones == s.tombstones,
        s.next_entity <= t.next_entity,
    ensures
        facts_whole(t),
{
    assert forall|i: int| 0 <= i < t.facts.len() implies fact_sane(
        t.next_fact,
        t.next_entity,
        #[trigger] t.facts[i],
    ) by {
        assert(fact_sane(s.next_fact, s.next_entity, s.facts[i]));
    }
}

/// Names do not depend on the other tables.
pub proof fn lemma_names_same(s: State, t: State)
    requires
        names_whole(s),
        t.entities == s.entities,
        t.by_name == s.by_name,
        t.next_entity == s.next_entity,
        t.terms == s.terms,
    ensures
        names_whole(t),
{
    assert forall|i: int| 0 <= i < t.by_name.len() implies name_sane(t, #[trigger] t.by_name[i]) by {
        assert(name_sane(s, s.by_name[i]));
    }
}

/// The subject of a fact, linked and listed.
proof fn lemma_subject_linked(
    s: State,
    entity: Option<EntityId>,
    list: Seq<(Seq<char>, Seq<char>)>,
    now: u64,
)
    requires
        nearly_whole(s),
        entity matches Some(e) ==> links::known(s, e),
        state::subject_linked(s, entity, list, FactId(s.next_fact), now).1 is Ok,
    ensures
        ({
            let t = state::subject_linked(s, entity, list, FactId(s.next_fact), now).0;
            &&& nearly_whole(t)
            &&& t.next_fact == s.next_fact
            &&& entity matches Some(e) ==> links::known(t, e)
        }),
{
    let id = FactId(s.next_fact);
    let n = (s.next_fact + 1) as u32;
    if let Some(src) = entity {
        lemma_links_added(s, n, src, list, id, now);
        let u = state::links_added(s, src, list, id, now).0;
        lemma_facts_grow(s, u);
        let t = state::subject_listed(u, src, id).0;
        lemma_names_same(u, t);
        lemma_facts_grow(u, t);
        links::lemma_links_grow(u, t, n, n);
    }
}

/// The whole of a fact behind its words.
proof fn lemma_fact_finished(
    s: State,
    entity: Option<EntityId>,
    text: BlobId,
    input: InputView,
    revises: FactId,
)
    requires
        s.next_fact < NONE_U32,
        names_whole(s),
        links::links_whole(s, s.next_fact),
        facts_whole(s),
        aux_whole(s.aux, s.tag_lists, s.next_fact),
        docs_whole(s.bm25.docs, s.bm25.total_docs, (s.next_fact + 1) as u32),
        moments_whole(s.temporal, s.next_fact),
        entity matches Some(e) ==> links::known(s, e),
        links::source_sane(revises, s.next_fact),
        state::fact_finished(s, entity, text, input, revises).1 is Ok,
        tagging::tagged(state::fact_finished(s, entity, text, input, revises).0),
    ensures
        whole(state::fact_finished(s, entity, text, input, revises).0),
{
    let id = FactId(s.next_fact);
    let n = (s.next_fact + 1) as u32;
    let (t1, list, _) = state::tags_added(s, input.tags, id);
    lemma_tags_added(s, input.tags, id);
    lemma_facts_grow(s, t1);
    links::lemma_links_grow(s, t1, s.next_fact, n);
    lemma_aux_finished(t1, list, input.metadata);
    let (t2, tags) = state::tags_stored(t1, list);
    let (t3, meta) = state::meta_stored(t2, input.metadata);
    let t4 = state::aux_added(t3, FactAux { id, tags: tags->Ok_0, meta: meta->Ok_0 }).0;
    lemma_names_same(t1, t4);
    lemma_facts_grow(t1, t4);
    links::lemma_links_grow(t1, t4, n, n);
    lemma_subject_linked(t4, entity, input.links, input.now);
    let t5 = state::subject_linked(t4, entity, input.links, id, input.now).0;
    crate::memory::lemma_no_flags();
    lemma_record_added(t5, state::new_record(id, entity, text, revises, input));
    let t6 = state::fact_finished(s, entity, text, input, revises).0;
    lemma_names_same(t5, t6);
    links::lemma_links_grow(t5, t6, n, n);
}

/// A fact that was remembered leaves a whole state whole.
pub proof fn remembering_keeps_whole(s: State, input: InputView, revises: FactId)
    requires
        whole(s),
        links::source_sane(revises, s.next_fact),
        input.tags.len() <= 32,
        state::remembered(s, input, revises).1 is Ok,
    ensures
        whole(state::remembered(s, input, revises).0),
{
    tagging::remembering_keeps_tags(s, input, revises);
    reveal(state::remembered);
    let id = FactId(s.next_fact);
    let n = s.next_fact;
    let (t1, entity) = state::subject_resolved(s, input);
    if let Some(name) = input.entity {
        lemma_entity_resolved(s, name, input.now);
    }
    assert(grown(s, t1));
    let (t2, text) = state::text_stored(t1, vstd::utf8::encode_utf8(input.text));
    lemma_names_same(t1, t2);
    let (t3, pairs, _) = state::words_counted(t2, state::tokens(input.text));
    lemma_words_counted(t2, state::tokens(input.text));
    assert(grown(s, t3));
    lemma_facts_grow(s, t3);
    links::lemma_links_grow(s, t3, n, n);
    lemma_doc_added(t3, id, pairs, n);
    let t4 = state::doc_added(t3, id, pairs).0;
    lemma_names_same(t3, t4);
    lemma_facts_grow(t3, t4);
    links::lemma_links_grow(t3, t4, n, n);
    lemma_fact_finished(t4, entity->Ok_0, text->Ok_0, input, revises);
}

/// A record put over another of the same fact keeps the facts whole when it
/// changes only its flags and its end date.
proof fn lemma_fact_replaced(s: State, f: FactRecord, g: FactRecord)
    requires
        facts_whole(s),
        table::row_of(s.facts, f.id.0 as int) == Some(f),
        g == (FactRecord { flags: g.flags, valid_to: g.valid_to, ..f }),
        g.vectored() == f.vectored(),
        !g.closed() ==> g.valid_to == VALID_TO_OPEN,
    ensures
        ({
            let out = table::replaced(s.facts, g);
            let at = table::rank(s.facts, f.id.0 as int);
            &&& table::ascending(out)
            &&& out.len() == s.facts.len()
            &&& 0 <= at < s.facts.len()
            &&& s.facts[at] == f
            &&& out == s.facts.update(at, g)
            &&& forall|i: int|
                0 <= i < out.len() ==> fact_sane(s.next_fact, s.next_entity, #[trigger] out[i])
        }),
{
    links::lemma_row(s.facts, f.id.0 as int);
    table::lemma_rank(s.facts, f.id.0 as int);
    table::lemma_replaced(s.facts, g);
    let at = table::rank(s.facts, f.id.0 as int);
    let out = table::replaced(s.facts, g);
    assert forall|i: int| 0 <= i < out.len() implies fact_sane(
        s.next_fact,
        s.next_entity,
        #[trigger] out[i],
    ) by {
        assert(fact_sane(s.next_fact, s.next_entity, s.facts[i]));
    }
}

/// Other fact records leave the rest of a whole state as it was.
proof fn lemma_facts_only(s: State, t: State)
    requires
        whole(s),
        t == (State { facts: t.facts, tombstones: t.tombstones, ..s }),
        facts_whole(t),
    ensures
        whole(t),
{
    lemma_names_same(s, t);
    tagging::lemma_tagged_same(s, t);
    links::lemma_links_grow(s, t, s.next_fact, s.next_fact);
}

/// Ending the validity of a revised fact keeps a state whole.
pub proof fn closing_keeps_whole(s: State, target: FactId, t: u64)
    requires
        whole(s),
    ensures
        whole(state::target_closed(s, target, t)),
{
    let out = state::target_closed(s, target, t);
    if let Some(f) = state::fact_of(s, target) {
        links::lemma_row(s.facts, target.0 as int);
        let g = state::fact_closed_at(f, t);
        let x = f.flags;
        assert((x | model::fact_flags::CLOSED) & model::fact_flags::CLOSED != 0 && (x
            | model::fact_flags::CLOSED) & model::fact_flags::TOMBSTONE == x
            & model::fact_flags::TOMBSTONE && (x | model::fact_flags::CLOSED)
            & model::fact_flags::HAS_VECTOR == x & model::fact_flags::HAS_VECTOR) by (bit_vector);
        lemma_fact_replaced(s, f, g);
        lemma_same_count(s.facts, out.facts, s.facts.len());
        lemma_facts_only(s, out);
    }
}

/// Forgetting a fact keeps a state whole.
pub proof fn forgetting_keeps_whole(s: State, fact: FactId)
    requires
        whole(s),
    ensures
        whole(state::forgotten(s, fact).0),
{
    let out = state::forgotten(s, fact).0;
    if let Some(f) = state::fact_of(s, fact) {
        if !f.tombstone() {
            links::lemma_row(s.facts, fact.0 as int);
            table::lemma_rank(s.facts, fact.0 as int);
            assert(fact_sane(
                s.next_fact,
                s.next_entity,
                s.facts[table::rank(s.facts, fact.0 as int)],
            ));
            let g = state::fact_forgotten(f);
            let x = f.flags;
            assert((x | model::fact_flags::TOMBSTONE) & model::fact_flags::TOMBSTONE != 0 && (x
                | model::fact_flags::TOMBSTONE) & model::fact_flags::HAS_VECTOR == x
                & model::fact_flags::HAS_VECTOR && (x | model::fact_flags::TOMBSTONE)
                & model::fact_flags::CLOSED == x & model::fact_flags::CLOSED) by (bit_vector);
            lemma_fact_replaced(s, f, g);
            let at = table::rank(s.facts, fact.0 as int);
            lemma_one_more(s.facts, out.facts, at, s.facts.len());
            lemma_facts_only(s, out);
        }
    }
}

/// A link between two named entities, with no provenance or that of a fact on
/// record, leaves a whole state whole.
pub proof fn linking_keeps_whole(
    s: State,
    now: u64,
    src: Seq<char>,
    rel: Seq<char>,
    dst: Seq<char>,
    provenance: FactId,
)
    requires
        whole(s),
        links::source_sane(provenance, s.next_fact),
        state::linked(s, now, src, rel, dst, provenance).1 is Ok,
    ensures
        whole(state::linked(s, now, src, rel, dst, provenance).0),
{
    let (t, a) = state::entity_resolved(s, src, now);
    lemma_entity_resolved(s, src, now);
    lemma_still_known(s, t, s.next_fact, a->Ok_0);
    lemma_link_added(t, s.next_fact, a->Ok_0, (rel, dst), provenance, now);
    lemma_facts_grow(s, state::linked(s, now, src, rel, dst, provenance).0);
    tagging::lemma_tagged_same(s, state::linked(s, now, src, rel, dst, provenance).0);
}

/// A batch that was taken in full leaves a whole state whole.
pub proof fn batches_keep_whole(s: State, inputs: Seq<InputView>)
    requires
        whole(s),
        state::batched(s, inputs).2 is Ok,
    ensures
        whole(state::batched(s, inputs).0),
    decreases inputs.len(),
{
    if inputs.len() > 0 {
        batches_keep_whole(s, inputs.drop_last());
        remembering_keeps_whole(
            state::batched(s, inputs.drop_last()).0,
            inputs.last(),
            FactId(NONE_U32),
        );
    }
}

/// A revision leaves a whole state whole: the new fact, and the old one closed.
pub proof fn revising_keeps_whole(s: State, target: FactId, input: InputView)
    requires
        whole(s),
        state::revise_error(s, target) is None,
        input.tags.len() <= 32,
        state::remembered(s, input, target).1 is Ok,
    ensures
        whole(
            state::target_closed(
                state::remembered(s, input, target).0,
                target,
                state::start_of(input),
            ),
        ),
{
    links::lemma_row(s.facts, target.0 as int);
    table::lemma_rank(s.facts, target.0 as int);
    assert(fact_sane(
        s.next_fact,
        s.next_entity,
        s.facts[table::rank(s.facts, target.0 as int)],
    ));
    remembering_keeps_whole(s, input, target);
    closing_keeps_whole(state::remembered(s, input, target).0, target, state::start_of(input));
}

proof fn lemma_clear(n: nat, f: spec_fn(int) -> Option<Error>)
    requires
        forall|i: int| 0 <= i < n ==> (#[trigger] f(i)) is None,
    ensures
        integrity::first_fault(n, f) is None,
    decreases n,
{
    if n > 0 {
        lemma_clear((n - 1) as nat, f);
    }
}

/// The records of a whole state are without fault.
proof fn lemma_records_clear(s: State)
    requires
        whole(s),
        state::inv(s),
    ensures
        integrity::facts_fault(s) is None,
        integrity::auxes_fault(s) is None,
        integrity::entities_fault(s) is None,
        integrity::names_fault(s) is None,
        integrity::moments_fault(s) is None,
{
    let ff = |i: int| integrity::fact_fault(s, s.facts[i]);
    assert forall|i: int| 0 <= i < s.facts.len() implies (#[trigger] ff(i)) is None by {
        assert(fact_sane(s.next_fact, s.next_entity, s.facts[i]));
        assert(state::fact_ok(s, s.facts[i]));
    }
    lemma_clear(s.facts.len(), ff);
    let af = |i: int| integrity::aux_fault(s, i);
    assert forall|i: int| 0 <= i < s.aux.len() implies (#[trigger] af(i)) is None by {
        lemma_aux_clear(s, i);
    }
    lemma_clear(s.aux.len(), af);
    let ef = |i: int| integrity::entity_fault(s, s.entities[i]);
    assert forall|i: int| 0 <= i < s.entities.len() implies (#[trigger] ef(i)) is None by {
        assert(state::entity_ok(s, s.entities[i]));
    }
    lemma_clear(s.entities.len(), ef);
    let nf = |i: int| integrity::name_fault(s, s.by_name[i]);
    assert forall|i: int| 0 <= i < s.by_name.len() implies (#[trigger] nf(i)) is None by {
        assert(name_sane(s, s.by_name[i]));
    }
    lemma_clear(s.by_name.len(), nf);
    let mf = |i: int| integrity::moment_fault(s, s.temporal[i]);
    assert forall|i: int| 0 <= i < s.temporal.len() implies (#[trigger] mf(i)) is None by {
        assert(s.temporal[i].fact.0 < s.next_fact);
    }
    lemma_clear(s.temporal.len(), mf);
}

proof fn lemma_aux_clear(s: State, i: int)
    requires
        aux_whole(s.aux, s.tag_lists, s.next_fact),
        state::refs(s),
        0 <= i < s.aux.len(),
    ensures
        integrity::aux_fault(s, i) is None,
{
    let a = s.aux[i];
    assert(state::aux_ok(s, a));
    if a.tags != model::empty_handle() {
        assert(integrity::tags_claim(s.aux, i, a.tags.list as int));
        let list = s.tag_lists[a.tags.list as int];
        assert forall|k: int| 0 <= k < list.len() / 4 implies !(#[trigger] state::tag_at(list, k)
            >= s.terms.len()) by {
            assert(state::tag_at(list, k) < s.terms.len());
        }
    }
}

/// The edges of a whole state are without fault, and below the next edge.
proof fn lemma_edges_clear(s: State)
    requires
        links::links_whole(s, s.next_fact),
    ensures
        integrity::edges_fault(s, s.edges_out) is None,
        integrity::edges_fault(s, s.edges_in) is None,
        integrity::mirrors_fault(s) is None,
{
    reveal(links::links_whole);
    let n = s.next_fact;
    let of = |i: int| integrity::edge_fault(s, s.edges_out[i]);
    let mf = |i: int| integrity::mirror_fault(s, s.edges_out[i]);
    assert forall|i: int| 0 <= i < s.edges_out.len() implies (#[trigger] of(i)) is None && mf(
        i,
    ) is None by {
        let e = s.edges_out[i];
        table::lemma_found(s.edges_out, e.key(), i);
        assert(links::out_sane(s, n, e));
        reveal(links::mirror_key);
        reveal(links::version_key);
    }
    assert forall|i: int| 0 <= i < s.edges_out.len() implies (#[trigger] mf(i)) is None by {
        assert(of(i) is None);
    }
    lemma_clear(s.edges_out.len(), of);
    lemma_clear(s.edges_out.len(), mf);
    let inf = |i: int| integrity::edge_fault(s, s.edges_in[i]);
    assert forall|i: int| 0 <= i < s.edges_in.len() implies (#[trigger] inf(i)) is None by {
        let e = s.edges_in[i];
        table::lemma_found(s.edges_in, e.key(), i);
        assert(links::in_sane(s, n, e));
    }
    lemma_clear(s.edges_in.len(), inf);
}

proof fn lemma_versions_clear(s: State)
    requires
        links::links_whole(s, s.next_fact),
    ensures
        integrity::versions_fault(s) is None,
        load::edge_bound(s.hist_out, s.hist_out.len()) <= s.next_edge,
{
    reveal(links::links_whole);
    let n = s.next_fact;
    let vf = |i: int| integrity::version_fault(s, s.hist_out[i]);
    assert forall|i: int| 0 <= i < s.hist_out.len() implies (#[trigger] s.hist_out[i]).edge.0
        < s.next_edge && vf(i) is None by {
        let v = s.hist_out[i];
        table::lemma_found(s.hist_out, v.key(), i);
        assert(links::past_sane(s, n, v));
        reveal(links::version_mirror_key);
        reveal(links::ends_key);
    }
    assert forall|i: int| 0 <= i < s.hist_out.len() implies (#[trigger] vf(i)) is None by {
        assert(s.hist_out[i].edge.0 < s.next_edge);
    }
    lemma_clear(s.hist_out.len(), vf);
    lemma_edge_bound(s.hist_out, s.hist_out.len(), s.next_edge);
}

proof fn lemma_edge_bound(rows: Seq<EdgeHistorySlot>, n: nat, next: u32)
    requires
        n <= rows.len(),
        forall|i: int| 0 <= i < n ==> (#[trigger] rows[i]).edge.0 < next,
    ensures
        load::edge_bound(rows, n) <= next,
    decreases n,
{
    if n > 0 {
        lemma_edge_bound(rows, (n - 1) as nat, next);
    }
}

proof fn lemma_postings_clear(tf: bool, v: Seq<postings::List>, next: u32)
    requires
        postings::lists_ok(tf, v),
        bm25::ids_below(v, next as int),
    ensures
        integrity::postings_fault(v, next) is None,
{
    let f = |i: int| integrity::posting_fault(v[i], next);
    assert forall|i: int| 0 <= i < v.len() implies (#[trigger] f(i)) is None by {
        postings::lemma_list_found(tf, v, i);
        assert(postings::entries_of(v, v[i].0).len() > 0);
    }
    lemma_clear(v.len(), f);
}

/// A whole engine whose lengths fit their stored fields is complete.
pub proof fn whole_is_complete(m: Memory)
    requires
        m.wf(),
        whole(m@),
        open::narrow(m@),
    ensures
        open::complete(m@),
{
    let s = m@;
    m.bm25.lemma_wf();
    m.tags_idx.lemma_wf();
    m.entity_facts.lemma_wf();
    lemma_postings_clear(true, s.bm25.postings, s.next_fact);
    lemma_postings_clear(false, s.tags_idx, s.next_fact);
    lemma_postings_clear(false, s.entity_facts, s.next_fact);
    lemma_records_clear(s);
    lemma_edges_clear(s);
    lemma_versions_clear(s);
    assert(integrity::reference_fault(s) is None) by {
        reveal(integrity::reference_fault);
        reveal(state::graph_ok);
    }
}

/// What a whole engine saves, it loads back: every record, text, index and
/// counter, where the lengths fit their stored fields.
pub proof fn a_whole_engine_loads_back(m: Memory, created_at: u64)
    requires
        m.wf(),
        whole(m@),
        open::narrow(m@),
        persist::image_fits(m@),
    ensures
        load::loaded(persist::snapshot_image(m@, created_at), m@.cfg) == Ok::<_, Error>(m@),
{
    whole_is_complete(m);
    open::saved_state_loads_back(m, created_at);
}

/// A whole state was left whole.
#[verifier::opaque]
pub open spec fn kept(s: State, t: State) -> bool {
    whole(s) ==> whole(t)
}

/// What two steps keep, both keep together.
pub proof fn lemma_kept_twice(s: State, t: State, u: State)
    requires
        kept(s, t),
        kept(t, u),
    ensures
        kept(s, u),
{
    reveal(kept);
}

pub proof fn lemma_kept_same(s: State)
    ensures
        kept(s, s),
{
    reveal(kept);
}

pub proof fn lemma_remember_kept(s: State, input: InputView)
    requires
        input.tags.len() <= 32,
        state::remembered(s, input, FactId(NONE_U32)).1 is Ok,
    ensures
        kept(s, state::remembered(s, input, FactId(NONE_U32)).0),
{
    reveal(kept);
    if whole(s) {
        remembering_keeps_whole(s, input, FactId(NONE_U32));
    }
}

pub proof fn lemma_revise_kept(s: State, target: FactId, input: InputView)
    requires
        input.tags.len() <= 32,
        state::revise_error(s, target) is None,
        state::remembered(s, input, target).1 is Ok,
    ensures
        kept(
            s,
            state::target_closed(
                state::remembered(s, input, target).0,
                target,
                state::start_of(input),
            ),
        ),
{
    reveal(kept);
    if whole(s) {
        revising_keeps_whole(s, target, input);
    }
}

pub proof fn lemma_forget_kept(s: State, fact: FactId)
    ensures
        kept(s, state::forgotten(s, fact).0),
{
    reveal(kept);
    if whole(s) {
        forgetting_keeps_whole(s, fact);
    }
}

pub proof fn lemma_link_kept(
    s: State,
    now: u64,
    src: Seq<char>,
    rel: Seq<char>,
    dst: Seq<char>,
    provenance: FactId,
)
    requires
        links::source_sane(provenance, s.next_fact),
        state::linked(s, now, src, rel, dst, provenance).1 is Ok,
    ensures
        kept(s, state::linked(s, now, src, rel, dst, provenance).0),
{
    reveal(kept);
    if whole(s) {
        linking_keeps_whole(s, now, src, rel, dst, provenance);
    }
}

} // verus!
