//! The engine's state as a mathematical value, and what each operation does
//! to it.
//!
//! Every operation is a function from a state to the state it leaves and the
//! result it returns. Where a ceiling is hit part way, the state left is the
//! partial one: the engine treats that as fatal, and reopening from the
//! journal rebuilds consistently.

use crate::codec;
use crate::config;
use crate::config::Config;
use crate::error::{ArenaError, Error};
use crate::float::F32Bits;
use crate::heap;
use crate::id::{BlobId, EdgeId, EntityId, FactId, TermId, NONE_U32};
use crate::index::bm25;
use crate::index::bm25::Bm25State;
use crate::index::hnsw;
use crate::index::hnsw::HnswState;
use crate::index::postings;
use crate::index::postings::List;
use crate::index::vecpool;
use crate::interner;
use crate::journal;
use crate::journal::OpView;
use crate::metadata;
use crate::model;
use crate::model::{
    EdgeHistorySlot, EdgeSlot, EntityByName, EntityRecord, FactAux, FactRecord, ListHandle, Slot,
    TemporalSlot, VALID_TO_OPEN,
};
use crate::parse;
use crate::table;
use crate::tokenizer;
use crate::tokenizer::policy::TokenizerPolicy;
use vstd::prelude::*;
use vstd::utf8::*;

verus! {

/// The engine's state.
#[verifier::ext_equal]
pub struct State {
    pub cfg: Config,
    pub facts: Seq<FactRecord>,
    pub aux: Seq<FactAux>,
    pub entities: Seq<EntityRecord>,
    pub by_name: Seq<EntityByName>,
    pub edges_out: Seq<EdgeSlot>,
    pub edges_in: Seq<EdgeSlot>,
    pub hist_out: Seq<EdgeHistorySlot>,
    pub hist_in: Seq<EdgeHistorySlot>,
    pub temporal: Seq<TemporalSlot>,
    pub texts: Seq<Seq<u8>>,
    pub metas: Seq<Seq<u8>>,
    pub terms: Seq<Seq<char>>,
    pub tag_lists: Seq<Seq<u8>>,
    pub bm25: Bm25State,
    pub tags_idx: Seq<List>,
    pub entity_facts: Seq<List>,
    pub vecs: Seq<u8>,
    pub graph: HnswState,
    pub next_fact: u32,
    pub next_entity: u32,
    pub next_edge: u32,
    pub tombstones: usize,
    pub tokenizer_version: u32,
    /// Which model the vectors come from, where that is tracked.
    pub space: Option<Seq<char>>,
}

/// An empty database.
pub open spec fn empty_state(cfg: Config, tokenizer_version: u32) -> State {
    State {
        cfg,
        facts: Seq::empty(),
        aux: Seq::empty(),
        entities: Seq::empty(),
        by_name: Seq::empty(),
        edges_out: Seq::empty(),
        edges_in: Seq::empty(),
        hist_out: Seq::empty(),
        hist_in: Seq::empty(),
        temporal: Seq::empty(),
        texts: Seq::empty(),
        metas: Seq::empty(),
        terms: Seq::empty(),
        tag_lists: Seq::empty(),
        bm25: bm25::no_docs(),
        tags_idx: Seq::empty(),
        entity_facts: Seq::empty(),
        vecs: Seq::empty(),
        graph: hnsw::no_nodes(cfg.hnsw_m as int, cfg.hnsw_m0 as int),
        next_fact: 0,
        next_entity: 0,
        next_edge: 0,
        tombstones: 0,
        tokenizer_version,
        space: None,
    }
}

/// The byte ceiling of every structure.
pub open spec fn cap(s: State) -> int {
    s.cfg.max_bytes as int
}

/// The size ceiling of a text, a term or a metadata blob.
pub open spec fn blob_cap(s: State) -> int {
    s.cfg.max_blob as int
}

/// The handle names a stored tag list of term ids, or none.
pub open spec fn tags_ok(s: State, h: ListHandle) -> bool {
    h == model::empty_handle() || {
        &&& h.list < s.tag_lists.len()
        &&& h.bytes == s.tag_lists[h.list as int].len()
        &&& h.reserved == 0
        &&& h.bytes % 4 == 0
        &&& forall|k: int|
            0 <= k < h.bytes / 4 ==> #[trigger] tag_at(s.tag_lists[h.list as int], k)
                < s.terms.len()
    }
}

/// Term id number `k` of a stored tag list.
pub open spec fn tag_at(list: Seq<u8>, k: int) -> int {
    codec::be_at(list, 4 * k, 4) as int
}

/// A fact record refers to things that are there.
pub open spec fn fact_ok(s: State, f: FactRecord) -> bool {
    f.id.0 < s.next_fact && f.text.0 < s.texts.len()
}

/// An auxiliary record refers to things that are there.
pub open spec fn aux_ok(s: State, a: FactAux) -> bool {
    (a.meta.0 == NONE_U32 || a.meta.0 < s.metas.len()) && tags_ok(s, a.tags)
}

/// An entity record refers to things that are there.
pub open spec fn entity_ok(s: State, e: EntityRecord) -> bool {
    e.id.0 < s.next_entity && e.name.0 < s.texts.len() && e.name_term.0 < s.terms.len()
}

/// Every stored record refers to things that are there.
pub open spec fn refs(s: State) -> bool {
    &&& forall|i: int| 0 <= i < s.facts.len() ==> fact_ok(s, #[trigger] s.facts[i])
    &&& forall|i: int| 0 <= i < s.aux.len() ==> aux_ok(s, #[trigger] s.aux[i])
    &&& forall|i: int| 0 <= i < s.entities.len() ==> entity_ok(s, #[trigger] s.entities[i])
}

/// Every fact on record can be read: its text, its tags and its metadata are
/// there.
#[verifier::opaque]
pub open spec fn readable(s: State) -> bool {
    &&& forall|i: int| 0 <= i < s.facts.len() ==> (#[trigger] s.facts[i]).text.0 < s.texts.len()
    &&& forall|i: int| 0 <= i < s.aux.len() ==> aux_ok(s, #[trigger] s.aux[i])
}

/// The vector graph refers only to slots of its pool.
#[verifier::opaque]
pub open spec fn graph_ok(g: HnswState, dim: int, vecs: Seq<u8>) -> bool {
    hnsw::graph_fault(g, dim, vecs) is None
}

/// What every operation keeps: a valid configuration, references in range,
/// and indexed ids below the next fact's.
pub open spec fn inv(s: State) -> bool {
    &&& config::config_ok(s.cfg)
    &&& refs(s)
    &&& graph_ok(s.graph, s.cfg.dim as int, s.vecs)
    &&& bm25::ids_below(s.bm25.postings, s.next_fact as int)
    &&& bm25::ids_below(s.tags_idx, s.next_fact as int)
    &&& bm25::ids_below(s.entity_facts, s.next_fact as int)
}

/// The folding policy of the engine's tokenizer.
pub open spec fn search_policy() -> TokenizerPolicy {
    TokenizerPolicy { fold_latin_diacritics: true, fold_russian_yo: true }
}

/// The tokens of a text.
pub open spec fn tokens(text: Seq<char>) -> Seq<Seq<char>> {
    tokenizer::tokens_of(text, search_policy())
}

/// Words joined by single spaces.
pub open spec fn spaced(words: Seq<Seq<char>>) -> Seq<char>
    decreases words.len(),
{
    if words.len() == 0 {
        Seq::empty()
    } else {
        let front = spaced(words.drop_last());
        if front.len() == 0 {
            words.last()
        } else {
            front.push(' ') + words.last()
        }
    }
}

/// A normalized entity name: its tokens joined by single spaces.
pub open spec fn normalized(name: Seq<char>) -> Seq<char> {
    spaced(tokens(name))
}

/// The input of a new fact.
pub struct InputView {
    pub now: u64,
    pub text: Seq<char>,
    pub entity: Option<Seq<char>>,
    pub tags: Seq<Seq<char>>,
    pub links: Seq<(Seq<char>, Seq<char>)>,
    pub metadata: Seq<(Seq<char>, Seq<char>)>,
    pub valid_from: Option<u64>,
}

/// The start of a new fact's validity.
pub open spec fn start_of(input: InputView) -> u64 {
    match input.valid_from {
        Some(t) => t,
        None => input.now,
    }
}

/// Some tag holds no character.
pub open spec fn empty_tag(tags: Seq<Seq<char>>) -> bool {
    exists|i: int| 0 <= i < tags.len() && (#[trigger] tags[i]).len() == 0
}

/// The size and shape rules of an input.
pub open spec fn input_error(s: State, input: InputView) -> Option<Error> {
    if encode_utf8(input.text).len() > s.cfg.max_text {
        Some(
            Error::TooLarge {
                what: "text",
                len: encode_utf8(input.text).len() as usize,
                max: s.cfg.max_text,
            },
        )
    } else if input.tags.len() > 32 {
        Some(Error::TooLarge { what: "tags", len: input.tags.len() as usize, max: 32 })
    } else if input.links.len() > 16 {
        Some(Error::TooLarge { what: "links", len: input.links.len() as usize, max: 16 })
    } else if empty_tag(input.tags) {
        Some(Error::Invalid("empty tag"))
    } else if input.links.len() > 0 && input.entity is None {
        Some(Error::Invalid("links require a subject entity"))
    } else if metadata::has_duplicate(input.metadata) {
        Some(Error::Invalid("duplicate metadata key"))
    } else {
        None
    }
}

/// The record of a fact.
pub open spec fn fact_of(s: State, fact: FactId) -> Option<FactRecord> {
    table::row_of(s.facts, fact.0 as int)
}

/// Why a fact cannot be revised.
pub open spec fn revise_error(s: State, target: FactId) -> Option<Error> {
    match fact_of(s, target) {
        None => Some(Error::NotFound(target)),
        Some(f) => if f.tombstone() {
            Some(Error::NotFound(target))
        } else if f.closed() {
            Some(Error::AlreadyClosed(target))
        } else {
            None
        },
    }
}

/// The entity that carries an already normalized name.
pub open spec fn entity_named(s: State, norm: Seq<char>) -> Option<EntityId> {
    match interner::lookup_of(s.terms, norm) {
        None => None,
        Some(t) => {
            let at = table::rank(s.by_name, 0x1_0000_0000 * (t.0 as int));
            if at < s.by_name.len() && s.by_name[at].name_term == t {
                Some(s.by_name[at].id)
            } else {
                None
            }
        },
    }
}

/// Interns one term.
pub open spec fn term_interned(s: State, t: Seq<char>) -> (State, Result<TermId, Error>) {
    match interner::interned(s.terms, cap(s), blob_cap(s), t) {
        Ok((terms, id)) => (State { terms, ..s }, Ok(id)),
        Err(e) => (s, Err(Error::Arena(e))),
    }
}

/// Stores one text.
pub open spec fn text_stored(s: State, t: Seq<u8>) -> (State, Result<BlobId, Error>) {
    match heap::pushed(s.texts, cap(s), blob_cap(s), t) {
        Ok((texts, id)) => (State { texts, ..s }, Ok(id)),
        Err(e) => (s, Err(Error::Arena(e))),
    }
}

/// Puts the records of a new entity in place.
pub open spec fn entity_added(s: State, name: BlobId, term: TermId, now: u64) -> (
    State,
    Result<EntityId, Error>,
) {
    let id = EntityId(s.next_entity);
    let row = EntityRecord { id, name, name_term: term, created_at: now, flags: 0 };
    match table::inserted(s.entities, cap(s), row) {
        Err(e) => (s, Err(Error::Arena(e))),
        Ok((entities, _)) => {
            let t = State { entities, ..s };
            match table::inserted(s.by_name, cap(s), EntityByName { name_term: term, id }) {
                Err(e) => (t, Err(Error::Arena(e))),
                Ok((by_name, _)) => (
                    State { by_name, next_entity: (s.next_entity + 1) as u32, ..t },
                    Ok(id),
                ),
            }
        },
    }
}

/// Resolves an entity by name, creating it on first mention.
pub open spec fn entity_resolved(s: State, name: Seq<char>, now: u64) -> (
    State,
    Result<EntityId, Error>,
) {
    let norm = normalized(name);
    if norm.len() == 0 {
        (s, Err(Error::Invalid("entity name has no indexable characters")))
    } else if entity_named(s, norm) is Some {
        (s, Ok(entity_named(s, norm)->0))
    } else if s.next_entity >= NONE_U32 {
        (s, Err(Error::CapacityExceeded { what: "entity ids" }))
    } else {
        let (t, term) = term_interned(s, norm);
        match term {
            Err(e) => (t, Err(e)),
            Ok(term) => {
                let (u, blob) = text_stored(t, encode_utf8(name));
                match blob {
                    Err(e) => (u, Err(e)),
                    Ok(blob) => entity_added(u, blob, term, now),
                }
            },
        }
    }
}

/// Where the pair of a term stands, from `i` on; the length when there is
/// none.
pub open spec fn pair_at(pairs: Seq<(u32, u8)>, term: u32, i: int) -> int
    decreases pairs.len() - i,
{
    if i >= pairs.len() || pairs[i].0 == term {
        i
    } else {
        pair_at(pairs, term, i + 1)
    }
}

/// The pairs with one more occurrence of a term; counts stop at 255.
pub open spec fn bumped(pairs: Seq<(u32, u8)>, term: u32) -> Seq<(u32, u8)> {
    let i = pair_at(pairs, term, 0);
    if i < pairs.len() {
        pairs.update(
            i,
            (
                term,
                if pairs[i].1 == 255 {
                    255u8
                } else {
                    (pairs[i].1 + 1) as u8
                },
            ),
        )
    } else {
        pairs.push((term, 1u8))
    }
}

/// Interns the words of a text and counts them, in order; stops at the first
/// one that does not fit.
pub open spec fn words_counted(s: State, words: Seq<Seq<char>>) -> (
    State,
    Seq<(u32, u8)>,
    Result<(), Error>,
)
    decreases words.len(),
{
    if words.len() == 0 {
        (s, Seq::empty(), Ok(()))
    } else {
        let (t, pairs, r) = words_counted(s, words.drop_last());
        match r {
            Err(e) => (t, pairs, Err(e)),
            Ok(()) => {
                let (u, term) = term_interned(t, words.last());
                match term {
                    Err(e) => (u, pairs, Err(e)),
                    Ok(id) => (u, bumped(pairs, id.0), Ok(())),
                }
            },
        }
    }
}

/// Indexes the words of a fact.
pub open spec fn doc_added(s: State, fact: FactId, pairs: Seq<(u32, u8)>) -> (
    State,
    Result<(), Error>,
) {
    let (b, r) = bm25::doc_indexed(s.bm25, cap(s), fact, pairs);
    (State { bm25: b, ..s }, table::lifted(r))
}

/// Adds one tag to a fact: interned verbatim, inverted once.
pub open spec fn tag_added(s: State, list: Seq<u32>, tag: Seq<char>, fact: FactId) -> (
    State,
    Seq<u32>,
    Result<(), Error>,
) {
    let (t, term) = term_interned(s, tag);
    match term {
        Err(e) => (t, list, Err(e)),
        Ok(id) => if list.contains(id.0) {
            (t, list, Ok(()))
        } else {
            match postings::entry_pushed(false, t.tags_idx, cap(s), id.0, (fact.0, 1u8)) {
                Err(e) => (t, list.push(id.0), Err(Error::Arena(e))),
                Ok(tags_idx) => (State { tags_idx, ..t }, list.push(id.0), Ok(())),
            }
        },
    }
}

/// Adds the tags of a fact in turn.
pub open spec fn tags_added(s: State, tags: Seq<Seq<char>>, fact: FactId) -> (
    State,
    Seq<u32>,
    Result<(), Error>,
)
    decreases tags.len(),
{
    if tags.len() == 0 {
        (s, Seq::empty(), Ok(()))
    } else {
        let (t, list, r) = tags_added(s, tags.drop_last(), fact);
        match r {
            Err(e) => (t, list, Err(e)),
            Ok(()) => tag_added(t, list, tags.last(), fact),
        }
    }
}

/// Term ids as stored in a tag list.
pub open spec fn tag_bytes(list: Seq<u32>) -> Seq<u8> {
    parse::flat(|t: u32| codec::be32(t), list)
}

/// Stores the tag list of a fact.
pub open spec fn tags_stored(s: State, list: Seq<u32>) -> (State, Result<ListHandle, Error>) {
    if list.len() == 0 {
        (s, Ok(model::empty_handle()))
    } else {
        match heap::pushed(s.tag_lists, cap(s), cap(s), tag_bytes(list)) {
            Err(e) => (s, Err(Error::Arena(e))),
            Ok((tag_lists, id)) => (
                State { tag_lists, ..s },
                Ok(ListHandle { list: id.0, bytes: (4 * list.len()) as u32, reserved: 0 }),
            ),
        }
    }
}

/// Stores the metadata of a fact.
pub open spec fn meta_stored(s: State, pairs: Seq<(Seq<char>, Seq<char>)>) -> (
    State,
    Result<BlobId, Error>,
) {
    if pairs.len() == 0 {
        (s, Ok(BlobId(NONE_U32)))
    } else if metadata::has_duplicate(pairs) {
        (s, Err(Error::Invalid("duplicate metadata key")))
    } else {
        match heap::pushed(
            s.metas,
            cap(s),
            blob_cap(s),
            metadata::blob_of(metadata::sorted(pairs)),
        ) {
            Err(e) => (s, Err(Error::Arena(e))),
            Ok((metas, id)) => (State { metas, ..s }, Ok(id)),
        }
    }
}

/// Puts the auxiliary record of a fact in place.
pub open spec fn aux_added(s: State, a: FactAux) -> (State, Result<(), Error>) {
    match table::inserted(s.aux, cap(s), a) {
        Err(e) => (s, Err(Error::Arena(e))),
        Ok((aux, _)) => (State { aux, ..s }, Ok(())),
    }
}

/// The open version that a relation between two entities gets: it starts now,
/// or where the version it follows started, whichever is later.
pub open spec fn version_start(prior: Option<EdgeSlot>, now: u64) -> u64 {
    match prior {
        Some(e) => if e.valid_from > now {
            e.valid_from
        } else {
            now
        },
        None => now,
    }
}

/// One history table with the version at `key` closed at `t`.
pub open spec fn version_closed(rows: Seq<EdgeHistorySlot>, key: int, t: u64) -> Seq<
    EdgeHistorySlot,
> {
    match table::row_of(rows, key) {
        Some(v) => table::replaced(rows, model::closed_edge(v, t)),
        None => rows,
    }
}

/// Both history tables with the version of a current edge closed at `t`.
pub open spec fn edge_closed(s: State, e: EdgeSlot, t: u64) -> State {
    State {
        hist_out: version_closed(
            s.hist_out,
            model::edge_history_key_of(e.a, e.valid_from, e.edge),
            t,
        ),
        hist_in: version_closed(
            s.hist_in,
            model::edge_history_key_of(e.b, e.valid_from, e.edge),
            t,
        ),
        ..s
    }
}

/// An edge seen from its other end.
pub open spec fn mirrored(e: EdgeSlot) -> EdgeSlot {
    EdgeSlot { a: e.b, b: e.a, ..e }
}

/// The open history version of a current edge.
pub open spec fn version_of(e: EdgeSlot, now: u64) -> EdgeHistorySlot {
    EdgeHistorySlot {
        a: e.a,
        valid_from: e.valid_from,
        edge: e.edge,
        rel: e.rel,
        b: e.b,
        fact: e.fact,
        flags: 0,
        kind: 0,
        recorded_at: now,
        valid_to: VALID_TO_OPEN,
    }
}

/// A history version seen from its other end.
pub open spec fn version_mirrored(v: EdgeHistorySlot) -> EdgeHistorySlot {
    EdgeHistorySlot { a: v.b, b: v.a, ..v }
}

/// Adds one version to both history tables.
pub open spec fn version_added(s: State, v: EdgeHistorySlot) -> (State, Result<(), Error>) {
    match table::inserted(s.hist_out, cap(s), v) {
        Err(e) => (s, Err(Error::Arena(e))),
        Ok((hist_out, _)) => {
            let t = State { hist_out, ..s };
            match table::inserted(s.hist_in, cap(s), version_mirrored(v)) {
                Err(e) => (t, Err(Error::Arena(e))),
                Ok((hist_in, _)) => (State { hist_in, ..t }, Ok(())),
            }
        },
    }
}

/// One table with `row` put in, over a row of the same key.
pub open spec fn upserted<T: Slot>(rows: Seq<T>, max_bytes: int, row: T) -> Result<
    Seq<T>,
    ArenaError,
> {
    match table::inserted(rows, max_bytes, row) {
        Err(e) => Err(e),
        Ok((out, fresh)) => if fresh {
            Ok(out)
        } else {
            Ok(table::replaced(rows, row))
        },
    }
}

/// Puts a current edge into both tables.
pub open spec fn current_added(s: State, e: EdgeSlot) -> (State, Result<(), Error>) {
    match upserted(s.edges_out, cap(s), e) {
        Err(err) => (s, Err(Error::Arena(err))),
        Ok(edges_out) => {
            let t = State { edges_out, ..s };
            match upserted(s.edges_in, cap(s), mirrored(e)) {
                Err(err) => (t, Err(Error::Arena(err))),
                Ok(edges_in) => (State { edges_in, ..t }, Ok(())),
            }
        },
    }
}

/// Links two entities: an existing edge between them is closed and a new
/// version opened, so that its provenance is the new one.
pub open spec fn edge_upserted(
    s: State,
    src: EntityId,
    rel: TermId,
    dst: EntityId,
    fact: FactId,
    now: u64,
) -> (State, Result<(), Error>) {
    let prior = table::row_of(s.edges_out, model::edge_key_of(src, rel, dst));
    let start = version_start(prior, now);
    let edge = EdgeId(s.next_edge);
    let e = EdgeSlot { a: src, rel, b: dst, fact, edge, valid_from: start };
    if s.next_edge >= NONE_U32 {
        (s, Err(Error::CapacityExceeded { what: "edge ids" }))
    } else {
        let t = match prior {
            Some(o) => edge_closed(s, o, start),
            None => s,
        };
        let u = State { next_edge: (s.next_edge + 1) as u32, ..t };
        let (v, r) = version_added(u, version_of(e, now));
        match r {
            Err(err) => (v, Err(err)),
            Ok(()) => current_added(v, e),
        }
    }
}

/// One link of a new fact: its subject to the named entity.
pub open spec fn link_added(
    s: State,
    src: EntityId,
    link: (Seq<char>, Seq<char>),
    fact: FactId,
    now: u64,
) -> (State, Result<(), Error>) {
    let (t, dst) = entity_resolved(s, link.1, now);
    match dst {
        Err(e) => (t, Err(e)),
        Ok(dst) => {
            let (u, rel) = term_interned(t, link.0);
            match rel {
                Err(e) => (u, Err(e)),
                Ok(rel) => edge_upserted(u, src, rel, dst, fact, now),
            }
        },
    }
}

/// The links of a new fact in turn.
pub open spec fn links_added(
    s: State,
    src: EntityId,
    links: Seq<(Seq<char>, Seq<char>)>,
    fact: FactId,
    now: u64,
) -> (State, Result<(), Error>)
    decreases links.len(),
{
    if links.len() == 0 {
        (s, Ok(()))
    } else {
        let (t, r) = links_added(s, src, links.drop_last(), fact, now);
        match r {
            Err(e) => (t, Err(e)),
            Ok(()) => link_added(t, src, links.last(), fact, now),
        }
    }
}

/// Lists a fact under its subject.
pub open spec fn subject_listed(s: State, src: EntityId, fact: FactId) -> (
    State,
    Result<(), Error>,
) {
    match postings::entry_pushed(false, s.entity_facts, cap(s), src.0, (fact.0, 1u8)) {
        Err(e) => (s, Err(Error::Arena(e))),
        Ok(entity_facts) => (State { entity_facts, ..s }, Ok(())),
    }
}

/// The links and the listing of a fact that has a subject.
pub open spec fn subject_linked(
    s: State,
    entity: Option<EntityId>,
    links: Seq<(Seq<char>, Seq<char>)>,
    fact: FactId,
    now: u64,
) -> (State, Result<(), Error>) {
    match entity {
        None => (s, Ok(())),
        Some(src) => {
            let (t, r) = links_added(s, src, links, fact, now);
            match r {
                Err(e) => (t, Err(e)),
                Ok(()) => subject_listed(t, src, fact),
            }
        },
    }
}

/// Puts the record of a new fact in place and counts it.
pub open spec fn record_added(s: State, f: FactRecord) -> (State, Result<(), Error>) {
    match table::inserted(s.facts, cap(s), f) {
        Err(e) => (s, Err(Error::Arena(e))),
        Ok((facts, _)) => {
            let t = State { facts, ..s };
            match table::inserted(
                s.temporal,
                cap(s),
                TemporalSlot { recorded_at: f.recorded_at, fact: f.id },
            ) {
                Err(e) => (t, Err(Error::Arena(e))),
                Ok((temporal, _)) => (
                    State { temporal, next_fact: (s.next_fact + 1) as u32, ..t },
                    Ok(()),
                ),
            }
        },
    }
}

/// The subject of an input, resolved or created.
pub open spec fn subject_resolved(s: State, input: InputView) -> (
    State,
    Result<Option<EntityId>, Error>,
) {
    match input.entity {
        None => (s, Ok(None)),
        Some(name) => {
            let (t, r) = entity_resolved(s, name, input.now);
            match r {
                Err(e) => (t, Err(e)),
                Ok(id) => (t, Ok(Some(id))),
            }
        },
    }
}

/// The record that a new fact gets.
pub open spec fn new_record(
    id: FactId,
    entity: Option<EntityId>,
    text: BlobId,
    revises: FactId,
    input: InputView,
) -> FactRecord {
    FactRecord {
        id,
        entity: match entity {
            Some(e) => e,
            None => EntityId(NONE_U32),
        },
        flags: 0,
        kind: 0,
        text,
        vector: NONE_U32,
        revises,
        recorded_at: input.now,
        valid_from: start_of(input),
        valid_to: VALID_TO_OPEN,
    }
}

/// The part of a new fact behind its text and words: tags, metadata, links
/// and the record itself.
pub open spec fn fact_finished(
    s: State,
    entity: Option<EntityId>,
    text: BlobId,
    input: InputView,
    revises: FactId,
) -> (State, Result<(), Error>) {
    let id = FactId(s.next_fact);
    let (t1, list, r1) = tags_added(s, input.tags, id);
    match r1 {
        Err(e) => (t1, Err(e)),
        Ok(()) => {
            let (t2, r2) = tags_stored(t1, list);
            match r2 {
                Err(e) => (t2, Err(e)),
                Ok(handle) => {
                    let (t3, r3) = meta_stored(t2, input.metadata);
                    match r3 {
                        Err(e) => (t3, Err(e)),
                        Ok(meta) => {
                            let (t4, r4) = aux_added(t3, FactAux { id, tags: handle, meta });
                            match r4 {
                                Err(e) => (t4, Err(e)),
                                Ok(()) => {
                                    let (t5, r5) = subject_linked(
                                        t4,
                                        entity,
                                        input.links,
                                        id,
                                        input.now,
                                    );
                                    match r5 {
                                        Err(e) => (t5, Err(e)),
                                        Ok(()) => record_added(
                                            t5,
                                            new_record(id, entity, text, revises, input),
                                        ),
                                    }
                                },
                            }
                        },
                    }
                },
            }
        },
    }
}

/// A name that no entity can have: nothing of it can be indexed.
pub open spec fn nameless(name: Seq<char>) -> bool {
    normalized(name).len() == 0
}

/// The subject of a fact, or the target of one of its links, is
/// [`nameless`].
pub open spec fn unnamed(input: InputView) -> bool {
    input.entity matches Some(name) && (nameless(name) || exists|i: int|
        0 <= i < input.links.len() && nameless((#[trigger] input.links[i]).1))
}

/// The whole of a new fact: its id and its subject. The names are checked
/// before anything is written.
#[verifier::opaque]
pub open spec fn remembered(s: State, input: InputView, revises: FactId) -> (
    State,
    Result<(FactId, Option<EntityId>), Error>,
) {
    let id = FactId(s.next_fact);
    if s.next_fact >= NONE_U32 {
        (s, Err(Error::CapacityExceeded { what: "fact ids" }))
    } else if unnamed(input) {
        (s, Err(Error::Invalid("entity name has no indexable characters")))
    } else {
        let (t1, r1) = subject_resolved(s, input);
        match r1 {
            Err(e) => (t1, Err(e)),
            Ok(entity) => {
                let (t2, r2) = text_stored(t1, encode_utf8(input.text));
                match r2 {
                    Err(e) => (t2, Err(e)),
                    Ok(text) => {
                        let (t3, pairs, r3) = words_counted(t2, tokens(input.text));
                        match r3 {
                            Err(e) => (t3, Err(e)),
                            Ok(()) => {
                                let (t4, r4) = doc_added(t3, id, pairs);
                                match r4 {
                                    Err(e) => (t4, Err(e)),
                                    Ok(()) => {
                                        let (t5, r5) = fact_finished(
                                            t4,
                                            entity,
                                            text,
                                            input,
                                            revises,
                                        );
                                        match r5 {
                                            Err(e) => (t5, Err(e)),
                                            Ok(()) => (t5, Ok((id, entity))),
                                        }
                                    },
                                }
                            },
                        }
                    },
                }
            },
        }
    }
}

/// A fact with its validity ended at `t`.
pub open spec fn fact_closed_at(f: FactRecord, t: u64) -> FactRecord {
    FactRecord { flags: f.flags | model::fact_flags::CLOSED, valid_to: t, ..f }
}

/// The state with a fact's validity ended where its successor's starts.
pub open spec fn target_closed(s: State, target: FactId, t: u64) -> State {
    match fact_of(s, target) {
        Some(f) => State { facts: table::replaced(s.facts, fact_closed_at(f, t)), ..s },
        None => s,
    }
}

/// A forgotten fact.
pub open spec fn fact_forgotten(f: FactRecord) -> FactRecord {
    FactRecord { flags: f.flags | model::fact_flags::TOMBSTONE, ..f }
}

/// Forgetting a fact; `false` when it was forgotten already.
pub open spec fn forgotten(s: State, fact: FactId) -> (State, Result<bool, Error>) {
    match fact_of(s, fact) {
        None => (s, Err(Error::NotFound(fact))),
        Some(f) => if f.tombstone() {
            (s, Ok(false))
        } else {
            (
                State {
                    facts: table::replaced(s.facts, fact_forgotten(f)),
                    tombstones: if s.tombstones == usize::MAX {
                        usize::MAX
                    } else {
                        (s.tombstones + 1) as usize
                    },
                    ..s
                },
                Ok(true),
            )
        },
    }
}

/// Linking two named entities.
pub open spec fn linked(
    s: State,
    now: u64,
    src: Seq<char>,
    rel: Seq<char>,
    dst: Seq<char>,
    provenance: FactId,
) -> (State, Result<(), Error>) {
    let (t, a) = entity_resolved(s, src, now);
    match a {
        Err(e) => (t, Err(e)),
        Ok(a) => link_added(t, a, (rel, dst), provenance, now),
    }
}

/// The journal record of a new fact.
pub open spec fn remember_op(input: InputView, revises: FactId, assigned: FactId) -> OpView {
    OpView::Remember {
        now: input.now,
        valid_from: start_of(input),
        entity: input.entity,
        text: input.text,
        tags: input.tags,
        links: input.links,
        vector: Seq::empty(),
        metadata: input.metadata,
        revises,
        assigned,
    }
}

/// The framed journal entry of an operation.
pub open spec fn entry_of(op: OpView) -> Seq<u8> {
    journal::frame(journal::op_tag(op), journal::op_payload(op))
}

/// An operation whose entry the journal can frame.
pub open spec fn journalable(op: OpView) -> bool {
    journal::op_payload(op).len() < u32::MAX
}

/// What reading a fact returns: its record and its text. A forgotten fact, and
/// one whose stored text is not valid, is not there.
pub open spec fn read_fact(s: State, fact: FactId) -> Option<(FactRecord, Seq<char>)> {
    match fact_of(s, fact) {
        None => None,
        Some(f) => if f.tombstone() || !valid_utf8(s.texts[f.text.0 as int]) {
            None
        } else {
            Some((f, decode_utf8(s.texts[f.text.0 as int])))
        },
    }
}

/// The tags of a fact; none of an unknown or forgotten one.
pub open spec fn fact_tags(s: State, fact: FactId) -> Seq<TermId> {
    match (fact_of(s, fact), table::row_of(s.aux, fact.0 as int)) {
        (Some(f), Some(a)) => if f.tombstone() || a.tags == model::empty_handle() {
            Seq::empty()
        } else {
            Seq::new(
                (a.tags.bytes / 4) as nat,
                |k: int| TermId(tag_at(s.tag_lists[a.tags.list as int], k) as u32),
            )
        },
        _ => Seq::empty(),
    }
}

/// The entity of a name, without creating it.
pub open spec fn entity_found(s: State, name: Seq<char>) -> Option<EntityId> {
    if normalized(name).len() == 0 {
        None
    } else {
        entity_named(s, normalized(name))
    }
}

/// The known terms among some words, each once, in order of first occurrence.
pub open spec fn term_set(s: State, words: Seq<Seq<char>>) -> Seq<u32>
    decreases words.len(),
{
    if words.len() == 0 {
        Seq::empty()
    } else {
        let front = term_set(s, words.drop_last());
        match interner::lookup_of(s.terms, words.last()) {
            Some(t) => if front.contains(t.0) {
                front
            } else {
                front.push(t.0)
            },
            None => front,
        }
    }
}

/// How many of the first `n` of `xs` are in `ys`.
pub open spec fn shared(xs: Seq<u32>, ys: Seq<u32>, n: nat) -> nat
    decreases n,
{
    if n == 0 {
        0
    } else {
        shared(xs, ys, (n - 1) as nat) + (if ys.contains(xs[n - 1]) {
            1nat
        } else {
            0
        })
    }
}

/// The facts of a list other than `fact`, at most the last `n` of them.
pub open spec fn recent(xs: Seq<postings::Entry>, fact: FactId, n: nat) -> Seq<FactId>
    decreases xs.len(),
{
    if xs.len() == 0 || n == 0 {
        Seq::empty()
    } else if xs.last().0 == fact.0 {
        recent(xs.drop_last(), fact, n)
    } else {
        recent(xs.drop_last(), fact, (n - 1) as nat).push(FactId(xs.last().0))
    }
}

/// The term sets of two facts, compared: the shared terms and all terms.
pub struct OverlapView {
    pub id: FactId,
    pub both: nat,
    pub union: nat,
}

/// The overlap of a current fact with a set of terms.
pub open spec fn overlap_with(s: State, own: Seq<u32>, fact: FactId) -> Option<OverlapView> {
    match read_fact(s, fact) {
        None => None,
        Some((f, text)) => {
            let terms = term_set(s, tokens(text));
            let both = shared(terms, own, terms.len());
            if f.closed() || terms.len() == 0 {
                None
            } else {
                Some(OverlapView { id: fact, both, union: (terms.len() + own.len() - both) as nat })
            }
        },
    }
}

/// The overlaps of a set of terms with some facts.
pub open spec fn overlaps_with(s: State, own: Seq<u32>, facts: Seq<FactId>) -> Seq<OverlapView>
    decreases facts.len(),
{
    if facts.len() == 0 {
        Seq::empty()
    } else {
        let front = overlaps_with(s, own, facts.drop_last());
        match overlap_with(s, own, facts.last()) {
            Some(o) => front.push(o),
            None => front,
        }
    }
}

/// The most recent facts of the same subject examined for similarity.
pub const SIMILAR_CANDIDATE_CAP: usize = 32;

/// The overlaps of a fact with the most recent other facts of its subject.
pub open spec fn overlaps(s: State, fact: FactId, entity: Option<EntityId>) -> Seq<OverlapView> {
    match (entity, read_fact(s, fact)) {
        (Some(e), Some((f, text))) => {
            let own = term_set(s, tokens(text));
            if own.len() == 0 {
                Seq::empty()
            } else {
                overlaps_with(
                    s,
                    own,
                    recent(
                        postings::entries_of(s.entity_facts, e.0),
                        fact,
                        SIMILAR_CANDIDATE_CAP as nat,
                    ),
                )
            }
        },
        _ => Seq::empty(),
    }
}

/// The input that a journal record of a new fact stands for.
pub open spec fn input_of(
    now: u64,
    valid_from: u64,
    entity: Option<Seq<char>>,
    text: Seq<char>,
    tags: Seq<Seq<char>>,
    links: Seq<(Seq<char>, Seq<char>)>,
    metadata: Seq<(Seq<char>, Seq<char>)>,
) -> InputView {
    InputView { now, text, entity, tags, links, metadata, valid_from: Some(valid_from) }
}

/// The components of a journaled vector.
pub open spec fn vector_bits(vector: Seq<u32>) -> Seq<F32Bits> {
    vector.map_values(|x: u32| F32Bits(x))
}

/// Why a journaled vector is refused: it cannot be quantized, or it could and
/// there is nobody to do so. Quantizing is the host's work, and a replay has
/// no host.
pub open spec fn vector_refused(dim: usize, vector: Seq<u32>) -> Error {
    match vecpool::vector_error(dim, vector_bits(vector)) {
        Some(e) => e,
        None => Error::Invalid("journaled vectors cannot be replayed"),
    }
}

/// Applying the journal record of a new fact; `false` when it was applied
/// before. A record with a vector is refused.
pub open spec fn remember_replayed(
    s: State,
    input: InputView,
    vector: Seq<u32>,
    revises: FactId,
    assigned: FactId,
) -> (State, Result<bool, Error>) {
    if assigned.0 < s.next_fact {
        (s, Ok(false))
    } else if assigned.0 != s.next_fact {
        (s, Err(Error::Corrupt("journal fact ids are not contiguous")))
    } else if revises.0 != NONE_U32 && revise_error(s, revises) is Some {
        (s, Err(Error::Corrupt("journal revises an unrevisable fact")))
    } else if vector.len() > 0 {
        (s, Err(vector_refused(s.cfg.dim, vector)))
    } else if input.tags.len() > 32 {
        (s, Err(Error::Corrupt("journal record carries too many tags")))
    } else {
        let (t, r) = remembered(s, input, revises);
        match r {
            Err(e) => (t, Err(e)),
            Ok(_) => if revises.0 == NONE_U32 {
                (t, Ok(true))
            } else {
                (target_closed(t, revises, start_of(input)), Ok(true))
            },
        }
    }
}

/// A batch of new facts in turn; stops at the first refusal or failure.
pub open spec fn batched(s: State, inputs: Seq<InputView>) -> (
    State,
    Seq<(FactId, Option<EntityId>)>,
    Result<(), Error>,
)
    decreases inputs.len(),
{
    if inputs.len() == 0 {
        (s, Seq::empty(), Ok(()))
    } else {
        let (t, out, r) = batched(s, inputs.drop_last());
        match r {
            Err(e) => (t, out, Err(e)),
            Ok(()) => match input_error(t, inputs.last()) {
                Some(e) => (t, out, Err(e)),
                None => {
                    let (u, one) = remembered(t, inputs.last(), FactId(NONE_U32));
                    match one {
                        Err(e) => (u, out, Err(e)),
                        Ok(pair) => (u, out.push(pair), Ok(())),
                    }
                },
            },
        }
    }
}

/// The journal entries of a batch whose first fact gets the id `next`.
pub open spec fn batch_entries(inputs: Seq<InputView>, next: int) -> Seq<u8>
    decreases inputs.len(),
{
    if inputs.len() == 0 {
        Seq::empty()
    } else {
        batch_entries(inputs.drop_last(), next) + entry_of(
            remember_op(
                inputs.last(),
                FactId(NONE_U32),
                FactId((next + inputs.len() - 1) as u32),
            ),
        )
    }
}

} // verus!
