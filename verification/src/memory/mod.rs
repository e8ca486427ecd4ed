//! The engine: data model state, verbs, journaling and replay.
//!
//! Every mutating verb journals itself through the caller's [`Storage`] and is
//! replayed through the same internal path on open. The journal's ids are
//! authoritative, so replay is deterministic and idempotent over a reapplied
//! tail.

pub mod accepted;
pub mod compaction;
pub mod cursor;
pub mod disk_first;
pub mod given;
pub mod graph;
pub mod history;
pub mod indexing;
pub mod integrity;
pub mod joined;
pub mod kind;
pub mod legacy_kind;
pub mod links;
pub mod load;
pub mod maintain;
pub mod migrations;
pub mod open;
pub mod persist;
pub mod recall;
pub mod reembed;
pub mod reopen;
pub mod replay;
pub mod shards;
pub mod similar;
pub mod state;
pub mod still_found;
pub mod tagging;
pub mod tag_counts;
pub mod tags;
pub mod timeline;
pub mod whole;
pub mod word_counts;

use crate::codec;
use crate::codec::{get_be32, put_be32};
use crate::config;
use crate::config::Config;
use crate::error::{ArenaError, Error};
use crate::float::F32Bits;
use crate::heap::BlobHeap;
use crate::id::{BlobId, EdgeId, EntityId, FactId, TermId, NONE_U32};
use crate::index::bm25;
use crate::index::bm25::Bm25Index;
use crate::index::hnsw::HnswGraph;
use crate::index::postings;
use crate::index::postings::PostingStore;
use crate::index::rank;
use crate::index::rank::{rank_top, Scored};
use crate::index::vecpool::VecPool;
use crate::index::IdListIndex;
use crate::interner;
use crate::interner::Interner;
use crate::journal;
use crate::journal::{Op, OpView};
use crate::metadata;
use crate::model;
use crate::model::{
    close_edge_history, edge_history_key, edge_key, EdgeHistorySlot, EdgeSlot, EntityByName,
    EntityRecord, FactAux, FactRecord, ListHandle, Slot, TemporalSlot, VALID_TO_OPEN,
};
use crate::parse;
use crate::storage::Storage;
use crate::table;
use crate::table::{arena_err, Table};
use crate::text;
use crate::text::{push_char, str_from_utf8};
use crate::tokenizer;
use crate::tokenizer::emit;
use crate::tokenizer::Tokenizer;
use self::state::{InputView, State};
use vstd::prelude::*;
use vstd::string::*;
use vstd::utf8::*;

verus! {

/// Version of the tokenizer semantics used by the lexical index. Snapshots
/// persist the value; a mismatch asks for a reindex.
pub const TOKENIZER_INDEX_VERSION: u32 = 1;

/// Input of `remember` and `revise`.
#[derive(Clone, Copy, Debug)]
pub struct RememberInput<'a> {
    /// Host timestamp, unix milliseconds.
    pub now: u64,
    /// Fact text, at most `Config::max_text` bytes.
    pub text: &'a str,
    /// Subject entity name; created lazily on first mention.
    pub entity: Option<&'a str>,
    /// Tags, verbatim strings, at most 32.
    pub tags: &'a [&'a str],
    /// `(rel, target_entity)` pairs, at most 16; edges go subject to target.
    pub links: &'a [(&'a str, &'a str)],
    /// Metadata key-value pairs; keys are distinct.
    pub metadata: &'a [(&'a str, &'a str)],
    /// Validity start; defaults to `now`.
    pub valid_from: Option<u64>,
}

impl<'a> View for RememberInput<'a> {
    type V = InputView;

    open spec fn view(&self) -> InputView {
        InputView {
            now: self.now,
            text: self.text@,
            entity: journal::opt_view(self.entity),
            tags: journal::str_views(self.tags@),
            links: journal::pair_views(self.links@),
            metadata: journal::pair_views(self.metadata@),
            valid_from: self.valid_from,
        }
    }
}

impl<'a> RememberInput<'a> {
    /// A minimal input: text only.
    pub fn text(now: u64, text: &'a str) -> (r: RememberInput<'a>)
        ensures
            r@ == (InputView {
                now,
                text: text@,
                entity: None,
                tags: Seq::empty(),
                links: Seq::empty(),
                metadata: Seq::empty(),
                valid_from: None,
            }),
    {
        let tags: &'a [&'a str] = &[];
        let links: &'a [(&'a str, &'a str)] = &[];
        let metadata: &'a [(&'a str, &'a str)] = &[];
        assert(journal::str_views(tags@) =~= Seq::empty());
        assert(journal::pair_views(links@) =~= Seq::empty());
        assert(journal::pair_views(metadata@) =~= Seq::empty());
        RememberInput { now, text, entity: None, tags, links, metadata, valid_from: None }
    }
}

/// Input of `link`.
#[derive(Clone, Copy, Debug)]
pub struct LinkInput<'a> {
    /// Host timestamp, unix milliseconds.
    pub now: u64,
    /// Source entity name (created lazily).
    pub src: &'a str,
    /// Relation term, verbatim.
    pub rel: &'a str,
    /// Destination entity name (created lazily).
    pub dst: &'a str,
    /// Optional provenance fact.
    pub provenance: Option<FactId>,
}

/// How the words of an earlier fact overlap those of a new one: the Jaccard
/// overlap of the two term sets is `both / union`.
#[derive(Clone, Copy, Debug, PartialEq, Eq, Structural)]
pub struct Overlap {
    /// The existing fact.
    pub id: FactId,
    /// Terms that both facts hold.
    pub both: usize,
    /// Terms that either fact holds.
    pub union: u128,
}

impl View for Overlap {
    type V = state::OverlapView;

    open spec fn view(&self) -> state::OverlapView {
        state::OverlapView { id: self.id, both: self.both as nat, union: self.union as nat }
    }
}

pub open spec fn overlap_views(xs: Seq<Overlap>) -> Seq<state::OverlapView> {
    xs.map_values(|o: Overlap| o@)
}

/// Result of `remember` and `revise`.
#[derive(Clone, Debug)]
pub struct RememberOutcome {
    /// The new fact's id.
    pub id: FactId,
    /// The subject entity (resolved or created), if one was named.
    pub entity: Option<EntityId>,
    /// The current facts of the same subject, with their term overlap. The
    /// engine never revises on its own; it surfaces the candidates.
    pub similar: Vec<Overlap>,
}

/// One similar-fact hint.
#[derive(Clone, Copy, Debug, PartialEq, Eq, Structural)]
pub struct Similar {
    /// The existing fact.
    pub id: FactId,
    /// Match strength: the Jaccard overlap of the term sets.
    pub score: F32Bits,
    /// What triggered the hint.
    pub reason: SimilarReason,
}

/// Why a fact was flagged as similar.
#[derive(Clone, Copy, Debug, PartialEq, Eq, Structural)]
pub enum SimilarReason {
    /// Same subject entity and a term-set overlap above the configured
    /// threshold.
    LexicalOverlap,
}

/// Most hints returned for one fact.
pub const MAX_SIMILAR: usize = 8;

/// The best hints among the overlaps that passed the threshold, best first.
pub fn rank_similar(scored: &Vec<Scored>) -> (r: Vec<Similar>)
    ensures
        r@ == rank::top(scored@, MAX_SIMILAR as int).map_values(
            |x: Scored|
                Similar { id: FactId(x.1), score: x.0, reason: SimilarReason::LexicalOverlap },
        ),
{
    let best: Vec<Scored> = rank_top(scored, MAX_SIMILAR);
    let mut out: Vec<Similar> = Vec::new();
    let ghost f = |x: Scored|
        Similar { id: FactId(x.1), score: x.0, reason: SimilarReason::LexicalOverlap };
    let mut i: usize = 0;
    while i < best.len()
        invariant
            i <= best@.len(),
            f == (|x: Scored|
                Similar { id: FactId(x.1), score: x.0, reason: SimilarReason::LexicalOverlap }),
            out@ == best@.take(i as int).map_values(f),
        decreases best@.len() - i,
    {
        out.push(
            Similar {
                id: FactId(best[i].1),
                score: best[i].0,
                reason: SimilarReason::LexicalOverlap,
            },
        );
        i = i + 1;
        assert(out@ =~= best@.take(i as int).map_values(f));
    }
    assert(best@.take(i as int) =~= best@);
    out
}

/// A read view of one fact.
#[derive(Clone, Copy, Debug)]
pub struct FactView<'a> {
    /// The raw record (temporality, flags, references).
    pub record: FactRecord,
    /// The fact text.
    pub text: &'a str,
}

/// Report of an `open`: what the journal replay found.
#[derive(Clone, Copy, Debug, PartialEq, Eq, Structural)]
pub struct OpenReport {
    /// Journal records applied.
    pub replayed: usize,
    /// Journal records skipped as already contained in the snapshot.
    pub skipped: usize,
    /// A torn tail record was dropped (crash between appends).
    pub truncated_tail: bool,
}

/// The memory engine.
pub struct Memory {
    cfg: Config,
    facts: Table<FactRecord>,
    fact_aux: Table<FactAux>,
    entities: Table<EntityRecord>,
    by_name: Table<EntityByName>,
    edges_out: Table<EdgeSlot>,
    edges_in: Table<EdgeSlot>,
    edges_hist_out: Table<EdgeHistorySlot>,
    edges_hist_in: Table<EdgeHistorySlot>,
    temporal: Table<TemporalSlot>,
    /// Fact texts and canonical entity names.
    texts: BlobHeap,
    /// Metadata blobs.
    metas: BlobHeap,
    /// Tokens, tags (verbatim), relation names, normalized entity names.
    terms: Interner,
    /// Per-fact tag lists.
    tag_lists: BlobHeap,
    bm25: Bm25Index,
    tags_idx: IdListIndex,
    entity_facts: IdListIndex,
    vecs: VecPool,
    hnsw: HnswGraph,
    next_fact: u32,
    next_entity: u32,
    next_edge: u32,
    tombstones: usize,
    bm25_tokenizer_version: u32,
    /// Which model the vectors come from, where that is tracked.
    vector_space: Option<String>,
    tokenizer: Tokenizer,
}

impl View for Memory {
    type V = State;

    closed spec fn view(&self) -> State {
        State {
            cfg: self.cfg,
            facts: self.facts@,
            aux: self.fact_aux@,
            entities: self.entities@,
            by_name: self.by_name@,
            edges_out: self.edges_out@,
            edges_in: self.edges_in@,
            hist_out: self.edges_hist_out@,
            hist_in: self.edges_hist_in@,
            temporal: self.temporal@,
            texts: self.texts@,
            metas: self.metas@,
            terms: self.terms@,
            tag_lists: self.tag_lists@,
            bm25: self.bm25@,
            tags_idx: self.tags_idx@,
            entity_facts: self.entity_facts@,
            vecs: self.vecs@,
            graph: self.hnsw@,
            next_fact: self.next_fact,
            next_entity: self.next_entity,
            next_edge: self.next_edge,
            tombstones: self.tombstones,
            tokenizer_version: self.bm25_tokenizer_version,
            space: space_view(self.vector_space),
        }
    }
}

/// The identity of a vector space, where there is one.
pub open spec fn space_view(space: Option<String>) -> Option<Seq<char>> {
    match space {
        Some(name) => Some(name@),
        None => None,
    }
}

/// A list index with one more entry keeps its ids below the new bound.
pub(crate) proof fn lemma_listed(v: Seq<postings::List>, key: u32, fact: u32)
    requires
        postings::lists_ok(false, v),
        bm25::ids_below(v, fact as int),
    ensures
        bm25::ids_below(postings::with_entry(v, key, (fact, 1u8)), fact + 1),
{
    let e = (fact, 1u8);
    postings::appending_touches_one_list(false, v, key, e);
    let out = postings::with_entry(v, key, e);
    assert forall|k: u32| (#[trigger] postings::entries_of(out, k)).len() > 0 implies
        postings::entries_of(out, k).last().0 < fact + 1 by {
        if k != key {
            assert(postings::entries_of(out, k) == postings::entries_of(v, k));
        }
    }
}

/// The record of one more fact is in place, and every other fact is as it was.
pub open spec fn added(s: State, t: State, f: FactRecord) -> bool {
    &&& state::fact_of(t, f.id) == Some(f)
    &&& forall|other: FactId|
        other != f.id ==> #[trigger] state::fact_of(t, other) == state::fact_of(s, other)
}

/// A fact was recorded under the next id: it is read back as it was given, and
/// every other fact is as it was.
pub open spec fn recorded(
    s: State,
    t: State,
    id: FactId,
    entity: Option<EntityId>,
    revises: FactId,
    input: InputView,
) -> bool {
    &&& id.0 == s.next_fact
    &&& t.next_fact == s.next_fact + 1
    &&& state::fact_of(t, id) matches Some(f) && f == state::new_record(
        id,
        entity,
        f.text,
        revises,
        input,
    )
    &&& state::read_fact(t, id) == Some((state::fact_of(t, id)->0, input.text))
    &&& forall|other: FactId|
        other != id ==> #[trigger] state::fact_of(t, other) == state::fact_of(s, other)
}

proof fn lemma_fresh(s: State, id: FactId)
    requires
        state::refs(s),
        id.0 >= s.next_fact,
    ensures
        !table::has_key(s.facts, id.0 as int),
{
    if table::has_key(s.facts, id.0 as int) {
        let i = choose|i: int|
            0 <= i < s.facts.len() && (#[trigger] s.facts[i]).key() == id.0 as int;
        assert(state::fact_ok(s, s.facts[i]));
    }
}

/// Nothing but entities, edges, terms and texts changed.
pub open spec fn kept(s: State, t: State) -> bool {
    t == (State {
        entities: t.entities,
        by_name: t.by_name,
        terms: t.terms,
        texts: t.texts,
        edges_out: t.edges_out,
        edges_in: t.edges_in,
        hist_out: t.hist_out,
        hist_in: t.hist_in,
        next_entity: t.next_entity,
        next_edge: t.next_edge,
        ..s
    })
}

/// The handle names a stored list of exactly these terms, or none for none.
pub open spec fn names_list(s: State, h: ListHandle, list: Seq<u32>) -> bool {
    if list.len() == 0 {
        h == model::empty_handle()
    } else {
        &&& h.list < s.tag_lists.len()
        &&& h.list < NONE_U32
        &&& s.tag_lists[h.list as int] == state::tag_bytes(list)
        &&& h.bytes == 4 * list.len()
        &&& h.reserved == 0
    }
}

/// A handle that names a list of known terms is in order.
pub(crate) proof fn lemma_tags_ok(s: State, h: ListHandle, list: Seq<u32>)
    requires
        names_list(s, h, list),
        forall|k: int| 0 <= k < list.len() ==> (#[trigger] list[k]) < s.terms.len(),
    ensures
        state::tags_ok(s, h),
{
    if list.len() > 0 {
        lemma_tag_at(list, 0);
        assert forall|k: int| 0 <= k < h.bytes / 4 implies #[trigger] state::tag_at(
            s.tag_lists[h.list as int],
            k,
        ) < s.terms.len() by {
            lemma_tag_at(list, k);
        }
    }
}

/// Everything that a state refers to is still there, under the same ids.
pub open spec fn grows(s: State, t: State) -> bool {
    &&& s.texts.len() <= t.texts.len()
    &&& s.metas.len() <= t.metas.len()
    &&& s.terms.len() <= t.terms.len()
    &&& s.next_fact <= t.next_fact
    &&& s.next_entity <= t.next_entity
    &&& s.tag_lists.len() <= t.tag_lists.len()
    &&& forall|i: int| 0 <= i < s.tag_lists.len() ==> #[trigger] t.tag_lists[i] == s.tag_lists[i]
    &&& forall|i: int| 0 <= i < s.texts.len() ==> #[trigger] t.texts[i] == s.texts[i]
    &&& forall|i: int| 0 <= i < s.terms.len() ==> #[trigger] t.terms[i] == s.terms[i]
}

/// A fact that can be read stays readable while only the stores behind it
/// grow.
proof fn lemma_readable(s: State, t: State)
    requires
        grows(s, t),
        t.facts == s.facts,
        t.aux == s.aux,
    ensures
        state::readable(s) ==> state::readable(t),
{
    reveal(state::readable);
    if state::readable(s) {
        assert forall|i: int| 0 <= i < t.aux.len() implies state::aux_ok(
            t,
            #[trigger] t.aux[i],
        ) by {
            let h = s.aux[i].tags;
            assert(state::aux_ok(s, s.aux[i]));
            if h != model::empty_handle() {
                assert(t.tag_lists[h.list as int] == s.tag_lists[h.list as int]);
            }
        }
    }
}

/// Counting a fact and listing it by time does not change what can be read.
proof fn lemma_later(s: State)
    requires
        state::readable(s),
    ensures
        forall|temporal: Seq<TemporalSlot>, next_fact: u32| #[trigger]
            state::readable((State { temporal, next_fact, ..s })),
        forall|temporal: Seq<TemporalSlot>| #[trigger]
            state::readable((State { temporal, ..s })),
{
    reveal(state::readable);
    assert forall|temporal: Seq<TemporalSlot>, next_fact: u32| #[trigger]
        state::readable((State { temporal, next_fact, ..s })) by {
        let t = State { temporal, next_fact, ..s };
        assert forall|i: int| 0 <= i < t.aux.len() implies state::aux_ok(
            t,
            #[trigger] t.aux[i],
        ) by {
            assert(state::aux_ok(s, s.aux[i]));
        }
    }
    assert forall|temporal: Seq<TemporalSlot>| #[trigger]
        state::readable((State { temporal, ..s })) by {
        let t = State { temporal, ..s };
        assert forall|i: int| 0 <= i < t.aux.len() implies state::aux_ok(
            t,
            #[trigger] t.aux[i],
        ) by {
            assert(state::aux_ok(s, s.aux[i]));
        }
    }
}

proof fn lemma_refs_readable(s: State)
    ensures
        state::refs(s) ==> state::readable(s),
{
    reveal(state::readable);
    if state::refs(s) {
        assert forall|i: int| 0 <= i < s.facts.len() implies (#[trigger] s.facts[i]).text.0
            < s.texts.len() by {
            assert(state::fact_ok(s, s.facts[i]));
        }
    }
}

pub(crate) proof fn lemma_grows(s: State, t: State)
    requires
        grows(s, t),
        state::refs(s),
    ensures
        forall|i: int|
            0 <= i < s.facts.len() ==> state::fact_ok(t, #[trigger] s.facts[i]),
        forall|i: int| 0 <= i < s.aux.len() ==> state::aux_ok(t, #[trigger] s.aux[i]),
        forall|i: int|
            0 <= i < s.entities.len() ==> state::entity_ok(t, #[trigger] s.entities[i]),
{
    assert forall|i: int| 0 <= i < s.aux.len() implies state::aux_ok(t, #[trigger] s.aux[i]) by {
        let h = s.aux[i].tags;
        assert(state::aux_ok(s, s.aux[i]));
        if h != model::empty_handle() {
            assert(t.tag_lists[h.list as int] == s.tag_lists[h.list as int]);
        }
    }
    assert forall|i: int| 0 <= i < s.facts.len() implies state::fact_ok(
        t,
        #[trigger] s.facts[i],
    ) by {
        assert(state::fact_ok(s, s.facts[i]));
    }
    assert forall|i: int| 0 <= i < s.entities.len() implies state::entity_ok(
        t,
        #[trigger] s.entities[i],
    ) by {
        assert(state::entity_ok(s, s.entities[i]));
    }
}

/// A new word is interned; nothing else changes.
proof fn lemma_interned_frame(s: State, t: Seq<char>)
    ensures
        state::term_interned(s, t).0 == (State { terms: state::term_interned(s, t).0.terms, ..s }),
        state::term_interned(s, t).1 matches Ok(id) ==> id.0 < state::term_interned(
            s,
            t,
        ).0.terms.len() || s.terms.len() > u32::MAX,
        s.terms.len() <= state::term_interned(s, t).0.terms.len(),
        grows(s, state::term_interned(s, t).0),
{
}

impl Memory {
    /// Every structure is valid and bounded by the configuration.
    pub closed spec fn sound(&self) -> bool {
        &&& config::config_ok(self.cfg)
        &&& self.facts.wf() && self.facts.ceiling() == self.cfg.max_bytes
        &&& self.fact_aux.wf() && self.fact_aux.ceiling() == self.cfg.max_bytes
        &&& self.entities.wf() && self.entities.ceiling() == self.cfg.max_bytes
        &&& self.by_name.wf() && self.by_name.ceiling() == self.cfg.max_bytes
        &&& self.edges_out.wf() && self.edges_out.ceiling() == self.cfg.max_bytes
        &&& self.edges_in.wf() && self.edges_in.ceiling() == self.cfg.max_bytes
        &&& self.edges_hist_out.wf() && self.edges_hist_out.ceiling() == self.cfg.max_bytes
        &&& self.edges_hist_in.wf() && self.edges_hist_in.ceiling() == self.cfg.max_bytes
        &&& self.temporal.wf() && self.temporal.ceiling() == self.cfg.max_bytes
        &&& self.texts.wf() && self.texts.ceiling() == self.cfg.max_bytes
            && self.texts.blob_ceiling() == self.cfg.max_blob
        &&& self.metas.wf() && self.metas.ceiling() == self.cfg.max_bytes
            && self.metas.blob_ceiling() == self.cfg.max_blob
        &&& self.terms.wf() && self.terms.ceiling() == self.cfg.max_bytes
            && self.terms.blob_ceiling() == self.cfg.max_blob
        &&& self.tag_lists.wf() && self.tag_lists.ceiling() == self.cfg.max_bytes
            && self.tag_lists.blob_ceiling() == self.cfg.max_bytes
        &&& self.bm25.wf() && self.bm25.ceiling() == self.cfg.max_bytes
        &&& self.tags_idx.wf() && self.tags_idx.ceiling() == self.cfg.max_bytes
        &&& self.entity_facts.wf() && self.entity_facts.ceiling() == self.cfg.max_bytes
        &&& self.vecs.wf() && self.vecs.ceiling() == self.cfg.max_bytes && self.vecs.dimension()
            == self.cfg.dim
        &&& self.hnsw.wf() && self.hnsw.ceiling() == self.cfg.max_bytes
        &&& self.hnsw@.m == self.cfg.hnsw_m && self.hnsw@.m0 == self.cfg.hnsw_m0
        &&& self.tokenizer@ == state::search_policy()
    }

    /// The engine is usable: its structures are valid and its references hold.
    pub open spec fn wf(&self) -> bool {
        self.sound() && state::inv(self@)
    }

    /// Facts can be read: the engine is usable, or its last call ran out of
    /// room half way and left no record that refers to nothing.
    pub open spec fn readable(&self) -> bool {
        self.sound() && (state::inv(self@) || state::readable(self@))
    }

    /// An empty engine of any dimension.
    pub(crate) fn empty(cfg: Config) -> (r: Memory)
        requires
            config::config_ok(cfg),
        ensures
            r.wf(),
            r@ == state::empty_state(cfg, TOKENIZER_INDEX_VERSION),
    {
        let max: usize = cfg.max_bytes;
        let r = Memory {
            cfg,
            facts: Table::new(max),
            fact_aux: Table::new(max),
            entities: Table::new(max),
            by_name: Table::new(max),
            edges_out: Table::new(max),
            edges_in: Table::new(max),
            edges_hist_out: Table::new(max),
            edges_hist_in: Table::new(max),
            temporal: Table::new(max),
            texts: BlobHeap::new(max, cfg.max_blob),
            metas: BlobHeap::new(max, cfg.max_blob),
            terms: Interner::new(max, cfg.max_blob),
            tag_lists: BlobHeap::new(max, max),
            bm25: Bm25Index::new(max),
            tags_idx: PostingStore::new(max),
            entity_facts: PostingStore::new(max),
            vecs: VecPool::new(cfg.dim, max),
            hnsw: HnswGraph::new(cfg.hnsw_m, cfg.hnsw_m0, max),
            next_fact: 0,
            next_entity: 0,
            next_edge: 0,
            tombstones: 0,
            bm25_tokenizer_version: TOKENIZER_INDEX_VERSION,
            vector_space: None,
            tokenizer: Tokenizer::new(),
        };
        assert(r@ =~= state::empty_state(cfg, TOKENIZER_INDEX_VERSION));
        proof {
            reveal(state::graph_ok);
        }
        r
    }

    /// Creates an empty database.
    ///
    /// Vectors are not accepted by the verbs, so `dim` must be 0 here; a
    /// snapshot that carries vectors opens with its own dimension.
    pub fn new(cfg: Config) -> (r: Result<Memory, Error>)
        ensures
            match r {
                Ok(m) => config::config_ok(cfg) && cfg.dim == 0 && m.wf() && m@
                    == state::empty_state(cfg, TOKENIZER_INDEX_VERSION) && whole::whole(m@),
                Err(e) => match config::validated(cfg) {
                    Err(first) => e == first,
                    Ok(()) => cfg.dim != 0 && e == Error::ConfigMismatch(
                        "vector layer lands in stage 4: dim must be 0",
                    ),
                },
            },
    {
        if let Err(e) = cfg.validate() {
            return Err(e);
        }
        if cfg.dim != 0 {
            return Err(Error::ConfigMismatch("vector layer lands in stage 4: dim must be 0"));
        }
        proof {
            whole::empty_is_whole(cfg, TOKENIZER_INDEX_VERSION);
        }
        Ok(Memory::empty(cfg))
    }

    fn fact(&self, id: FactId) -> (r: Option<FactRecord>)
        requires
            self.sound(),
        ensures
            r == state::fact_of(self@, id),
    {
        self.facts.get(id.0 as u128)
    }

    /// When a fact was recorded, whether or not its text can be read.
    pub fn recorded_at(&self, id: FactId) -> (r: Option<u64>)
        requires
            self.sound(),
        ensures
            r == (match state::fact_of(self@, id) {
                Some(f) => Some(f.recorded_at),
                None => None,
            }),
    {
        match self.fact(id) {
            Some(f) => Some(f.recorded_at),
            None => None,
        }
    }

    /// Normalizes an entity name: its tokens joined by single spaces.
    fn normalize_name(&self, name: &str) -> (r: String)
        requires
            self.sound(),
        ensures
            r@ == state::normalized(name@),
    {
        let words: Vec<String> = self.tokenizer.tokenize(name);
        let ghost views = emit::string_views(words@);
        let mut out: String = String::new();
        let mut i: usize = 0;
        assert(views.take(0) =~= Seq::empty());
        assert(out@ =~= Seq::empty());
        while i < words.len()
            invariant
                i <= words@.len(),
                views == emit::string_views(words@),
                out@ == state::spaced(views.take(i as int)),
            decreases words@.len() - i,
        {
            let ghost front = out@;
            assert(views.take(i + 1).drop_last() =~= views.take(i as int));
            assert(views.take(i + 1).last() == words@[i as int]@);
            if out.as_str().unicode_len() > 0 {
                push_char(&mut out, ' ');
            } else {
                assert(front + words@[i as int]@ =~= words@[i as int]@);
            }
            out.append(words[i].as_str());
            i = i + 1;
        }
        assert(views.take(i as int) =~= views);
        out
    }

    /// Looks an entity up by its already normalized name.
    fn lookup_entity_by_norm(&self, norm: &str) -> (r: Option<EntityId>)
        requires
            self.sound(),
        ensures
            r == state::entity_named(self@, norm@),
    {
        match self.terms.lookup(norm) {
            None => None,
            Some(t) => {
                let at: usize = self.by_name.lower_bound(0x1_0000_0000 * (t.0 as u128));
                if at < self.by_name.len() {
                    let row: EntityByName = self.by_name.row(at);
                    if row.name_term.0 == t.0 {
                        return Some(row.id);
                    }
                }
                None
            },
        }
    }

    fn intern(&mut self, t: &str) -> (r: Result<TermId, Error>)
        requires
            old(self).sound(),
        ensures
            final(self).sound(),
            state::term_interned(old(self)@, t@) == (final(self)@, r),
            r matches Ok(id) ==> id.0 < final(self)@.terms.len(),
    {
        let r = match self.terms.intern(t) {
            Ok(id) => Ok(id),
            Err(e) => Err(Error::Arena(e)),
        };
        proof {
            self.terms.lemma_wf();
            if let Ok(id) = r {
                lemma_interned_id(old(self)@, t@);
            }
        }
        r
    }

    fn store_text(&mut self, t: &str) -> (r: Result<BlobId, Error>)
        requires
            old(self).sound(),
        ensures
            final(self).sound(),
            state::text_stored(old(self)@, encode_utf8(t@)) == (final(self)@, r),
            r matches Ok(id) ==> id.0 < final(self)@.texts.len(),
    {
        match self.texts.push(t.as_bytes()) {
            Ok(id) => Ok(id),
            Err(e) => Err(Error::Arena(e)),
        }
    }

    fn add_entity(&mut self, name: BlobId, term: TermId, now: u64) -> (r: Result<EntityId, Error>)
        requires
            old(self).sound(),
            old(self)@.next_entity < NONE_U32,
            name.0 < old(self)@.texts.len(),
            term.0 < old(self)@.terms.len(),
        ensures
            final(self).sound(),
            state::entity_added(old(self)@, name, term, now) == (final(self)@, r),
            grows(old(self)@, final(self)@),
            kept(old(self)@, final(self)@),
            r is Ok && state::refs(old(self)@) ==> state::refs(final(self)@),
    {
        let ghost s = self@;
        proof {
            self.entities.lemma_wf();
        }
        let id: EntityId = EntityId(self.next_entity);
        let row: EntityRecord = EntityRecord {
            id,
            name,
            name_term: term,
            created_at: now,
            flags: 0,
        };
        if let Err(e) = self.entities.insert(row) {
            return Err(Error::Arena(e));
        }
        if let Err(e) = self.by_name.insert(EntityByName { name_term: term, id }) {
            return Err(Error::Arena(e));
        }
        self.next_entity = self.next_entity + 1;
        proof {
            let t = self@;
            if state::refs(s) {
                lemma_grows(s, t);
                lemma_rows(s.entities, t.entities, state::cap(s), row);
                assert forall|i: int| 0 <= i < t.entities.len() implies state::entity_ok(
                    t,
                    #[trigger] t.entities[i],
                ) by {
                    if t.entities[i] != row {
                        let k = s.entities.index_of(t.entities[i]);
                        assert(state::entity_ok(t, s.entities[k]));
                    }
                }
            }
        }
        Ok(id)
    }

    /// Resolves an entity by name, creating it on first mention.
    fn resolve_or_create_entity(&mut self, name: &str, now: u64) -> (r: Result<EntityId, Error>)
        requires
            old(self).sound(),
        ensures
            final(self).sound(),
            state::entity_resolved(old(self)@, name@, now) == (final(self)@, r),
            grows(old(self)@, final(self)@),
            kept(old(self)@, final(self)@),
            r is Ok && state::refs(old(self)@) ==> state::refs(final(self)@),
    {
        let ghost s = self@;
        let norm: String = self.normalize_name(name);
        if norm.as_str().unicode_len() == 0 {
            return Err(Error::Invalid("entity name has no indexable characters"));
        }
        if let Some(found) = self.lookup_entity_by_norm(norm.as_str()) {
            return Ok(found);
        }
        if self.next_entity >= NONE_U32 {
            return Err(Error::CapacityExceeded { what: "entity ids" });
        }
        let term: TermId = match self.intern(norm.as_str()) {
            Ok(t) => t,
            Err(e) => {
                return Err(e);
            },
        };
        let ghost t = self@;
        let blob: BlobId = match self.store_text(name) {
            Ok(b) => b,
            Err(e) => {
                return Err(e);
            },
        };
        let ghost u = self@;
        proof {
            lemma_interned_frame(s, norm@);
            if state::refs(s) {
                lemma_grows(s, u);
                assert(state::refs(u));
            }
        }
        self.add_entity(blob, term, now)
    }

    /// Interns the words of a text and counts them.
    fn count_words(&mut self, words: &Vec<String>) -> (r: (Vec<(u32, u8)>, Result<(), Error>))
        requires
            old(self).sound(),
        ensures
            final(self).sound(),
            state::words_counted(old(self)@, emit::string_views(words@)) == (
                final(self)@,
                r.0@,
                r.1,
            ),
            final(self)@ == (State { terms: final(self)@.terms, ..old(self)@ }),
            grows(old(self)@, final(self)@),
            bm25::terms_once(r.0@),
    {
        let ghost s = self@;
        let ghost views = emit::string_views(words@);
        let mut pairs: Vec<(u32, u8)> = Vec::new();
        let mut i: usize = 0;
        assert(views.take(0) =~= Seq::empty());
        assert(pairs@ =~= Seq::empty());
        while i < words.len()
            invariant
                i <= words@.len(),
                s == old(self)@,
                views == emit::string_views(words@),
                self.sound(),
                state::words_counted(s, views.take(i as int)) == (
                    self@,
                    pairs@,
                    Ok::<(), Error>(()),
                ),
                self@ == (State { terms: self@.terms, ..s }),
                grows(s, self@),
                bm25::terms_once(pairs@),
            decreases words@.len() - i,
        {
            let ghost before = self@;
            proof {
                assert(views.take(i + 1).drop_last() =~= views.take(i as int));
                assert(views.take(i + 1).last() == words@[i as int]@);
                lemma_interned_frame(self@, words@[i as int]@);
            }
            let term: TermId = match self.intern(words[i].as_str()) {
                Ok(t) => t,
                Err(e) => {
                    proof {
                        lemma_words_err(s, views, i + 1);
                    }
                    return (pairs, Err(e));
                },
            };
            bump(&mut pairs, term.0);
            i = i + 1;
        }
        assert(views.take(i as int) =~= views);
        (pairs, Ok(()))
    }

    /// Indexes the words of the next fact.
    fn add_doc(&mut self, pairs: &Vec<(u32, u8)>) -> (r: Result<(), Error>)
        requires
            old(self).sound(),
            old(self)@.next_fact < NONE_U32,
            bm25::ids_below(old(self)@.bm25.postings, old(self)@.next_fact as int),
            bm25::terms_once(pairs@),
        ensures
            final(self).sound(),
            state::doc_added(old(self)@, FactId(old(self)@.next_fact), pairs@) == (
                final(self)@,
                r,
            ),
            r is Ok ==> bm25::ids_below(
                final(self)@.bm25.postings,
                old(self)@.next_fact + 1,
            ),
    {
        let id: FactId = FactId(self.next_fact);
        arena_err(self.bm25.index_doc(id, pairs))
    }

    /// Interns the tags of the next fact, without repetitions, and inverts
    /// them.
    fn add_tags(&mut self, tags: &[&str]) -> (r: (Vec<u32>, Result<(), Error>))
        requires
            old(self).sound(),
            old(self)@.next_fact < NONE_U32,
            bm25::ids_below(old(self)@.tags_idx, old(self)@.next_fact as int),
        ensures
            final(self).sound(),
            state::tags_added(
                old(self)@,
                journal::str_views(tags@),
                FactId(old(self)@.next_fact),
            ) == (final(self)@, r.0@, r.1),
            final(self)@ == (State {
                terms: final(self)@.terms,
                tags_idx: final(self)@.tags_idx,
                ..old(self)@
            }),
            grows(old(self)@, final(self)@),
            r.0@.len() <= tags@.len(),
            r.1 is Ok ==> bm25::ids_below(final(self)@.tags_idx, old(self)@.next_fact + 1),
            forall|k: int| 0 <= k < r.0@.len() ==> (#[trigger] r.0@[k]) < final(self)@.terms.len(),
    {
        let ghost s = self@;
        let ghost views = journal::str_views(tags@);
        let id: FactId = FactId(self.next_fact);
        let mut list: Vec<u32> = Vec::new();
        let mut i: usize = 0;
        proof {
            self.tags_idx.lemma_wf();
            assert(views.take(0) =~= Seq::empty());
            assert(list@ =~= Seq::empty());
        }
        while i < tags.len()
            invariant
                i <= tags@.len(),
                s == old(self)@,
                id == FactId(s.next_fact),
                id.0 < NONE_U32,
                views == journal::str_views(tags@),
                self.sound(),
                state::tags_added(s, views.take(i as int), id) == (
                    self@,
                    list@,
                    Ok::<(), Error>(()),
                ),
                self@ == (State { terms: self@.terms, tags_idx: self@.tags_idx, ..s }),
                grows(s, self@),
                list@.len() <= i,
                bm25::ids_below(s.tags_idx, id.0 as int),
                bm25::ids_below(self@.tags_idx, id.0 + 1),
                forall|k: u32|
                    !list@.contains(k) ==> #[trigger] postings::entries_of(self@.tags_idx, k)
                        == postings::entries_of(s.tags_idx, k),
                forall|k: int| 0 <= k < list@.len() ==> (#[trigger] list@[k]) < self@.terms.len(),
            decreases tags@.len() - i,
        {
            proof {
                assert(views.take(i + 1).drop_last() =~= views.take(i as int));
                assert(views.take(i + 1).last() == tags@[i as int]@);
                lemma_interned_frame(self@, tags@[i as int]@);
            }
            let term: TermId = match self.intern(tags[i]) {
                Ok(t) => t,
                Err(e) => {
                    proof {
                        lemma_tags_err(s, views, id, i + 1);
                    }
                    return (list, Err(e));
                },
            };
            if !has_value(&list, term.0) {
                let ghost v = self@.tags_idx;
                let ghost before = list@;
                proof {
                    self.tags_idx.lemma_wf();
                    assert(postings::entries_of(v, term.0) == postings::entries_of(
                        s.tags_idx,
                        term.0,
                    ));
                    postings::appending_touches_one_list(false, v, term.0, (id.0, 1u8));
                }
                list.push(term.0);
                let pushed: Result<(), ArenaError> = self.tags_idx.push(term.0, id, 0);
                if let Err(e) = pushed {
                    proof {
                        lemma_tags_err(s, views, id, i + 1);
                    }
                    return (list, Err(Error::Arena(e)));
                }
                proof {
                    let out = self@.tags_idx;
                    assert(out == postings::with_entry(v, term.0, (id.0, 1u8)));
                    assert forall|k: u32| !list@.contains(k) implies #[trigger] postings::entries_of(
                        out,
                        k,
                    ) == postings::entries_of(s.tags_idx, k) by {
                        assert(list@[list@.len() - 1] == term.0);
                        if before.contains(k) {
                            let m = before.index_of(k);
                            assert(list@[m] == k);
                        }
                    }
                    assert forall|k: u32|
                        (#[trigger] postings::entries_of(out, k)).len()
                            > 0 implies postings::entries_of(out, k).last().0 < id.0 + 1 by {
                        if k != term.0 {
                            assert(postings::entries_of(out, k) == postings::entries_of(v, k));
                        }
                    }
                }
            }
            i = i + 1;
        }
        assert(views.take(i as int) =~= views);
        (list, Ok(()))
    }

    /// Stores the tag list of a fact.
    fn store_tags(&mut self, list: &Vec<u32>) -> (r: Result<ListHandle, Error>)
        requires
            old(self).sound(),
            list@.len() <= 0x3FFF_FFFF,
        ensures
            final(self).sound(),
            state::tags_stored(old(self)@, list@) == (final(self)@, r),
            grows(old(self)@, final(self)@),
            r matches Ok(h) ==> names_list(final(self)@, h, list@),
    {
        let ghost s = self@;
        if list.len() == 0 {
            return Ok(ListHandle::empty());
        }
        let mut bytes: Vec<u8> = Vec::new();
        let ghost enc = |t: u32| codec::be32(t);
        let mut i: usize = 0;
        assert(list@.take(0) =~= Seq::empty());
        while i < list.len()
            invariant
                i <= list@.len(),
                enc == (|t: u32| codec::be32(t)),
                bytes@ == parse::flat(enc, list@.take(i as int)),
                bytes@.len() == 4 * i,
            decreases list@.len() - i,
        {
            put_be32(&mut bytes, list[i]);
            proof {
                assert(list@.take(i + 1) =~= list@.take(i as int).push(list@[i as int]));
                parse::lemma_flat_push(enc, list@.take(i as int), list@[i as int]);
                codec::lemma_be_bytes_len(list@[i as int] as nat, 4);
                assert(bytes@ =~= parse::flat(enc, list@.take(i + 1)));
            }
            i = i + 1;
        }
        assert(list@.take(i as int) =~= list@);
        match self.tag_lists.push(bytes.as_slice()) {
            Err(e) => Err(Error::Arena(e)),
            Ok(blob) => {
                let h = ListHandle {
                    list: blob.0,
                    bytes: (4 * list.len()) as u32,
                    reserved: 0,
                };
                assert(state::tag_bytes(list@) == bytes@);
                Ok(h)
            },
        }
    }

    /// Stores the metadata of a fact.
    fn store_meta(&mut self, pairs: &[(&str, &str)]) -> (r: Result<BlobId, Error>)
        requires
            old(self).sound(),
        ensures
            final(self).sound(),
            state::meta_stored(old(self)@, journal::pair_views(pairs@)) == (final(self)@, r),
            grows(old(self)@, final(self)@),
            r matches Ok(id) ==> id.0 == NONE_U32 || id.0 < final(self)@.metas.len(),
    {
        if pairs.len() == 0 {
            return Ok(BlobId(NONE_U32));
        }
        assert(metadata::pair_views(pairs@) =~= journal::pair_views(pairs@));
        let blob: Vec<u8> = match metadata::encode(pairs) {
            Ok(b) => b,
            Err(e) => {
                return Err(e);
            },
        };
        match self.metas.push(blob.as_slice()) {
            Err(e) => Err(Error::Arena(e)),
            Ok(id) => Ok(id),
        }
    }

    /// Puts the auxiliary record of the next fact in place.
    fn add_aux(&mut self, row: FactAux) -> (r: Result<(), Error>)
        requires
            old(self).sound(),
        ensures
            final(self).sound(),
            state::aux_added(old(self)@, row) == (final(self)@, r),
            r is Ok && state::refs(old(self)@) && state::aux_ok(old(self)@, row) ==> state::refs(final(self)@),
            state::readable(old(self)@) && state::aux_ok(old(self)@, row) ==> state::readable(
                final(self)@,
            ),
    {
        let ghost s = self@;
        proof {
            self.fact_aux.lemma_wf();
        }
        match self.fact_aux.insert(row) {
            Err(e) => Err(Error::Arena(e)),
            Ok(_) => {
                proof {
                    let t = self@;
                    lemma_rows(s.aux, t.aux, state::cap(s), row);
                    if state::readable(s) && state::aux_ok(s, row) {
                        reveal(state::readable);
                        assert forall|i: int| 0 <= i < t.aux.len() implies state::aux_ok(
                            t,
                            #[trigger] t.aux[i],
                        ) by {
                            if t.aux[i] != row {
                                let k = s.aux.index_of(t.aux[i]);
                                assert(state::aux_ok(s, s.aux[k]));
                            }
                            assert(state::tags_ok(s, t.aux[i].tags));
                            assert(state::tags_ok(t, t.aux[i].tags));
                        }
                    }
                    if state::refs(s) && state::aux_ok(s, row) {
                        lemma_grows(s, t);
                        assert forall|i: int| 0 <= i < t.aux.len() implies state::aux_ok(
                            t,
                            #[trigger] t.aux[i],
                        ) by {
                            if t.aux[i] != row {
                                let k = s.aux.index_of(t.aux[i]);
                                assert(state::aux_ok(t, s.aux[k]));
                            } else {
                                assert(state::tags_ok(t, row.tags));
                            }
                        }
                    }
                }
                Ok(())
            },
        }
    }

    /// Closes the history version of a current edge in both tables.
    fn close_edge(&mut self, e: EdgeSlot, t: u64)
        requires
            old(self).sound(),
        ensures
            final(self).sound(),
            final(self)@ == state::edge_closed(old(self)@, e, t),
    {
        let out_key: u128 = edge_history_key(e.a, e.valid_from, e.edge);
        let in_key: u128 = edge_history_key(e.b, e.valid_from, e.edge);
        proof {
            self.edges_hist_out.lemma_wf();
            self.edges_hist_in.lemma_wf();
            table::lemma_rank(self.edges_hist_out@, out_key as int);
            table::lemma_rank(self.edges_hist_in@, in_key as int);
        }
        if let Some(v) = self.edges_hist_out.get(out_key) {
            self.edges_hist_out.set(close_edge_history(v, t));
        }
        if let Some(v) = self.edges_hist_in.get(in_key) {
            self.edges_hist_in.set(close_edge_history(v, t));
        }
    }

    /// Adds one version to both history tables.
    fn insert_history_edge(&mut self, v: EdgeHistorySlot) -> (r: Result<(), Error>)
        requires
            old(self).sound(),
        ensures
            final(self).sound(),
            state::version_added(old(self)@, v) == (final(self)@, r),
    {
        if let Err(e) = self.edges_hist_out.insert(v) {
            return Err(Error::Arena(e));
        }
        let back: EdgeHistorySlot = EdgeHistorySlot { a: v.b, b: v.a, ..v };
        if let Err(e) = self.edges_hist_in.insert(back) {
            return Err(Error::Arena(e));
        }
        Ok(())
    }

    /// Puts a current edge into both tables, over an edge of the same key.
    fn insert_current_edge(&mut self, e: EdgeSlot) -> (r: Result<(), Error>)
        requires
            old(self).sound(),
        ensures
            final(self).sound(),
            state::current_added(old(self)@, e) == (final(self)@, r),
    {
        if let Err(err) = upsert(&mut self.edges_out, e) {
            return Err(Error::Arena(err));
        }
        let back: EdgeSlot = EdgeSlot { a: e.b, b: e.a, ..e };
        if let Err(err) = upsert(&mut self.edges_in, back) {
            return Err(Error::Arena(err));
        }
        Ok(())
    }

    /// Links two entities: an existing edge is closed and a new version
    /// opened.
    fn upsert_edge(
        &mut self,
        src: EntityId,
        rel: TermId,
        dst: EntityId,
        fact: FactId,
        now: u64,
    ) -> (r: Result<(), Error>)
        requires
            old(self).sound(),
        ensures
            final(self).sound(),
            state::edge_upserted(old(self)@, src, rel, dst, fact, now) == (final(self)@, r),
            final(self)@ == (State {
                edges_out: final(self)@.edges_out,
                edges_in: final(self)@.edges_in,
                hist_out: final(self)@.hist_out,
                hist_in: final(self)@.hist_in,
                next_edge: final(self)@.next_edge,
                ..old(self)@
            }),
    {
        if self.next_edge >= NONE_U32 {
            return Err(Error::CapacityExceeded { what: "edge ids" });
        }
        let old_edge: Option<EdgeSlot> = self.edges_out.get(edge_key(src, rel, dst));
        let start: u64 = match old_edge {
            Some(e) => if e.valid_from > now { e.valid_from } else { now },
            None => now,
        };
        let edge: EdgeId = EdgeId(self.next_edge);
        let e: EdgeSlot = EdgeSlot { a: src, rel, b: dst, fact, edge, valid_from: start };
        if let Some(o) = old_edge {
            self.close_edge(o, start);
        }
        self.next_edge = self.next_edge + 1;
        let v: EdgeHistorySlot = EdgeHistorySlot {
            a: src,
            valid_from: start,
            edge,
            rel,
            b: dst,
            fact,
            flags: 0,
            kind: 0,
            recorded_at: now,
            valid_to: VALID_TO_OPEN,
        };
        if let Err(err) = self.insert_history_edge(v) {
            return Err(err);
        }
        self.insert_current_edge(e)
    }

    /// One link: the subject to the named entity.
    fn add_link(&mut self, src: EntityId, rel: &str, dst: &str, fact: FactId, now: u64) -> (r: Result<
        (),
        Error,
    >)
        requires
            old(self).sound(),
        ensures
            final(self).sound(),
            state::link_added(old(self)@, src, (rel@, dst@), fact, now) == (final(self)@, r),
            grows(old(self)@, final(self)@),
            kept(old(self)@, final(self)@),
            r is Ok && state::refs(old(self)@) ==> state::refs(final(self)@),
    {
        let ghost s = self@;
        let target: EntityId = match self.resolve_or_create_entity(dst, now) {
            Ok(id) => id,
            Err(e) => {
                return Err(e);
            },
        };
        let ghost t = self@;
        proof {
            lemma_interned_frame(t, rel@);
        }
        let term: TermId = match self.intern(rel) {
            Ok(id) => id,
            Err(e) => {
                return Err(e);
            },
        };
        let ghost u = self@;
        let r = self.upsert_edge(src, term, target, fact, now);
        proof {
            if state::refs(t) {
                lemma_grows(t, self@);
                assert(state::refs(self@));
            }
        }
        r
    }
}

impl Memory {
    /// The links of a new fact in turn.
    fn add_links(&mut self, src: EntityId, links: &[(&str, &str)], fact: FactId, now: u64) -> (r: Result<
        (),
        Error,
    >)
        requires
            old(self).sound(),
        ensures
            final(self).sound(),
            state::links_added(
                old(self)@,
                src,
                journal::pair_views(links@),
                fact,
                now,
            ) == (final(self)@, r),
            grows(old(self)@, final(self)@),
            kept(old(self)@, final(self)@),
            r is Ok && state::refs(old(self)@) ==> state::refs(final(self)@),
    {
        let ghost s = self@;
        let ghost views = journal::pair_views(links@);
        let mut i: usize = 0;
        assert(views.take(0) =~= Seq::empty());
        while i < links.len()
            invariant
                i <= links@.len(),
                s == old(self)@,
                views == journal::pair_views(links@),
                self.sound(),
                state::links_added(s, src, views.take(i as int), fact, now) == (
                    self@,
                    Ok::<(), Error>(()),
                ),
                grows(s, self@),
                kept(s, self@),
                state::refs(s) ==> state::refs(self@),
            decreases links@.len() - i,
        {
            let ghost t = self@;
            proof {
                assert(views.take(i + 1).drop_last() =~= views.take(i as int));
                assert(views.take(i + 1).last() == (links@[i as int].0@, links@[i as int].1@));
            }
            let added: Result<(), Error> = self.add_link(src, links[i].0, links[i].1, fact, now);
            if let Err(e) = added {
                proof {
                    lemma_links_err(s, src, views, fact, now, i + 1);
                }
                return Err(e);
            }
            i = i + 1;
        }
        assert(views.take(i as int) =~= views);
        Ok(())
    }

    /// Lists the next fact under its subject.
    fn list_subject(&mut self, src: EntityId) -> (r: Result<(), Error>)
        requires
            old(self).sound(),
            old(self)@.next_fact < NONE_U32,
            bm25::ids_below(old(self)@.entity_facts, old(self)@.next_fact as int),
        ensures
            final(self).sound(),
            state::subject_listed(old(self)@, src, FactId(old(self)@.next_fact)) == (
                final(self)@,
                r,
            ),
            r is Ok ==> bm25::ids_below(final(self)@.entity_facts, old(self)@.next_fact + 1),
    {
        let id: FactId = FactId(self.next_fact);
        proof {
            self.entity_facts.lemma_wf();
            lemma_listed(self@.entity_facts, src.0, id.0);
        }
        match self.entity_facts.push(src.0, id, 0) {
            Err(e) => Err(Error::Arena(e)),
            Ok(()) => Ok(()),
        }
    }

    /// The links and the listing of a fact that has a subject.
    fn link_subject(
        &mut self,
        entity: Option<EntityId>,
        links: &[(&str, &str)],
        now: u64,
    ) -> (r: Result<(), Error>)
        requires
            old(self).sound(),
            old(self)@.next_fact < NONE_U32,
            bm25::ids_below(old(self)@.entity_facts, old(self)@.next_fact as int),
        ensures
            final(self).sound(),
            state::subject_linked(
                old(self)@,
                entity,
                journal::pair_views(links@),
                FactId(old(self)@.next_fact),
                now,
            ) == (final(self)@, r),
            grows(old(self)@, final(self)@),
            kept(
                State { entity_facts: final(self)@.entity_facts, ..old(self)@ },
                final(self)@,
            ),
            r is Ok && state::refs(old(self)@) ==> state::refs(final(self)@),
            r is Ok ==> bm25::ids_below(final(self)@.entity_facts, old(self)@.next_fact + 1),
    {
        match entity {
            None => Ok(()),
            Some(src) => {
                let id: FactId = FactId(self.next_fact);
                if let Err(e) = self.add_links(src, links, id, now) {
                    return Err(e);
                }
                let ghost t = self@;
                let r = self.list_subject(src);
                proof {
                    if state::refs(t) {
                        lemma_grows(t, self@);
                    }
                }
                r
            },
        }
    }

    /// Puts the record of the next fact in place and counts it.
    fn add_record(&mut self, f: FactRecord) -> (r: Result<(), Error>)
        requires
            old(self).sound(),
            old(self)@.next_fact < NONE_U32,
            f.id.0 == old(self)@.next_fact,
            f.text.0 < old(self)@.texts.len(),
        ensures
            final(self).sound(),
            state::record_added(old(self)@, f) == (final(self)@, r),
            r is Ok && state::refs(old(self)@) ==> state::refs(final(self)@) && added(
                old(self)@,
                final(self)@,
                f,
            ),
            state::readable(old(self)@) ==> state::readable(final(self)@),
    {
        let ghost s = self@;
        proof {
            self.facts.lemma_wf();
        }
        if let Err(e) = self.facts.insert(f) {
            return Err(Error::Arena(e));
        }
        proof {
            if state::readable(s) {
                let t = self@;
                reveal(state::readable);
                lemma_rows(s.facts, t.facts, state::cap(s), f);
                assert forall|i: int| 0 <= i < t.facts.len() implies (#[trigger] t.facts[i]).text.0
                    < t.texts.len() by {
                    if t.facts[i] != f {
                        let k = s.facts.index_of(t.facts[i]);
                        assert(s.facts[k].text.0 < s.texts.len());
                    }
                }
                assert forall|i: int| 0 <= i < t.aux.len() implies state::aux_ok(
                    t,
                    #[trigger] t.aux[i],
                ) by {
                    assert(state::aux_ok(s, s.aux[i]));
                }
                lemma_later(t);
            }
        }
        let slot: TemporalSlot = TemporalSlot { recorded_at: f.recorded_at, fact: f.id };
        if let Err(e) = self.temporal.insert(slot) {
            return Err(Error::Arena(e));
        }
        self.next_fact = self.next_fact + 1;
        proof {
            let t = self@;
            if state::refs(s) {
                lemma_grows(s, t);
                lemma_rows(s.facts, t.facts, state::cap(s), f);
                lemma_fresh(s, f.id);
                table::lemma_with_row(s.facts, f);
                assert forall|i: int| 0 <= i < t.facts.len() implies state::fact_ok(
                    t,
                    #[trigger] t.facts[i],
                ) by {
                    if t.facts[i] != f {
                        let k = s.facts.index_of(t.facts[i]);
                        assert(state::fact_ok(t, s.facts[k]));
                    }
                }
            }
        }
        Ok(())
    }

    /// Tags, metadata, links and the record of the next fact.
    fn finish_fact(
        &mut self,
        entity: Option<EntityId>,
        text: BlobId,
        input: &RememberInput<'_>,
        revises: FactId,
    ) -> (r: Result<(), Error>)
        requires
            old(self).sound(),
            old(self)@.next_fact < NONE_U32,
            text.0 < old(self)@.texts.len(),
            input.tags@.len() <= 32,
            bm25::ids_below(old(self)@.tags_idx, old(self)@.next_fact as int),
            bm25::ids_below(old(self)@.entity_facts, old(self)@.next_fact as int),
        ensures
            final(self).sound(),
            state::fact_finished(old(self)@, entity, text, input@, revises) == (final(self)@, r),
            r is Ok ==> final(self)@.next_fact == old(self)@.next_fact + 1,
            r is Ok ==> final(self)@.bm25 == old(self)@.bm25 && final(self)@.cfg == old(self)@.cfg,
            r is Ok ==> final(self)@.graph == old(self)@.graph && final(self)@.vecs == old(self)@.vecs,
            r is Ok && state::refs(old(self)@) ==> state::refs(final(self)@) && added(
                old(self)@,
                final(self)@,
                state::new_record(FactId(old(self)@.next_fact), entity, text, revises, input@),
            ),
            grows(old(self)@, final(self)@),
            state::readable(old(self)@) ==> state::readable(final(self)@),
            r is Ok ==> bm25::ids_below(final(self)@.tags_idx, final(self)@.next_fact as int),
            r is Ok ==> bm25::ids_below(final(self)@.entity_facts, final(self)@.next_fact as int),
    {
        let ghost s = self@;
        let id: FactId = FactId(self.next_fact);
        let (list, tagged) = self.add_tags(input.tags);
        proof {
            lemma_readable(s, self@);
        }
        if let Err(e) = tagged {
            return Err(e);
        }
        let handle: ListHandle = match self.store_tags(&list) {
            Ok(h) => h,
            Err(e) => {
                return Err(e);
            },
        };
        proof {
            lemma_readable(s, self@);
            lemma_tags_ok(self@, handle, list@);
        }
        let meta: BlobId = match self.store_meta(input.metadata) {
            Ok(m) => m,
            Err(e) => {
                return Err(e);
            },
        };
        proof {
            lemma_readable(s, self@);
            if state::refs(s) {
                lemma_grows(s, self@);
            }
        }
        let row: FactAux = FactAux { id, tags: handle, meta };
        if let Err(e) = self.add_aux(row) {
            return Err(e);
        }
        let ghost before = self@;
        let linked = self.link_subject(entity, input.links, input.now);
        proof {
            lemma_readable(before, self@);
        }
        if let Err(e) = linked {
            return Err(e);
        }
        let valid_from: u64 = match input.valid_from {
            Some(t) => t,
            None => input.now,
        };
        let record: FactRecord = FactRecord {
            id,
            entity: EntityId::from_opt(entity),
            flags: 0,
            kind: 0,
            text,
            vector: NONE_U32,
            revises,
            recorded_at: input.now,
            valid_from,
            valid_to: VALID_TO_OPEN,
        };
        self.add_record(record)
    }

    /// Whether nothing of a name can be indexed.
    fn is_nameless(&self, name: &str) -> (r: bool)
        requires
            self.sound(),
        ensures
            r == state::nameless(name@),
    {
        let norm: String = self.normalize_name(name);
        norm.as_str().unicode_len() == 0
    }

    /// Whether the subject of a fact, or the target of one of its links, has
    /// no name.
    fn is_unnamed(&self, input: &RememberInput<'_>) -> (r: bool)
        requires
            self.sound(),
        ensures
            r == state::unnamed(input@),
    {
        match input.entity {
            None => false,
            Some(name) => {
                if self.is_nameless(name) {
                    return true;
                }
                let mut i: usize = 0;
                while i < input.links.len()
                    invariant
                        i <= input.links@.len(),
                        self.sound(),
                        input@.entity == Some(name@),
                        !state::nameless(name@),
                        forall|k: int|
                            0 <= k < i ==> !state::nameless((#[trigger] input@.links[k]).1),
                    decreases input.links@.len() - i,
                {
                    assert(input@.links[i as int] == (
                        input.links@[i as int].0@,
                        input.links@[i as int].1@,
                    ));
                    if self.is_nameless(input.links[i].1) {
                        return true;
                    }
                    i = i + 1;
                }
                false
            },
        }
    }

    /// The one execution path of a new fact, called by the public verbs and by
    /// replay with identical effects.
    fn apply_remember(&mut self, input: &RememberInput<'_>, revises: FactId) -> (r: Result<
        (FactId, Option<EntityId>),
        Error,
    >)
        requires
            old(self).wf(),
            input.tags@.len() <= 32,
        ensures
            final(self).sound(),
            state::remembered(old(self)@, input@, revises) == (final(self)@, r),
            state::readable(final(self)@),
            r is Ok ==> final(self).wf(),
            (r matches Err(Error::Invalid(_))) && !metadata::has_duplicate(input@.metadata)
                ==> final(self).wf(),
            r matches Ok(out) ==> recorded(
                old(self)@,
                final(self)@,
                out.0,
                out.1,
                revises,
                input@,
            ),
    {
        proof {
            reveal(state::remembered);
            lemma_refs_readable(self@);
            if (state::remembered(self@, input@, revises).1 matches Err(Error::Invalid(_)))
                && !metadata::has_duplicate(input@.metadata) {
                an_invalid_fact_changes_nothing(self@, input@, revises);
            }
        }
        let ghost s = self@;
        if self.next_fact >= NONE_U32 {
            return Err(Error::CapacityExceeded { what: "fact ids" });
        }
        if self.is_unnamed(input) {
            return Err(Error::Invalid("entity name has no indexable characters"));
        }
        let id: FactId = FactId(self.next_fact);
        let entity: Option<EntityId> = match input.entity {
            None => None,
            Some(name) => match self.resolve_or_create_entity(name, input.now) {
                Ok(e) => Some(e),
                Err(e) => {
                    proof {
                        lemma_readable(s, self@);
                    }
                    return Err(e);
                },
            },
        };
        proof {
            lemma_readable(s, self@);
        }
        let ghost t1 = self@;
        let text: BlobId = match self.store_text(input.text) {
            Ok(b) => b,
            Err(e) => {
                return Err(e);
            },
        };
        let ghost t2 = self@;
        let words: Vec<String> = self.tokenizer.tokenize(input.text);
        let (pairs, counted) = self.count_words(&words);
        proof {
            lemma_readable(t1, t2);
            lemma_readable(t2, self@);
        }
        if let Err(e) = counted {
            return Err(e);
        }
        let ghost t3 = self@;
        let indexed = self.add_doc(&pairs);
        proof {
            lemma_readable(t3, self@);
        }
        if let Err(e) = indexed {
            return Err(e);
        }
        let ghost t4 = self@;
        proof {
            lemma_grows(t1, t4);
            assert(state::refs(t4));
        }
        if let Err(e) = self.finish_fact(entity, text, input, revises) {
            return Err(e);
        }
        proof {
            let f = state::new_record(id, entity, text, revises, input@);
            assert(state::fact_of(self@, id) == Some(f));
            assert(self@.texts[text.0 as int] == encode_utf8(input.text@));
            encode_utf8_decode_utf8(input.text@);
            encode_utf8_valid_utf8(input.text@);
            lemma_no_flags();
        }
        Ok((id, entity))
    }

    /// `Ok` when `target` exists, is not forgotten and not yet closed.
    fn check_revisable(&self, target: FactId) -> (r: Result<(), Error>)
        requires
            self.sound(),
        ensures
            r == (match state::revise_error(self@, target) {
                Some(e) => Err(e),
                None => Ok(()),
            }),
    {
        match self.fact(target) {
            None => Err(Error::NotFound(target)),
            Some(f) => {
                if f.is_tombstone() {
                    return Err(Error::NotFound(target));
                }
                if f.is_closed() {
                    return Err(Error::AlreadyClosed(target));
                }
                Ok(())
            },
        }
    }

    /// Replaces the record of a fact by one with the same id and text.
    fn set_record(&mut self, f: FactRecord)
        requires
            old(self).sound(),
            state::fact_of(old(self)@, f.id) matches Some(g) && g.text == f.text,
        ensures
            final(self).sound(),
            final(self)@ == (State {
                facts: table::replaced(old(self)@.facts, f),
                ..old(self)@
            }),
            state::refs(old(self)@) ==> state::refs(final(self)@),
    {
        let ghost s = self@;
        proof {
            self.facts.lemma_wf();
            table::lemma_rank(self.facts@, f.id.0 as int);
        }
        self.facts.set(f);
        proof {
            if state::refs(s) {
                lemma_grows(s, self@);
                let r = table::rank(s.facts, f.id.0 as int);
                assert(state::fact_ok(s, s.facts[r]));
                assert forall|i: int| 0 <= i < self@.facts.len() implies state::fact_ok(
                    self@,
                    #[trigger] self@.facts[i],
                ) by {
                    if i != r {
                        assert(self@.facts[i] == s.facts[i]);
                    }
                }
            }
        }
    }

    /// Closes a revision target: its validity ends where the successor's
    /// starts.
    fn close_target(&mut self, target: FactId, valid_to: u64)
        requires
            old(self).wf(),
        ensures
            final(self).wf(),
            final(self)@ == state::target_closed(old(self)@, target, valid_to),
    {
        proof {
            self.facts.lemma_wf();
            table::lemma_rank(self.facts@, target.0 as int);
        }
        if let Some(f) = self.fact(target) {
            self.set_record(
                FactRecord { flags: f.flags | model::fact_flags::CLOSED, valid_to, ..f },
            );
        }
    }

    fn apply_forget(&mut self, id: FactId) -> (r: Result<bool, Error>)
        requires
            old(self).wf(),
        ensures
            final(self).wf(),
            state::forgotten(old(self)@, id) == (final(self)@, r),
    {
        proof {
            self.facts.lemma_wf();
            table::lemma_rank(self.facts@, id.0 as int);
        }
        match self.fact(id) {
            None => Err(Error::NotFound(id)),
            Some(f) => {
                if f.is_tombstone() {
                    return Ok(false);
                }
                self.set_record(
                    FactRecord { flags: f.flags | model::fact_flags::TOMBSTONE, ..f },
                );
                if self.tombstones < usize::MAX {
                    self.tombstones = self.tombstones + 1;
                }
                Ok(true)
            },
        }
    }

    fn apply_link(&mut self, now: u64, src: &str, rel: &str, dst: &str, provenance: FactId) -> (r: Result<
        (),
        Error,
    >)
        requires
            old(self).wf(),
        ensures
            final(self).sound(),
            state::linked(old(self)@, now, src@, rel@, dst@, provenance) == (final(self)@, r),
            state::readable(final(self)@),
            r is Ok ==> final(self).wf(),
            r matches Err(Error::Invalid(_)) ==> final(self).wf(),
    {
        let ghost s = self@;
        proof {
            lemma_refs_readable(s);
        }
        let a: EntityId = match self.resolve_or_create_entity(src, now) {
            Ok(id) => id,
            Err(e) => {
                proof {
                    lemma_readable(s, self@);
                }
                return Err(e);
            },
        };
        let ghost t = self@;
        let r = self.add_link(a, rel, dst, provenance, now);
        proof {
            if r matches Err(Error::Invalid(_)) {
                lemma_invalid_link(t, a, (rel@, dst@), provenance, now);
            }
            lemma_readable(s, t);
            lemma_readable(t, self@);
        }
        r
    }
}

impl Memory {
    /// Size and shape checks shared by the verbs that record a fact.
    fn validate_input(&self, input: &RememberInput<'_>) -> (r: Result<(), Error>)
        ensures
            r == (match state::input_error(self@, input@) {
                Some(e) => Err(e),
                None => Ok(()),
            }),
    {
        let len: usize = input.text.as_bytes().len();
        if len > self.cfg.max_text {
            return Err(Error::TooLarge { what: "text", len, max: self.cfg.max_text });
        }
        if input.tags.len() > 32 {
            return Err(Error::TooLarge { what: "tags", len: input.tags.len(), max: 32 });
        }
        if input.links.len() > 16 {
            return Err(Error::TooLarge { what: "links", len: input.links.len(), max: 16 });
        }
        let mut i: usize = 0;
        while i < input.tags.len()
            invariant
                i <= input.tags@.len(),
                encode_utf8(input@.text).len() <= self@.cfg.max_text,
                input@.tags.len() <= 32,
                input@.links.len() <= 16,
                forall|k: int| 0 <= k < i ==> (#[trigger] input@.tags[k]).len() > 0,
            decreases input.tags@.len() - i,
        {
            assert(input@.tags[i as int] == input.tags@[i as int]@);
            if input.tags[i].unicode_len() == 0 {
                return Err(Error::Invalid("empty tag"));
            }
            i = i + 1;
        }
        if input.links.len() > 0 && input.entity.is_none() {
            return Err(Error::Invalid("links require a subject entity"));
        }
        assert(metadata::pair_views(input.metadata@) =~= input@.metadata);
        if has_duplicate_key(input.metadata) {
            return Err(Error::Invalid("duplicate metadata key"));
        }
        Ok(())
    }

    /// The known terms of a text, each once.
    fn terms_of(&self, text: &str) -> (r: Vec<u32>)
        requires
            self.sound(),
        ensures
            r@ == state::term_set(self@, state::tokens(text@)),
    {
        let words: Vec<String> = self.tokenizer.tokenize(text);
        let ghost views = emit::string_views(words@);
        let mut out: Vec<u32> = Vec::new();
        let mut i: usize = 0;
        assert(views.take(0) =~= Seq::empty());
        while i < words.len()
            invariant
                i <= words@.len(),
                self.sound(),
                views == emit::string_views(words@),
                out@ == state::term_set(self@, views.take(i as int)),
            decreases words@.len() - i,
        {
            assert(views.take(i + 1).drop_last() =~= views.take(i as int));
            assert(views.take(i + 1).last() == words@[i as int]@);
            if let Some(t) = self.terms.lookup(words[i].as_str()) {
                if !has_value(&out, t.0) {
                    out.push(t.0);
                }
            }
            i = i + 1;
        }
        assert(views.take(i as int) =~= views);
        out
    }

    /// The overlap of a current fact with a set of terms.
    fn overlap_with(&self, own: &Vec<u32>, fact: FactId) -> (r: Option<Overlap>)
        requires
            self.wf(),
        ensures
            match r {
                Some(o) => state::overlap_with(self@, own@, fact) == Some(o@),
                None => state::overlap_with(self@, own@, fact) is None,
            },
    {
        let view = match self.get(fact) {
            Some(v) => v,
            None => {
                return None;
            },
        };
        if view.record.is_closed() {
            return None;
        }
        let terms: Vec<u32> = self.terms_of(view.text);
        if terms.len() == 0 {
            return None;
        }
        let mut both: usize = 0;
        let mut i: usize = 0;
        while i < terms.len()
            invariant
                i <= terms@.len(),
                both <= i,
                both == state::shared(terms@, own@, i as nat),
            decreases terms@.len() - i,
        {
            if has_value(own, terms[i]) {
                both = both + 1;
            }
            i = i + 1;
        }
        Some(
            Overlap {
                id: fact,
                both,
                union: terms.len() as u128 + own.len() as u128 - both as u128,
            },
        )
    }

    /// Lexical similar-detection: the current facts among the most recent ones
    /// of the same subject, with their term overlap.
    pub fn find_similar(&self, fact: FactId, entity: Option<EntityId>) -> (r: Vec<Overlap>)
        requires
            self.wf(),
        ensures
            overlap_views(r@) == state::overlaps(self@, fact, entity),
            similar::surfaces(self@, fact, entity, overlap_views(r@)),
    {
        proof {
            self.terms.lemma_wf();
            similar::similar_facts_are_open_and_recent(self@, fact, entity);
        }
        let mut out: Vec<Overlap> = Vec::new();
        assert(overlap_views(out@) =~= Seq::empty());
        let e: EntityId = match entity {
            Some(e) => e,
            None => {
                return out;
            },
        };
        let view = match self.get(fact) {
            Some(v) => v,
            None => {
                return out;
            },
        };
        let own: Vec<u32> = self.terms_of(view.text);
        if own.len() == 0 {
            return out;
        }
        let near: Vec<FactId> = self.recent_of(e, fact);
        let mut i: usize = 0;
        assert(near@.take(0) =~= Seq::empty());
        while i < near.len()
            invariant
                i <= near@.len(),
                self.wf(),
                overlap_views(out@) == state::overlaps_with(self@, own@, near@.take(i as int)),
            decreases near@.len() - i,
        {
            assert(near@.take(i + 1).drop_last() =~= near@.take(i as int));
            if let Some(o) = self.overlap_with(&own, near[i]) {
                let ghost before = overlap_views(out@);
                out.push(o);
                assert(overlap_views(out@) =~= before.push(o@));
            }
            i = i + 1;
        }
        assert(near@.take(i as int) =~= near@);
        out
    }

    /// The most recent facts of a subject other than `fact`.
    fn recent_of(&self, entity: EntityId, fact: FactId) -> (r: Vec<FactId>)
        requires
            self.sound(),
        ensures
            r@ == state::recent(
                postings::entries_of(self@.entity_facts, entity.0),
                fact,
                state::SIMILAR_CANDIDATE_CAP as nat,
            ),
    {
        let ghost xs = postings::entries_of(self.entity_facts@, entity.0);
        let mut all: Vec<u32> = Vec::new();
        let mut walk = self.entity_facts.entries(entity.0);
        let mut more: bool = true;
        let ghost mut n: int = 0;
        proof {
            assert(xs.skip(0) =~= xs);
        }
        while more
            invariant
                walk.wf(),
                0 <= n <= xs.len(),
                walk.rest() == xs.skip(n),
                more || n == xs.len(),
                all@.len() == n,
                forall|k: int| 0 <= k < n ==> #[trigger] all@[k] == xs[k].0,
            decreases (xs.len() - n) + (if more { 1int } else { 0 }),
        {
            match walk.next() {
                None => {
                    more = false;
                },
                Some((id, _)) => {
                    proof {
                        assert(xs.skip(n)[0] == xs[n]);
                        assert(xs.skip(n).skip(1) =~= xs.skip(n + 1));
                        n = n + 1;
                    }
                    all.push(id.0);
                },
            }
        }
        let mut back: Vec<FactId> = Vec::new();
        let mut i: usize = all.len();
        let mut left: usize = state::SIMILAR_CANDIDATE_CAP;
        proof {
            assert(xs.take(i as int) =~= xs);
            let rest = state::recent(xs, fact, left as nat);
            assert(rest + reversed(back@) =~= rest);
        }
        while i > 0 && left > 0
            invariant
                i <= all@.len() == xs.len(),
                forall|k: int| 0 <= k < xs.len() ==> #[trigger] all@[k] == xs[k].0,
                state::recent(xs, fact, state::SIMILAR_CANDIDATE_CAP as nat) == state::recent(
                    xs.take(i as int),
                    fact,
                    left as nat,
                ) + reversed(back@),
            decreases i,
        {
            let id: u32 = all[i - 1];
            let ghost before = back@;
            proof {
                assert(xs.take(i as int).drop_last() =~= xs.take(i - 1));
                assert(xs.take(i as int).last() == xs[i - 1]);
            }
            if id != fact.0 {
                back.push(FactId(id));
                left = left - 1;
                proof {
                    let rest = state::recent(xs.take(i - 1), fact, left as nat);
                    assert(rest.push(FactId(id)) + reversed(before) =~= rest + reversed(back@));
                }
            }
            i = i - 1;
        }
        let mut out: Vec<FactId> = Vec::new();
        let mut j: usize = back.len();
        while j > 0
            invariant
                j <= back@.len(),
                out@ == reversed(back@).take(back@.len() - j),
            decreases j,
        {
            j = j - 1;
            out.push(back[j]);
            assert(out@ =~= reversed(back@).take(back@.len() - j));
        }
        assert(out@ =~= reversed(back@));
        assert(Seq::<FactId>::empty() + reversed(back@) =~= reversed(back@));
        out
    }

    /// Remembers one fact, with or without the similar-detection.
    fn remember_one<S: Storage>(
        &mut self,
        store: &mut S,
        input: &RememberInput<'_>,
        skip_similar: bool,
    ) -> (r: Result<RememberOutcome, Error>)
        requires
            old(self).wf(),
            state::journalable(
                state::remember_op(input@, FactId(NONE_U32), FactId(old(self)@.next_fact)),
            ),
        ensures
            final(self).sound(),
            final(self).readable(),
            r matches Err(Error::Invalid(_)) ==> final(self).wf(),
            r is Ok ==> whole::kept(old(self)@, final(self)@),
            match state::input_error(old(self)@, input@) {
                Some(e) => r == Err::<RememberOutcome, _>(e) && final(self)@ == old(self)@
                    && *final(store) == *old(store) && final(self).wf(),
                None => {
                    let (t, done) = state::remembered(old(self)@, input@, FactId(NONE_U32));
                    final(self)@ == t && match done {
                        Err(e) => r == Err::<RememberOutcome, _>(e) && *final(store) == *old(store),
                        Ok((id, entity)) => {
                            &&& final(self).wf()
                            &&& recorded(
                                old(self)@,
                                t,
                                id,
                                entity,
                                FactId(NONE_U32),
                                input@,
                            )
                            &&& match r {
                                Ok(out) => out.id == id && out.entity == entity && hinted(
                                    t,
                                    out,
                                    skip_similar,
                                ) && final(store).journal()
                                    == old(store).journal() + state::entry_of(
                                    state::remember_op(input@, FactId(NONE_U32), id),
                                ) && final(store).snapshot() == old(store).snapshot(),
                                Err(e) => e is Storage,
                            }
                        },
                    }
                },
            },
    {
        if let Err(e) = self.validate_input(input) {
            return Err(e);
        }
        let none: FactId = FactId::none();
        let (id, entity) = match self.apply_remember(input, none) {
            Ok(pair) => pair,
            Err(e) => {
                return Err(e);
            },
        };
        proof {
            whole::lemma_remember_kept(old(self)@, input@);
        }
        let similar: Vec<Overlap> = if skip_similar {
            Vec::new()
        } else {
            self.find_similar(id, entity)
        };
        if let Err(e) = journal_remember(store, input, none, id) {
            return Err(e);
        }
        Ok(RememberOutcome { id, entity, similar })
    }

    /// Remembers a new fact.
    ///
    /// A refused input leaves everything as it was. After any other failure
    /// the engine is to be reopened.
    pub fn remember<S: Storage>(&mut self, store: &mut S, input: RememberInput<'_>) -> (r: Result<
        RememberOutcome,
        Error,
    >)
        requires
            old(self).wf(),
            state::journalable(
                state::remember_op(input@, FactId(NONE_U32), FactId(old(self)@.next_fact)),
            ),
        ensures
            final(self).sound(),
            final(self).readable(),
            r matches Err(Error::Invalid(_)) ==> final(self).wf(),
            r is Ok ==> whole::kept(old(self)@, final(self)@),
            match state::input_error(old(self)@, input@) {
                Some(e) => r == Err::<RememberOutcome, _>(e) && final(self)@ == old(self)@
                    && *final(store) == *old(store) && final(self).wf(),
                None => {
                    let (t, done) = state::remembered(old(self)@, input@, FactId(NONE_U32));
                    final(self)@ == t && match done {
                        Err(e) => r == Err::<RememberOutcome, _>(e) && *final(store) == *old(store),
                        Ok((id, entity)) => {
                            &&& final(self).wf()
                            &&& recorded(
                                old(self)@,
                                t,
                                id,
                                entity,
                                FactId(NONE_U32),
                                input@,
                            )
                            &&& match r {
                                Ok(out) => out.id == id && out.entity == entity && hinted(
                                    t,
                                    out,
                                    false,
                                ) && final(store).journal()
                                    == old(store).journal() + state::entry_of(
                                    state::remember_op(input@, FactId(NONE_U32), id),
                                ) && final(store).snapshot() == old(store).snapshot(),
                                Err(e) => e is Storage,
                            }
                        },
                    }
                },
            },
    {
        self.remember_one(store, &input, false)
    }

    /// Batch import: a sequence of remembers, journaled individually.
    /// `skip_similar` turns off the similar-detection.
    ///
    /// Stops at the first error; inputs already applied stay applied and
    /// journaled.
    #[verifier::rlimit(40)]
    #[verifier::spinoff_prover]
    pub fn remember_batch<S: Storage>(
        &mut self,
        store: &mut S,
        inputs: &[RememberInput<'_>],
        skip_similar: bool,
    ) -> (r: Result<Vec<RememberOutcome>, Error>)
        requires
            old(self).wf(),
            forall|i: int, id: u32|
                #![trigger state::remember_op(inputs@[i]@, FactId(NONE_U32), FactId(id))]
                0 <= i < inputs@.len() ==> state::journalable(
                    state::remember_op(inputs@[i]@, FactId(NONE_U32), FactId(id)),
                ),
        ensures
            final(self).sound(),
            final(self).readable(),
            r matches Err(Error::Invalid(_)) ==> final(self).wf(),
            match r {
                Ok(outs) => {
                    let (t, pairs, done) = state::batched(old(self)@, input_views(inputs@));
                    &&& done is Ok
                    &&& final(self)@ == t
                    &&& final(self).wf()
                    &&& outcome_views(outs@) == pairs
                    &&& batch_hinted(old(self)@, input_views(inputs@), outs@, skip_similar)
                    &&& whole::kept(old(self)@, final(self)@)
                    &&& final(store).journal() == old(store).journal() + state::batch_entries(
                        input_views(inputs@),
                        old(self)@.next_fact as int,
                    )
                    &&& final(store).snapshot() == old(store).snapshot()
                },
                Err(e) => exists|n: int|
                    #![trigger input_views(inputs@).take(n)]
                    0 < n <= inputs@.len() && {
                        let (t, _, done) = state::batched(
                            old(self)@,
                            input_views(inputs@).take(n),
                        );
                        final(self)@ == t && match done {
                            Ok(()) => e is Storage,
                            Err(own) => {
                                &&& e == own
                                &&& final(store).journal() == old(store).journal()
                                    + state::batch_entries(
                                    input_views(inputs@).take(n - 1),
                                    old(self)@.next_fact as int,
                                )
                                &&& final(store).snapshot() == old(store).snapshot()
                            },
                        }
                    },
            },
    {
        let ghost s = self@;
        let ghost views = input_views(inputs@);
        let ghost none = FactId(NONE_U32);
        let mut outs: Vec<RememberOutcome> = Vec::new();
        let mut i: usize = 0;
        proof {
            assert(views.take(0) =~= Seq::empty());
            assert(outcome_views(outs@) =~= Seq::empty());
            assert(store.journal() + Seq::<u8>::empty() =~= store.journal());
            reveal(batch_hinted);
            whole::lemma_kept_same(s);
        }
        while i < inputs.len()
            invariant
                whole::kept(s, self@),
                i <= inputs@.len(),
                s == old(self)@,
                none == FactId(NONE_U32),
                views == input_views(inputs@),
                self.wf(),
                state::batched(s, views.take(i as int)) == (
                    self@,
                    outcome_views(outs@),
                    Ok::<(), Error>(()),
                ),
                self@.next_fact == s.next_fact + i,
                outs@.len() == i,
                batch_hinted(s, views, outs@, skip_similar),
                store.journal() == old(store).journal() + state::batch_entries(
                    views.take(i as int),
                    s.next_fact as int,
                ),
                store.snapshot() == old(store).snapshot(),
                forall|k: int, id: u32|
                    #![trigger state::remember_op(inputs@[k]@, FactId(NONE_U32), FactId(id))]
                    0 <= k < inputs@.len() ==> state::journalable(
                        state::remember_op(inputs@[k]@, FactId(NONE_U32), FactId(id)),
                    ),
            decreases inputs@.len() - i,
        {
            let input: &RememberInput<'_> = &inputs[i];
            let ghost here = self@;
            let ghost before = outcome_views(outs@);
            let ghost journaled = store.journal();
            proof {
                assert(views.take(i + 1).drop_last() =~= views.take(i as int));
                assert(views.take(i + 1).last() == input@);
                assert(state::journalable(
                    state::remember_op(inputs@[i as int]@, FactId(NONE_U32), FactId(self@.next_fact)),
                ));
            }
            let out: RememberOutcome = match self.remember_one(store, input, skip_similar) {
                Ok(o) => o,
                Err(e) => {
                    return Err(e);
                },
            };
            let ghost id = out.id;
            let ghost entity = out.entity;
            proof {
                lemma_one_more_hint(s, views, outs@, out, skip_similar);
                whole::lemma_kept_twice(s, here, self@);
            }
            outs.push(out);
            i = i + 1;
            proof {
                assert(outcome_views(outs@) =~= before.push((id, entity)));
                assert(old(store).journal() + state::batch_entries(
                    views.take(i as int),
                    s.next_fact as int,
                ) =~= journaled + state::entry_of(state::remember_op(input@, none, id)));
            }
        }
        assert(views.take(i as int) =~= views);
        Ok(outs)
    }

    /// Revises `target`: closes its validity at the new fact's start and
    /// records the new fact as its successor.
    pub fn revise<S: Storage>(&mut self, store: &mut S, target: FactId, input: RememberInput<'_>) -> (r: Result<
        RememberOutcome,
        Error,
    >)
        requires
            old(self).wf(),
            state::journalable(
                state::remember_op(input@, target, FactId(old(self)@.next_fact)),
            ),
        ensures
            final(self).sound(),
            final(self).readable(),
            r matches Err(Error::Invalid(_)) ==> final(self).wf(),
            match (state::input_error(old(self)@, input@), state::revise_error(old(self)@, target)) {
                (Some(e), _) => r == Err::<RememberOutcome, _>(e) && final(self)@ == old(self)@
                    && *final(store) == *old(store) && final(self).wf(),
                (None, Some(e)) => r == Err::<RememberOutcome, _>(e) && final(self)@ == old(self)@
                    && *final(store) == *old(store) && final(self).wf(),
                (None, None) => {
                    let (t, done) = state::remembered(old(self)@, input@, target);
                    match done {
                        Err(e) => r == Err::<RememberOutcome, _>(e) && final(self)@ == t
                            && *final(store) == *old(store),
                        Ok((id, entity)) => {
                            &&& final(self).wf()
                            &&& final(self)@ == state::target_closed(
                                t,
                                target,
                                state::start_of(input@),
                            )
                            &&& history::handed_over(old(self)@, final(self)@, target, input@)
                            &&& whole::kept(old(self)@, final(self)@)
                            &&& match r {
                                Ok(out) => out.id == id && out.entity == entity && out.similar@.len()
                                    == 0 && final(store).journal() == old(store).journal()
                                    + state::entry_of(state::remember_op(input@, target, id))
                                    && final(store).snapshot() == old(store).snapshot(),
                                Err(e) => e is Storage,
                            }
                        },
                    }
                },
            },
    {
        if let Err(e) = self.validate_input(&input) {
            return Err(e);
        }
        if let Err(e) = self.check_revisable(target) {
            return Err(e);
        }
        let (id, entity) = match self.apply_remember(&input, target) {
            Ok(pair) => pair,
            Err(e) => {
                return Err(e);
            },
        };
        let start: u64 = match input.valid_from {
            Some(t) => t,
            None => input.now,
        };
        self.close_target(target, start);
        proof {
            lemma_numbered(*old(self));
            history::a_revision_hands_over(old(self)@, target, input@);
            whole::lemma_revise_kept(old(self)@, target, input@);
        }
        if let Err(e) = journal_remember(store, &input, target, id) {
            return Err(e);
        }
        Ok(RememberOutcome { id, entity, similar: Vec::new() })
    }

    /// Tombstones a fact: it disappears from every query immediately.
    /// `Ok(false)` when it was forgotten already.
    pub fn forget<S: Storage>(&mut self, store: &mut S, now: u64, id: FactId) -> (r: Result<
        bool,
        Error,
    >)
        requires
            old(self).wf(),
        ensures
            final(self).wf(),
            final(self)@ == state::forgotten(old(self)@, id).0,
            match state::forgotten(old(self)@, id).1 {
                Err(e) => r == Err::<bool, _>(e) && *final(store) == *old(store),
                Ok(fresh) => match r {
                    Ok(b) => b == fresh && final(store).journal() == old(store).journal()
                        + state::entry_of(OpView::Forget { now, fact: id })
                        && final(store).snapshot() == old(store).snapshot(),
                    Err(e) => e is Storage,
                },
            },
            state::fact_of(old(self)@, id) is Some ==> history::let_go(
                old(self)@,
                final(self)@,
                id,
            ),
            whole::kept(old(self)@, final(self)@),
    {
        proof {
            self.facts.lemma_wf();
            whole::lemma_forget_kept(self@, id);
            if state::fact_of(self@, id) is Some {
                history::a_forgotten_fact_is_gone(self@, id);
            }
        }
        let fresh: bool = match self.apply_forget(id) {
            Ok(b) => b,
            Err(e) => {
                return Err(e);
            },
        };
        let op = Op::Forget { now, fact: id };
        proof {
            lemma_small_payload(op@);
        }
        let mut entry: Vec<u8> = Vec::new();
        op.encode(&mut entry);
        assert(entry@ =~= state::entry_of(op@));
        match store.append_journal(entry.as_slice()) {
            Ok(()) => Ok(fresh),
            Err(e) => Err(storage_failed(e)),
        }
    }

    /// Upserts a typed edge between two entities (created lazily).
    pub fn link<S: Storage>(&mut self, store: &mut S, input: LinkInput<'_>) -> (r: Result<(), Error>)
        requires
            old(self).wf(),
            state::journalable(link_op(input)),
        ensures
            final(self).sound(),
            final(self).readable(),
            r matches Err(Error::Invalid(_)) ==> final(self).wf(),
            ({
                let (t, done) = state::linked(
                    old(self)@,
                    input.now,
                    input.src@,
                    input.rel@,
                    input.dst@,
                    id_or_none(input.provenance),
                );
                &&& final(self)@ == t
                &&& match done {
                    Err(e) => r == Err::<(), _>(e) && *final(store) == *old(store),
                    Ok(()) => final(self).wf() && (links::source_sane(
                        id_or_none(input.provenance),
                        old(self)@.next_fact,
                    ) ==> whole::kept(old(self)@, t)) && match r {
                        Ok(()) => final(store).journal() == old(store).journal() + state::entry_of(
                            link_op(input),
                        ) && final(store).snapshot() == old(store).snapshot(),
                        Err(e) => e is Storage,
                    },
                }
            }),
    {
        let provenance: FactId = FactId::from_opt(input.provenance);
        if let Err(e) = self.apply_link(input.now, input.src, input.rel, input.dst, provenance) {
            return Err(e);
        }
        proof {
            if links::source_sane(provenance, old(self)@.next_fact) {
                whole::lemma_link_kept(
                    old(self)@,
                    input.now,
                    input.src@,
                    input.rel@,
                    input.dst@,
                    provenance,
                );
            }
        }
        let op = Op::Link {
            now: input.now,
            src: input.src,
            rel: input.rel,
            dst: input.dst,
            provenance,
        };
        let mut entry: Vec<u8> = Vec::new();
        op.encode(&mut entry);
        assert(entry@ =~= state::entry_of(op@));
        match store.append_journal(entry.as_slice()) {
            Ok(()) => Ok(()),
            Err(e) => Err(storage_failed(e)),
        }
    }

    /// A fact, unless it is forgotten (closed facts are returned; their
    /// interval says so).
    pub fn get(&self, id: FactId) -> (r: Option<FactView<'_>>)
        requires
            self.readable(),
        ensures
            match r {
                Some(v) => state::read_fact(self@, id) == Some((v.record, v.text@)),
                None => state::read_fact(self@, id) is None,
            },
    {
        let record: FactRecord = match self.fact(id) {
            Some(f) => f,
            None => {
                return None;
            },
        };
        if record.is_tombstone() {
            return None;
        }
        proof {
            self.facts.lemma_wf();
            table::lemma_rank(self.facts@, id.0 as int);
            let k = table::rank(self@.facts, id.0 as int);
            lemma_refs_readable(self@);
            reveal(state::readable);
            assert(self@.facts[k].text.0 < self@.texts.len());
        }
        match str_from_utf8(self.texts.get(record.text)) {
            Some(text) => Some(FactView { record, text }),
            None => None,
        }
    }

    /// The tag terms of a fact. A forgotten or unknown fact has none.
    pub fn tags_of(&self, id: FactId) -> (r: Vec<TermId>)
        requires
            self.readable(),
        ensures
            r@ == state::fact_tags(self@, id),
            forall|i: int| 0 <= i < r@.len() ==> (#[trigger] r@[i]).0 < self@.terms.len(),
    {
        let mut out: Vec<TermId> = Vec::new();
        match self.fact(id) {
            Some(f) => {
                if f.is_tombstone() {
                    assert(out@ =~= state::fact_tags(self@, id));
                    return out;
                }
            },
            None => {
                assert(out@ =~= state::fact_tags(self@, id));
                return out;
            },
        }
        let aux: FactAux = match self.fact_aux.get(id.0 as u128) {
            Some(a) => a,
            None => {
                assert(out@ =~= state::fact_tags(self@, id));
                return out;
            },
        };
        proof {
            self.fact_aux.lemma_wf();
            table::lemma_rank(self.fact_aux@, id.0 as int);
            let k = table::rank(self@.aux, id.0 as int);
            lemma_refs_readable(self@);
            reveal(state::readable);
            assert(state::aux_ok(self@, self@.aux[k]));
        }
        if aux.tags.list == NONE_U32 && aux.tags.bytes == 0 && aux.tags.reserved == 0 {
            assert(out@ =~= state::fact_tags(self@, id));
            return out;
        }
        let list: &[u8] = self.tag_lists.get(BlobId(aux.tags.list));
        let n: usize = list.len() / 4;
        let total: usize = list.len();
        let mut i: usize = 0;
        while i < n
            invariant
                i <= n,
                n == total / 4,
                total == list@.len(),
                list@ == self@.tag_lists[aux.tags.list as int],
                aux.tags.bytes == total,
                forall|k: int|
                    0 <= k < aux.tags.bytes / 4 ==> #[trigger] state::tag_at(list@, k)
                        < self@.terms.len(),
                out@.len() == i,
                forall|k: int|
                    0 <= k < i ==> (#[trigger] out@[k]).0 == state::tag_at(list@, k) && out@[k].0
                        < self@.terms.len(),
            decreases n - i,
        {
            let v: u32 = get_be32(list, 4 * i);
            assert(state::tag_at(list@, i as int) == v);
            out.push(TermId(v));
            i = i + 1;
        }
        assert(out@ =~= state::fact_tags(self@, id));
        out
    }

    /// Resolves an entity by name (normalized), without creating it.
    pub fn entity(&self, name: &str) -> (r: Option<EntityId>)
        requires
            self.sound(),
        ensures
            r == state::entity_found(self@, name@),
    {
        let norm: String = self.normalize_name(name);
        if norm.as_str().unicode_len() == 0 {
            None
        } else {
            self.lookup_entity_by_norm(norm.as_str())
        }
    }

    /// The string behind a term id (tags, relations).
    pub fn term(&self, id: TermId) -> (r: &str)
        requires
            id.0 < self@.terms.len(),
        ensures
            r@ == self@.terms[id.0 as int],
    {
        self.terms.resolve(id)
    }

    /// Number of facts on record (including forgotten ones, until a
    /// compaction purges them).
    pub fn facts_len(&self) -> (r: usize)
        ensures
            r == self@.facts.len(),
    {
        self.facts.len()
    }

    /// Which model the vectors come from; `None` where that is not tracked.
    pub fn vector_space(&self) -> (r: Option<&str>)
        ensures
            match r {
                Some(name) => self@.space == Some(name@),
                None => self@.space is None,
            },
    {
        match &self.vector_space {
            Some(name) => Some(name.as_str()),
            None => None,
        }
    }

    /// Number of entities.
    pub fn entities_len(&self) -> (r: usize)
        ensures
            r == self@.entities.len(),
    {
        self.entities.len()
    }

    /// The engine configuration.
    pub fn cfg(&self) -> (r: &Config)
        ensures
            *r == self@.cfg,
    {
        &self.cfg
    }
}

/// The hints of an outcome: the overlaps with recent facts of the subject.
pub open spec fn hinted(t: State, out: RememberOutcome, skip: bool) -> bool {
    if skip {
        out.similar@.len() == 0
    } else {
        overlap_views(out.similar@) == state::overlaps(t, out.id, out.entity)
    }
}

/// The hints of a batch: each outcome holds those of the state behind its own
/// input.
#[verifier::opaque]
pub open spec fn batch_hinted(
    s: State,
    inputs: Seq<InputView>,
    outs: Seq<RememberOutcome>,
    skip: bool,
) -> bool {
    forall|i: int|
        0 <= i < outs.len() ==> hinted(
            state::batched(s, inputs.take(i + 1)).0,
            #[trigger] outs[i],
            skip,
        )
}

proof fn lemma_one_more_hint(
    s: State,
    inputs: Seq<InputView>,
    outs: Seq<RememberOutcome>,
    out: RememberOutcome,
    skip: bool,
)
    requires
        batch_hinted(s, inputs, outs, skip),
        hinted(state::batched(s, inputs.take(outs.len() as int + 1)).0, out, skip),
    ensures
        batch_hinted(s, inputs, outs.push(out), skip),
{
    reveal(batch_hinted);
    let all = outs.push(out);
    assert forall|i: int| 0 <= i < all.len() implies hinted(
        state::batched(s, inputs.take(i + 1)).0,
        #[trigger] all[i],
        skip,
    ) by {
        if i < outs.len() {
            assert(all[i] == outs[i]);
        }
    }
}

pub open spec fn input_views(xs: Seq<RememberInput<'_>>) -> Seq<InputView> {
    xs.map_values(|x: RememberInput<'_>| x@)
}

pub open spec fn outcome_views(xs: Seq<RememberOutcome>) -> Seq<(FactId, Option<EntityId>)> {
    xs.map_values(|x: RememberOutcome| (x.id, x.entity))
}

/// A sequence backwards.
pub open spec fn reversed(xs: Seq<FactId>) -> Seq<FactId> {
    Seq::new(xs.len(), |i: int| xs[xs.len() - 1 - i])
}

/// The id, or the sentinel.
pub open spec fn id_or_none(id: Option<FactId>) -> FactId {
    match id {
        Some(f) => f,
        None => FactId(NONE_U32),
    }
}

/// The journal record of a link.
pub open spec fn link_op(input: LinkInput<'_>) -> OpView {
    OpView::Link {
        now: input.now,
        src: input.src@,
        rel: input.rel@,
        dst: input.dst@,
        provenance: id_or_none(input.provenance),
    }
}

/// The text of a failure.
///
/// Calls `format!` with the debug form of the failure. Nothing is claimed of
/// the text: each storage writes its own.
#[verifier::external_body]
fn failure_text<E: core::fmt::Debug>(e: E) -> (r: String) {
    format!("{e:?}")
}

/// The error of a storage that failed, with the text of its failure.
pub(crate) fn storage_failed<E: core::fmt::Debug>(e: E) -> (r: Error)
    ensures
        r is Storage,
{
    Error::Storage(failure_text(e))
}

fn has_duplicate_key(pairs: &[(&str, &str)]) -> (r: bool)
    ensures
        r == metadata::has_duplicate(metadata::pair_views(pairs@)),
{
    metadata::encode(pairs).is_err()
}

pub(crate) proof fn lemma_small_payload(op: OpView)
    requires
        op is Forget || op is Maintain,
    ensures
        journal::op_payload(op).len() < u32::MAX,
{
    match op {
        OpView::Forget { now, fact } => {
            codec::lemma_le_bytes_len(now as nat, 8);
            codec::lemma_le_bytes_len(fact.0 as nat, 4);
        },
        OpView::Maintain { now, mode, max_hnsw_inserts } => {
            codec::lemma_le_bytes_len(now as nat, 8);
            codec::lemma_le_bytes_len(max_hnsw_inserts as nat, 4);
        },
        _ => {},
    }
}

fn strs_of<'a>(xs: &[&'a str]) -> (r: Vec<&'a str>)
    ensures
        r@ == xs@,
{
    let mut out: Vec<&'a str> = Vec::new();
    let mut i: usize = 0;
    while i < xs.len()
        invariant
            i <= xs@.len(),
            out@ == xs@.take(i as int),
        decreases xs@.len() - i,
    {
        out.push(xs[i]);
        i = i + 1;
        assert(out@ =~= xs@.take(i as int));
    }
    assert(xs@.take(i as int) =~= xs@);
    out
}

fn pairs_of<'a>(xs: &[(&'a str, &'a str)]) -> (r: Vec<(&'a str, &'a str)>)
    ensures
        r@ == xs@,
{
    let mut out: Vec<(&'a str, &'a str)> = Vec::new();
    let mut i: usize = 0;
    while i < xs.len()
        invariant
            i <= xs@.len(),
            out@ == xs@.take(i as int),
        decreases xs@.len() - i,
    {
        out.push(xs[i]);
        i = i + 1;
        assert(out@ =~= xs@.take(i as int));
    }
    assert(xs@.take(i as int) =~= xs@);
    out
}

/// Journals a new fact.
fn journal_remember<S: Storage>(
    store: &mut S,
    input: &RememberInput<'_>,
    revises: FactId,
    assigned: FactId,
) -> (r: Result<(), Error>)
    requires
        state::journalable(state::remember_op(input@, revises, assigned)),
    ensures
        match r {
            Ok(()) => final(store).journal() == old(store).journal() + state::entry_of(
                state::remember_op(input@, revises, assigned),
            ) && final(store).snapshot() == old(store).snapshot(),
            Err(e) => e is Storage,
        },
{
    let valid_from: u64 = match input.valid_from {
        Some(t) => t,
        None => input.now,
    };
    let op = Op::Remember {
        now: input.now,
        valid_from,
        entity: input.entity,
        text: input.text,
        tags: strs_of(input.tags),
        links: pairs_of(input.links),
        vector: Vec::new(),
        metadata: pairs_of(input.metadata),
        revises,
        assigned,
    };
    assert(op@ == state::remember_op(input@, revises, assigned));
    let mut entry: Vec<u8> = Vec::new();
    op.encode(&mut entry);
    assert(entry@ =~= state::entry_of(op@));
    match store.append_journal(entry.as_slice()) {
        Ok(()) => Ok(()),
        Err(e) => Err(storage_failed(e)),
    }
}

/// Inserts a row, or replaces the row of the same key.
fn upsert<T: Slot>(rows: &mut Table<T>, row: T) -> (r: Result<(), ArenaError>)
    requires
        old(rows).wf(),
    ensures
        final(rows).wf(),
        final(rows).ceiling() == old(rows).ceiling(),
        match r {
            Ok(()) => state::upserted(old(rows)@, old(rows).ceiling(), row) == Ok::<_, ArenaError>(
                final(rows)@,
            ),
            Err(e) => state::upserted(old(rows)@, old(rows).ceiling(), row) == Err::<Seq<T>, _>(e)
                && final(rows)@ == old(rows)@,
        },
{
    match rows.insert(row) {
        Err(e) => Err(e),
        Ok(fresh) => {
            if !fresh {
                rows.set(row);
            }
            Ok(())
        },
    }
}

pub(crate) fn has_value(xs: &Vec<u32>, x: u32) -> (r: bool)
    ensures
        r == xs@.contains(x),
{
    let mut i: usize = 0;
    while i < xs.len()
        invariant
            i <= xs@.len(),
            forall|k: int| 0 <= k < i ==> xs@[k] != x,
        decreases xs@.len() - i,
    {
        if xs[i] == x {
            return true;
        }
        i = i + 1;
    }
    false
}

/// Counts one more occurrence of a term.
pub(crate) fn bump(pairs: &mut Vec<(u32, u8)>, term: u32)
    ensures
        final(pairs)@ == state::bumped(old(pairs)@, term),
        bm25::terms_once(old(pairs)@) ==> bm25::terms_once(final(pairs)@),
{
    let mut i: usize = 0;
    while i < pairs.len() && pairs[i].0 != term
        invariant
            i <= pairs@.len(),
            state::pair_at(pairs@, term, 0) == state::pair_at(pairs@, term, i as int),
            forall|k: int| 0 <= k < i ==> (#[trigger] pairs@[k]).0 != term,
        decreases pairs@.len() - i,
    {
        i = i + 1;
    }
    if i < pairs.len() {
        let n: u8 = pairs[i].1;
        let more: u8 = if n == 255 { 255 } else { n + 1 };
        pairs.set(i, (term, more));
    } else {
        pairs.push((term, 1));
    }
}

proof fn lemma_words_err(s: State, words: Seq<Seq<char>>, n: int)
    requires
        0 <= n <= words.len(),
        state::words_counted(s, words.take(n)).2 is Err,
    ensures
        state::words_counted(s, words) == state::words_counted(s, words.take(n)),
    decreases words.len() - n,
{
    if n == words.len() {
        assert(words.take(n) =~= words);
    } else {
        assert(words.take(n + 1).drop_last() =~= words.take(n));
        lemma_words_err(s, words, n + 1);
    }
}

proof fn lemma_links_err(
    s: State,
    src: EntityId,
    links: Seq<(Seq<char>, Seq<char>)>,
    fact: FactId,
    now: u64,
    n: int,
)
    requires
        0 <= n <= links.len(),
        state::links_added(s, src, links.take(n), fact, now).1 is Err,
    ensures
        state::links_added(s, src, links, fact, now) == state::links_added(
            s,
            src,
            links.take(n),
            fact,
            now,
        ),
    decreases links.len() - n,
{
    if n == links.len() {
        assert(links.take(n) =~= links);
    } else {
        assert(links.take(n + 1).drop_last() =~= links.take(n));
        lemma_links_err(s, src, links, fact, now, n + 1);
    }
}

proof fn lemma_tags_err(s: State, tags: Seq<Seq<char>>, fact: FactId, n: int)
    requires
        0 <= n <= tags.len(),
        state::tags_added(s, tags.take(n), fact).2 is Err,
    ensures
        state::tags_added(s, tags, fact) == state::tags_added(s, tags.take(n), fact),
    decreases tags.len() - n,
{
    if n == tags.len() {
        assert(tags.take(n) =~= tags);
    } else {
        assert(tags.take(n + 1).drop_last() =~= tags.take(n));
        lemma_tags_err(s, tags, fact, n + 1);
    }
}

/// A term id read back from a stored tag list.
pub proof fn lemma_tag_at(list: Seq<u32>, k: int)
    requires
        0 <= k < list.len(),
    ensures
        state::tag_bytes(list).len() == 4 * list.len(),
        state::tag_at(state::tag_bytes(list), k) == list[k],
    decreases list.len(),
{
    let enc = |t: u32| codec::be32(t);
    let front = list.drop_last();
    let b = state::tag_bytes(list);
    assert(front.push(list.last()) =~= list);
    parse::lemma_flat_push(enc, front, list.last());
    codec::lemma_pow256();
    codec::lemma_be_bytes_len(list.last() as nat, 4);
    codec::lemma_be_round_trip(list.last() as nat, 4);
    let head = state::tag_bytes(front);
    assert(b == head + codec::be32(list.last()));
    if front.len() > 0 {
        lemma_tag_at(front, if k < front.len() { k } else { 0 });
    } else {
        assert(head =~= Seq::empty());
    }
    if k < front.len() {
        assert(b.subrange(4 * k, 4 * k + 4) =~= head.subrange(4 * k, 4 * k + 4));
    } else {
        assert(b.subrange(4 * k, 4 * k + 4) =~= codec::be32(list.last()));
    }
}

/// A record without flags is neither forgotten nor closed.
/// The facts of a usable engine are in order and below the next id.
pub proof fn lemma_numbered(m: Memory)
    requires
        m.wf(),
    ensures
        replay::numbered(m@),
{
    m.facts.lemma_wf();
    assert forall|i: int| 0 <= i < m@.facts.len() implies (#[trigger] m@.facts[i]).id.0
        < m@.next_fact by {
        assert(state::fact_ok(m@, m@.facts[i]));
    }
}

/// A link is refused as invalid only for the name of its target, and then
/// nothing is written.
proof fn lemma_invalid_link(
    s: State,
    src: EntityId,
    link: (Seq<char>, Seq<char>),
    fact: FactId,
    now: u64,
)
    requires
        state::link_added(s, src, link, fact, now).1 matches Err(Error::Invalid(_)),
    ensures
        state::nameless(link.1),
        state::link_added(s, src, link, fact, now).0 == s,
{
}

proof fn lemma_invalid_links(
    s: State,
    src: EntityId,
    links: Seq<(Seq<char>, Seq<char>)>,
    fact: FactId,
    now: u64,
)
    requires
        state::links_added(s, src, links, fact, now).1 matches Err(Error::Invalid(_)),
    ensures
        exists|i: int| 0 <= i < links.len() && state::nameless((#[trigger] links[i]).1),
    decreases links.len(),
{
    if links.len() > 0 {
        let init = links.drop_last();
        let (t, r) = state::links_added(s, src, init, fact, now);
        if r is Err {
            lemma_invalid_links(s, src, init, fact, now);
            let i = choose|i: int| 0 <= i < init.len() && state::nameless((#[trigger] init[i]).1);
            assert(state::nameless(links[i].1));
        } else {
            lemma_invalid_link(t, src, links.last(), fact, now);
            assert(state::nameless(links[links.len() - 1].1));
        }
    }
}

proof fn lemma_words_valid(s: State, words: Seq<Seq<char>>)
    ensures
        !(state::words_counted(s, words).2 matches Err(Error::Invalid(_))),
    decreases words.len(),
{
    if words.len() > 0 {
        lemma_words_valid(s, words.drop_last());
    }
}

proof fn lemma_tags_valid(s: State, tags: Seq<Seq<char>>, fact: FactId)
    ensures
        !(state::tags_added(s, tags, fact).2 matches Err(Error::Invalid(_))),
    decreases tags.len(),
{
    if tags.len() > 0 {
        lemma_tags_valid(s, tags.drop_last(), fact);
    }
}

/// A fact is refused as invalid before anything is written.
pub proof fn an_invalid_fact_changes_nothing(s: State, input: InputView, revises: FactId)
    requires
        state::remembered(s, input, revises).1 matches Err(Error::Invalid(_)),
        !metadata::has_duplicate(input.metadata),
    ensures
        state::remembered(s, input, revises).0 == s,
        state::unnamed(input),
{
    reveal(state::remembered);
    if !state::unnamed(input) {
        let id = FactId(s.next_fact);
        let (t1, r1) = state::subject_resolved(s, input);
        let (t2, r2) = state::text_stored(t1, encode_utf8(input.text));
        lemma_words_valid(t2, state::tokens(input.text));
        let (t3, pairs, r3) = state::words_counted(t2, state::tokens(input.text));
        let (t4, r4) = state::doc_added(t3, id, pairs);
        let here = FactId(t4.next_fact);
        lemma_tags_valid(t4, input.tags, here);
        let (t5, list, r5) = state::tags_added(t4, input.tags, here);
        let (t6, r6) = state::tags_stored(t5, list);
        let (t7, r7) = state::meta_stored(t6, input.metadata);
        if r7 is Ok && input.entity is Some && r1 is Ok {
            let aux = FactAux { id: here, tags: r6->Ok_0, meta: r7->Ok_0 };
            let (t8, r8) = state::aux_added(t7, aux);
            let src = r1->Ok_0->0;
            if state::links_added(t8, src, input.links, here, input.now).1 matches Err(
                Error::Invalid(_),
            ) {
                lemma_invalid_links(t8, src, input.links, here, input.now);
            }
        }
    }
}

pub(crate) proof fn lemma_no_flags()
    ensures
        forall|f: FactRecord| f.flags == 0 ==> !#[trigger] f.tombstone() && !f.closed(),
{
    assert(0u16 & model::fact_flags::TOMBSTONE == 0) by (bit_vector);
    assert(0u16 & model::fact_flags::CLOSED == 0) by (bit_vector);
}

proof fn lemma_interned_id(s: State, t: Seq<char>)
    requires
        s.terms.len() <= u32::MAX,
        state::term_interned(s, t).1 is Ok,
    ensures
        state::term_interned(s, t).1->Ok_0.0 < state::term_interned(s, t).0.terms.len(),
{
    if let Some(id) = interner::lookup_of(s.terms, t) {
        assert(id.0 < s.terms.len());
    }
}

/// A row that is in a table after an insertion was there before, or is the new
/// one.
pub(crate) proof fn lemma_rows<T: Slot>(rows: Seq<T>, out: Seq<T>, max_bytes: int, row: T)
    requires
        table::ascending(rows),
        table::inserted(rows, max_bytes, row) matches Ok(x) && x.0 == out,
    ensures
        forall|i: int|
            0 <= i < out.len() ==> #[trigger] out[i] == row || rows.contains(out[i]),
{
    table::lemma_rank(rows, row.key());
    let r = table::rank(rows, row.key());
    if table::has_key(rows, row.key()) {
        assert(out == rows);
    } else {
        assert(out == rows.insert(r, row));
        assert forall|i: int| 0 <= i < out.len() implies #[trigger] out[i] == row || rows.contains(
            out[i],
        ) by {
            if i < r {
                assert(rows[i] == out[i]);
            } else if i > r {
                assert(rows[i - 1] == out[i]);
            }
        }
    }
}

} // verus!
