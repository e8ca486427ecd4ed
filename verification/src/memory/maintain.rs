//! Maintenance: tombstone purge and compaction.
//!
//! A pass reclaims the space of forgotten facts without renumbering ids. The
//! record of a forgotten fact is not carried into the rebuilt tables; its id
//! stays burned, because ids are handed out by a persisted counter. Every
//! satellite structure is rebuilt from the living facts alone, in id order, so
//! a pass is deterministic and a replay of its journal marker reproduces it.
//!
//! The order of a pass is check-first: the whole new state is built and the
//! journal marker is appended before anything is swapped in.
//!
//! The vector graph is carried over or reset here. Linking new slots into it
//! compares vectors in floating point and is the host's part.

use crate::config::Config;
use crate::error::{ArenaError, Error};
use crate::heap;
use crate::id::{BlobId, FactId, NONE_U32};
use crate::index::bm25;
use crate::index::bm25::{Bm25Index, Bm25State};
use crate::index::hnsw;
use crate::index::hnsw::{HnswGraph, HnswState};
use crate::index::postings;
use crate::index::vecpool;
use crate::index::vecpool::VecPool;
use crate::interner;
use crate::journal::{Op, OpView};
use crate::memory::graph;
use crate::memory::persist;
use crate::memory::persist::Sections;
use crate::memory::state;
use crate::memory::state::State;
use crate::memory;
use crate::memory::compaction;
use crate::memory::whole;
use crate::memory::{bump, has_value, storage_failed, Memory, TOKENIZER_INDEX_VERSION};
use crate::model;
use crate::model::{
    EdgeHistorySlot, EdgeSlot, EntityRecord, FactAux, FactRecord, ListHandle, Slot, TemporalSlot,
};
use crate::snapshot::SnapshotSink;
use crate::storage::Storage;
use crate::table;
use crate::table::{arena_err, Table};
use crate::text::str_from_utf8;
use crate::tokenizer::emit;
use vstd::prelude::*;
use vstd::string::*;
use vstd::utf8::*;

verus! {

/// Vector slots that a bounded pass may link.
pub const AUTO_HNSW_INSERT_BUDGET: usize = 4096;

/// The journal's word for no limit.
pub const NO_HNSW_INSERT_LIMIT: u32 = 0xFFFF_FFFF;

/// The maintenance work requested by a caller.
#[derive(Clone, Copy, Debug, PartialEq, Eq, Structural)]
pub enum MaintenanceMode {
    /// Do the minimum necessary work.
    Auto,
    /// Physically purge forgotten facts and compact the indexes.
    Compact,
    /// Rebuild the lexical index by reading and tokenizing live text.
    ReindexText,
    /// Advance or reset the vector graph without compacting facts.
    OptimizeVectors,
    /// Rebuild every rebuildable structure.
    Full,
}

impl Default for MaintenanceMode {
    fn default() -> (r: MaintenanceMode)
        ensures
            r == MaintenanceMode::Auto,
    {
        MaintenanceMode::Auto
    }
}

/// Options for a maintenance pass.
#[derive(Clone, Copy, Debug, PartialEq, Eq, Structural)]
pub struct MaintenanceOptions {
    /// The requested maintenance mode.
    pub mode: MaintenanceMode,
    /// Maximum vector slots to link in this pass. `None` means no limit.
    pub max_hnsw_inserts: Option<usize>,
}

/// The journal's number of a mode.
pub open spec fn mode_number(mode: MaintenanceMode) -> u8 {
    match mode {
        MaintenanceMode::Auto => 0,
        MaintenanceMode::Compact => 1,
        MaintenanceMode::ReindexText => 2,
        MaintenanceMode::OptimizeVectors => 3,
        MaintenanceMode::Full => 4,
    }
}

/// The journal's word for a budget.
pub open spec fn budget_word(budget: Option<usize>) -> u32 {
    match budget {
        None => NO_HNSW_INSERT_LIMIT,
        Some(n) => if n > u32::MAX {
            (u32::MAX - 1) as u32
        } else {
            n as u32
        },
    }
}

/// The options that two journal fields stand for.
pub open spec fn options_of(mode: u8, word: u32) -> Result<MaintenanceOptions, Error> {
    let max_hnsw_inserts = if word == NO_HNSW_INSERT_LIMIT {
        None
    } else {
        Some(word as usize)
    };
    if mode == 0 {
        Ok(MaintenanceOptions { mode: MaintenanceMode::Auto, max_hnsw_inserts })
    } else if mode == 1 {
        Ok(MaintenanceOptions { mode: MaintenanceMode::Compact, max_hnsw_inserts })
    } else if mode == 2 {
        Ok(MaintenanceOptions { mode: MaintenanceMode::ReindexText, max_hnsw_inserts })
    } else if mode == 3 {
        Ok(MaintenanceOptions { mode: MaintenanceMode::OptimizeVectors, max_hnsw_inserts })
    } else if mode == 4 {
        Ok(MaintenanceOptions { mode: MaintenanceMode::Full, max_hnsw_inserts })
    } else {
        Err(Error::Corrupt("journal maintenance mode is invalid"))
    }
}

/// Options read back from the journal are the options that were written, for
/// budgets below the journal's word for no limit.
pub proof fn options_round_trip(o: MaintenanceOptions)
    requires
        o.max_hnsw_inserts matches Some(n) ==> n < NO_HNSW_INSERT_LIMIT,
    ensures
        options_of(mode_number(o.mode), budget_word(o.max_hnsw_inserts)) == Ok::<_, Error>(o),
{
}

impl Default for MaintenanceOptions {
    fn default() -> (r: MaintenanceOptions)
        ensures
            r == (MaintenanceOptions {
                mode: MaintenanceMode::Auto,
                max_hnsw_inserts: Some(AUTO_HNSW_INSERT_BUDGET),
            }),
    {
        MaintenanceOptions::auto()
    }
}

impl MaintenanceOptions {
    /// Bounded production-oriented maintenance.
    pub fn auto() -> (r: MaintenanceOptions)
        ensures
            r == (MaintenanceOptions {
                mode: MaintenanceMode::Auto,
                max_hnsw_inserts: Some(AUTO_HNSW_INSERT_BUDGET),
            }),
    {
        MaintenanceOptions {
            mode: MaintenanceMode::Auto,
            max_hnsw_inserts: Some(AUTO_HNSW_INSERT_BUDGET),
        }
    }

    /// Full offline rebuild.
    pub fn full() -> (r: MaintenanceOptions)
        ensures
            r == (MaintenanceOptions { mode: MaintenanceMode::Full, max_hnsw_inserts: None }),
    {
        MaintenanceOptions { mode: MaintenanceMode::Full, max_hnsw_inserts: None }
    }

    /// The options that two journal fields stand for.
    pub fn from_journal(mode: u8, max_hnsw_inserts: u32) -> (r: Result<MaintenanceOptions, Error>)
        ensures
            r == options_of(mode, max_hnsw_inserts),
    {
        let budget: Option<usize> = if max_hnsw_inserts == NO_HNSW_INSERT_LIMIT {
            None
        } else {
            Some(max_hnsw_inserts as usize)
        };
        let mode: MaintenanceMode = match mode {
            0 => MaintenanceMode::Auto,
            1 => MaintenanceMode::Compact,
            2 => MaintenanceMode::ReindexText,
            3 => MaintenanceMode::OptimizeVectors,
            4 => MaintenanceMode::Full,
            _ => {
                return Err(Error::Corrupt("journal maintenance mode is invalid"));
            },
        };
        Ok(MaintenanceOptions { mode, max_hnsw_inserts: budget })
    }

    /// The journal's number of the mode.
    pub fn journal_mode(self) -> (r: u8)
        ensures
            r == mode_number(self.mode),
    {
        match self.mode {
            MaintenanceMode::Auto => 0,
            MaintenanceMode::Compact => 1,
            MaintenanceMode::ReindexText => 2,
            MaintenanceMode::OptimizeVectors => 3,
            MaintenanceMode::Full => 4,
        }
    }

    /// The journal's word for the budget.
    pub fn journal_max_hnsw_inserts(self) -> (r: u32)
        ensures
            r == budget_word(self.max_hnsw_inserts),
    {
        match self.max_hnsw_inserts {
            None => NO_HNSW_INSERT_LIMIT,
            Some(n) => if n as u64 > u32::MAX as u64 {
                u32::MAX - 1
            } else {
                n as u32
            },
        }
    }
}

/// Report of a maintenance pass.
#[derive(Clone, Copy, Debug, PartialEq, Eq, Structural)]
pub struct MaintainReport {
    /// Forgotten facts physically removed by this pass.
    pub purged: usize,
    /// Bytes across the rebuilt pools before the pass.
    pub bytes_before: u128,
    /// Bytes across the rebuilt pools after the pass.
    pub bytes_after: u128,
    /// The selected mode had no work to do.
    pub no_op: bool,
    /// Forgotten records present before the pass.
    pub tombstones_before: usize,
    /// Fact records before the pass.
    pub facts_before: usize,
    /// Fact records after the pass.
    pub facts_after: usize,
    /// Vector slots before the pass.
    pub vectors_before: usize,
    /// Vector slots after the pass.
    pub vectors_after: usize,
    /// Graph coverage before the pass.
    pub hnsw_indexed_before: u32,
    /// Graph coverage after the pass.
    pub hnsw_indexed_after: u32,
    /// Physical fact, text and vector compaction ran.
    pub structural_compacted: bool,
    /// The lexical index was compacted without re-tokenizing text.
    pub bm25_compacted: bool,
    /// The lexical index was rebuilt by reading and tokenizing live text.
    pub bm25_reindexed: bool,
    /// The graph was started anew. It holds only what the host linked for this
    /// pass, and no node where the host linked none.
    pub hnsw_rebuilt: bool,
    /// The graph was carried over.
    pub hnsw_remapped: bool,
    /// Slots that the host linked into the graph for this pass. Links rest on
    /// floating-point similarities: a pass that the host has not linked
    /// reports 0.
    pub hnsw_inserted: u32,
    /// The edge tables were rewritten. No version is ever dropped.
    pub edges_compacted: bool,
    /// Current edges before the pass.
    pub edges_before: usize,
    /// Historical edge versions before the pass.
    pub edge_versions_before: usize,
}

/// What a pass will do.
#[derive(Clone, Copy, Debug, PartialEq, Eq, Structural)]
pub struct WorkPlan {
    pub compact: bool,
    pub bm25_reindex: bool,
    pub optimize_vectors: bool,
    pub hnsw_full_rebuild: bool,
    pub repack_edges: bool,
    pub max_hnsw_inserts: Option<usize>,
}

impl WorkPlan {
    /// Some part of the plan is set.
    pub open spec fn needed(self) -> bool {
        self.compact || self.bm25_reindex || self.optimize_vectors || self.repack_edges
    }

    /// Whether the plan has anything to do.
    pub fn needs_work(self) -> (r: bool)
        ensures
            r == self.needed(),
    {
        self.compact || self.bm25_reindex || self.optimize_vectors || self.repack_edges
    }
}

/// How far a pass may advance the graph.
pub open spec fn target_of(start: u32, total: u32, budget: Option<usize>) -> u32 {
    match budget {
        None => total,
        Some(max) => if start + max > total {
            total
        } else {
            (start + max) as u32
        },
    }
}

/// How far a pass may advance the graph: the whole pool, or `start` plus the
/// budget.
pub fn hnsw_target(start: u32, total: u32, max_hnsw_inserts: Option<usize>) -> (r: u32)
    ensures
        r == target_of(start, total, max_hnsw_inserts),
{
    match max_hnsw_inserts {
        None => total,
        Some(max) => {
            let sum: u128 = start as u128 + max as u128;
            if sum > total as u128 {
                total
            } else {
                sum as u32
            }
        },
    }
}

/// The number of vectors stored.
pub open spec fn vectors(s: State) -> int {
    vecpool::slot_count(s.cfg.dim as int, s.vecs)
}

/// Some document's term summary is unknown.
pub open spec fn summaries_missing(s: State) -> bool {
    bm25::missing_summary(s.bm25.docs)
}

/// The plan of a pass.
pub open spec fn plan_of(s: State, o: MaintenanceOptions) -> WorkPlan {
    let stale = s.tokenizer_version != TOKENIZER_INDEX_VERSION;
    let dead = s.tombstones != 0;
    let due = dead || summaries_missing(s);
    let graphed = s.cfg.dim != 0 && vectors(s) >= s.cfg.flat_to_hnsw;
    let tail = graphed && s.graph.indexed < vectors(s);
    match o.mode {
        MaintenanceMode::Auto => WorkPlan {
            compact: due,
            bm25_reindex: stale,
            optimize_vectors: tail,
            hnsw_full_rebuild: false,
            repack_edges: false,
            max_hnsw_inserts: o.max_hnsw_inserts,
        },
        MaintenanceMode::Compact => WorkPlan {
            compact: due,
            bm25_reindex: stale,
            optimize_vectors: dead && s.graph.indexed != 0,
            hnsw_full_rebuild: false,
            repack_edges: false,
            max_hnsw_inserts: o.max_hnsw_inserts,
        },
        MaintenanceMode::ReindexText => WorkPlan {
            compact: due,
            bm25_reindex: true,
            optimize_vectors: dead && s.graph.indexed != 0,
            hnsw_full_rebuild: false,
            repack_edges: false,
            max_hnsw_inserts: o.max_hnsw_inserts,
        },
        MaintenanceMode::OptimizeVectors => WorkPlan {
            compact: false,
            bm25_reindex: false,
            optimize_vectors: graphed && (tail || s.graph.indexed == 0),
            hnsw_full_rebuild: s.graph.indexed == 0,
            repack_edges: false,
            max_hnsw_inserts: o.max_hnsw_inserts,
        },
        MaintenanceMode::Full => WorkPlan {
            compact: true,
            bm25_reindex: true,
            optimize_vectors: graphed,
            hnsw_full_rebuild: true,
            repack_edges: s.hist_out.len() > 0,
            max_hnsw_inserts: None,
        },
    }
}

/// A rebuild in progress.
#[verifier::ext_equal]
pub struct Carry {
    /// The structures built so far.
    pub state: State,
    /// Vector slot to its new number.
    pub map: Seq<u32>,
    /// Forgotten facts passed over.
    pub purged: nat,
}

/// Empty structures under the same configuration and counters.
pub open spec fn cleared(s: State) -> State {
    State {
        next_fact: s.next_fact,
        next_entity: s.next_entity,
        ..state::empty_state(s.cfg, TOKENIZER_INDEX_VERSION)
    }
}

/// One entity carried over, its name stored anew.
pub open spec fn entity_carried(s: State, b: State, eid: int) -> Result<State, Error> {
    match table::row_of(s.entities, eid) {
        None => Err(Error::Corrupt("maintain: entity id gap")),
        Some(rec) => {
            let (c, r) = state::text_stored(b, s.texts[rec.name.0 as int]);
            match r {
                Err(e) => Err(e),
                Ok(name) => match table::inserted(
                    c.entities,
                    state::cap(s),
                    EntityRecord { name, ..rec },
                ) {
                    Err(e) => Err(Error::Arena(e)),
                    Ok((entities, _)) => Ok(State { entities, ..c }),
                },
            }
        },
    }
}

/// The first `n` entities carried over.
pub open spec fn entities_carried(s: State, b: State, n: nat) -> Result<State, Error>
    decreases n,
{
    if n == 0 {
        Ok(b)
    } else {
        match entities_carried(s, b, (n - 1) as nat) {
            Err(e) => Err(e),
            Ok(c) => entity_carried(s, c, n - 1),
        }
    }
}

/// The known words of a text, counted.
pub open spec fn words_found(s: State, words: Seq<Seq<char>>) -> Seq<(u32, u8)>
    decreases words.len(),
{
    if words.len() == 0 {
        Seq::empty()
    } else {
        let front = words_found(s, words.drop_last());
        match interner::lookup_of(s.terms, words.last()) {
            Some(t) => state::bumped(front, t.0),
            None => front,
        }
    }
}

/// The words of a fact indexed anew from its text.
pub open spec fn doc_reindexed(s: State, b: State, rec: FactRecord) -> Result<State, Error> {
    let bytes = s.texts[rec.text.0 as int];
    if !valid_utf8(bytes) {
        Err(Error::Corrupt("maintain: fact text is not UTF-8"))
    } else {
        let (c, r) = state::doc_added(
            b,
            rec.id,
            words_found(s, state::tokens(decode_utf8(bytes))),
        );
        match r {
            Err(e) => Err(e),
            Ok(()) => Ok(c),
        }
    }
}

/// The term ids of a stored tag list.
pub open spec fn tag_ids(s: State, h: ListHandle) -> Seq<u32> {
    if h == model::empty_handle() {
        Seq::empty()
    } else {
        Seq::new(
            (h.bytes / 4) as nat,
            |k: int| state::tag_at(s.tag_lists[h.list as int], k) as u32,
        )
    }
}

/// The tags of a fact inverted anew, each once; the list that is kept.
pub open spec fn tags_carried(b: State, tags: Seq<u32>, fact: FactId) -> Result<
    (State, Seq<u32>),
    Error,
>
    decreases tags.len(),
{
    if tags.len() == 0 {
        Ok((b, Seq::empty()))
    } else {
        match tags_carried(b, tags.drop_last(), fact) {
            Err(e) => Err(e),
            Ok((c, list)) => if list.contains(tags.last()) {
                Ok((c, list))
            } else {
                match postings::entry_pushed(
                    false,
                    c.tags_idx,
                    state::cap(b),
                    tags.last(),
                    (fact.0, 1u8),
                ) {
                    Err(e) => Err(Error::Arena(e)),
                    Ok(tags_idx) => Ok((State { tags_idx, ..c }, list.push(tags.last()))),
                }
            },
        }
    }
}

/// The auxiliary record of a fact carried over: its tags and its metadata.
pub open spec fn aux_carried(s: State, b: State, a: FactAux) -> Result<State, Error> {
    match tags_carried(b, tag_ids(s, a.tags), a.id) {
        Err(e) => Err(e),
        Ok((c, list)) => {
            let (d, r) = state::tags_stored(c, list);
            match r {
                Err(e) => Err(e),
                Ok(tags) => if a.meta.0 == NONE_U32 {
                    let (f, done) = state::aux_added(d, FactAux { id: a.id, tags, meta: a.meta });
                    match done {
                        Err(e) => Err(e),
                        Ok(()) => Ok(f),
                    }
                } else {
                    match heap::pushed(
                        d.metas,
                        state::cap(s),
                        state::blob_cap(s),
                        s.metas[a.meta.0 as int],
                    ) {
                        Err(e) => Err(Error::Arena(e)),
                        Ok((metas, meta)) => {
                            let (f, done) = state::aux_added(
                                State { metas, ..d },
                                FactAux { id: a.id, tags, meta },
                            );
                            match done {
                                Err(e) => Err(e),
                                Ok(()) => Ok(f),
                            }
                        },
                    }
                },
            }
        },
    }
}

/// The subject and temporal listings of a fact carried over.
pub open spec fn listed(b: State, rec: FactRecord) -> Result<State, Error> {
    let (c, r) = if rec.entity.0 == NONE_U32 {
        (b, Ok(()))
    } else {
        state::subject_listed(b, rec.entity, rec.id)
    };
    match r {
        Err(e) => Err(e),
        Ok(()) => match table::inserted(
            c.temporal,
            state::cap(b),
            TemporalSlot { recorded_at: rec.recorded_at, fact: rec.id },
        ) {
            Err(e) => Err(Error::Arena(e)),
            Ok((temporal, _)) => Ok(State { temporal, ..c }),
        },
    }
}

/// The vector of a fact carried over: the pool, its new slot and the map.
pub open spec fn vector_carried(s: State, b: State, map: Seq<u32>, rec: FactRecord) -> Result<
    (State, Seq<u32>, u32),
    Error,
> {
    let dim = s.cfg.dim as int;
    if !rec.vectored() {
        Ok((b, map, NONE_U32))
    } else if rec.vector >= vectors(s) {
        Err(Error::Corrupt("maintain: vector slot out of range"))
    } else {
        let slot = vectors(b) as u32;
        Ok(
            (
                State {
                    vecs: b.vecs + vecpool::slot_at(dim, s.vecs, rec.vector as int),
                    ..b
                },
                map.update(rec.vector as int, slot),
                slot,
            ),
        )
    }
}

/// A living fact carried over.
pub open spec fn live_carried(
    s: State,
    b: State,
    map: Seq<u32>,
    rec: FactRecord,
    reindex: bool,
) -> Result<(State, Seq<u32>), Error> {
    let (b1, r1) = state::text_stored(b, s.texts[rec.text.0 as int]);
    match r1 {
        Err(e) => Err(e),
        Ok(text) => {
            let r2 = if reindex {
                doc_reindexed(s, b1, rec)
            } else {
                Ok(b1)
            };
            match (r2, table::row_of(s.aux, rec.id.0 as int)) {
                (Err(e), _) => Err(e),
                (Ok(b2), None) => Err(Error::Corrupt("maintain: fact aux gap")),
                (Ok(b2), Some(a)) => match aux_carried(s, b2, a) {
                    Err(e) => Err(e),
                    Ok(b3) => match listed(b3, rec) {
                        Err(e) => Err(e),
                        Ok(b4) => match vector_carried(s, b4, map, rec) {
                            Err(e) => Err(e),
                            Ok((d, new_map, vector)) => match table::inserted(
                                d.facts,
                                state::cap(s),
                                FactRecord { text, vector, ..rec },
                            ) {
                                Err(e) => Err(Error::Arena(e)),
                                Ok((facts, _)) => Ok((State { facts, ..d }, new_map)),
                            },
                        },
                    },
                },
            }
        },
    }
}

/// One fact id: a burned id is passed over, a forgotten fact is purged, a
/// living one carried over.
pub open spec fn fact_carried(s: State, c: Carry, fid: int, reindex: bool) -> Result<Carry, Error> {
    match table::row_of(s.facts, fid) {
        None => Ok(c),
        Some(rec) => if rec.tombstone() {
            Ok(Carry { purged: c.purged + 1, ..c })
        } else {
            match live_carried(s, c.state, c.map, rec, reindex) {
                Err(e) => Err(e),
                Ok((b, map)) => Ok(Carry { state: b, map, purged: c.purged }),
            }
        },
    }
}

/// The first `n` fact ids.
pub open spec fn facts_carried(s: State, c: Carry, n: nat, reindex: bool) -> Result<Carry, Error>
    decreases n,
{
    if n == 0 {
        Ok(c)
    } else {
        match facts_carried(s, c, (n - 1) as nat, reindex) {
            Err(e) => Err(e),
            Ok(d) => fact_carried(s, d, n - 1, reindex),
        }
    }
}

/// No slot is carried over yet.
pub open spec fn no_slots(s: State) -> Seq<u32> {
    Seq::new(vectors(s) as nat, |i: int| NONE_U32)
}

/// The lexical index that a rebuild starts from.
pub open spec fn base_index(s: State, reindex: bool) -> Result<Bm25State, Error> {
    if reindex {
        Ok(bm25::no_docs())
    } else {
        table::lifted(bm25::compacted(s.bm25, s.facts, state::cap(s)))
    }
}

/// The compacted structures.
pub open spec fn rebuilt(s: State, reindex: bool) -> Result<Carry, Error> {
    match base_index(s, reindex) {
        Err(e) => Err(e),
        Ok(index) => match entities_carried(
            s,
            State { bm25: index, ..cleared(s) },
            s.next_entity as nat,
        ) {
            Err(e) => Err(e),
            Ok(b) => facts_carried(
                s,
                Carry { state: b, map: no_slots(s), purged: 0 },
                s.next_fact as nat,
                reindex,
            ),
        },
    }
}

/// The graph of a pass without compaction: reset, or as it is.
pub open spec fn graph_optimized(s: State, full: bool) -> HnswState {
    if full || s.graph.indexed == 0 {
        hnsw::no_nodes(s.cfg.hnsw_m as int, s.cfg.hnsw_m0 as int)
    } else {
        s.graph
    }
}

/// How many of the first `n` slots a compaction drops.
pub open spec fn dead_slots(map: Seq<u32>, n: nat) -> nat
    decreases n,
{
    if n == 0 {
        0
    } else {
        dead_slots(map, (n - 1) as nat) + (if map[n - 1] == NONE_U32 {
            1nat
        } else {
            0
        })
    }
}

/// More than a tenth of the graph's nodes are dropped.
pub open spec fn decayed(map: Seq<u32>, indexed: u32) -> bool {
    dead_slots(map, indexed as nat) * 10 > indexed
}

/// The graph of a compaction: empty below the switch point, carried over, or
/// reset, as it is when too many of its nodes are dead.
pub open spec fn graph_rebuilt(s: State, c: Carry, full: bool) -> Result<HnswState, Error> {
    if s.cfg.dim == 0 || vectors(c.state) < s.cfg.flat_to_hnsw || full || s.graph.indexed == 0
        || decayed(c.map, s.graph.indexed) {
        Ok(hnsw::no_nodes(s.cfg.hnsw_m as int, s.cfg.hnsw_m0 as int))
    } else {
        hnsw::graph_remapped(
            s.graph,
            state::cap(s),
            c.map,
            s.cfg.dim as int,
            c.state.vecs,
        )
    }
}

/// The state with the rebuilt structures swapped in. Terms, names, edges and
/// counters stay.
pub open spec fn installed(s: State, b: State, graph: HnswState, version: u32) -> State {
    State {
        facts: b.facts,
        aux: b.aux,
        entities: b.entities,
        temporal: b.temporal,
        texts: b.texts,
        metas: b.metas,
        tag_lists: b.tag_lists,
        bm25: b.bm25,
        tags_idx: b.tags_idx,
        entity_facts: b.entity_facts,
        vecs: b.vecs,
        graph,
        tombstones: 0,
        tokenizer_version: version,
        ..s
    }
}

/// The tokenizer version behind the index after a pass.
pub open spec fn version_after(s: State, reindex: bool) -> u32 {
    if reindex {
        TOKENIZER_INDEX_VERSION
    } else {
        s.tokenizer_version
    }
}

/// The lexical index rebuilt from the text of the first `n` fact ids.
pub open spec fn reindexed(s: State, n: nat) -> Result<State, Error>
    decreases n,
{
    if n == 0 {
        Ok(cleared(s))
    } else {
        match reindexed(s, (n - 1) as nat) {
            Err(e) => Err(e),
            Ok(b) => match table::row_of(s.facts, n - 1) {
                None => Ok(b),
                Some(rec) => if rec.tombstone() {
                    Ok(b)
                } else {
                    doc_reindexed(s, b, rec)
                },
            },
        }
    }
}

/// What a planned pass makes of the state.
pub open spec fn pass(s: State, plan: WorkPlan) -> Result<State, Error> {
    if !plan.needed() {
        Ok(s)
    } else if !plan.compact {
        let graph = if plan.optimize_vectors {
            graph_optimized(s, plan.hnsw_full_rebuild)
        } else {
            s.graph
        };
        if plan.bm25_reindex {
            match reindexed(s, s.next_fact as nat) {
                Err(e) => Err(e),
                Ok(b) => Ok(
                    State {
                        bm25: b.bm25,
                        tokenizer_version: TOKENIZER_INDEX_VERSION,
                        graph,
                        ..s
                    },
                ),
            }
        } else {
            Ok(State { graph, ..s })
        }
    } else {
        match rebuilt(s, plan.bm25_reindex) {
            Err(e) => Err(e),
            Ok(c) => match graph_rebuilt(s, c, plan.hnsw_full_rebuild) {
                Err(e) => Err(e),
                Ok(graph) => Ok(
                    installed(s, c.state, graph, version_after(s, plan.bm25_reindex)),
                ),
            },
        }
    }
}

/// The state of a rebuild together with the terms it refers to.
pub open spec fn termed(s: State, b: State) -> State {
    State { terms: s.terms, ..b }
}

/// A rebuild under way: the same configuration and counters, and references
/// in range.
pub open spec fn building(s: State, b: State) -> bool {
    &&& b.cfg == s.cfg
    &&& b.next_fact == s.next_fact
    &&& b.next_entity == s.next_entity
    &&& state::refs(termed(s, b))
}

impl Memory {
    /// Stores one text as bytes.
    fn carry_text(&mut self, bytes: &[u8]) -> (r: Result<BlobId, Error>)
        requires
            old(self).sound(),
        ensures
            final(self).sound(),
            state::text_stored(old(self)@, bytes@) == (final(self)@, r),
            r matches Ok(id) ==> id.0 < final(self)@.texts.len(),
            memory::grows(old(self)@, final(self)@),
    {
        match self.texts.push(bytes) {
            Ok(id) => Ok(id),
            Err(e) => Err(Error::Arena(e)),
        }
    }

    /// Carries one entity over into `out`.
    fn carry_entity(&self, out: &mut Memory, eid: u32) -> (r: Result<(), Error>)
        requires
            self.wf(),
            old(out).sound(),
            building(self@, old(out)@),
        ensures
            final(out).sound(),
            building(self@, final(out)@),
            match r {
                Ok(()) => entity_carried(self@, old(out)@, eid as int) == Ok::<_, Error>(
                    final(out)@,
                ) && final(out)@ == (State {
                    texts: final(out)@.texts,
                    entities: final(out)@.entities,
                    ..old(out)@
                }),
                Err(e) => entity_carried(self@, old(out)@, eid as int) == Err::<State, _>(e),
            },
    {
        let ghost s = self@;
        let ghost b = out@;
        let rec: EntityRecord = match self.entities.get(eid as u128) {
            Some(x) => x,
            None => {
                return Err(Error::Corrupt("maintain: entity id gap"));
            },
        };
        proof {
            self.entities.lemma_wf();
            out.entities.lemma_wf();
            table::lemma_rank(s.entities, eid as int);
            assert(state::entity_ok(s, s.entities[table::rank(s.entities, eid as int)]));
        }
        let stored: Result<BlobId, Error> = out.carry_text(self.texts.get(rec.name));
        proof {
            memory::lemma_grows(termed(s, b), termed(s, out@));
            assert(state::refs(termed(s, out@)));
        }
        let name: BlobId = match stored {
            Ok(n) => n,
            Err(e) => {
                return Err(e);
            },
        };
        let ghost c = out@;
        let row: EntityRecord = EntityRecord { name, ..rec };
        match out.entities.insert(row) {
            Err(e) => Err(Error::Arena(e)),
            Ok(_) => {
                proof {
                    memory::lemma_rows(c.entities, out@.entities, state::cap(s), row);
                    let t = termed(s, out@);
                    memory::lemma_grows(termed(s, c), t);
                    assert forall|i: int| 0 <= i < t.entities.len() implies state::entity_ok(
                        t,
                        #[trigger] t.entities[i],
                    ) by {
                        if t.entities[i] != row {
                            let k = c.entities.index_of(t.entities[i]);
                            assert(state::entity_ok(t, termed(s, c).entities[k]));
                        }
                    }
                }
                Ok(())
            },
        }
    }

    /// Counts the known words of a text.
    fn found_words(&self, text: &str) -> (r: Vec<(u32, u8)>)
        requires
            self.sound(),
        ensures
            r@ == words_found(self@, state::tokens(text@)),
            bm25::terms_once(r@),
    {
        let words: Vec<String> = self.tokenizer.tokenize(text);
        let ghost views = emit::string_views(words@);
        let mut out: Vec<(u32, u8)> = Vec::new();
        let mut i: usize = 0;
        assert(views.take(0) =~= Seq::empty());
        while i < words.len()
            invariant
                i <= words@.len(),
                self.sound(),
                views == emit::string_views(words@),
                out@ == words_found(self@, views.take(i as int)),
                bm25::terms_once(out@),
            decreases words@.len() - i,
        {
            assert(views.take(i + 1).drop_last() =~= views.take(i as int));
            assert(views.take(i + 1).last() == words@[i as int]@);
            if let Some(t) = self.terms.lookup(words[i].as_str()) {
                bump(&mut out, t.0);
            }
            i = i + 1;
        }
        assert(views.take(i as int) =~= views);
        out
    }

    /// Indexes the words of a fact anew from its text.
    fn reindex_doc(&self, out: &mut Memory, rec: FactRecord) -> (r: Result<(), Error>)
        requires
            self.wf(),
            old(out).sound(),
            rec.id.0 < NONE_U32,
            rec.text.0 < self@.texts.len(),
            bm25::ids_below(old(out)@.bm25.postings, rec.id.0 as int),
        ensures
            final(out).sound(),
            final(out)@ == (State { bm25: final(out)@.bm25, ..old(out)@ }),
            match r {
                Ok(()) => doc_reindexed(self@, old(out)@, rec) == Ok::<_, Error>(final(out)@)
                    && bm25::ids_below(final(out)@.bm25.postings, rec.id.0 + 1),
                Err(e) => doc_reindexed(self@, old(out)@, rec) == Err::<State, _>(e),
            },
    {
        let text: &str = match str_from_utf8(self.texts.get(rec.text)) {
            Some(t) => t,
            None => {
                return Err(Error::Corrupt("maintain: fact text is not UTF-8"));
            },
        };
        let pairs: Vec<(u32, u8)> = self.found_words(text);
        arena_err(out.bm25.index_doc(rec.id, &pairs))
    }

    /// The term ids of a stored tag list.
    fn read_tags(&self, h: ListHandle) -> (r: Vec<u32>)
        requires
            state::tags_ok(self@, h),
        ensures
            r@ == tag_ids(self@, h),
            forall|k: int| 0 <= k < r@.len() ==> (#[trigger] r@[k]) < self@.terms.len(),
            r@.len() <= 0x3FFF_FFFF,
    {
        let mut out: Vec<u32> = Vec::new();
        if h.list == NONE_U32 && h.bytes == 0 && h.reserved == 0 {
            assert(out@ =~= tag_ids(self@, h));
            return out;
        }
        let list: &[u8] = self.tag_lists.get(BlobId(h.list));
        let total: usize = list.len();
        let n: usize = total / 4;
        let mut i: usize = 0;
        while i < n
            invariant
                i <= n,
                n == total / 4,
                total == list@.len(),
                list@ == self@.tag_lists[h.list as int],
                h.bytes == total,
                forall|k: int|
                    0 <= k < h.bytes / 4 ==> #[trigger] state::tag_at(list@, k)
                        < self@.terms.len(),
                out@.len() == i,
                forall|k: int|
                    0 <= k < i ==> (#[trigger] out@[k]) == state::tag_at(list@, k) && out@[k]
                        < self@.terms.len(),
            decreases n - i,
        {
            let v: u32 = crate::codec::get_be32(list, 4 * i);
            assert(state::tag_at(list@, i as int) == v);
            out.push(v);
            i = i + 1;
        }
        assert(out@ =~= tag_ids(self@, h));
        out
    }

    /// Inverts the tags of a fact anew, each once.
    fn carry_tags(&mut self, tags: &Vec<u32>, id: FactId) -> (r: Result<Vec<u32>, Error>)
        requires
            old(self).sound(),
            id.0 < NONE_U32,
            bm25::ids_below(old(self)@.tags_idx, id.0 as int),
        ensures
            final(self).sound(),
            final(self)@ == (State { tags_idx: final(self)@.tags_idx, ..old(self)@ }),
            match r {
                Ok(list) => tags_carried(old(self)@, tags@, id) == Ok::<_, Error>(
                    (final(self)@, list@),
                ) && bm25::ids_below(final(self)@.tags_idx, id.0 + 1) && list@.len() <= tags@.len()
                    && forall|k: int|
                    0 <= k < list@.len() ==> tags@.contains(#[trigger] list@[k]),
                Err(e) => tags_carried(old(self)@, tags@, id) == Err::<(State, Seq<u32>), _>(e),
            },
    {
        let ghost s = self@;
        let mut list: Vec<u32> = Vec::new();
        let mut i: usize = 0;
        proof {
            self.tags_idx.lemma_wf();
            assert(tags@.take(0) =~= Seq::empty());
            assert(list@ =~= Seq::empty());
        }
        while i < tags.len()
            invariant
                i <= tags@.len(),
                s == old(self)@,
                id.0 < NONE_U32,
                self.sound(),
                self@ == (State { tags_idx: self@.tags_idx, ..s }),
                tags_carried(s, tags@.take(i as int), id) == Ok::<_, Error>((self@, list@)),
                list@.len() <= i,
                bm25::ids_below(s.tags_idx, id.0 as int),
                bm25::ids_below(self@.tags_idx, id.0 + 1),
                forall|k: u32|
                    !list@.contains(k) ==> #[trigger] postings::entries_of(self@.tags_idx, k)
                        == postings::entries_of(s.tags_idx, k),
                forall|k: int| 0 <= k < list@.len() ==> tags@.contains(#[trigger] list@[k]),
            decreases tags@.len() - i,
        {
            let term: u32 = tags[i];
            assert(tags@.take(i + 1).drop_last() =~= tags@.take(i as int));
            if !has_value(&list, term) {
                let ghost v = self@.tags_idx;
                let ghost before = list@;
                proof {
                    self.tags_idx.lemma_wf();
                    assert(postings::entries_of(v, term) == postings::entries_of(
                        s.tags_idx,
                        term,
                    ));
                    postings::appending_touches_one_list(false, v, term, (id.0, 1u8));
                }
                let pushed: Result<(), ArenaError> = self.tags_idx.push(term, id, 0);
                if let Err(e) = pushed {
                    proof {
                        lemma_tags_err(s, tags@, id, i + 1);
                    }
                    return Err(Error::Arena(e));
                }
                list.push(term);
                proof {
                    let w = self@.tags_idx;
                    assert(tags@.contains(tags@[i as int]));
                    assert forall|k: int| 0 <= k < list@.len() implies tags@.contains(
                        #[trigger] list@[k],
                    ) by {
                        if k < before.len() {
                            assert(before[k] == list@[k]);
                        }
                    }
                    assert forall|k: u32| !list@.contains(k) implies #[trigger] postings::entries_of(
                        w,
                        k,
                    ) == postings::entries_of(s.tags_idx, k) by {
                        assert(list@[list@.len() - 1] == term);
                        if before.contains(k) {
                            let m = before.index_of(k);
                            assert(list@[m] == k);
                        }
                    }
                    assert forall|k: u32|
                        (#[trigger] postings::entries_of(w, k)).len() > 0 implies postings::entries_of(
                        w,
                        k,
                    ).last().0 < id.0 + 1 by {
                        if k != term {
                            assert(postings::entries_of(w, k) == postings::entries_of(v, k));
                        }
                    }
                }
            }
            i = i + 1;
        }
        assert(tags@.take(i as int) =~= tags@);
        Ok(list)
    }

    /// Carries the auxiliary record of a fact over into `out`.
    fn carry_aux(&self, out: &mut Memory, a: FactAux) -> (r: Result<(), Error>)
        requires
            self.wf(),
            state::aux_ok(self@, a),
            old(out).sound(),
            building(self@, old(out)@),
            a.id.0 < NONE_U32,
            bm25::ids_below(old(out)@.tags_idx, a.id.0 as int),
        ensures
            final(out).sound(),
            building(self@, final(out)@),
            match r {
                Ok(()) => aux_carried(self@, old(out)@, a) == Ok::<_, Error>(final(out)@)
                    && bm25::ids_below(final(out)@.tags_idx, a.id.0 + 1) && final(out)@
                    == (State {
                    tags_idx: final(out)@.tags_idx,
                    tag_lists: final(out)@.tag_lists,
                    metas: final(out)@.metas,
                    aux: final(out)@.aux,
                    ..old(out)@
                }),
                Err(e) => aux_carried(self@, old(out)@, a) == Err::<State, _>(e),
            },
    {
        let ghost s = self@;
        let ghost b = out@;
        let tags: Vec<u32> = self.read_tags(a.tags);
        let carried: Result<Vec<u32>, Error> = out.carry_tags(&tags, a.id);
        proof {
            memory::lemma_grows(termed(s, b), termed(s, out@));
            assert(state::refs(termed(s, out@)));
        }
        let list: Vec<u32> = match carried {
            Ok(l) => l,
            Err(e) => {
                return Err(e);
            },
        };
        let ghost c = out@;
        let stored: Result<ListHandle, Error> = out.store_tags(&list);
        proof {
            memory::lemma_grows(termed(s, c), termed(s, out@));
            assert(state::refs(termed(s, out@)));
        }
        let handle: ListHandle = match stored {
            Ok(h) => h,
            Err(e) => {
                return Err(e);
            },
        };
        let ghost d = out@;
        proof {
            assert forall|k: int| 0 <= k < list@.len() implies (#[trigger] list@[k])
                < s.terms.len() by {
                assert(tags@.contains(list@[k]));
            }
            assert(memory::names_list(termed(s, d), handle, list@));
            memory::lemma_tags_ok(termed(s, d), handle, list@);
        }
        let meta: BlobId = if a.meta.0 == NONE_U32 {
            a.meta
        } else {
            match out.metas.push(self.metas.get(a.meta)) {
                Ok(m) => m,
                Err(e) => {
                    return Err(Error::Arena(e));
                },
            }
        };
        let ghost f = out@;
        proof {
            memory::lemma_grows(termed(s, d), termed(s, f));
            assert(state::refs(termed(s, f)));
        }
        let row: FactAux = FactAux { id: a.id, tags: handle, meta };
        proof {
            out.fact_aux.lemma_wf();
        }
        let r = out.add_aux(row);
        proof {
            let t = termed(s, out@);
            memory::lemma_grows(termed(s, f), t);
            if r is Ok {
                memory::lemma_rows(f.aux, out@.aux, state::cap(s), row);
                assert forall|i: int| 0 <= i < t.aux.len() implies state::aux_ok(
                    t,
                    #[trigger] t.aux[i],
                ) by {
                    if t.aux[i] != row {
                        let k = f.aux.index_of(t.aux[i]);
                        assert(state::aux_ok(t, termed(s, f).aux[k]));
                    } else {
                        assert(state::tags_ok(t, handle));
                    }
                }
            }
        }
        r
    }

    /// Lists a fact under its subject and its time.
    fn carry_listing(&mut self, rec: FactRecord) -> (r: Result<(), Error>)
        requires
            old(self).sound(),
            rec.id.0 < NONE_U32,
            bm25::ids_below(old(self)@.entity_facts, rec.id.0 as int),
        ensures
            final(self).sound(),
            final(self)@ == (State {
                entity_facts: final(self)@.entity_facts,
                temporal: final(self)@.temporal,
                ..old(self)@
            }),
            match r {
                Ok(()) => listed(old(self)@, rec) == Ok::<_, Error>(final(self)@)
                    && bm25::ids_below(final(self)@.entity_facts, rec.id.0 + 1),
                Err(e) => listed(old(self)@, rec) == Err::<State, _>(e),
            },
    {
        if rec.entity.0 != NONE_U32 {
            proof {
                self.entity_facts.lemma_wf();
                memory::lemma_listed(self@.entity_facts, rec.entity.0, rec.id.0);
            }
            if let Err(e) = self.entity_facts.push(rec.entity.0, rec.id, 0) {
                return Err(Error::Arena(e));
            }
        }
        let slot: TemporalSlot = TemporalSlot { recorded_at: rec.recorded_at, fact: rec.id };
        if let Err(e) = self.temporal.insert(slot) {
            return Err(Error::Arena(e));
        }
        Ok(())
    }

    /// Carries the vector of a fact over into `out`.
    fn carry_vector(&self, out: &mut Memory, map: &mut Vec<u32>, rec: FactRecord) -> (r: Result<
        u32,
        Error,
    >)
        requires
            self.sound(),
            old(out).sound(),
            old(out)@.cfg == self@.cfg,
            old(map)@.len() == vectors(self@),
        ensures
            final(out).sound(),
            final(map)@.len() == old(map)@.len(),
            final(out)@ == (State { vecs: final(out)@.vecs, ..old(out)@ }),
            match r {
                Ok(slot) => vector_carried(self@, old(out)@, old(map)@, rec) == Ok::<_, Error>(
                    (final(out)@, final(map)@, slot),
                ),
                Err(e) => vector_carried(self@, old(out)@, old(map)@, rec) == Err::<
                    (State, Seq<u32>, u32),
                    _,
                >(e),
            },
    {
        if !rec.has_vector() {
            return Ok(NONE_U32);
        }
        proof {
            self.vecs.lemma_wf();
            out.vecs.lemma_wf();
        }
        if rec.vector as usize >= self.vecs.len() {
            return Err(Error::Corrupt("maintain: vector slot out of range"));
        }
        let slot: u32 = out.vecs.copy_slot(&self.vecs, rec.vector);
        map.set(rec.vector as usize, slot);
        Ok(slot)
    }

    /// Carries one living fact over into `out`.
    #[verifier::rlimit(60)]
    #[verifier::spinoff_prover]
    fn carry_fact(
        &self,
        out: &mut Memory,
        map: &mut Vec<u32>,
        rec: FactRecord,
        reindex: bool,
    ) -> (r: Result<(), Error>)
        requires
            self.wf(),
            state::fact_of(self@, rec.id) == Some(rec),
            old(out).sound(),
            building(self@, old(out)@),
            old(map)@.len() == vectors(self@),
            reindex ==> bm25::ids_below(old(out)@.bm25.postings, rec.id.0 as int),
            bm25::ids_below(old(out)@.tags_idx, rec.id.0 as int),
            bm25::ids_below(old(out)@.entity_facts, rec.id.0 as int),
        ensures
            final(out).sound(),
            final(map)@.len() == old(map)@.len(),
            r is Ok ==> building(self@, final(out)@),
            r is Ok && reindex ==> bm25::ids_below(final(out)@.bm25.postings, rec.id.0 + 1),
            r is Ok && !reindex ==> final(out)@.bm25 == old(out)@.bm25,
            r is Ok ==> bm25::ids_below(final(out)@.tags_idx, rec.id.0 + 1),
            r is Ok ==> bm25::ids_below(final(out)@.entity_facts, rec.id.0 + 1),
            r is Ok ==> final(out)@.graph == old(out)@.graph,
            match r {
                Ok(()) => live_carried(
                    self@,
                    old(out)@,
                    old(map)@,
                    rec,
                    reindex,
                ) == Ok::<_, Error>((final(out)@, final(map)@)),
                Err(e) => live_carried(self@, old(out)@, old(map)@, rec, reindex) == Err::<
                    (State, Seq<u32>),
                    _,
                >(e),
            },
    {
        let ghost s = self@;
        let ghost b = out@;
        proof {
            self.facts.lemma_wf();
            self.fact_aux.lemma_wf();
            table::lemma_rank(s.facts, rec.id.0 as int);
            assert(state::fact_ok(s, s.facts[table::rank(s.facts, rec.id.0 as int)]));
        }
        let stored: Result<BlobId, Error> = out.carry_text(self.texts.get(rec.text));
        let text: BlobId = match stored {
            Ok(t) => t,
            Err(e) => {
                return Err(e);
            },
        };
        let ghost b1 = out@;
        proof {
            memory::lemma_grows(termed(s, b), termed(s, b1));
            assert(state::refs(termed(s, b1)));
        }
        if reindex {
            if let Err(e) = self.reindex_doc(out, rec) {
                return Err(e);
            }
        }
        let ghost b2 = out@;
        proof {
            memory::lemma_grows(termed(s, b1), termed(s, b2));
            assert(state::refs(termed(s, b2)));
        }
        let a: FactAux = match self.fact_aux.get(rec.id.0 as u128) {
            Some(x) => x,
            None => {
                return Err(Error::Corrupt("maintain: fact aux gap"));
            },
        };
        proof {
            table::lemma_rank(s.aux, rec.id.0 as int);
            assert(state::aux_ok(s, s.aux[table::rank(s.aux, rec.id.0 as int)]));
        }
        if let Err(e) = self.carry_aux(out, a) {
            return Err(e);
        }
        let ghost b3 = out@;
        if let Err(e) = out.carry_listing(rec) {
            return Err(e);
        }
        let vector: u32 = match self.carry_vector(out, map, rec) {
            Ok(v) => v,
            Err(e) => {
                return Err(e);
            },
        };
        let ghost d = out@;
        proof {
            memory::lemma_grows(termed(s, b3), termed(s, d));
            assert(state::refs(termed(s, d)));
            out.facts.lemma_wf();
        }
        let row: FactRecord = FactRecord { text, vector, ..rec };
        match out.facts.insert(row) {
            Err(e) => Err(Error::Arena(e)),
            Ok(_) => {
                proof {
                    memory::lemma_rows(d.facts, out@.facts, state::cap(s), row);
                    let t = termed(s, out@);
                    memory::lemma_grows(termed(s, d), t);
                    assert forall|i: int| 0 <= i < t.facts.len() implies state::fact_ok(
                        t,
                        #[trigger] t.facts[i],
                    ) by {
                        if t.facts[i] != row {
                            let k = d.facts.index_of(t.facts[i]);
                            assert(state::fact_ok(t, termed(s, d).facts[k]));
                        }
                    }
                }
                Ok(())
            },
        }
    }
}

impl Memory {
    /// Carries every entity over into `out`.
    #[verifier::rlimit(60)]
    #[verifier::spinoff_prover]
    fn carry_entities(&self, out: &mut Memory) -> (r: Result<(), Error>)
        requires
            self.wf(),
            old(out).sound(),
            building(self@, old(out)@),
        ensures
            final(out).sound(),
            match r {
                Ok(()) => building(self@, final(out)@) && entities_carried(
                    self@,
                    old(out)@,
                    self@.next_entity as nat,
                ) == Ok::<_, Error>(final(out)@) && final(out)@ == (State {
                    texts: final(out)@.texts,
                    entities: final(out)@.entities,
                    ..old(out)@
                }),
                Err(e) => entities_carried(self@, old(out)@, self@.next_entity as nat) == Err::<
                    State,
                    _,
                >(e),
            },
    {
        let ghost s = self@;
        let ghost b = out@;
        let mut eid: u32 = 0;
        while eid < self.next_entity
            invariant
                eid <= self.next_entity,
                s == self@,
                b == old(out)@,
                self.wf(),
                out.sound(),
                building(s, out@),
                entities_carried(s, b, eid as nat) == Ok::<_, Error>(out@),
                out@ == (State { texts: out@.texts, entities: out@.entities, ..b }),
            decreases self.next_entity - eid,
        {
            if let Err(e) = self.carry_entity(out, eid) {
                proof {
                    lemma_entities_err(s, b, (eid + 1) as nat, s.next_entity as nat);
                }
                return Err(e);
            }
            eid = eid + 1;
        }
        Ok(())
    }

    /// Carries every living fact over into `out`; the number purged.
    #[verifier::rlimit(60)]
    #[verifier::spinoff_prover]
    fn carry_facts(&self, out: &mut Memory, map: &mut Vec<u32>, reindex: bool) -> (r: Result<
        usize,
        Error,
    >)
        requires
            self.wf(),
            old(out).sound(),
            building(self@, old(out)@),
            old(map)@ == no_slots(self@),
            reindex ==> old(out)@.bm25 == bm25::no_docs(),
            old(out)@.tags_idx == Seq::<postings::List>::empty(),
            old(out)@.entity_facts == Seq::<postings::List>::empty(),
        ensures
            final(out).sound(),
            final(map)@.len() == vectors(self@),
            match r {
                Ok(purged) => {
                    &&& facts_carried(
                        self@,
                        Carry { state: old(out)@, map: no_slots(self@), purged: 0 },
                        self@.next_fact as nat,
                        reindex,
                    ) == Ok::<_, Error>(
                        Carry { state: final(out)@, map: final(map)@, purged: purged as nat },
                    )
                    &&& building(self@, final(out)@)
                    &&& reindex ==> bm25::ids_below(
                        final(out)@.bm25.postings,
                        self@.next_fact as int,
                    )
                    &&& !reindex ==> final(out)@.bm25 == old(out)@.bm25
                    &&& bm25::ids_below(final(out)@.tags_idx, self@.next_fact as int)
                    &&& bm25::ids_below(final(out)@.entity_facts, self@.next_fact as int)
                },
                Err(e) => facts_carried(
                    self@,
                    Carry { state: old(out)@, map: no_slots(self@), purged: 0 },
                    self@.next_fact as nat,
                    reindex,
                ) == Err::<Carry, _>(e),
            },
    {
        let ghost s = self@;
        let ghost base = Carry { state: out@, map: no_slots(s), purged: 0 };
        let mut purged: usize = 0;
        let mut fid: u32 = 0;
        proof {
            self.facts.lemma_wf();
            assert(bm25::ids_below(Seq::<postings::List>::empty(), 0));
        }
        while fid < self.next_fact
            invariant
                fid <= self.next_fact,
                s == self@,
                base == (Carry { state: old(out)@, map: no_slots(s), purged: 0 }),
                self.wf(),
                table::ascending(s.facts),
                out.sound(),
                building(s, out@),
                map@.len() == vectors(s),
                facts_carried(s, base, fid as nat, reindex) == Ok::<_, Error>(
                    Carry { state: out@, map: map@, purged: purged as nat },
                ),
                purged <= fid,
                reindex ==> bm25::ids_below(out@.bm25.postings, fid as int),
                !reindex ==> out@.bm25 == old(out)@.bm25,
                bm25::ids_below(out@.tags_idx, fid as int),
                bm25::ids_below(out@.entity_facts, fid as int),
            decreases self.next_fact - fid,
        {
            let ghost b = out@;
            if let Some(rec) = self.facts.get(fid as u128) {
                proof {
                    table::lemma_rank(s.facts, fid as int);
                }
                if rec.is_tombstone() {
                    purged = purged + 1;
                } else {
                    if let Err(e) = self.carry_fact(out, map, rec, reindex) {
                        proof {
                            lemma_facts_err(
                                s,
                                base,
                                (fid + 1) as nat,
                                s.next_fact as nat,
                                reindex,
                            );
                        }
                        return Err(e);
                    }
                }
            }
            fid = fid + 1;
        }
        Ok(purged)
    }

    /// Builds the compacted structures without touching the engine: the
    /// structures, the slot map and the number of facts purged.
    #[verifier::rlimit(60)]
    #[verifier::spinoff_prover]
    fn rebuild_parts(&self, reindex: bool) -> (r: Result<(Memory, Vec<u32>, usize), Error>)
        requires
            self.wf(),
        ensures
            match r {
                Ok((out, map, purged)) => {
                    &&& rebuilt(self@, reindex) == Ok::<_, Error>(
                        Carry { state: out@, map: map@, purged: purged as nat },
                    )
                    &&& out.sound()
                    &&& building(self@, out@)
                    &&& map@.len() == vectors(self@)
                    &&& bm25::ids_below(out@.bm25.postings, self@.next_fact as int)
                    &&& bm25::ids_below(out@.tags_idx, self@.next_fact as int)
                    &&& bm25::ids_below(out@.entity_facts, self@.next_fact as int)
                },
                Err(e) => rebuilt(self@, reindex) == Err::<Carry, _>(e),
            },
    {
        let ghost s = self@;
        let mut out: Memory = Memory::empty(self.cfg);
        out.next_fact = self.next_fact;
        out.next_entity = self.next_entity;
        assert(out@ =~= cleared(s));
        if !reindex {
            out.bm25 = match self.bm25.compact_live(&self.facts, self.cfg.max_bytes) {
                Ok(b) => b,
                Err(e) => {
                    return Err(Error::Arena(e));
                },
            };
            assert(bm25::ids_below(out@.bm25.postings, s.next_fact as int));
        }
        proof {
            assert(out@ == (State { bm25: base_index(s, reindex)->Ok_0, ..cleared(s) }));
        }
        if let Err(e) = self.carry_entities(&mut out) {
            return Err(e);
        }
        let n: usize = self.vecs.len();
        let mut map: Vec<u32> = Vec::new();
        let mut i: usize = 0;
        while i < n
            invariant
                i <= n,
                n == vectors(s),
                map@.len() == i,
                forall|k: int| 0 <= k < i ==> map@[k] == NONE_U32,
            decreases n - i,
        {
            map.push(NONE_U32);
            i = i + 1;
        }
        assert(map@ =~= no_slots(s));
        match self.carry_facts(&mut out, &mut map, reindex) {
            Ok(purged) => Ok((out, map, purged)),
            Err(e) => Err(e),
        }
    }

    /// The lexical index rebuilt from the text of the living facts.
    #[verifier::rlimit(60)]
    #[verifier::spinoff_prover]
    fn reindex_bm25_from_text(&self) -> (r: Result<Bm25Index, Error>)
        requires
            self.wf(),
        ensures
            match r {
                Ok(b) => {
                    &&& b.wf()
                    &&& b.ceiling() == self@.cfg.max_bytes
                    &&& reindexed(self@, self@.next_fact as nat) matches Ok(t) && t.bm25 == b@
                    &&& bm25::ids_below(b@.postings, self@.next_fact as int)
                },
                Err(e) => reindexed(self@, self@.next_fact as nat) == Err::<State, _>(e),
            },
    {
        let ghost s = self@;
        let mut out: Memory = Memory::empty(self.cfg);
        out.next_fact = self.next_fact;
        out.next_entity = self.next_entity;
        assert(out@ =~= cleared(s));
        let mut fid: u32 = 0;
        proof {
            self.facts.lemma_wf();
            assert(bm25::ids_below(Seq::<postings::List>::empty(), 0));
        }
        while fid < self.next_fact
            invariant
                fid <= self.next_fact,
                s == self@,
                self.wf(),
                table::ascending(s.facts),
                out.sound(),
                out@.cfg == s.cfg,
                reindexed(s, fid as nat) == Ok::<_, Error>(out@),
                bm25::ids_below(out@.bm25.postings, fid as int),
            decreases self.next_fact - fid,
        {
            if let Some(rec) = self.facts.get(fid as u128) {
                proof {
                    table::lemma_rank(s.facts, fid as int);
                    assert(state::fact_ok(s, s.facts[table::rank(s.facts, fid as int)]));
                }
                if !rec.is_tombstone() {
                    if let Err(e) = self.reindex_doc(&mut out, rec) {
                        proof {
                            lemma_reindexed_err(s, (fid + 1) as nat, s.next_fact as nat);
                        }
                        return Err(e);
                    }
                }
            }
            fid = fid + 1;
        }
        Ok(out.bm25)
    }

    /// Whether more than a tenth of the graph's nodes are dropped.
    fn graph_decayed(&self, map: &Vec<u32>) -> (r: bool)
        requires
            self.wf(),
            map@.len() == vectors(self@),
        ensures
            r == decayed(map@, self@.graph.indexed),
    {
        let indexed: u32 = self.hnsw.indexed();
        proof {
            reveal(state::graph_ok);
            self.hnsw.lemma_wf();
            hnsw::lemma_valid_is_usable(self@.graph, self@.cfg.dim as int, self@.vecs);
        }
        let mut dead: u64 = 0;
        let mut i: u32 = 0;
        while i < indexed
            invariant
                i <= indexed,
                indexed <= map@.len(),
                dead <= i,
                dead == dead_slots(map@, i as nat),
            decreases indexed - i,
        {
            if map[i as usize] == NONE_U32 {
                dead = dead + 1;
            }
            i = i + 1;
        }
        dead * 10 > indexed as u64
    }

    /// The graph of a compaction: empty below the switch point, carried over,
    /// or reset.
    fn rebuild_graph(&self, map: &Vec<u32>, pool: &VecPool, full: bool) -> (r: Result<
        HnswGraph,
        Error,
    >)
        requires
            self.wf(),
            map@.len() == vectors(self@),
            pool.wf(),
            pool.dimension() == self@.cfg.dim,
        ensures
            ({
                let want = if self@.cfg.dim == 0 || vecpool::slot_count(pool.dimension(), pool@)
                    < self@.cfg.flat_to_hnsw || full || self@.graph.indexed == 0 || decayed(
                    map@,
                    self@.graph.indexed,
                ) {
                    Ok(hnsw::no_nodes(self@.cfg.hnsw_m as int, self@.cfg.hnsw_m0 as int))
                } else {
                    hnsw::graph_remapped(
                        self@.graph,
                        state::cap(self@),
                        map@,
                        pool.dimension(),
                        pool@,
                    )
                };
                match r {
                    Ok(g) => g.wf() && g.ceiling() == self@.cfg.max_bytes && g@.m
                        == self@.cfg.hnsw_m && g@.m0 == self@.cfg.hnsw_m0 && want == Ok::<_, Error>(
                        g@,
                    ) && state::graph_ok(g@, self@.cfg.dim as int, pool@),
                    Err(e) => want == Err::<HnswState, _>(e),
                }
            }),
    {
        proof {
            reveal(state::graph_ok);
            self.hnsw.lemma_wf();
            hnsw::lemma_valid_is_usable(self@.graph, self@.cfg.dim as int, self@.vecs);
        }
        if self.cfg.dim == 0 || pool.len() < self.cfg.flat_to_hnsw || full || self.hnsw.indexed()
            == 0 || self.graph_decayed(map) {
            proof {
                pool.lemma_wf();
            }
            return Ok(HnswGraph::new(self.cfg.hnsw_m, self.cfg.hnsw_m0, self.cfg.max_bytes));
        }
        self.hnsw.remapped(map, pool, self.cfg.max_bytes)
    }

    /// The plan of a pass.
    pub(crate) fn work_plan(&self, options: MaintenanceOptions) -> (r: WorkPlan)
        requires
            self.sound(),
        ensures
            r == plan_of(self@, options),
    {
        let stale: bool = self.bm25_tokenizer_version != TOKENIZER_INDEX_VERSION;
        let dead: bool = self.tombstones != 0;
        let due: bool = dead || self.bm25.needs_resummarize();
        let n: usize = self.vecs.len();
        let indexed: u32 = self.hnsw.indexed();
        let graphed: bool = self.cfg.dim != 0 && n >= self.cfg.flat_to_hnsw;
        let tail: bool = graphed && (indexed as usize) < n;
        match options.mode {
            MaintenanceMode::Auto => WorkPlan {
                compact: due,
                bm25_reindex: stale,
                optimize_vectors: tail,
                hnsw_full_rebuild: false,
                repack_edges: false,
                max_hnsw_inserts: options.max_hnsw_inserts,
            },
            MaintenanceMode::Compact => WorkPlan {
                compact: due,
                bm25_reindex: stale,
                optimize_vectors: dead && indexed != 0,
                hnsw_full_rebuild: false,
                repack_edges: false,
                max_hnsw_inserts: options.max_hnsw_inserts,
            },
            MaintenanceMode::ReindexText => WorkPlan {
                compact: due,
                bm25_reindex: true,
                optimize_vectors: dead && indexed != 0,
                hnsw_full_rebuild: false,
                repack_edges: false,
                max_hnsw_inserts: options.max_hnsw_inserts,
            },
            MaintenanceMode::OptimizeVectors => WorkPlan {
                compact: false,
                bm25_reindex: false,
                optimize_vectors: graphed && (tail || indexed == 0),
                hnsw_full_rebuild: indexed == 0,
                repack_edges: false,
                max_hnsw_inserts: options.max_hnsw_inserts,
            },
            MaintenanceMode::Full => WorkPlan {
                compact: true,
                bm25_reindex: true,
                optimize_vectors: graphed,
                hnsw_full_rebuild: true,
                repack_edges: !self.edges_hist_out.is_empty(),
                max_hnsw_inserts: None,
            },
        }
    }
}

/// Bytes across the pools that a pass replaces; the edge tables count when
/// they are rewritten.
pub open spec fn satellite(s: State, with_edges: bool) -> int {
    (if with_edges {
        edge_bytes(s)
    } else {
        0
    }) + s.facts.len() * 48 + s.aux.len() * 20 + s.entities.len() * 24 + graph_bytes(s.graph)
        + heap::total_bytes(s.texts) + heap::total_bytes(s.metas) + heap::total_bytes(s.tag_lists)
        + index_bytes(s.bm25) + list_bytes(s.tags_idx) + list_bytes(s.entity_facts)
        + s.temporal.len() * 12 + s.vecs.len()
}

/// Bytes of the four edge tables.
pub open spec fn edge_bytes(s: State) -> int {
    (s.edges_out.len() * 28 + s.edges_in.len() * 28 + s.hist_out.len() * 48 + s.hist_in.len() * 48) as int
}

/// Bytes of a graph.
pub open spec fn graph_bytes(g: HnswState) -> int {
    g.level0.len() * 4 + g.upper.len() * 12 + hnsw::values_held(g.lists) * 4
}

/// Bytes of a lexical index.
pub open spec fn index_bytes(b: Bm25State) -> int {
    b.postings.len() * 24 + postings::store_bytes(true, b.postings) + b.docs.len() * 16
}

/// Bytes of an id-list index.
pub open spec fn list_bytes(v: Seq<postings::List>) -> int {
    v.len() * 24 + postings::store_bytes(false, v)
}

/// A pass keeps the graph it finds, where there are vectors enough for one.
pub open spec fn graph_carried(s: State, plan: WorkPlan) -> bool {
    &&& s.graph.indexed != 0
    &&& !plan.hnsw_full_rebuild
    &&& plan.compact ==> match rebuilt(s, plan.bm25_reindex) {
        Ok(c) => !decayed(c.map, s.graph.indexed),
        Err(_) => true,
    }
}

/// The report of a pass that turned `s` into `t`.
pub open spec fn report_of(s: State, plan: WorkPlan, t: State, purged: usize) -> MaintainReport {
    let graphed = s.cfg.dim != 0 && vectors(t) >= s.cfg.flat_to_hnsw;
    let carried = graph_carried(s, plan);
    MaintainReport {
        purged,
        bytes_before: satellite(s, plan.repack_edges) as u128,
        bytes_after: satellite(t, plan.repack_edges) as u128,
        no_op: !plan.needed(),
        tombstones_before: s.tombstones,
        facts_before: s.facts.len() as usize,
        facts_after: t.facts.len() as usize,
        vectors_before: vectors(s) as usize,
        vectors_after: vectors(t) as usize,
        hnsw_indexed_before: s.graph.indexed,
        hnsw_indexed_after: t.graph.indexed,
        structural_compacted: plan.compact,
        bm25_compacted: plan.compact && !plan.bm25_reindex,
        bm25_reindexed: plan.bm25_reindex,
        hnsw_rebuilt: if plan.compact {
            graphed && !carried && (s.graph.indexed != 0 || vectors(t) > 0)
        } else {
            plan.optimize_vectors && !carried
        },
        hnsw_remapped: if plan.compact {
            graphed && carried
        } else {
            plan.optimize_vectors && carried
        },
        hnsw_inserted: 0,
        edges_compacted: plan.compact && plan.repack_edges,
        edges_before: s.edges_out.len() as usize,
        edge_versions_before: s.hist_out.len() as usize,
    }
}

/// The number of facts that a planned pass purges.
pub open spec fn purged_by(s: State, plan: WorkPlan) -> nat {
    if plan.compact {
        match rebuilt(s, plan.bm25_reindex) {
            Ok(c) => c.purged,
            Err(_) => 0,
        }
    } else {
        0
    }
}

/// The edge tables rebuilt in key order.
pub struct RepackedEdges {
    out: Table<EdgeSlot>,
    inn: Table<EdgeSlot>,
    hist_out: Table<EdgeHistorySlot>,
    hist_in: Table<EdgeHistorySlot>,
}

/// What a pass built, ready to be swapped in.
pub struct Prepared {
    parts: Option<Memory>,
    bm25: Option<Bm25Index>,
    graph: Option<HnswGraph>,
    edges: Option<RepackedEdges>,
    version: u32,
    purged: usize,
    carried: bool,
}

impl Prepared {
    /// The state after the swap.
    pub closed spec fn outcome(&self, s: State) -> State {
        let t = match self.parts {
            Some(m) => installed(s, m@, s.graph, self.version),
            None => State { tokenizer_version: self.version, ..s },
        };
        let u = match self.bm25 {
            Some(b) => State { bm25: b@, ..t },
            None => t,
        };
        match self.graph {
            Some(g) => State { graph: g@, ..u },
            None => u,
        }
    }

    /// Everything built fits the engine it was built for.
    pub closed spec fn ready(&self, s: State) -> bool {
        &&& state::inv(self.outcome(s))
        &&& self.parts matches Some(m) ==> m.sound() && m@.cfg == s.cfg
        &&& self.bm25 matches Some(b) ==> b.wf() && b.ceiling() == s.cfg.max_bytes
        &&& self.graph matches Some(g) ==> g.wf() && g.ceiling() == s.cfg.max_bytes && g@.m
            == s.cfg.hnsw_m && g@.m0 == s.cfg.hnsw_m0
        &&& self.edges matches Some(e) ==> {
            &&& e.out.wf() && e.out@ == s.edges_out && e.out.ceiling() == s.cfg.max_bytes
            &&& e.inn.wf() && e.inn@ == s.edges_in && e.inn.ceiling() == s.cfg.max_bytes
            &&& e.hist_out.wf() && e.hist_out@ == s.hist_out && e.hist_out.ceiling()
                == s.cfg.max_bytes
            &&& e.hist_in.wf() && e.hist_in@ == s.hist_in && e.hist_in.ceiling() == s.cfg.max_bytes
        }
    }

    /// The number of facts purged.
    pub closed spec fn dropped(&self) -> usize {
        self.purged
    }

    /// Whether the graph is carried over.
    pub closed spec fn keeps_graph(&self) -> bool {
        self.carried
    }

    /// Whether the graph is carried over.
    pub(crate) fn graph_kept(&self) -> (r: bool)
        ensures
            r == self.keeps_graph(),
    {
        self.carried
    }

    /// The number of facts purged.
    pub(crate) fn count_purged(&self) -> (r: usize)
        ensures
            r == self.dropped(),
    {
        self.purged
    }
}

/// A pass that is built and not yet applied.
pub struct Pass {
    plan: WorkPlan,
    built: Prepared,
}

impl Pass {
    /// The state that the pass would leave.
    pub closed spec fn outcome(&self, s: State) -> State {
        self.built.outcome(s)
    }

    /// The pass was built from this state under these options.
    pub closed spec fn built_from(&self, s: State, o: MaintenanceOptions) -> bool {
        let plan = plan_of(s, o);
        &&& self.plan == plan
        &&& plan.needed()
        &&& pass(s, plan) == Ok::<_, Error>(self.built.outcome(s))
        &&& self.built.ready(s)
        &&& self.built.dropped() == purged_by(s, plan)
        &&& self.built.keeps_graph() == graph_carried(s, plan)
    }

    /// A pass leaves what its options say.
    pub proof fn a_pass_leaves_what_it_built(&self, s: State, o: MaintenanceOptions)
        requires
            self.built_from(s, o),
        ensures
            plan_of(s, o).needed(),
            pass(s, plan_of(s, o)) == Ok::<_, Error>(self.outcome(s)),
    {
    }
}

/// How far the graph of a pass is to be linked, where the pass works on it.
pub open spec fn links_due(s: State, plan: WorkPlan) -> Option<u32> {
    let t = pass(s, plan)->Ok_0;
    let due = if plan.compact {
        s.cfg.dim != 0 && vectors(t) >= s.cfg.flat_to_hnsw
    } else {
        plan.optimize_vectors
    };
    if due && vectors(t) <= u32::MAX {
        Some(target_of(t.graph.indexed, vectors(t) as u32, plan.max_hnsw_inserts))
    } else {
        None
    }
}

/// The report of a pass whose graph the host linked.
pub open spec fn linked_report(s: State, plan: WorkPlan, u: State, t: State) -> MaintainReport {
    MaintainReport {
        hnsw_inserted: if t.graph.indexed > u.graph.indexed {
            (t.graph.indexed - u.graph.indexed) as u32
        } else {
            0
        },
        ..report_of(s, plan, t, purged_by(s, plan) as usize)
    }
}

/// What committing a pass does: a graph of other degree caps, or with a
/// reference that leads nowhere, is refused and nothing changes.
pub open spec fn committed(
    s: State,
    t: State,
    o: MaintenanceOptions,
    ceiling: int,
    g: HnswState,
    r: Result<MaintainReport, Error>,
) -> bool {
    let plan = plan_of(s, o);
    let u = pass(s, plan)->Ok_0;
    match graph::adopted(u, ceiling, g) {
        Err(e) => t == s && r == Err::<MaintainReport, _>(e),
        Ok(v) => match r {
            Ok(report) => t == v && report == linked_report(s, plan, u, v),
            Err(e) => t == s && e is Storage,
        },
    }
}

/// The image of a prepared pass is the one that a snapshot behind its commit
/// writes, byte for byte, and the reports agree.
pub proof fn a_prepared_image_is_the_committed_one(
    s: State,
    t: State,
    o: MaintenanceOptions,
    ceiling: int,
    g: HnswState,
    report: MaintainReport,
    created_at: u64,
)
    requires
        committed(s, t, o, ceiling, g, Ok(report)),
    ensures
        ({
            let plan = plan_of(s, o);
            let u = pass(s, plan)->Ok_0;
            let v = graph::adopted(u, ceiling, g)->Ok_0;
            &&& persist::snapshot_image(v, created_at) == persist::snapshot_image(t, created_at)
            &&& report == linked_report(s, plan, u, v)
        }),
{
}

/// The rows of a table inserted into a new one in key order.
fn repacked<T: Slot>(rows: &Table<T>, max_bytes: usize) -> (r: Table<T>)
    requires
        rows.wf(),
        rows.ceiling() == max_bytes,
    ensures
        r.wf(),
        r@ == rows@,
        r.ceiling() == max_bytes,
{
    let mut out: Table<T> = Table::new(max_bytes);
    let mut i: usize = 0;
    proof {
        rows.lemma_wf();
        assert(rows@.take(0) =~= Seq::empty());
    }
    while i < rows.len()
        invariant
            i <= rows@.len(),
            table::ascending(rows@),
            rows@.len() * T::slot_size() <= max_bytes,
            out.wf(),
            out.ceiling() == max_bytes,
            out@ == rows@.take(i as int),
        decreases rows@.len() - i,
    {
        let row: T = rows.row(i);
        let ghost before = out@;
        proof {
            out.lemma_wf();
            assert forall|k: int| 0 <= k < before.len() implies (#[trigger] before[k]).key()
                < row.key() by {
                assert(rows@[k].key() < rows@[i as int].key());
            }
            table::lemma_append(before, row);
            let size = T::slot_size();
            assert((i + 1) * size <= rows@.len() * size) by (nonlinear_arith)
                requires
                    i + 1 <= rows@.len(),
                    size >= 0,
            ;
        }
        let _ = out.insert(row);
        i = i + 1;
        assert(out@ =~= rows@.take(i as int));
    }
    assert(rows@.take(i as int) =~= rows@);
    out
}

impl Memory {
    /// Rewrites the four edge tables in key order. No version is ever dropped.
    fn repack_edges(&self) -> (r: RepackedEdges)
        requires
            self.sound(),
        ensures
            r.out.wf() && r.out@ == self@.edges_out && r.out.ceiling() == self@.cfg.max_bytes,
            r.inn.wf() && r.inn@ == self@.edges_in && r.inn.ceiling() == self@.cfg.max_bytes,
            r.hist_out.wf() && r.hist_out@ == self@.hist_out && r.hist_out.ceiling()
                == self@.cfg.max_bytes,
            r.hist_in.wf() && r.hist_in@ == self@.hist_in && r.hist_in.ceiling()
                == self@.cfg.max_bytes,
    {
        RepackedEdges {
            out: repacked(&self.edges_out, self.cfg.max_bytes),
            inn: repacked(&self.edges_in, self.cfg.max_bytes),
            hist_out: repacked(&self.edges_hist_out, self.cfg.max_bytes),
            hist_in: repacked(&self.edges_hist_in, self.cfg.max_bytes),
        }
    }

    /// Builds what a compaction swaps in.
    fn rebuild(&self, plan: WorkPlan) -> (r: Result<Prepared, Error>)
        requires
            self.wf(),
            plan.compact,
        ensures
            match r {
                Ok(p) => pass(self@, plan) == Ok::<_, Error>(p.outcome(self@)) && p.ready(self@)
                    && p.dropped() == purged_by(self@, plan) && p.keeps_graph() == graph_carried(self@, plan),
                Err(e) => pass(self@, plan) == Err::<State, _>(e),
            },
    {
        let ghost s = self@;
        let (parts, map, purged) = match self.rebuild_parts(plan.bm25_reindex) {
            Ok(x) => x,
            Err(e) => {
                return Err(e);
            },
        };
        let graph: HnswGraph = match self.rebuild_graph(
            &map,
            &parts.vecs,
            plan.hnsw_full_rebuild,
        ) {
            Ok(g) => g,
            Err(e) => {
                return Err(e);
            },
        };
        let carried: bool = self.hnsw.indexed() != 0 && !plan.hnsw_full_rebuild
            && !self.graph_decayed(&map);
        let edges: Option<RepackedEdges> = if plan.repack_edges {
            Some(self.repack_edges())
        } else {
            None
        };
        let version: u32 = if plan.bm25_reindex {
            TOKENIZER_INDEX_VERSION
        } else {
            self.bm25_tokenizer_version
        };
        let ghost b = parts@;
        let p = Prepared {
            parts: Some(parts),
            bm25: None,
            graph: Some(graph),
            edges,
            version,
            purged,
            carried,
        };
        proof {
            let t = p.outcome(s);
            assert(t == installed(s, b, graph@, version));
            lemma_refs_same(termed(s, b), t);
        }
        Ok(p)
    }

    /// Builds what a planned pass swaps in, without touching the engine.
    pub(crate) fn prepare(&self, plan: WorkPlan) -> (r: Result<Prepared, Error>)
        requires
            self.wf(),
        ensures
            match r {
                Ok(p) => pass(self@, plan) == Ok::<_, Error>(p.outcome(self@)) && p.ready(self@)
                    && p.dropped() == purged_by(self@, plan) && p.keeps_graph() == graph_carried(self@, plan),
                Err(e) => pass(self@, plan) == Err::<State, _>(e),
            },
    {
        let ghost s = self@;
        if plan.compact {
            return self.rebuild(plan);
        }
        let bm25: Option<Bm25Index> = if plan.bm25_reindex {
            match self.reindex_bm25_from_text() {
                Ok(b) => Some(b),
                Err(e) => {
                    return Err(e);
                },
            }
        } else {
            None
        };
        let graph: Option<HnswGraph> = if plan.optimize_vectors && (plan.hnsw_full_rebuild
            || self.hnsw.indexed() == 0) {
            Some(HnswGraph::new(self.cfg.hnsw_m, self.cfg.hnsw_m0, self.cfg.max_bytes))
        } else {
            None
        };
        let version: u32 = if plan.bm25_reindex {
            TOKENIZER_INDEX_VERSION
        } else {
            self.bm25_tokenizer_version
        };
        let carried: bool = self.hnsw.indexed() != 0 && !plan.hnsw_full_rebuild;
        let p = Prepared { parts: None, bm25, graph, edges: None, version, purged: 0, carried };
        proof {
            self.vecs.lemma_wf();
            lemma_empty_graph(s);
            lemma_refs_same(s, p.outcome(s));
            if plan.optimize_vectors && plan.bm25_reindex {
                assert(p.outcome(s) == pass(s, plan)->Ok_0);
            }
        }
        Ok(p)
    }

    /// Swaps in what a pass built.
    fn install(&mut self, p: Prepared)
        requires
            old(self).wf(),
            p.ready(old(self)@),
        ensures
            final(self).wf(),
            final(self)@ == p.outcome(old(self)@),
    {
        if let Some(m) = p.parts {
            self.facts = m.facts;
            self.fact_aux = m.fact_aux;
            self.entities = m.entities;
            self.temporal = m.temporal;
            self.texts = m.texts;
            self.metas = m.metas;
            self.tag_lists = m.tag_lists;
            self.bm25 = m.bm25;
            self.tags_idx = m.tags_idx;
            self.entity_facts = m.entity_facts;
            self.vecs = m.vecs;
            self.tombstones = 0;
        }
        if let Some(b) = p.bm25 {
            self.bm25 = b;
        }
        if let Some(g) = p.graph {
            self.hnsw = g;
        }
        if let Some(e) = p.edges {
            self.edges_out = e.out;
            self.edges_in = e.inn;
            self.edges_hist_out = e.hist_out;
            self.edges_hist_in = e.hist_in;
        }
        self.bm25_tokenizer_version = p.version;
    }

    /// Bytes across the pools that a pass replaces.
    pub(crate) fn satellite_bytes(&self, with_edges: bool) -> (r: u128)
        requires
            self.sound(),
        ensures
            r == satellite(self@, with_edges),
    {
        self.sections().satellite_bytes(with_edges)
    }

    /// A report for the current state, as if nothing were done.
    pub(crate) fn report_skeleton(&self, bytes_before: u128) -> (r: MaintainReport)
        requires
            self.sound(),
        ensures
            r == skeleton(self@, bytes_before),
    {
        let n: usize = self.vecs.len();
        MaintainReport {
            purged: 0,
            bytes_before,
            bytes_after: bytes_before,
            no_op: false,
            tombstones_before: self.tombstones,
            facts_before: self.facts.len(),
            facts_after: self.facts.len(),
            vectors_before: n,
            vectors_after: n,
            hnsw_indexed_before: self.hnsw.indexed(),
            hnsw_indexed_after: self.hnsw.indexed(),
            structural_compacted: false,
            bm25_compacted: false,
            bm25_reindexed: false,
            hnsw_rebuilt: false,
            hnsw_remapped: false,
            hnsw_inserted: 0,
            edges_compacted: false,
            edges_before: self.edges_out.len(),
            edge_versions_before: self.edges_hist_out.len(),
        }
    }

    /// Whether the selected policy would change the engine.
    pub fn maintenance_needed(&self, options: MaintenanceOptions) -> (r: bool)
        requires
            self.wf(),
        ensures
            r == plan_of(self@, options).needed(),
    {
        self.work_plan(options).needs_work()
    }

    /// A report for the current state without running maintenance.
    pub fn maintenance_preview(&self, options: MaintenanceOptions, bytes_before: u128) -> (r:
        MaintainReport)
        requires
            self.wf(),
        ensures
            r == (MaintainReport {
                no_op: !plan_of(self@, options).needed(),
                ..skeleton(self@, bytes_before)
            }),
    {
        let mut report: MaintainReport = self.report_skeleton(bytes_before);
        report.no_op = !self.maintenance_needed(options);
        report
    }

    /// The report of a pass that ran, from the engine after it.
    fn report_after(
        &self,
        before: MaintainReport,
        plan: WorkPlan,
        purged: usize,
        carried: bool,
    ) -> (r: MaintainReport)
        requires
            self.sound(),
        ensures
            forall|s: State|
                #![trigger report_of(s, plan, self@, purged)]
                before == skeleton(s, satellite(s, plan.repack_edges) as u128) && s.cfg
                    == self@.cfg && plan.needed() && carried == graph_carried(s, plan) ==> r
                    == report_of(s, plan, self@, purged),
    {
        let after = Outcome {
            bytes: self.satellite_bytes(plan.repack_edges),
            facts: self.facts.len(),
            vectors: self.vecs.len(),
            indexed: self.hnsw.indexed(),
        };
        report_from(before, plan, purged, after, carried, &self.cfg)
    }

    /// The structures that a prepared pass would leave, as the source of a
    /// snapshot.
    pub(crate) fn prepared_sections<'r>(&'r self, p: &'r Prepared) -> (r: Sections<'r>)
        requires
            self.wf(),
            p.ready(self@),
        ensures
            r.sound(),
            r@ == p.outcome(self@),
    {
        let mut out: Sections<'r> = self.sections();
        if let Some(m) = &p.parts {
            out.facts = &m.facts;
            out.fact_aux = &m.fact_aux;
            out.entities = &m.entities;
            out.temporal = &m.temporal;
            out.texts = &m.texts;
            out.metas = &m.metas;
            out.tag_lists = &m.tag_lists;
            out.bm25 = &m.bm25;
            out.tags_idx = &m.tags_idx;
            out.entity_facts = &m.entity_facts;
            out.vecs = &m.vecs;
            out.tombstones = 0;
        }
        if let Some(b) = &p.bm25 {
            out.bm25 = b;
        }
        if let Some(g) = &p.graph {
            out.hnsw = g;
        }
        if let Some(e) = &p.edges {
            out.edges_out = &e.out;
            out.edges_in = &e.inn;
            out.edges_hist_out = &e.hist_out;
            out.edges_hist_in = &e.hist_in;
        }
        out.bm25_tokenizer_version = p.version;
        out
    }

    /// The report of a rewritten image, from the structures it was written
    /// from.
    pub(crate) fn report_rewrite(
        &self,
        before: MaintainReport,
        plan: WorkPlan,
        after: &Sections<'_>,
        purged: usize,
        carried: bool,
    ) -> (r: MaintainReport)
        requires
            self.sound(),
            after.sound(),
            after@.cfg == self@.cfg,
            before == skeleton(self@, satellite(self@, plan.repack_edges) as u128),
            plan.needed(),
            carried == graph_carried(self@, plan),
        ensures
            r == report_of(self@, plan, after@, purged),
    {
        let out = Outcome {
            bytes: after.satellite_bytes(plan.repack_edges),
            facts: after.facts.len(),
            vectors: after.vecs.len(),
            indexed: after.hnsw.indexed(),
        };
        report_from(before, plan, purged, out, carried, &self.cfg)
    }

    /// Runs the default maintenance pass.
    pub fn maintain<S: Storage>(&mut self, store: &mut S, now: u64) -> (r: Result<
        MaintainReport,
        Error,
    >)
        requires
            old(self).wf(),
        ensures
            final(self).wf(),
            maintained(
                old(self)@,
                final(self)@,
                MaintenanceOptions {
                    mode: MaintenanceMode::Auto,
                    max_hnsw_inserts: Some(AUTO_HNSW_INSERT_BUDGET),
                },
                r,
            ),
            compaction::unseen(old(self)@, final(self)@),
            whole::kept(old(self)@, final(self)@),
            r is Ok ==> final(store).snapshot() == old(store).snapshot(),
            r matches Ok(report) ==> final(store).journal() == if report.no_op {
                old(store).journal()
            } else {
                old(store).journal() + state::entry_of(
                    maintain_op(
                        now,
                        (MaintenanceOptions {
                            mode: MaintenanceMode::Auto,
                            max_hnsw_inserts: Some(AUTO_HNSW_INSERT_BUDGET),
                        }),
                    ),
                )
            },
    {
        self.maintain_with_options(store, now, MaintenanceOptions::auto())
    }

    /// Runs a maintenance pass with an explicit policy.
    ///
    /// The graph gets no new links; those that the host makes for a pass are
    /// taken in by [`Memory::commit_maintenance`].
    ///
    /// Whatever fails, the engine stays as it was: the new state is built and
    /// the journal marker appended before anything is swapped in.
    pub fn maintain_with_options<S: Storage>(
        &mut self,
        store: &mut S,
        now: u64,
        options: MaintenanceOptions,
    ) -> (r: Result<MaintainReport, Error>)
        requires
            old(self).wf(),
        ensures
            final(self).wf(),
            maintained(old(self)@, final(self)@, options, r),
            compaction::unseen(old(self)@, final(self)@),
            whole::kept(old(self)@, final(self)@),
            r is Ok ==> final(store).snapshot() == old(store).snapshot(),
            r matches Ok(report) ==> final(store).journal() == if report.no_op {
                old(store).journal()
            } else {
                old(store).journal() + state::entry_of(maintain_op(now, options))
            },
    {
        let ghost s = self@;
        let plan: WorkPlan = self.work_plan(options);
        proof {
            whole::lemma_kept_same(s);
            compaction::lemma_unseen_same(s);
            self.facts.lemma_wf();
            self.fact_aux.lemma_wf();
            self.entities.lemma_wf();
            if pass(s, plan) is Ok {
                assert forall|i: int| 0 <= i < s.facts.len() implies (#[trigger] s.facts[i]).id.0
                    < s.next_fact by {
                    assert(state::fact_ok(s, s.facts[i]));
                }
                compaction::maintenance_is_unseen(s, plan);
                compaction::lemma_maintain_kept(s, plan);
            }
        }
        let mut report: MaintainReport = self.report_skeleton(
            self.satellite_bytes(plan.repack_edges),
        );
        if !plan.needs_work() {
            report.no_op = true;
            return Ok(report);
        }
        let p: Prepared = match self.prepare(plan) {
            Ok(p) => p,
            Err(e) => {
                return Err(e);
            },
        };
        let op = Op::Maintain {
            now,
            mode: options.journal_mode(),
            max_hnsw_inserts: options.journal_max_hnsw_inserts(),
        };
        proof {
            memory::lemma_small_payload(op@);
        }
        let mut entry: Vec<u8> = Vec::new();
        op.encode(&mut entry);
        assert(entry@ =~= state::entry_of(op@));
        if let Err(e) = store.append_journal(entry.as_slice()) {
            return Err(storage_failed(e));
        }
        let purged: usize = p.purged;
        let carried: bool = p.carried;
        self.install(p);
        let done: MaintainReport = self.report_after(report, plan, purged, carried);
        assert(done == report_of(s, plan, self@, purged));
        Ok(done)
    }

    /// Builds what a pass would leave, without applying it. `None`: there is
    /// nothing to do.
    ///
    /// The host links the graph of the pass over its vectors and hands it to
    /// [`Memory::commit_maintenance`].
    pub fn prepare_maintenance(&self, options: MaintenanceOptions) -> (r: Result<Option<Pass>, Error>)
        requires
            self.wf(),
        ensures
            match r {
                Ok(None) => !plan_of(self@, options).needed(),
                Ok(Some(p)) => p.built_from(self@, options),
                Err(e) => plan_of(self@, options).needed() && pass(
                    self@,
                    plan_of(self@, options),
                ) == Err::<State, _>(e),
            },
    {
        let plan: WorkPlan = self.work_plan(options);
        if !plan.needs_work() {
            return Ok(None);
        }
        match self.prepare(plan) {
            Ok(built) => Ok(Some(Pass { plan, built })),
            Err(e) => Err(e),
        }
    }

    /// The vectors that a prepared pass would leave.
    pub fn pass_vectors<'r>(&'r self, p: &'r Pass) -> (r: &'r VecPool)
        requires
            self.wf(),
            exists|o: MaintenanceOptions| #[trigger] p.built_from(self@, o),
        ensures
            r.wf(),
            r@ == p.outcome(self@).vecs,
            r.dimension() == self@.cfg.dim,
    {
        match &p.built.parts {
            Some(m) => &m.vecs,
            None => &self.vecs,
        }
    }

    /// The graph that a prepared pass would leave.
    pub fn pass_graph<'r>(&'r self, p: &'r Pass) -> (r: &'r HnswGraph)
        requires
            self.wf(),
            exists|o: MaintenanceOptions| #[trigger] p.built_from(self@, o),
        ensures
            r.wf(),
            r@ == p.outcome(self@).graph,
    {
        match &p.built.graph {
            Some(g) => g,
            None => &self.hnsw,
        }
    }

    /// How far the graph of a prepared pass is to be linked. `None`: the pass
    /// does nothing for the graph.
    pub fn pass_target(&self, p: &Pass) -> (r: Option<u32>)
        requires
            self.wf(),
            exists|o: MaintenanceOptions| #[trigger] p.built_from(self@, o),
        ensures
            forall|o: MaintenanceOptions|
                #[trigger] p.built_from(self@, o) ==> r == links_due(self@, plan_of(self@, o)),
    {
        let n: usize = self.pass_vectors(p).len();
        let due: bool = if p.plan.compact {
            self.cfg.dim != 0 && n >= self.cfg.flat_to_hnsw
        } else {
            p.plan.optimize_vectors
        };
        if !due || n > u32::MAX as usize {
            return None;
        }
        let start: u32 = self.pass_graph(p).indexed();
        Some(hnsw_target(start, n as u32, p.plan.max_hnsw_inserts))
    }

    /// Streams the image that a snapshot behind a prepared pass would write,
    /// with the graph that the host linked for it, into `sink`, which must be
    /// empty. The engine itself does not change.
    pub fn write_prepared_snapshot<K: SnapshotSink>(
        &self,
        created_at: u64,
        options: MaintenanceOptions,
        p: &Pass,
        graph: &HnswGraph,
        sink: &mut K,
    ) -> (r: Result<MaintainReport, Error>)
        requires
            self.wf(),
            p.built_from(self@, options),
            graph.wf(),
            old(sink).written().len() == 0,
            graph::adopted(p.outcome(self@), graph.ceiling(), graph@) matches Ok(t)
                ==> persist::image_fits(t),
        ensures
            ({
                let plan = plan_of(self@, options);
                let u = pass(self@, plan)->Ok_0;
                match (graph::adopted(u, graph.ceiling(), graph@), r) {
                    (Err(e), _) => r == Err::<MaintainReport, _>(e),
                    (Ok(t), Ok(report)) => final(sink).written() == persist::snapshot_image(
                        t,
                        created_at,
                    ) && report == linked_report(self@, plan, u, t),
                    (Ok(t), Err(e)) => old(sink).reports().contains(e),
                }
            }),
    {
        if !graph.is_for(self.cfg.hnsw_m, self.cfg.hnsw_m0, self.cfg.max_bytes) {
            return Err(Error::ConfigMismatch("hnsw degree caps"));
        }
        if let Err(e) = graph.validate(self.pass_vectors(p)) {
            return Err(e);
        }
        let plan: WorkPlan = p.plan;
        let before: MaintainReport = self.report_skeleton(
            self.satellite_bytes(plan.repack_edges),
        );
        let mut sections: Sections<'_> = self.prepared_sections(&p.built);
        let start: u32 = sections.hnsw.indexed();
        sections.hnsw = graph;
        proof {
            assert(sections@ =~= (State { graph: graph@, ..p.outcome(self@) }));
        }
        sections.write_to(created_at, sink)?;
        let mut report: MaintainReport = self.report_rewrite(
            before,
            plan,
            &sections,
            p.built.purged,
            p.built.carried,
        );
        let indexed: u32 = graph.indexed();
        report.hnsw_inserted = if indexed > start {
            indexed - start
        } else {
            0
        };
        Ok(report)
    }

    /// Applies a prepared pass, with the graph that the host linked for it.
    ///
    /// Whatever fails, the engine stays as it was: the graph is checked and the
    /// journal marker appended before anything is swapped in.
    pub fn commit_maintenance<S: Storage>(
        &mut self,
        store: &mut S,
        now: u64,
        options: MaintenanceOptions,
        p: Pass,
        graph: HnswGraph,
    ) -> (r: Result<MaintainReport, Error>)
        requires
            old(self).wf(),
            p.built_from(old(self)@, options),
            graph.wf(),
        ensures
            final(self).wf(),
            committed(old(self)@, final(self)@, options, graph.ceiling(), graph@, r),
            compaction::unseen(old(self)@, final(self)@),
            whole::kept(old(self)@, final(self)@),
            r is Ok ==> final(store).snapshot() == old(store).snapshot(),
            r is Ok ==> final(store).journal() == old(store).journal() + state::entry_of(
                maintain_op(now, options),
            ),
            !(r is Ok) && !(r->Err_0 is Storage) ==> final(store).journal()
                == old(store).journal() && final(store).snapshot() == old(store).snapshot(),
    {
        let ghost s = self@;
        let Pass { plan, built } = p;
        let ghost u = built.outcome(s);
        proof {
            whole::lemma_kept_same(s);
            compaction::lemma_unseen_same(s);
            self.facts.lemma_wf();
            self.fact_aux.lemma_wf();
            self.entities.lemma_wf();
            assert forall|i: int| 0 <= i < s.facts.len() implies (#[trigger] s.facts[i]).id.0
                < s.next_fact by {
                assert(state::fact_ok(s, s.facts[i]));
            }
            compaction::maintenance_is_unseen(s, plan);
            compaction::lemma_maintain_kept(s, plan);
            compaction::links_are_unseen(s, u, graph@);
        }
        if !graph.is_for(self.cfg.hnsw_m, self.cfg.hnsw_m0, self.cfg.max_bytes) {
            return Err(Error::ConfigMismatch("hnsw degree caps"));
        }
        let checked: Result<(), Error> = match &built.parts {
            Some(m) => graph.validate(&m.vecs),
            None => graph.validate(&self.vecs),
        };
        if let Err(e) = checked {
            return Err(e);
        }
        let mut report: MaintainReport = self.report_skeleton(
            self.satellite_bytes(plan.repack_edges),
        );
        let op = Op::Maintain {
            now,
            mode: options.journal_mode(),
            max_hnsw_inserts: options.journal_max_hnsw_inserts(),
        };
        proof {
            memory::lemma_small_payload(op@);
        }
        let mut entry: Vec<u8> = Vec::new();
        op.encode(&mut entry);
        assert(entry@ =~= state::entry_of(op@));
        if let Err(e) = store.append_journal(entry.as_slice()) {
            return Err(storage_failed(e));
        }
        let purged: usize = built.purged;
        let carried: bool = built.carried;
        self.install(built);
        let start: u32 = self.hnsw.indexed();
        self.hnsw = graph;
        proof {
            reveal(state::graph_ok);
            assert(self@ =~= (State { graph: graph@, ..u }));
        }
        report = self.report_after(report, plan, purged, carried);
        assert(report == report_of(s, plan, self@, purged));
        let indexed: u32 = self.hnsw.indexed();
        report.hnsw_inserted = if indexed > start {
            indexed - start
        } else {
            0
        };
        Ok(report)
    }

    /// Repeats a journaled pass.
    pub(crate) fn replay_maintain_with_options(&mut self, options: MaintenanceOptions) -> (r: Result<
        (),
        Error,
    >)
        requires
            old(self).wf(),
        ensures
            final(self).wf(),
            match r {
                Ok(()) => pass(old(self)@, plan_of(old(self)@, options)) == Ok::<_, Error>(
                    final(self)@,
                ),
                Err(e) => pass(old(self)@, plan_of(old(self)@, options)) == Err::<State, _>(e)
                    && final(self)@ == old(self)@,
            },
    {
        let plan: WorkPlan = self.work_plan(options);
        if !plan.needs_work() {
            return Ok(());
        }
        match self.prepare(plan) {
            Ok(p) => {
                self.install(p);
                Ok(())
            },
            Err(e) => Err(e),
        }
    }
}

/// What a pass left, in numbers.
struct Outcome {
    bytes: u128,
    facts: usize,
    vectors: usize,
    indexed: u32,
}

/// The report of a pass, from the report before it and what it left.
fn report_from(
    before: MaintainReport,
    plan: WorkPlan,
    purged: usize,
    after: Outcome,
    carried: bool,
    cfg: &Config,
) -> (r: MaintainReport)
    ensures
        forall|s: State, t: State|
            #![trigger report_of(s, plan, t, purged)]
            before == skeleton(s, satellite(s, plan.repack_edges) as u128) && s.cfg == *cfg
                && plan.needed() && after.bytes == satellite(t, plan.repack_edges) && after.facts
                == t.facts.len() && after.vectors == vectors(t) && after.indexed
                == t.graph.indexed && carried == graph_carried(s, plan) ==> r == report_of(s, plan, t, purged),
{
    let n: usize = after.vectors;
    let graphed: bool = cfg.dim != 0 && n >= cfg.flat_to_hnsw;
    MaintainReport {
        purged,
        bytes_before: before.bytes_before,
        bytes_after: after.bytes,
        no_op: false,
        tombstones_before: before.tombstones_before,
        facts_before: before.facts_before,
        facts_after: after.facts,
        vectors_before: before.vectors_before,
        vectors_after: n,
        hnsw_indexed_before: before.hnsw_indexed_before,
        hnsw_indexed_after: after.indexed,
        structural_compacted: plan.compact,
        bm25_compacted: plan.compact && !plan.bm25_reindex,
        bm25_reindexed: plan.bm25_reindex,
        hnsw_rebuilt: if plan.compact {
            graphed && !carried && (before.hnsw_indexed_before != 0 || n > 0)
        } else {
            plan.optimize_vectors && !carried
        },
        hnsw_remapped: if plan.compact {
            graphed && carried
        } else {
            plan.optimize_vectors && carried
        },
        hnsw_inserted: 0,
        edges_compacted: plan.compact && plan.repack_edges,
        edges_before: before.edges_before,
        edge_versions_before: before.edge_versions_before,
    }
}

/// A report as if nothing were done.
pub open spec fn skeleton(s: State, bytes: u128) -> MaintainReport {
    MaintainReport {
        purged: 0,
        bytes_before: bytes,
        bytes_after: bytes,
        no_op: false,
        tombstones_before: s.tombstones,
        facts_before: s.facts.len() as usize,
        facts_after: s.facts.len() as usize,
        vectors_before: vectors(s) as usize,
        vectors_after: vectors(s) as usize,
        hnsw_indexed_before: s.graph.indexed,
        hnsw_indexed_after: s.graph.indexed,
        structural_compacted: false,
        bm25_compacted: false,
        bm25_reindexed: false,
        hnsw_rebuilt: false,
        hnsw_remapped: false,
        hnsw_inserted: 0,
        edges_compacted: false,
        edges_before: s.edges_out.len() as usize,
        edge_versions_before: s.hist_out.len() as usize,
    }
}

/// The journal marker of a pass.
pub open spec fn maintain_op(now: u64, o: MaintenanceOptions) -> OpView {
    OpView::Maintain {
        now,
        mode: mode_number(o.mode),
        max_hnsw_inserts: budget_word(o.max_hnsw_inserts),
    }
}

/// What a maintenance call leaves and returns: the planned pass and its
/// report, or the engine as it was.
pub open spec fn maintained(
    s: State,
    t: State,
    o: MaintenanceOptions,
    r: Result<MaintainReport, Error>,
) -> bool {
    let plan = plan_of(s, o);
    if !plan.needed() {
        t == s && r == Ok::<_, Error>(
            MaintainReport {
                no_op: true,
                ..skeleton(s, satellite(s, plan.repack_edges) as u128)
            },
        )
    } else {
        match pass(s, plan) {
            Err(e) => t == s && r == Err::<MaintainReport, _>(e),
            Ok(u) => match r {
                Ok(report) => t == u && report == report_of(
                    s,
                    plan,
                    u,
                    purged_by(s, plan) as usize,
                ),
                Err(e) => t == s && e is Storage,
            },
        }
    }
}

/// References hold wherever the things referred to are the same.
proof fn lemma_refs_same(s: State, t: State)
    requires
        state::refs(s),
        t.facts == s.facts,
        t.aux == s.aux,
        t.entities == s.entities,
        t.texts == s.texts,
        t.metas == s.metas,
        t.terms == s.terms,
        t.tag_lists == s.tag_lists,
        t.next_fact == s.next_fact,
        t.next_entity == s.next_entity,
    ensures
        state::refs(t),
{
    memory::lemma_grows(s, t);
}

/// A graph without nodes is in order over any pool.
pub proof fn lemma_empty_graph(s: State)
    requires
        0 <= vectors(s),
    ensures
        state::graph_ok(
            hnsw::no_nodes(s.cfg.hnsw_m as int, s.cfg.hnsw_m0 as int),
            s.cfg.dim as int,
            s.vecs,
        ),
{
    reveal(state::graph_ok);
}

proof fn lemma_entities_err(s: State, b: State, k: nat, n: nat)
    requires
        k <= n,
        entities_carried(s, b, k) is Err,
    ensures
        entities_carried(s, b, n) == entities_carried(s, b, k),
    decreases n - k,
{
    if k < n {
        lemma_entities_err(s, b, k, (n - 1) as nat);
    }
}

proof fn lemma_facts_err(s: State, c: Carry, k: nat, n: nat, reindex: bool)
    requires
        k <= n,
        facts_carried(s, c, k, reindex) is Err,
    ensures
        facts_carried(s, c, n, reindex) == facts_carried(s, c, k, reindex),
    decreases n - k,
{
    if k < n {
        lemma_facts_err(s, c, k, (n - 1) as nat, reindex);
    }
}

proof fn lemma_reindexed_err(s: State, k: nat, n: nat)
    requires
        k <= n,
        reindexed(s, k) is Err,
    ensures
        reindexed(s, n) == reindexed(s, k),
    decreases n - k,
{
    if k < n {
        lemma_reindexed_err(s, k, (n - 1) as nat);
    }
}

proof fn lemma_tags_err(b: State, tags: Seq<u32>, fact: FactId, n: int)
    requires
        0 <= n <= tags.len(),
        tags_carried(b, tags.take(n), fact) is Err,
    ensures
        tags_carried(b, tags, fact) == tags_carried(b, tags.take(n), fact),
    decreases tags.len() - n,
{
    if n == tags.len() {
        assert(tags.take(n) =~= tags);
    } else {
        assert(tags.take(n + 1).drop_last() =~= tags.take(n));
        lemma_tags_err(b, tags, fact, n + 1);
    }
}

} // verus!
