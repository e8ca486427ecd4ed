//! Reading images written in older layouts.
//!
//! Every layout ever written must still open. A migration reads the old bytes
//! once, rebuilds the current structures from them, and the next snapshot
//! persists the result; nothing on the steady-state read path knows that an
//! old layout exists.
//!
//! | image | what it lacks | how it is upgraded |
//! |---|---|---|
//! | engine state, 24 bytes | tokenizer version, edge-version counter | defaults; counters re-derived |
//! | engine state, 32 bytes | edge-version counter | re-derived from history |
//! | edges without history | the edge-history tables | one open version per current edge |
//! | edges keyed by triple | the time-ordered history key | every version re-keyed; current edges re-derived from the open ones |
//! | 8-byte document records | the term-set summary | widened, marked unknown; maintenance fills them from the postings |

use crate::codec;
use crate::codec::get_u32;
use crate::error::{ArenaError, Error};
use crate::id::EdgeId;
use crate::memory::legacy_kind;
use crate::memory::state;
use crate::memory::state::State;
use crate::memory::{Memory, TOKENIZER_INDEX_VERSION};
use crate::model::{
    DocLenSlot, EdgeHistorySlot, EdgeSlot, LegacyDocLenSlot, LegacyEdgeHistorySlot, LegacyEdgeSlot,
    Slot, VALID_TO_OPEN,
};
use crate::snapshot;
use crate::snapshot::{Snapshot, SnapshotView};
use crate::table;
use crate::table::Table;
use vstd::prelude::*;

verus! {

/// Byte length of the first engine-state section.
pub const STATE_V1_LEN: usize = 24;

/// Byte length of the engine-state section that carries the tokenizer version.
pub const STATE_V2_LEN: usize = 32;

/// Byte length of the current engine-state section.
pub const STATE_LEN: usize = 40;

/// The engine-state section, decoded from any width ever written.
#[derive(Clone, Copy, Debug, PartialEq, Eq, Structural)]
pub struct EngineState {
    pub next_fact: u32,
    pub next_entity: u32,
    pub bm25_tokenizer_version: u32,
    pub next_edge: u32,
    /// The image predates the edge-version counter, so `next_edge` is a
    /// default and missing edge history is expected rather than corruption.
    pub predates_edge_versions: bool,
}

/// The counters of an engine-state section.
pub open spec fn state_decoded(b: Seq<u8>) -> Result<EngineState, Error> {
    if b.len() != STATE_V1_LEN && b.len() != STATE_V2_LEN && b.len() != STATE_LEN {
        Err(Error::Corrupt("engine state section has a wrong length"))
    } else {
        Ok(
            EngineState {
                next_fact: codec::num_at(b, 0, 4) as u32,
                next_entity: codec::num_at(b, 4, 4) as u32,
                bm25_tokenizer_version: if b.len() >= STATE_V2_LEN {
                    codec::num_at(b, 24, 4) as u32
                } else {
                    TOKENIZER_INDEX_VERSION
                },
                next_edge: if b.len() >= STATE_LEN {
                    codec::num_at(b, 32, 4) as u32
                } else {
                    0
                },
                predates_edge_versions: b.len() < STATE_LEN,
            },
        )
    }
}

/// Decodes the engine-state section, accepting every width ever written and
/// filling in defaults for the fields an older one omitted.
pub fn decode_engine_state(bytes: &[u8]) -> (r: Result<EngineState, Error>)
    ensures
        r == state_decoded(bytes@),
{
    if bytes.len() != STATE_V1_LEN && bytes.len() != STATE_V2_LEN && bytes.len() != STATE_LEN {
        return Err(Error::Corrupt("engine state section has a wrong length"));
    }
    let bm25_tokenizer_version: u32 = if bytes.len() >= STATE_V2_LEN {
        get_u32(bytes, 24)
    } else {
        TOKENIZER_INDEX_VERSION
    };
    let next_edge: u32 = if bytes.len() >= STATE_LEN {
        get_u32(bytes, 32)
    } else {
        0
    };
    Ok(
        EngineState {
            next_fact: get_u32(bytes, 0),
            next_entity: get_u32(bytes, 4),
            bm25_tokenizer_version,
            next_edge,
            predates_edge_versions: bytes.len() < STATE_LEN,
        },
    )
}

/// Both halves of a section pair, or `None` when neither is present.
pub open spec fn pair_of(v: SnapshotView, meta: u16, pool: u16) -> Result<
    Option<(Seq<u8>, Seq<u8>)>,
    Error,
> {
    match (snapshot::section_of(v, meta), snapshot::section_of(v, pool)) {
        (Some(m), Some(p)) => Ok(Some((m, p))),
        (None, None) => Ok(None),
        _ => Err(Error::Corrupt("snapshot section pair is incomplete")),
    }
}

/// Both halves of a section pair, or `None` when neither is present.
fn section_pair<'s>(snap: &Snapshot<'s>, meta: u16, pool: u16) -> (r: Result<
    Option<(&'s [u8], &'s [u8])>,
    Error,
>)
    requires
        snap.wf(),
    ensures
        match r {
            Ok(Some((m, p))) => pair_of(snap@, meta, pool) == Ok::<_, Error>(Some((m@, p@))),
            Ok(None) => pair_of(snap@, meta, pool) == Ok::<Option<(Seq<u8>, Seq<u8>)>, Error>(None),
            Err(e) => pair_of(snap@, meta, pool) == Err::<Option<(Seq<u8>, Seq<u8>)>, _>(e),
        },
{
    match (snap.section(meta), snap.section(pool)) {
        (Some(m), Some(p)) => Ok(Some((m, p))),
        (None, None) => Ok(None),
        _ => Err(Error::Corrupt("snapshot section pair is incomplete")),
    }
}

/// The rows of a stored table; a refused table is an error of the engine.
pub open spec fn rows_loaded<T: Slot>(meta: Seq<u8>, pool: Seq<u8>, max_bytes: int) -> Result<
    Seq<T>,
    Error,
> {
    match table::table_loaded::<T>(meta, pool, max_bytes) {
        Ok(rows) => Ok(rows),
        Err(e) => Err(Error::Arena(e)),
    }
}

/// Loads a table.
pub(crate) fn load_rows<T: Slot>(meta: &[u8], pool: &[u8], max_bytes: usize) -> (r: Result<
    Table<T>,
    Error,
>)
    ensures
        match r {
            Ok(t) => t.wf() && t.ceiling() == max_bytes && rows_loaded::<T>(
                meta@,
                pool@,
                max_bytes as int,
            ) == Ok::<_, Error>(t@),
            Err(e) => rows_loaded::<T>(meta@, pool@, max_bytes as int) == Err::<Seq<T>, _>(e),
        },
{
    match Table::load(meta, pool, max_bytes) {
        Ok(t) => Ok(t),
        Err(e) => Err(Error::Arena(e)),
    }
}

/// A document record widened to carry a summary that is not known yet.
pub open spec fn widened(doc: LegacyDocLenSlot) -> DocLenSlot {
    DocLenSlot { fact: doc.fact, len: doc.len, distinct: 0, sig: 0 }
}

/// The document records of an image without summaries, widened; `None` when
/// the image holds no such records.
pub open spec fn legacy_docs(v: SnapshotView, max_bytes: int) -> Result<
    Option<Seq<DocLenSlot>>,
    Error,
> {
    match pair_of(v, legacy_kind::BM25_DOCLEN_META, legacy_kind::BM25_DOCLEN_POOL) {
        Err(e) => Err(e),
        Ok(None) => Ok(None),
        Ok(Some((meta, pool))) => match rows_loaded::<LegacyDocLenSlot>(meta, pool, max_bytes) {
            Err(e) => Err(e),
            Ok(rows) => if rows.len() * DocLenSlot::slot_size() > max_bytes {
                Err(Error::Arena(ArenaError::CapacityExceeded))
            } else {
                Ok(Some(rows.map_values(|d: LegacyDocLenSlot| widened(d))))
            },
        },
    }
}

/// Reads the document records of an image without summaries, widened into the
/// current slot.
///
/// The records are marked unknown rather than guessed; the first maintenance
/// pass fills the summaries in from the postings.
pub(crate) fn legacy_doc_len(snap: &Snapshot<'_>, max_bytes: usize) -> (r: Result<
    Option<Table<DocLenSlot>>,
    Error,
>)
    requires
        snap.wf(),
    ensures
        match r {
            Ok(Some(t)) => t.wf() && t.ceiling() == max_bytes && legacy_docs(
                snap@,
                max_bytes as int,
            ) == Ok::<_, Error>(Some(t@)),
            Ok(None) => legacy_docs(snap@, max_bytes as int) == Ok::<
                Option<Seq<DocLenSlot>>,
                Error,
            >(None),
            Err(e) => legacy_docs(snap@, max_bytes as int) == Err::<Option<Seq<DocLenSlot>>, _>(e),
        },
{
    let (meta, pool) = match section_pair(
        snap,
        legacy_kind::BM25_DOCLEN_META,
        legacy_kind::BM25_DOCLEN_POOL,
    ) {
        Ok(Some(pair)) => pair,
        Ok(None) => {
            return Ok(None);
        },
        Err(e) => {
            return Err(e);
        },
    };
    let old_rows: Table<LegacyDocLenSlot> = match load_rows(meta, pool, max_bytes) {
        Ok(t) => t,
        Err(e) => {
            return Err(e);
        },
    };
    let mut out: Table<DocLenSlot> = Table::new(max_bytes);
    let ghost f = |d: LegacyDocLenSlot| widened(d);
    let mut i: usize = 0;
    proof {
        old_rows.lemma_wf();
        assert(old_rows@.take(0).map_values(f) =~= Seq::empty());
    }
    while i < old_rows.len()
        invariant
            i <= old_rows@.len(),
            table::ascending(old_rows@),
            f == (|d: LegacyDocLenSlot| widened(d)),
            out.wf(),
            out.ceiling() == max_bytes,
            out@ == old_rows@.take(i as int).map_values(f),
            i * 16 <= max_bytes,
            snap.wf(),
            legacy_docs(snap@, max_bytes as int) == (if old_rows@.len() * 16 > max_bytes {
                Err(Error::Arena(ArenaError::CapacityExceeded))
            } else {
                Ok(Some(old_rows@.map_values(f)))
            }),
        decreases old_rows@.len() - i,
    {
        let doc: LegacyDocLenSlot = old_rows.row(i);
        let row = DocLenSlot { fact: doc.fact, len: doc.len, distinct: 0, sig: 0 };
        let ghost before = out@;
        proof {
            out.lemma_wf();
            assert forall|k: int| 0 <= k < before.len() implies (#[trigger] before[k]).key()
                < row.key() by {
                assert(old_rows@[k].key() < old_rows@[i as int].key());
            }
            table::lemma_append(before, row);
        }
        if let Err(e) = out.insert(row) {
            return Err(Error::Arena(e));
        }
        i = i + 1;
        assert(out@ =~= old_rows@.take(i as int).map_values(f));
    }
    assert(old_rows@.take(i as int) =~= old_rows@);
    Ok(Some(out))
}

/// A version re-keyed by time.
pub open spec fn rekeyed(v: LegacyEdgeHistorySlot) -> EdgeHistorySlot {
    EdgeHistorySlot {
        a: v.a,
        rel: v.rel,
        b: v.b,
        edge: v.edge,
        fact: v.fact,
        flags: v.flags,
        kind: v.kind,
        recorded_at: v.recorded_at,
        valid_from: v.valid_from,
        valid_to: v.valid_to,
    }
}

/// The open version of an edge that was stored without history. Its validity
/// is unknown, so it starts at the epoch.
pub open spec fn synthesized(e: LegacyEdgeSlot, edge: EdgeId) -> EdgeHistorySlot {
    EdgeHistorySlot {
        a: e.a,
        rel: e.rel,
        b: e.b,
        edge,
        fact: e.fact,
        flags: 0,
        kind: 0,
        recorded_at: 0,
        valid_from: 0,
        valid_to: VALID_TO_OPEN,
    }
}

/// The current edge that an open version stands for.
pub open spec fn edge_of(v: EdgeHistorySlot) -> EdgeSlot {
    EdgeSlot { a: v.a, rel: v.rel, b: v.b, fact: v.fact, edge: v.edge, valid_from: v.valid_from }
}

/// One version put into both history tables, and into the current graph when
/// it is still open.
pub open spec fn version_adopted(s: State, v: EdgeHistorySlot) -> (State, Result<(), Error>) {
    let (t, r) = state::version_added(s, v);
    match r {
        Err(e) => (t, Err(e)),
        Ok(()) => if v.valid_to == VALID_TO_OPEN {
            state::current_added(t, edge_of(v))
        } else {
            (t, Ok(()))
        },
    }
}

/// All versions of an older history in turn.
pub open spec fn history_adopted(s: State, rows: Seq<LegacyEdgeHistorySlot>) -> (
    State,
    Result<(), Error>,
)
    decreases rows.len(),
{
    if rows.len() == 0 {
        (s, Ok(()))
    } else {
        let (t, r) = history_adopted(s, rows.drop_last());
        match r {
            Err(e) => (t, Err(e)),
            Ok(()) => version_adopted(t, rekeyed(rows.last())),
        }
    }
}

/// The next edge id, which stops at the largest number.
pub open spec fn bumped_edge(next: u32) -> u32 {
    if next == u32::MAX {
        u32::MAX
    } else {
        (next + 1) as u32
    }
}

/// All edges of an image without history in turn, one open version each.
pub open spec fn edges_adopted(s: State, rows: Seq<LegacyEdgeSlot>) -> (State, Result<(), Error>)
    decreases rows.len(),
{
    if rows.len() == 0 {
        (s, Ok(()))
    } else {
        let (t, r) = edges_adopted(s, rows.drop_last());
        match r {
            Err(e) => (t, Err(e)),
            Ok(()) => version_adopted(
                State { next_edge: bumped_edge(t.next_edge), ..t },
                synthesized(rows.last(), EdgeId(t.next_edge)),
            ),
        }
    }
}

/// The current edges of an older image, or `None` when it has none.
pub open spec fn legacy_current(v: SnapshotView, max_bytes: int) -> Result<
    Option<Seq<LegacyEdgeSlot>>,
    Error,
> {
    match pair_of(v, legacy_kind::EDGES_OUT_META, legacy_kind::EDGES_OUT_POOL) {
        Err(e) => Err(e),
        Ok(None) => Ok(None),
        Ok(Some((meta, pool))) => match pair_of(
            v,
            legacy_kind::EDGES_IN_META,
            legacy_kind::EDGES_IN_POOL,
        ) {
            Err(e) => Err(e),
            Ok(None) => Err(Error::Corrupt("snapshot has incomplete edge sections")),
            Ok(Some(_)) => match rows_loaded::<LegacyEdgeSlot>(meta, pool, max_bytes) {
                Err(e) => Err(e),
                Ok(rows) => Ok(Some(rows)),
            },
        },
    }
}

/// The edge history of an older image, or `None` when it predates history.
pub open spec fn legacy_versions(v: SnapshotView, max_bytes: int) -> Result<
    Option<Seq<LegacyEdgeHistorySlot>>,
    Error,
> {
    match pair_of(v, legacy_kind::EDGE_HIST_OUT_META, legacy_kind::EDGE_HIST_OUT_POOL) {
        Err(e) => Err(e),
        Ok(out) => match pair_of(
            v,
            legacy_kind::EDGE_HIST_IN_META,
            legacy_kind::EDGE_HIST_IN_POOL,
        ) {
            Err(e) => Err(e),
            Ok(back) => match (out, back) {
                (Some((meta, pool)), Some(_)) => match rows_loaded::<LegacyEdgeHistorySlot>(
                    meta,
                    pool,
                    max_bytes,
                ) {
                    Err(e) => Err(e),
                    Ok(rows) => Ok(Some(rows)),
                },
                (None, None) => Ok(None),
                _ => Err(Error::Corrupt("snapshot has incomplete edge history sections")),
            },
        },
    }
}

/// The edge tables rebuilt from an older image.
///
/// Where versions exist, they are re-keyed and the current graph is taken from
/// the open ones; otherwise every current edge becomes one open version.
pub open spec fn edges_migrated(s: State, v: SnapshotView) -> Result<State, Error> {
    match legacy_current(v, state::cap(s)) {
        Err(e) => Err(e),
        Ok(None) => Ok(s),
        Ok(Some(current)) => match legacy_versions(v, state::cap(s)) {
            Err(e) => Err(e),
            Ok(Some(history)) => {
                let (t, r) = history_adopted(s, history);
                match r {
                    Err(e) => Err(e),
                    Ok(()) => if t.edges_out.len() != current.len() {
                        Err(Error::Corrupt("legacy edge history does not cover every current edge"))
                    } else {
                        Ok(t)
                    },
                }
            },
            Ok(None) => {
                let (t, r) = edges_adopted(s, current);
                match r {
                    Err(e) => Err(e),
                    Ok(()) => Ok(t),
                }
            },
        },
    }
}

proof fn lemma_history_err(s: State, rows: Seq<LegacyEdgeHistorySlot>, n: int)
    requires
        0 <= n <= rows.len(),
        history_adopted(s, rows.take(n)).1 is Err,
    ensures
        history_adopted(s, rows) == history_adopted(s, rows.take(n)),
    decreases rows.len() - n,
{
    if n < rows.len() {
        assert(rows.take(n + 1).drop_last() =~= rows.take(n));
        lemma_history_err(s, rows, n + 1);
    } else {
        assert(rows.take(n) =~= rows);
    }
}

proof fn lemma_edges_err(s: State, rows: Seq<LegacyEdgeSlot>, n: int)
    requires
        0 <= n <= rows.len(),
        edges_adopted(s, rows.take(n)).1 is Err,
    ensures
        edges_adopted(s, rows) == edges_adopted(s, rows.take(n)),
    decreases rows.len() - n,
{
    if n < rows.len() {
        assert(rows.take(n + 1).drop_last() =~= rows.take(n));
        lemma_edges_err(s, rows, n + 1);
    } else {
        assert(rows.take(n) =~= rows);
    }
}

fn load_legacy_current(snap: &Snapshot<'_>, max_bytes: usize) -> (r: Result<
    Option<Table<LegacyEdgeSlot>>,
    Error,
>)
    requires
        snap.wf(),
    ensures
        match r {
            Ok(Some(t)) => t.wf() && legacy_current(snap@, max_bytes as int) == Ok::<_, Error>(
                Some(t@),
            ),
            Ok(None) => legacy_current(snap@, max_bytes as int) == Ok::<
                Option<Seq<LegacyEdgeSlot>>,
                Error,
            >(None),
            Err(e) => legacy_current(snap@, max_bytes as int) == Err::<
                Option<Seq<LegacyEdgeSlot>>,
                _,
            >(e),
        },
{
    let (meta, pool) = match section_pair(
        snap,
        legacy_kind::EDGES_OUT_META,
        legacy_kind::EDGES_OUT_POOL,
    ) {
        Ok(Some(pair)) => pair,
        Ok(None) => {
            return Ok(None);
        },
        Err(e) => {
            return Err(e);
        },
    };
    match section_pair(snap, legacy_kind::EDGES_IN_META, legacy_kind::EDGES_IN_POOL) {
        Ok(Some(_)) => {},
        Ok(None) => {
            return Err(Error::Corrupt("snapshot has incomplete edge sections"));
        },
        Err(e) => {
            return Err(e);
        },
    }
    match load_rows(meta, pool, max_bytes) {
        Ok(t) => Ok(Some(t)),
        Err(e) => Err(e),
    }
}

fn load_legacy_versions(snap: &Snapshot<'_>, max_bytes: usize) -> (r: Result<
    Option<Table<LegacyEdgeHistorySlot>>,
    Error,
>)
    requires
        snap.wf(),
    ensures
        match r {
            Ok(Some(t)) => t.wf() && legacy_versions(snap@, max_bytes as int) == Ok::<_, Error>(
                Some(t@),
            ),
            Ok(None) => legacy_versions(snap@, max_bytes as int) == Ok::<
                Option<Seq<LegacyEdgeHistorySlot>>,
                Error,
            >(None),
            Err(e) => legacy_versions(snap@, max_bytes as int) == Err::<
                Option<Seq<LegacyEdgeHistorySlot>>,
                _,
            >(e),
        },
{
    let out = match section_pair(
        snap,
        legacy_kind::EDGE_HIST_OUT_META,
        legacy_kind::EDGE_HIST_OUT_POOL,
    ) {
        Ok(x) => x,
        Err(e) => {
            return Err(e);
        },
    };
    let back = match section_pair(
        snap,
        legacy_kind::EDGE_HIST_IN_META,
        legacy_kind::EDGE_HIST_IN_POOL,
    ) {
        Ok(x) => x,
        Err(e) => {
            return Err(e);
        },
    };
    match (out, back) {
        (Some((meta, pool)), Some(_)) => match load_rows(meta, pool, max_bytes) {
            Ok(t) => Ok(Some(t)),
            Err(e) => Err(e),
        },
        (None, None) => Ok(None),
        _ => Err(Error::Corrupt("snapshot has incomplete edge history sections")),
    }
}

impl Memory {
    /// Puts one migrated version into both history tables, and into the
    /// current graph as well when it is still open.
    fn adopt_history_version(&mut self, v: EdgeHistorySlot) -> (r: Result<(), Error>)
        requires
            old(self).sound(),
        ensures
            final(self).sound(),
            version_adopted(old(self)@, v) == (final(self)@, r),
    {
        if let Err(e) = self.insert_history_edge(v) {
            return Err(e);
        }
        if v.valid_to == VALID_TO_OPEN {
            return self.insert_current_edge(
                EdgeSlot {
                    a: v.a,
                    rel: v.rel,
                    b: v.b,
                    fact: v.fact,
                    edge: v.edge,
                    valid_from: v.valid_from,
                },
            );
        }
        Ok(())
    }

    fn adopt_history(&mut self, history: &Table<LegacyEdgeHistorySlot>) -> (r: Result<(), Error>)
        requires
            old(self).sound(),
        ensures
            final(self).sound(),
            match r {
                Ok(()) => history_adopted(old(self)@, history@) == (final(self)@, r),
                Err(e) => history_adopted(old(self)@, history@).1 == r,
            },
    {
        let ghost s = self@;
        let ghost rows = history@;
        let mut i: usize = 0;
        assert(rows.take(0) =~= Seq::empty());
        while i < history.len()
            invariant
                i <= rows.len(),
                rows == history@,
                s == old(self)@,
                self.sound(),
                history_adopted(s, rows.take(i as int)) == (self@, Ok::<(), Error>(())),
            decreases rows.len() - i,
        {
            let v: LegacyEdgeHistorySlot = history.row(i);
            proof {
                assert(rows.take(i + 1).drop_last() =~= rows.take(i as int));
                assert(rows.take(i + 1).last() == v);
            }
            if let Err(e) = self.adopt_history_version(
                EdgeHistorySlot {
                    a: v.a,
                    rel: v.rel,
                    b: v.b,
                    edge: v.edge,
                    fact: v.fact,
                    flags: v.flags,
                    kind: v.kind,
                    recorded_at: v.recorded_at,
                    valid_from: v.valid_from,
                    valid_to: v.valid_to,
                },
            ) {
                proof {
                    lemma_history_err(s, rows, i + 1);
                }
                return Err(e);
            }
            i = i + 1;
        }
        assert(rows.take(i as int) =~= rows);
        Ok(())
    }

    fn adopt_edges(&mut self, current: &Table<LegacyEdgeSlot>) -> (r: Result<(), Error>)
        requires
            old(self).sound(),
        ensures
            final(self).sound(),
            match r {
                Ok(()) => edges_adopted(old(self)@, current@) == (final(self)@, r),
                Err(e) => edges_adopted(old(self)@, current@).1 == r,
            },
    {
        let ghost s = self@;
        let ghost rows = current@;
        let mut i: usize = 0;
        assert(rows.take(0) =~= Seq::empty());
        while i < current.len()
            invariant
                i <= rows.len(),
                rows == current@,
                s == old(self)@,
                self.sound(),
                edges_adopted(s, rows.take(i as int)) == (self@, Ok::<(), Error>(())),
            decreases rows.len() - i,
        {
            let e: LegacyEdgeSlot = current.row(i);
            proof {
                assert(rows.take(i + 1).drop_last() =~= rows.take(i as int));
                assert(rows.take(i + 1).last() == e);
            }
            let edge: EdgeId = EdgeId(self.next_edge);
            if self.next_edge < u32::MAX {
                self.next_edge = self.next_edge + 1;
            }
            if let Err(e) = self.adopt_history_version(
                EdgeHistorySlot {
                    a: e.a,
                    rel: e.rel,
                    b: e.b,
                    edge,
                    fact: e.fact,
                    flags: 0,
                    kind: 0,
                    recorded_at: 0,
                    valid_from: 0,
                    valid_to: VALID_TO_OPEN,
                },
            ) {
                proof {
                    lemma_edges_err(s, rows, i + 1);
                }
                return Err(e);
            }
            i = i + 1;
        }
        assert(rows.take(i as int) =~= rows);
        Ok(())
    }

    /// Rebuilds the edge tables from an older image, if the snapshot is one.
    pub(crate) fn migrate_edges(&mut self, snap: &Snapshot<'_>) -> (r: Result<(), Error>)
        requires
            old(self).sound(),
            snap.wf(),
        ensures
            final(self).sound(),
            match r {
                Ok(()) => edges_migrated(old(self)@, snap@) == Ok::<_, Error>(final(self)@),
                Err(e) => edges_migrated(old(self)@, snap@) == Err::<State, _>(e),
            },
    {
        let current: Table<LegacyEdgeSlot> = match load_legacy_current(snap, self.cfg.max_bytes) {
            Ok(Some(t)) => t,
            Ok(None) => {
                return Ok(());
            },
            Err(e) => {
                return Err(e);
            },
        };
        let history: Option<Table<LegacyEdgeHistorySlot>> = match load_legacy_versions(
            snap,
            self.cfg.max_bytes,
        ) {
            Ok(x) => x,
            Err(e) => {
                return Err(e);
            },
        };
        match history {
            Some(rows) => {
                if let Err(e) = self.adopt_history(&rows) {
                    return Err(e);
                }
                if self.edges_out.len() != current.len() {
                    return Err(
                        Error::Corrupt("legacy edge history does not cover every current edge"),
                    );
                }
                Ok(())
            },
            None => self.adopt_edges(&current),
        }
    }
}

} // verus!
