//! Loading a snapshot: the untrusted side of persistence.
//!
//! A load goes through the sections in a fixed order, then reads the id
//! counters, upgrades older layouts and range-checks every stored id. The
//! large byte pools are not scanned; [`Memory::verify`] does that on demand.

use crate::codec;
use crate::codec::get_u64;
use crate::config;
use crate::config::Config;
use crate::error::Error;
use crate::heap;
use crate::heap::BlobHeap;
use crate::index::bm25::{Bm25Index, Bm25State};
use crate::index::hnsw;
use crate::index::hnsw::{GraphSections, HnswGraph};
use crate::index::postings;
use crate::index::postings::PostingStore;
use crate::index::vecpool;
use crate::index::vecpool::VecPool;
use crate::interner;
use crate::interner::Interner;
use crate::memory;
use crate::memory::integrity;
use crate::memory::kind;
use crate::memory::migrations;
use crate::memory::migrations::{decode_engine_state, legacy_doc_len, load_rows, EngineState};
use crate::memory::state;
use crate::memory::state::State;
use crate::memory::{Memory, TOKENIZER_INDEX_VERSION};
use crate::model::{DocLenSlot, EdgeHistorySlot, EdgeSlot, FactRecord, Slot};
use crate::parse;
use crate::snapshot;
use crate::snapshot::{Snapshot, SnapshotView};
use crate::table::Table;
use crate::text::str_from_utf8;
use vstd::prelude::*;
use vstd::string::*;
use vstd::utf8::*;

verus! {

/// A section that must be there.
pub open spec fn required(v: SnapshotView, k: u16) -> Result<Seq<u8>, Error> {
    match snapshot::section_of(v, k) {
        Some(b) => Ok(b),
        None => Err(Error::Corrupt("snapshot is missing a required section")),
    }
}

/// Fetches a required section.
fn section<'a>(snap: &Snapshot<'a>, k: u16) -> (r: Result<&'a [u8], Error>)
    requires
        snap.wf(),
    ensures
        match r {
            Ok(b) => required(snap@, k) == Ok::<_, Error>(b@),
            Err(e) => required(snap@, k) == Err::<Seq<u8>, _>(e),
        },
{
    match snap.section(k) {
        Some(b) => Ok(b),
        None => Err(Error::Corrupt("snapshot is missing a required section")),
    }
}

/// Two sections that must be there.
pub open spec fn required_pair(v: SnapshotView, a: u16, b: u16) -> Result<
    (Seq<u8>, Seq<u8>),
    Error,
> {
    match required(v, a) {
        Err(e) => Err(e),
        Ok(x) => match required(v, b) {
            Err(e) => Err(e),
            Ok(y) => Ok((x, y)),
        },
    }
}

fn section_two<'a>(snap: &Snapshot<'a>, a: u16, b: u16) -> (r: Result<
    (&'a [u8], &'a [u8]),
    Error,
>)
    requires
        snap.wf(),
    ensures
        match r {
            Ok((x, y)) => required_pair(snap@, a, b) == Ok::<_, Error>((x@, y@)),
            Err(e) => required_pair(snap@, a, b) == Err::<(Seq<u8>, Seq<u8>), _>(e),
        },
{
    let x: &'a [u8] = section(snap, a)?;
    let y: &'a [u8] = section(snap, b)?;
    Ok((x, y))
}

/// A table from its two sections.
pub open spec fn table_in<T: Slot>(v: SnapshotView, meta: u16, pool: u16, max_bytes: int) -> Result<
    Seq<T>,
    Error,
> {
    match required_pair(v, meta, pool) {
        Err(e) => Err(e),
        Ok((m, p)) => migrations::rows_loaded::<T>(m, p, max_bytes),
    }
}

fn load_table<T: Slot>(snap: &Snapshot<'_>, meta: u16, pool: u16, max_bytes: usize) -> (r: Result<
    Table<T>,
    Error,
>)
    requires
        snap.wf(),
    ensures
        match r {
            Ok(t) => t.wf() && t.ceiling() == max_bytes && table_in::<T>(
                snap@,
                meta,
                pool,
                max_bytes as int,
            ) == Ok::<_, Error>(t@),
            Err(e) => table_in::<T>(snap@, meta, pool, max_bytes as int) == Err::<Seq<T>, _>(e),
        },
{
    let (m, p) = section_two(snap, meta, pool)?;
    load_rows(m, p, max_bytes)
}

/// A heap from its two sections.
pub open spec fn heap_in(
    v: SnapshotView,
    index: u16,
    pool: u16,
    max_bytes: int,
    max_blob: int,
) -> Result<Seq<Seq<u8>>, Error> {
    match required_pair(v, index, pool) {
        Err(e) => Err(e),
        Ok((i, p)) => match heap::heap_loaded(i, p, max_bytes, max_blob) {
            Ok(blobs) => Ok(blobs),
            Err(e) => Err(Error::Arena(e)),
        },
    }
}

fn load_heap(snap: &Snapshot<'_>, index: u16, pool: u16, max_bytes: usize, max_blob: usize) -> (r:
    Result<BlobHeap, Error>)
    requires
        snap.wf(),
    ensures
        match r {
            Ok(h) => h.wf() && h.ceiling() == max_bytes && h.blob_ceiling() == max_blob && heap_in(
                snap@,
                index,
                pool,
                max_bytes as int,
                max_blob as int,
            ) == Ok::<_, Error>(h@),
            Err(e) => heap_in(snap@, index, pool, max_bytes as int, max_blob as int) == Err::<
                Seq<Seq<u8>>,
                _,
            >(e),
        },
{
    let (i, p) = section_two(snap, index, pool)?;
    match BlobHeap::load(i, p, max_bytes, max_blob) {
        Ok(h) => Ok(h),
        Err(e) => Err(Error::Arena(e)),
    }
}

/// The terms from their three sections.
pub open spec fn terms_in(v: SnapshotView, max_bytes: int, max_blob: int) -> Result<
    Seq<Seq<char>>,
    Error,
> {
    match required_pair(v, kind::TERMS_INDEX, kind::TERMS_POOL) {
        Err(e) => Err(e),
        Ok((i, p)) => match required(v, kind::TERMS_TABLE) {
            Err(e) => Err(e),
            Ok(t) => match interner::interner_loaded(i, p, t, max_bytes, max_blob) {
                Ok(terms) => Ok(terms),
                Err(e) => Err(Error::Arena(e)),
            },
        },
    }
}

fn load_terms(snap: &Snapshot<'_>, max_bytes: usize, max_blob: usize) -> (r: Result<
    Interner,
    Error,
>)
    requires
        snap.wf(),
    ensures
        match r {
            Ok(x) => x.wf() && x.ceiling() == max_bytes && x.blob_ceiling() == max_blob && terms_in(
                snap@,
                max_bytes as int,
                max_blob as int,
            ) == Ok::<_, Error>(x@),
            Err(e) => terms_in(snap@, max_bytes as int, max_blob as int) == Err::<
                Seq<Seq<char>>,
                _,
            >(e),
        },
{
    let (i, p) = section_two(snap, kind::TERMS_INDEX, kind::TERMS_POOL)?;
    let t: &[u8] = section(snap, kind::TERMS_TABLE)?;
    match Interner::load(i, p, t, max_bytes, max_blob) {
        Ok(x) => Ok(x),
        Err(e) => Err(Error::Arena(e)),
    }
}

/// A posting store from its four sections, which follow one another.
pub open spec fn store_in(tf: bool, v: SnapshotView, first: u16, max_bytes: int) -> Result<
    Seq<postings::List>,
    Error,
> {
    match required_pair(v, first, (first + 1) as u16) {
        Err(e) => Err(e),
        Ok((hm, hp)) => match required_pair(v, (first + 2) as u16, (first + 3) as u16) {
            Err(e) => Err(e),
            Ok((cm, cp)) => postings::store_loaded(tf, max_bytes, hm, hp, cm, cp),
        },
    }
}

fn load_store<const TF: bool>(snap: &Snapshot<'_>, first: u16, max_bytes: usize) -> (r: Result<
    PostingStore<TF>,
    Error,
>)
    requires
        snap.wf(),
        first < 100,
    ensures
        match r {
            Ok(x) => x.wf() && x.ceiling() == max_bytes && store_in(
                TF,
                snap@,
                first,
                max_bytes as int,
            ) == Ok::<_, Error>(x@),
            Err(e) => store_in(TF, snap@, first, max_bytes as int) == Err::<
                Seq<postings::List>,
                _,
            >(e),
        },
{
    let (hm, hp) = section_two(snap, first, first + 1)?;
    let (cm, cp) = section_two(snap, first + 2, first + 3)?;
    PostingStore::load_sections(max_bytes, hm, hp, cm, cp)
}

/// The document records: current ones, or older ones widened.
pub open spec fn docs_in(v: SnapshotView, max_bytes: int) -> Result<Seq<DocLenSlot>, Error> {
    if snapshot::section_of(v, kind::BM25_DOCLEN_META) is None && snapshot::section_of(
        v,
        kind::BM25_DOCLEN_POOL,
    ) is None {
        match migrations::legacy_docs(v, max_bytes) {
            Err(e) => Err(e),
            Ok(Some(docs)) => Ok(docs),
            Ok(None) => Err(Error::Corrupt("snapshot is missing a required section")),
        }
    } else {
        table_in::<DocLenSlot>(v, kind::BM25_DOCLEN_META, kind::BM25_DOCLEN_POOL, max_bytes)
    }
}

fn load_docs(snap: &Snapshot<'_>, max_bytes: usize) -> (r: Result<Table<DocLenSlot>, Error>)
    requires
        snap.wf(),
    ensures
        match r {
            Ok(t) => t.wf() && t.ceiling() == max_bytes && docs_in(snap@, max_bytes as int)
                == Ok::<_, Error>(t@),
            Err(e) => docs_in(snap@, max_bytes as int) == Err::<Seq<DocLenSlot>, _>(e),
        },
{
    if snap.section(kind::BM25_DOCLEN_META).is_none() && snap.section(
        kind::BM25_DOCLEN_POOL,
    ).is_none() {
        match legacy_doc_len(snap, max_bytes) {
            Err(e) => Err(e),
            Ok(Some(docs)) => Ok(docs),
            Ok(None) => Err(Error::Corrupt("snapshot is missing a required section")),
        }
    } else {
        load_table(snap, kind::BM25_DOCLEN_META, kind::BM25_DOCLEN_POOL, max_bytes)
    }
}

/// The lexical index with its corpus totals reconciled.
pub open spec fn index_in(v: SnapshotView, max_bytes: int) -> Result<Bm25State, Error> {
    match store_in(true, v, kind::BM25_HANDLES_META, max_bytes) {
        Err(e) => Err(e),
        Ok(lists) => match docs_in(v, max_bytes) {
            Err(e) => Err(e),
            Ok(docs) => match required(v, kind::ENGINE_STATE) {
                Err(e) => Err(e),
                Ok(b) => match migrations::state_decoded(b) {
                    Err(e) => Err(e),
                    Ok(_) => {
                        let total_docs = codec::num_at(b, 8, 8) as u64;
                        let total_len = codec::num_at(b, 16, 8) as u64;
                        if total_docs != docs.len() {
                            Err(Error::Corrupt("bm25 document total disagrees with doc_len"))
                        } else {
                            Ok(Bm25State { postings: lists, docs, total_docs, total_len })
                        }
                    },
                },
            },
        },
    }
}

fn load_index(snap: &Snapshot<'_>, max_bytes: usize) -> (r: Result<Bm25Index, Error>)
    requires
        snap.wf(),
    ensures
        match r {
            Ok(x) => x.wf() && x.ceiling() == max_bytes && index_in(snap@, max_bytes as int)
                == Ok::<_, Error>(x@),
            Err(e) => index_in(snap@, max_bytes as int) == Err::<Bm25State, _>(e),
        },
{
    let lists: PostingStore<true> = load_store(snap, kind::BM25_HANDLES_META, max_bytes)?;
    let docs: Table<DocLenSlot> = load_docs(snap, max_bytes)?;
    let b: &[u8] = section(snap, kind::ENGINE_STATE)?;
    let _ = decode_engine_state(b)?;
    let total_docs: u64 = get_u64(b, 8);
    let total_len: u64 = get_u64(b, 16);
    if total_docs != docs.len() as u64 {
        return Err(Error::Corrupt("bm25 document total disagrees with doc_len"));
    }
    Ok(Bm25Index::from_parts(lists, docs, total_docs, total_len))
}

/// The graph from its six sections.
pub open spec fn graph_in(v: SnapshotView, m: int, m0: int, max_bytes: int) -> Result<
    hnsw::HnswState,
    Error,
> {
    match required_pair(v, kind::HNSW_META, kind::HNSW_LEVEL0) {
        Err(e) => Err(e),
        Ok((meta, level0)) => match required_pair(v, kind::HNSW_UPPER_META, kind::HNSW_UPPER_POOL) {
            Err(e) => Err(e),
            Ok((upper_meta, upper_pool)) => match required_pair(
                v,
                kind::HNSW_LISTS_META,
                kind::HNSW_LISTS_POOL,
            ) {
                Err(e) => Err(e),
                Ok((lists_meta, lists_pool)) => hnsw::graph_loaded(
                    m,
                    m0,
                    max_bytes,
                    GraphSections {
                        meta,
                        level0,
                        upper_meta,
                        upper_pool,
                        lists_meta,
                        lists_pool,
                    },
                ),
            },
        },
    }
}

fn load_graph(snap: &Snapshot<'_>, m: usize, m0: usize, max_bytes: usize) -> (r: Result<
    HnswGraph,
    Error,
>)
    requires
        snap.wf(),
        2 <= m <= m0,
    ensures
        match r {
            Ok(g) => g.wf() && g.ceiling() == max_bytes && graph_in(
                snap@,
                m as int,
                m0 as int,
                max_bytes as int,
            ) == Ok::<_, Error>(g@),
            Err(e) => graph_in(snap@, m as int, m0 as int, max_bytes as int) == Err::<
                hnsw::HnswState,
                _,
            >(e),
        },
{
    let (meta, level0) = section_two(snap, kind::HNSW_META, kind::HNSW_LEVEL0)?;
    let (upper_meta, upper_pool) = section_two(
        snap,
        kind::HNSW_UPPER_META,
        kind::HNSW_UPPER_POOL,
    )?;
    let (lists_meta, lists_pool) = section_two(
        snap,
        kind::HNSW_LISTS_META,
        kind::HNSW_LISTS_POOL,
    )?;
    HnswGraph::from_parts(
        m,
        m0,
        max_bytes,
        meta,
        level0,
        upper_meta,
        upper_pool,
        lists_meta,
        lists_pool,
    )
}

/// None of the current edge sections is there.
pub open spec fn no_edge_sections(v: SnapshotView) -> bool {
    forall|k: u16|
        kind::EDGES_OUT_META <= k <= kind::EDGE_HIST_IN_POOL ==> (#[trigger] snapshot::section_of(
            v,
            k,
        )) is None
}

/// Some current edge section is missing.
pub open spec fn missing_edge_section(v: SnapshotView) -> bool {
    exists|k: u16|
        kind::EDGES_OUT_META <= k <= kind::EDGE_HIST_IN_POOL && (#[trigger] snapshot::section_of(
            v,
            k,
        )) is None
}

/// How many of the current edge sections are there: none, all, or some.
fn edge_sections_found(snap: &Snapshot<'_>) -> (r: (bool, bool))
    requires
        snap.wf(),
    ensures
        r.0 == !no_edge_sections(snap@),
        r.1 == !missing_edge_section(snap@),
{
    let mut any: bool = false;
    let mut all: bool = true;
    let mut k: u16 = kind::EDGES_OUT_META;
    while k <= kind::EDGE_HIST_IN_POOL
        invariant
            kind::EDGES_OUT_META <= k <= kind::EDGE_HIST_IN_POOL + 1,
            snap.wf(),
            any == exists|j: u16|
                kind::EDGES_OUT_META <= j < k && (#[trigger] snapshot::section_of(snap@, j)) is Some,
            all == forall|j: u16|
                kind::EDGES_OUT_META <= j < k ==> (#[trigger] snapshot::section_of(
                    snap@,
                    j,
                )) is Some,
        decreases kind::EDGE_HIST_IN_POOL + 1 - k,
    {
        let found: bool = snap.section(k).is_some();
        assert(found == (snapshot::section_of(snap@, k) is Some));
        if found {
            any = true;
        } else {
            all = false;
        }
        k = k + 1;
    }
    (any, all)
}

/// Where everything loaded so far is put.
pub open spec fn put<T>(r: Result<T, Error>, f: spec_fn(T) -> State) -> Result<State, Error> {
    match r {
        Ok(x) => Ok(f(x)),
        Err(e) => Err(e),
    }
}

/// The four edge tables; an image without any of their sections leaves them
/// empty.
pub open spec fn edges_in(s: State, v: SnapshotView) -> Result<State, Error> {
    let max = state::cap(s);
    if no_edge_sections(v) {
        Ok(s)
    } else if missing_edge_section(v) {
        Err(Error::Corrupt("snapshot has incomplete edge sections"))
    } else {
        match table_in::<EdgeSlot>(v, kind::EDGES_OUT_META, kind::EDGES_OUT_POOL, max) {
            Err(e) => Err(e),
            Ok(edges_out) => match table_in::<EdgeSlot>(
                v,
                kind::EDGES_IN_META,
                kind::EDGES_IN_POOL,
                max,
            ) {
                Err(e) => Err(e),
                Ok(edges_in) => match table_in::<EdgeHistorySlot>(
                    v,
                    kind::EDGE_HIST_OUT_META,
                    kind::EDGE_HIST_OUT_POOL,
                    max,
                ) {
                    Err(e) => Err(e),
                    Ok(hist_out) => match table_in::<EdgeHistorySlot>(
                        v,
                        kind::EDGE_HIST_IN_META,
                        kind::EDGE_HIST_IN_POOL,
                        max,
                    ) {
                        Err(e) => Err(e),
                        Ok(hist_in) => Ok(State { edges_out, edges_in, hist_out, hist_in, ..s }),
                    },
                },
            },
        }
    }
}

/// The identity of the vector space; an image without one is untracked.
pub open spec fn space_in(v: SnapshotView) -> Result<Option<Seq<char>>, Error> {
    match snapshot::section_of(v, kind::VECTOR_SPACE) {
        None => Ok(None),
        Some(b) => if valid_utf8(b) {
            Ok(Some(decode_utf8(b)))
        } else {
            Err(Error::Corrupt("vector space identity is not UTF-8"))
        },
    }
}

fn load_space(snap: &Snapshot<'_>) -> (r: Result<Option<String>, Error>)
    requires
        snap.wf(),
    ensures
        match r {
            Ok(space) => space_in(snap@) == Ok::<_, Error>(memory::space_view(space)),
            Err(e) => space_in(snap@) == Err::<Option<Seq<char>>, _>(e),
        },
{
    match snap.section(kind::VECTOR_SPACE) {
        None => Ok(None),
        Some(b) => match str_from_utf8(b) {
            Some(name) => Ok(Some(name.to_string())),
            None => Err(Error::Corrupt("vector space identity is not UTF-8")),
        },
    }
}

/// Number of structures that a load goes through.
pub const LOAD_STEPS: usize = 16;

/// Step `k` of a load: one more structure read from its sections.
#[verifier::opaque]
pub open spec fn step(s: State, v: SnapshotView, k: int) -> Result<State, Error> {
    let max = state::cap(s);
    let blob = state::blob_cap(s);
    if k == 0 {
        put(table_in(v, kind::FACTS_META, kind::FACTS_POOL, max), |facts| State { facts, ..s })
    } else if k == 1 {
        put(table_in(v, kind::AUX_META, kind::AUX_POOL, max), |aux| State { aux, ..s })
    } else if k == 2 {
        put(
            table_in(v, kind::ENTITIES_META, kind::ENTITIES_POOL, max),
            |entities| State { entities, ..s },
        )
    } else if k == 3 {
        put(
            table_in(v, kind::BY_NAME_META, kind::BY_NAME_POOL, max),
            |by_name| State { by_name, ..s },
        )
    } else if k == 4 {
        edges_in(s, v)
    } else if k == 5 {
        put(
            table_in(v, kind::TEMPORAL_META, kind::TEMPORAL_POOL, max),
            |temporal| State { temporal, ..s },
        )
    } else if k == 6 {
        put(
            heap_in(v, kind::TEXTS_INDEX, kind::TEXTS_POOL, max, blob),
            |texts| State { texts, ..s },
        )
    } else if k == 7 {
        put(
            heap_in(v, kind::METAS_INDEX, kind::METAS_POOL, max, blob),
            |metas| State { metas, ..s },
        )
    } else if k == 8 {
        put(terms_in(v, max, blob), |terms| State { terms, ..s })
    } else if k == 9 {
        put(
            heap_in(v, kind::TAG_LISTS_META, kind::TAG_LISTS_POOL, max, max),
            |tag_lists| State { tag_lists, ..s },
        )
    } else if k == 10 {
        put(index_in(v, max), |bm25| State { bm25, ..s })
    } else if k == 11 {
        put(store_in(false, v, kind::TAGS_HANDLES_META, max), |tags_idx| State { tags_idx, ..s })
    } else if k == 12 {
        put(
            store_in(false, v, kind::ENTFACTS_HANDLES_META, max),
            |entity_facts| State { entity_facts, ..s },
        )
    } else if k == 13 {
        match required(v, kind::VEC_POOL) {
            Err(e) => Err(e),
            Ok(b) => put(
                vecpool::pool_loaded(s.cfg.dim as int, max, b),
                |vecs| State { vecs, ..s },
            ),
        }
    } else if k == 14 {
        put(
            graph_in(v, s.cfg.hnsw_m as int, s.cfg.hnsw_m0 as int, max),
            |graph| State { graph, ..s },
        )
    } else {
        put(space_in(v), |space| State { space, ..s })
    }
}

/// The first `n` steps of a load.
pub open spec fn steps(s: State, v: SnapshotView, n: nat) -> Result<State, Error>
    decreases n,
{
    if n == 0 {
        Ok(s)
    } else {
        match steps(s, v, (n - 1) as nat) {
            Err(e) => Err(e),
            Ok(t) => step(t, v, n - 1),
        }
    }
}

proof fn lemma_steps_err(s: State, v: SnapshotView, k: nat, n: nat)
    requires
        k <= n,
        steps(s, v, k) is Err,
    ensures
        steps(s, v, n) == steps(s, v, k),
    decreases n,
{
    if k < n {
        lemma_steps_err(s, v, k, (n - 1) as nat);
    }
}

/// The configuration of a load: structural fields of the stored one must match
/// the caller's, tuning fields follow the caller, and the identity of the
/// database is the stored one.
pub open spec fn reconciled(stored: Config, cfg: Config) -> Result<Config, Error> {
    if stored.dim != cfg.dim {
        Err(Error::ConfigMismatch("stored dim differs"))
    } else if stored.shards_facts != cfg.shards_facts || stored.shards_entities
        != cfg.shards_entities || stored.shards_edges != cfg.shards_edges
        || stored.shards_temporal != cfg.shards_temporal || stored.shards_postings
        != cfg.shards_postings {
        Err(Error::ConfigMismatch("stored shard counts differ"))
    } else if stored.max_bytes != cfg.max_bytes || stored.max_text != cfg.max_text
        || stored.max_blob != cfg.max_blob {
        Err(Error::ConfigMismatch("stored size limits differ"))
    } else if cfg.db_uuid != 0 && stored.db_uuid != cfg.db_uuid {
        Err(Error::ConfigMismatch("stored db_uuid differs"))
    } else {
        Ok(Config { db_uuid: stored.db_uuid, ..cfg })
    }
}

/// Checks the stored configuration against the caller's.
fn reconcile_config(snap: &Snapshot<'_>, cfg: Config) -> (r: Result<Config, Error>)
    requires
        snap.wf(),
        config::config_ok(cfg),
    ensures
        r == (match config::config_decoded(snap@.config) {
            Err(e) => Err(e),
            Ok(stored) => reconciled(stored, cfg),
        }),
        r matches Ok(c) ==> config::config_ok(c),
{
    let stored: Config = Config::decode(snap.config())?;
    if stored.dim != cfg.dim {
        return Err(Error::ConfigMismatch("stored dim differs"));
    }
    if stored.shards_facts != cfg.shards_facts || stored.shards_entities != cfg.shards_entities
        || stored.shards_edges != cfg.shards_edges || stored.shards_temporal != cfg.shards_temporal
        || stored.shards_postings != cfg.shards_postings {
        return Err(Error::ConfigMismatch("stored shard counts differ"));
    }
    if stored.max_bytes != cfg.max_bytes || stored.max_text != cfg.max_text || stored.max_blob
        != cfg.max_blob {
        return Err(Error::ConfigMismatch("stored size limits differ"));
    }
    if cfg.db_uuid != 0 && stored.db_uuid != cfg.db_uuid {
        return Err(Error::ConfigMismatch("stored db_uuid differs"));
    }
    Ok(Config { db_uuid: stored.db_uuid, ..cfg })
}

/// How many of the first `n` facts are forgotten.
pub open spec fn tombstone_count(facts: Seq<FactRecord>, n: nat) -> nat
    decreases n,
{
    if n == 0 {
        0
    } else {
        tombstone_count(facts, (n - 1) as nat) + (if facts[n - 1].tombstone() {
            1nat
        } else {
            0
        })
    }
}

/// The least edge id above all versions among the first `n`; it stops at the
/// largest number.
pub open spec fn edge_bound(rows: Seq<EdgeHistorySlot>, n: nat) -> u32
    decreases n,
{
    if n == 0 {
        0
    } else {
        let front = edge_bound(rows, (n - 1) as nat);
        let here = migrations::bumped_edge(rows[n - 1].edge.0);
        if here > front {
            here
        } else {
            front
        }
    }
}

/// The counters of a loaded engine put in place, and its edges upgraded.
pub open spec fn counted(s: State, v: SnapshotView, e: EngineState) -> Result<State, Error> {
    let t = State {
        next_fact: e.next_fact,
        next_entity: e.next_entity,
        tokenizer_version: e.bm25_tokenizer_version,
        next_edge: e.next_edge,
        ..s
    };
    let u = if t.hist_out.len() == 0 && t.edges_out.len() == 0 {
        migrations::edges_migrated(t, v)
    } else {
        Ok(t)
    };
    match u {
        Err(err) => Err(err),
        Ok(u) => {
            let bound = edge_bound(u.hist_out, u.hist_out.len());
            if u.next_edge < bound && !e.predates_edge_versions {
                Err(Error::Corrupt("engine edge id counter below record count"))
            } else {
                let w = State {
                    next_edge: if u.next_edge < bound { bound } else { u.next_edge },
                    ..u
                };
                if w.next_fact < w.facts.len() || w.next_entity < w.entities.len() {
                    Err(Error::Corrupt("engine id counters below record counts"))
                } else {
                    Ok(
                        State {
                            tombstones: tombstone_count(w.facts, w.facts.len()) as usize,
                            ..w
                        },
                    )
                }
            }
        },
    }
}

/// The end of a load: counters, upgrades and the check of every reference.
pub open spec fn finished(s: State, v: SnapshotView) -> Result<State, Error> {
    match required(v, kind::ENGINE_STATE) {
        Err(e) => Err(e),
        Ok(b) => match migrations::state_decoded(b) {
            Err(e) => Err(e),
            Ok(e) => match counted(s, v, e) {
                Err(err) => Err(err),
                Ok(t) => match integrity::reference_fault(t) {
                    Some(err) => Err(err),
                    None => Ok(t),
                },
            },
        },
    }
}

/// What a parsed snapshot holds under a valid configuration.
pub open spec fn opened(v: SnapshotView, cfg: Config) -> Result<State, Error> {
    match config::config_decoded(v.config) {
        Err(e) => Err(e),
        Ok(stored) => match reconciled(stored, cfg) {
            Err(e) => Err(e),
            Ok(c) => match steps(
                state::empty_state(c, TOKENIZER_INDEX_VERSION),
                v,
                LOAD_STEPS as nat,
            ) {
                Err(e) => Err(e),
                Ok(s) => finished(s, v),
            },
        },
    }
}

/// What a snapshot file holds, or why it is refused.
pub open spec fn loaded(bytes: Seq<u8>, cfg: Config) -> Result<State, Error> {
    match config::validated(cfg) {
        Err(e) => Err(e),
        Ok(()) => match snapshot::parsed(bytes) {
            Err(e) => Err(e),
            Ok(v) => opened(v, cfg),
        },
    }
}

impl Memory {
    /// Loads the four edge tables, if the image has them.
    fn load_edges(&mut self, snap: &Snapshot<'_>) -> (r: Result<(), Error>)
        requires
            old(self).sound(),
            snap.wf(),
        ensures
            final(self).sound(),
            match r {
                Ok(()) => edges_in(old(self)@, snap@) == Ok::<_, Error>(final(self)@),
                Err(e) => edges_in(old(self)@, snap@) == Err::<State, _>(e),
            },
    {
        let max: usize = self.cfg.max_bytes;
        let (any, all) = edge_sections_found(snap);
        if !any {
            return Ok(());
        }
        if !all {
            return Err(Error::Corrupt("snapshot has incomplete edge sections"));
        }
        let a: Table<EdgeSlot> = load_table(snap, kind::EDGES_OUT_META, kind::EDGES_OUT_POOL, max)?;
        let b: Table<EdgeSlot> = load_table(snap, kind::EDGES_IN_META, kind::EDGES_IN_POOL, max)?;
        let c: Table<EdgeHistorySlot> = load_table(
            snap,
            kind::EDGE_HIST_OUT_META,
            kind::EDGE_HIST_OUT_POOL,
            max,
        )?;
        let d: Table<EdgeHistorySlot> = load_table(
            snap,
            kind::EDGE_HIST_IN_META,
            kind::EDGE_HIST_IN_POOL,
            max,
        )?;
        self.edges_out = a;
        self.edges_in = b;
        self.edges_hist_out = c;
        self.edges_hist_in = d;
        Ok(())
    }

    /// Loads the record tables.
    fn load_records(&mut self, snap: &Snapshot<'_>, k: usize) -> (r: Result<(), Error>)
        requires
            old(self).sound(),
            snap.wf(),
            k <= 5,
        ensures
            final(self).sound(),
            match r {
                Ok(()) => step(old(self)@, snap@, k as int) == Ok::<_, Error>(final(self)@),
                Err(e) => step(old(self)@, snap@, k as int) == Err::<State, _>(e),
            },
    {
        proof {
            reveal(step);
        }
        let max: usize = self.cfg.max_bytes;
        match k {
            0 => {
                self.facts = load_table(snap, kind::FACTS_META, kind::FACTS_POOL, max)?;
            },
            1 => {
                self.fact_aux = load_table(snap, kind::AUX_META, kind::AUX_POOL, max)?;
            },
            2 => {
                self.entities = load_table(snap, kind::ENTITIES_META, kind::ENTITIES_POOL, max)?;
            },
            3 => {
                self.by_name = load_table(snap, kind::BY_NAME_META, kind::BY_NAME_POOL, max)?;
            },
            4 => {
                return self.load_edges(snap);
            },
            _ => {
                self.temporal = load_table(snap, kind::TEMPORAL_META, kind::TEMPORAL_POOL, max)?;
            },
        }
        Ok(())
    }

    /// Loads the heaps, the terms and the indexes.
    fn load_pools(&mut self, snap: &Snapshot<'_>, k: usize) -> (r: Result<(), Error>)
        requires
            old(self).sound(),
            snap.wf(),
            6 <= k < LOAD_STEPS,
        ensures
            final(self).sound(),
            match r {
                Ok(()) => step(old(self)@, snap@, k as int) == Ok::<_, Error>(final(self)@),
                Err(e) => step(old(self)@, snap@, k as int) == Err::<State, _>(e),
            },
    {
        proof {
            reveal(step);
        }
        let max: usize = self.cfg.max_bytes;
        let blob: usize = self.cfg.max_blob;
        match k {
            6 => {
                self.texts = load_heap(snap, kind::TEXTS_INDEX, kind::TEXTS_POOL, max, blob)?;
            },
            7 => {
                self.metas = load_heap(snap, kind::METAS_INDEX, kind::METAS_POOL, max, blob)?;
            },
            8 => {
                self.terms = load_terms(snap, max, blob)?;
            },
            9 => {
                self.tag_lists = load_heap(
                    snap,
                    kind::TAG_LISTS_META,
                    kind::TAG_LISTS_POOL,
                    max,
                    max,
                )?;
            },
            10 => {
                self.bm25 = load_index(snap, max)?;
            },
            11 => {
                self.tags_idx = load_store(snap, kind::TAGS_HANDLES_META, max)?;
            },
            12 => {
                self.entity_facts = load_store(snap, kind::ENTFACTS_HANDLES_META, max)?;
            },
            13 => {
                let b: &[u8] = section(snap, kind::VEC_POOL)?;
                self.vecs = VecPool::from_parts(self.cfg.dim, max, b)?;
            },
            14 => {
                self.hnsw = load_graph(snap, self.cfg.hnsw_m, self.cfg.hnsw_m0, max)?;
            },
            _ => {
                self.vector_space = load_space(snap)?;
            },
        }
        Ok(())
    }

    /// The least edge id above all versions.
    fn derived_next_edge(&self) -> (r: u32)
        requires
            self.sound(),
        ensures
            r == edge_bound(self@.hist_out, self@.hist_out.len()),
    {
        let mut bound: u32 = 0;
        let mut i: usize = 0;
        while i < self.edges_hist_out.len()
            invariant
                i <= self@.hist_out.len(),
                bound == edge_bound(self@.hist_out, i as nat),
            decreases self@.hist_out.len() - i,
        {
            let e: u32 = self.edges_hist_out.row(i).edge.0;
            let here: u32 = if e == u32::MAX {
                u32::MAX
            } else {
                e + 1
            };
            if here > bound {
                bound = here;
            }
            i = i + 1;
        }
        bound
    }

    /// The number of forgotten facts.
    fn count_tombstones(&self) -> (r: usize)
        requires
            self.sound(),
        ensures
            r == tombstone_count(self@.facts, self@.facts.len()),
    {
        let mut n: usize = 0;
        let mut i: usize = 0;
        while i < self.facts.len()
            invariant
                i <= self@.facts.len(),
                n == tombstone_count(self@.facts, i as nat),
                n <= i,
            decreases self@.facts.len() - i,
        {
            if self.facts.row(i).is_tombstone() {
                n = n + 1;
            }
            i = i + 1;
        }
        n
    }

    /// Puts the counters in place and upgrades older edges.
    fn load_counters(&mut self, snap: &Snapshot<'_>, e: EngineState) -> (r: Result<(), Error>)
        requires
            old(self).sound(),
            snap.wf(),
        ensures
            final(self).sound(),
            match r {
                Ok(()) => counted(old(self)@, snap@, e) == Ok::<_, Error>(final(self)@),
                Err(err) => counted(old(self)@, snap@, e) == Err::<State, _>(err),
            },
    {
        self.next_fact = e.next_fact;
        self.next_entity = e.next_entity;
        self.bm25_tokenizer_version = e.bm25_tokenizer_version;
        self.next_edge = e.next_edge;
        if self.edges_hist_out.is_empty() && self.edges_out.is_empty() {
            self.migrate_edges(snap)?;
        }
        let bound: u32 = self.derived_next_edge();
        if self.next_edge < bound {
            if !e.predates_edge_versions {
                return Err(Error::Corrupt("engine edge id counter below record count"));
            }
            self.next_edge = bound;
        }
        if (self.next_fact as usize) < self.facts.len() || (self.next_entity as usize)
            < self.entities.len() {
            return Err(Error::Corrupt("engine id counters below record counts"));
        }
        self.tombstones = self.count_tombstones();
        Ok(())
    }

    /// Finishes a load once every section is in place: reads the id counters,
    /// checks they cover the record counts, and range-checks references.
    fn finish_load(&mut self, snap: &Snapshot<'_>) -> (r: Result<(), Error>)
        requires
            old(self).sound(),
            snap.wf(),
        ensures
            match r {
                Ok(()) => final(self).wf() && finished(old(self)@, snap@) == Ok::<_, Error>(
                    final(self)@,
                ),
                Err(e) => finished(old(self)@, snap@) == Err::<State, _>(e),
            },
    {
        let b: &[u8] = section(snap, kind::ENGINE_STATE)?;
        let e: EngineState = decode_engine_state(b)?;
        self.load_counters(snap, e)?;
        self.validate_references()
    }

    /// Loads every structure in turn.
    fn load_sections(&mut self, snap: &Snapshot<'_>) -> (r: Result<(), Error>)
        requires
            old(self).sound(),
            snap.wf(),
        ensures
            final(self).sound(),
            match r {
                Ok(()) => steps(old(self)@, snap@, LOAD_STEPS as nat) == Ok::<_, Error>(
                    final(self)@,
                ),
                Err(e) => steps(old(self)@, snap@, LOAD_STEPS as nat) == Err::<State, _>(e),
            },
    {
        let ghost s = self@;
        let mut k: usize = 0;
        while k < LOAD_STEPS
            invariant
                k <= LOAD_STEPS,
                snap.wf(),
                self.sound(),
                s == old(self)@,
                steps(s, snap@, k as nat) == Ok::<_, Error>(self@),
            decreases LOAD_STEPS - k,
        {
            let r: Result<(), Error> = if k <= 5 {
                self.load_records(snap, k)
            } else {
                self.load_pools(snap, k)
            };
            if let Err(e) = r {
                proof {
                    lemma_steps_err(s, snap@, (k + 1) as nat, LOAD_STEPS as nat);
                }
                return Err(e);
            }
            k = k + 1;
        }
        Ok(())
    }

    /// Loads an engine from snapshot bytes.
    pub(crate) fn load_snapshot(bytes: &[u8], cfg: Config) -> (r: Result<Memory, Error>)
        ensures
            match r {
                Ok(m) => m.wf() && loaded(bytes@, cfg) == Ok::<_, Error>(m@),
                Err(e) => loaded(bytes@, cfg) == Err::<State, _>(e),
            },
    {
        cfg.validate()?;
        let snap: Snapshot<'_> = Snapshot::parse(bytes)?;
        let cfg: Config = reconcile_config(&snap, cfg)?;
        let mut mem: Memory = Memory::empty(cfg);
        mem.load_sections(&snap)?;
        mem.finish_load(&snap)?;
        Ok(mem)
    }
}

} // verus!
