//! Snapshot composition: the engine's state as container sections, and the
//! validated load path.
//!
//! Saving writes every structure's canonical dump into the
//! [`snapshot`](crate::snapshot) container. Loading is the untrusted side:
//! after the container's structural validation (checksums are checked on
//! demand by a scrub, not at load), every structure validates its own image,
//! and every stored id is range-checked.

use crate::codec;
use crate::codec::{put_slice, put_u32, put_u64};
use crate::config;
use crate::config::Config;
use crate::error::Error;
use crate::hash;
use crate::hash::{digest, feed, hash64, hasher};
use crate::heap;
use crate::heap::BlobHeap;
use crate::index::bm25::Bm25Index;
use crate::index::hnsw;
use crate::index::hnsw::HnswGraph;
use crate::index::postings;
use crate::index::vecpool::VecPool;
use crate::index::IdListIndex;
use crate::interner;
use crate::interner::Interner;
use crate::memory::kind;
use crate::memory::legacy_kind;
use crate::memory::maintain;
use crate::memory::state::State;
use crate::memory::{storage_failed, Memory};
use crate::model::{
    EdgeHistorySlot, EdgeSlot, EntityByName, EntityRecord, FactAux, FactRecord, Slot, TemporalSlot,
};
use crate::parse;
use crate::snapshot;
use crate::snapshot::{
    build_prefix, Prefix, SectionMeta, SnapshotSink, SnapshotWriter, FILE_HASH_OFFSET, FLAG_VECTORS,
};
use crate::storage::Storage;
use crate::table;
use crate::table::Table;
use vstd::prelude::*;
use vstd::string::*;
use vstd::utf8::*;

verus! {

/// Version of the engine that a snapshot names as its writer.
pub const ENGINE_VERSION: &'static str = "0.1.0";

/// Number of sections that every snapshot has.
pub const SECTION_COUNT: usize = 49;

/// Number of sections in the snapshot of a state: one more where the vector
/// space is tracked.
pub open spec fn section_total(s: State) -> int {
    if s.space is Some {
        SECTION_COUNT + 1
    } else {
        SECTION_COUNT as int
    }
}

/// The id counters, corpus totals and versions, as one section.
pub open spec fn state_bytes(s: State) -> Seq<u8> {
    codec::le32(s.next_fact) + codec::le32(s.next_entity) + codec::le64(s.bm25.total_docs)
        + codec::le64(s.bm25.total_len) + codec::le32(s.tokenizer_version) + codec::le32(0)
        + codec::le32(s.next_edge) + codec::le32(0)
}

/// Section `i` among the record tables.
pub open spec fn record_section(s: State, i: int) -> (u16, Seq<u8>) {
    if i == 0 {
        (kind::FACTS_META, codec::le64(s.facts.len() as u64))
    } else if i == 1 {
        (kind::FACTS_POOL, table::rows_bytes(s.facts))
    } else if i == 2 {
        (kind::AUX_META, codec::le64(s.aux.len() as u64))
    } else if i == 3 {
        (kind::AUX_POOL, table::rows_bytes(s.aux))
    } else if i == 4 {
        (kind::ENTITIES_META, codec::le64(s.entities.len() as u64))
    } else if i == 5 {
        (kind::ENTITIES_POOL, table::rows_bytes(s.entities))
    } else if i == 6 {
        (kind::BY_NAME_META, codec::le64(s.by_name.len() as u64))
    } else if i == 7 {
        (kind::BY_NAME_POOL, table::rows_bytes(s.by_name))
    } else if i == 8 {
        (kind::EDGES_OUT_META, codec::le64(s.edges_out.len() as u64))
    } else if i == 9 {
        (kind::EDGES_OUT_POOL, table::rows_bytes(s.edges_out))
    } else if i == 10 {
        (kind::EDGES_IN_META, codec::le64(s.edges_in.len() as u64))
    } else if i == 11 {
        (kind::EDGES_IN_POOL, table::rows_bytes(s.edges_in))
    } else if i == 12 {
        (kind::EDGE_HIST_OUT_META, codec::le64(s.hist_out.len() as u64))
    } else if i == 13 {
        (kind::EDGE_HIST_OUT_POOL, table::rows_bytes(s.hist_out))
    } else if i == 14 {
        (kind::EDGE_HIST_IN_META, codec::le64(s.hist_in.len() as u64))
    } else if i == 15 {
        (kind::EDGE_HIST_IN_POOL, table::rows_bytes(s.hist_in))
    } else if i == 16 {
        (kind::TEMPORAL_META, codec::le64(s.temporal.len() as u64))
    } else {
        (kind::TEMPORAL_POOL, table::rows_bytes(s.temporal))
    }
}

/// Section `i` among texts, metadata, terms and tag lists.
pub open spec fn text_section(s: State, i: int) -> (u16, Seq<u8>) {
    if i == 18 {
        (kind::TEXTS_INDEX, heap::index_bytes(s.texts))
    } else if i == 19 {
        (kind::TEXTS_POOL, heap::pool_content(s.texts))
    } else if i == 20 {
        (kind::METAS_INDEX, heap::index_bytes(s.metas))
    } else if i == 21 {
        (kind::METAS_POOL, heap::pool_content(s.metas))
    } else if i == 22 {
        (kind::TERMS_INDEX, heap::index_bytes(interner::term_blobs(s.terms)))
    } else if i == 23 {
        (kind::TERMS_POOL, heap::pool_content(interner::term_blobs(s.terms)))
    } else if i == 24 {
        (kind::TERMS_TABLE, interner::order_bytes(interner::order_of(s.terms)))
    } else if i == 25 {
        (kind::TAG_LISTS_META, heap::index_bytes(s.tag_lists))
    } else {
        (kind::TAG_LISTS_POOL, heap::pool_content(s.tag_lists))
    }
}

/// Section `i` among the indexes.
pub open spec fn index_section(s: State, i: int) -> (u16, Seq<u8>) {
    if i == 27 {
        (kind::BM25_HANDLES_META, codec::le64(s.bm25.postings.len() as u64))
    } else if i == 28 {
        (kind::BM25_HANDLES_POOL, table::rows_bytes(postings::stored_headers(true, s.bm25.postings)))
    } else if i == 29 {
        (kind::BM25_CHUNKS_META, heap::index_bytes(postings::stored_lists(true, s.bm25.postings)))
    } else if i == 30 {
        (kind::BM25_CHUNKS_POOL, heap::pool_content(postings::stored_lists(true, s.bm25.postings)))
    } else if i == 31 {
        (kind::BM25_DOCLEN_META, codec::le64(s.bm25.docs.len() as u64))
    } else if i == 32 {
        (kind::BM25_DOCLEN_POOL, table::rows_bytes(s.bm25.docs))
    } else if i == 33 {
        (kind::TAGS_HANDLES_META, codec::le64(s.tags_idx.len() as u64))
    } else if i == 34 {
        (kind::TAGS_HANDLES_POOL, table::rows_bytes(postings::stored_headers(false, s.tags_idx)))
    } else if i == 35 {
        (kind::TAGS_CHUNKS_META, heap::index_bytes(postings::stored_lists(false, s.tags_idx)))
    } else if i == 36 {
        (kind::TAGS_CHUNKS_POOL, heap::pool_content(postings::stored_lists(false, s.tags_idx)))
    } else if i == 37 {
        (kind::ENTFACTS_HANDLES_META, codec::le64(s.entity_facts.len() as u64))
    } else if i == 38 {
        (kind::ENTFACTS_HANDLES_POOL, table::rows_bytes(postings::stored_headers(false, s.entity_facts)))
    } else if i == 39 {
        (kind::ENTFACTS_CHUNKS_META, heap::index_bytes(postings::stored_lists(false, s.entity_facts)))
    } else {
        (kind::ENTFACTS_CHUNKS_POOL, heap::pool_content(postings::stored_lists(false, s.entity_facts)))
    }
}

/// Section `i` among the counters, vectors and graph.
pub open spec fn tail_section(s: State, i: int) -> (u16, Seq<u8>) {
    if i == 41 {
        (kind::ENGINE_STATE, state_bytes(s))
    } else if i == 42 {
        (kind::VEC_POOL, s.vecs)
    } else if i == 43 {
        (kind::HNSW_META, hnsw::graph_sections(s.graph).meta)
    } else if i == 44 {
        (kind::HNSW_LEVEL0, hnsw::graph_sections(s.graph).level0)
    } else if i == 45 {
        (kind::HNSW_UPPER_META, hnsw::graph_sections(s.graph).upper_meta)
    } else if i == 46 {
        (kind::HNSW_UPPER_POOL, hnsw::graph_sections(s.graph).upper_pool)
    } else if i == 47 {
        (kind::HNSW_LISTS_META, hnsw::graph_sections(s.graph).lists_meta)
    } else if i == 48 {
        (kind::HNSW_LISTS_POOL, hnsw::graph_sections(s.graph).lists_pool)
    } else {
        (kind::VECTOR_SPACE, encode_utf8(s.space->0))
    }
}

/// Section `i` of a snapshot, in file order.
#[verifier::opaque]
pub open spec fn section_at(s: State, i: int) -> (u16, Seq<u8>) {
    if i < 18 {
        record_section(s, i)
    } else if i < 27 {
        text_section(s, i)
    } else if i < 41 {
        index_section(s, i)
    } else {
        tail_section(s, i)
    }
}

/// Where a section kind stands in the file.
#[verifier::opaque]
pub open spec fn place_of(k: u16) -> int {
    if k == kind::FACTS_META {
        0
    } else if k == kind::FACTS_POOL {
        1
    } else if k == kind::AUX_META {
        2
    } else if k == kind::AUX_POOL {
        3
    } else if k == kind::ENTITIES_META {
        4
    } else if k == kind::ENTITIES_POOL {
        5
    } else if k == kind::BY_NAME_META {
        6
    } else if k == kind::BY_NAME_POOL {
        7
    } else if k == kind::EDGES_OUT_META {
        8
    } else if k == kind::EDGES_OUT_POOL {
        9
    } else if k == kind::EDGES_IN_META {
        10
    } else if k == kind::EDGES_IN_POOL {
        11
    } else if k == kind::EDGE_HIST_OUT_META {
        12
    } else if k == kind::EDGE_HIST_OUT_POOL {
        13
    } else if k == kind::EDGE_HIST_IN_META {
        14
    } else if k == kind::EDGE_HIST_IN_POOL {
        15
    } else if k == kind::TEMPORAL_META {
        16
    } else if k == kind::TEMPORAL_POOL {
        17
    } else if k == kind::TEXTS_INDEX {
        18
    } else if k == kind::TEXTS_POOL {
        19
    } else if k == kind::METAS_INDEX {
        20
    } else if k == kind::METAS_POOL {
        21
    } else if k == kind::TERMS_INDEX {
        22
    } else if k == kind::TERMS_POOL {
        23
    } else if k == kind::TERMS_TABLE {
        24
    } else if k == kind::TAG_LISTS_META {
        25
    } else if k == kind::TAG_LISTS_POOL {
        26
    } else if k == kind::BM25_HANDLES_META {
        27
    } else if k == kind::BM25_HANDLES_POOL {
        28
    } else if k == kind::BM25_CHUNKS_META {
        29
    } else if k == kind::BM25_CHUNKS_POOL {
        30
    } else if k == kind::BM25_DOCLEN_META {
        31
    } else if k == kind::BM25_DOCLEN_POOL {
        32
    } else if k == kind::TAGS_HANDLES_META {
        33
    } else if k == kind::TAGS_HANDLES_POOL {
        34
    } else if k == kind::TAGS_CHUNKS_META {
        35
    } else if k == kind::TAGS_CHUNKS_POOL {
        36
    } else if k == kind::ENTFACTS_HANDLES_META {
        37
    } else if k == kind::ENTFACTS_HANDLES_POOL {
        38
    } else if k == kind::ENTFACTS_CHUNKS_META {
        39
    } else if k == kind::ENTFACTS_CHUNKS_POOL {
        40
    } else if k == kind::ENGINE_STATE {
        41
    } else if k == kind::VEC_POOL {
        42
    } else if k == kind::HNSW_META {
        43
    } else if k == kind::HNSW_LEVEL0 {
        44
    } else if k == kind::HNSW_UPPER_META {
        45
    } else if k == kind::HNSW_UPPER_POOL {
        46
    } else if k == kind::HNSW_LISTS_META {
        47
    } else if k == kind::HNSW_LISTS_POOL {
        48
    } else if k == kind::VECTOR_SPACE {
        49
    } else {
        -1
    }
}

/// All sections of a snapshot, in file order.
pub open spec fn section_list(s: State) -> Seq<(u16, Seq<u8>)> {
    Seq::new(section_total(s) as nat, |i: int| section_at(s, i))
}

/// The header flags of a snapshot.
pub open spec fn image_flags(s: State) -> u16 {
    if s.cfg.dim > 0 {
        FLAG_VECTORS
    } else {
        0
    }
}

/// The snapshot file of a state.
pub open spec fn snapshot_image(s: State, created_at: u64) -> Seq<u8> {
    snapshot::sealed(
        config::config_bytes(s.cfg),
        image_flags(s),
        created_at,
        encode_utf8(ENGINE_VERSION@),
        section_list(s),
    )
}

/// The snapshot file of a state is small enough for 64-bit offsets.
pub open spec fn image_fits(s: State) -> bool {
    &&& forall|i: int|
        0 <= i < section_total(s) ==> (#[trigger] section_list(s)[i]).1.len() <= u64::MAX
    &&& snapshot::layout_end(
        config::config_bytes(s.cfg).len() as int,
        snapshot::metas_of(section_list(s)),
    ) <= u64::MAX
}

/// The structures that a snapshot is written from. One writer serves the
/// engine itself and a rebuild that is not swapped in.
pub struct Sections<'r> {
    pub cfg: Config,
    pub facts: &'r Table<FactRecord>,
    pub fact_aux: &'r Table<FactAux>,
    pub entities: &'r Table<EntityRecord>,
    pub by_name: &'r Table<EntityByName>,
    pub edges_out: &'r Table<EdgeSlot>,
    pub edges_in: &'r Table<EdgeSlot>,
    pub edges_hist_out: &'r Table<EdgeHistorySlot>,
    pub edges_hist_in: &'r Table<EdgeHistorySlot>,
    pub temporal: &'r Table<TemporalSlot>,
    pub texts: &'r BlobHeap,
    pub metas: &'r BlobHeap,
    pub terms: &'r Interner,
    pub tag_lists: &'r BlobHeap,
    pub bm25: &'r Bm25Index,
    pub tags_idx: &'r IdListIndex,
    pub entity_facts: &'r IdListIndex,
    pub vecs: &'r VecPool,
    pub hnsw: &'r HnswGraph,
    pub next_fact: u32,
    pub next_entity: u32,
    pub next_edge: u32,
    pub tombstones: usize,
    pub bm25_tokenizer_version: u32,
    pub space: Option<&'r str>,
}

impl<'r> View for Sections<'r> {
    type V = State;

    open spec fn view(&self) -> State {
        State {
            cfg: self.cfg,
            facts: self.facts@,
            aux: self.fact_aux@,
            entities: self.entities@,
            by_name: self.by_name@,
            edges_out: self.edges_out@,
            edges_in: self.edges_in@,
            hist_out: self.edges_hist_out@,
            hist_in: self.edges_hist_in@,
            temporal: self.temporal@,
            texts: self.texts@,
            metas: self.metas@,
            terms: self.terms@,
            tag_lists: self.tag_lists@,
            bm25: self.bm25@,
            tags_idx: self.tags_idx@,
            entity_facts: self.entity_facts@,
            vecs: self.vecs@,
            graph: self.hnsw@,
            next_fact: self.next_fact,
            next_entity: self.next_entity,
            next_edge: self.next_edge,
            tombstones: self.tombstones,
            tokenizer_version: self.bm25_tokenizer_version,
            space: match self.space {
                Some(name) => Some(name@),
                None => None,
            },
        }
    }
}

impl<'r> Sections<'r> {
    /// Every structure is valid.
    pub open spec fn sound(&self) -> bool {
        &&& self.facts.wf()
        &&& self.fact_aux.wf()
        &&& self.entities.wf()
        &&& self.edges_out.wf()
        &&& self.edges_in.wf()
        &&& self.edges_hist_out.wf()
        &&& self.edges_hist_in.wf()
        &&& self.temporal.wf()
        &&& self.texts.wf()
        &&& self.metas.wf()
        &&& self.terms.wf()
        &&& self.tag_lists.wf()
        &&& self.bm25.wf()
        &&& self.tags_idx.wf()
        &&& self.entity_facts.wf()
        &&& self.vecs.wf()
        &&& self.vecs.dimension() == self.cfg.dim
        &&& self.hnsw.wf()
    }

    /// Bytes of the four edge tables.
    fn edge_bytes(&self) -> (r: u128)
        requires
            self.sound(),
        ensures
            r == maintain::edge_bytes(self@),
            r <= 0x10_0000_0000_0000_0000,
    {
        self.edges_out.pool_bytes() as u128 + self.edges_in.pool_bytes() as u128
            + self.edges_hist_out.pool_bytes() as u128 + self.edges_hist_in.pool_bytes() as u128
    }

    /// Bytes across the pools that a maintenance pass replaces.
    pub(crate) fn satellite_bytes(&self, with_edges: bool) -> (r: u128)
        requires
            self.sound(),
        ensures
            r == maintain::satellite(self@, with_edges),
    {
        let edges: u128 = if with_edges {
            self.edge_bytes()
        } else {
            0
        };
        edges + self.facts.pool_bytes() as u128 + self.fact_aux.pool_bytes() as u128
            + self.entities.pool_bytes() as u128 + self.hnsw.pool_bytes()
            + self.texts.pool_bytes() as u128 + self.metas.pool_bytes() as u128
            + self.tag_lists.pool_bytes() as u128 + self.bm25.pool_bytes()
            + self.tags_idx.pool_bytes() + self.entity_facts.pool_bytes()
            + self.temporal.pool_bytes() as u128 + self.vecs.pool_bytes() as u128
    }

    /// The engine-state section.
    fn dump_state(&self) -> (r: Vec<u8>)
        ensures
            r@ == state_bytes(self@),
    {
        let mut out: Vec<u8> = Vec::new();
        put_u32(&mut out, self.next_fact);
        put_u32(&mut out, self.next_entity);
        put_u64(&mut out, self.bm25.docs());
        put_u64(&mut out, self.bm25.total_len());
        put_u32(&mut out, self.bm25_tokenizer_version);
        put_u32(&mut out, 0);
        put_u32(&mut out, self.next_edge);
        put_u32(&mut out, 0);
        assert(out@ =~= state_bytes(self@));
        out
    }

    /// The vector pool, one flat section.
    fn dump_vectors(&self) -> (r: Vec<u8>)
        ensures
            r@ == self@.vecs,
    {
        let mut out: Vec<u8> = Vec::new();
        put_slice(&mut out, self.vecs.bytes());
        assert(out@ =~= self@.vecs);
        out
    }

    fn record_section(&self, i: usize) -> (r: (u16, Vec<u8>))
        requires
            self.sound(),
            0 <= i < 18,
        ensures
            (r.0, r.1@) == record_section(self@, i as int),
    {
        match i {
            0 => (kind::FACTS_META, self.facts.dump_meta()),
            1 => (kind::FACTS_POOL, self.facts.dump_pool()),
            2 => (kind::AUX_META, self.fact_aux.dump_meta()),
            3 => (kind::AUX_POOL, self.fact_aux.dump_pool()),
            4 => (kind::ENTITIES_META, self.entities.dump_meta()),
            5 => (kind::ENTITIES_POOL, self.entities.dump_pool()),
            6 => (kind::BY_NAME_META, self.by_name.dump_meta()),
            7 => (kind::BY_NAME_POOL, self.by_name.dump_pool()),
            8 => (kind::EDGES_OUT_META, self.edges_out.dump_meta()),
            9 => (kind::EDGES_OUT_POOL, self.edges_out.dump_pool()),
            10 => (kind::EDGES_IN_META, self.edges_in.dump_meta()),
            11 => (kind::EDGES_IN_POOL, self.edges_in.dump_pool()),
            12 => (kind::EDGE_HIST_OUT_META, self.edges_hist_out.dump_meta()),
            13 => (kind::EDGE_HIST_OUT_POOL, self.edges_hist_out.dump_pool()),
            14 => (kind::EDGE_HIST_IN_META, self.edges_hist_in.dump_meta()),
            15 => (kind::EDGE_HIST_IN_POOL, self.edges_hist_in.dump_pool()),
            16 => (kind::TEMPORAL_META, self.temporal.dump_meta()),
            _ => (kind::TEMPORAL_POOL, self.temporal.dump_pool()),
        }
    }

    fn text_section(&self, i: usize) -> (r: (u16, Vec<u8>))
        requires
            self.sound(),
            18 <= i < 27,
        ensures
            (r.0, r.1@) == text_section(self@, i as int),
    {
        match i {
            18 => (kind::TEXTS_INDEX, self.texts.dump_index()),
            19 => (kind::TEXTS_POOL, self.texts.dump_pool()),
            20 => (kind::METAS_INDEX, self.metas.dump_index()),
            21 => (kind::METAS_POOL, self.metas.dump_pool()),
            22 => (kind::TERMS_INDEX, self.terms.dump_index()),
            23 => (kind::TERMS_POOL, self.terms.dump_pool()),
            24 => (kind::TERMS_TABLE, self.terms.dump_table()),
            25 => (kind::TAG_LISTS_META, self.tag_lists.dump_index()),
            _ => (kind::TAG_LISTS_POOL, self.tag_lists.dump_pool()),
        }
    }

    fn index_section(&self, i: usize) -> (r: (u16, Vec<u8>))
        requires
            self.sound(),
            27 <= i < 41,
        ensures
            (r.0, r.1@) == index_section(self@, i as int),
    {
        match i {
            27 => (kind::BM25_HANDLES_META, self.bm25.postings().handles_meta()),
            28 => (kind::BM25_HANDLES_POOL, self.bm25.postings().handles_pool()),
            29 => (kind::BM25_CHUNKS_META, self.bm25.postings().chunks_meta()),
            30 => (kind::BM25_CHUNKS_POOL, self.bm25.postings().chunks_pool()),
            31 => (kind::BM25_DOCLEN_META, self.bm25.doc_len_arena().dump_meta()),
            32 => (kind::BM25_DOCLEN_POOL, self.bm25.doc_len_arena().dump_pool()),
            33 => (kind::TAGS_HANDLES_META, self.tags_idx.handles_meta()),
            34 => (kind::TAGS_HANDLES_POOL, self.tags_idx.handles_pool()),
            35 => (kind::TAGS_CHUNKS_META, self.tags_idx.chunks_meta()),
            36 => (kind::TAGS_CHUNKS_POOL, self.tags_idx.chunks_pool()),
            37 => (kind::ENTFACTS_HANDLES_META, self.entity_facts.handles_meta()),
            38 => (kind::ENTFACTS_HANDLES_POOL, self.entity_facts.handles_pool()),
            39 => (kind::ENTFACTS_CHUNKS_META, self.entity_facts.chunks_meta()),
            _ => (kind::ENTFACTS_CHUNKS_POOL, self.entity_facts.chunks_pool()),
        }
    }

    /// The number of sections.
    fn total(&self) -> (r: usize)
        ensures
            r == section_total(self@),
    {
        match self.space {
            Some(_) => SECTION_COUNT + 1,
            None => SECTION_COUNT,
        }
    }

    /// The identity of the vector space.
    fn dump_space(&self) -> (r: Vec<u8>)
        requires
            self.space is Some,
        ensures
            r@ == encode_utf8(self@.space->0),
    {
        let mut out: Vec<u8> = Vec::new();
        if let Some(name) = self.space {
            put_slice(&mut out, name.as_bytes());
            assert(out@ =~= encode_utf8(name@));
        }
        out
    }

    fn tail_section(&self, i: usize) -> (r: (u16, Vec<u8>))
        requires
            self.sound(),
            41 <= i < section_total(self@),
        ensures
            (r.0, r.1@) == tail_section(self@, i as int),
    {
        match i {
            41 => (kind::ENGINE_STATE, self.dump_state()),
            42 => (kind::VEC_POOL, self.dump_vectors()),
            43 => (kind::HNSW_META, self.hnsw.dump_meta()),
            44 => (kind::HNSW_LEVEL0, self.hnsw.dump_level0()),
            45 => (kind::HNSW_UPPER_META, self.hnsw.dump_upper().0),
            46 => (kind::HNSW_UPPER_POOL, self.hnsw.dump_upper().1),
            47 => (kind::HNSW_LISTS_META, self.hnsw.dump_upper().2),
            48 => (kind::HNSW_LISTS_POOL, self.hnsw.dump_upper().3),
            _ => (kind::VECTOR_SPACE, self.dump_space()),
        }
    }

    /// Section `i`, in file order. Deterministic, so the writer may ask twice.
    pub(crate) fn section(&self, i: usize) -> (r: (u16, Vec<u8>))
        requires
            self.sound(),
            i < section_total(self@),
        ensures
            (r.0, r.1@) == section_list(self@)[i as int],
    {
        proof {
            reveal(section_at);
        }
        if i < 18 {
            self.record_section(i)
        } else if i < 27 {
            self.text_section(i)
        } else if i < 41 {
            self.index_section(i)
        } else {
            self.tail_section(i)
        }
    }

    /// Size and checksum of every section: the writer's first pass.
    fn measure(&self) -> (r: Vec<SectionMeta>)
        requires
            self.sound(),
        ensures
            r@ == snapshot::metas_of(section_list(self@)),
    {
        let ghost secs = section_list(self@);
        let mut metas: Vec<SectionMeta> = Vec::new();
        let mut i: usize = 0;
        let total: usize = self.total();
        while i < total
            invariant
                i <= total,
                total == section_total(self@),
                self.sound(),
                secs == section_list(self@),
                secs.len() == total,
                metas@ == snapshot::metas_of(secs).take(i as int),
            decreases total - i,
        {
            let (kind, body) = self.section(i);
            metas.push(
                SectionMeta { kind, len: body.len() as u64, hash: hash64(body.as_slice()) },
            );
            i = i + 1;
            assert(metas@ =~= snapshot::metas_of(secs).take(i as int));
        }
        assert(metas@ =~= snapshot::metas_of(secs));
        metas
    }

    /// Streams the snapshot into `sink`, never holding the whole image: a
    /// first pass measures every section, the header and table are written,
    /// then a second pass streams the bodies while a running hash accumulates
    /// the file checksum, patched into the header at the end.
    pub(crate) fn write_to<K: SnapshotSink>(&self, created_at: u64, sink: &mut K) -> (r: Result<
        (),
        Error,
    >)
        requires
            self.sound(),
            image_fits(self@),
            old(sink).written().len() == 0,
        ensures
            match r {
                Ok(()) => final(sink).written() == snapshot_image(self@, created_at),
                Err(e) => old(sink).reports().contains(e),
            },
    {
        let ghost s = self@;
        let ghost secs = section_list(s);
        let ghost pad = |x: (u16, Seq<u8>)| snapshot::padded(x.1);
        let ghost ver = encode_utf8(ENGINE_VERSION@);
        let mut cfg_bytes: Vec<u8> = Vec::new();
        self.cfg.encode(&mut cfg_bytes);
        assert(cfg_bytes@ =~= config::config_bytes(s.cfg));
        let flags: u16 = if self.cfg.dim > 0 {
            FLAG_VECTORS
        } else {
            0
        };
        let metas: Vec<SectionMeta> = self.measure();
        let front: Prefix = build_prefix(
            cfg_bytes.as_slice(),
            flags,
            created_at,
            ENGINE_VERSION,
            metas.as_slice(),
        );
        sink.write(front.bytes.as_slice())?;
        let mut file_hash = hasher();
        feed(&mut file_hash, front.bytes.as_slice());
        let ghost start = front.bytes@;
        let mut i: usize = 0;
        proof {
            assert(secs.take(0) =~= Seq::empty());
            assert(start + Seq::<u8>::empty() =~= start);
            assert(Seq::<u8>::empty() + start =~= start);
            assert(sink.written() =~= start);
        }
        let total: usize = self.total();
        while i < total
            invariant
                i <= total,
                total == section_total(self@),
                self.sound(),
                s == self@,
                secs == section_list(s),
                secs.len() == total,
                pad == (|x: (u16, Seq<u8>)| snapshot::padded(x.1)),
                sink.written() == start + parse::flat(pad, secs.take(i as int)),
                hash::fed(file_hash) == sink.written(),
                sink.reports() == old(sink).reports(),
            decreases total - i,
        {
            let (_, body) = self.section(i);
            let mut block: Vec<u8> = Vec::new();
            snapshot::put_padded(&mut block, body.as_slice());
            assert(block@ =~= snapshot::padded(secs[i as int].1));
            sink.write(block.as_slice())?;
            feed(&mut file_hash, block.as_slice());
            proof {
                assert(secs.take(i + 1) =~= secs.take(i as int).push(secs[i as int]));
                parse::lemma_flat_push(pad, secs.take(i as int), secs[i as int]);
                assert(sink.written() =~= start + parse::flat(pad, secs.take(i + 1)));
            }
            i = i + 1;
        }
        assert(secs.take(i as int) =~= secs);
        assert(sink.written() == snapshot::image(
            config::config_bytes(s.cfg),
            flags,
            created_at,
            ver,
            secs,
            0,
        ));
        let h: u64 = digest(&file_hash);
        let mut field: Vec<u8> = Vec::new();
        put_u64(&mut field, h);
        proof {
            assert(field@ =~= codec::le64(h));
            codec::lemma_le_bytes_len(h as nat, 8);
            snapshot::lemma_patch_hash(
                config::config_bytes(s.cfg),
                flags,
                created_at,
                ver,
                secs,
                h,
            );
        }
        sink.patch(FILE_HASH_OFFSET, field.as_slice())
    }

    /// The whole snapshot in one buffer.
    pub(crate) fn image(&self, created_at: u64) -> (r: Vec<u8>)
        requires
            self.sound(),
            image_fits(self@),
        ensures
            r@ == snapshot_image(self@, created_at),
    {
        let ghost secs = section_list(self@);
        let mut cfg_bytes: Vec<u8> = Vec::new();
        self.cfg.encode(&mut cfg_bytes);
        assert(cfg_bytes@ =~= config::config_bytes(self@.cfg));
        let flags: u16 = if self.cfg.dim > 0 {
            FLAG_VECTORS
        } else {
            0
        };
        let mut writer: SnapshotWriter = SnapshotWriter::new();
        let mut i: usize = 0;
        assert(secs.take(0) =~= Seq::empty());
        let total: usize = self.total();
        while i < total
            invariant
                i <= total,
                total == section_total(self@),
                self.sound(),
                secs == section_list(self@),
                secs.len() == total,
                writer@ == secs.take(i as int),
            decreases total - i,
        {
            let (kind, body) = self.section(i);
            proof {
                assert forall|k: int| 0 <= k < writer@.len() implies (#[trigger] writer@[k]).0
                    != kind by {
                    lemma_place(self@, k);
                    lemma_place(self@, i as int);
                    assert(writer@[k] == secs[k]);
                }
            }
            let _ = writer.section(kind, body);
            i = i + 1;
            assert(writer@ =~= secs.take(i as int));
        }
        assert(writer@ =~= secs);
        writer.finish(cfg_bytes.as_slice(), flags, created_at, ENGINE_VERSION)
    }
}

/// Every section stands where its kind says.
pub(crate) proof fn lemma_place(s: State, i: int)
    requires
        0 <= i < section_total(s),
    ensures
        place_of(section_list(s)[i].0) == i,
{
    reveal(section_at);
    reveal(place_of);
}

/// No kind occurs twice, none is a kind of an older layout's edges, and the
/// vector space is there only where it is tracked.
pub(crate) proof fn lemma_kinds(s: State)
    ensures
        snapshot::kinds_unique(section_list(s)),
        forall|i: int|
            0 <= i < section_total(s) ==> (#[trigger] section_list(s)[i]).0
                != legacy_kind::EDGES_OUT_META && section_list(s)[i].0
                != legacy_kind::EDGES_OUT_POOL && (s.space is None ==> section_list(s)[i].0
                != kind::VECTOR_SPACE),
{
    let secs = section_list(s);
    assert(place_of(legacy_kind::EDGES_OUT_META) == -1 && place_of(legacy_kind::EDGES_OUT_POOL)
        == -1 && place_of(kind::VECTOR_SPACE) == SECTION_COUNT) by {
        reveal(place_of);
    }
    assert forall|i: int| 0 <= i < section_total(s) implies place_of((#[trigger] secs[i]).0) == i by {
        lemma_place(s, i);
    }
}

impl Memory {
    /// The engine's own structures, as the source of a snapshot.
    pub(crate) fn sections(&self) -> (r: Sections<'_>)
        requires
            self.sound(),
        ensures
            r.sound(),
            r@ == self@,
    {
        Sections {
            cfg: self.cfg,
            facts: &self.facts,
            fact_aux: &self.fact_aux,
            entities: &self.entities,
            by_name: &self.by_name,
            edges_out: &self.edges_out,
            edges_in: &self.edges_in,
            edges_hist_out: &self.edges_hist_out,
            edges_hist_in: &self.edges_hist_in,
            temporal: &self.temporal,
            texts: &self.texts,
            metas: &self.metas,
            terms: &self.terms,
            tag_lists: &self.tag_lists,
            bm25: &self.bm25,
            tags_idx: &self.tags_idx,
            entity_facts: &self.entity_facts,
            vecs: &self.vecs,
            hnsw: &self.hnsw,
            next_fact: self.next_fact,
            next_entity: self.next_entity,
            next_edge: self.next_edge,
            tombstones: self.tombstones,
            bm25_tokenizer_version: self.bm25_tokenizer_version,
            space: self.vector_space(),
        }
    }

    /// Streams the whole engine into snapshot-container bytes through `sink`,
    /// which must be empty. Deterministic and canonical: the same bytes as
    /// [`Memory::snapshot_bytes`]. An error is whatever the sink reports.
    pub fn write_snapshot_to<K: SnapshotSink>(&self, created_at: u64, sink: &mut K) -> (r: Result<
        (),
        Error,
    >)
        requires
            self.wf(),
            image_fits(self@),
            old(sink).written().len() == 0,
        ensures
            match r {
                Ok(()) => final(sink).written() == snapshot_image(self@, created_at),
                Err(e) => old(sink).reports().contains(e),
            },
    {
        self.sections().write_to(created_at, sink)
    }

    /// Serializes the whole engine into snapshot-container bytes.
    pub fn snapshot_bytes(&self, created_at: u64) -> (r: Vec<u8>)
        requires
            self.wf(),
            image_fits(self@),
        ensures
            r@ == snapshot_image(self@, created_at),
    {
        self.sections().image(created_at)
    }

    /// Writes a full snapshot and clears the journal.
    pub fn snapshot<S: Storage>(&mut self, store: &mut S, now: u64) -> (r: Result<(), Error>)
        requires
            old(self).wf(),
            image_fits(old(self)@),
        ensures
            *final(self) == *old(self),
            match r {
                Ok(()) => final(store).snapshot() == Some(snapshot_image(old(self)@, now))
                    && final(store).journal() == Seq::<u8>::empty(),
                Err(e) => e is Storage,
            },
    {
        let bytes: Vec<u8> = self.snapshot_bytes(now);
        if let Err(e) = store.write_snapshot(bytes.as_slice()) {
            return Err(storage_failed(e));
        }
        if let Err(e) = store.clear_journal() {
            return Err(storage_failed(e));
        }
        Ok(())
    }
}

} // verus!
