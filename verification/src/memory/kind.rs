//! Section kinds of the engine snapshot.
//!
//! Kinds 9 to 12, 26, 27 and 46 to 49 belong to older images; see
//! [`legacy_kind`](crate::memory::legacy_kind).

use vstd::prelude::*;

verus! {

pub const FACTS_META: u16 = 1;

pub const FACTS_POOL: u16 = 2;

pub const AUX_META: u16 = 3;

pub const AUX_POOL: u16 = 4;

pub const ENTITIES_META: u16 = 5;

pub const ENTITIES_POOL: u16 = 6;

pub const BY_NAME_META: u16 = 7;

pub const BY_NAME_POOL: u16 = 8;

pub const TEMPORAL_META: u16 = 13;

pub const TEMPORAL_POOL: u16 = 14;

pub const TEXTS_INDEX: u16 = 15;

pub const TEXTS_POOL: u16 = 16;

pub const TERMS_INDEX: u16 = 17;

pub const TERMS_POOL: u16 = 18;

pub const TERMS_TABLE: u16 = 19;

pub const TAG_LISTS_META: u16 = 20;

pub const TAG_LISTS_POOL: u16 = 21;

pub const BM25_HANDLES_META: u16 = 22;

pub const BM25_HANDLES_POOL: u16 = 23;

pub const BM25_CHUNKS_META: u16 = 24;

pub const BM25_CHUNKS_POOL: u16 = 25;

pub const TAGS_HANDLES_META: u16 = 28;

pub const TAGS_HANDLES_POOL: u16 = 29;

pub const TAGS_CHUNKS_META: u16 = 30;

pub const TAGS_CHUNKS_POOL: u16 = 31;

pub const ENTFACTS_HANDLES_META: u16 = 32;

pub const ENTFACTS_HANDLES_POOL: u16 = 33;

pub const ENTFACTS_CHUNKS_META: u16 = 34;

pub const ENTFACTS_CHUNKS_POOL: u16 = 35;

pub const ENGINE_STATE: u16 = 36;

pub const VEC_POOL: u16 = 37;

pub const HNSW_META: u16 = 38;

pub const HNSW_LEVEL0: u16 = 39;

pub const HNSW_UPPER_META: u16 = 40;

pub const HNSW_UPPER_POOL: u16 = 41;

pub const HNSW_LISTS_META: u16 = 42;

pub const HNSW_LISTS_POOL: u16 = 43;

pub const METAS_INDEX: u16 = 44;

pub const METAS_POOL: u16 = 45;

pub const EDGES_OUT_META: u16 = 50;

pub const EDGES_OUT_POOL: u16 = 51;

pub const EDGES_IN_META: u16 = 52;

pub const EDGES_IN_POOL: u16 = 53;

pub const EDGE_HIST_OUT_META: u16 = 54;

pub const EDGE_HIST_OUT_POOL: u16 = 55;

pub const EDGE_HIST_IN_META: u16 = 56;

pub const EDGE_HIST_IN_POOL: u16 = 57;

pub const BM25_DOCLEN_META: u16 = 58;

pub const BM25_DOCLEN_POOL: u16 = 59;

/// Which model the vectors come from; absent where that is not tracked.
pub const VECTOR_SPACE: u16 = 60;

} // verus!
