//! plugmem engine core: the data model, the byte formats, the indexes and the
//! verbs of an embeddable temporal memory, with their contracts proved.
//!
//! The core owns no I/O, no clock and no threads: timestamps arrive as
//! parameters and bytes leave through the [`storage::Storage`] trait.
//! Floating-point values travel through the core as their IEEE 754 bit
//! patterns; the arithmetic on them belongs to the wrapper.

pub mod codec;
pub mod config;
pub mod error;
pub mod float;
pub mod hash;
pub mod heap;
pub mod id;
pub mod index;
pub mod interner;
pub mod journal;
pub mod memory;
pub mod metadata;
pub mod model;
pub mod parse;
pub mod snapshot;
pub mod storage;
pub mod table;
pub mod text;
pub mod tokenizer;

pub use crate::config::{Config, MAX_SHARDS};
pub use crate::error::{ArenaError, Error};
pub use crate::float::F32Bits;
pub use crate::id::{BlobId, EdgeId, EntityId, FactId, TermId, NONE_U32};
pub use crate::memory::integrity::FactFault;
pub use crate::memory::maintain::{MaintainReport, MaintenanceMode, MaintenanceOptions};
pub use crate::memory::recall::graph::RecalledEdge;
pub use crate::memory::recall::render::{RecallResult, RecalledFact};
pub use crate::memory::recall::RecallQuery;
pub use crate::memory::reembed::{ReembedError, ReembedReport};
pub use crate::memory::shards::ShardLayout;
pub use crate::memory::tags::{
    TagPage, TagQuery, TagSummary, DEFAULT_TAG_PAGE_LIMIT, MAX_TAG_PAGE_LIMIT,
};
pub use crate::memory::{
    FactView, LinkInput, Memory, OpenReport, RememberInput, RememberOutcome, Similar,
    SimilarReason,
};
pub use crate::model::{
    EdgeSlot, EntityByName, EntityRecord, FactAux, FactRecord, TemporalSlot, VALID_TO_OPEN,
};
pub use crate::storage::{MemScratch, MemStorage, Scratch, Storage};
