//! Section kinds that are read but no longer written.

use vstd::prelude::*;

verus! {

/// Current edges, `[a | rel | b]` keyed, 16-byte slots.
pub const EDGES_OUT_META: u16 = 9;

pub const EDGES_OUT_POOL: u16 = 10;

pub const EDGES_IN_META: u16 = 11;

pub const EDGES_IN_POOL: u16 = 12;

/// Per-document records without the term-set summary, 8-byte slots.
pub const BM25_DOCLEN_META: u16 = 26;

pub const BM25_DOCLEN_POOL: u16 = 27;

/// Edge history, `[a | rel | b | edge]` keyed.
pub const EDGE_HIST_OUT_META: u16 = 46;

pub const EDGE_HIST_OUT_POOL: u16 = 47;

pub const EDGE_HIST_IN_META: u16 = 48;

pub const EDGE_HIST_IN_POOL: u16 = 49;

} // verus!
