//! Engine configuration.
//!
//! Every knob that changes how bytes are interpreted lives here, because the
//! config is persisted inside the snapshot: opening an existing database with
//! an incompatible config is a typed error, not a silent reinterpretation.

use crate::codec;
use crate::codec::{get_u128, get_u32, get_u64, is_zero_range, put_u128, put_u64};
use crate::error::Error;
use crate::float::F32Bits;
use crate::parse;
use vstd::prelude::*;

verus! {

/// The fewest shards an arena group is laid out with.
pub const MIN_SHARDS: usize = 4;

/// The most shards an arena group is laid out with.
pub const MAX_SHARDS: usize = 65536;

/// Slot payload that one shard is meant to hold.
pub const SHARD_TARGET_BYTES: usize = 262144;

/// Byte offset of the float group in the encoded block.
pub const F32S_AT: usize = 112;

/// Byte offset of the `u32` group.
pub const U32S_AT: usize = 152;

/// Byte offset of the `db_uuid` field.
pub const DB_UUID_AT: usize = 164;

/// Byte offset of the reserved zero tail (directly after `db_uuid`).
pub const RESERVED_AT: usize = 180;

/// Exact byte length of the encoded config block (see [`Config::encode`]).
pub const ENCODED_LEN: usize = 188;

/// Full engine configuration.
///
/// Plain data: construct with [`Config::default`], override fields, then let
/// the engine call [`Config::validate`].
#[derive(Clone, Copy, Debug, PartialEq, Eq, Structural)]
#[non_exhaustive]
pub struct Config {
    /// Vector dimension; `0` disables the vector layer entirely. Max 4096.
    pub dim: usize,
    /// Total ceiling for all byte pools.
    pub max_bytes: usize,
    /// Maximum fact text length in bytes.
    pub max_text: usize,
    /// Maximum single blob length in bytes.
    pub max_blob: usize,
    /// Shard count of the facts arena (power of two).
    pub shards_facts: usize,
    /// Shard count of the entities arena (power of two).
    pub shards_entities: usize,
    /// Shard count of each edge arena (power of two).
    pub shards_edges: usize,
    /// Shard count of the temporal arena (power of two).
    pub shards_temporal: usize,
    /// Shard count of the postings arena (power of two).
    pub shards_postings: usize,
    /// BM25 `k1` (term-frequency saturation).
    pub bm25_k1: F32Bits,
    /// BM25 `b` (length normalization), in `[0, 1]`.
    pub bm25_b: F32Bits,
    /// The RRF rank constant (`score += w / (rrf_k + rank)`).
    pub rrf_k: u32,
    /// RRF weight of the lexical (BM25) source.
    pub w_bm25: F32Bits,
    /// RRF weight of the vector source.
    pub w_vec: F32Bits,
    /// RRF weight of the graph source.
    pub w_graph: F32Bits,
    /// RRF weight of the temporal-range source.
    pub w_time: F32Bits,
    /// Strength of the recency boost (`0` disables it).
    pub w_recency: F32Bits,
    /// Recency half-life in days.
    pub half_life_days: u32,
    /// Graph expansion depth limit.
    pub graph_depth: u32,
    /// Per-hop weight decay of graph candidates, in `(0, 1]`.
    pub graph_decay: F32Bits,
    /// Cosine threshold for vector-based similar-detection, in `[0, 1]`.
    pub similar_cos: F32Bits,
    /// Jaccard threshold for lexical similar-detection, in `[0, 1]`.
    pub similar_jaccard: F32Bits,
    /// HNSW: neighbors per node on upper levels.
    pub hnsw_m: usize,
    /// HNSW: neighbors per node on level 0.
    pub hnsw_m0: usize,
    /// HNSW: beam width during construction.
    pub hnsw_ef_construction: usize,
    /// HNSW: default beam width during search.
    pub hnsw_ef_search: usize,
    /// Vector count at which `maintain` switches from flat search to HNSW.
    pub flat_to_hnsw: usize,
    /// Database lineage identity, minted once by the host at creation and
    /// persisted in every snapshot. `0` means an unnamed database. On open,
    /// `0` here adopts whatever the snapshot stores; a nonzero value must
    /// match the stored one.
    pub db_uuid: u128,
}

/// `n` is a power of two.
pub open spec fn is_pow2(n: nat) -> bool
    decreases n,
{
    if n <= 1 {
        n == 1
    } else {
        n % 2 == 0 && is_pow2(n / 2)
    }
}

/// `true` when `n` is a power of two.
pub fn is_power_of_two(n: usize) -> (r: bool)
    ensures
        r == is_pow2(n as nat),
    decreases n,
{
    if n <= 1 {
        n == 1
    } else {
        n % 2 == 0 && is_power_of_two(n / 2)
    }
}

/// The first rule that `c` breaks.
pub open spec fn config_error(c: Config) -> Option<&'static str> {
    if c.dim > 4096 {
        Some("dim must be <= 4096")
    } else if !is_pow2(c.shards_facts as nat) {
        Some("shards_facts must be a power of two")
    } else if !is_pow2(c.shards_entities as nat) {
        Some("shards_entities must be a power of two")
    } else if !is_pow2(c.shards_edges as nat) {
        Some("shards_edges must be a power of two")
    } else if !is_pow2(c.shards_temporal as nat) {
        Some("shards_temporal must be a power of two")
    } else if !is_pow2(c.shards_postings as nat) {
        Some("shards_postings must be a power of two")
    } else if c.max_text == 0 || c.max_text > c.max_blob {
        Some("max_text must be in 1..=max_blob")
    } else if c.max_blob > c.max_bytes {
        Some("max_blob must be <= max_bytes")
    } else if !c.bm25_k1.positive() {
        Some("bm25_k1 must be positive")
    } else if !c.bm25_b.unit() {
        Some("bm25_b must be in [0, 1]")
    } else if c.rrf_k == 0 {
        Some("rrf_k must be >= 1")
    } else if !c.w_bm25.weight() {
        Some("w_bm25 must be finite and >= 0")
    } else if !c.w_vec.weight() {
        Some("w_vec must be finite and >= 0")
    } else if !c.w_graph.weight() {
        Some("w_graph must be finite and >= 0")
    } else if !c.w_time.weight() {
        Some("w_time must be finite and >= 0")
    } else if !c.w_recency.weight() {
        Some("w_recency must be finite and >= 0")
    } else if c.half_life_days == 0 {
        Some("half_life_days must be >= 1")
    } else if c.graph_depth > 4 {
        Some("graph_depth must be <= 4")
    } else if !(c.graph_decay.positive() && c.graph_decay.unit()) {
        Some("graph_decay must be in (0, 1]")
    } else if !c.similar_cos.unit() {
        Some("similar_cos must be in [0, 1]")
    } else if !c.similar_jaccard.unit() {
        Some("similar_jaccard must be in [0, 1]")
    } else if c.hnsw_m < 2 {
        Some("hnsw_m must be >= 2")
    } else if c.hnsw_m0 < c.hnsw_m {
        Some("hnsw_m0 must be >= hnsw_m")
    } else if c.hnsw_ef_construction < c.hnsw_m {
        Some("hnsw_ef_construction must be >= hnsw_m")
    } else if c.hnsw_ef_search == 0 {
        Some("hnsw_ef_search must be >= 1")
    } else if c.flat_to_hnsw == 0 {
        Some("flat_to_hnsw must be >= 1")
    } else {
        None
    }
}

/// Every field is inside its documented range.
pub open spec fn config_ok(c: Config) -> bool {
    config_error(c) is None
}

/// The outcome of validating `c`.
pub open spec fn validated(c: Config) -> Result<(), Error> {
    match config_error(c) {
        Some(what) => Err(Error::ConfigMismatch(what)),
        None => Ok(()),
    }
}

/// The size fields, in the order of the encoded block.
pub open spec fn sizes_of(c: Config) -> Seq<u64> {
    seq![
        c.dim as u64,
        c.max_bytes as u64,
        c.max_text as u64,
        c.max_blob as u64,
        c.shards_facts as u64,
        c.shards_entities as u64,
        c.shards_edges as u64,
        c.shards_temporal as u64,
        c.shards_postings as u64,
        c.hnsw_m as u64,
        c.hnsw_m0 as u64,
        c.hnsw_ef_construction as u64,
        c.hnsw_ef_search as u64,
        c.flat_to_hnsw as u64,
    ]
}

/// The 32-bit fields: the floats, then the integers.
pub open spec fn words_of(c: Config) -> Seq<u32> {
    seq![
        c.bm25_k1.0,
        c.bm25_b.0,
        c.w_bm25.0,
        c.w_vec.0,
        c.w_graph.0,
        c.w_time.0,
        c.w_recency.0,
        c.graph_decay.0,
        c.similar_cos.0,
        c.similar_jaccard.0,
        c.rrf_k,
        c.half_life_days,
        c.graph_depth,
    ]
}

/// The encoded config block.
pub open spec fn config_bytes(c: Config) -> Seq<u8> {
    parse::flat(|v: u64| codec::le64(v), sizes_of(c)) + parse::flat(
        |v: u32| codec::le32(v),
        words_of(c),
    ) + codec::le128(c.db_uuid) + codec::zeros(8)
}

/// The size field number `i` of a config block.
pub open spec fn size_at(b: Seq<u8>, i: int) -> nat {
    codec::num_at(b, 8 * i, 8)
}

/// The 32-bit field number `i` of a config block.
pub open spec fn word_at(b: Seq<u8>, i: int) -> u32 {
    codec::num_at(b, 112 + 4 * i, 4) as u32
}

/// The fields of a config block.
pub open spec fn config_at(b: Seq<u8>) -> Config {
    Config {
        dim: size_at(b, 0) as usize,
        max_bytes: size_at(b, 1) as usize,
        max_text: size_at(b, 2) as usize,
        max_blob: size_at(b, 3) as usize,
        shards_facts: size_at(b, 4) as usize,
        shards_entities: size_at(b, 5) as usize,
        shards_edges: size_at(b, 6) as usize,
        shards_temporal: size_at(b, 7) as usize,
        shards_postings: size_at(b, 8) as usize,
        hnsw_m: size_at(b, 9) as usize,
        hnsw_m0: size_at(b, 10) as usize,
        hnsw_ef_construction: size_at(b, 11) as usize,
        hnsw_ef_search: size_at(b, 12) as usize,
        flat_to_hnsw: size_at(b, 13) as usize,
        bm25_k1: F32Bits(word_at(b, 0)),
        bm25_b: F32Bits(word_at(b, 1)),
        w_bm25: F32Bits(word_at(b, 2)),
        w_vec: F32Bits(word_at(b, 3)),
        w_graph: F32Bits(word_at(b, 4)),
        w_time: F32Bits(word_at(b, 5)),
        w_recency: F32Bits(word_at(b, 6)),
        graph_decay: F32Bits(word_at(b, 7)),
        similar_cos: F32Bits(word_at(b, 8)),
        similar_jaccard: F32Bits(word_at(b, 9)),
        rrf_k: word_at(b, 10),
        half_life_days: word_at(b, 11),
        graph_depth: word_at(b, 12),
        db_uuid: codec::num_at(b, 164, 16) as u128,
    }
}

/// Every size field fits this machine's `usize`.
pub open spec fn sizes_fit(b: Seq<u8>) -> bool {
    forall|i: int| 0 <= i < 14 ==> #[trigger] size_at(b, i) <= usize::MAX
}

/// The config a block denotes, or why it is refused.
pub open spec fn config_decoded(b: Seq<u8>) -> Result<Config, Error> {
    if b.len() != ENCODED_LEN {
        Err(Error::Corrupt("config block length mismatch"))
    } else if !sizes_fit(b) {
        Err(Error::ConfigMismatch("database requires a 64-bit address space"))
    } else if !codec::all_zero(b, 180, 188) {
        Err(Error::Corrupt("reserved config bytes must be zero"))
    } else {
        match config_error(config_at(b)) {
            Some(what) => Err(Error::ConfigMismatch(what)),
            None => Ok(config_at(b)),
        }
    }
}

impl Default for Config {
    /// The defaults table.
    fn default() -> (r: Config)
        ensures
            r == (Config {
                dim: 0,
                max_bytes: 0x8000_0000,
                max_text: 4096,
                max_blob: 65536,
                shards_facts: 1024,
                shards_entities: 256,
                shards_edges: 512,
                shards_temporal: 512,
                shards_postings: 2048,
                bm25_k1: F32Bits(0x3F99_999A),
                bm25_b: F32Bits(0x3F40_0000),
                rrf_k: 60,
                w_bm25: F32Bits(0x3F80_0000),
                w_vec: F32Bits(0x3F80_0000),
                w_graph: F32Bits(0x3F80_0000),
                w_time: F32Bits(0x3F80_0000),
                w_recency: F32Bits(0x3E80_0000),
                half_life_days: 180,
                graph_depth: 2,
                graph_decay: F32Bits(0x3F00_0000),
                similar_cos: F32Bits(0x3F59_999A),
                similar_jaccard: F32Bits(0x3F00_0000),
                hnsw_m: 16,
                hnsw_m0: 32,
                hnsw_ef_construction: 200,
                hnsw_ef_search: 64,
                flat_to_hnsw: 24_000,
                db_uuid: 0,
            }),
            config_ok(r),
    {
        proof {
            reveal_with_fuel(is_pow2, 13);
        }
        Config {
            dim: 0,
            max_bytes: 0x8000_0000,
            max_text: 4096,
            max_blob: 65536,
            shards_facts: 1024,
            shards_entities: 256,
            shards_edges: 512,
            shards_temporal: 512,
            shards_postings: 2048,
            bm25_k1: F32Bits(0x3F99_999A),
            bm25_b: F32Bits(0x3F40_0000),
            rrf_k: 60,
            w_bm25: F32Bits(0x3F80_0000),
            w_vec: F32Bits(0x3F80_0000),
            w_graph: F32Bits(0x3F80_0000),
            w_time: F32Bits(0x3F80_0000),
            w_recency: F32Bits(0x3E80_0000),
            half_life_days: 180,
            graph_depth: 2,
            graph_decay: F32Bits(0x3F00_0000),
            similar_cos: F32Bits(0x3F59_999A),
            similar_jaccard: F32Bits(0x3F00_0000),
            hnsw_m: 16,
            hnsw_m0: 32,
            hnsw_ef_construction: 200,
            hnsw_ef_search: 64,
            flat_to_hnsw: 24_000,
            db_uuid: 0,
        }
    }
}

/// One weight-range check: finite and non-negative.
fn check_weight(v: F32Bits, what: &'static str) -> (r: Result<(), Error>)
    ensures
        r == (if v.weight() { Ok(()) } else { Err(Error::ConfigMismatch(what)) }),
{
    if v.is_weight() {
        Ok(())
    } else {
        Err(Error::ConfigMismatch(what))
    }
}

/// One unit-interval check: finite and inside `[0, 1]`.
fn check_unit(v: F32Bits, what: &'static str) -> (r: Result<(), Error>)
    ensures
        r == (if v.unit() { Ok(()) } else { Err(Error::ConfigMismatch(what)) }),
{
    if v.is_unit() {
        Ok(())
    } else {
        Err(Error::ConfigMismatch(what))
    }
}

fn check_shards(n: usize, what: &'static str) -> (r: Result<(), Error>)
    ensures
        r == (if is_pow2(n as nat) { Ok(()) } else { Err(Error::ConfigMismatch(what)) }),
{
    if is_power_of_two(n) {
        Ok(())
    } else {
        Err(Error::ConfigMismatch(what))
    }
}

impl Config {
    /// Checks every field against its documented range.
    ///
    /// Returns [`Error::ConfigMismatch`] naming the first offending field.
    pub fn validate(&self) -> (r: Result<(), Error>)
        ensures
            r == validated(*self),
    {
        if self.dim > 4096 {
            return Err(Error::ConfigMismatch("dim must be <= 4096"));
        }
        check_shards(self.shards_facts, "shards_facts must be a power of two")?;
        check_shards(self.shards_entities, "shards_entities must be a power of two")?;
        check_shards(self.shards_edges, "shards_edges must be a power of two")?;
        check_shards(self.shards_temporal, "shards_temporal must be a power of two")?;
        check_shards(self.shards_postings, "shards_postings must be a power of two")?;
        if self.max_text == 0 || self.max_text > self.max_blob {
            return Err(Error::ConfigMismatch("max_text must be in 1..=max_blob"));
        }
        if self.max_blob > self.max_bytes {
            return Err(Error::ConfigMismatch("max_blob must be <= max_bytes"));
        }
        if !self.bm25_k1.is_positive() {
            return Err(Error::ConfigMismatch("bm25_k1 must be positive"));
        }
        check_unit(self.bm25_b, "bm25_b must be in [0, 1]")?;
        if self.rrf_k == 0 {
            return Err(Error::ConfigMismatch("rrf_k must be >= 1"));
        }
        check_weight(self.w_bm25, "w_bm25 must be finite and >= 0")?;
        check_weight(self.w_vec, "w_vec must be finite and >= 0")?;
        check_weight(self.w_graph, "w_graph must be finite and >= 0")?;
        check_weight(self.w_time, "w_time must be finite and >= 0")?;
        check_weight(self.w_recency, "w_recency must be finite and >= 0")?;
        if self.half_life_days == 0 {
            return Err(Error::ConfigMismatch("half_life_days must be >= 1"));
        }
        if self.graph_depth > 4 {
            return Err(Error::ConfigMismatch("graph_depth must be <= 4"));
        }
        if !(self.graph_decay.is_positive() && self.graph_decay.is_unit()) {
            return Err(Error::ConfigMismatch("graph_decay must be in (0, 1]"));
        }
        check_unit(self.similar_cos, "similar_cos must be in [0, 1]")?;
        check_unit(self.similar_jaccard, "similar_jaccard must be in [0, 1]")?;
        if self.hnsw_m < 2 {
            return Err(Error::ConfigMismatch("hnsw_m must be >= 2"));
        }
        if self.hnsw_m0 < self.hnsw_m {
            return Err(Error::ConfigMismatch("hnsw_m0 must be >= hnsw_m"));
        }
        if self.hnsw_ef_construction < self.hnsw_m {
            return Err(Error::ConfigMismatch("hnsw_ef_construction must be >= hnsw_m"));
        }
        if self.hnsw_ef_search == 0 {
            return Err(Error::ConfigMismatch("hnsw_ef_search must be >= 1"));
        }
        if self.flat_to_hnsw == 0 {
            return Err(Error::ConfigMismatch("flat_to_hnsw must be >= 1"));
        }
        Ok(())
    }

    /// Appends the fixed binary form of the config to `out`. Layout, all
    /// little-endian: the size fields as `u64`, the float fields as their
    /// IEEE 754 bits, `rrf_k`/`half_life_days`/`graph_depth` as `u32`,
    /// `db_uuid` as a `u128`, then 8 reserved zero bytes; exactly
    /// [`ENCODED_LEN`] bytes.
    pub fn encode(&self, out: &mut Vec<u8>)
        ensures
            final(out)@ == old(out)@ + config_bytes(*self),
            config_bytes(*self).len() == ENCODED_LEN,
    {
        let sizes: Vec<u64> = vec![
            self.dim as u64,
            self.max_bytes as u64,
            self.max_text as u64,
            self.max_blob as u64,
            self.shards_facts as u64,
            self.shards_entities as u64,
            self.shards_edges as u64,
            self.shards_temporal as u64,
            self.shards_postings as u64,
            self.hnsw_m as u64,
            self.hnsw_m0 as u64,
            self.hnsw_ef_construction as u64,
            self.hnsw_ef_search as u64,
            self.flat_to_hnsw as u64,
        ];
        let words: Vec<u32> = vec![
            self.bm25_k1.0,
            self.bm25_b.0,
            self.w_bm25.0,
            self.w_vec.0,
            self.w_graph.0,
            self.w_time.0,
            self.w_recency.0,
            self.graph_decay.0,
            self.similar_cos.0,
            self.similar_jaccard.0,
            self.rrf_k,
            self.half_life_days,
            self.graph_depth,
        ];
        assert(sizes@ =~= sizes_of(*self));
        assert(words@ =~= words_of(*self));
        parse::put_u64s(out, &sizes);
        parse::put_u32s(out, &words);
        put_u128(out, self.db_uuid);
        put_u64(out, 0);
        proof {
            assert(codec::le64(0) =~= codec::zeros(8)) by {
                reveal_with_fuel(codec::le_bytes, 9);
            }
            assert(out@ =~= old(out)@ + config_bytes(*self));
            lemma_flat64(sizes_of(*self));
            lemma_flat32(words_of(*self));
            codec::lemma_le_bytes_len(self.db_uuid as nat, 16);
        }
    }

    /// Decodes a config block written by [`Config::encode`] and validates the
    /// result.
    ///
    /// The input is untrusted: a wrong length or nonzero reserved bytes are
    /// [`Error::Corrupt`]; out-of-range field values surface as the same
    /// [`Error::ConfigMismatch`] a hand-built config would get. A size that
    /// overflows this platform's `usize` is [`Error::ConfigMismatch`] too: the
    /// file is not corrupt, this host is too small for it.
    pub fn decode(bytes: &[u8]) -> (r: Result<Config, Error>)
        ensures
            r == config_decoded(bytes@),
    {
        if bytes.len() != ENCODED_LEN {
            return Err(Error::Corrupt("config block length mismatch"));
        }
        let mut i: usize = 0;
        while i < 14
            invariant
                i <= 14,
                bytes@.len() == ENCODED_LEN,
                forall|k: int| 0 <= k < i ==> #[trigger] size_at(bytes@, k) <= usize::MAX,
            decreases 14 - i,
        {
            let v: u64 = get_u64(bytes, 8 * i);
            assert(v as nat == size_at(bytes@, i as int));
            if v > usize::MAX as u64 {
                return Err(Error::ConfigMismatch("database requires a 64-bit address space"));
            }
            i = i + 1;
        }
        if !is_zero_range(bytes, RESERVED_AT, ENCODED_LEN) {
            return Err(Error::Corrupt("reserved config bytes must be zero"));
        }
        let cfg = Config {
            dim: take_size(bytes, 0),
            max_bytes: take_size(bytes, 1),
            max_text: take_size(bytes, 2),
            max_blob: take_size(bytes, 3),
            shards_facts: take_size(bytes, 4),
            shards_entities: take_size(bytes, 5),
            shards_edges: take_size(bytes, 6),
            shards_temporal: take_size(bytes, 7),
            shards_postings: take_size(bytes, 8),
            hnsw_m: take_size(bytes, 9),
            hnsw_m0: take_size(bytes, 10),
            hnsw_ef_construction: take_size(bytes, 11),
            hnsw_ef_search: take_size(bytes, 12),
            flat_to_hnsw: take_size(bytes, 13),
            bm25_k1: F32Bits(take_word(bytes, 0)),
            bm25_b: F32Bits(take_word(bytes, 1)),
            w_bm25: F32Bits(take_word(bytes, 2)),
            w_vec: F32Bits(take_word(bytes, 3)),
            w_graph: F32Bits(take_word(bytes, 4)),
            w_time: F32Bits(take_word(bytes, 5)),
            w_recency: F32Bits(take_word(bytes, 6)),
            graph_decay: F32Bits(take_word(bytes, 7)),
            similar_cos: F32Bits(take_word(bytes, 8)),
            similar_jaccard: F32Bits(take_word(bytes, 9)),
            rrf_k: take_word(bytes, 10),
            half_life_days: take_word(bytes, 11),
            graph_depth: take_word(bytes, 12),
            db_uuid: get_u128(bytes, DB_UUID_AT),
        };
        cfg.validate()?;
        Ok(cfg)
    }
}

fn take_size(bytes: &[u8], i: usize) -> (r: usize)
    requires
        i < 14,
        bytes@.len() == ENCODED_LEN,
        size_at(bytes@, i as int) <= usize::MAX,
    ensures
        r == size_at(bytes@, i as int),
{
    get_u64(bytes, 8 * i) as usize
}

fn take_word(bytes: &[u8], i: usize) -> (r: u32)
    requires
        i < 13,
        bytes@.len() == ENCODED_LEN,
    ensures
        r == word_at(bytes@, i as int),
{
    get_u32(bytes, 112 + 4 * i)
}

proof fn lemma_flat64(xs: Seq<u64>)
    ensures
        parse::flat(|v: u64| codec::le64(v), xs).len() == 8 * xs.len(),
    decreases xs.len(),
{
    if xs.len() > 0 {
        lemma_flat64(xs.drop_last());
        codec::lemma_le_bytes_len(xs.last() as nat, 8);
    }
}

proof fn lemma_flat32(xs: Seq<u32>)
    ensures
        parse::flat(|v: u32| codec::le32(v), xs).len() == 4 * xs.len(),
    decreases xs.len(),
{
    if xs.len() > 0 {
        lemma_flat32(xs.drop_last());
        codec::lemma_le_bytes_len(xs.last() as nat, 4);
    }
}

proof fn lemma_flat64_at(b: Seq<u8>, at: int, xs: Seq<u64>, i: int)
    requires
        0 <= i < xs.len(),
        codec::has_at(b, at, parse::flat(|v: u64| codec::le64(v), xs)),
    ensures
        codec::num_at(b, at + 8 * i, 8) == xs[i],
    decreases xs.len(),
{
    let enc = |v: u64| codec::le64(v);
    codec::lemma_has_split(b, at, parse::flat(enc, xs.drop_last()), codec::le64(xs.last()));
    lemma_flat64(xs.drop_last());
    if i < xs.len() - 1 {
        lemma_flat64_at(b, at, xs.drop_last(), i);
    } else {
        codec::lemma_pow256();
        codec::lemma_num_at(b, at + 8 * i, xs[i] as nat, 8);
    }
}

proof fn lemma_flat32_at(b: Seq<u8>, at: int, xs: Seq<u32>, i: int)
    requires
        0 <= i < xs.len(),
        codec::has_at(b, at, parse::flat(|v: u32| codec::le32(v), xs)),
    ensures
        codec::num_at(b, at + 4 * i, 4) == xs[i],
    decreases xs.len(),
{
    let enc = |v: u32| codec::le32(v);
    codec::lemma_has_split(b, at, parse::flat(enc, xs.drop_last()), codec::le32(xs.last()));
    lemma_flat32(xs.drop_last());
    if i < xs.len() - 1 {
        lemma_flat32_at(b, at, xs.drop_last(), i);
    } else {
        codec::lemma_pow256();
        codec::lemma_num_at(b, at + 4 * i, xs[i] as nat, 4);
    }
}

/// Encoding is lossless: a valid config decodes from its own block unchanged.
pub proof fn config_round_trip(c: Config)
    requires
        config_ok(c),
    ensures
        config_decoded(config_bytes(c)) == Ok::<_, Error>(c),
        config_bytes(c).len() == ENCODED_LEN,
{
    let b = config_bytes(c);
    let sizes = sizes_of(c);
    let words = words_of(c);
    let s1 = parse::flat(|v: u64| codec::le64(v), sizes);
    let s2 = s1 + parse::flat(|v: u32| codec::le32(v), words);
    let s3 = s2 + codec::le128(c.db_uuid);
    lemma_flat64(sizes);
    lemma_flat32(words);
    codec::lemma_le_bytes_len(c.db_uuid as nat, 16);
    codec::lemma_pow256();
    assert(codec::has_at(b, 0, b)) by {
        reveal(codec::has_at);
        assert(b.subrange(0, b.len() as int) =~= b);
    }
    codec::lemma_has_split(b, 0, s3, codec::zeros(8));
    codec::lemma_has_split(b, 0, s2, codec::le128(c.db_uuid));
    codec::lemma_has_split(b, 0, s1, parse::flat(|v: u32| codec::le32(v), words));
    codec::lemma_num_at(b, 164, c.db_uuid as nat, 16);
    assert(codec::all_zero(b, 180, 188)) by {
        assert forall|i: int| 180 <= i < 188 implies #[trigger] b[i] == 0u8 by {
            assert(b[i] == codec::zeros(8)[i - 180]);
        }
    }
    assert forall|i: int| 0 <= i < 14 implies #[trigger] size_at(b, i) == sizes[i] by {
        lemma_flat64_at(b, 0, sizes, i);
    }
    assert forall|i: int| 0 <= i < 13 implies #[trigger] word_at(b, i) == words[i] by {
        lemma_flat32_at(b, 112, words, i);
    }
    assert(config_at(b) == c);
}

proof fn lemma_flat64_back(b: Seq<u8>, at: int, xs: Seq<u64>)
    requires
        0 <= at,
        at + 8 * xs.len() <= b.len(),
        forall|i: int| 0 <= i < xs.len() ==> codec::num_at(b, at + 8 * i, 8) == #[trigger] xs[i],
    ensures
        codec::has_at(b, at, parse::flat(|v: u64| codec::le64(v), xs)),
    decreases xs.len(),
{
    let enc = |v: u64| codec::le64(v);
    reveal(codec::has_at);
    if xs.len() > 0 {
        let init = xs.drop_last();
        let p = at + 8 * init.len();
        assert forall|i: int| 0 <= i < init.len() implies codec::num_at(b, at + 8 * i, 8)
            == #[trigger] init[i] by {
            assert(init[i] == xs[i]);
        }
        lemma_flat64_back(b, at, init);
        lemma_flat64(init);
        assert(codec::num_at(b, at + 8 * (xs.len() - 1), 8) == xs[xs.len() - 1]);
        codec::lemma_le_nat_bound(b.subrange(p, p + 8));
        codec::lemma_has_split(b, at, parse::flat(enc, init), codec::le64(xs.last()));
    } else {
        assert(b.subrange(at, at) =~= Seq::<u8>::empty());
    }
}

proof fn lemma_flat32_back(b: Seq<u8>, at: int, xs: Seq<u32>)
    requires
        0 <= at,
        at + 4 * xs.len() <= b.len(),
        forall|i: int| 0 <= i < xs.len() ==> codec::num_at(b, at + 4 * i, 4) == #[trigger] xs[i],
    ensures
        codec::has_at(b, at, parse::flat(|v: u32| codec::le32(v), xs)),
    decreases xs.len(),
{
    let enc = |v: u32| codec::le32(v);
    reveal(codec::has_at);
    if xs.len() > 0 {
        let init = xs.drop_last();
        let p = at + 4 * init.len();
        assert forall|i: int| 0 <= i < init.len() implies codec::num_at(b, at + 4 * i, 4)
            == #[trigger] init[i] by {
            assert(init[i] == xs[i]);
        }
        lemma_flat32_back(b, at, init);
        lemma_flat32(init);
        assert(codec::num_at(b, at + 4 * (xs.len() - 1), 4) == xs[xs.len() - 1]);
        codec::lemma_le_nat_bound(b.subrange(p, p + 4));
        codec::lemma_has_split(b, at, parse::flat(enc, init), codec::le32(xs.last()));
    } else {
        assert(b.subrange(at, at) =~= Seq::<u8>::empty());
    }
}

/// Only canonical blocks are accepted: an accepted block is what its config
/// encodes to, and the config is valid.
pub proof fn an_accepted_block_is_canonical(b: Seq<u8>)
    requires
        config_decoded(b) is Ok,
    ensures
        config_ok(config_decoded(b)->Ok_0),
        config_bytes(config_decoded(b)->Ok_0) == b,
{
    let c = config_at(b);
    let sizes = sizes_of(c);
    let words = words_of(c);
    let s1 = parse::flat(|v: u64| codec::le64(v), sizes);
    let s2 = s1 + parse::flat(|v: u32| codec::le32(v), words);
    let s3 = s2 + codec::le128(c.db_uuid);
    codec::lemma_pow256();
    assert forall|i: int| 0 <= i < 14 implies codec::num_at(b, 0 + 8 * i, 8)
        == #[trigger] sizes[i] by {
        assert(size_at(b, i) <= usize::MAX);
    }
    assert forall|i: int| 0 <= i < 13 implies codec::num_at(b, 112 + 4 * i, 4)
        == #[trigger] words[i] by {
        codec::lemma_le_nat_bound(b.subrange(112 + 4 * i, 112 + 4 * i + 4));
        assert(words[i] == word_at(b, i));
    }
    lemma_flat64(sizes);
    lemma_flat32(words);
    lemma_flat64_back(b, 0, sizes);
    lemma_flat32_back(b, 112, words);
    codec::lemma_le_nat_bound(b.subrange(164, 180));
    codec::lemma_le_bytes_len(c.db_uuid as nat, 16);
    assert(codec::has_at(b, 164, codec::le128(c.db_uuid))) by {
        reveal(codec::has_at);
    }
    assert(codec::has_at(b, 180, codec::zeros(8))) by {
        reveal(codec::has_at);
        assert(b.subrange(180, 188) =~= codec::zeros(8));
    }
    codec::lemma_has_split(b, 0, s1, parse::flat(|v: u32| codec::le32(v), words));
    codec::lemma_has_split(b, 0, s2, codec::le128(c.db_uuid));
    codec::lemma_has_split(b, 0, s3, codec::zeros(8));
    reveal(codec::has_at);
    assert(b.subrange(0, b.len() as int) =~= b);
}

} // verus!
