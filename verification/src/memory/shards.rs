//! How many shards each arena gets.
//!
//! There is no correct constant. Too few shards on a large database lengthens
//! the sorted page directory; too many on a small one buys a page for every
//! shard that holds a single record. The right number follows the data, so it
//! is derived here rather than configured.
//!
//! The rule is a pure function of engine state (replay recomputes it and must
//! reach the same answer), it does not depend on pointer width (the arithmetic
//! is `u64` throughout and the clamp happens before the single cast), and it
//! reads only true payload, never occupancy.

use crate::config;
use crate::config::{Config, MAX_SHARDS, MIN_SHARDS, SHARD_TARGET_BYTES};
use vstd::prelude::*;

verus! {

/// How far a group must outgrow its shard count before growing it: one
/// doubling.
pub const GROW_FACTOR: usize = 2;

/// How far it must fall below before shrinking: two doublings. Wider than
/// [`GROW_FACTOR`] so the two thresholds cannot both be true at once.
pub const SHRINK_FACTOR: usize = 4;

/// The least power of two that is not below `n`.
pub open spec fn next_pow2(n: nat) -> nat
    decreases n,
{
    if n <= 1 {
        1
    } else {
        2 * next_pow2((n + 1) / 2)
    }
}

/// Shards that `bytes` of payload ask for, before rounding.
pub open spec fn wanted_shards(bytes: nat) -> nat {
    let want = (bytes + SHARD_TARGET_BYTES as nat - 1) as nat / SHARD_TARGET_BYTES as nat;
    if want < MIN_SHARDS {
        MIN_SHARDS as nat
    } else if want > MAX_SHARDS {
        MAX_SHARDS as nat
    } else {
        want
    }
}

/// Shards for one arena group holding `bytes` of slot payload.
pub open spec fn shard_count(bytes: nat) -> nat {
    next_pow2(wanted_shards(bytes))
}

/// A rounded-up number is a power of two, at least the number and less than
/// twice the number.
pub proof fn lemma_next_pow2(n: nat)
    requires
        1 <= n,
    ensures
        config::is_pow2(next_pow2(n)),
        n <= next_pow2(n) < 2 * n,
    decreases n,
{
    if n > 1 {
        lemma_next_pow2((n + 1) / 2);
        let h = next_pow2((n + 1) / 2);
        assert((2 * h) % 2 == 0 && (2 * h) / 2 == h);
        lemma_pow2_below(h, n);
    } else {
        assert(config::is_pow2(1));
    }
}

/// A power of two below `n + 1` is below `n` unless it equals `n`; doubling
/// half of `n` rounded up stays below twice `n`.
proof fn lemma_pow2_below(h: nat, n: nat)
    requires
        1 < n,
        config::is_pow2(h),
        h < 2 * ((n + 1) / 2),
    ensures
        2 * h < 2 * n,
{
    if h >= n {
        assert(h == n && n % 2 == 1);
        assert(!config::is_pow2(h));
    }
}

/// Rounding never passes a power of two that bounds the number.
pub proof fn lemma_next_pow2_bound(n: nat, bound: nat)
    requires
        1 <= n <= bound,
        config::is_pow2(bound),
    ensures
        next_pow2(n) <= bound,
    decreases n,
{
    if n > 1 {
        lemma_next_pow2_bound((n + 1) / 2, bound / 2);
    }
}

/// Every count the rule produces is a usable shard count: a power of two in
/// range, and enough for the payload as far as the ceiling allows.
pub proof fn every_count_is_usable(bytes: nat)
    ensures
        config::is_pow2(shard_count(bytes)),
        MIN_SHARDS <= shard_count(bytes) <= MAX_SHARDS,
        shard_count(bytes) < MAX_SHARDS ==> bytes <= shard_count(bytes) * SHARD_TARGET_BYTES,
{
    let want = wanted_shards(bytes);
    lemma_next_pow2(want);
    assert(config::is_pow2(MAX_SHARDS as nat)) by {
        reveal_with_fuel(config::is_pow2, 18);
    }
    lemma_next_pow2_bound(want, MAX_SHARDS as nat);
}

fn round_up(n: u64) -> (r: u64)
    requires
        1 <= n <= MAX_SHARDS,
    ensures
        r == next_pow2(n as nat),
        r <= MAX_SHARDS,
    decreases n,
{
    proof {
        assert(config::is_pow2(MAX_SHARDS as nat)) by {
            reveal_with_fuel(config::is_pow2, 18);
        }
        lemma_next_pow2_bound(n as nat, MAX_SHARDS as nat);
    }
    if n <= 1 {
        1
    } else {
        2 * round_up((n + 1) / 2)
    }
}

/// Shards for one arena group holding `bytes` of slot payload.
///
/// Clamping before rounding is deliberate: it keeps the result inside
/// `[MIN_SHARDS, MAX_SHARDS]` (both powers of two) without the rounding ever
/// overflowing.
pub fn shards_for(bytes: u64) -> (r: usize)
    ensures
        r == shard_count(bytes as nat),
{
    let whole: u64 = bytes / SHARD_TARGET_BYTES as u64;
    let mut want: u64 = if bytes % SHARD_TARGET_BYTES as u64 == 0 { whole } else { whole + 1 };
    if want < MIN_SHARDS as u64 {
        want = MIN_SHARDS as u64;
    }
    if want > MAX_SHARDS as u64 {
        want = MAX_SHARDS as u64;
    }
    round_up(want) as usize
}

/// Payload of `count` records of `size` bytes, saturated.
pub open spec fn payload_of(count: u64, size: int) -> nat {
    if count * size > u64::MAX {
        u64::MAX as nat
    } else {
        (count * size) as nat
    }
}

fn payload(count: u64, size: u64) -> (r: u64)
    requires
        size <= 64,
    ensures
        r == payload_of(count, size as int),
{
    assert(count * size <= u64::MAX * 64) by (nonlinear_arith)
        requires
            count <= u64::MAX,
            size <= 64,
    ;
    let p: u128 = count as u128 * size as u128;
    if p > u64::MAX as u128 {
        u64::MAX
    } else {
        p as u64
    }
}

pub open spec fn larger(a: nat, b: nat) -> nat {
    if a >= b {
        a
    } else {
        b
    }
}

fn max_of(a: u64, b: u64) -> (r: u64)
    ensures
        r == larger(a as nat, b as nat),
{
    if a >= b {
        a
    } else {
        b
    }
}

/// What the engine holds, in records: the only input the layout rule takes.
#[derive(Clone, Copy, Debug, PartialEq, Eq, Structural)]
pub struct Population {
    /// Fact records that survive a purge (tombstones excluded).
    pub facts: u64,
    /// Entities. Never purged.
    pub entities: u64,
    /// Currently open edges, counted once per mirror table.
    pub edges: u64,
    /// Edge history versions, open and closed.
    pub edge_versions: u64,
    /// Interned terms carrying postings.
    pub terms: u64,
    /// Distinct tags carrying id lists.
    pub tags: u64,
    /// Documents in the BM25 length table.
    pub documents: u64,
}

/// Shard counts for every arena group.
#[derive(Clone, Copy, Debug, PartialEq, Eq, Structural)]
pub struct ShardLayout {
    /// Facts and their cold sidecar.
    pub facts: usize,
    /// Entities, the by-name index and the per-entity fact lists.
    pub entities: usize,
    /// Both current edge mirrors and both history mirrors.
    pub edges: usize,
    /// The `recorded_at` index.
    pub temporal: usize,
    /// BM25 term handles and document lengths, plus the tag lists.
    pub postings: usize,
}

impl Default for ShardLayout {
    /// The floor: what an empty database is laid out with.
    fn default() -> (r: ShardLayout)
        ensures
            r == (ShardLayout {
                facts: MIN_SHARDS,
                entities: MIN_SHARDS,
                edges: MIN_SHARDS,
                temporal: MIN_SHARDS,
                postings: MIN_SHARDS,
            }),
    {
        ShardLayout {
            facts: MIN_SHARDS,
            entities: MIN_SHARDS,
            edges: MIN_SHARDS,
            temporal: MIN_SHARDS,
            postings: MIN_SHARDS,
        }
    }
}

/// The layout that a population calls for. Arenas that share a shard count are
/// sized by the largest of them.
pub open spec fn layout_for(p: Population) -> ShardLayout {
    ShardLayout {
        facts: shard_count(larger(payload_of(p.facts, 48), payload_of(p.facts, 20))) as usize,
        entities: shard_count(
            larger(
                larger(payload_of(p.entities, 24), payload_of(p.entities, 8)),
                payload_of(p.entities, 24),
            ),
        ) as usize,
        edges: shard_count(
            larger(payload_of(p.edges, 28), payload_of(p.edge_versions, 48)),
        ) as usize,
        temporal: shard_count(payload_of(p.facts, 12)) as usize,
        postings: shard_count(
            larger(
                larger(payload_of(p.terms, 24), payload_of(p.documents, 16)),
                payload_of(p.tags, 24),
            ),
        ) as usize,
    }
}

/// The layout a config records.
pub open spec fn layout_of(c: Config) -> ShardLayout {
    ShardLayout {
        facts: c.shards_facts,
        entities: c.shards_entities,
        edges: c.shards_edges,
        temporal: c.shards_temporal,
        postings: c.shards_postings,
    }
}

/// `a * b`, saturated.
pub open spec fn saturated(a: usize, b: usize) -> int {
    if a * b > usize::MAX {
        usize::MAX as int
    } else {
        a * b
    }
}

/// One group's move from `have` to `want` earns a rebuild.
pub open spec fn earns_rebuild(have: usize, want: usize) -> bool {
    want >= saturated(have, GROW_FACTOR) || have >= saturated(want, SHRINK_FACTOR)
}

/// The groups that a compacting pass rebuilds are far enough out. Excludes the
/// edges: a compaction does not touch the edge tables.
pub open spec fn compacted_stale(have: ShardLayout, want: ShardLayout) -> bool {
    earns_rebuild(have.facts, want.facts) || earns_rebuild(have.entities, want.entities)
        || earns_rebuild(have.temporal, want.temporal) || earns_rebuild(
        have.postings,
        want.postings,
    )
}

fn times(a: usize, b: usize) -> (r: usize)
    requires
        b <= 4,
    ensures
        r == saturated(a, b),
{
    assert(a * b <= usize::MAX * 4) by (nonlinear_arith)
        requires
            a <= usize::MAX,
            b <= 4,
    ;
    let p: u128 = a as u128 * b as u128;
    if p > usize::MAX as u128 {
        usize::MAX
    } else {
        p as usize
    }
}

impl ShardLayout {
    /// The layout `population` calls for.
    pub fn for_population(population: &Population) -> (r: ShardLayout)
        ensures
            r == layout_for(*population),
    {
        let p = *population;
        proof {
            every_count_is_usable(larger(payload_of(p.facts, 48), payload_of(p.facts, 20)));
        }
        ShardLayout {
            facts: shards_for(max_of(payload(p.facts, 48), payload(p.facts, 20))),
            entities: shards_for(
                max_of(
                    max_of(payload(p.entities, 24), payload(p.entities, 8)),
                    payload(p.entities, 24),
                ),
            ),
            edges: shards_for(max_of(payload(p.edges, 28), payload(p.edge_versions, 48))),
            temporal: shards_for(payload(p.facts, 12)),
            postings: shards_for(
                max_of(
                    max_of(payload(p.terms, 24), payload(p.documents, 16)),
                    payload(p.tags, 24),
                ),
            ),
        }
    }

    /// The layout a config records.
    pub fn of_config(cfg: &Config) -> (r: ShardLayout)
        ensures
            r == layout_of(*cfg),
    {
        ShardLayout {
            facts: cfg.shards_facts,
            entities: cfg.shards_entities,
            edges: cfg.shards_edges,
            temporal: cfg.shards_temporal,
            postings: cfg.shards_postings,
        }
    }

    /// Writes this layout into `cfg`.
    pub fn apply(&self, cfg: &mut Config)
        ensures
            *final(cfg) == (Config {
                shards_facts: self.facts,
                shards_entities: self.entities,
                shards_edges: self.edges,
                shards_temporal: self.temporal,
                shards_postings: self.postings,
                ..*old(cfg)
            }),
    {
        cfg.shards_facts = self.facts;
        cfg.shards_entities = self.entities;
        cfg.shards_edges = self.edges;
        cfg.shards_temporal = self.temporal;
        cfg.shards_postings = self.postings;
    }

    /// Whether one group's move from `have` to `want` earns a rebuild.
    ///
    /// Asymmetric on purpose. Growing protects against a cost that compounds,
    /// so one doubling is enough to act on. Shrinking only returns memory, so
    /// it waits for a fourfold overshoot.
    fn group_earns_rebuild(have: usize, want: usize) -> (r: bool)
        ensures
            r == earns_rebuild(have, want),
    {
        want >= times(have, GROW_FACTOR) || have >= times(want, SHRINK_FACTOR)
    }

    /// Whether the groups a compacting pass rebuilds are far enough out.
    pub fn compacted_groups_earn_rebuild(&self, target: &ShardLayout) -> (r: bool)
        ensures
            r == compacted_stale(*self, *target),
    {
        Self::group_earns_rebuild(self.facts, target.facts) || Self::group_earns_rebuild(
            self.entities,
            target.entities,
        ) || Self::group_earns_rebuild(self.temporal, target.temporal)
            || Self::group_earns_rebuild(self.postings, target.postings)
    }

    /// Whether the four edge tables are far enough out to be worth repacking.
    pub fn edges_earn_rebuild(&self, target: &ShardLayout) -> (r: bool)
        ensures
            r == earns_rebuild(self.edges, target.edges),
    {
        Self::group_earns_rebuild(self.edges, target.edges)
    }

    /// This layout with the groups a compaction rebuilt taken from `target`,
    /// and the edges taken from it only when they too were rebuilt.
    ///
    /// What a pass may claim in the config is exactly what it laid out.
    pub fn realized(&self, target: &ShardLayout, edges_rebuilt: bool) -> (r: ShardLayout)
        ensures
            r == (ShardLayout {
                edges: if edges_rebuilt { target.edges } else { self.edges },
                ..*target
            }),
    {
        ShardLayout {
            facts: target.facts,
            entities: target.entities,
            temporal: target.temporal,
            postings: target.postings,
            edges: if edges_rebuilt { target.edges } else { self.edges },
        }
    }
}

/// A rebuild settles: the layout it lands on is stable against the population
/// that caused it, so a database never rebuilds itself twice in a row.
pub proof fn a_rebuild_settles(p: Population)
    ensures
        !compacted_stale(layout_for(p), layout_for(p)),
        !earns_rebuild(layout_for(p).edges, layout_for(p).edges),
{
    every_count_is_usable(larger(payload_of(p.facts, 48), payload_of(p.facts, 20)));
    every_count_is_usable(
        larger(
            larger(payload_of(p.entities, 24), payload_of(p.entities, 8)),
            payload_of(p.entities, 24),
        ),
    );
    every_count_is_usable(larger(payload_of(p.edges, 28), payload_of(p.edge_versions, 48)));
    every_count_is_usable(payload_of(p.facts, 12));
    every_count_is_usable(
        larger(
            larger(payload_of(p.terms, 24), payload_of(p.documents, 16)),
            payload_of(p.tags, 24),
        ),
    );
}

/// Growing and shrinking never both apply to a count that is in use.
pub proof fn thresholds_do_not_overlap(have: usize, want: usize)
    requires
        1 <= have <= MAX_SHARDS,
        1 <= want <= MAX_SHARDS,
    ensures
        !(want >= saturated(have, GROW_FACTOR) && have >= saturated(want, SHRINK_FACTOR)),
{
}

} // verus!
