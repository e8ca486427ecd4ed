//! The shard layout rule.

use plugmem_core::config::{Config, MAX_SHARDS, MIN_SHARDS, SHARD_TARGET_BYTES};
use plugmem_core::memory::shards::{shards_for, Population, ShardLayout};

fn population(
    facts: u64,
    entities: u64,
    edges: u64,
    edge_versions: u64,
    terms: u64,
    tags: u64,
) -> Population {
    Population {
        facts,
        entities,
        edges,
        edge_versions,
        terms,
        tags,
        // Every live fact is one BM25 document.
        documents: facts,
    }
}

fn layout(p: Population) -> (usize, usize, usize, usize, usize) {
    let l = ShardLayout::for_population(&p);
    (l.facts, l.entities, l.edges, l.temporal, l.postings)
}

/// The rule, pinned. Change these numbers only on purpose: they decide how
/// much memory every database on every host occupies, and a silent shift
/// re-shards every database in the field on its next maintenance pass.
#[test]
fn the_layout_rule_is_a_fixed_table() {
    // Empty: nothing to hold, so every group sits on the floor.
    assert_eq!(layout(population(0, 0, 0, 0, 0, 0)), (4, 4, 4, 4, 4));
    // One fact. Same floor — a shard costs a page, and one page is plenty.
    assert_eq!(layout(population(1, 1, 0, 0, 3, 1)), (4, 4, 4, 4, 4));
    // A personal memory: thousands of facts, still entirely on the floor.
    // This is the case the whole change exists for.
    assert_eq!(
        layout(population(1_000, 50, 20, 25, 1_500, 5)),
        (4, 4, 4, 4, 4)
    );
    assert_eq!(
        layout(population(5_000, 200, 100, 120, 6_000, 12)),
        (4, 4, 4, 4, 4)
    );
    // 100k facts.
    assert_eq!(
        layout(population(100_000, 4_096, 30_000, 60_000, 34_000, 32)),
        (32, 4, 16, 8, 8)
    );
    // The 1M benchmark corpus, the point the target was calibrated on.
    assert_eq!(
        layout(population(910_051, 4_096, 287_972, 549_482, 34_604, 64)),
        (256, 4, 128, 64, 64)
    );
    // Ten million: the rule keeps pages-per-shard flat rather than letting
    // either the directory or the page floor run away.
    assert_eq!(
        layout(population(
            10_000_000, 40_000, 3_000_000, 6_000_000, 200_000, 128
        )),
        (2048, 4, 2048, 512, 1024)
    );
}

/// Products in this rule pass `u32::MAX` at populations a database can
/// really reach, so they are computed in `u64` and the clamp happens before
/// the one cast. On wasm32 a `usize` product would have wrapped here, and a
/// wrapped layout means a journal replays differently there than on the
/// host that wrote it.
#[test]
fn the_rule_does_not_depend_on_pointer_width() {
    // 100M facts x 48 B = 4.8 GB, past u32::MAX.
    let big = population(100_000_000, 1_000, 0, 0, 1_000_000, 256);
    assert!(u64::from(u32::MAX) < 100_000_000u64 * 48);
    assert_eq!(layout(big).0, 32768);
    // Saturating all the way up still lands on the ceiling, not on garbage.
    let absurd = population(u64::MAX, u64::MAX, u64::MAX, u64::MAX, u64::MAX, u64::MAX);
    assert_eq!(
        layout(absurd),
        (MAX_SHARDS, MAX_SHARDS, MAX_SHARDS, MAX_SHARDS, MAX_SHARDS)
    );
}

/// Every value the rule can produce is a legal shard count.
#[test]
fn every_produced_count_is_a_usable_shard_count() {
    let mut facts = 0u64;
    while facts < 40_000_000 {
        let l = ShardLayout::for_population(&population(facts, facts / 8, 0, facts, facts, 16));
        for n in [l.facts, l.entities, l.edges, l.temporal, l.postings] {
            assert!(n.is_power_of_two(), "{n} is not a power of two");
            assert!((MIN_SHARDS..=MAX_SHARDS).contains(&n), "{n} out of range");
        }
        facts = (facts + 1) * 3 / 2;
    }
}

fn at(n: usize) -> ShardLayout {
    ShardLayout {
        facts: n,
        entities: n,
        edges: n,
        temporal: n,
        postings: n,
    }
}

#[test]
fn growth_is_eager_and_shrinking_is_lazy() {
    // Unchanged: nothing to do.
    assert!(!at(64).compacted_groups_earn_rebuild(&at(64)));
    // One doubling up is acted on; anything short of it is not.
    assert!(at(64).compacted_groups_earn_rebuild(&at(128)));
    // Shrinking waits for four times over, so the two thresholds leave a
    // band in which neither fires and a database near a boundary rests.
    assert!(!at(64).compacted_groups_earn_rebuild(&at(32)));
    assert!(at(64).compacted_groups_earn_rebuild(&at(16)));
    // And the band means a rebuild cannot bounce back: having acted, the
    // new count is itself stable against the population that caused it.
    assert!(!at(16).compacted_groups_earn_rebuild(&at(16)));
    assert!(!at(128).compacted_groups_earn_rebuild(&at(128)));
    // One group out of step is enough.
    let mut skewed = at(64);
    skewed.postings = 8;
    assert!(at(64).compacted_groups_earn_rebuild(&skewed));
}

/// The edges are asked about separately because only a repack rebuilds
/// them. Were they folded into the compaction question, a database whose
/// edges alone were out of layout would rebuild everything else on every
/// pass, never fix the edges, and be asked again forever.
#[test]
fn the_edge_arenas_are_judged_on_their_own() {
    let mut edges_only = at(64);
    edges_only.edges = 512;
    assert!(!at(64).compacted_groups_earn_rebuild(&edges_only));
    assert!(at(64).edges_earn_rebuild(&edges_only));
}

/// A pass may only claim the layout it actually built.
#[test]
fn a_pass_claims_only_what_it_laid_out() {
    let stored = at(64);
    let target = at(512);
    // Compaction alone: four groups move, the untouched edges do not.
    let without = stored.realized(&target, false);
    assert_eq!(
        (
            without.facts,
            without.entities,
            without.temporal,
            without.postings
        ),
        (512, 512, 512, 512)
    );
    assert_eq!(without.edges, stored.edges);
    // With a repack, the edges move too.
    assert_eq!(stored.realized(&target, true), target);
}

/// The floor and the ceiling are both reachable, and neither is crossed.
#[test]
fn the_clamp_holds_at_both_ends() {
    assert_eq!(shards_for(0), MIN_SHARDS);
    assert_eq!(shards_for(1), MIN_SHARDS);
    assert_eq!(
        shards_for(SHARD_TARGET_BYTES as u64 * MIN_SHARDS as u64),
        MIN_SHARDS
    );
    assert_eq!(shards_for(u64::MAX), MAX_SHARDS);
    // Just past the floor the rule starts following the data.
    assert_eq!(
        shards_for(SHARD_TARGET_BYTES as u64 * MIN_SHARDS as u64 + 1),
        MIN_SHARDS * 2
    );
}

/// A layout written into a configuration is the one read from it.
#[test]
fn a_layout_survives_the_configuration() {
    let mut cfg = Config::default();
    let layout = ShardLayout::for_population(&population(
        910_051, 4_096, 287_972, 549_482, 34_604, 64,
    ));
    layout.apply(&mut cfg);
    assert_eq!(ShardLayout::of_config(&cfg), layout);
}
