//! The navigable graph: geometry, linking, search, remapping and validation.

use plugmem_core::error::Error;
use plugmem_core::float::F32Bits;
use plugmem_core::id::{FactId, NONE_U32};
use plugmem_core::index::beam::{plan_insertion, Beam, LevelStep, Selection};
use plugmem_core::index::hnsw::HnswGraph;
use plugmem_core::index::insertion::{Insertion, Query};
use plugmem_core::index::rank::{rank_top, Scored};
use plugmem_core::index::vecpool::{dot_i8, VecPool};

/// Deterministic generator of numbers in `[-1, 1)`.
struct Lcg(u64);
impl Lcg {
    fn next(&mut self) -> f32 {
        self.0 = self
            .0
            .wrapping_mul(6_364_136_223_846_793_005)
            .wrapping_add(1_442_695_040_888_963_407);
        ((self.0 >> 40) as f32 / (1u64 << 24) as f32) * 2.0 - 1.0
    }
}

fn push(pool: &mut VecPool, fact: u32, v: &[f32]) {
    let norm = v.iter().map(|x| x * x).sum::<f32>().sqrt();
    let inv = 1.0 / norm;
    let max_abs = v.iter().fold(0.0f32, |m, &x| m.max((x * inv).abs()));
    let scale = max_abs / 127.0;
    let q: Vec<u8> = v
        .iter()
        .map(|&x| ((x * inv) / scale).round().clamp(-127.0, 127.0) as i32 as i8 as u8)
        .collect();
    pool.push(FactId(fact), F32Bits(scale.to_bits()), &q).unwrap();
}

/// A pool of `n` vectors in `clusters` clusters on the sphere.
fn cluster_pool(n: usize, dim: usize, clusters: usize, seed: u64) -> VecPool {
    let mut rng = Lcg(seed);
    let centers: Vec<Vec<f32>> = (0..clusters)
        .map(|_| (0..dim).map(|_| rng.next()).collect())
        .collect();
    let mut pool = VecPool::new(dim, usize::MAX);
    for i in 0..n {
        let c = &centers[i % clusters];
        let v: Vec<f32> = c.iter().map(|&x| x + rng.next() * 0.3).collect();
        push(&mut pool, i as u32, &v);
    }
    pool
}

fn sim_q(pool: &VecPool, q: (f32, &[u8]), slot: u32) -> F32Bits {
    let (scale, bytes) = pool.quant(slot as usize);
    F32Bits((q.0 * f32::from_bits(scale.0) * dot_i8(q.1, bytes) as f32).to_bits())
}

fn sim(pool: &VecPool, a: u32, b: u32) -> F32Bits {
    let (scale, bytes) = pool.quant(a as usize);
    sim_q(pool, (f32::from_bits(scale.0), bytes), b)
}

fn insert_one(g: &mut HnswGraph, pool: &VecPool, slot: u32, ef: usize) {
    let level = g.level_of(pool.slot_fact(slot as usize));
    let top = match g.entry() {
        NONE_U32 => level,
        ep => g.level_of(pool.slot_fact(ep as usize)),
    };
    let mut insertion = Insertion::begin(g, slot, level, top, ef);
    while let Some((of, to)) = insertion.ask() {
        let sims: Vec<F32Bits> = to.iter().map(|&other| sim(pool, of, other)).collect();
        insertion.answer(g, &sims).unwrap();
    }
}

fn insert_bulk(g: &mut HnswGraph, pool: &VecPool, upto: u32, ef: usize) {
    g.reserve(upto);
    for slot in g.indexed()..upto {
        insert_one(g, pool, slot, ef);
    }
}

/// Builds a graph over the whole pool.
fn build(pool: &VecPool, m: usize, m0: usize) -> HnswGraph {
    let mut g = HnswGraph::new(m, m0, usize::MAX);
    insert_bulk(&mut g, pool, pool.len() as u32, 200);
    g
}

fn search_quantized(g: &HnswGraph, pool: &VecPool, q: (f32, &[u8]), ef: usize) -> Vec<Scored> {
    let top = match g.entry() {
        NONE_U32 => 0,
        ep => g.level_of(pool.slot_fact(ep as usize)),
    };
    let mut walk = Query::begin(g, top, ef);
    while let Some(names) = walk.ask() {
        let sims: Vec<F32Bits> = names.iter().map(|&slot| sim_q(pool, q, slot)).collect();
        walk.answer(g, &sims).unwrap();
    }
    walk.results()
}

/// Brute-force top-k by exact quantized cosine.
fn brute_force(pool: &VecPool, q: u32, k: usize) -> Vec<u32> {
    let all: Vec<Scored> = (0..pool.len() as u32).map(|i| (sim(pool, q, i), i)).collect();
    rank_top(&all, k).iter().map(|x| x.1).collect()
}

/// Levels follow the geometric distribution: about one in m of the nodes
/// reach level 1, and the counts are exact across runs.
#[test]
fn levels_are_geometric_and_pure() {
    let g = HnswGraph::new(16, 32, usize::MAX);
    let n = 100_000u32;
    let mut per_level = [0usize; 4];
    for fact in 0..n {
        let l = g.level_of(fact).min(3);
        per_level[l] += 1;
    }
    let at_least_1: usize = per_level[1..].iter().sum();
    assert!(
        (4_000..9_000).contains(&at_least_1),
        "level>=1 count {at_least_1} is out of band"
    );
    let at_least_2: usize = per_level[2..].iter().sum();
    assert!(
        (150..800).contains(&at_least_2),
        "level>=2 count {at_least_2} is out of band"
    );
    assert_eq!(g.level_of(42), g.level_of(42));
}

/// Graph search agrees with brute force: recall@10 of at least 0.9 at ef 64.
#[test]
fn recall_against_brute_force() {
    let dim = 32;
    let pool = cluster_pool(2_000, dim, 64, 0xA11CE);
    let g = build(&pool, 16, 32);
    let mut hits = 0usize;
    let mut total = 0usize;
    for q in (0..2_000u32).step_by(97) {
        let truth = brute_force(&pool, q, 10);
        let (scale, qb) = pool.quant(q as usize);
        let out = search_quantized(&g, &pool, (f32::from_bits(scale.0), qb), 64);
        let got: Vec<u32> = out.iter().take(10).map(|x| x.1).collect();
        hits += truth.iter().filter(|t| got.contains(t)).count();
        total += truth.len();
    }
    let recall = hits as f64 / total as f64;
    assert!(recall >= 0.9, "recall@10 {recall} below the 0.9 gate");
}

/// Two builds over the same pool are byte-identical.
#[test]
fn build_is_deterministic() {
    let pool = cluster_pool(600, 24, 16, 7);
    let a = build(&pool, 8, 16);
    let b = build(&pool, 8, 16);
    assert_eq!(a.dump_level0(), b.dump_level0());
    assert_eq!(a.entry(), b.entry());
    assert_eq!(a.indexed(), b.indexed());
    assert_eq!(a.dump_meta(), b.dump_meta());
    assert_eq!(a.dump_upper(), b.dump_upper());
}

/// Degree caps hold everywhere.
#[test]
fn degree_caps_hold() {
    let pool = cluster_pool(800, 16, 8, 3);
    let g = build(&pool, 6, 12);
    for slot in 0..g.indexed() {
        let nbrs = g.neighbors(slot, 0);
        assert!(nbrs.len() <= 12);
        // No self-links, no duplicates, all in range.
        assert!(!nbrs.contains(&slot));
        let mut sorted = nbrs.clone();
        sorted.sort_unstable();
        sorted.dedup();
        assert_eq!(sorted.len(), nbrs.len());
        assert!(nbrs.iter().all(|&n| n < g.indexed()));
        for level in 1..=g.level_of(pool.slot_fact(slot as usize)) {
            let nbrs = g.neighbors(slot, level);
            assert!(nbrs.len() <= 6, "level {level} degree overflow");
        }
    }
}

/// Remap carries the graph across a compaction: dead nodes (the entry
/// included) drop out, survivors stay searchable, and the result passes
/// validation.
#[test]
fn remap_survives_a_dead_entry() {
    let pool = cluster_pool(300, 16, 8, 21);
    let g = build(&pool, 6, 12);
    let entry = g.entry();
    // The entry and every 7th slot die; survivors keep their relative order.
    let mut map = vec![NONE_U32; 300];
    let mut new_pool = VecPool::new(16, usize::MAX);
    let mut next = 0u32;
    for old in 0..300u32 {
        if old == entry || old % 7 == 0 {
            continue;
        }
        map[old as usize] = next;
        new_pool.copy_slot(&pool, old);
        next += 1;
    }
    let remapped = g.remapped(&map, &new_pool, usize::MAX).unwrap();
    assert_eq!(remapped.indexed(), next);
    assert_ne!(remapped.entry(), NONE_U32, "a survivor takes the entry");
    remapped.validate(&new_pool).unwrap();
    // A surviving vector still finds itself.
    let probe_old = 1u32;
    let probe_old = if probe_old == entry { 2 } else { probe_old };
    let probe_new = map[probe_old as usize];
    let (scale, qb) = new_pool.quant(probe_new as usize);
    let out = search_quantized(&remapped, &new_pool, (f32::from_bits(scale.0), qb), 32);
    assert_eq!(out[0].1, probe_new);
}

/// Validation rejects structural lies: an out-of-range entry, a non-canonical
/// level-0 padding, a neighbor past the indexed ones, and state on an
/// allegedly empty graph.
#[test]
fn validate_rejects_malformed_graphs() {
    let pool = cluster_pool(50, 8, 4, 5);
    let g = build(&pool, 4, 8);
    let dump = (g.dump_meta(), g.dump_level0(), g.dump_upper());
    let load = |meta: &[u8], level0: &[u8]| {
        HnswGraph::from_parts(
            4,
            8,
            usize::MAX,
            meta,
            level0,
            &dump.2 .0,
            &dump.2 .1,
            &dump.2 .2,
            &dump.2 .3,
        )
    };
    // The clean image round-trips and validates.
    load(&dump.0, &dump.1).unwrap().validate(&pool).unwrap();
    // Entry out of range.
    let mut meta = dump.0.clone();
    meta[0..4].copy_from_slice(&999u32.to_le_bytes());
    assert!(load(&meta, &dump.1).unwrap().validate(&pool).is_err());
    // A neighbor past the indexed ones.
    let mut level0 = dump.1.clone();
    level0[0..4].copy_from_slice(&500u32.to_le_bytes());
    assert!(load(&dump.0, &level0).unwrap().validate(&pool).is_err());
    // Non-canonical padding: the sentinel followed by a live neighbor.
    let mut level0 = dump.1.clone();
    level0[0..4].copy_from_slice(&NONE_U32.to_le_bytes());
    level0[4..8].copy_from_slice(&1u32.to_le_bytes());
    assert!(load(&dump.0, &level0).unwrap().validate(&pool).is_err());
    // A wrong level-0 length is rejected at framing already.
    assert!(load(&dump.0, &dump.1[..dump.1.len() - 4]).is_err());
    // An "empty" graph carrying an entry is corrupt.
    let mut meta = dump.0.clone();
    meta[4..8].copy_from_slice(&0u32.to_le_bytes());
    assert!(load(&meta, &[]).unwrap().validate(&pool).is_err());
}

/// An empty graph answers empty; a single node answers itself.
#[test]
fn tiny_graphs() {
    let pool = cluster_pool(1, 8, 1, 1);
    let mut g = HnswGraph::new(4, 8, usize::MAX);
    let (scale, qb) = pool.quant(0);
    let q = (f32::from_bits(scale.0), qb);
    let out = search_quantized(&g, &pool, q, 8);
    assert!(out.is_empty(), "an empty graph must answer empty");
    insert_bulk(&mut g, &pool, 1, 50);
    let out = search_quantized(&g, &pool, q, 8);
    assert_eq!(out.len(), 1);
    assert_eq!(out[0].1, 0);
}

fn bits(x: f32) -> F32Bits {
    F32Bits(x.to_bits())
}

#[test]
fn an_insertion_descends_and_then_links() {
    let steps = plan_insertion(1, 3);
    let want = vec![
        LevelStep { level: 3, link: false },
        LevelStep { level: 2, link: false },
        LevelStep { level: 1, link: true },
        LevelStep { level: 0, link: true },
    ];
    assert_eq!(steps, want);
    // A node above the top level links from the top down.
    let steps = plan_insertion(2, 0);
    assert_eq!(steps, vec![LevelStep { level: 0, link: true }]);
}

#[test]
fn a_selection_spreads_and_tops_up() {
    let mut s = Selection::new();
    s.consider(2, (bits(0.9), 1), &vec![]);
    // Closer to 1 than to the node: passed over.
    s.consider(2, (bits(0.8), 2), &vec![bits(0.95)]);
    assert_eq!(s.kept(), &vec![1]);
    s.consider(2, (bits(0.7), 3), &vec![bits(0.1)]);
    assert_eq!(s.kept(), &vec![1, 3]);
    assert_eq!(s.chosen(2), vec![1, 3]);
    let mut s = Selection::new();
    s.consider(3, (bits(0.9), 1), &vec![]);
    s.consider(3, (bits(0.8), 2), &vec![bits(0.95)]);
    assert_eq!(s.chosen(3), vec![1, 2]);
}

#[test]
fn a_beam_keeps_its_best() {
    let mut b = Beam::start((bits(0.1), 4));
    b.offer(2, (bits(0.5), 7));
    b.offer(2, (bits(0.3), 1));
    b.offer(2, (bits(0.2), 9));
    assert_eq!(b.results(), &vec![(bits(0.5), 7), (bits(0.3), 1)]);
}

#[test]
fn numbers_compare_as_numbers() {
    assert!(bits(1.0).is_above(bits(-1.0)));
    assert!(!bits(0.0).is_above(bits(-0.0)));
    assert!(!bits(f32::NAN).is_above(bits(0.0)));
    assert!(!bits(1.0).is_above(bits(f32::NAN)));
    assert!(bits(-1.0).is_above(bits(-2.0)));
}

/// One beam search, its loop written out.
fn search_layer(
    g: &HnswGraph,
    pool: &VecPool,
    q: (f32, &[u8]),
    level: usize,
    ep: u32,
    ef: usize,
) -> Vec<Scored> {
    let mut beam = Beam::start((sim_q(pool, q, ep), ep));
    while let Some(names) = beam.step(g, level, ef) {
        for slot in names {
            beam.offer(ef, (sim_q(pool, q, slot), slot));
        }
    }
    beam.results().clone()
}

fn select(pool: &VecPool, found: &[Scored], cap: usize) -> Vec<u32> {
    let mut chosen = Selection::new();
    for &(score, slot) in found {
        let sims: Vec<F32Bits> = chosen.kept().iter().map(|&k| sim(pool, slot, k)).collect();
        chosen.consider(cap, (score, slot), &sims);
    }
    chosen.chosen(cap)
}

fn insert_one_by_hand(g: &mut HnswGraph, pool: &VecPool, slot: u32, ef: usize) {
    let level = g.level_of(pool.slot_fact(slot as usize));
    if g.entry() == NONE_U32 {
        g.admit_node(slot, level, level);
        return;
    }
    let top = g.level_of(pool.slot_fact(g.entry() as usize));
    let (scale, bytes) = pool.quant(slot as usize);
    let q = (f32::from_bits(scale.0), bytes);
    let mut ep = g.entry();
    for step in plan_insertion(level, top) {
        let width = if step.link { ef } else { 1 };
        let found = search_layer(g, pool, q, step.level, ep, width);
        ep = found[0].1;
        if !step.link {
            continue;
        }
        let cap = g.cap(step.level);
        let sel = select(pool, &found, cap);
        g.write_list(slot, step.level, &sel).unwrap();
        for &nb in &sel {
            if !g.add_link(nb, slot, step.level).unwrap() {
                let mut around = g.neighbors(nb, step.level);
                around.push(slot);
                let scored: Vec<Scored> = around.iter().map(|&n| (sim(pool, nb, n), n)).collect();
                let all = rank_top(&scored, scored.len());
                let kept = select(pool, &all, cap);
                g.write_list(nb, step.level, &kept).unwrap();
            }
        }
    }
    g.admit_node(slot, level, top);
}

fn insert_bulk_by_hand(g: &mut HnswGraph, pool: &VecPool, upto: u32, ef: usize) {
    g.reserve(upto);
    for slot in g.indexed()..upto {
        insert_one_by_hand(g, pool, slot, ef);
    }
}

fn search_by_hand(g: &HnswGraph, pool: &VecPool, q: (f32, &[u8]), ef: usize) -> Vec<Scored> {
    if g.entry() == NONE_U32 {
        return Vec::new();
    }
    let mut ep = g.entry();
    let top = g.level_of(pool.slot_fact(ep as usize));
    for level in (1..=top).rev() {
        ep = search_layer(g, pool, q, level, ep, 1)[0].1;
    }
    search_layer(g, pool, q, 0, ep, ef.max(1))
}

/// Asking and answering links and searches as the loops written out do.
#[test]
fn asking_and_answering_walks_as_the_loops_do() {
    let pool = cluster_pool(600, 16, 8, 11);
    let g = build(&pool, 4, 8);
    let mut by_hand = HnswGraph::new(4, 8, usize::MAX);
    insert_bulk_by_hand(&mut by_hand, &pool, pool.len() as u32, 200);
    assert_eq!(g.entry(), by_hand.entry());
    assert_eq!(g.indexed(), 600);
    assert_eq!(g.dump_level0(), by_hand.dump_level0());
    let (a, b) = (g.dump_upper(), by_hand.dump_upper());
    assert_eq!((a.0, a.1, a.2, a.3), (b.0, b.1, b.2, b.3));
    for probe in [0u32, 77, 401] {
        let (scale, bytes) = pool.quant(probe as usize);
        let q = (f32::from_bits(scale.0), bytes);
        let found = search_quantized(&g, &pool, q, 24);
        assert_eq!(found, search_by_hand(&g, &pool, q, 24));
        assert_eq!(found[0].1, probe);
    }
}

/// The first node is counted at once; the second is scored against it.
#[test]
fn the_first_node_asks_nothing() {
    let pool = cluster_pool(2, 4, 1, 3);
    let mut g = HnswGraph::new(2, 4, usize::MAX);
    g.reserve(2);
    let first = Insertion::begin(&mut g, 0, 0, 0, 10);
    assert!(first.ask().is_none());
    assert_eq!((g.entry(), g.indexed()), (0, 1));
    let mut second = Insertion::begin(&mut g, 1, 0, 0, 10);
    assert_eq!(second.ask(), Some((1, &vec![0])));
    let score = sim(&pool, 1, 0);
    second.answer(&mut g, &vec![score]).unwrap();
    assert_eq!(second.ask(), Some((1, &vec![])));
    second.answer(&mut g, &Vec::new()).unwrap();
    assert_eq!(second.ask(), Some((0, &vec![])));
    second.answer(&mut g, &Vec::new()).unwrap();
    assert!(second.ask().is_none());
    assert_eq!(g.indexed(), 2);
    assert_eq!((g.neighbors(0, 0), g.neighbors(1, 0)), (vec![1], vec![0]));
}

/// A node that the graph has no block for ends the walk with an error.
#[test]
fn a_node_without_a_block_is_an_error() {
    let mut g = HnswGraph::new(2, 4, usize::MAX);
    g.reserve(1);
    let first = Insertion::begin(&mut g, 9, 0, 0, 10);
    assert!(first.ask().is_none());
    let mut walk = Query::begin(&g, 0, 4);
    let err = walk.answer(&g, &vec![F32Bits(0)]).unwrap_err();
    assert_eq!(err, Error::Corrupt("graph node out of range"));
    let empty = HnswGraph::new(2, 4, usize::MAX);
    let walk = Query::begin(&empty, 0, 4);
    assert!(walk.ask().is_none());
    assert!(walk.results().is_empty());
}
