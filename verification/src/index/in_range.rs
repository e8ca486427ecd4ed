//! Walks of the graph stay inside it.
//!
//! A graph whose every neighbor is a slot with a block never sends a query or
//! an insertion astray, and an insertion leaves such a graph behind.

use crate::float::F32Bits;
use crate::id::NONE_U32;
use crate::index::beam;
use crate::index::beam::{BeamState, SelectionState};
use crate::index::hnsw;
use crate::index::hnsw::HnswState;
use crate::index::insertion;
use crate::index::insertion::{InsertState, Phase, QueryState};
use crate::index::rank;
use crate::index::rank::Scored;
use crate::model::UpperSlot;
use crate::table;
use vstd::prelude::*;

verus! {

/// Slots below a bound.
pub open spec fn below(ids: Seq<u32>, n: int) -> bool {
    forall|i: int| 0 <= i < ids.len() ==> (#[trigger] ids[i]) < n
}

/// Scored slots below a bound.
pub open spec fn scored_below(xs: Seq<Scored>, n: int) -> bool {
    forall|i: int| 0 <= i < xs.len() ==> (#[trigger] xs[i]).1 < n
}

/// A graph with a block for each of `n` slots that names no other slot.
pub open spec fn ranged(g: HnswState, n: int) -> bool {
    &&& 0 <= n <= u32::MAX
    &&& 1 <= g.m0
    &&& n * g.m0 <= g.level0.len()
    &&& table::ascending(g.upper)
    &&& g.lists.len() == g.upper.len()
    &&& forall|i: int| 0 <= i < g.level0.len() ==> (#[trigger] g.level0[i]) == NONE_U32
        || g.level0[i] < n
    &&& forall|i: int| 0 <= i < g.lists.len() ==> below(#[trigger] g.lists[i], n)
}

/// A beam whose nodes are below a bound.
pub open spec fn beam_within(b: BeamState, n: int) -> bool {
    scored_below(b.cand, n) && scored_below(b.found, n)
}

/// A query whose nodes are below a bound, until it is over.
pub open spec fn query_within(q: QueryState, n: int) -> bool {
    q.phase != Phase::Done ==> {
        &&& q.ep < n
        &&& 0 <= q.level
        &&& beam_within(q.beam, n)
        &&& below(q.names, n)
    }
}

/// An insertion whose nodes are below a bound, until it is over.
pub open spec fn within(s: InsertState, n: int) -> bool {
    s.phase != Phase::Done ==> {
        &&& s.slot < n
        &&& s.ep < n
        &&& s.node < n
        &&& beam_within(s.beam, n)
        &&& below(s.names, n)
        &&& scored_below(s.pool, n)
        &&& below(s.pick.kept, n)
        &&& below(s.pick.pruned, n)
        &&& below(s.links, n)
        &&& s.steps.len() > 0
        &&& forall|i: int|
            0 <= i < s.steps.len() ==> (#[trigger] s.steps[i]).level <= hnsw::MAX_LEVEL
    }
}

proof fn lemma_held(g: HnswState, n: int, level: int, node: u32)
    requires
        ranged(g, n),
        node < n,
    ensures
        !insertion::astray(g, level, node),
{
    let w = g.m0;
    assert((node + 1) * w <= n * w) by (nonlinear_arith)
        requires
            node + 1 <= n,
            1 <= w,
    ;
}

proof fn lemma_neighbors(g: HnswState, n: int, slot: u32, level: int)
    requires
        ranged(g, n),
        slot < n,
    ensures
        below(hnsw::neighbors(g, slot, level), n),
{
    if level == 0 {
        let b = hnsw::block(g, slot as int);
        lemma_held(g, n, 0, slot);
        hnsw::lemma_block(g, slot as int);
        hnsw::lemma_until_none(b);
        assert forall|k: int| 0 <= k < hnsw::until_none(b).len() implies (
        #[trigger] hnsw::until_none(b)[k]) < n by {
            assert(b[k] == g.level0[slot * g.m0 + k]);
        }
    } else if table::has_key(g.upper, hnsw::list_key(slot, level)) {
        table::lemma_rank(g.upper, hnsw::list_key(slot, level));
    }
}

proof fn lemma_written(
    g: HnswState,
    n: int,
    max_bytes: int,
    slot: u32,
    level: int,
    sel: Seq<u32>,
)
    requires
        ranged(g, n),
        slot < n,
        below(sel, n),
        0 <= level <= hnsw::MAX_LEVEL,
    ensures
        hnsw::list_written(g, max_bytes, slot, level, sel) matches Ok(h) ==> ranged(h, n),
{
    if let Ok(h) = hnsw::list_written(g, max_bytes, slot, level, sel) {
        let key = hnsw::list_key(slot, level);
        let at = table::rank(g.upper, key);
        let row = UpperSlot { slot, level: level as u32, count: sel.len() as u32 };
        if level == 0 {
            hnsw::lemma_block(g, slot as int);
            assert forall|i: int| 0 <= i < h.level0.len() implies (#[trigger] h.level0[i])
                == NONE_U32 || h.level0[i] < n by {
                if slot * g.m0 <= i < (slot + 1) * g.m0 {
                    let k = i - slot * g.m0;
                    assert(h.level0[i] == hnsw::padded(sel, g.m0)[k]);
                    assert(k < sel.len() ==> sel[k] < n);
                } else {
                    assert(h.level0[i] == g.level0[i]);
                }
            }
        } else if table::has_key(g.upper, key) {
            table::lemma_rank(g.upper, key);
            table::lemma_replaced(g.upper, row);
            assert forall|i: int| 0 <= i < h.lists.len() implies below(#[trigger] h.lists[i], n) by {
                if i != at {
                    assert(h.lists[i] == g.lists[i]);
                }
            }
        } else {
            table::lemma_rank(g.upper, key);
            table::lemma_with_row(g.upper, row);
            assert forall|i: int| 0 <= i < h.lists.len() implies below(#[trigger] h.lists[i], n) by {
                if i < at {
                    assert(h.lists[i] == g.lists[i]);
                } else if i > at {
                    assert(h.lists[i] == g.lists[i - 1]);
                }
            }
        }
    }
}

proof fn lemma_placed(xs: Seq<Scored>, p: Scored, n: int)
    requires
        scored_below(xs, n),
        p.1 < n,
    ensures
        scored_below(rank::placed(xs, p), n),
    decreases xs.len(),
{
    if xs.len() > 0 && rank::before(p, xs.last()) {
        lemma_placed(xs.drop_last(), p, n);
    }
}

proof fn lemma_offered(b: BeamState, ef: int, items: Seq<Scored>, n: int)
    requires
        beam_within(b, n),
        scored_below(items, n),
    ensures
        beam_within(beam::all_offered(b, ef, items), n),
    decreases items.len(),
{
    if items.len() > 0 {
        lemma_offered(b, ef, items.drop_last(), n);
        let c = beam::all_offered(b, ef, items.drop_last());
        lemma_placed(c.cand, items.last(), n);
        lemma_placed(c.found, items.last(), n);
    }
}

proof fn lemma_fresh(seen: Set<u32>, nodes: Seq<u32>, n: int)
    requires
        below(nodes, n),
    ensures
        below(beam::fresh(seen, nodes), n),
    decreases nodes.len(),
{
    if nodes.len() > 0 {
        lemma_fresh(seen, nodes.drop_last(), n);
    }
}

proof fn lemma_top(xs: Seq<Scored>, k: int, n: int)
    requires
        scored_below(xs, n),
        0 <= k,
    ensures
        scored_below(rank::top(xs, k), n),
{
    assert forall|i: int| 0 <= i < rank::ranked(xs).len() implies (#[trigger] rank::ranked(
        xs,
    )[i]).1 < n by {
        rank::ranked_items_are_given(xs, i);
    }
}

proof fn lemma_topped_up(s: SelectionState, cap: int, n: int)
    requires
        below(s.kept, n),
        below(s.pruned, n),
    ensures
        below(beam::topped_up(s, cap), n),
{
    let out = beam::topped_up(s, cap);
    assert forall|i: int| 0 <= i < out.len() implies (#[trigger] out[i]) < n by {
        if i < s.kept.len() {
            assert(out[i] == s.kept[i]);
        } else {
            assert(out[i] == s.pruned[i - s.kept.len()]);
        }
    }
}

/// What a turn leaves: no node was astray, and all is in range again.
pub open spec fn stays(turn: insertion::Turn, n: int) -> bool {
    &&& turn.2 != Err::<(), _>(insertion::stray_error())
    &&& turn.2 is Ok ==> within(turn.0, n) && ranged(turn.1, n)
}

proof fn lemma_descended(s: InsertState, g: HnswState, n: int)
    requires
        s.phase != Phase::Done,
        within(s, n),
        ranged(g, n),
    ensures
        stays(insertion::descended(s, g), n),
{
    let steps = s.steps.skip(1);
    assert forall|i: int| 0 <= i < steps.len() implies (#[trigger] steps[i]).level
        <= hnsw::MAX_LEVEL by {
        assert(steps[i] == s.steps[i + 1]);
    }
}

proof fn lemma_linked_back(s: InsertState, g: HnswState, max_bytes: int, n: int)
    requires
        s.phase != Phase::Done,
        within(s, n),
        ranged(g, n),
    ensures
        stays(insertion::linked_back(s, g, max_bytes), n),
    decreases s.links.len(),
{
    if s.links.len() == 0 {
        lemma_descended(s, g, n);
    } else {
        let level = insertion::here(s);
        let nb = s.links[0];
        let rest = s.links.skip(1);
        let t = InsertState { links: rest, ..s };
        lemma_held(g, n, level, nb);
        lemma_neighbors(g, n, nb, level);
        assert(below(rest, n)) by {
            assert forall|i: int| 0 <= i < rest.len() implies (#[trigger] rest[i]) < n by {
                assert(rest[i] == s.links[i + 1]);
            }
        }
        let more = hnsw::neighbors(g, nb, level).push(s.slot);
        assert(below(more, n));
        lemma_written(g, n, max_bytes, nb, level, more);
        if let Ok(Some(h)) = hnsw::link_added(g, max_bytes, nb, s.slot, level) {
            lemma_linked_back(t, h, max_bytes, n);
        }
    }
}

proof fn lemma_choosing(s: InsertState, g: HnswState, max_bytes: int, n: int)
    requires
        s.phase != Phase::Done,
        within(s, n),
        ranged(g, n),
    ensures
        stays(insertion::choosing(s, g, max_bytes), n),
{
    if s.pool.len() == 0 {
        let level = insertion::here(s);
        let sel = beam::topped_up(s.pick, hnsw::degree_cap(g, level));
        lemma_topped_up(s.pick, hnsw::degree_cap(g, level), n);
        lemma_held(g, n, level, s.node);
        lemma_written(g, n, max_bytes, s.node, level, sel);
        if let Ok(h) = hnsw::list_written(g, max_bytes, s.node, level, sel) {
            let links = if s.own {
                sel
            } else {
                s.links
            };
            lemma_linked_back(InsertState { links, ..s }, h, max_bytes, n);
        }
    }
}

proof fn lemma_spread(s: InsertState, g: HnswState, max_bytes: int, n: int)
    requires
        s.phase != Phase::Done,
        within(s, n),
        ranged(g, n),
    ensures
        stays(insertion::spread(s, g, max_bytes), n),
{
    let level = insertion::here(s);
    if beam::settled(s.beam, insertion::width(s)) {
        let t = InsertState { ep: insertion::carried_entry(s.beam, s.ep), ..s };
        if !s.steps[0].link {
            lemma_descended(t, g, n);
        } else {
            lemma_choosing(
                InsertState {
                    node: s.slot,
                    own: true,
                    pool: s.beam.found,
                    pick: insertion::nothing_picked(),
                    ..t
                },
                g,
                max_bytes,
                n,
            );
        }
    } else {
        let node = s.beam.cand[0].1;
        lemma_held(g, n, level, node);
        lemma_neighbors(g, n, node, level);
        lemma_fresh(s.beam.seen, hnsw::neighbors(g, node, level), n);
        lemma_rest(s.beam.cand, n);
    }
}

proof fn lemma_rest(xs: Seq<Scored>, n: int)
    requires
        scored_below(xs, n),
        xs.len() > 0,
    ensures
        scored_below(xs.skip(1), n),
{
    assert forall|i: int| 0 <= i < xs.skip(1).len() implies (#[trigger] xs.skip(1)[i]).1 < n by {
        assert(xs.skip(1)[i] == xs[i + 1]);
    }
}

/// An insertion into a graph that names only slots it has blocks for asks only
/// for such slots, is never led astray, and leaves such a graph.
pub proof fn an_insertion_stays_in_range(
    s: InsertState,
    g: HnswState,
    max_bytes: int,
    sims: Seq<F32Bits>,
    n: int,
)
    requires
        insertion::insertion_ok(s, g),
        within(s, n),
        ranged(g, n),
        insertion::asked(s) matches Some((_, to)) ==> sims.len() == to.len(),
    ensures
        stays(insertion::answered(s, g, max_bytes, sims), n),
        insertion::asked(s) matches Some((of, to)) ==> of < n && below(to, n),
{
    let items = beam::scored(s.names, sims);
    match s.phase {
        Phase::Enter => {
            lemma_spread(
                InsertState { beam: beam::started((sims[0], s.ep)), ..s },
                g,
                max_bytes,
                n,
            );
        },
        Phase::Spread => {
            lemma_offered(s.beam, insertion::width(s), items, n);
            lemma_spread(
                InsertState {
                    beam: beam::all_offered(s.beam, insertion::width(s), items),
                    ..s
                },
                g,
                max_bytes,
                n,
            );
        },
        Phase::Choose => {
            let cap = hnsw::degree_cap(g, insertion::here(s));
            let pick = beam::considered(s.pick, cap, s.pool[0], sims);
            assert(s.pool[0].1 < n);
            lemma_rest(s.pool, n);
            lemma_choosing(InsertState { pick, pool: s.pool.skip(1), ..s }, g, max_bytes, n);
        },
        Phase::Relink => {
            lemma_top(items, s.names.len() as int, n);
            lemma_choosing(
                InsertState {
                    pool: rank::top(items, s.names.len() as int),
                    pick: insertion::nothing_picked(),
                    ..s
                },
                g,
                max_bytes,
                n,
            );
        },
        Phase::Done => {},
    }
}

/// An insertion starts in range.
pub proof fn an_insertion_starts_in_range(
    g: HnswState,
    slot: u32,
    level: int,
    top: int,
    ef: int,
    n: int,
)
    requires
        ranged(g, n),
        slot < n,
        g.entry == NONE_U32 || g.entry < n,
        0 <= level <= hnsw::MAX_LEVEL,
        0 <= top <= hnsw::MAX_LEVEL,
    ensures
        within(insertion::begun(g, slot, level, top, ef).0, n),
        ranged(insertion::begun(g, slot, level, top, ef).1, n),
{
    insertion::lemma_steps(level, top);
}

/// A valid graph with room made for more slots is in range for all of them.
pub proof fn room_keeps_in_range(g: HnswState, n: u32)
    requires
        hnsw::usable(g, n as int),
        1 <= g.m0,
        table::ascending(g.upper),
        g.lists.len() == g.upper.len(),
    ensures
        ranged(hnsw::with_room_for(g, n), n as int),
{
    let w = g.m0;
    assert(g.indexed * w <= n * w) by (nonlinear_arith)
        requires
            g.indexed <= n,
            1 <= w,
    ;
    let h = hnsw::with_room_for(g, n);
    assert forall|i: int| 0 <= i < h.level0.len() implies (#[trigger] h.level0[i]) == NONE_U32
        || h.level0[i] < n by {
        if i < g.level0.len() {
            assert(h.level0[i] == g.level0[i]);
        }
    }
    assert forall|i: int| 0 <= i < h.lists.len() implies below(#[trigger] h.lists[i], n as int) by {
        assert forall|j: int| 0 <= j < h.lists[i].len() implies (#[trigger] h.lists[i][j]) < n by {
            assert(g.lists[i][j] < n);
        }
    }
}

/// A query of a graph that names only slots it has blocks for asks only for
/// such slots, and never fails.
pub proof fn a_query_stays_in_range(q: QueryState, g: HnswState, sims: Seq<F32Bits>, n: int)
    requires
        query_within(q, n),
        ranged(g, n),
        sims.len() == q.names.len(),
    ensures
        insertion::query_answered(q, g, sims) matches Ok(t) && query_within(t, n),
        q.phase != Phase::Done ==> below(q.names, n),
{
    match q.phase {
        Phase::Enter => {
            lemma_query(QueryState { beam: beam::started((sims[0], q.ep)), ..q }, g, n);
        },
        Phase::Spread => {
            let items = beam::scored(q.names, sims);
            lemma_offered(q.beam, insertion::query_width(q), items, n);
            lemma_query(
                QueryState {
                    beam: beam::all_offered(q.beam, insertion::query_width(q), items),
                    ..q
                },
                g,
                n,
            );
        },
        _ => {},
    }
}

proof fn lemma_query(q: QueryState, g: HnswState, n: int)
    requires
        q.phase != Phase::Done,
        query_within(q, n),
        ranged(g, n),
    ensures
        insertion::query_spread(q, g) matches Ok(t) && query_within(t, n),
{
    if !beam::settled(q.beam, insertion::query_width(q)) {
        let node = q.beam.cand[0].1;
        lemma_held(g, n, q.level, node);
        lemma_neighbors(g, n, node, q.level);
        lemma_fresh(q.beam.seen, hnsw::neighbors(g, node, q.level), n);
        lemma_rest(q.beam.cand, n);
    }
}

} // verus!
