//! What the graph source gathers: the eligible facts of the entities it
//! visited, by distance, and those that its links were taken from.

use crate::float::F32Bits;
use crate::id::{EntityId, FactId, NONE_U32};
use crate::index::postings;
use crate::index::postings::Entry;
use crate::index::rank;
use crate::index::rank::Scored;
use crate::memory::recall::graph;
use crate::memory::recall::graph::{RecalledEdge, Walk};
use crate::memory::recall::sources;
use crate::memory::state;
use crate::memory::state::State;
use vstd::prelude::*;

verus! {

/// The anchors of a query are exactly the known entities that it names, each
/// once and at distance 0.
pub proof fn anchors_are_the_named_entities(s: State, names: Seq<Seq<char>>)
    ensures
        forall|i: int|
            0 <= i < names.len() ==> (state::entity_named(
                s,
                state::normalized(#[trigger] names[i]),
            ) matches Some(e) ==> graph::anchors_of(s, names).contains((e, 0int))),
        forall|k: int|
            0 <= k < graph::anchors_of(s, names).len() ==> named(
                s,
                names,
                #[trigger] graph::anchors_of(s, names)[k],
            ),
        forall|a: int, b: int|
            0 <= a < b < graph::anchors_of(s, names).len() ==> (#[trigger] graph::anchors_of(
                s,
                names,
            )[a]).0 != (#[trigger] graph::anchors_of(s, names)[b]).0,
    decreases names.len(),
{
    let all = graph::anchors_of(s, names);
    if names.len() > 0 {
        let init = names.drop_last();
        anchors_are_the_named_entities(s, init);
        let front = graph::anchors_of(s, init);
        assert forall|i: int| 0 <= i < names.len() implies (state::entity_named(
            s,
            state::normalized(#[trigger] names[i]),
        ) matches Some(e) ==> all.contains((e, 0int))) by {
            if let Some(e) = state::entity_named(s, state::normalized(names[i])) {
                if i < init.len() {
                    assert(init[i] == names[i]);
                    let k = front.index_of((e, 0int));
                    assert(all[k] == (e, 0int));
                } else if graph::seen(front, e) {
                    let k = choose|k: int| 0 <= k < front.len() && (#[trigger] front[k]).0 == e;
                    assert(named(s, init, front[k]));
                    assert(all[k] == (e, 0int));
                } else {
                    assert(all[all.len() - 1] == (e, 0int));
                }
            }
        }
        assert forall|k: int| 0 <= k < all.len() implies named(s, names, #[trigger] all[k]) by {
            if k < front.len() {
                assert(all[k] == front[k]);
                let i = choose|i: int|
                    0 <= i < init.len() && state::entity_named(
                        s,
                        state::normalized(#[trigger] init[i]),
                    ) == Some(front[k].0);
                assert(names[i] == init[i]);
            } else {
                assert(names[names.len() - 1] == names.last());
            }
        }
        assert forall|a: int, b: int| 0 <= a < b < all.len() implies (#[trigger] all[a]).0 != (
        #[trigger] all[b]).0 by {
            if b < front.len() {
                assert(all[a] == front[a] && all[b] == front[b]);
            } else {
                assert(all[a] == front[a]);
            }
        }
    }
}

/// An anchor at distance 0 that a query names.
pub open spec fn named(s: State, names: Seq<Seq<char>>, x: (EntityId, int)) -> bool {
    x.1 == 0 && exists|i: int|
        0 <= i < names.len() && state::entity_named(s, state::normalized(#[trigger] names[i]))
            == Some(x.0)
}

/// The facts listed under some entities, counted.
pub open spec fn listed_total(s: State, visited: Seq<(EntityId, int)>) -> int {
    visited.fold_left(
        0int,
        |sum: int, v: (EntityId, int)|
            sum + postings::entries_of(s.entity_facts, v.0.0).len(),
    )
}

/// A fact listed under a visited entity, at the distance of that entity.
pub open spec fn listed_at(s: State, visited: Seq<(EntityId, int)>, x: (FactId, int)) -> bool {
    exists|p: int, j: int|
        0 <= p < visited.len() && 0 <= j < postings::entries_of(
            s.entity_facts,
            visited[p].0.0,
        ).len() && x == (
            FactId((#[trigger] postings::entries_of(s.entity_facts, visited[p].0.0)[j]).0),
            visited[p].1,
        )
}

/// A fact that a link was taken from, at distance 1.
pub open spec fn taken_from(edges: Seq<RecalledEdge>, x: (FactId, int)) -> bool {
    x.1 == 1 && x.0.0 != NONE_U32 && exists|i: int|
        0 <= i < edges.len() && (#[trigger] edges[i]).provenance == x.0
}

proof fn lemma_facts(s: State, visited: Seq<(EntityId, int)>)
    ensures
        graph::facts_of(s, visited).len() == listed_total(s, visited),
        forall|x: (FactId, int)| #[trigger]
            graph::facts_of(s, visited).contains(x) <==> listed_at(s, visited, x),
    decreases visited.len(),
{
    let all = graph::facts_of(s, visited);
    if visited.len() > 0 {
        let init = visited.drop_last();
        lemma_facts(s, init);
        let front = graph::facts_of(s, init);
        let (e, d) = visited.last();
        let xs = postings::entries_of(s.entity_facts, e.0);
        let more = xs.map_values(|x: Entry| (FactId(x.0), d));
        assert(all == front + more);
        assert forall|x: (FactId, int)| #[trigger] all.contains(x) <==> listed_at(s, visited, x) by {
            if all.contains(x) {
                let k = all.index_of(x);
                if k < front.len() {
                    assert(front[k] == x);
                    assert(front.contains(x));
                    let (p, j) = choose|p: int, j: int|
                        0 <= p < init.len() && 0 <= j < postings::entries_of(
                            s.entity_facts,
                            init[p].0.0,
                        ).len() && x == (
                            FactId(
                                (#[trigger] postings::entries_of(s.entity_facts, init[p].0.0)[j]).0,
                            ),
                            init[p].1,
                        );
                    assert(visited[p] == init[p]);
                    assert(x == (
                        FactId(postings::entries_of(s.entity_facts, visited[p].0.0)[j].0),
                        visited[p].1,
                    ));
                } else {
                    let p = visited.len() - 1;
                    let j = k - front.len();
                    assert(all[k] == more[j]);
                    assert(visited[p] == (e, d));
                    assert(x == (
                        FactId(postings::entries_of(s.entity_facts, visited[p].0.0)[j].0),
                        visited[p].1,
                    ));
                }
            }
            if listed_at(s, visited, x) {
                let (p, j) = choose|p: int, j: int|
                    0 <= p < visited.len() && 0 <= j < postings::entries_of(
                        s.entity_facts,
                        visited[p].0.0,
                    ).len() && x == (
                        FactId(
                            (#[trigger] postings::entries_of(s.entity_facts, visited[p].0.0)[j]).0,
                        ),
                        visited[p].1,
                    );
                if p < init.len() {
                    assert(visited[p] == init[p]);
                    assert(x == (
                        FactId(postings::entries_of(s.entity_facts, init[p].0.0)[j].0),
                        init[p].1,
                    ));
                    assert(listed_at(s, init, x));
                    assert(front.contains(x));
                    let k = front.index_of(x);
                    assert(all[k] == x);
                } else {
                    assert(visited[p] == (e, d));
                    assert(more[j] == x);
                    assert(all[front.len() + j] == x);
                }
            }
        }
    } else {
        assert(all =~= Seq::empty());
    }
}

proof fn lemma_gathered(
    s: State,
    filter: Option<Seq<FactId>>,
    as_of: u64,
    include_closed: bool,
    items: Seq<(FactId, int)>,
    n: nat,
)
    requires
        n <= items.len(),
    ensures
        ({
            let r = graph::gathered(s, filter, as_of, include_closed, items, n);
            &&& r.len() <= n
            &&& r.len() <= 256
            &&& forall|k: int|
                0 <= k < r.len() ==> items.contains(#[trigger] r[k]) && sources::eligible(
                    s,
                    filter,
                    as_of,
                    include_closed,
                    r[k].0,
                )
            &&& forall|i: int|
                0 <= i < n && i < 2048 && sources::eligible(
                    s,
                    filter,
                    as_of,
                    include_closed,
                    (#[trigger] items[i]).0,
                ) ==> r.contains(items[i]) || r.len() >= 256
        }),
    decreases n,
{
    if n > 0 {
        let m = (n - 1) as nat;
        lemma_gathered(s, filter, as_of, include_closed, items, m);
        let front = graph::gathered(s, filter, as_of, include_closed, items, m);
        let r = graph::gathered(s, filter, as_of, include_closed, items, n);
        sources::the_rule_admits_eligible_facts(s, filter, as_of, include_closed, items[m as int].0);
        assert forall|k: int| 0 <= k < r.len() implies items.contains(#[trigger] r[k])
            && sources::eligible(s, filter, as_of, include_closed, r[k].0) by {
            if k < front.len() {
                assert(r[k] == front[k]);
            } else {
                assert(r[k] == items[m as int]);
            }
        }
        assert forall|i: int|
            0 <= i < n && i < 2048 && sources::eligible(
                s,
                filter,
                as_of,
                include_closed,
                (#[trigger] items[i]).0,
            ) implies r.contains(items[i]) || r.len() >= 256 by {
            if i < m {
                if front.contains(items[i]) {
                    let k = front.index_of(items[i]);
                    assert(r[k] == items[i]);
                }
            } else if front.len() < 256 {
                assert(r[r.len() - 1] == items[i]);
            }
        }
    }
}

proof fn lemma_provenance(
    s: State,
    filter: Option<Seq<FactId>>,
    as_of: u64,
    include_closed: bool,
    out: Seq<(FactId, int)>,
    edges: Seq<RecalledEdge>,
    n: nat,
)
    requires
        n <= edges.len(),
        out.len() <= 256,
    ensures
        ({
            let r = graph::with_provenance(s, filter, as_of, include_closed, out, edges, n);
            &&& out.len() <= r.len() <= out.len() + n
            &&& r.len() <= 256
            &&& forall|k: int| 0 <= k < out.len() ==> #[trigger] r[k] == out[k]
            &&& forall|k: int|
                out.len() <= k < r.len() ==> taken_from(edges, #[trigger] r[k])
                    && sources::eligible(s, filter, as_of, include_closed, r[k].0)
            &&& forall|i: int|
                0 <= i < n && (#[trigger] edges[i]).provenance.0 != NONE_U32 && sources::eligible(
                    s,
                    filter,
                    as_of,
                    include_closed,
                    edges[i].provenance,
                ) ==> holds(r, edges[i].provenance) || r.len() >= 256
        }),
    decreases n,
{
    if n > 0 {
        let m = (n - 1) as nat;
        lemma_provenance(s, filter, as_of, include_closed, out, edges, m);
        let front = graph::with_provenance(s, filter, as_of, include_closed, out, edges, m);
        let r = graph::with_provenance(s, filter, as_of, include_closed, out, edges, n);
        let f = edges[m as int].provenance;
        sources::the_rule_admits_eligible_facts(s, filter, as_of, include_closed, f);
        assert forall|k: int| out.len() <= k < r.len() implies taken_from(edges, #[trigger] r[k])
            && sources::eligible(s, filter, as_of, include_closed, r[k].0) by {
            if k < front.len() {
                assert(r[k] == front[k]);
            } else {
                assert(r[k] == (f, 1int));
            }
        }
        assert forall|i: int|
            0 <= i < n && (#[trigger] edges[i]).provenance.0 != NONE_U32 && sources::eligible(
                s,
                filter,
                as_of,
                include_closed,
                edges[i].provenance,
            ) implies holds(r, edges[i].provenance) || r.len() >= 256 by {
            if i < m {
                if holds(front, edges[i].provenance) {
                    let k = choose|k: int|
                        0 <= k < front.len() && (#[trigger] front[k]).0 == edges[i].provenance;
                    assert(r[k] == front[k]);
                }
            } else if front.len() < 256 {
                if graph::has_fact(front, f) {
                    let k = choose|k: int| 0 <= k < front.len() && (#[trigger] front[k]).0 == f;
                    assert(r[k] == front[k]);
                } else {
                    assert(r[r.len() - 1].0 == f);
                }
            }
        }
    }
}

/// A fact is among some candidates.
pub open spec fn holds(xs: Seq<(FactId, int)>, f: FactId) -> bool {
    exists|k: int| 0 <= k < xs.len() && (#[trigger] xs[k]).0 == f
}

/// The candidates of an expansion are eligible facts that are listed under a
/// visited entity, at its distance, or that a link was taken from, at distance
/// 1. Every such fact is a candidate, unless 256 others are or more than 2048
/// facts are listed.
pub proof fn an_expansion_gathers_its_facts(
    s: State,
    filter: Option<Seq<FactId>>,
    as_of: u64,
    include_closed: bool,
    w: Walk,
)
    ensures
        ({
            let c = graph::graph_candidates(s, filter, as_of, include_closed, w);
            &&& c.len() <= 256
            &&& c.len() <= listed_total(s, w.visited) + w.edges.len()
            &&& forall|k: int|
                0 <= k < c.len() ==> sources::eligible(
                    s,
                    filter,
                    as_of,
                    include_closed,
                    (#[trigger] c[k]).0,
                ) && (listed_at(s, w.visited, c[k]) || taken_from(w.edges, c[k]))
            &&& forall|x: (FactId, int)| #[trigger]
                listed_at(s, w.visited, x) && sources::eligible(
                    s,
                    filter,
                    as_of,
                    include_closed,
                    x.0,
                ) ==> c.contains(x) || c.len() >= 256 || listed_total(s, w.visited) > 2048
            &&& forall|i: int|
                0 <= i < w.edges.len() && (#[trigger] w.edges[i]).provenance.0 != NONE_U32
                    && sources::eligible(
                    s,
                    filter,
                    as_of,
                    include_closed,
                    w.edges[i].provenance,
                ) ==> holds(c, w.edges[i].provenance) || c.len() >= 256
        }),
{
    let items = graph::facts_of(s, w.visited);
    let g = graph::gathered(s, filter, as_of, include_closed, items, items.len());
    let c = graph::graph_candidates(s, filter, as_of, include_closed, w);
    lemma_facts(s, w.visited);
    lemma_gathered(s, filter, as_of, include_closed, items, items.len());
    lemma_provenance(s, filter, as_of, include_closed, g, w.edges, w.edges.len());
    assert forall|k: int| 0 <= k < c.len() implies sources::eligible(
        s,
        filter,
        as_of,
        include_closed,
        (#[trigger] c[k]).0,
    ) && (listed_at(s, w.visited, c[k]) || taken_from(w.edges, c[k])) by {
        if k < g.len() {
            assert(c[k] == g[k]);
            assert(items.contains(g[k]));
        }
    }
    assert forall|x: (FactId, int)| #[trigger]
        listed_at(s, w.visited, x) && sources::eligible(
            s,
            filter,
            as_of,
            include_closed,
            x.0,
        ) implies c.contains(x) || c.len() >= 256 || listed_total(s, w.visited) > 2048 by {
        assert(items.contains(x));
        let i = items.index_of(x);
        assert(items[i] == x);
        if items.len() <= 2048 && g.contains(x) {
            let k = g.index_of(x);
            assert(c[k] == x);
        }
    }
}

/// No fact comes twice in a row.
pub open spec fn never_in_a_row(xs: Seq<Scored>) -> bool {
    forall|i: int, j: int|
        0 <= i < xs.len() && j == i + 1 && j < xs.len() ==> (#[trigger] xs[i]).1 != (
        #[trigger] xs[j]).1
}

/// A fact is among some scored ones.
pub open spec fn scored_fact(xs: Seq<Scored>, id: u32) -> bool {
    exists|k: int| 0 <= k < xs.len() && (#[trigger] xs[k]).1 == id
}

proof fn lemma_deduped(xs: Seq<Scored>)
    ensures
        graph::deduped(xs).len() <= xs.len(),
        never_in_a_row(graph::deduped(xs)),
        xs.len() > 0 ==> graph::deduped(xs).len() > 0 && graph::deduped(xs).last().1
            == xs.last().1,
    decreases xs.len(),
{
    if xs.len() > 0 {
        let init = xs.drop_last();
        lemma_deduped(init);
        let front = graph::deduped(init);
        let d = graph::deduped(xs);
        if d.len() > front.len() {
            assert forall|i: int, j: int| 0 <= i < d.len() && j == i + 1 && j < d.len() implies (
            #[trigger] d[i]).1 != (#[trigger] d[j]).1 by {
                assert(d[i] == front[i]);
                if j < front.len() {
                    assert(d[j] == front[j]);
                }
            }
        }
    }
}

proof fn lemma_deduped_facts(xs: Seq<Scored>, i: int)
    requires
        0 <= i < xs.len(),
    ensures
        scored_fact(graph::deduped(xs), xs[i].1),
    decreases xs.len(),
{
    let init = xs.drop_last();
    let front = graph::deduped(init);
    let d = graph::deduped(xs);
    if i < init.len() {
        lemma_deduped_facts(init, i);
        let k = choose|k: int| 0 <= k < front.len() && (#[trigger] front[k]).1 == init[i].1;
        assert(d[k] == front[k]);
    } else {
        lemma_deduped(xs);
        assert(d[d.len() - 1].1 == xs[i].1);
    }
}

proof fn lemma_deduped_given(xs: Seq<Scored>, k: int)
    requires
        0 <= k < graph::deduped(xs).len(),
    ensures
        xs.contains(graph::deduped(xs)[k]),
    decreases xs.len(),
{
    if xs.len() > 0 {
        let init = xs.drop_last();
        let front = graph::deduped(init);
        let d = graph::deduped(xs);
        if k < front.len() {
            lemma_deduped_given(init, k);
            let j = init.index_of(front[k]);
            assert(xs[j] == d[k]);
        } else {
            assert(xs[xs.len() - 1] == d[k]);
        }
    }
}

/// The graph source returns its candidates by the weight of their distance,
/// at most 128 of them; where there are more, none that is missing ranks before
/// one that is returned. The same fact never comes twice in a row.
pub proof fn candidates_are_ranked_by_distance(
    s: State,
    filter: Option<Seq<FactId>>,
    as_of: u64,
    include_closed: bool,
    w: Walk,
    weights: Seq<F32Bits>,
)
    ensures
        ({
            let c = graph::graph_candidates(s, filter, as_of, include_closed, w);
            let r = graph::graph_ranked(s, filter, as_of, include_closed, w, weights);
            &&& r.len() <= 128
            &&& forall|i: int|
                0 <= i < r.len() ==> exists|k: int|
                    0 <= k < c.len() && (#[trigger] r[i]) == (
                        weights[(#[trigger] c[k]).1],
                        c[k].0.0,
                    )
            &&& never_in_a_row(r)
            &&& forall|k: int|
                0 <= k < c.len() && c.len() <= 128 ==> scored_fact(r, (#[trigger] c[k]).0.0)
            &&& forall|k: int, i: int|
                0 <= k < c.len() && 0 <= i < r.len() && !scored_fact(r, c[k].0.0) ==> !rank::before(
                    (weights[(#[trigger] c[k]).1], c[k].0.0),
                    #[trigger] r[i],
                )
        }),
{
    let c = graph::graph_candidates(s, filter, as_of, include_closed, w);
    let xs = graph::weighted(c, weights);
    let best = rank::top(xs, 128);
    let r = graph::graph_ranked(s, filter, as_of, include_closed, w, weights);
    rank::the_best_are_kept(xs, 128);
    lemma_deduped(best);
    assert forall|i: int| 0 <= i < r.len() implies exists|k: int|
        0 <= k < c.len() && (#[trigger] r[i]) == (weights[(#[trigger] c[k]).1], c[k].0.0) by {
        lemma_deduped_given(best, i);
        let j = best.index_of(r[i]);
        assert(best[j] == r[i]);
        assert(xs.contains(best[j]));
        let k = xs.index_of(r[i]);
        assert(xs[k] == (weights[c[k].1], c[k].0.0));
    }
    assert forall|k: int| 0 <= k < c.len() && c.len() <= 128 implies scored_fact(
        r,
        (#[trigger] c[k]).0.0,
    ) by {
        assert(xs[k] == (weights[c[k].1], c[k].0.0));
        assert(xs.contains(xs[k]));
        assert(best.contains(xs[k])) by {
            if !best.contains(xs[k]) {
                rank::ranking_orders_the_items(xs);
                assert(rank::ranked(xs).len() == xs.len());
                xs.to_multiset_ensures();
                rank::ranked(xs).to_multiset_ensures();
                assert(rank::ranked(xs).to_multiset().count(xs[k]) > 0);
            }
        }
        let j = best.index_of(xs[k]);
        assert(best[j].1 == c[k].0.0);
        lemma_deduped_facts(best, j);
    }
    assert forall|k: int, i: int|
        0 <= k < c.len() && 0 <= i < r.len() && !scored_fact(r, c[k].0.0) implies !rank::before(
        (weights[(#[trigger] c[k]).1], c[k].0.0),
        #[trigger] r[i],
    ) by {
        let x = (weights[c[k].1], c[k].0.0);
        assert(xs[k] == x);
        assert(xs.contains(x));
        if best.contains(x) {
            let j = best.index_of(x);
            assert(best[j] == x);
            lemma_deduped_facts(best, j);
        }
        lemma_deduped_given(best, i);
        let j = best.index_of(r[i]);
        assert(best[j] == r[i]);
    }
}

/// Below the caps, every eligible fact of a visited entity is returned.
pub proof fn the_facts_of_visited_entities_are_returned(
    s: State,
    filter: Option<Seq<FactId>>,
    as_of: u64,
    include_closed: bool,
    w: Walk,
    weights: Seq<F32Bits>,
    p: int,
    j: int,
)
    requires
        listed_total(s, w.visited) + w.edges.len() <= 128,
        0 <= p < w.visited.len(),
        0 <= j < postings::entries_of(s.entity_facts, w.visited[p].0.0).len(),
        sources::eligible(
            s,
            filter,
            as_of,
            include_closed,
            FactId(postings::entries_of(s.entity_facts, w.visited[p].0.0)[j].0),
        ),
    ensures
        scored_fact(
            graph::graph_ranked(s, filter, as_of, include_closed, w, weights),
            postings::entries_of(s.entity_facts, w.visited[p].0.0)[j].0,
        ),
{
    an_expansion_gathers_its_facts(s, filter, as_of, include_closed, w);
    candidates_are_ranked_by_distance(s, filter, as_of, include_closed, w, weights);
    let c = graph::graph_candidates(s, filter, as_of, include_closed, w);
    let x = (
        FactId(postings::entries_of(s.entity_facts, w.visited[p].0.0)[j].0),
        w.visited[p].1,
    );
    assert(listed_at(s, w.visited, x));
    assert(c.contains(x));
    let k = c.index_of(x);
    assert(c[k] == x);
}

} // verus!
