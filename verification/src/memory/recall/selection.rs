//! What a response holds: the best candidates, as many as the count and the
//! token budget allow, each as its record says.

use crate::float::F32Bits;
use crate::id::FactId;
use crate::index::rank;
use crate::index::rank::Scored;
use crate::memory::recall::fuse;
use crate::memory::recall::graph::RecalledEdge;
use crate::memory::recall::render;
use crate::memory::recall::render::{RecallView, RecalledFact};
use crate::memory::state;
use crate::memory::state::State;
use vstd::prelude::*;

verus! {

/// The tokens of a fact: a quarter of its bytes, rounded down, and eight for
/// its frame.
pub open spec fn tokens_of(s: State, id: FactId) -> int {
    s.texts[state::fact_of(s, id)->0.text.0 as int].len() as int / 4 + 8
}

/// The tokens of some facts together.
pub open spec fn tokens_of_all(s: State, facts: Seq<RecalledFact>) -> int {
    facts.fold_left(0int, |sum: int, f: RecalledFact| sum + tokens_of(s, f.id))
}

proof fn lemma_spent(s: State, order: Seq<Scored>, facts: Seq<RecalledFact>)
    requires
        facts.len() == order.len(),
        forall|i: int| 0 <= i < facts.len() ==> (#[trigger] facts[i]).id == FactId(order[i].1),
        forall|i: int|
            0 <= i < facts.len() ==> state::fact_of(s, (#[trigger] facts[i]).id) is Some,
    ensures
        tokens_of_all(s, facts) == render::spent(s, order),
    decreases order.len(),
{
    if order.len() > 0 {
        let front = facts.drop_last();
        assert forall|i: int| 0 <= i < front.len() implies (#[trigger] front[i]).id == FactId(
            order.drop_last()[i].1,
        ) && state::fact_of(s, front[i].id) is Some by {
            assert(front[i] == facts[i]);
        }
        lemma_spent(s, order.drop_last(), front);
        assert(facts[facts.len() - 1].id == FactId(order.last().1));
        assert(state::fact_of(s, facts.last().id) is Some);
    }
}

proof fn lemma_stopped(s: State, order: Seq<Scored>, k: int, budget: int)
    requires
        k >= 0,
        budget >= 0,
    ensures
        ({
            let n = render::selected(s, order, k, budget);
            n < order.len() ==> n == k || render::spent(s, order.take(n)) + render::cost_of(
                s,
                order[n].1,
            ) > budget
        }),
    decreases order.len(),
{
    if order.len() > 0 {
        let front = order.drop_last();
        lemma_stopped(s, front, k, budget);
        render::lemma_selected_bound(s, front, k, budget);
        let n = render::selected(s, front, k, budget);
        if n < front.len() {
            assert(front.take(n) =~= order.take(n));
            assert(front[n] == order[n]);
        } else {
            assert(order.take(n) =~= front);
        }
    }
}

/// The candidates of a response are facts on record, each of them once.
pub open spec fn candidates_ok(s: State, fused: Seq<fuse::FusedView>) -> bool {
    &&& fuse::each_once(fused)
    &&& forall|i: int|
        0 <= i < fused.len() ==> state::fact_of(s, (#[trigger] fused[i]).id) is Some
}

/// A maximal response. It stops for one of two reasons only: it holds as many
/// facts as were asked for, or the next candidate in rank order would exceed
/// the token budget.
pub open spec fn maximal(
    s: State,
    fused: Seq<fuse::FusedView>,
    scores: Seq<F32Bits>,
    edges: Seq<RecalledEdge>,
    k: int,
    budget: int,
    r: RecallView,
) -> bool {
    let order = rank::ranked(render::scored(fused, scores));
    let n = r.facts.len() as int;
    &&& n <= k
    &&& n <= fused.len()
    &&& tokens_of_all(s, r.facts) <= budget
    &&& n < fused.len() ==> n == k || tokens_of_all(s, r.facts) + tokens_of(s, FactId(order[n].1))
        > budget
    &&& r.truncated == (n < fused.len())
    &&& r.edges == edges
}

/// A response is maximal.
pub proof fn a_response_is_maximal(
    s: State,
    fused: Seq<fuse::FusedView>,
    scores: Seq<F32Bits>,
    edges: Seq<RecalledEdge>,
    k: int,
    budget: int,
)
    requires
        candidates_ok(s, fused),
        scores.len() == fused.len(),
        k >= 0,
        budget >= 0,
    ensures
        maximal(
            s,
            fused,
            scores,
            edges,
            k,
            budget,
            render::response(s, fused, scores, edges, k, budget),
        ),
{
    let items = render::scored(fused, scores);
    let order = rank::ranked(items);
    let r = render::response(s, fused, scores, edges, k, budget);
    let n = r.facts.len() as int;
    rank::ranking_orders_the_items(items);
    render::lemma_selected_bound(s, order, k, budget);
    lemma_stopped(s, order, k, budget);
    assert forall|i: int| 0 <= i < order.len() implies state::fact_of(
        s,
        FactId((#[trigger] order[i]).1),
    ) is Some by {
        lemma_from(s, fused, scores, i);
    }
    assert forall|i: int| 0 <= i < n implies (#[trigger] r.facts[i]).id == FactId(
        order.take(n)[i].1,
    ) && state::fact_of(s, r.facts[i].id) is Some by {
        assert(order.take(n)[i] == order[i]);
    }
    lemma_spent(s, order.take(n), r.facts);
}

proof fn lemma_from(s: State, fused: Seq<fuse::FusedView>, scores: Seq<F32Bits>, i: int)
    requires
        candidates_ok(s, fused),
        scores.len() == fused.len(),
        0 <= i < rank::ranked(render::scored(fused, scores)).len(),
    ensures
        ({
            let x = rank::ranked(render::scored(fused, scores))[i];
            &&& state::fact_of(s, FactId(x.1)) is Some
            &&& exists|j: int|
                0 <= j < fused.len() && (#[trigger] fused[j]).id.0 == x.1 && scores[j] == x.0
        }),
{
    let items = render::scored(fused, scores);
    let order = rank::ranked(items);
    rank::ranked_items_are_given(items, i);
    let j = items.index_of(order[i]);
    assert(items[j] == order[i]);
    assert(fused[j].id.0 == order[i].1 && scores[j] == order[i].0);
    assert(fused[j].id == FactId(order[i].1));
}

/// Candidates that are no more than asked for and cost no more than the budget
/// are all returned.
pub proof fn all_that_fits_is_returned(
    s: State,
    fused: Seq<fuse::FusedView>,
    scores: Seq<F32Bits>,
    edges: Seq<RecalledEdge>,
    k: int,
    budget: int,
)
    requires
        candidates_ok(s, fused),
        scores.len() == fused.len(),
        fused.len() <= k,
        fused.fold_left(0int, |sum: int, f: fuse::FusedView| sum + tokens_of(s, f.id)) <= budget,
    ensures
        ({
            let r = render::response(s, fused, scores, edges, k, budget);
            &&& r.facts.len() == fused.len()
            &&& !r.truncated
            &&& forall|i: int|
                0 <= i < fused.len() ==> exists|j: int|
                    0 <= j < r.facts.len() && (#[trigger] r.facts[j]).id == (
                    #[trigger] fused[i]).id
        }),
{
    let r = render::response(s, fused, scores, edges, k, budget);
    let items = render::scored(fused, scores);
    let order = rank::ranked(items);
    rank::ranking_orders_the_items(items);
    lemma_sum_grows(s, fused, fused.len() as int);
    assert(fused.take(fused.len() as int) =~= fused);
    a_response_is_maximal(s, fused, scores, edges, k, budget);
    render::lemma_selected_bound(s, order, k, budget);
    lemma_ranked_sum(s, items);
    lemma_fold_items(s, fused, scores);
    let n = r.facts.len() as int;
    assert forall|i: int| 0 <= i < order.len() implies state::fact_of(
        s,
        FactId((#[trigger] order[i]).1),
    ) is Some by {
        lemma_from(s, fused, scores, i);
    }
    if n < order.len() {
        assert forall|i: int| 0 <= i < n implies (#[trigger] r.facts[i]).id == FactId(
            order.take(n)[i].1,
        ) && state::fact_of(s, r.facts[i].id) is Some by {
            assert(order.take(n)[i] == order[i]);
        }
        lemma_spent(s, order.take(n), r.facts);
        lemma_spent_grows(s, order, n + 1);
        assert(order.take(n + 1).drop_last() =~= order.take(n));
        assert(false);
    }
    assert forall|i: int| 0 <= i < fused.len() implies exists|j: int|
        0 <= j < r.facts.len() && (#[trigger] r.facts[j]).id == (#[trigger] fused[i]).id by {
        order.to_multiset_ensures();
        items.to_multiset_ensures();
        assert(items.contains(items[i]));
        assert(order.to_multiset().count(items[i]) > 0);
        let j = order.index_of(items[i]);
        assert(r.facts[j].id == fused[i].id);
    }
}

proof fn lemma_placed_sum(s: State, xs: Seq<Scored>, p: Scored)
    ensures
        render::spent(s, rank::placed(xs, p)) == render::spent(s, xs) + render::cost_of(s, p.1),
    decreases xs.len(),
{
    if xs.len() > 0 && rank::before(p, xs.last()) {
        lemma_placed_sum(s, xs.drop_last(), p);
        let front = rank::placed(xs.drop_last(), p);
        assert(front.push(xs.last()).drop_last() =~= front);
    } else {
        assert(xs.push(p).drop_last() =~= xs);
    }
}

proof fn lemma_ranked_sum(s: State, xs: Seq<Scored>)
    ensures
        render::spent(s, rank::ranked(xs)) == render::spent(s, xs),
    decreases xs.len(),
{
    if xs.len() > 0 {
        lemma_ranked_sum(s, xs.drop_last());
        lemma_placed_sum(s, rank::ranked(xs.drop_last()), xs.last());
    }
}

proof fn lemma_spent_grows(s: State, order: Seq<Scored>, n: int)
    requires
        0 <= n <= order.len(),
    ensures
        0 <= render::spent(s, order.take(n)) <= render::spent(s, order),
    decreases order.len(),
{
    if n < order.len() {
        lemma_spent_grows(s, order.drop_last(), n);
        assert(order.drop_last().take(n) =~= order.take(n));
    } else {
        assert(order.take(n) =~= order);
        if n > 0 {
            lemma_spent_grows(s, order.drop_last(), n - 1);
            assert(order.drop_last().take(n - 1) =~= order.drop_last());
        }
    }
}

proof fn lemma_sum_grows(s: State, fused: Seq<fuse::FusedView>, n: int)
    requires
        0 <= n <= fused.len(),
        forall|i: int|
            0 <= i < fused.len() ==> state::fact_of(s, (#[trigger] fused[i]).id) is Some,
    ensures
        fused.take(n).fold_left(0int, |sum: int, f: fuse::FusedView| sum + tokens_of(s, f.id))
            >= 0,
    decreases n,
{
    if n > 0 {
        lemma_sum_grows(s, fused, n - 1);
        assert(fused.take(n).drop_last() =~= fused.take(n - 1));
    }
}

proof fn lemma_fold_items(s: State, fused: Seq<fuse::FusedView>, scores: Seq<F32Bits>)
    requires
        scores.len() == fused.len(),
        forall|i: int|
            0 <= i < fused.len() ==> state::fact_of(s, (#[trigger] fused[i]).id) is Some,
    ensures
        fused.fold_left(0int, |sum: int, f: fuse::FusedView| sum + tokens_of(s, f.id))
            == render::spent(s, render::scored(fused, scores)),
    decreases fused.len(),
{
    let items = render::scored(fused, scores);
    if fused.len() > 0 {
        let front = fused.drop_last();
        assert forall|i: int| 0 <= i < front.len() implies state::fact_of(
            s,
            (#[trigger] front[i]).id,
        ) is Some by {
            assert(front[i] == fused[i]);
        }
        lemma_fold_items(s, front, scores.drop_last());
        assert(items.drop_last() =~= render::scored(front, scores.drop_last()));
        assert(state::fact_of(s, fused[fused.len() - 1].id) is Some);
        assert(FactId(items.last().1) == fused.last().id);
    }
}

/// Each fact of a response is a candidate with its own score and sources, and
/// shows what its record says. No candidate that was left out ranks before one
/// that is returned, and none is returned twice.
pub open spec fn shows_the_best(
    s: State,
    fused: Seq<fuse::FusedView>,
    scores: Seq<F32Bits>,
    r: RecallView,
) -> bool {
    &&& forall|i: int|
        0 <= i < r.facts.len() ==> exists|j: int|
            0 <= j < fused.len() && shows(
                s,
                #[trigger] r.facts[i],
                #[trigger] fused[j],
                scores[j],
            )
    &&& forall|a: int, b: int|
        0 <= a < b < r.facts.len() ==> {
            &&& (#[trigger] r.facts[a]).id != (#[trigger] r.facts[b]).id
            &&& !rank::before(
                (r.facts[b].score, r.facts[b].id.0),
                (r.facts[a].score, r.facts[a].id.0),
            )
        }
    &&& forall|i: int, j: int|
        0 <= i < r.facts.len() && 0 <= j < fused.len() && (forall|x: int|
            0 <= x < r.facts.len() ==> (#[trigger] r.facts[x]).id != fused[j].id)
            ==> !rank::before(
            (scores[j], (#[trigger] fused[j]).id.0),
            ((#[trigger] r.facts[i]).score, r.facts[i].id.0),
        )
}

/// A response shows its best candidates.
pub proof fn a_response_shows_its_best_candidates(
    s: State,
    fused: Seq<fuse::FusedView>,
    scores: Seq<F32Bits>,
    edges: Seq<RecalledEdge>,
    k: int,
    budget: int,
)
    requires
        candidates_ok(s, fused),
        scores.len() == fused.len(),
        k >= 0,
        budget >= 0,
    ensures
        shows_the_best(
            s,
            fused,
            scores,
            render::response(s, fused, scores, edges, k, budget),
        ),
{
    let items = render::scored(fused, scores);
    let order = rank::ranked(items);
    let r = render::response(s, fused, scores, edges, k, budget);
    let n = r.facts.len() as int;
    rank::ranking_orders_the_items(items);
    render::lemma_selected_bound(s, order, k, budget);
    assert forall|i: int| 0 <= i < n implies exists|j: int|
        0 <= j < fused.len() && shows(
            s,
            #[trigger] r.facts[i],
            #[trigger] fused[j],
            scores[j],
        ) by {
        lemma_from(s, fused, scores, i);
        let j = choose|j: int|
            0 <= j < fused.len() && (#[trigger] fused[j]).id.0 == order[i].1 && scores[j]
                == order[i].0;
        let id = FactId(order[i].1);
        assert(fused[j].id == id);
        let p = fuse::place_of(fused, id)->0;
        assert(fused[p].id == id);
        assert(p == j);
        assert(r.facts[i] == render::recalled(s, fused, order[i]));
        assert(state::fact_of(s, id) is Some);
        assert(shows(s, r.facts[i], fused[j], scores[j]));
    }
    assert forall|a: int, b: int| 0 <= a < b < n implies {
        &&& (#[trigger] r.facts[a]).id != (#[trigger] r.facts[b]).id
        &&& !rank::before(
            (r.facts[b].score, r.facts[b].id.0),
            (r.facts[a].score, r.facts[a].id.0),
        )
    } by {
        assert(r.facts[a].id == FactId(order[a].1) && r.facts[b].id == FactId(order[b].1));
        assert(!rank::before(order[b], order[a]));
        lemma_ids_once(fused, scores, a, b);
    }
    assert forall|i: int, j: int|
        0 <= i < n && 0 <= j < fused.len() && (forall|x: int|
            0 <= x < n ==> (#[trigger] r.facts[x]).id != fused[j].id) implies !rank::before(
        (scores[j], (#[trigger] fused[j]).id.0),
        ((#[trigger] r.facts[i]).score, r.facts[i].id.0),
    ) by {
        order.to_multiset_ensures();
        items.to_multiset_ensures();
        assert(items.contains(items[j]));
        assert(order.to_multiset().count(items[j]) > 0);
        let x = order.index_of(items[j]);
        assert(order[x] == items[j]);
        if x < n {
            assert(r.facts[x].id == fused[j].id);
        }
        assert(!rank::before(order[x], order[i]));
    }
}

/// A returned fact is a candidate with its score, as its record says.
pub open spec fn shows(s: State, f: RecalledFact, c: fuse::FusedView, score: F32Bits) -> bool {
    &&& f.id == c.id
    &&& f.score == score
    &&& f.sources == c.sources
    &&& match state::fact_of(s, c.id) {
        Some(record) => f.entity == record.entity && f.recorded_at == record.recorded_at
            && f.valid_from == record.valid_from && f.valid_to == record.valid_to,
        None => false,
    }
}

proof fn lemma_ids_once(fused: Seq<fuse::FusedView>, scores: Seq<F32Bits>, a: int, b: int)
    requires
        fuse::each_once(fused),
        scores.len() == fused.len(),
        0 <= a < b < rank::ranked(render::scored(fused, scores)).len(),
    ensures
        rank::ranked(render::scored(fused, scores))[a].1 != rank::ranked(
            render::scored(fused, scores),
        )[b].1,
{
    let items = render::scored(fused, scores);
    let order = rank::ranked(items);
    rank::ranking_orders_the_items(items);
    assert(items.no_duplicates()) by {
        assert forall|i: int, j: int|
            0 <= i < items.len() && 0 <= j < items.len() && i != j implies items[i] != items[j] by {
            if i < j {
                assert(fused[i].id != fused[j].id);
            } else {
                assert(fused[j].id != fused[i].id);
            }
        }
    }
    items.lemma_multiset_has_no_duplicates();
    order.to_multiset_ensures();
    items.to_multiset_ensures();
    if order[a].1 == order[b].1 {
        rank::ranked_items_are_given(items, a);
        rank::ranked_items_are_given(items, b);
        let i = items.index_of(order[a]);
        let j = items.index_of(order[b]);
        assert(items[i] == order[a] && items[j] == order[b]);
        assert(fused[i].id == fused[j].id);
        assert(i == j);
        assert(order[a] == order[b]);
        assert(order.to_multiset().count(order[a]) <= 1);
        order.lemma_multiset_has_no_duplicates_conv();
        assert(false);
    }
}

} // verus!
