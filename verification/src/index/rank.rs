//! The result order shared by every scored source: higher scores first, ties
//! by the smaller id.

use crate::float::F32Bits;
use vstd::prelude::*;

verus! {

/// A scored id.
pub type Scored = (F32Bits, u32);

/// `a` ranks before `b`: a higher score in the total order of floats, or the
/// same score and a smaller id.
pub open spec fn before(a: Scored, b: Scored) -> bool {
    a.0.rank() > b.0.rank() || (a.0.rank() == b.0.rank() && a.1 < b.1)
}

/// Inserts `p` behind everything that it does not rank before.
pub open spec fn placed(xs: Seq<Scored>, p: Scored) -> Seq<Scored>
    decreases xs.len(),
{
    if xs.len() > 0 && before(p, xs.last()) {
        placed(xs.drop_last(), p).push(xs.last())
    } else {
        xs.push(p)
    }
}

/// The items in rank order.
pub open spec fn ranked(xs: Seq<Scored>) -> Seq<Scored>
    decreases xs.len(),
{
    if xs.len() == 0 {
        xs
    } else {
        placed(ranked(xs.drop_last()), xs.last())
    }
}

/// The best `k` items, in rank order.
pub open spec fn top(xs: Seq<Scored>, k: int) -> Seq<Scored> {
    if ranked(xs).len() <= k {
        ranked(xs)
    } else {
        ranked(xs).take(k)
    }
}

/// No item ranks before an earlier one.
pub open spec fn in_order(xs: Seq<Scored>) -> bool {
    forall|i: int, j: int| 0 <= i < j < xs.len() ==> !before(#[trigger] xs[j], #[trigger] xs[i])
}

pub proof fn lemma_placed(xs: Seq<Scored>, p: Scored)
    ensures
        placed(xs, p).to_multiset() == xs.to_multiset().insert(p),
        placed(xs, p).len() == xs.len() + 1,
        in_order(xs) ==> in_order(placed(xs, p)),
        forall|x: Scored| #[trigger] placed(xs, p).contains(x) ==> x == p || xs.contains(x),
    decreases xs.len(),
{
    broadcast use vstd::seq_lib::group_to_multiset_ensures;

    if xs.len() > 0 && before(p, xs.last()) {
        let front = xs.drop_last();
        let out = placed(front, p);
        lemma_placed(front, p);
        assert(front.push(xs.last()) =~= xs);
        assert(front.to_multiset().insert(p).insert(xs.last()) =~= front.to_multiset().insert(
            xs.last(),
        ).insert(p));
        assert forall|x: Scored| #[trigger] placed(xs, p).contains(x) implies x == p || xs.contains(
            x,
        ) by {
            let k = choose|k: int| 0 <= k < placed(xs, p).len() && placed(xs, p)[k] == x;
            if k < out.len() {
                assert(out.contains(out[k]));
                if x != p {
                    let m = choose|m: int| 0 <= m < front.len() && front[m] == x;
                    assert(xs[m] == x);
                }
            } else {
                assert(xs[xs.len() - 1] == x);
            }
        }
        if in_order(xs) {
            assert(in_order(front)) by {
                assert forall|i: int, j: int| 0 <= i < j < front.len() implies !before(
                    #[trigger] front[j],
                    #[trigger] front[i],
                ) by {
                    assert(front[j] == xs[j] && front[i] == xs[i]);
                }
            }
            assert forall|i: int, j: int| 0 <= i < j < placed(xs, p).len() implies !before(
                #[trigger] placed(xs, p)[j],
                #[trigger] placed(xs, p)[i],
            ) by {
                if j == out.len() {
                    assert(out.contains(out[i]));
                    if out[i] != p {
                        let m = choose|m: int| 0 <= m < front.len() && front[m] == out[i];
                        assert(!before(xs[xs.len() - 1], xs[m]));
                    }
                }
            }
        }
    } else {
        assert forall|x: Scored| #[trigger] placed(xs, p).contains(x) implies x == p || xs.contains(
            x,
        ) by {
            let k = choose|k: int| 0 <= k < placed(xs, p).len() && placed(xs, p)[k] == x;
            if k < xs.len() {
                assert(xs[k] == x);
            }
        }
        if in_order(xs) {
            assert forall|i: int, j: int| 0 <= i < j < placed(xs, p).len() implies !before(
                #[trigger] placed(xs, p)[j],
                #[trigger] placed(xs, p)[i],
            ) by {
                if j == xs.len() && i < xs.len() - 1 {
                    assert(!before(xs[xs.len() - 1], xs[i]));
                }
            }
        }
    }
}

/// Placing an item makes the list one longer.
pub proof fn placed_adds_one(xs: Seq<Scored>, p: Scored)
    ensures
        placed(xs, p).len() == xs.len() + 1,
{
    lemma_placed(xs, p);
}

/// Ranking returns only items that it was given.
pub proof fn ranked_items_are_given(xs: Seq<Scored>, k: int)
    requires
        0 <= k < ranked(xs).len(),
    ensures
        xs.contains(ranked(xs)[k]),
{
    ranking_orders_the_items(xs);
    let order = ranked(xs);
    order.to_multiset_ensures();
    xs.to_multiset_ensures();
    assert(order.contains(order[k]));
    assert(order.to_multiset().count(order[k]) > 0);
}

/// The best items are kept: those returned are given ones in rank order, as
/// many as there are up to the cap, and an item is left out only where the cap
/// is reached by items that it does not rank before.
pub proof fn the_best_are_kept(xs: Seq<Scored>, k: int)
    requires
        0 <= k,
    ensures
        top(xs, k).len() == if xs.len() <= k {
            xs.len() as int
        } else {
            k
        },
        in_order(top(xs, k)),
        forall|i: int| 0 <= i < top(xs, k).len() ==> xs.contains(#[trigger] top(xs, k)[i]),
        forall|x: Scored|
            #![trigger xs.contains(x)]
            xs.contains(x) ==> top(xs, k).contains(x) || (top(xs, k).len() == k && forall|i: int|
                0 <= i < k ==> !before(x, #[trigger] top(xs, k)[i])),
        forall|x: Scored|
            (#[trigger] top(xs, k).to_multiset().count(x)) <= xs.to_multiset().count(x),
{
    let all = ranked(xs);
    let best = top(xs, k);
    ranking_orders_the_items(xs);
    all.to_multiset_ensures();
    xs.to_multiset_ensures();
    best.to_multiset_ensures();
    assert forall|i: int| 0 <= i < best.len() implies xs.contains(#[trigger] best[i]) by {
        assert(best[i] == all[i]);
        ranked_items_are_given(xs, i);
    }
    assert forall|x: Scored|
        #![trigger xs.contains(x)]
        xs.contains(x) implies best.contains(x) || (best.len() == k && forall|i: int|
        0 <= i < k ==> !before(x, #[trigger] best[i])) by {
        assert(all.to_multiset().count(x) > 0);
        let j = all.index_of(x);
        assert(all[j] == x);
        if j < best.len() {
            assert(best[j] == x);
        } else {
            assert forall|i: int| 0 <= i < k implies !before(x, #[trigger] best[i]) by {
                assert(best[i] == all[i]);
                assert(!before(all[j], all[i]));
            }
        }
    }
    assert forall|x: Scored| (#[trigger] best.to_multiset().count(x)) <= xs.to_multiset().count(
        x,
    ) by {
        let rest = all.skip(best.len() as int);
        assert(all =~= best + rest);
        vstd::seq_lib::lemma_multiset_commutative(best, rest);
    }
}

/// Ranking keeps every item and orders them.
pub proof fn ranking_orders_the_items(xs: Seq<Scored>)
    ensures
        ranked(xs).to_multiset() == xs.to_multiset(),
        ranked(xs).len() == xs.len(),
        in_order(ranked(xs)),
    decreases xs.len(),
{
    broadcast use vstd::seq_lib::group_to_multiset_ensures;

    if xs.len() > 0 {
        ranking_orders_the_items(xs.drop_last());
        lemma_placed(ranked(xs.drop_last()), xs.last());
        assert(xs.drop_last().push(xs.last()) =~= xs);
    }
}

fn ranks_before(a: Scored, b: Scored) -> (r: bool)
    ensures
        r == before(a, b),
{
    let x: u32 = a.0.total_rank();
    let y: u32 = b.0.total_rank();
    x > y || (x == y && a.1 < b.1)
}

proof fn lemma_placed_at(xs: Seq<Scored>, p: Scored, at: int)
    requires
        0 <= at <= xs.len(),
        forall|k: int| at <= k < xs.len() ==> before(p, #[trigger] xs[k]),
        at > 0 ==> !before(p, xs[at - 1]),
    ensures
        placed(xs, p) == xs.insert(at, p),
    decreases xs.len(),
{
    if at < xs.len() {
        lemma_placed_at(xs.drop_last(), p, at);
        assert(xs.drop_last().insert(at, p).push(xs.last()) =~= xs.insert(at, p));
    } else {
        assert(xs.push(p) =~= xs.insert(at, p));
    }
}

/// Inserts one item in rank order.
pub fn insert_ranked(out: &mut Vec<Scored>, item: Scored)
    ensures
        final(out)@ == placed(old(out)@, item),
{
    let mut at: usize = out.len();
    while at > 0 && ranks_before(item, out[at - 1])
        invariant
            at <= out@.len(),
            forall|k: int| at <= k < out@.len() ==> before(item, #[trigger] out@[k]),
        decreases at,
    {
        at = at - 1;
    }
    proof {
        lemma_placed_at(out@, item, at as int);
    }
    out.insert(at, item);
}

/// The best `k` items, in rank order.
pub fn rank_top(items: &Vec<Scored>, k: usize) -> (r: Vec<Scored>)
    ensures
        r@ == top(items@, k as int),
{
    let mut out: Vec<Scored> = Vec::new();
    let mut i: usize = 0;
    assert(items@.take(0) =~= Seq::empty());
    while i < items.len()
        invariant
            i <= items@.len(),
            out@ == ranked(items@.take(i as int)),
        decreases items@.len() - i,
    {
        insert_ranked(&mut out, items[i]);
        assert(items@.take(i + 1).drop_last() =~= items@.take(i as int));
        i = i + 1;
    }
    assert(items@.take(i as int) =~= items@);
    if out.len() > k {
        out.truncate(k);
        assert(out@ =~= ranked(items@).take(k as int));
    }
    out
}

} // verus!
