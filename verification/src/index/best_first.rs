//! What a beam search keeps of the nodes that it meets.

use crate::index::beam;
use crate::index::beam::BeamState;
use crate::index::rank;
use crate::index::rank::Scored;
use vstd::prelude::*;

verus! {

/// Nothing that ranks before a kept item is left out of a full list.
pub open spec fn holds_or_outranks(found: Seq<Scored>, ef: int, x: Scored) -> bool {
    found.contains(x) || (found.len() == ef && forall|i: int|
        0 <= i < found.len() ==> !rank::before(x, #[trigger] found[i]))
}

proof fn lemma_offered(b: BeamState, ef: int, e: Scored)
    requires
        1 <= ef,
        rank::in_order(b.found),
        b.found.len() <= ef,
    ensures
        ({
            let c = beam::offered(b, ef, e);
            &&& rank::in_order(c.found)
            &&& c.found.len() == if b.found.len() < ef {
                b.found.len() + 1int
            } else {
                ef
            }
            &&& c.seen == b.seen
            &&& holds_or_outranks(c.found, ef, e)
            &&& forall|x: Scored|
                holds_or_outranks(b.found, ef, x) ==> #[trigger] holds_or_outranks(c.found, ef, x)
            &&& forall|x: Scored| #[trigger]
                c.found.contains(x) ==> b.found.contains(x) || (x == e && c.cand.contains(x))
            &&& forall|x: Scored| b.cand.contains(x) ==> #[trigger] c.cand.contains(x)
        }),
{
    let c = beam::offered(b, ef, e);
    let all = rank::placed(b.found, e);
    rank::lemma_placed(b.found, e);
    rank::lemma_placed(b.cand, e);
    b.found.to_multiset_ensures();
    b.cand.to_multiset_ensures();
    all.to_multiset_ensures();
    let wide = rank::placed(b.cand, e);
    wide.to_multiset_ensures();
    assert forall|x: Scored| b.cand.contains(x) implies #[trigger] wide.contains(x) by {
        assert(b.cand.to_multiset().count(x) > 0);
        assert(wide.to_multiset().count(x) > 0);
    }
    assert(wide.contains(e)) by {
        assert(wide.to_multiset().count(e) > 0);
    }
    assert forall|x: Scored| b.found.contains(x) || x == e implies #[trigger] all.contains(x) by {
        if b.found.contains(x) {
            assert(b.found.to_multiset().count(x) > 0);
        }
        assert(all.to_multiset().count(x) > 0);
    }
    if b.found.len() < ef || rank::before(e, b.found.last()) {
        let last = all.len() - 1;
        assert forall|i: int| 0 <= i < c.found.len() implies c.found[i] == #[trigger] all[i] by {}
        assert forall|i: int, j: int| 0 <= i < j < c.found.len() implies !rank::before(
            #[trigger] c.found[j],
            #[trigger] c.found[i],
        ) by {
            assert(c.found[j] == all[j] && c.found[i] == all[i]);
        }
        assert forall|x: Scored| #[trigger] c.found.contains(x) implies b.found.contains(x) || (x
            == e && c.cand.contains(x)) by {
            let i = choose|i: int| 0 <= i < c.found.len() && c.found[i] == x;
            assert(all[i] == x);
            assert(all.contains(x));
        }
        assert forall|x: Scored| all.contains(x) implies #[trigger] holds_or_outranks(
            c.found,
            ef,
            x,
        ) by {
            let i = choose|i: int| 0 <= i < all.len() && all[i] == x;
            if i < c.found.len() {
                assert(c.found[i] == x);
            } else {
                assert(i == last);
                assert forall|k: int| 0 <= k < c.found.len() implies !rank::before(
                    x,
                    #[trigger] c.found[k],
                ) by {
                    assert(!rank::before(all[last], all[k]));
                }
            }
        }
        assert(holds_or_outranks(c.found, ef, e)) by {
            assert(all.contains(e));
        }
        assert forall|x: Scored| holds_or_outranks(b.found, ef, x) implies #[trigger]
            holds_or_outranks(c.found, ef, x) by {
            if b.found.contains(x) {
                assert(all.contains(x));
            } else {
                assert forall|k: int| 0 <= k < c.found.len() implies !rank::before(
                    x,
                    #[trigger] c.found[k],
                ) by {
                    assert(all[k] == c.found[k]);
                    assert(all.contains(all[k]));
                    assert(!rank::before(x, b.found[b.found.len() - 1]));
                    if b.found.contains(all[k]) {
                        let m = choose|m: int| 0 <= m < b.found.len() && b.found[m] == all[k];
                        assert(!rank::before(x, b.found[m]));
                    }
                }
            }
        }
    } else {
        let worst = b.found[b.found.len() - 1];
        assert forall|k: int| 0 <= k < c.found.len() implies !rank::before(
            e,
            #[trigger] c.found[k],
        ) by {
            if k < b.found.len() - 1 {
                assert(!rank::before(worst, b.found[k]));
            }
        }
    }
}

/// A beam keeps the best of what it is offered: as many nodes as it met up to
/// its width, best first, and a node is left out only where the beam is full of
/// nodes that it does not rank before. Every node that joins is walked from
/// later, and none that waits for that is dropped.
pub proof fn a_beam_keeps_the_best(b: BeamState, ef: int, items: Seq<Scored>)
    requires
        1 <= ef,
        rank::in_order(b.found),
        b.found.len() <= ef,
    ensures
        ({
            let c = beam::all_offered(b, ef, items);
            &&& rank::in_order(c.found)
            &&& c.found.len() == if b.found.len() + items.len() <= ef {
                (b.found.len() + items.len()) as int
            } else {
                ef
            }
            &&& c.seen == b.seen
            &&& forall|x: Scored|
                b.found.contains(x) || items.contains(x) ==> #[trigger] holds_or_outranks(
                    c.found,
                    ef,
                    x,
                )
            &&& forall|x: Scored| #[trigger]
                c.found.contains(x) ==> b.found.contains(x) || (items.contains(x)
                    && c.cand.contains(x))
            &&& forall|x: Scored| b.cand.contains(x) ==> #[trigger] c.cand.contains(x)
        }),
    decreases items.len(),
{
    if items.len() > 0 {
        let init = items.drop_last();
        let e = items.last();
        a_beam_keeps_the_best(b, ef, init);
        let a = beam::all_offered(b, ef, init);
        let c = beam::all_offered(b, ef, items);
        lemma_offered(a, ef, e);
        assert forall|x: Scored| b.found.contains(x) || items.contains(x) implies #[trigger]
            holds_or_outranks(c.found, ef, x) by {
            if !b.found.contains(x) {
                let i = choose|i: int| 0 <= i < items.len() && items[i] == x;
                if i < init.len() {
                    assert(init[i] == x);
                    assert(init.contains(x));
                }
            }
            if x != e {
                assert(holds_or_outranks(a.found, ef, x));
            }
        }
        assert forall|x: Scored| #[trigger] c.found.contains(x) implies b.found.contains(x) || (
        items.contains(x) && c.cand.contains(x)) by {
            if a.found.contains(x) {
                if !b.found.contains(x) {
                    let i = choose|i: int| 0 <= i < init.len() && init[i] == x;
                    assert(items[i] == x);
                    assert(a.cand.contains(x));
                }
            } else {
                assert(items[items.len() - 1] == x);
            }
        }
    }
}

/// Every neighbor is met: those that were not named before are named, each
/// once, and no other node is.
pub proof fn every_new_neighbor_is_met(seen: Set<u32>, nodes: Seq<u32>)
    ensures
        forall|x: u32|
            (#[trigger] beam::fresh(seen, nodes).contains(x)) <==> nodes.contains(x)
                && !seen.contains(x),
        beam::fresh(seen, nodes).no_duplicates(),
    decreases nodes.len(),
{
    if nodes.len() > 0 {
        let init = nodes.drop_last();
        let front = beam::fresh(seen, init);
        let all = beam::fresh(seen, nodes);
        every_new_neighbor_is_met(seen, init);
        assert(init.push(nodes.last()) =~= nodes);
        assert forall|x: u32| (#[trigger] all.contains(x)) <==> nodes.contains(x) && !seen.contains(
            x,
        ) by {
            assert(nodes.contains(x) <==> init.contains(x) || x == nodes.last()) by {
                if init.contains(x) {
                    let i = choose|i: int| 0 <= i < init.len() && init[i] == x;
                    assert(nodes[i] == x);
                }
                if nodes.contains(x) {
                    let i = choose|i: int| 0 <= i < nodes.len() && nodes[i] == x;
                    if i < init.len() {
                        assert(init[i] == x);
                    }
                }
                assert(nodes[nodes.len() - 1] == nodes.last());
            }
            if all != front {
                assert(all == front.push(nodes.last()));
                assert(all[front.len() as int] == nodes.last());
                if front.contains(x) {
                    let i = choose|i: int| 0 <= i < front.len() && front[i] == x;
                    assert(all[i] == x);
                }
                if all.contains(x) {
                    let i = choose|i: int| 0 <= i < all.len() && all[i] == x;
                    if i < front.len() {
                        assert(front[i] == x);
                    }
                }
            }
        }
    }
}

} // verus!
