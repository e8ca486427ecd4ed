//! What the count of a tag counts.

use crate::index::postings;
use crate::memory::state::State;
use crate::memory::tags;
use crate::table;
use vstd::prelude::*;

verus! {

/// A list holds a fact.
pub open spec fn lists(xs: Seq<postings::Entry>, id: u32) -> bool {
    exists|i: int| 0 <= i < xs.len() && (#[trigger] xs[i]).0 == id
}

/// The listed facts whose record is neither forgotten nor closed.
pub open spec fn current_facts(s: State, xs: Seq<postings::Entry>) -> Set<u32> {
    Set::new(
        |id: u32|
            lists(xs, id) && (table::row_of(s.facts, id as int) matches Some(f) && !f.tombstone()
                && !f.closed()),
    )
}

proof fn lemma_among(s: State, xs: Seq<postings::Entry>, n: nat)
    requires
        postings::list_ok(false, xs),
        n <= xs.len(),
    ensures
        current_facts(s, xs.take(n as int)).finite(),
        current_facts(s, xs.take(n as int)).len() == tags::current_among(s, xs, n),
    decreases n,
{
    if n == 0 {
        assert(current_facts(s, xs.take(0)) =~= Set::empty());
    } else {
        let m = (n - 1) as nat;
        lemma_among(s, xs, m);
        let front = xs.take(m as int);
        let all = xs.take(n as int);
        let id = xs[m as int].0;
        assert(all[m as int] == xs[m as int]);
        assert forall|x: u32| #[trigger] lists(all, x) == (x == id || lists(front, x)) by {
            if lists(front, x) {
                let i = choose|i: int| 0 <= i < front.len() && (#[trigger] front[i]).0 == x;
                assert(all[i].0 == x);
            }
            if lists(all, x) {
                let i = choose|i: int| 0 <= i < all.len() && (#[trigger] all[i]).0 == x;
                if i < m {
                    assert(front[i].0 == x);
                }
            }
        }
        assert(!current_facts(s, front).contains(id)) by {
            if current_facts(s, front).contains(id) {
                let i = choose|i: int| 0 <= i < front.len() && (#[trigger] front[i]).0 == id;
                assert(xs[i].0 < xs[m as int].0);
            }
        }
        if tags::is_current(s, id) {
            assert(current_facts(s, all) =~= current_facts(s, front).insert(id));
        } else {
            assert(current_facts(s, all) =~= current_facts(s, front));
        }
    }
}

/// The count of a tag is the number of its facts that are neither forgotten
/// nor closed.
pub proof fn a_tag_counts_its_current_facts(s: State, term: u32)
    requires
        postings::lists_ok(false, s.tags_idx),
    ensures
        current_facts(s, postings::entries_of(s.tags_idx, term)).finite(),
        tags::current_count(s, term) == current_facts(
            s,
            postings::entries_of(s.tags_idx, term),
        ).len(),
{
    let xs = postings::entries_of(s.tags_idx, term);
    postings::lemma_list_rank(false, s.tags_idx, term);
    assert(postings::list_ok(false, xs));
    lemma_among(s, xs, xs.len());
    assert(xs.take(xs.len() as int) =~= xs);
}

} // verus!
