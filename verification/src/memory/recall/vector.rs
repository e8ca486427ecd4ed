//! The vector source: scored slots become ranked, admitted facts.

use crate::id::FactId;
use crate::index::rank;
use crate::index::rank::{rank_top, Scored};
use crate::index::vecpool;
use crate::memory::recall::admission;
use crate::memory::recall::admission::Allow;
use crate::memory::recall::graph::SOURCE_CAP;
use crate::memory::recall::sources;
use crate::memory::state::State;
use crate::memory::Memory;
use vstd::prelude::*;

verus! {

/// The fact of a vector slot.
pub open spec fn fact_in_slot(s: State, slot: u32) -> u32 {
    vecpool::fact_of(vecpool::slot_at(s.cfg.dim as int, s.vecs, slot as int))
}

/// The scored slots of admitted facts, by fact.
pub open spec fn admitted_slots(
    s: State,
    filter: Option<Seq<FactId>>,
    as_of: u64,
    include_closed: bool,
    slots: Seq<Scored>,
) -> Seq<Scored>
    decreases slots.len(),
{
    if slots.len() == 0 {
        Seq::empty()
    } else {
        let front = admitted_slots(s, filter, as_of, include_closed, slots.drop_last());
        let fact = fact_in_slot(s, slots.last().1);
        if admission::admitted(s, filter, as_of, include_closed, FactId(fact)) is Some {
            front.push((slots.last().0, fact))
        } else {
            front
        }
    }
}

impl Memory {
    /// The vector source: `slots` holds the similarity of each slot that the
    /// search returned.
    pub fn vector_source(
        &self,
        filter: &Option<Allow>,
        as_of: u64,
        include_closed: bool,
        slots: &Vec<Scored>,
    ) -> (r: Vec<Scored>)
        requires
            self.wf(),
            filter matches Some(a) ==> a.wf(),
            forall|i: int|
                0 <= i < slots@.len() ==> (#[trigger] slots@[i]).1 < vecpool::slot_count(
                    self@.cfg.dim as int,
                    self@.vecs,
                ),
        ensures
            r@ == rank::top(
                admitted_slots(
                    self@,
                    admission::allow_view(*filter),
                    as_of,
                    include_closed,
                    slots@,
                ),
                SOURCE_CAP as int,
            ),
            sources::vector_answer(
                self@,
                admission::allow_view(*filter),
                as_of,
                include_closed,
                slots@,
                r@,
            ),
    {
        let ghost s = self@;
        let ghost ids = admission::allow_view(*filter);
        let mut out: Vec<Scored> = Vec::new();
        let mut i: usize = 0;
        assert(slots@.take(0) =~= Seq::empty());
        while i < slots.len()
            invariant
                i <= slots@.len(),
                s == self@,
                self.wf(),
                filter matches Some(a) ==> a.wf(),
                ids == admission::allow_view(*filter),
                forall|k: int|
                    0 <= k < slots@.len() ==> (#[trigger] slots@[k]).1 < vecpool::slot_count(
                        s.cfg.dim as int,
                        s.vecs,
                    ),
                out@ == admitted_slots(s, ids, as_of, include_closed, slots@.take(i as int)),
            decreases slots@.len() - i,
        {
            assert(slots@.take(i + 1).drop_last() =~= slots@.take(i as int));
            let (score, slot): Scored = slots[i];
            assert(slots@[i as int].1 == slot);
            let fact: u32 = self.vecs.slot_fact(slot as usize);
            if self.admission(filter, as_of, include_closed, FactId(fact)).is_some() {
                out.push((score, fact));
            }
            i = i + 1;
        }
        assert(slots@.take(i as int) =~= slots@);
        proof {
            sources::the_vector_source_returns_what_is_eligible(
                s,
                ids,
                as_of,
                include_closed,
                slots@,
            );
        }
        rank_top(&out, SOURCE_CAP)
    }
}

} // verus!
