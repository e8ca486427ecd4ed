//! The walk of the graph as a machine: which similarities it needs next, and
//! what it does with them.
//!
//! Similarities are floating-point numbers and are computed by the host. A
//! machine asks for those of one node to some others; the host answers; and
//! the machine goes on until it asks for no more. It holds the width of the
//! beam, the entry point carried from level to level, the choice of neighbors,
//! and the choice among a full list and one neighbor more.

use crate::error::Error;
use crate::float::F32Bits;
use crate::id::NONE_U32;
use crate::index::beam;
use crate::index::beam::{plan_insertion, Beam, BeamState, LevelStep, Selection, SelectionState};
use crate::index::hnsw;
use crate::index::hnsw::{HnswGraph, HnswState};
use crate::index::rank;
use crate::index::rank::{rank_top, Scored};
use vstd::prelude::*;

verus! {

/// What a machine waits for.
#[derive(Clone, Copy, Debug, PartialEq, Eq, Structural)]
pub enum Phase {
    /// The score of the entry point of a level.
    Enter,
    /// The scores of the nodes that a beam named.
    Spread,
    /// The similarities of a candidate to the neighbors kept so far.
    Choose,
    /// The scores of a full list and one more around its node.
    Relink,
    /// Nothing any more.
    Done,
}

/// A node whose level-0 neighbors are not there.
pub open spec fn astray(g: HnswState, level: int, node: u32) -> bool {
    level == 0 && (node + 1) * g.m0 > g.level0.len()
}

/// The refusal of a graph that names such a node.
pub open spec fn stray_error() -> Error {
    Error::Corrupt("graph node out of range")
}

fn is_astray(g: &HnswGraph, level: usize, node: u32) -> (r: bool)
    requires
        g.wf(),
    ensures
        r == astray(g@, level as int, node),
{
    level == 0 && !g.holds(node)
}

/// The entry point of the next level: the best node of this one.
pub open spec fn carried_entry(b: BeamState, ep: u32) -> u32 {
    if b.found.len() == 0 {
        ep
    } else {
        b.found[0].1
    }
}

/// A beam before its entry point is scored.
pub open spec fn unscored() -> BeamState {
    beam::started((F32Bits(0), 0))
}

/// A query in progress.
#[verifier::ext_equal]
pub struct QueryState {
    /// The level being searched.
    pub level: int,
    /// The width of the beam at level 0; above it is 1.
    pub ef: int,
    pub ep: u32,
    pub phase: Phase,
    pub beam: BeamState,
    /// The nodes whose scores are awaited.
    pub names: Seq<u32>,
}

/// The width of the beam at the current level.
pub open spec fn query_width(q: QueryState) -> int {
    if q.level == 0 {
        q.ef
    } else {
        1
    }
}

/// A query at the entry point of its level.
pub open spec fn query_entered(q: QueryState) -> QueryState {
    QueryState { phase: Phase::Enter, beam: unscored(), names: seq![q.ep], ..q }
}

/// A query that starts at the top of a graph; an empty graph has no nodes.
pub open spec fn query_begun(g: HnswState, top: int, ef: int) -> QueryState {
    let q = QueryState {
        level: top,
        ef: if ef == 0 {
            1
        } else {
            ef
        },
        ep: g.entry,
        phase: Phase::Done,
        beam: unscored(),
        names: Seq::empty(),
    };
    if g.entry == NONE_U32 {
        q
    } else {
        query_entered(q)
    }
}

/// The query with its beam moved on: to the next neighbors, to the next level,
/// or to its end.
pub open spec fn query_spread(q: QueryState, g: HnswState) -> Result<QueryState, Error> {
    if beam::settled(q.beam, query_width(q)) {
        let ep = carried_entry(q.beam, q.ep);
        if q.level == 0 {
            Ok(QueryState { ep, phase: Phase::Done, names: Seq::empty(), ..q })
        } else {
            Ok(query_entered(QueryState { ep, level: q.level - 1, ..q }))
        }
    } else if astray(g, q.level, q.beam.cand[0].1) {
        Err(stray_error())
    } else {
        let all = hnsw::neighbors(g, q.beam.cand[0].1, q.level);
        Ok(
            QueryState {
                phase: Phase::Spread,
                beam: beam::stepped(q.beam, all),
                names: beam::fresh(q.beam.seen, all),
                ..q
            },
        )
    }
}

/// The query with the scores it asked for.
pub open spec fn query_answered(q: QueryState, g: HnswState, sims: Seq<F32Bits>) -> Result<
    QueryState,
    Error,
> {
    match q.phase {
        Phase::Enter => query_spread(
            QueryState { beam: beam::started((sims[0], q.ep)), ..q },
            g,
        ),
        Phase::Spread => query_spread(
            QueryState {
                beam: beam::all_offered(q.beam, query_width(q), beam::scored(q.names, sims)),
                ..q
            },
            g,
        ),
        _ => Ok(q),
    }
}

/// A nearest-neighbor query over the graph: a greedy descent, then a beam at
/// level 0.
pub struct Query {
    level: usize,
    ef: usize,
    ep: u32,
    phase: Phase,
    beam: Beam,
    names: Vec<u32>,
}

impl View for Query {
    type V = QueryState;

    closed spec fn view(&self) -> QueryState {
        QueryState {
            level: self.level as int,
            ef: self.ef as int,
            ep: self.ep,
            phase: self.phase,
            beam: self.beam@,
            names: self.names@,
        }
    }
}

impl Query {
    /// A valid level and width, and one name for an entry point.
    pub closed spec fn wf(&self) -> bool {
        &&& self.level <= hnsw::MAX_LEVEL
        &&& self.ef >= 1
        &&& self.phase == Phase::Enter ==> self.names@.len() == 1
    }

    /// A query whose beam at level 0 is `ef` wide, at least one. `top` is the
    /// level of the entry point.
    pub fn begin(g: &HnswGraph, top: usize, ef: usize) -> (r: Query)
        requires
            g.wf(),
            top <= hnsw::MAX_LEVEL,
        ensures
            r.wf(),
            r@ == query_begun(g@, top as int, ef as int),
    {
        let ep: u32 = g.entry();
        let mut names: Vec<u32> = Vec::new();
        let phase: Phase = if ep == NONE_U32 {
            Phase::Done
        } else {
            names.push(ep);
            Phase::Enter
        };
        let r = Query {
            level: top,
            ef: if ef == 0 {
                1
            } else {
                ef
            },
            ep,
            phase,
            beam: Beam::start((F32Bits(0), 0)),
            names,
        };
        assert(r@ =~= query_begun(g@, top as int, ef as int));
        r
    }

    /// The nodes whose similarity to the query is wanted. `None`: the query is
    /// over.
    pub fn ask(&self) -> (r: Option<&Vec<u32>>)
        ensures
            match r {
                None => self@.phase == Phase::Done,
                Some(names) => self@.phase != Phase::Done && names@ == self@.names,
            },
    {
        if self.phase == Phase::Done {
            None
        } else {
            Some(&self.names)
        }
    }

    /// Takes the similarities asked for. An error means that the graph names a
    /// node it does not hold.
    pub fn answer(&mut self, g: &HnswGraph, sims: &Vec<F32Bits>) -> (r: Result<(), Error>)
        requires
            old(self).wf(),
            g.wf(),
            sims@.len() == old(self)@.names.len(),
        ensures
            final(self).wf(),
            match r {
                Ok(()) => query_answered(old(self)@, g@, sims@) == Ok::<_, Error>(final(self)@),
                Err(e) => query_answered(old(self)@, g@, sims@) == Err::<QueryState, _>(e),
            },
    {
        match self.phase {
            Phase::Enter => {
                self.beam = Beam::start((sims[0], self.ep));
                self.spread(g)
            },
            Phase::Spread => {
                let width: usize = self.width();
                self.beam.offer_all(width, &self.names, sims);
                self.spread(g)
            },
            _ => Ok(()),
        }
    }

    fn width(&self) -> (r: usize)
        requires
            self.wf(),
        ensures
            r == query_width(self@),
            r >= 1,
    {
        if self.level == 0 {
            self.ef
        } else {
            1
        }
    }

    fn spread(&mut self, g: &HnswGraph) -> (r: Result<(), Error>)
        requires
            old(self).wf(),
            g.wf(),
        ensures
            final(self).wf(),
            match r {
                Ok(()) => query_spread(old(self)@, g@) == Ok::<_, Error>(final(self)@),
                Err(e) => query_spread(old(self)@, g@) == Err::<QueryState, _>(e),
            },
    {
        let ghost q = self@;
        let width: usize = self.width();
        match self.beam.peek(width) {
            None => {
                if self.beam.results().len() > 0 {
                    self.ep = self.beam.results()[0].1;
                }
                self.names = Vec::new();
                if self.level == 0 {
                    self.phase = Phase::Done;
                    assert(self@ =~= query_spread(q, g@)->Ok_0);
                    return Ok(());
                }
                self.level = self.level - 1;
                self.phase = Phase::Enter;
                self.beam = Beam::start((F32Bits(0), 0));
                self.names.push(self.ep);
                assert(self@ =~= query_spread(q, g@)->Ok_0);
                Ok(())
            },
            Some(node) => {
                if is_astray(g, self.level, node) {
                    return Err(Error::Corrupt("graph node out of range"));
                }
                if let Some(names) = self.beam.step(g, self.level, width) {
                    self.names = names;
                }
                self.phase = Phase::Spread;
                assert(self@ =~= query_spread(q, g@)->Ok_0);
                Ok(())
            },
        }
    }

    /// The best nodes, best first; nothing where the graph is empty.
    pub fn results(&self) -> (r: Vec<Scored>)
        ensures
            r@ == if self@.ep == NONE_U32 {
                Seq::<Scored>::empty()
            } else {
                self@.beam.found
            },
    {
        if self.ep == NONE_U32 {
            return Vec::new();
        }
        copied(self.beam.results())
    }
}

/// An insertion in progress.
#[verifier::ext_equal]
pub struct InsertState {
    /// The new node, its level, and the level of the entry point.
    pub slot: u32,
    pub level: int,
    pub top: int,
    /// The width of the beam where the node is linked; elsewhere it is 1.
    pub ef: int,
    /// The levels left, the current one first.
    pub steps: Seq<LevelStep>,
    pub ep: u32,
    pub phase: Phase,
    pub beam: BeamState,
    /// The nodes whose scores are awaited.
    pub names: Seq<u32>,
    /// The node whose neighbors are being chosen, and whether that is the new
    /// one.
    pub node: u32,
    pub own: bool,
    /// The candidates left, best first.
    pub pool: Seq<Scored>,
    pub pick: SelectionState,
    /// The neighbors left to link back.
    pub links: Seq<u32>,
}

/// An insertion after a turn, the graph, and whether a write failed.
pub type Turn = (InsertState, HnswState, Result<(), Error>);

/// Nothing kept and nothing passed over.
pub open spec fn nothing_picked() -> SelectionState {
    SelectionState { kept: Seq::empty(), pruned: Seq::empty() }
}

/// The current level.
pub open spec fn here(s: InsertState) -> int {
    s.steps[0].level as int
}

/// The width of the beam at the current level.
pub open spec fn width(s: InsertState) -> int {
    if s.steps[0].link {
        s.ef
    } else {
        1
    }
}

/// An insertion at the entry point of its level.
pub open spec fn entered(s: InsertState) -> InsertState {
    InsertState { phase: Phase::Enter, beam: unscored(), names: seq![s.ep], ..s }
}

/// An insertion that starts: the first node of a graph is counted at once.
pub open spec fn begun(g: HnswState, slot: u32, level: int, top: int, ef: int) -> (
    InsertState,
    HnswState,
) {
    let s = InsertState {
        slot,
        level,
        top,
        ef,
        steps: beam::insertion_steps(level, top),
        ep: g.entry,
        phase: Phase::Done,
        beam: unscored(),
        names: Seq::empty(),
        node: slot,
        own: true,
        pool: Seq::empty(),
        pick: nothing_picked(),
        links: Seq::empty(),
    };
    if g.entry == NONE_U32 {
        (s, hnsw::node_added(g, slot, level, level))
    } else {
        (entered(s), g)
    }
}

/// The next level, or the node counted behind the last one.
pub open spec fn descended(s: InsertState, g: HnswState) -> Turn {
    let steps = s.steps.skip(1);
    if steps.len() == 0 {
        (
            InsertState { steps, phase: Phase::Done, names: Seq::empty(), ..s },
            hnsw::node_added(g, s.slot, s.level, s.top),
            Ok(()),
        )
    } else {
        (entered(InsertState { steps, ..s }), g, Ok(()))
    }
}

/// The new node linked back from each neighbor in turn, up to one whose list
/// is full.
pub open spec fn linked_back(s: InsertState, g: HnswState, max_bytes: int) -> Turn
    decreases s.links.len(),
{
    if s.links.len() == 0 {
        descended(s, g)
    } else {
        let nb = s.links[0];
        let t = InsertState { links: s.links.skip(1), ..s };
        if astray(g, here(s), nb) {
            (s, g, Err(stray_error()))
        } else {
            match hnsw::link_added(g, max_bytes, nb, s.slot, here(s)) {
                Err(e) => (s, g, Err(Error::Arena(e))),
                Ok(Some(h)) => linked_back(t, h, max_bytes),
                Ok(None) => (
                    InsertState {
                        phase: Phase::Relink,
                        node: nb,
                        own: false,
                        names: hnsw::neighbors(g, nb, here(s)).push(s.slot),
                        ..t
                    },
                    g,
                    Ok(()),
                ),
            }
        }
    }
}

/// The choice of neighbors as far as it needs no answer: the next candidate,
/// or the list written and linked back.
pub open spec fn choosing(s: InsertState, g: HnswState, max_bytes: int) -> Turn {
    if s.pool.len() > 0 {
        (InsertState { phase: Phase::Choose, ..s }, g, Ok(()))
    } else {
        let sel = beam::topped_up(s.pick, hnsw::degree_cap(g, here(s)));
        if astray(g, here(s), s.node) {
            (s, g, Err(stray_error()))
        } else {
            match hnsw::list_written(g, max_bytes, s.node, here(s), sel) {
                Err(e) => (s, g, Err(Error::Arena(e))),
                Ok(h) => linked_back(
                    InsertState {
                        links: if s.own {
                            sel
                        } else {
                            s.links
                        },
                        ..s
                    },
                    h,
                    max_bytes,
                ),
            }
        }
    }
}

/// The insertion with its beam moved on: to the next neighbors, or to what
/// follows the search of a level.
pub open spec fn spread(s: InsertState, g: HnswState, max_bytes: int) -> Turn {
    if beam::settled(s.beam, width(s)) {
        let t = InsertState { ep: carried_entry(s.beam, s.ep), ..s };
        if !s.steps[0].link {
            descended(t, g)
        } else {
            choosing(
                InsertState {
                    node: s.slot,
                    own: true,
                    pool: s.beam.found,
                    pick: nothing_picked(),
                    ..t
                },
                g,
                max_bytes,
            )
        }
    } else if astray(g, here(s), s.beam.cand[0].1) {
        (s, g, Err(stray_error()))
    } else {
        let all = hnsw::neighbors(g, s.beam.cand[0].1, here(s));
        (
            InsertState {
                phase: Phase::Spread,
                beam: beam::stepped(s.beam, all),
                names: beam::fresh(s.beam.seen, all),
                ..s
            },
            g,
            Ok(()),
        )
    }
}

/// What is asked for: the similarities of one node to some others.
pub open spec fn asked(s: InsertState) -> Option<(u32, Seq<u32>)> {
    match s.phase {
        Phase::Enter => Some((s.slot, s.names)),
        Phase::Spread => Some((s.slot, s.names)),
        Phase::Choose => Some((s.pool[0].1, s.pick.kept)),
        Phase::Relink => Some((s.node, s.names)),
        Phase::Done => None,
    }
}

/// The insertion with the similarities it asked for.
pub open spec fn answered(
    s: InsertState,
    g: HnswState,
    max_bytes: int,
    sims: Seq<F32Bits>,
) -> Turn {
    match s.phase {
        Phase::Enter => spread(
            InsertState { beam: beam::started((sims[0], s.ep)), ..s },
            g,
            max_bytes,
        ),
        Phase::Spread => spread(
            InsertState {
                beam: beam::all_offered(s.beam, width(s), beam::scored(s.names, sims)),
                ..s
            },
            g,
            max_bytes,
        ),
        Phase::Choose => choosing(
            InsertState {
                pick: beam::considered(s.pick, hnsw::degree_cap(g, here(s)), s.pool[0], sims),
                pool: s.pool.skip(1),
                ..s
            },
            g,
            max_bytes,
        ),
        Phase::Relink => choosing(
            InsertState {
                pool: rank::top(beam::scored(s.names, sims), s.names.len() as int),
                pick: nothing_picked(),
                ..s
            },
            g,
            max_bytes,
        ),
        Phase::Done => (s, g, Ok(())),
    }
}

/// The insertion of one node into the graph.
pub struct Insertion {
    slot: u32,
    level: usize,
    top: usize,
    ef: usize,
    steps: Vec<LevelStep>,
    ep: u32,
    phase: Phase,
    beam: Beam,
    names: Vec<u32>,
    node: u32,
    own: bool,
    pool: Vec<Scored>,
    pick: Selection,
    links: Vec<u32>,
}

impl View for Insertion {
    type V = InsertState;

    closed spec fn view(&self) -> InsertState {
        InsertState {
            slot: self.slot,
            level: self.level as int,
            top: self.top as int,
            ef: self.ef as int,
            steps: self.steps@,
            ep: self.ep,
            phase: self.phase,
            beam: self.beam@,
            names: self.names@,
            node: self.node,
            own: self.own,
            pool: self.pool@,
            pick: self.pick@,
            links: self.links@,
        }
    }
}

/// Valid levels and widths, a level to work at until the end, and a choice
/// within the degree cap.
pub open spec fn insertion_ok(s: InsertState, g: HnswState) -> bool {
    &&& s.ef >= 1
    &&& s.slot < u32::MAX
    &&& g.m <= u32::MAX
    &&& forall|i: int| 0 <= i < s.steps.len() ==> (#[trigger] s.steps[i]).level <= hnsw::MAX_LEVEL
    &&& s.phase != Phase::Done ==> s.steps.len() > 0
    &&& s.phase == Phase::Enter ==> s.names.len() == 1
    &&& s.phase == Phase::Choose ==> s.pool.len() > 0 && s.pick.kept.len() <= hnsw::degree_cap(
        g,
        here(s),
    )
}

pub proof fn lemma_steps(level: int, top: int)
    requires
        0 <= level <= hnsw::MAX_LEVEL,
        0 <= top <= hnsw::MAX_LEVEL,
    ensures
        beam::insertion_steps(level, top).len() > 0,
        forall|i: int|
            0 <= i < beam::insertion_steps(level, top).len() ==> (#[trigger] beam::insertion_steps(
                level,
                top,
            )[i]).level <= hnsw::MAX_LEVEL,
{
    lemma_descent(top, level + 1);
    let low = if level < top {
        level
    } else {
        top
    };
    lemma_linking(low);
}

proof fn lemma_descent(from: int, to: int)
    requires
        from <= hnsw::MAX_LEVEL,
        0 < to,
    ensures
        forall|i: int|
            0 <= i < beam::descent(from, to).len() ==> (#[trigger] beam::descent(from, to)[i]).level
                <= hnsw::MAX_LEVEL,
    decreases from - to + 1,
{
    if from >= to {
        lemma_descent(from - 1, to);
        let rest = beam::descent(from - 1, to);
        assert forall|i: int| 0 <= i < beam::descent(from, to).len() implies (
        #[trigger] beam::descent(from, to)[i]).level <= hnsw::MAX_LEVEL by {
            if i > 0 {
                assert(beam::descent(from, to)[i] == rest[i - 1]);
            }
        }
    }
}

proof fn lemma_linking(from: int)
    requires
        -1 <= from <= hnsw::MAX_LEVEL,
    ensures
        beam::linking(from).len() == from + 1,
        forall|i: int|
            0 <= i < beam::linking(from).len() ==> (#[trigger] beam::linking(from)[i]).level
                <= hnsw::MAX_LEVEL,
    decreases from + 1,
{
    if from >= 0 {
        lemma_linking(from - 1);
        let rest = beam::linking(from - 1);
        assert forall|i: int| 0 <= i < beam::linking(from).len() implies (#[trigger] beam::linking(
            from,
        )[i]).level <= hnsw::MAX_LEVEL by {
            if i > 0 {
                assert(beam::linking(from)[i] == rest[i - 1]);
            }
        }
    }
}

impl Insertion {
    /// Starts to insert `slot`, whose level is `level`; `top` is that of the
    /// entry point, and `ef` the width of the beam.
    pub fn begin(g: &mut HnswGraph, slot: u32, level: usize, top: usize, ef: usize) -> (r: Insertion)
        requires
            old(g).wf(),
            old(g)@.m <= u32::MAX,
            slot < u32::MAX,
            level <= hnsw::MAX_LEVEL,
            top <= hnsw::MAX_LEVEL,
            ef >= 1,
        ensures
            final(g).wf(),
            final(g).ceiling() == old(g).ceiling(),
            (r@, final(g)@) == begun(old(g)@, slot, level as int, top as int, ef as int),
            insertion_ok(r@, final(g)@),
    {
        proof {
            lemma_steps(level as int, top as int);
        }
        let ep: u32 = g.entry();
        let mut names: Vec<u32> = Vec::new();
        let phase: Phase = if ep == NONE_U32 {
            g.admit_node(slot, level, level);
            Phase::Done
        } else {
            names.push(ep);
            Phase::Enter
        };
        let r = Insertion {
            slot,
            level,
            top,
            ef,
            steps: plan_insertion(level, top),
            ep,
            phase,
            beam: Beam::start((F32Bits(0), 0)),
            names,
            node: slot,
            own: true,
            pool: Vec::new(),
            pick: Selection::new(),
            links: Vec::new(),
        };
        assert(r@ =~= begun(old(g)@, slot, level as int, top as int, ef as int).0);
        r
    }

    /// The node and those whose similarities to it are wanted. `None`: the
    /// insertion is over.
    pub fn ask(&self) -> (r: Option<(u32, &Vec<u32>)>)
        requires
            self@.phase == Phase::Choose ==> self@.pool.len() > 0,
        ensures
            match r {
                None => asked(self@) is None,
                Some((of, to)) => asked(self@) == Some((of, to@)),
            },
    {
        match self.phase {
            Phase::Enter => Some((self.slot, &self.names)),
            Phase::Spread => Some((self.slot, &self.names)),
            Phase::Choose => Some((self.pool[0].1, self.pick.kept())),
            Phase::Relink => Some((self.node, &self.names)),
            Phase::Done => None,
        }
    }

    /// Takes the similarities asked for. An error means that the graph names a
    /// node it does not hold, or that it is full.
    pub fn answer(&mut self, g: &mut HnswGraph, sims: &Vec<F32Bits>) -> (r: Result<(), Error>)
        requires
            old(g).wf(),
            insertion_ok(old(self)@, old(g)@),
            asked(old(self)@) matches Some((_, to)) ==> sims@.len() == to.len(),
        ensures
            final(g).wf(),
            final(g).ceiling() == old(g).ceiling(),
            answered(old(self)@, old(g)@, old(g).ceiling(), sims@) == (final(self)@, final(g)@, r),
            r is Ok ==> insertion_ok(final(self)@, final(g)@),
    {
        let ghost s = self@;
        match self.phase {
            Phase::Enter => {
                self.beam = Beam::start((sims[0], self.ep));
                self.spread(g)
            },
            Phase::Spread => {
                let w: usize = self.width();
                self.beam.offer_all(w, &self.names, sims);
                self.spread(g)
            },
            Phase::Choose => {
                let level: usize = self.steps[0].level;
                let cap: usize = g.cap(level);
                self.pick.consider(cap, self.pool[0], sims);
                self.pool.remove(0);
                assert(self.pool@ =~= s.pool.skip(1));
                self.pick_on(g)
            },
            Phase::Relink => {
                let items: Vec<Scored> = pair_up(&self.names, sims);
                self.pool = rank_top(&items, items.len());
                self.pick = Selection::new();
                self.pick_on(g)
            },
            Phase::Done => Ok(()),
        }
    }

    fn width(&self) -> (r: usize)
        requires
            self@.steps.len() > 0,
            self@.ef >= 1,
        ensures
            r == width(self@),
            r >= 1,
    {
        if self.steps[0].link {
            self.ef
        } else {
            1
        }
    }

    fn spread(&mut self, g: &mut HnswGraph) -> (r: Result<(), Error>)
        requires
            old(g).wf(),
            insertion_ok(old(self)@, old(g)@),
            old(self)@.phase != Phase::Done,
        ensures
            final(g).wf(),
            final(g).ceiling() == old(g).ceiling(),
            spread(old(self)@, old(g)@, old(g).ceiling()) == (final(self)@, final(g)@, r),
            r is Ok ==> insertion_ok(final(self)@, final(g)@),
    {
        let ghost s = self@;
        let w: usize = self.width();
        let level: usize = self.steps[0].level;
        match self.beam.peek(w) {
            None => {
                if self.beam.results().len() > 0 {
                    self.ep = self.beam.results()[0].1;
                }
                if !self.steps[0].link {
                    self.descend(g);
                    return Ok(());
                }
                self.node = self.slot;
                self.own = true;
                self.pool = copied(self.beam.results());
                self.pick = Selection::new();
                self.pick_on(g)
            },
            Some(node) => {
                if is_astray(g, level, node) {
                    return Err(Error::Corrupt("graph node out of range"));
                }
                if let Some(names) = self.beam.step(g, level, w) {
                    self.names = names;
                }
                self.phase = Phase::Spread;
                assert(self@ =~= spread(s, g@, g.ceiling()).0);
                Ok(())
            },
        }
    }

    fn pick_on(&mut self, g: &mut HnswGraph) -> (r: Result<(), Error>)
        requires
            old(g).wf(),
            old(self)@.phase != Phase::Done,
            insertion_ok((InsertState { phase: Phase::Relink, ..old(self)@ }), old(g)@),
            old(self)@.pick.kept.len() > 0 ==> old(self)@.pick.kept.len() <= hnsw::degree_cap(
                old(g)@,
                here(old(self)@),
            ),
        ensures
            final(g).wf(),
            final(g).ceiling() == old(g).ceiling(),
            choosing(old(self)@, old(g)@, old(g).ceiling()) == (final(self)@, final(g)@, r),
            r is Ok ==> insertion_ok(final(self)@, final(g)@),
    {
        let ghost s = self@;
        let level: usize = self.steps[0].level;
        let cap: usize = g.cap(level);
        if self.pool.len() > 0 {
            self.phase = Phase::Choose;
            assert(self@ =~= choosing(s, g@, g.ceiling()).0);
            return Ok(());
        }
        let sel: Vec<u32> = self.pick.chosen(cap);
        if is_astray(g, level, self.node) {
            return Err(Error::Corrupt("graph node out of range"));
        }
        if let Err(e) = g.write_list(self.node, level, &sel) {
            return Err(Error::Arena(e));
        }
        if self.own {
            self.links = sel;
        }
        self.link_back(g)
    }

    fn link_back(&mut self, g: &mut HnswGraph) -> (r: Result<(), Error>)
        requires
            old(g).wf(),
            old(self)@.phase != Phase::Done,
            insertion_ok((InsertState { phase: Phase::Relink, ..old(self)@ }), old(g)@),
        ensures
            final(g).wf(),
            final(g).ceiling() == old(g).ceiling(),
            linked_back(old(self)@, old(g)@, old(g).ceiling()) == (final(self)@, final(g)@, r),
            r is Ok ==> insertion_ok(final(self)@, final(g)@),
        decreases old(self)@.links.len(),
    {
        let ghost s = self@;
        if self.links.len() == 0 {
            self.descend(g);
            return Ok(());
        }
        let level: usize = self.steps[0].level;
        let nb: u32 = self.links[0];
        if is_astray(g, level, nb) {
            return Err(Error::Corrupt("graph node out of range"));
        }
        let ghost before = g@;
        match g.add_link(nb, self.slot, level) {
            Err(e) => Err(Error::Arena(e)),
            Ok(added) => {
                self.links.remove(0);
                assert(self.links@ =~= s.links.skip(1));
                if added {
                    return self.link_back(g);
                }
                let mut names: Vec<u32> = g.neighbors(nb, level);
                names.push(self.slot);
                self.names = names;
                self.phase = Phase::Relink;
                self.node = nb;
                self.own = false;
                assert(self@ =~= linked_back(s, before, g.ceiling()).0);
                Ok(())
            },
        }
    }

    fn descend(&mut self, g: &mut HnswGraph)
        requires
            old(g).wf(),
            insertion_ok((InsertState { phase: Phase::Relink, ..old(self)@ }), old(g)@),
        ensures
            final(g).wf(),
            final(g).ceiling() == old(g).ceiling(),
            descended(old(self)@, old(g)@) == (final(self)@, final(g)@, Ok::<(), Error>(())),
            insertion_ok(final(self)@, final(g)@),
    {
        let ghost s = self@;
        self.steps.remove(0);
        assert(self.steps@ =~= s.steps.skip(1));
        self.names = Vec::new();
        if self.steps.len() == 0 {
            g.admit_node(self.slot, self.level, self.top);
            self.phase = Phase::Done;
            assert(self@ =~= descended(s, old(g)@).0);
            return ;
        }
        self.phase = Phase::Enter;
        self.beam = Beam::start((F32Bits(0), 0));
        self.names.push(self.ep);
        assert(self@ =~= descended(s, old(g)@).0);
    }
}

/// Nodes with their scores.
fn pair_up(names: &Vec<u32>, sims: &Vec<F32Bits>) -> (r: Vec<Scored>)
    requires
        sims@.len() == names@.len(),
    ensures
        r@ == beam::scored(names@, sims@),
{
    let mut out: Vec<Scored> = Vec::new();
    let mut i: usize = 0;
    while i < names.len()
        invariant
            i <= names@.len(),
            sims@.len() == names@.len(),
            out@ == beam::scored(names@, sims@).take(i as int),
        decreases names@.len() - i,
    {
        out.push((sims[i], names[i]));
        i = i + 1;
        assert(out@ =~= beam::scored(names@, sims@).take(i as int));
    }
    assert(out@ =~= beam::scored(names@, sims@));
    out
}

fn copied(found: &Vec<Scored>) -> (r: Vec<Scored>)
    ensures
        r@ == found@,
{
    let mut out: Vec<Scored> = Vec::new();
    let mut i: usize = 0;
    while i < found.len()
        invariant
            i <= found@.len(),
            out@ == found@.take(i as int),
        decreases found@.len() - i,
    {
        out.push(found[i]);
        i = i + 1;
        assert(out@ =~= found@.take(i as int));
    }
    assert(out@ =~= found@);
    out
}

} // verus!
