//! The decisions of the graph search: which nodes a beam scores next, when it
//! stops, and which neighbors a node keeps.
//!
//! Similarities are floating-point numbers and are computed by the host: a
//! beam names the nodes to score, and is handed their scores.

use crate::float::F32Bits;
use crate::index::hnsw;
use crate::index::hnsw::HnswGraph;
use crate::index::rank;
use crate::index::rank::{insert_ranked, Scored};
use vstd::prelude::*;

verus! {

/// A beam search inside one level.
#[verifier::ext_equal]
pub struct BeamState {
    /// Scored nodes whose neighbors have not been looked at, best first.
    pub cand: Seq<Scored>,
    /// The best nodes so far, best first.
    pub found: Seq<Scored>,
    /// Nodes that were named.
    pub seen: Set<u32>,
}

/// A beam that starts at a node.
pub open spec fn started(ep: Scored) -> BeamState {
    BeamState { cand: seq![ep], found: seq![ep], seen: set![ep.1] }
}

/// The best remaining candidate cannot improve a full beam.
pub open spec fn settled(b: BeamState, ef: int) -> bool {
    b.cand.len() == 0 || (b.found.len() >= ef && rank::before(b.found.last(), b.cand[0]))
}

/// The nodes of a list that were not named before, each once.
pub open spec fn fresh(seen: Set<u32>, nodes: Seq<u32>) -> Seq<u32>
    decreases nodes.len(),
{
    if nodes.len() == 0 {
        Seq::empty()
    } else {
        let front = fresh(seen, nodes.drop_last());
        if seen.contains(nodes.last()) || front.contains(nodes.last()) {
            front
        } else {
            front.push(nodes.last())
        }
    }
}

/// The beam with its best candidate taken and its new neighbors named.
pub open spec fn stepped(b: BeamState, neighbors: Seq<u32>) -> BeamState {
    BeamState {
        cand: b.cand.skip(1),
        found: b.found,
        seen: b.seen.union(neighbors.to_set()),
    }
}

/// The beam with a scored node offered: kept when there is room, or when it
/// ranks before the worst.
pub open spec fn offered(b: BeamState, ef: int, e: Scored) -> BeamState {
    if b.found.len() < ef || rank::before(e, b.found.last()) {
        let found = rank::placed(b.found, e);
        BeamState {
            cand: rank::placed(b.cand, e),
            found: if found.len() > ef {
                found.drop_last()
            } else {
                found
            },
            seen: b.seen,
        }
    } else {
        b
    }
}

/// Nodes with their scores.
pub open spec fn scored(names: Seq<u32>, sims: Seq<F32Bits>) -> Seq<Scored> {
    Seq::new(names.len(), |i: int| (sims[i], names[i]))
}

/// The beam with each of some scored nodes offered in turn.
pub open spec fn all_offered(b: BeamState, ef: int, items: Seq<Scored>) -> BeamState
    decreases items.len(),
{
    if items.len() == 0 {
        b
    } else {
        offered(all_offered(b, ef, items.drop_last()), ef, items.last())
    }
}

/// A beam search inside one level.
pub struct Beam {
    cand: Vec<Scored>,
    found: Vec<Scored>,
    seen: Vec<bool>,
}

impl View for Beam {
    type V = BeamState;

    closed spec fn view(&self) -> BeamState {
        BeamState { cand: self.cand@, found: self.found@, seen: marked(self.seen@) }
    }
}

/// The numbers whose mark is set.
pub open spec fn marked(marks: Seq<bool>) -> Set<u32> {
    Set::new(|n: u32| n < marks.len() && marks[n as int])
}

/// Marks a number. `true` when it was marked before.
fn visit(marks: &mut Vec<bool>, n: u32) -> (r: bool)
    ensures
        r == marked(old(marks)@).contains(n),
        marked(final(marks)@) == marked(old(marks)@).insert(n),
{
    let ghost start = marks@;
    let at: usize = n as usize;
    while marks.len() <= at
        invariant
            start.len() <= marks@.len(),
            at == n,
            marks@.len() <= at + 1 || marks@.len() == start.len(),
            forall|i: int| 0 <= i < start.len() ==> marks@[i] == start[i],
            forall|i: int| start.len() <= i < marks@.len() ==> !marks@[i],
        decreases at + 1 - marks@.len(),
    {
        marks.push(false);
    }
    let was: bool = marks[at];
    marks.set(at, true);
    assert(marked(marks@) =~= marked(start).insert(n));
    was
}

impl Beam {
    /// A beam that starts at a scored node.
    pub fn start(ep: Scored) -> (r: Beam)
        ensures
            r@ == started(ep),
    {
        let mut cand: Vec<Scored> = Vec::new();
        cand.push(ep);
        let mut found: Vec<Scored> = Vec::new();
        found.push(ep);
        let mut seen: Vec<bool> = Vec::new();
        assert(marked(seen@) =~= Set::empty());
        visit(&mut seen, ep.1);
        let r = Beam { cand, found, seen };
        assert(r@ =~= started(ep));
        r
    }

    /// The node whose neighbors come next. `None`: the search is over.
    pub fn peek(&self, ef: usize) -> (r: Option<u32>)
        requires
            ef >= 1,
        ensures
            match r {
                None => settled(self@, ef as int),
                Some(node) => !settled(self@, ef as int) && node == self@.cand[0].1,
            },
    {
        if self.cand.len() == 0 {
            return None;
        }
        let best: Scored = self.cand[0];
        let n: usize = self.found.len();
        if n >= ef && precedes(self.found[n - 1], best) {
            return None;
        }
        Some(best.1)
    }

    /// Takes the best candidate and names its neighbors that need a score.
    /// `None`: the search is over.
    pub fn step(&mut self, graph: &HnswGraph, level: usize, ef: usize) -> (r: Option<Vec<u32>>)
        requires
            graph.wf(),
            ef >= 1,
            level <= hnsw::MAX_LEVEL,
            level == 0 && old(self)@.cand.len() > 0 ==> (old(self)@.cand[0].1 + 1) * graph@.m0
                <= graph@.level0.len(),
        ensures
            match r {
                None => settled(old(self)@, ef as int) && final(self)@ == old(self)@,
                Some(names) => {
                    let all = hnsw::neighbors(graph@, old(self)@.cand[0].1, level as int);
                    &&& !settled(old(self)@, ef as int)
                    &&& names@ == fresh(old(self)@.seen, all)
                    &&& final(self)@ == stepped(old(self)@, all)
                },
            },
    {
        let ghost b = self@;
        if self.cand.len() == 0 {
            return None;
        }
        let best: Scored = self.cand[0];
        let n: usize = self.found.len();
        if n >= ef && precedes(self.found[n - 1], best) {
            return None;
        }
        let all: Vec<u32> = graph.neighbors(best.1, level);
        self.cand.remove(0);
        assert(self.cand@ =~= b.cand.skip(1));
        let mut names: Vec<u32> = Vec::new();
        let mut i: usize = 0;
        proof {
            assert(all@.take(0) =~= Seq::empty());
            assert(b.seen.union(all@.take(0).to_set()) =~= b.seen);
        }
        while i < all.len()
            invariant
                i <= all@.len(),
                self.cand@ == b.cand.skip(1),
                self.found@ == b.found,
                names@ == fresh(b.seen, all@.take(i as int)),
                marked(self.seen@) == b.seen.union(all@.take(i as int).to_set()),
            decreases all@.len() - i,
        {
            let x: u32 = all[i];
            let ghost front = all@.take(i as int);
            proof {
                assert(all@.take(i + 1).drop_last() =~= front);
                assert(all@.take(i + 1) =~= front.push(x));
                lemma_fresh(b.seen, front);
                front.lemma_push_to_set_commute(x);
            }
            let before: bool = visit(&mut self.seen, x);
            if !before {
                names.push(x);
            }
            i = i + 1;
            assert(marked(self.seen@) =~= b.seen.union(all@.take(i as int).to_set()));
        }
        assert(all@.take(i as int) =~= all@);
        assert(self@ =~= stepped(b, all@));
        Some(names)
    }

    /// Offers a scored node.
    pub fn offer(&mut self, ef: usize, e: Scored)
        requires
            ef >= 1,
        ensures
            final(self)@ == offered(old(self)@, ef as int, e),
    {
        let ghost b = self@;
        let n: usize = self.found.len();
        if n < ef || precedes(e, self.found[n - 1]) {
            insert_ranked(&mut self.found, e);
            if self.found.len() > ef {
                let ghost xs = self.found@;
                self.found.pop();
                assert(self.found@ =~= xs.drop_last());
            }
            insert_ranked(&mut self.cand, e);
        }
        assert(self@ =~= offered(b, ef as int, e));
    }

    /// Offers each of some nodes with its score, in turn.
    pub fn offer_all(&mut self, ef: usize, names: &Vec<u32>, sims: &Vec<F32Bits>)
        requires
            ef >= 1,
            sims@.len() == names@.len(),
        ensures
            final(self)@ == all_offered(old(self)@, ef as int, scored(names@, sims@)),
    {
        let ghost b = self@;
        let ghost items = scored(names@, sims@);
        let mut i: usize = 0;
        assert(items.take(0) =~= Seq::empty());
        while i < names.len()
            invariant
                i <= names@.len(),
                ef >= 1,
                sims@.len() == names@.len(),
                items == scored(names@, sims@),
                self@ == all_offered(b, ef as int, items.take(i as int)),
            decreases names@.len() - i,
        {
            self.offer(ef, (sims[i], names[i]));
            proof {
                assert(items.take(i + 1).drop_last() =~= items.take(i as int));
                assert(items.take(i + 1).last() == (sims@[i as int], names@[i as int]));
            }
            i = i + 1;
        }
        assert(items.take(i as int) =~= items);
    }

    /// The best nodes, best first.
    pub fn results(&self) -> (r: &Vec<Scored>)
        ensures
            r@ == self@.found,
    {
        &self.found
    }
}

/// What is fresh was in the list and not seen.
proof fn lemma_fresh(seen: Set<u32>, nodes: Seq<u32>)
    ensures
        forall|x: u32| #[trigger]
            fresh(seen, nodes).contains(x) <==> nodes.contains(x) && !seen.contains(x),
    decreases nodes.len(),
{
    let out = fresh(seen, nodes);
    if nodes.len() == 0 {
        assert forall|x: u32| !#[trigger] out.contains(x) by {}
        assert forall|x: u32| !nodes.contains(x) by {}
    } else {
        let init = nodes.drop_last();
        let last = nodes.last();
        lemma_fresh(seen, init);
        let front = fresh(seen, init);
        assert forall|x: u32| #[trigger] out.contains(x) <==> nodes.contains(x) && !seen.contains(
            x,
        ) by {
            assert(nodes.contains(x) <==> init.contains(x) || x == last) by {
                assert(nodes[nodes.len() - 1] == last);
                if nodes.contains(x) {
                    let j = nodes.index_of(x);
                    if j < init.len() {
                        assert(init[j] == x);
                    }
                }
                if init.contains(x) {
                    let j = init.index_of(x);
                    assert(nodes[j] == x);
                }
            }
            if !(seen.contains(last) || front.contains(last)) {
                assert(out[front.len() as int] == last);
                if front.contains(x) {
                    let j = front.index_of(x);
                    assert(out[j] == x);
                }
                if out.contains(x) {
                    let j = out.index_of(x);
                    if j < front.len() {
                        assert(front[j] == x);
                    }
                }
            }
        }
    }
}

/// Whether `a` ranks before `b`.
fn precedes(a: Scored, b: Scored) -> (r: bool)
    ensures
        r == rank::before(a, b),
{
    a.0.total_rank() > b.0.total_rank() || (a.0.total_rank() == b.0.total_rank() && a.1 < b.1)
}

/// The neighbors that a node keeps, and the candidates that were passed over.
#[verifier::ext_equal]
pub struct SelectionState {
    pub kept: Seq<u32>,
    pub pruned: Seq<u32>,
}

/// Some kept neighbor is closer to the candidate than the node is.
pub open spec fn dominated(sim: F32Bits, sims: Seq<F32Bits>) -> bool {
    exists|i: int| 0 <= i < sims.len() && (#[trigger] sims[i]).exceeds(sim)
}

/// A candidate considered: kept when it is closer to the node than to every
/// neighbor kept before it, so that the neighbors spread over clusters.
pub open spec fn considered(
    s: SelectionState,
    cap: int,
    cand: Scored,
    sims: Seq<F32Bits>,
) -> SelectionState {
    if s.kept.len() >= cap {
        s
    } else if dominated(cand.0, sims) {
        SelectionState { pruned: s.pruned.push(cand.1), ..s }
    } else {
        SelectionState { kept: s.kept.push(cand.1), ..s }
    }
}

/// The final neighbors: topped up from the candidates that were passed over.
pub open spec fn topped_up(s: SelectionState, cap: int) -> Seq<u32> {
    if s.kept.len() >= cap {
        s.kept
    } else if s.kept.len() + s.pruned.len() <= cap {
        s.kept + s.pruned
    } else {
        s.kept + s.pruned.take(cap - s.kept.len())
    }
}

/// A choice of neighbors in progress. Candidates come best first.
pub struct Selection {
    kept: Vec<u32>,
    pruned: Vec<u32>,
}

impl View for Selection {
    type V = SelectionState;

    closed spec fn view(&self) -> SelectionState {
        SelectionState { kept: self.kept@, pruned: self.pruned@ }
    }
}

impl Selection {
    /// Nothing kept yet.
    pub fn new() -> (r: Selection)
        ensures
            r@ == (SelectionState { kept: Seq::empty(), pruned: Seq::empty() }),
    {
        Selection { kept: Vec::new(), pruned: Vec::new() }
    }

    /// The neighbors kept so far: what a candidate's similarity is wanted to.
    pub fn kept(&self) -> (r: &Vec<u32>)
        ensures
            r@ == self@.kept,
    {
        &self.kept
    }

    /// Considers a candidate. `sims` holds its similarity to each kept
    /// neighbor.
    pub fn consider(&mut self, cap: usize, cand: Scored, sims: &Vec<F32Bits>)
        ensures
            final(self)@ == considered(old(self)@, cap as int, cand, sims@),
    {
        let ghost s = self@;
        if self.kept.len() >= cap {
            return ;
        }
        let mut i: usize = 0;
        while i < sims.len()
            invariant
                i <= sims@.len(),
                self.kept@ == s.kept,
                self.pruned@ == s.pruned,
                s.kept.len() < cap,
                s == old(self)@,
                forall|j: int| 0 <= j < i ==> !(#[trigger] sims@[j]).exceeds(cand.0),
            decreases sims@.len() - i,
        {
            if sims[i].is_above(cand.0) {
                self.pruned.push(cand.1);
                assert(self@ =~= considered(s, cap as int, cand, sims@));
                return ;
            }
            i = i + 1;
        }
        self.kept.push(cand.1);
        assert(self@ =~= considered(s, cap as int, cand, sims@));
    }

    /// The final neighbors.
    pub fn chosen(&self, cap: usize) -> (r: Vec<u32>)
        ensures
            r@ == topped_up(self@, cap as int),
    {
        let ghost s = self@;
        let mut out: Vec<u32> = Vec::new();
        let mut i: usize = 0;
        while i < self.kept.len()
            invariant
                i <= self.kept@.len(),
                out@ == self.kept@.take(i as int),
            decreases self.kept@.len() - i,
        {
            out.push(self.kept[i]);
            i = i + 1;
            assert(out@ =~= self.kept@.take(i as int));
        }
        i = 0;
        assert(out@ =~= s.kept + s.pruned.take(0));
        while i < self.pruned.len() && out.len() < cap
            invariant
                i <= self.pruned@.len(),
                self.pruned@ == s.pruned,
                out@ == s.kept + s.pruned.take(i as int),
                i > 0 ==> s.kept.len() + i <= cap,
            decreases self.pruned@.len() - i,
        {
            out.push(self.pruned[i]);
            i = i + 1;
            assert(out@ =~= s.kept + s.pruned.take(i as int));
        }
        assert(out@ =~= topped_up(s, cap as int));
        out
    }
}

/// A selection never exceeds the degree cap.
pub proof fn selection_respects_the_cap(s: SelectionState, cap: int)
    requires
        s.kept.len() <= cap,
    ensures
        topped_up(s, cap).len() <= cap,
{
}

/// A beam never holds more than its width.
pub proof fn beam_respects_its_width(b: BeamState, ef: int, e: Scored)
    requires
        b.found.len() <= ef,
    ensures
        offered(b, ef, e).found.len() <= ef,
{
    rank::placed_adds_one(b.found, e);
}

/// What a search does at one level of the graph: how wide its beam is, and
/// whether the node being inserted is linked there.
#[derive(Clone, Copy, Debug, PartialEq, Eq, Structural)]
pub struct LevelStep {
    /// The level.
    pub level: usize,
    /// Link the new node at this level.
    pub link: bool,
}

/// The levels from `from` down to `to`, without links.
pub open spec fn descent(from: int, to: int) -> Seq<LevelStep>
    decreases from - to + 1,
{
    if from < to {
        Seq::empty()
    } else {
        seq![LevelStep { level: from as usize, link: false }] + descent(from - 1, to)
    }
}

/// The levels from `from` down to 0, with links.
pub open spec fn linking(from: int) -> Seq<LevelStep>
    decreases from + 1,
{
    if from < 0 {
        Seq::empty()
    } else {
        seq![LevelStep { level: from as usize, link: true }] + linking(from - 1)
    }
}

/// The steps of an insertion: a greedy descent above the new node's level,
/// then links downward from the lower of the two top levels.
pub open spec fn insertion_steps(level: int, top: int) -> Seq<LevelStep> {
    descent(top, level + 1) + linking(
        if level < top {
            level
        } else {
            top
        },
    )
}

/// The levels that an insertion goes through.
pub fn plan_insertion(level: usize, top: usize) -> (r: Vec<LevelStep>)
    requires
        level <= hnsw::MAX_LEVEL,
        top <= hnsw::MAX_LEVEL,
    ensures
        r@ == insertion_steps(level as int, top as int),
{
    let mut out: Vec<LevelStep> = Vec::new();
    let mut lev: usize = top;
    let ghost first = descent(top as int, level + 1);
    assert(out@ + descent(lev as int, level + 1) =~= first);
    while lev > level
        invariant
            lev <= top,
            out@ + descent(lev as int, level + 1) == first,
        decreases lev,
    {
        let ghost rest = descent(lev - 1, level + 1);
        let step = LevelStep { level: lev, link: false };
        let ghost before = out@;
        out.push(step);
        assert(before + (seq![step] + rest) =~= out@ + rest);
        lev = lev - 1;
    }
    assert(out@ =~= first);
    let low: usize = if level < top {
        level
    } else {
        top
    };
    let ghost second = linking(low as int);
    let mut left: usize = low + 1;
    assert(out@ + linking(left - 1) =~= first + second);
    while left > 0
        invariant
            left <= low + 1,
            low <= hnsw::MAX_LEVEL,
            out@ + linking(left - 1) == first + second,
        decreases left,
    {
        let ghost rest = linking(left - 2);
        let step = LevelStep { level: left - 1, link: true };
        let ghost before = out@;
        out.push(step);
        assert(before + (seq![step] + rest) =~= out@ + rest);
        left = left - 1;
    }
    assert(out@ =~= first + second);
    out
}

} // verus!
