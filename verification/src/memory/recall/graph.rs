//! The graph source: breadth-first expansion from entity anchors over the edge
//! tables, with hard caps on entities, edges and candidates.

use crate::float::F32Bits;
use crate::id::{EntityId, FactId, TermId, NONE_U32};
use crate::index::postings;
use crate::index::rank;
use crate::index::rank::{rank_top, Scored};
use crate::memory::recall::admission;
use crate::memory::recall::admission::Allow;
use crate::memory::recall::reach;
use crate::memory::state;
use crate::memory::state::State;
use crate::memory::Memory;
use crate::model;
use crate::model::{
    edge_end, edge_floor, edge_history_ceiling, edge_history_floor, EdgeHistorySlot, EdgeSlot, Slot,
};
use crate::table;
use crate::table::Table;
use vstd::prelude::*;
use vstd::string::*;

verus! {

/// Candidates per source.
pub const SOURCE_CAP: usize = 128;

/// Entities that an expansion may visit.
pub const GRAPH_ENTITY_CAP: usize = 64;

/// Facts that an expansion may gather.
pub const GRAPH_FACT_CAP: usize = 256;

/// Edges that an expansion may return.
pub const GRAPH_EDGE_CAP: usize = 128;

/// List entries that an expansion may examine: a hub entity must not turn it
/// into a full decode of its list.
pub const GRAPH_EXAMINE_CAP: usize = 2048;

/// One edge that the graph source walked.
#[derive(Clone, Copy, Debug, PartialEq, Eq, Structural)]
pub struct RecalledEdge {
    /// Source entity.
    pub src: EntityId,
    /// Relation term.
    pub rel: TermId,
    /// Destination entity.
    pub dst: EntityId,
    /// Provenance fact or the sentinel.
    pub provenance: FactId,
}

/// An expansion in progress: the edges met, and the entities visited with
/// their distance from an anchor.
#[verifier::ext_equal]
pub struct Walk {
    pub edges: Seq<RecalledEdge>,
    pub visited: Seq<(EntityId, int)>,
}

/// One edge seen from an entity: the other end, the relation, whether the
/// entity is its source, and its provenance.
pub type Neighbor = (EntityId, TermId, bool, FactId);

/// The rows with keys from `from` up to, not including, `to`.
pub open spec fn rows_between<T: Slot>(rows: Seq<T>, from: int, to: int) -> Seq<T> {
    if table::rank(rows, from) <= table::rank(rows, to) {
        rows.subrange(table::rank(rows, from), table::rank(rows, to))
    } else {
        Seq::empty()
    }
}

/// The key behind the last current edge of an entity.
pub open spec fn edge_stop(a: EntityId) -> int {
    model::edge_key_of(
        EntityId(if a.0 == NONE_U32 { NONE_U32 } else { (a.0 + 1) as u32 }),
        TermId(0),
        EntityId(0),
    )
}

/// The key behind the versions of an entity that had become true.
pub open spec fn version_stop(a: EntityId, as_of: u64) -> int {
    model::edge_history_key_of(
        a,
        if as_of == u64::MAX { u64::MAX } else { (as_of + 1) as u64 },
        crate::id::EdgeId(0),
    )
}

/// The current edges of an entity in one table, in key order.
pub open spec fn current_edges(rows: Seq<EdgeSlot>, entity: EntityId, out: bool) -> Seq<Neighbor> {
    rows_between(
        rows,
        model::edge_key_of(entity, TermId(0), EntityId(0)),
        edge_stop(entity),
    ).map_values(|e: EdgeSlot| (e.b, e.rel, out, e.fact))
}

/// The versions of a run that are valid at an instant, newest first.
pub open spec fn valid_versions(rows: Seq<EdgeHistorySlot>, as_of: u64, out: bool) -> Seq<Neighbor>
    decreases rows.len(),
{
    if rows.len() == 0 {
        Seq::empty()
    } else {
        let rest = valid_versions(rows.drop_first(), as_of, out);
        if as_of < rows[0].valid_to {
            rest.push((rows[0].b, rows[0].rel, out, rows[0].fact))
        } else {
            rest
        }
    }
}

/// The versions of an entity in one table that are valid at an instant, newest
/// first.
pub open spec fn past_edges(
    rows: Seq<EdgeHistorySlot>,
    entity: EntityId,
    as_of: u64,
    out: bool,
) -> Seq<Neighbor> {
    valid_versions(
        rows_between(
            rows,
            model::edge_history_key_of(entity, 0, crate::id::EdgeId(0)),
            version_stop(entity, as_of),
        ),
        as_of,
        out,
    )
}

/// The edges touching an entity: those it is the source of, then those it is
/// the destination of. A query for an instant looks at the history.
pub open spec fn neighbors(s: State, entity: EntityId, as_of: u64, historical: bool) -> Seq<
    Neighbor,
> {
    if historical {
        past_edges(s.hist_out, entity, as_of, true) + past_edges(s.hist_in, entity, as_of, false)
    } else {
        current_edges(s.edges_out, entity, true) + current_edges(s.edges_in, entity, false)
    }
}

/// The edge that a neighbor stands for.
pub open spec fn edge_to(entity: EntityId, n: Neighbor) -> RecalledEdge {
    RecalledEdge {
        src: if n.2 { entity } else { n.0 },
        rel: n.1,
        dst: if n.2 { n.0 } else { entity },
        provenance: n.3,
    }
}

/// An entity was visited.
pub open spec fn seen(visited: Seq<(EntityId, int)>, e: EntityId) -> bool {
    exists|i: int| 0 <= i < visited.len() && (#[trigger] visited[i]).0 == e
}

/// One neighbor taken in: its edge and its entity, each once and within the
/// caps.
pub open spec fn touched(w: Walk, entity: EntityId, n: Neighbor, depth: int) -> Walk {
    let edge = edge_to(entity, n);
    Walk {
        edges: if w.edges.len() < GRAPH_EDGE_CAP && !w.edges.contains(edge) {
            w.edges.push(edge)
        } else {
            w.edges
        },
        visited: if w.visited.len() < GRAPH_ENTITY_CAP && !seen(w.visited, n.0) {
            w.visited.push((n.0, depth))
        } else {
            w.visited
        },
    }
}

/// The neighbors of one entity taken in, in order.
pub open spec fn all_touched(w: Walk, entity: EntityId, ns: Seq<Neighbor>, depth: int) -> Walk
    decreases ns.len(),
{
    if ns.len() == 0 {
        w
    } else {
        touched(all_touched(w, entity, ns.drop_last(), depth), entity, ns.last(), depth)
    }
}

/// Both caps are reached: nothing more can be taken in.
pub open spec fn walk_full(w: Walk) -> bool {
    w.edges.len() >= GRAPH_EDGE_CAP && w.visited.len() >= GRAPH_ENTITY_CAP
}

/// The entities at places `from` to `to` expanded, in order.
pub open spec fn layer_expanded(
    s: State,
    w: Walk,
    as_of: u64,
    historical: bool,
    from: int,
    to: int,
    depth: int,
) -> Walk
    decreases to - from,
{
    if to <= from {
        w
    } else {
        let v = layer_expanded(s, w, as_of, historical, from, to - 1, depth);
        let entity = v.visited[to - 1].0;
        all_touched(v, entity, neighbors(s, entity, as_of, historical), depth)
    }
}

/// The expansion to a depth, and where its last layer starts.
pub open spec fn expanded(s: State, anchors: Walk, as_of: u64, historical: bool, depth: nat) -> (
    Walk,
    int,
)
    decreases depth,
{
    if depth == 0 {
        (anchors, 0)
    } else {
        let (w, from) = expanded(s, anchors, as_of, historical, (depth - 1) as nat);
        (
            layer_expanded(s, w, as_of, historical, from, w.visited.len() as int, depth as int),
            w.visited.len() as int,
        )
    }
}

/// The anchors of a query: the known entities among some names, each once.
pub open spec fn anchors_of(s: State, names: Seq<Seq<char>>) -> Seq<(EntityId, int)>
    decreases names.len(),
{
    if names.len() == 0 {
        Seq::empty()
    } else {
        let front = anchors_of(s, names.drop_last());
        match state::entity_named(s, state::normalized(names.last())) {
            Some(e) => if seen(front, e) {
                front
            } else {
                front.push((e, 0int))
            },
            None => front,
        }
    }
}

/// The facts of some visited entities, with the entity's distance.
pub open spec fn facts_of(s: State, visited: Seq<(EntityId, int)>) -> Seq<(FactId, int)>
    decreases visited.len(),
{
    if visited.len() == 0 {
        Seq::empty()
    } else {
        let (e, depth) = visited.last();
        facts_of(s, visited.drop_last()) + postings::entries_of(s.entity_facts, e.0).map_values(
            |x: postings::Entry| (FactId(x.0), depth),
        )
    }
}

/// The admitted ones among the first `n` facts, within the caps.
pub open spec fn gathered(
    s: State,
    filter: Option<Seq<FactId>>,
    as_of: u64,
    include_closed: bool,
    items: Seq<(FactId, int)>,
    n: nat,
) -> Seq<(FactId, int)>
    decreases n,
{
    if n == 0 {
        Seq::empty()
    } else {
        let front = gathered(s, filter, as_of, include_closed, items, (n - 1) as nat);
        if front.len() >= GRAPH_FACT_CAP || n > GRAPH_EXAMINE_CAP {
            front
        } else if admission::admitted(s, filter, as_of, include_closed, items[n - 1].0) is Some {
            front.push(items[n - 1])
        } else {
            front
        }
    }
}

/// A fact is among some candidates.
pub open spec fn has_fact(xs: Seq<(FactId, int)>, f: FactId) -> bool {
    exists|i: int| 0 <= i < xs.len() && (#[trigger] xs[i]).0 == f
}

/// The candidates with the provenance facts of the first `n` edges.
pub open spec fn with_provenance(
    s: State,
    filter: Option<Seq<FactId>>,
    as_of: u64,
    include_closed: bool,
    out: Seq<(FactId, int)>,
    edges: Seq<RecalledEdge>,
    n: nat,
) -> Seq<(FactId, int)>
    decreases n,
{
    if n == 0 {
        out
    } else {
        let front = with_provenance(s, filter, as_of, include_closed, out, edges, (n - 1) as nat);
        let f = edges[n - 1].provenance;
        if front.len() >= GRAPH_FACT_CAP {
            front
        } else if f.0 != NONE_U32 && !has_fact(front, f) && admission::admitted(
            s,
            filter,
            as_of,
            include_closed,
            f,
        ) is Some {
            front.push((f, 1))
        } else {
            front
        }
    }
}

/// The candidates with the weights of their distances.
pub open spec fn weighted(xs: Seq<(FactId, int)>, weights: Seq<F32Bits>) -> Seq<Scored> {
    xs.map_values(|x: (FactId, int)| (weights[x.1], x.0.0))
}

/// Neighbors of the same fact reduced to the first of them.
pub open spec fn deduped(xs: Seq<Scored>) -> Seq<Scored>
    decreases xs.len(),
{
    if xs.len() == 0 {
        Seq::empty()
    } else {
        let front = deduped(xs.drop_last());
        if front.len() > 0 && front.last().1 == xs.last().1 {
            front
        } else {
            front.push(xs.last())
        }
    }
}

/// The candidates of an expansion, before ranking.
pub open spec fn graph_candidates(
    s: State,
    filter: Option<Seq<FactId>>,
    as_of: u64,
    include_closed: bool,
    w: Walk,
) -> Seq<(FactId, int)> {
    let items = facts_of(s, w.visited);
    with_provenance(
        s,
        filter,
        as_of,
        include_closed,
        gathered(s, filter, as_of, include_closed, items, items.len()),
        w.edges,
        w.edges.len(),
    )
}

/// The ranked candidates of an expansion.
pub open spec fn graph_ranked(
    s: State,
    filter: Option<Seq<FactId>>,
    as_of: u64,
    include_closed: bool,
    w: Walk,
    weights: Seq<F32Bits>,
) -> Seq<Scored> {
    deduped(
        rank::top(
            weighted(graph_candidates(s, filter, as_of, include_closed, w), weights),
            SOURCE_CAP as int,
        ),
    )
}

pub open spec fn visited_views(xs: Seq<(EntityId, usize)>) -> Seq<(EntityId, int)> {
    xs.map_values(|x: (EntityId, usize)| (x.0, x.1 as int))
}

pub open spec fn cand_views(xs: Seq<(FactId, usize)>) -> Seq<(FactId, int)> {
    xs.map_values(|x: (FactId, usize)| (x.0, x.1 as int))
}

/// An expansion in progress.
pub struct Expansion {
    /// The edges met.
    pub edges: Vec<RecalledEdge>,
    /// The entities visited, with their distance from an anchor.
    pub visited: Vec<(EntityId, usize)>,
}

impl View for Expansion {
    type V = Walk;

    open spec fn view(&self) -> Walk {
        Walk { edges: self.edges@, visited: visited_views(self.visited@) }
    }
}

proof fn lemma_full_stays(w: Walk, entity: EntityId, ns: Seq<Neighbor>, depth: int, n: int)
    requires
        0 <= n <= ns.len(),
        walk_full(all_touched(w, entity, ns.take(n), depth)),
    ensures
        all_touched(w, entity, ns, depth) == all_touched(w, entity, ns.take(n), depth),
    decreases ns.len() - n,
{
    if n < ns.len() {
        assert(ns.take(n + 1).drop_last() =~= ns.take(n));
        let v = all_touched(w, entity, ns.take(n), depth);
        assert(touched(v, entity, ns[n], depth) =~= v);
        lemma_full_stays(w, entity, ns, depth, n + 1);
    } else {
        assert(ns.take(n) =~= ns);
    }
}

proof fn lemma_joined(w: Walk, entity: EntityId, a: Seq<Neighbor>, b: Seq<Neighbor>, depth: int)
    ensures
        all_touched(w, entity, a + b, depth) == all_touched(
            all_touched(w, entity, a, depth),
            entity,
            b,
            depth,
        ),
    decreases b.len(),
{
    if b.len() == 0 {
        assert(a + b =~= a);
    } else {
        assert((a + b).drop_last() =~= a + b.drop_last());
        assert((a + b).last() == b.last());
        lemma_joined(w, entity, a, b.drop_last(), depth);
    }
}

impl Expansion {
    fn is_full(&self) -> (r: bool)
        ensures
            r == walk_full(self@),
    {
        self.edges.len() >= GRAPH_EDGE_CAP && self.visited.len() >= GRAPH_ENTITY_CAP
    }

    fn has_edge(&self, edge: RecalledEdge) -> (r: bool)
        ensures
            r == self@.edges.contains(edge),
    {
        let mut i: usize = 0;
        while i < self.edges.len()
            invariant
                i <= self.edges@.len(),
                forall|k: int| 0 <= k < i ==> #[trigger] self.edges@[k] != edge,
            decreases self.edges@.len() - i,
        {
            if self.edges[i] == edge {
                return true;
            }
            i = i + 1;
        }
        false
    }

    fn has_seen(&self, e: EntityId) -> (r: bool)
        ensures
            r == seen(self@.visited, e),
    {
        let mut i: usize = 0;
        while i < self.visited.len()
            invariant
                i <= self.visited@.len(),
                forall|k: int| 0 <= k < i ==> (#[trigger] self@.visited[k]).0 != e,
            decreases self.visited@.len() - i,
        {
            assert(self@.visited[i as int].0 == self.visited@[i as int].0);
            if self.visited[i].0 == e {
                return true;
            }
            i = i + 1;
        }
        false
    }

    /// Takes one neighbor in.
    fn touch(&mut self, entity: EntityId, n: Neighbor, depth: usize)
        ensures
            final(self)@ == touched(old(self)@, entity, n, depth as int),
    {
        let ghost w = self@;
        let edge = RecalledEdge {
            src: if n.2 {
                entity
            } else {
                n.0
            },
            rel: n.1,
            dst: if n.2 {
                n.0
            } else {
                entity
            },
            provenance: n.3,
        };
        if self.edges.len() < GRAPH_EDGE_CAP && !self.has_edge(edge) {
            self.edges.push(edge);
        }
        if self.visited.len() < GRAPH_ENTITY_CAP && !self.has_seen(n.0) {
            self.visited.push((n.0, depth));
            assert(visited_views(self.visited@) =~= w.visited.push((n.0, depth as int)));
        }
        assert(self@ =~= touched(w, entity, n, depth as int));
    }

    /// Takes in the current edges of an entity in one table. Stops as soon as
    /// nothing more can be taken in.
    fn touch_current(&mut self, rows: &Table<EdgeSlot>, entity: EntityId, out: bool, depth: usize)
        requires
            rows.wf(),
        ensures
            final(self)@ == all_touched(
                old(self)@,
                entity,
                current_edges(rows@, entity, out),
                depth as int,
            ),
    {
        let ghost w = self@;
        let ghost ns = current_edges(rows@, entity, out);
        let from: usize = rows.lower_bound(edge_floor(entity));
        let to: usize = rows.lower_bound(edge_end(entity));
        let ghost run = rows_between(
            rows@,
            model::edge_key_of(entity, TermId(0), EntityId(0)),
            edge_stop(entity),
        );
        let mut i: usize = from;
        assert(ns.take(0) =~= Seq::empty());
        while i < to
            invariant
                from <= to ==> from <= i <= to,
                from > to ==> i == from,
                to <= rows@.len(),
                from <= rows@.len(),
                run == (if from <= to {
                    rows@.subrange(from as int, to as int)
                } else {
                    Seq::empty()
                }),
                ns == run.map_values(|e: EdgeSlot| (e.b, e.rel, out, e.fact)),
                from <= to ==> self@ == all_touched(w, entity, ns.take(i - from), depth as int),
                from > to ==> self@ == w,
                w == old(self)@,
                ns == current_edges(rows@, entity, out),
            decreases to - i,
        {
            let e: EdgeSlot = rows.row(i);
            proof {
                assert(ns.take(i - from + 1).drop_last() =~= ns.take(i - from));
                assert(ns.take(i - from + 1).last() == (e.b, e.rel, out, e.fact));
            }
            self.touch(entity, (e.b, e.rel, out, e.fact), depth);
            i = i + 1;
            if self.is_full() {
                proof {
                    lemma_full_stays(w, entity, ns, depth as int, i - from);
                }
                return ;
            }
        }
        if from <= to {
            assert(ns.take(i - from) =~= ns);
        } else {
            assert(ns =~= Seq::empty());
        }
    }

    /// Takes in the versions of an entity in one table that are valid at an
    /// instant, newest first. Stops as soon as nothing more can be taken in.
    fn touch_past(
        &mut self,
        rows: &Table<EdgeHistorySlot>,
        entity: EntityId,
        as_of: u64,
        out: bool,
        depth: usize,
    )
        requires
            rows.wf(),
        ensures
            final(self)@ == all_touched(
                old(self)@,
                entity,
                past_edges(rows@, entity, as_of, out),
                depth as int,
            ),
    {
        let ghost w = self@;
        let from: usize = rows.lower_bound(edge_history_floor(entity));
        let to: usize = rows.lower_bound(edge_history_ceiling(entity, as_of));
        let ghost run = rows_between(
            rows@,
            model::edge_history_key_of(entity, 0, crate::id::EdgeId(0)),
            version_stop(entity, as_of),
        );
        let ghost ns = valid_versions(run, as_of, out);
        if from > to {
            assert(run =~= Seq::empty());
            assert(ns =~= Seq::empty());
            return ;
        }
        let mut i: usize = to;
        proof {
            assert(run.skip(to - from) =~= Seq::empty());
            assert(valid_versions(run.skip(to - from), as_of, out) =~= Seq::empty());
        }
        while i > from
            invariant
                from <= i <= to <= rows@.len(),
                run == rows@.subrange(from as int, to as int),
                ns == valid_versions(run, as_of, out),
                self@ == all_touched(
                    w,
                    entity,
                    valid_versions(run.skip(i - from), as_of, out),
                    depth as int,
                ),
                w == old(self)@,
                ns == past_edges(rows@, entity, as_of, out),
            decreases i,
        {
            let ghost tail = run.skip(i - from);
            i = i - 1;
            let e: EdgeHistorySlot = rows.row(i);
            let ghost more = run.skip(i - from);
            proof {
                assert(more.drop_first() =~= tail);
                assert(more[0] == e);
                if as_of < e.valid_to {
                    let xs = valid_versions(tail, as_of, out);
                    assert(xs.push((e.b, e.rel, out, e.fact)).drop_last() =~= xs);
                }
            }
            if as_of < e.valid_to {
                self.touch(entity, (e.b, e.rel, out, e.fact), depth);
                if self.is_full() {
                    proof {
                        lemma_prefix(run, as_of, out, i - from);
                        let xs = valid_versions(more, as_of, out);
                        assert(ns.take(xs.len() as int) =~= xs);
                        lemma_full_stays(w, entity, ns, depth as int, xs.len() as int);
                    }
                    return ;
                }
            }
        }
        assert(run.skip(0) =~= run);
    }

    /// Takes in every edge touching an entity.
    fn touch_all(
        &mut self,
        mem: &Memory,
        entity: EntityId,
        as_of: u64,
        historical: bool,
        depth: usize,
    )
        requires
            mem.wf(),
        ensures
            final(self)@ == all_touched(
                old(self)@,
                entity,
                neighbors(mem@, entity, as_of, historical),
                depth as int,
            ),
    {
        let ghost w = self@;
        let ghost s = mem@;
        if historical {
            let ghost a = past_edges(s.hist_out, entity, as_of, true);
            let ghost b = past_edges(s.hist_in, entity, as_of, false);
            self.touch_past(&mem.edges_hist_out, entity, as_of, true, depth);
            self.touch_past(&mem.edges_hist_in, entity, as_of, false, depth);
            proof {
                lemma_joined(w, entity, a, b, depth as int);
            }
        } else {
            let ghost a = current_edges(s.edges_out, entity, true);
            let ghost b = current_edges(s.edges_in, entity, false);
            self.touch_current(&mem.edges_out, entity, true, depth);
            self.touch_current(&mem.edges_in, entity, false, depth);
            proof {
                lemma_joined(w, entity, a, b, depth as int);
            }
        }
    }
}

/// The newest versions come first, so a longer run only adds behind them.
proof fn lemma_prefix(run: Seq<EdgeHistorySlot>, as_of: u64, out: bool, k: int)
    requires
        0 <= k <= run.len(),
    ensures
        valid_versions(run.skip(k), as_of, out).len() <= valid_versions(run, as_of, out).len(),
        valid_versions(run, as_of, out).take(
            valid_versions(run.skip(k), as_of, out).len() as int,
        ) == valid_versions(run.skip(k), as_of, out),
    decreases k,
{
    let all = valid_versions(run, as_of, out);
    if k == 0 {
        assert(run.skip(0) =~= run);
        assert(all.take(all.len() as int) =~= all);
    } else {
        let rest = run.drop_first();
        assert(rest.skip(k - 1) =~= run.skip(k));
        lemma_prefix(rest, as_of, out, k - 1);
        let xs = valid_versions(run.skip(k), as_of, out);
        let front = valid_versions(rest, as_of, out);
        assert(all.take(xs.len() as int) =~= front.take(xs.len() as int));
    }
}

impl Memory {
    /// The anchors of a query.
    fn graph_anchors(&self, names: &[&str]) -> (r: Expansion)
        requires
            self.wf(),
        ensures
            r@ == (Walk {
                edges: Seq::empty(),
                visited: anchors_of(self@, crate::journal::str_views(names@)),
            }),
    {
        let ghost s = self@;
        let ghost views = crate::journal::str_views(names@);
        let mut out = Expansion { edges: Vec::new(), visited: Vec::new() };
        let mut i: usize = 0;
        proof {
            assert(views.take(0) =~= Seq::empty());
            assert(visited_views(out.visited@) =~= Seq::empty());
        }
        while i < names.len()
            invariant
                i <= names@.len(),
                self.wf(),
                s == self@,
                views == crate::journal::str_views(names@),
                out@.edges =~= Seq::<RecalledEdge>::empty(),
                out@.visited == anchors_of(s, views.take(i as int)),
            decreases names@.len() - i,
        {
            proof {
                assert(views.take(i + 1).drop_last() =~= views.take(i as int));
                assert(views.take(i + 1).last() == names@[i as int]@);
            }
            let norm: String = self.normalize_name(names[i]);
            if let Some(e) = self.lookup_entity_by_norm(norm.as_str()) {
                if !out.has_seen(e) {
                    let ghost before = out@.visited;
                    out.visited.push((e, 0));
                    assert(visited_views(out.visited@) =~= before.push((e, 0int)));
                }
            }
            i = i + 1;
        }
        assert(views.take(i as int) =~= views);
        out
    }

    /// Expands the anchors of a query to the configured depth.
    pub fn graph_expansion(&self, names: &[&str], as_of: u64, historical: bool) -> (r: Expansion)
        requires
            self.wf(),
        ensures
            r@ == expanded(
                self@,
                Walk {
                    edges: Seq::empty(),
                    visited: anchors_of(self@, crate::journal::str_views(names@)),
                },
                as_of,
                historical,
                self@.cfg.graph_depth as nat,
            ).0,
            reach::ends_named(self@) && (forall|i: int|
                0 <= i < r.visited@.len() ==> (#[trigger] r.visited@[i]).0.0 < NONE_U32)
                ==> reach::follows_links(
                self@,
                anchors_of(self@, crate::journal::str_views(names@)),
                as_of,
                historical,
                self@.cfg.graph_depth as int,
                r@,
            ),
    {
        let ghost s = self@;
        let mut w: Expansion = self.graph_anchors(names);
        let ghost anchors = w@;
        let mut frontier: usize = 0;
        let mut depth: u32 = 0;
        while depth < self.cfg.graph_depth
            invariant
                depth <= self.cfg.graph_depth,
                self.wf(),
                s == self@,
                frontier <= w.visited@.len(),
                expanded(s, anchors, as_of, historical, depth as nat) == (w@, frontier as int),
            decreases self.cfg.graph_depth - depth,
        {
            let ghost start = w@;
            let end: usize = w.visited.len();
            let mut at: usize = frontier;
            while at < end
                invariant
                    frontier <= at <= end,
                    end <= w.visited@.len(),
                    depth < u32::MAX,
                    self.wf(),
                    s == self@,
                    w@ == layer_expanded(
                        s,
                        start,
                        as_of,
                        historical,
                        frontier as int,
                        at as int,
                        depth + 1,
                    ),
                decreases end - at,
            {
                let entity: EntityId = w.visited[at].0;
                assert(w@.visited[at as int].0 == entity);
                let ghost before = w@;
                w.touch_all(self, entity, as_of, historical, depth as usize + 1);
                proof {
                    lemma_visited_grows(
                        before,
                        entity,
                        neighbors(s, entity, as_of, historical),
                        depth + 1,
                    );
                }
                at = at + 1;
            }
            frontier = end;
            depth = depth + 1;
        }
        proof {
            if reach::ends_named(s) && (forall|i: int|
                0 <= i < w.visited@.len() ==> (#[trigger] w.visited@[i]).0.0 < NONE_U32) {
                self.edges_out.lemma_wf();
                self.edges_in.lemma_wf();
                self.edges_hist_out.lemma_wf();
                self.edges_hist_in.lemma_wf();
                anchors_are_near(s, crate::journal::str_views(names@));
                reach::lemma_starts(s, anchors, as_of, historical, depth as nat);
                assert forall|i: int| 0 <= i < anchors.visited.len() implies (
                #[trigger] anchors.visited[i]).1 == 0 && anchors.visited[i].0.0 < NONE_U32 by {
                    assert(w@.visited[i] == anchors.visited[i]);
                    assert(w@.visited[i].0 == w.visited@[i].0);
                }
                reach::an_expansion_follows_every_link(
                    s,
                    anchors,
                    as_of,
                    historical,
                    depth as nat,
                );
            }
        }
        w
    }

    /// The candidates among the facts of the visited entities.
    fn gather_facts(
        &self,
        filter: &Option<Allow>,
        as_of: u64,
        include_closed: bool,
        w: &Expansion,
    ) -> (r: Vec<(FactId, usize)>)
        requires
            self.wf(),
            filter matches Some(a) ==> a.wf(),
        ensures
            cand_views(r@) == gathered(
                self@,
                admission::allow_view(*filter),
                as_of,
                include_closed,
                facts_of(self@, w@.visited),
                facts_of(self@, w@.visited).len(),
            ),
    {
        let ghost s = self@;
        let ghost ids = admission::allow_view(*filter);
        let ghost visited = w@.visited;
        let ghost items = facts_of(s, visited);
        let mut out: Vec<(FactId, usize)> = Vec::new();
        let mut examined: usize = 0;
        let mut i: usize = 0;
        proof {
            assert(cand_views(out@) =~= Seq::empty());
            assert(visited.take(0) =~= Seq::empty());
        }
        while i < w.visited.len()
            invariant
                i <= w.visited@.len(),
                visited == w@.visited,
                visited.len() == w.visited@.len(),
                s == self@,
                self.wf(),
                filter matches Some(a) ==> a.wf(),
                ids == admission::allow_view(*filter),
                items == facts_of(s, visited),
                examined == facts_of(s, visited.take(i as int)).len(),
                examined <= GRAPH_EXAMINE_CAP,
                out@.len() <= GRAPH_FACT_CAP,
                cand_views(out@) == gathered(
                    s,
                    ids,
                    as_of,
                    include_closed,
                    items,
                    examined as nat,
                ),
            decreases w.visited@.len() - i,
        {
            let (entity, depth) = w.visited[i];
            let ghost start = examined as int;
            let ghost xs = postings::entries_of(s.entity_facts, entity.0);
            let ghost front = facts_of(s, visited.take(i as int));
            proof {
                assert(visited[i as int] == (entity, depth as int));
                assert(visited.take(i + 1).drop_last() =~= visited.take(i as int));
                assert(visited.take(i + 1).last() == visited[i as int]);
                lemma_facts_prefix(s, visited, i + 1);
            }
            let ghost upto = facts_of(s, visited.take(i + 1));
            let mut walk = self.entity_facts.entries(entity.0);
            let mut more: bool = true;
            assert(xs.skip(0) =~= xs);
            while more
                invariant
                    walk.wf(),
                    0 <= start <= examined,
                    examined - start <= xs.len(),
                    examined <= GRAPH_EXAMINE_CAP,
                    out@.len() <= GRAPH_FACT_CAP,
                    walk.rest() == xs.skip(examined - start),
                    start == front.len(),
                    upto == front + xs.map_values(
                        |x: postings::Entry| (FactId(x.0), depth as int),
                    ),
                    upto.len() <= items.len(),
                    items.take(upto.len() as int) == upto,
                    s == self@,
                    self.wf(),
                    filter matches Some(a) ==> a.wf(),
                    ids == admission::allow_view(*filter),
                    items == facts_of(s, w@.visited),
                    cand_views(out@) == gathered(
                        s,
                        ids,
                        as_of,
                        include_closed,
                        items,
                        examined as nat,
                    ),
                    !more ==> examined - start == xs.len(),
                decreases (xs.len() - (examined - start)) + (if more { 1int } else { 0 }),
            {
                let ghost at = examined - start;
                match walk.next() {
                    None => {
                        more = false;
                    },
                    Some((fact, _)) => {
                        proof {
                            assert(xs.skip(at)[0] == xs[at]);
                            assert(xs.skip(at).skip(1) =~= xs.skip(at + 1));
                            assert(upto[start + at] == (fact, depth as int));
                            assert(items.take(upto.len() as int)[start + at] == items[start + at]);
                        }
                        if out.len() >= GRAPH_FACT_CAP || examined >= GRAPH_EXAMINE_CAP {
                            proof {
                                lemma_gather_stops(
                                    s,
                                    ids,
                                    as_of,
                                    include_closed,
                                    items,
                                    examined as nat,
                                    items.len(),
                                );
                            }
                            return out;
                        }
                        examined = examined + 1;
                        if self.admission(filter, as_of, include_closed, fact).is_some() {
                            let ghost before = cand_views(out@);
                            out.push((fact, depth));
                            assert(cand_views(out@) =~= before.push((fact, depth as int)));
                        }
                    },
                }
            }
            i = i + 1;
        }
        assert(visited.take(i as int) =~= visited);
        out
    }

    /// Adds the provenance facts of the walked edges.
    fn gather_provenance(
        &self,
        filter: &Option<Allow>,
        as_of: u64,
        include_closed: bool,
        edges: &Vec<RecalledEdge>,
        out: &mut Vec<(FactId, usize)>,
    )
        requires
            self.wf(),
            filter matches Some(a) ==> a.wf(),
        ensures
            cand_views(final(out)@) == with_provenance(
                self@,
                admission::allow_view(*filter),
                as_of,
                include_closed,
                cand_views(old(out)@),
                edges@,
                edges@.len(),
            ),
    {
        let ghost s = self@;
        let ghost ids = admission::allow_view(*filter);
        let ghost start = cand_views(out@);
        let mut i: usize = 0;
        while i < edges.len()
            invariant
                i <= edges@.len(),
                s == self@,
                self.wf(),
                filter matches Some(a) ==> a.wf(),
                ids == admission::allow_view(*filter),
                cand_views(out@) == with_provenance(
                    s,
                    ids,
                    as_of,
                    include_closed,
                    start,
                    edges@,
                    i as nat,
                ),
            decreases edges@.len() - i,
        {
            let f: FactId = edges[i].provenance;
            let ghost before = cand_views(out@);
            if out.len() < GRAPH_FACT_CAP && f.0 != NONE_U32 && !holds_fact(out, f)
                && self.admission(filter, as_of, include_closed, f).is_some() {
                out.push((f, 1));
                assert(cand_views(out@) =~= before.push((f, 1int)));
            }
            i = i + 1;
        }
    }

    /// The graph source: the facts of an expansion, ranked by the weight of
    /// their distance. `weights[d]` is the weight of distance `d`.
    pub fn graph_source(
        &self,
        filter: &Option<Allow>,
        as_of: u64,
        include_closed: bool,
        w: &Expansion,
        weights: &Vec<F32Bits>,
    ) -> (r: Vec<Scored>)
        requires
            self.wf(),
            filter matches Some(a) ==> a.wf(),
            weights@.len() >= 2,
            forall|i: int|
                0 <= i < w.visited@.len() ==> (#[trigger] w.visited@[i]).1 < weights@.len(),
        ensures
            r@ == (if w@.visited.len() == 0 {
                Seq::empty()
            } else {
                graph_ranked(
                    self@,
                    admission::allow_view(*filter),
                    as_of,
                    include_closed,
                    w@,
                    weights@,
                )
            }),
    {
        if w.visited.len() == 0 {
            return Vec::new();
        }
        let ghost s = self@;
        let ghost ids = admission::allow_view(*filter);
        let mut cands: Vec<(FactId, usize)> = self.gather_facts(filter, as_of, include_closed, w);
        self.gather_provenance(filter, as_of, include_closed, &w.edges, &mut cands);
        let ghost views = cand_views(cands@);
        proof {
            let items = facts_of(s, w@.visited);
            assert forall|i: int| 0 <= i < w@.visited.len() implies 0 <= (
            #[trigger] w@.visited[i]).1 < weights@.len() by {
                assert(w@.visited[i].1 == w.visited@[i].1);
            }
            lemma_depths_facts(s, w@.visited, weights@.len() as int);
            lemma_depths_gathered(
                s,
                ids,
                as_of,
                include_closed,
                items,
                items.len(),
                weights@.len() as int,
            );
            lemma_depths_provenance(
                s,
                ids,
                as_of,
                include_closed,
                gathered(s, ids, as_of, include_closed, items, items.len()),
                w@.edges,
                w@.edges.len(),
                weights@.len() as int,
            );
        }
        let mut scored: Vec<Scored> = Vec::new();
        let mut i: usize = 0;
        assert(weighted(views.take(0), weights@) =~= Seq::empty());
        while i < cands.len()
            invariant
                i <= cands@.len(),
                views == cand_views(cands@),
                forall|k: int| 0 <= k < views.len() ==> 0 <= (#[trigger] views[k]).1
                    < weights@.len(),
                scored@ == weighted(views.take(i as int), weights@),
            decreases cands@.len() - i,
        {
            let (f, d) = cands[i];
            assert(views[i as int] == (f, d as int));
            scored.push((weights[d], f.0));
            i = i + 1;
            assert(scored@ =~= weighted(views.take(i as int), weights@));
        }
        assert(views.take(i as int) =~= views);
        let best: Vec<Scored> = rank_top(&scored, SOURCE_CAP);
        dedup(&best)
    }
}

fn holds_fact(xs: &Vec<(FactId, usize)>, f: FactId) -> (r: bool)
    ensures
        r == has_fact(cand_views(xs@), f),
{
    let mut i: usize = 0;
    let ghost views = cand_views(xs@);
    while i < xs.len()
        invariant
            i <= xs@.len(),
            views == cand_views(xs@),
            forall|k: int| 0 <= k < i ==> (#[trigger] views[k]).0 != f,
        decreases xs@.len() - i,
    {
        assert(views[i as int].0 == xs@[i as int].0);
        if xs[i].0 == f {
            return true;
        }
        i = i + 1;
    }
    false
}

/// Drops an item of the same fact as the one before it.
fn dedup(xs: &Vec<Scored>) -> (r: Vec<Scored>)
    ensures
        r@ == deduped(xs@),
{
    let mut out: Vec<Scored> = Vec::new();
    let mut i: usize = 0;
    assert(xs@.take(0) =~= Seq::empty());
    while i < xs.len()
        invariant
            i <= xs@.len(),
            out@ == deduped(xs@.take(i as int)),
        decreases xs@.len() - i,
    {
        assert(xs@.take(i + 1).drop_last() =~= xs@.take(i as int));
        let n: usize = out.len();
        if n == 0 || out[n - 1].1 != xs[i].1 {
            out.push(xs[i]);
        }
        i = i + 1;
    }
    assert(xs@.take(i as int) =~= xs@);
    out
}

proof fn lemma_visited_grows(w: Walk, entity: EntityId, ns: Seq<Neighbor>, depth: int)
    ensures
        w.visited.len() <= all_touched(w, entity, ns, depth).visited.len(),
    decreases ns.len(),
{
    if ns.len() > 0 {
        lemma_visited_grows(w, entity, ns.drop_last(), depth);
    }
}

proof fn lemma_facts_prefix(s: State, visited: Seq<(EntityId, int)>, n: int)
    requires
        0 <= n <= visited.len(),
    ensures
        facts_of(s, visited.take(n)).len() <= facts_of(s, visited).len(),
        facts_of(s, visited).take(facts_of(s, visited.take(n)).len() as int) == facts_of(
            s,
            visited.take(n),
        ),
    decreases visited.len() - n,
{
    let all = facts_of(s, visited);
    if n == visited.len() {
        assert(visited.take(n) =~= visited);
        assert(all.take(all.len() as int) =~= all);
    } else {
        lemma_facts_prefix(s, visited, n + 1);
        assert(visited.take(n + 1).drop_last() =~= visited.take(n));
        let a = facts_of(s, visited.take(n));
        let b = facts_of(s, visited.take(n + 1));
        assert(all.take(a.len() as int) =~= b.take(a.len() as int));
        assert(b.take(a.len() as int) =~= a);
    }
}

/// Once a cap is reached, nothing more is gathered.
proof fn lemma_gather_stops(
    s: State,
    filter: Option<Seq<FactId>>,
    as_of: u64,
    include_closed: bool,
    items: Seq<(FactId, int)>,
    n: nat,
    m: nat,
)
    requires
        n <= m,
        gathered(s, filter, as_of, include_closed, items, n).len() >= GRAPH_FACT_CAP || n
            >= GRAPH_EXAMINE_CAP,
    ensures
        gathered(s, filter, as_of, include_closed, items, m) == gathered(
            s,
            filter,
            as_of,
            include_closed,
            items,
            n,
        ),
    decreases m,
{
    if n < m {
        lemma_gather_stops(s, filter, as_of, include_closed, items, n, (m - 1) as nat);
    }
}

/// Every distance of some candidates has a weight.
pub open spec fn depths_below(xs: Seq<(FactId, int)>, n: int) -> bool {
    forall|i: int| 0 <= i < xs.len() ==> 0 <= (#[trigger] xs[i]).1 < n
}

proof fn lemma_depths_facts(s: State, visited: Seq<(EntityId, int)>, n: int)
    requires
        forall|i: int| 0 <= i < visited.len() ==> 0 <= (#[trigger] visited[i]).1 < n,
    ensures
        depths_below(facts_of(s, visited), n),
    decreases visited.len(),
{
    if visited.len() > 0 {
        let init = visited.drop_last();
        assert forall|i: int| 0 <= i < init.len() implies 0 <= (#[trigger] init[i]).1 < n by {
            assert(init[i] == visited[i]);
        }
        lemma_depths_facts(s, init, n);
        let front = facts_of(s, init);
        let all = facts_of(s, visited);
        assert(0 <= visited[visited.len() - 1].1 < n);
        assert forall|i: int| 0 <= i < all.len() implies 0 <= (#[trigger] all[i]).1 < n by {
            if i < front.len() {
                assert(all[i] == front[i]);
            }
        }
    }
}

proof fn lemma_depths_gathered(
    s: State,
    filter: Option<Seq<FactId>>,
    as_of: u64,
    include_closed: bool,
    items: Seq<(FactId, int)>,
    m: nat,
    n: int,
)
    requires
        m <= items.len(),
        depths_below(items, n),
    ensures
        depths_below(gathered(s, filter, as_of, include_closed, items, m), n),
    decreases m,
{
    if m > 0 {
        lemma_depths_gathered(s, filter, as_of, include_closed, items, (m - 1) as nat, n);
        assert(0 <= items[m - 1].1 < n);
    }
}

proof fn lemma_depths_provenance(
    s: State,
    filter: Option<Seq<FactId>>,
    as_of: u64,
    include_closed: bool,
    out: Seq<(FactId, int)>,
    edges: Seq<RecalledEdge>,
    m: nat,
    n: int,
)
    requires
        m <= edges.len(),
        n >= 2,
        depths_below(out, n),
    ensures
        depths_below(with_provenance(s, filter, as_of, include_closed, out, edges, m), n),
    decreases m,
{
    if m > 0 {
        lemma_depths_provenance(s, filter, as_of, include_closed, out, edges, (m - 1) as nat, n);
    }
}

/// Every candidate is admitted.
spec fn all_admitted(
    s: State,
    filter: Option<Seq<FactId>>,
    as_of: u64,
    include_closed: bool,
    xs: Seq<(FactId, int)>,
) -> bool {
    forall|i: int|
        0 <= i < xs.len() ==> admission::admitted(
            s,
            filter,
            as_of,
            include_closed,
            (#[trigger] xs[i]).0,
        ) is Some
}

proof fn lemma_gathered_admitted(
    s: State,
    filter: Option<Seq<FactId>>,
    as_of: u64,
    include_closed: bool,
    items: Seq<(FactId, int)>,
    n: nat,
)
    ensures
        all_admitted(
            s,
            filter,
            as_of,
            include_closed,
            gathered(s, filter, as_of, include_closed, items, n),
        ),
    decreases n,
{
    if n > 0 {
        lemma_gathered_admitted(s, filter, as_of, include_closed, items, (n - 1) as nat);
    }
}

proof fn lemma_provenance_admitted(
    s: State,
    filter: Option<Seq<FactId>>,
    as_of: u64,
    include_closed: bool,
    out: Seq<(FactId, int)>,
    edges: Seq<RecalledEdge>,
    n: nat,
)
    requires
        all_admitted(s, filter, as_of, include_closed, out),
    ensures
        all_admitted(
            s,
            filter,
            as_of,
            include_closed,
            with_provenance(s, filter, as_of, include_closed, out, edges, n),
        ),
    decreases n,
{
    if n > 0 {
        lemma_provenance_admitted(
            s,
            filter,
            as_of,
            include_closed,
            out,
            edges,
            (n - 1) as nat,
        );
    }
}

proof fn lemma_deduped_members(xs: Seq<Scored>)
    ensures
        forall|i: int|
            0 <= i < deduped(xs).len() ==> xs.contains(#[trigger] deduped(xs)[i]),
    decreases xs.len(),
{
    if xs.len() > 0 {
        let front = xs.drop_last();
        lemma_deduped_members(front);
        let d = deduped(xs);
        assert forall|i: int| 0 <= i < d.len() implies xs.contains(#[trigger] d[i]) by {
            if i < deduped(front).len() {
                assert(d[i] == deduped(front)[i]);
                let j = front.index_of(d[i]);
                assert(xs[j] == d[i]);
            } else {
                assert(xs[xs.len() - 1] == d[i]);
            }
        }
    }
}

/// The graph source returns admitted facts only.
pub proof fn ranked_are_admitted(
    s: State,
    filter: Option<Seq<FactId>>,
    as_of: u64,
    include_closed: bool,
    w: Walk,
    weights: Seq<F32Bits>,
)
    ensures
        forall|i: int|
            0 <= i < graph_ranked(s, filter, as_of, include_closed, w, weights).len()
                ==> admission::admitted(
                s,
                filter,
                as_of,
                include_closed,
                FactId(
                    (#[trigger] graph_ranked(s, filter, as_of, include_closed, w, weights)[i]).1,
                ),
            ) is Some,
{
    let items = facts_of(s, w.visited);
    lemma_gathered_admitted(s, filter, as_of, include_closed, items, items.len());
    lemma_provenance_admitted(
        s,
        filter,
        as_of,
        include_closed,
        gathered(s, filter, as_of, include_closed, items, items.len()),
        w.edges,
        w.edges.len(),
    );
    let cands = graph_candidates(s, filter, as_of, include_closed, w);
    let xs = weighted(cands, weights);
    let best = rank::top(xs, SOURCE_CAP as int);
    lemma_deduped_members(best);
    let out = deduped(best);
    assert forall|i: int| 0 <= i < out.len() implies admission::admitted(
        s,
        filter,
        as_of,
        include_closed,
        FactId((#[trigger] out[i]).1),
    ) is Some by {
        let j = best.index_of(out[i]);
        assert(rank::ranked(xs)[j] == out[i]);
        rank::ranked_items_are_given(xs, j);
        let k = xs.index_of(out[i]);
        assert(cands[k].0 == FactId(out[i].1));
    }
}

/// The anchors are at distance 0.
pub proof fn anchors_are_near(s: State, names: Seq<Seq<char>>)
    ensures
        visited_within(anchors_of(s, names), 0),
    decreases names.len(),
{
    if names.len() > 0 {
        anchors_are_near(s, names.drop_last());
    }
}

/// Every visited entity is at most `depth` steps from an anchor.
pub open spec fn visited_within(visited: Seq<(EntityId, int)>, depth: int) -> bool {
    forall|i: int| 0 <= i < visited.len() ==> 0 <= (#[trigger] visited[i]).1 <= depth
}

/// An expansion visits no entity beyond its depth.
pub proof fn expansion_depths(s: State, anchors: Walk, as_of: u64, historical: bool, depth: nat)
    requires
        visited_within(anchors.visited, 0),
    ensures
        visited_within(expanded(s, anchors, as_of, historical, depth).0.visited, depth as int),
    decreases depth,
{
    if depth > 0 {
        expansion_depths(s, anchors, as_of, historical, (depth - 1) as nat);
        let (w, from) = expanded(s, anchors, as_of, historical, (depth - 1) as nat);
        lemma_layer_depths(s, w, as_of, historical, from, w.visited.len() as int, depth as int);
    }
}

proof fn lemma_layer_depths(
    s: State,
    w: Walk,
    as_of: u64,
    historical: bool,
    from: int,
    to: int,
    depth: int,
)
    requires
        depth >= 0,
        visited_within(w.visited, depth),
    ensures
        visited_within(
            layer_expanded(s, w, as_of, historical, from, to, depth).visited,
            depth,
        ),
    decreases to - from,
{
    if from < to {
        lemma_layer_depths(s, w, as_of, historical, from, to - 1, depth);
        let v = layer_expanded(s, w, as_of, historical, from, to - 1, depth);
        let entity = v.visited[to - 1].0;
        lemma_touched_depths(v, entity, neighbors(s, entity, as_of, historical), depth);
    }
}

proof fn lemma_touched_depths(w: Walk, entity: EntityId, ns: Seq<Neighbor>, depth: int)
    requires
        depth >= 0,
        visited_within(w.visited, depth),
    ensures
        visited_within(all_touched(w, entity, ns, depth).visited, depth),
    decreases ns.len(),
{
    if ns.len() > 0 {
        lemma_touched_depths(w, entity, ns.drop_last(), depth);
    }
}

/// What an expansion returns is within its caps and names no edge twice.
pub proof fn expansion_is_bounded(
    s: State,
    anchors: Walk,
    as_of: u64,
    historical: bool,
    depth: nat,
)
    requires
        bounded(anchors),
    ensures
        bounded(expanded(s, anchors, as_of, historical, depth).0),
    decreases depth,
{
    if depth > 0 {
        expansion_is_bounded(s, anchors, as_of, historical, (depth - 1) as nat);
        let (w, from) = expanded(s, anchors, as_of, historical, (depth - 1) as nat);
        lemma_layer_bounded(
            s,
            w,
            as_of,
            historical,
            from,
            w.visited.len() as int,
            depth as int,
        );
    }
}

/// At most as many edges as the cap, none twice.
pub open spec fn bounded(w: Walk) -> bool {
    &&& w.edges.len() <= GRAPH_EDGE_CAP
    &&& forall|i: int, j: int|
        0 <= i < j < w.edges.len() ==> #[trigger] w.edges[i] != #[trigger] w.edges[j]
}

proof fn lemma_layer_bounded(
    s: State,
    w: Walk,
    as_of: u64,
    historical: bool,
    from: int,
    to: int,
    depth: int,
)
    requires
        bounded(w),
    ensures
        bounded(layer_expanded(s, w, as_of, historical, from, to, depth)),
    decreases to - from,
{
    if from < to {
        lemma_layer_bounded(s, w, as_of, historical, from, to - 1, depth);
        let v = layer_expanded(s, w, as_of, historical, from, to - 1, depth);
        let entity = v.visited[to - 1].0;
        lemma_touched_bounded(v, entity, neighbors(s, entity, as_of, historical), depth);
    }
}

proof fn lemma_touched_bounded(w: Walk, entity: EntityId, ns: Seq<Neighbor>, depth: int)
    requires
        bounded(w),
    ensures
        bounded(all_touched(w, entity, ns, depth)),
    decreases ns.len(),
{
    if ns.len() > 0 {
        lemma_touched_bounded(w, entity, ns.drop_last(), depth);
    }
}

} // verus!
