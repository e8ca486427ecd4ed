//! How far the graph source reaches: over every link of an entity, whichever
//! end of it the entity is.

use crate::id::{EntityId, TermId, NONE_U32};
use crate::memory::links;
use crate::memory::recall::graph;
use crate::memory::recall::graph::{Neighbor, RecalledEdge, Walk};
use crate::memory::state::State;
use crate::model::{EdgeHistorySlot, EdgeSlot, Slot};
use crate::table;
use vstd::prelude::*;

verus! {

/// The four edge tables are in order.
pub open spec fn edges_ordered(s: State) -> bool {
    &&& table::ascending(s.edges_out)
    &&& table::ascending(s.edges_in)
    &&& table::ascending(s.hist_out)
    &&& table::ascending(s.hist_in)
}

/// A version was true at an instant.
pub open spec fn true_at(v: EdgeHistorySlot, as_of: u64) -> bool {
    v.valid_from <= as_of && as_of < v.valid_to
}

/// A link that leaves an entity: a current one, or for a past instant one that
/// was true then.
pub open spec fn leaves(s: State, as_of: u64, historical: bool, x: RecalledEdge) -> bool {
    if historical {
        exists|i: int|
            0 <= i < s.hist_out.len() && true_at(#[trigger] s.hist_out[i], as_of) && x
                == (RecalledEdge {
                src: s.hist_out[i].a,
                rel: s.hist_out[i].rel,
                dst: s.hist_out[i].b,
                provenance: s.hist_out[i].fact,
            })
    } else {
        exists|i: int|
            0 <= i < s.edges_out.len() && x == (RecalledEdge {
                src: (#[trigger] s.edges_out[i]).a,
                rel: s.edges_out[i].rel,
                dst: s.edges_out[i].b,
                provenance: s.edges_out[i].fact,
            })
    }
}

/// A link that enters an entity, in the same sense.
pub open spec fn enters(s: State, as_of: u64, historical: bool, x: RecalledEdge) -> bool {
    if historical {
        exists|i: int|
            0 <= i < s.hist_in.len() && true_at(#[trigger] s.hist_in[i], as_of) && x
                == (RecalledEdge {
                src: s.hist_in[i].b,
                rel: s.hist_in[i].rel,
                dst: s.hist_in[i].a,
                provenance: s.hist_in[i].fact,
            })
    } else {
        exists|i: int|
            0 <= i < s.edges_in.len() && x == (RecalledEdge {
                src: (#[trigger] s.edges_in[i]).b,
                rel: s.edges_in[i].rel,
                dst: s.edges_in[i].a,
                provenance: s.edges_in[i].fact,
            })
    }
}

/// A link of an entity, seen from it: it leads to `other`.
pub open spec fn link_of(
    s: State,
    as_of: u64,
    historical: bool,
    e: EntityId,
    other: EntityId,
    x: RecalledEdge,
) -> bool {
    ||| x.src == e && x.dst == other && leaves(s, as_of, historical, x)
    ||| x.dst == e && x.src == other && enters(s, as_of, historical, x)
}

/// An entity was visited no farther away than `depth`.
pub open spec fn within_reach(visited: Seq<(EntityId, int)>, e: EntityId, depth: int) -> bool {
    exists|i: int| 0 <= i < visited.len() && (#[trigger] visited[i]).0 == e && visited[i].1 <= depth
}

proof fn lemma_run<T: Slot>(rows: Seq<T>, from: int, to: int, i: int)
    requires
        table::ascending(rows),
        0 <= i < rows.len(),
        from <= rows[i].key() < to,
    ensures
        ({
            let lo = table::rank(rows, from);
            let run = graph::rows_between(rows, from, to);
            0 <= i - lo < run.len() && run[i - lo] == rows[i]
        }),
{
    table::lemma_rank(rows, from);
    table::lemma_rank(rows, to);
    let lo = table::rank(rows, from);
    let hi = table::rank(rows, to);
    assert(lo <= i) by {
        if i < lo {
            assert(rows[i].key() < from);
        }
    }
    assert(i < hi) by {
        if hi <= i {
            assert(rows[i].key() >= to);
        }
    }
}

proof fn lemma_in_run<T: Slot>(rows: Seq<T>, from: int, to: int, k: int)
    requires
        table::ascending(rows),
        0 <= k < graph::rows_between(rows, from, to).len(),
    ensures
        ({
            let i = table::rank(rows, from) + k;
            0 <= i < rows.len() && rows[i] == graph::rows_between(rows, from, to)[k] && from
                <= rows[i].key() < to
        }),
{
    table::lemma_rank(rows, from);
    table::lemma_rank(rows, to);
    let i = table::rank(rows, from) + k;
    assert(rows[i].key() >= from);
    assert(rows[i].key() < to);
}

/// A neighbor is a current edge of a table, seen from an entity.
spec fn current_row(rows: Seq<EdgeSlot>, e: EntityId, out: bool, n: Neighbor) -> bool {
    exists|i: int|
        0 <= i < rows.len() && (#[trigger] rows[i]).a == e && n == (
            rows[i].b,
            rows[i].rel,
            out,
            rows[i].fact,
        )
}

/// A neighbor is a version of a table that was true at an instant, seen from
/// an entity.
spec fn past_row(
    rows: Seq<EdgeHistorySlot>,
    e: EntityId,
    as_of: u64,
    out: bool,
    n: Neighbor,
) -> bool {
    exists|i: int|
        0 <= i < rows.len() && (#[trigger] rows[i]).a == e && true_at(rows[i], as_of) && n == (
            rows[i].b,
            rows[i].rel,
            out,
            rows[i].fact,
        )
}

/// The neighbors in a table of current edges are its rows of the entity.
proof fn lemma_current(rows: Seq<EdgeSlot>, e: EntityId, out: bool)
    requires
        table::ascending(rows),
        e.0 < NONE_U32,
    ensures
        forall|i: int|
            0 <= i < rows.len() && (#[trigger] rows[i]).a == e ==> graph::current_edges(
                rows,
                e,
                out,
            ).contains((rows[i].b, rows[i].rel, out, rows[i].fact)),
        forall|k: int|
            0 <= k < graph::current_edges(rows, e, out).len() ==> current_row(
                rows,
                e,
                out,
                #[trigger] graph::current_edges(rows, e, out)[k],
            ),
{
    let from = crate::model::edge_key_of(e, TermId(0), EntityId(0));
    let to = graph::edge_stop(e);
    let run = graph::rows_between(rows, from, to);
    let ns = graph::current_edges(rows, e, out);
    assert forall|i: int| 0 <= i < rows.len() && (#[trigger] rows[i]).a == e implies ns.contains(
        (rows[i].b, rows[i].rel, out, rows[i].fact),
    ) by {
        lemma_run(rows, from, to, i);
        let k = i - table::rank(rows, from);
        assert(ns[k] == (rows[i].b, rows[i].rel, out, rows[i].fact));
    }
    assert forall|k: int| 0 <= k < ns.len() implies current_row(rows, e, out, #[trigger] ns[k]) by {
        lemma_in_run(rows, from, to, k);
        let i = table::rank(rows, from) + k;
        assert(rows[i].a == e);
        assert(ns[k] == (rows[i].b, rows[i].rel, out, rows[i].fact));
    }
}

proof fn lemma_valid(rows: Seq<EdgeHistorySlot>, as_of: u64, out: bool)
    ensures
        forall|i: int|
            0 <= i < rows.len() && as_of < (#[trigger] rows[i]).valid_to
                ==> graph::valid_versions(rows, as_of, out).contains(
                (rows[i].b, rows[i].rel, out, rows[i].fact),
            ),
        forall|k: int|
            0 <= k < graph::valid_versions(rows, as_of, out).len() ==> exists|i: int|
                0 <= i < rows.len() && as_of < (#[trigger] rows[i]).valid_to && (
                #[trigger] graph::valid_versions(rows, as_of, out)[k]) == (
                    rows[i].b,
                    rows[i].rel,
                    out,
                    rows[i].fact,
                ),
    decreases rows.len(),
{
    let ns = graph::valid_versions(rows, as_of, out);
    if rows.len() > 0 {
        let tail = rows.drop_first();
        lemma_valid(tail, as_of, out);
        let rest = graph::valid_versions(tail, as_of, out);
        assert forall|i: int| 0 <= i < rows.len() && as_of < (#[trigger] rows[i]).valid_to implies ns.contains(
        (rows[i].b, rows[i].rel, out, rows[i].fact)) by {
            let n = (rows[i].b, rows[i].rel, out, rows[i].fact);
            if i == 0 {
                assert(ns[ns.len() - 1] == n);
            } else {
                assert(tail[i - 1] == rows[i]);
                assert(rest.contains(n));
                let k = rest.index_of(n);
                assert(ns[k] == n);
            }
        }
        assert forall|k: int| 0 <= k < ns.len() implies exists|i: int|
            0 <= i < rows.len() && as_of < (#[trigger] rows[i]).valid_to && (#[trigger] ns[k]) == (
                rows[i].b,
                rows[i].rel,
                out,
                rows[i].fact,
            ) by {
            if k < rest.len() {
                assert(ns[k] == rest[k]);
                let i = choose|i: int|
                    0 <= i < tail.len() && as_of < (#[trigger] tail[i]).valid_to && rest[k] == (
                        tail[i].b,
                        tail[i].rel,
                        out,
                        tail[i].fact,
                    );
                assert(rows[i + 1] == tail[i]);
            } else {
                assert(ns[k] == (rows[0].b, rows[0].rel, out, rows[0].fact));
            }
        }
    }
}

/// The neighbors in a table of versions are its rows of the entity that were
/// true at the instant.
proof fn lemma_past(rows: Seq<EdgeHistorySlot>, e: EntityId, as_of: u64, out: bool)
    requires
        table::ascending(rows),
    ensures
        forall|i: int|
            0 <= i < rows.len() && (#[trigger] rows[i]).a == e && true_at(rows[i], as_of)
                ==> graph::past_edges(rows, e, as_of, out).contains(
                (rows[i].b, rows[i].rel, out, rows[i].fact),
            ),
        forall|k: int|
            0 <= k < graph::past_edges(rows, e, as_of, out).len() ==> past_row(
                rows,
                e,
                as_of,
                out,
                #[trigger] graph::past_edges(rows, e, as_of, out)[k],
            ),
{
    let from = crate::model::edge_history_key_of(e, 0, crate::id::EdgeId(0));
    let to = graph::version_stop(e, as_of);
    let run = graph::rows_between(rows, from, to);
    let ns = graph::past_edges(rows, e, as_of, out);
    lemma_valid(run, as_of, out);
    assert forall|i: int|
        0 <= i < rows.len() && (#[trigger] rows[i]).a == e && true_at(rows[i], as_of) implies ns.contains(
    (rows[i].b, rows[i].rel, out, rows[i].fact)) by {
        lemma_run(rows, from, to, i);
        assert(run[i - table::rank(rows, from)] == rows[i]);
    }
    assert forall|k: int| 0 <= k < ns.len() implies past_row(
        rows,
        e,
        as_of,
        out,
        #[trigger] ns[k],
    ) by {
        let j = choose|j: int|
            0 <= j < run.len() && as_of < (#[trigger] run[j]).valid_to && ns[k] == (
                run[j].b,
                run[j].rel,
                out,
                run[j].fact,
            );
        lemma_in_run(rows, from, to, j);
        let i = table::rank(rows, from) + j;
        assert(rows[i] == run[j]);
        assert(rows[i].a == e && rows[i].valid_from <= as_of);
    }
}

/// What is taken in from an entity is exactly its links.
proof fn lemma_neighbors(s: State, e: EntityId, as_of: u64, historical: bool)
    requires
        edges_ordered(s),
        !historical ==> e.0 < NONE_U32,
    ensures
        forall|other: EntityId, x: RecalledEdge| #[trigger]
            link_of(s, as_of, historical, e, other, x) ==> exists|k: int|
                0 <= k < graph::neighbors(s, e, as_of, historical).len() && graph::edge_to(
                    e,
                    #[trigger] graph::neighbors(s, e, as_of, historical)[k],
                ) == x && graph::neighbors(s, e, as_of, historical)[k].0 == other,
        forall|k: int|
            0 <= k < graph::neighbors(s, e, as_of, historical).len() ==> {
                let n = #[trigger] graph::neighbors(s, e, as_of, historical)[k];
                link_of(s, as_of, historical, e, n.0, graph::edge_to(e, n))
            },
{
    let ns = graph::neighbors(s, e, as_of, historical);
    let (a, b) = if historical {
        (
            graph::past_edges(s.hist_out, e, as_of, true),
            graph::past_edges(s.hist_in, e, as_of, false),
        )
    } else {
        (graph::current_edges(s.edges_out, e, true), graph::current_edges(s.edges_in, e, false))
    };
    if historical {
        lemma_past(s.hist_out, e, as_of, true);
        lemma_past(s.hist_in, e, as_of, false);
    } else {
        lemma_current(s.edges_out, e, true);
        lemma_current(s.edges_in, e, false);
    }
    assert(ns == a + b);
    assert forall|other: EntityId, x: RecalledEdge| #[trigger]
        link_of(s, as_of, historical, e, other, x) implies exists|k: int|
        0 <= k < ns.len() && graph::edge_to(e, #[trigger] ns[k]) == x && ns[k].0 == other by {
        if x.src == e && x.dst == other && leaves(s, as_of, historical, x) {
            let n = (other, x.rel, true, x.provenance);
            if historical {
                let i = choose|i: int|
                    0 <= i < s.hist_out.len() && true_at(#[trigger] s.hist_out[i], as_of) && x
                        == (RecalledEdge {
                        src: s.hist_out[i].a,
                        rel: s.hist_out[i].rel,
                        dst: s.hist_out[i].b,
                        provenance: s.hist_out[i].fact,
                    });
                assert(s.hist_out[i].a == e);
            } else {
                let i = choose|i: int|
                    0 <= i < s.edges_out.len() && x == (RecalledEdge {
                        src: (#[trigger] s.edges_out[i]).a,
                        rel: s.edges_out[i].rel,
                        dst: s.edges_out[i].b,
                        provenance: s.edges_out[i].fact,
                    });
                assert(s.edges_out[i].a == e);
            }
            assert(a.contains(n));
            let k = a.index_of(n);
            assert(ns[k] == n);
            assert(graph::edge_to(e, ns[k]) == x);
        } else {
            let n = (other, x.rel, false, x.provenance);
            if historical {
                let i = choose|i: int|
                    0 <= i < s.hist_in.len() && true_at(#[trigger] s.hist_in[i], as_of) && x
                        == (RecalledEdge {
                        src: s.hist_in[i].b,
                        rel: s.hist_in[i].rel,
                        dst: s.hist_in[i].a,
                        provenance: s.hist_in[i].fact,
                    });
                assert(s.hist_in[i].a == e);
            } else {
                let i = choose|i: int|
                    0 <= i < s.edges_in.len() && x == (RecalledEdge {
                        src: (#[trigger] s.edges_in[i]).b,
                        rel: s.edges_in[i].rel,
                        dst: s.edges_in[i].a,
                        provenance: s.edges_in[i].fact,
                    });
                assert(s.edges_in[i].a == e);
            }
            assert(b.contains(n));
            let k = b.index_of(n);
            assert(ns[a.len() + k] == n);
            assert(graph::edge_to(e, ns[a.len() + k]) == x);
        }
    }
    assert forall|k: int| 0 <= k < ns.len() implies {
        let n = #[trigger] ns[k];
        link_of(s, as_of, historical, e, n.0, graph::edge_to(e, n))
    } by {
        let n = ns[k];
        if k < a.len() {
            assert(a[k] == n);
            assert(leaves(s, as_of, historical, graph::edge_to(e, n)));
        } else {
            assert(b[k - a.len()] == n);
            assert(enters(s, as_of, historical, graph::edge_to(e, n)));
        }
    }
}

/// A walk that has grown: nothing that was there is lost.
spec fn grew(w: Walk, v: Walk) -> bool {
    w.edges.is_prefix_of(v.edges) && w.visited.is_prefix_of(v.visited)
}

proof fn lemma_grew(w: Walk, v: Walk, u: Walk)
    requires
        grew(w, v),
        grew(v, u),
    ensures
        grew(w, u),
{
    assert(w.edges =~= u.edges.subrange(0, w.edges.len() as int)) by {
        assert(w.edges =~= v.edges.subrange(0, w.edges.len() as int));
        assert(v.edges =~= u.edges.subrange(0, v.edges.len() as int));
        assert forall|i: int| 0 <= i < w.edges.len() implies w.edges[i] == u.edges[i] by {
            assert(w.edges[i] == v.edges.subrange(0, w.edges.len() as int)[i]);
            assert(v.edges[i] == u.edges.subrange(0, v.edges.len() as int)[i]);
        }
    }
    assert(w.visited =~= u.visited.subrange(0, w.visited.len() as int)) by {
        assert forall|i: int| 0 <= i < w.visited.len() implies w.visited[i] == u.visited[i] by {
            assert(w.visited[i] == v.visited.subrange(0, w.visited.len() as int)[i]);
            assert(v.visited[i] == u.visited.subrange(0, v.visited.len() as int)[i]);
        }
    }
}

proof fn lemma_places(w: Walk, v: Walk)
    requires
        grew(w, v),
    ensures
        w.edges.len() <= v.edges.len(),
        w.visited.len() <= v.visited.len(),
        forall|i: int| 0 <= i < w.edges.len() ==> #[trigger] v.edges[i] == w.edges[i],
        forall|i: int| 0 <= i < w.visited.len() ==> #[trigger] v.visited[i] == w.visited[i],
{
    assert forall|i: int| 0 <= i < w.edges.len() implies #[trigger] v.edges[i] == w.edges[i] by {
        assert(w.edges[i] == v.edges.subrange(0, w.edges.len() as int)[i]);
    }
    assert forall|i: int| 0 <= i < w.visited.len() implies #[trigger] v.visited[i]
        == w.visited[i] by {
        assert(w.visited[i] == v.visited.subrange(0, w.visited.len() as int)[i]);
    }
}

/// The links of an entity at distance `depth - 1` are in a walk, as far as the
/// caps allow.
pub open spec fn followed(
    s: State,
    as_of: u64,
    historical: bool,
    w: Walk,
    e: EntityId,
    depth: int,
) -> bool {
    forall|other: EntityId, x: RecalledEdge| #[trigger]
        link_of(s, as_of, historical, e, other, x) ==> (w.edges.contains(x) || w.edges.len()
            >= 128) && (within_reach(w.visited, other, depth) || w.visited.len() >= 64)
}

proof fn lemma_still_followed(
    s: State,
    as_of: u64,
    historical: bool,
    w: Walk,
    v: Walk,
    e: EntityId,
    depth: int,
)
    requires
        followed(s, as_of, historical, w, e, depth),
        grew(w, v),
    ensures
        followed(s, as_of, historical, v, e, depth),
{
    lemma_places(w, v);
    assert forall|other: EntityId, x: RecalledEdge| #[trigger]
        link_of(s, as_of, historical, e, other, x) implies (v.edges.contains(x) || v.edges.len()
        >= 128) && (within_reach(v.visited, other, depth) || v.visited.len() >= 64) by {
        if w.edges.contains(x) {
            let i = w.edges.index_of(x);
            assert(v.edges[i] == x);
        }
        if within_reach(w.visited, other, depth) {
            let i = choose|i: int|
                0 <= i < w.visited.len() && (#[trigger] w.visited[i]).0 == other && w.visited[i].1
                    <= depth;
            assert(v.visited[i] == w.visited[i]);
        }
    }
}

proof fn lemma_touched(w: Walk, e: EntityId, ns: Seq<Neighbor>, depth: int)
    requires
        forall|i: int| 0 <= i < w.visited.len() ==> (#[trigger] w.visited[i]).1 <= depth,
    ensures
        ({
            let v = graph::all_touched(w, e, ns, depth);
            &&& grew(w, v)
            &&& forall|i: int| w.visited.len() <= i < v.visited.len() ==> (
                #[trigger] v.visited[i]).1 == depth
            &&& forall|k: int|
                0 <= k < ns.len() ==> (v.edges.contains(graph::edge_to(e, #[trigger] ns[k]))
                    || v.edges.len() >= 128) && (within_reach(v.visited, ns[k].0, depth)
                    || v.visited.len() >= 64)
            &&& forall|i: int|
                w.edges.len() <= i < v.edges.len() ==> exists|k: int|
                    0 <= k < ns.len() && (#[trigger] v.edges[i]) == graph::edge_to(
                        e,
                        #[trigger] ns[k],
                    )
            &&& forall|i: int|
                w.visited.len() <= i < v.visited.len() ==> exists|k: int|
                    0 <= k < ns.len() && (#[trigger] v.visited[i]).0 == (#[trigger] ns[k]).0
        }),
    decreases ns.len(),
{
    let v = graph::all_touched(w, e, ns, depth);
    if ns.len() == 0 {
        assert(w.edges =~= v.edges.subrange(0, w.edges.len() as int));
        assert(w.visited =~= v.visited.subrange(0, w.visited.len() as int));
    } else {
        let init = ns.drop_last();
        let n = ns.last();
        lemma_touched(w, e, init, depth);
        let u = graph::all_touched(w, e, init, depth);
        lemma_places(w, u);
        let edge = graph::edge_to(e, n);
        assert(u.edges =~= v.edges.subrange(0, u.edges.len() as int));
        assert(u.visited =~= v.visited.subrange(0, u.visited.len() as int));
        assert(grew(u, v));
        lemma_grew(w, u, v);
        lemma_places(u, v);
        assert forall|i: int| w.visited.len() <= i < v.visited.len() implies (
        #[trigger] v.visited[i]).1 == depth by {
            if i < u.visited.len() {
                assert(v.visited[i] == u.visited[i]);
            }
        }
        assert forall|k: int| 0 <= k < ns.len() implies (v.edges.contains(
            graph::edge_to(e, #[trigger] ns[k]),
        ) || v.edges.len() >= 128) && (within_reach(v.visited, ns[k].0, depth) || v.visited.len()
            >= 64) by {
            if k < init.len() {
                assert(init[k] == ns[k]);
                let y = graph::edge_to(e, ns[k]);
                if u.edges.contains(y) {
                    let i = u.edges.index_of(y);
                    assert(v.edges[i] == y);
                }
                if within_reach(u.visited, ns[k].0, depth) {
                    let i = choose|i: int|
                        0 <= i < u.visited.len() && (#[trigger] u.visited[i]).0 == ns[k].0
                            && u.visited[i].1 <= depth;
                    assert(v.visited[i] == u.visited[i]);
                }
            } else {
                if u.edges.contains(edge) {
                    let i = u.edges.index_of(edge);
                    assert(v.edges[i] == edge);
                } else if u.edges.len() < 128 {
                    assert(v.edges[v.edges.len() - 1] == edge);
                }
                if graph::seen(u.visited, n.0) {
                    let i = choose|i: int|
                        0 <= i < u.visited.len() && (#[trigger] u.visited[i]).0 == n.0;
                    assert(v.visited[i] == u.visited[i]);
                    if i < w.visited.len() {
                        assert(u.visited[i] == w.visited[i]);
                    }
                    assert(v.visited[i].1 <= depth);
                } else if u.visited.len() < 64 {
                    assert(v.visited[v.visited.len() - 1] == (n.0, depth));
                }
            }
        }
        assert forall|i: int| w.edges.len() <= i < v.edges.len() implies exists|k: int|
            0 <= k < ns.len() && (#[trigger] v.edges[i]) == graph::edge_to(
                e,
                #[trigger] ns[k],
            ) by {
            if i < u.edges.len() {
                assert(v.edges[i] == u.edges[i]);
                let k = choose|k: int|
                    0 <= k < init.len() && u.edges[i] == graph::edge_to(e, #[trigger] init[k]);
                assert(ns[k] == init[k]);
            } else {
                assert(v.edges[i] == edge);
                assert(ns[ns.len() - 1] == n);
            }
        }
        assert forall|i: int| w.visited.len() <= i < v.visited.len() implies exists|k: int|
            0 <= k < ns.len() && (#[trigger] v.visited[i]).0 == (#[trigger] ns[k]).0 by {
            if i < u.visited.len() {
                assert(v.visited[i] == u.visited[i]);
                let k = choose|k: int|
                    0 <= k < init.len() && u.visited[i].0 == (#[trigger] init[k]).0;
                assert(ns[k] == init[k]);
            } else {
                assert(ns[ns.len() - 1] == n);
            }
        }
    }
}

/// A link of some visited entity that was expanded: one nearer than `depth`.
pub open spec fn from_visited(
    s: State,
    as_of: u64,
    historical: bool,
    visited: Seq<(EntityId, int)>,
    depth: int,
    x: RecalledEdge,
) -> bool {
    exists|p: int, other: EntityId|
        0 <= p < visited.len() && (#[trigger] visited[p]).1 < depth && #[trigger] link_of(
            s,
            as_of,
            historical,
            visited[p].0,
            other,
            x,
        )
}

/// A visited entity is reached from one that is a step nearer.
pub open spec fn stepped_to(
    s: State,
    as_of: u64,
    historical: bool,
    visited: Seq<(EntityId, int)>,
    i: int,
) -> bool {
    exists|p: int, x: RecalledEdge|
        0 <= p < visited.len() && (#[trigger] visited[p]).1 == visited[i].1 - 1
            && #[trigger] link_of(s, as_of, historical, visited[p].0, visited[i].0, x)
}

/// What a walk of a depth holds, where its last layer starts at `from`.
spec fn walked(
    s: State,
    as_of: u64,
    historical: bool,
    anchors: Walk,
    w: Walk,
    from: int,
    depth: int,
) -> bool {
    &&& 0 <= from <= w.visited.len()
    &&& grew(anchors, w)
    &&& forall|p: int| 0 <= p < from ==> (#[trigger] w.visited[p]).1 < depth
    &&& forall|p: int| from <= p < w.visited.len() ==> (#[trigger] w.visited[p]).1 == depth
    &&& !historical ==> forall|p: int|
        0 <= p < w.visited.len() ==> (#[trigger] w.visited[p]).0.0 < NONE_U32
    &&& forall|p: int|
        0 <= p < from ==> followed(
            s,
            as_of,
            historical,
            w,
            (#[trigger] w.visited[p]).0,
            w.visited[p].1 + 1,
        )
    &&& forall|i: int|
        anchors.edges.len() <= i < w.edges.len() ==> from_visited(
            s,
            as_of,
            historical,
            w.visited,
            depth,
            #[trigger] w.edges[i],
        )
    &&& forall|i: int|
        anchors.visited.len() <= i < w.visited.len() ==> 0 < (#[trigger] w.visited[i]).1
            && stepped_to(s, as_of, historical, w.visited, i)
}

/// Every end of a current link is an entity.
pub open spec fn ends_named(s: State) -> bool {
    &&& forall|i: int| 0 <= i < s.edges_out.len() ==> (#[trigger] s.edges_out[i]).b.0 < NONE_U32
    &&& forall|i: int| 0 <= i < s.edges_in.len() ==> (#[trigger] s.edges_in[i]).b.0 < NONE_U32
}

proof fn lemma_layer(
    s: State,
    as_of: u64,
    historical: bool,
    anchors: Walk,
    w: Walk,
    from: int,
    to: int,
    depth: int,
)
    requires
        edges_ordered(s),
        ends_named(s),
        depth >= 1,
        walked(s, as_of, historical, anchors, w, from, depth - 1),
        from <= to <= w.visited.len(),
    ensures
        ({
            let v = graph::layer_expanded(s, w, as_of, historical, from, to, depth);
            &&& grew(w, v)
            &&& forall|i: int| w.visited.len() <= i < v.visited.len() ==> (
                #[trigger] v.visited[i]).1 == depth && (!historical ==> v.visited[i].0.0 < NONE_U32)
                && stepped_to(
                s,
                as_of,
                historical,
                v.visited,
                i,
            )
            &&& forall|p: int|
                from <= p < to ==> followed(
                    s,
                    as_of,
                    historical,
                    v,
                    (#[trigger] w.visited[p]).0,
                    depth,
                )
            &&& forall|i: int|
                w.edges.len() <= i < v.edges.len() ==> from_visited(
                    s,
                    as_of,
                    historical,
                    v.visited,
                    depth,
                    #[trigger] v.edges[i],
                )
        }),
    decreases to - from,
{
    let v = graph::layer_expanded(s, w, as_of, historical, from, to, depth);
    if to <= from {
        assert(w.edges =~= v.edges.subrange(0, w.edges.len() as int));
        assert(w.visited =~= v.visited.subrange(0, w.visited.len() as int));
    } else {
        lemma_layer(s, as_of, historical, anchors, w, from, to - 1, depth);
        let u = graph::layer_expanded(s, w, as_of, historical, from, to - 1, depth);
        lemma_places(w, u);
        let e = u.visited[to - 1].0;
        assert(u.visited[to - 1] == w.visited[to - 1]);
        let ns = graph::neighbors(s, e, as_of, historical);
        assert forall|i: int| 0 <= i < u.visited.len() implies (#[trigger] u.visited[i]).1
            <= depth by {
            if i < w.visited.len() {
                assert(u.visited[i] == w.visited[i]);
            }
        }
        lemma_touched(u, e, ns, depth);
        lemma_neighbors(s, e, as_of, historical);
        lemma_grew(w, u, v);
        lemma_places(u, v);
        lemma_places(w, v);
        assert forall|i: int| w.visited.len() <= i < v.visited.len() implies (
        #[trigger] v.visited[i]).1 == depth && (!historical ==> v.visited[i].0.0 < NONE_U32)
                && stepped_to(
            s,
            as_of,
            historical,
            v.visited,
            i,
        ) by {
            if i < u.visited.len() {
                assert(v.visited[i] == u.visited[i]);
                let (p, x) = choose|p: int, x: RecalledEdge|
                    0 <= p < u.visited.len() && (#[trigger] u.visited[p]).1 == u.visited[i].1 - 1
                        && #[trigger] link_of(
                        s,
                        as_of,
                        historical,
                        u.visited[p].0,
                        u.visited[i].0,
                        x,
                    );
                assert(v.visited[p] == u.visited[p]);
            } else {
                let k = choose|k: int|
                    0 <= k < ns.len() && v.visited[i].0 == (#[trigger] ns[k]).0;
                let x = graph::edge_to(e, ns[k]);
                assert(link_of(s, as_of, historical, e, ns[k].0, x));
                assert(v.visited[to - 1] == u.visited[to - 1]);
                if !historical {
                    lemma_end_named(s, as_of, historical, e, ns[k].0, x);
                }
                assert(v.visited[to - 1].1 == depth - 1);
                assert(link_of(
                    s,
                    as_of,
                    historical,
                    v.visited[to - 1].0,
                    v.visited[i].0,
                    x,
                ));
            }
        }
        assert(followed(s, as_of, historical, v, e, depth)) by {
            assert forall|other: EntityId, x: RecalledEdge| #[trigger]
                link_of(s, as_of, historical, e, other, x) implies (v.edges.contains(x)
                || v.edges.len() >= 128) && (within_reach(v.visited, other, depth)
                || v.visited.len() >= 64) by {
                let k = choose|k: int|
                    0 <= k < ns.len() && graph::edge_to(e, #[trigger] ns[k]) == x && ns[k].0
                        == other;
                assert(ns[k].0 == other);
            }
        }
        assert forall|p: int| from <= p < to implies followed(
            s,
            as_of,
            historical,
            v,
            (#[trigger] w.visited[p]).0,
            depth,
        ) by {
            if p < to - 1 {
                lemma_still_followed(s, as_of, historical, u, v, w.visited[p].0, depth);
            }
        }
        assert forall|i: int| w.edges.len() <= i < v.edges.len() implies from_visited(
            s,
            as_of,
            historical,
            v.visited,
            depth,
            #[trigger] v.edges[i],
        ) by {
            if i < u.edges.len() {
                assert(v.edges[i] == u.edges[i]);
                lemma_still_from(s, as_of, historical, u, v, depth, u.edges[i]);
            } else {
                let k = choose|k: int|
                    0 <= k < ns.len() && v.edges[i] == graph::edge_to(e, #[trigger] ns[k]);
                assert(v.visited[to - 1].1 < depth);
                assert(link_of(
                    s,
                    as_of,
                    historical,
                    v.visited[to - 1].0,
                    ns[k].0,
                    v.edges[i],
                ));
            }
        }
    }
}

proof fn lemma_still_from(
    s: State,
    as_of: u64,
    historical: bool,
    u: Walk,
    v: Walk,
    depth: int,
    x: RecalledEdge,
)
    requires
        from_visited(s, as_of, historical, u.visited, depth, x),
        grew(u, v),
    ensures
        from_visited(s, as_of, historical, v.visited, depth, x),
        from_visited(s, as_of, historical, v.visited, depth + 1, x),
{
    lemma_places(u, v);
    let (p, other) = choose|p: int, other: EntityId|
        0 <= p < u.visited.len() && (#[trigger] u.visited[p]).1 < depth && #[trigger] link_of(
            s,
            as_of,
            historical,
            u.visited[p].0,
            other,
            x,
        );
    assert(v.visited[p] == u.visited[p]);
    assert(link_of(s, as_of, historical, v.visited[p].0, other, x));
}

proof fn lemma_end_named(
    s: State,
    as_of: u64,
    historical: bool,
    e: EntityId,
    other: EntityId,
    x: RecalledEdge,
)
    requires
        ends_named(s),
        !historical,
        link_of(s, as_of, historical, e, other, x),
    ensures
        other.0 < NONE_U32,
{
}

proof fn lemma_walked(s: State, as_of: u64, historical: bool, anchors: Walk, depth: nat)
    requires
        edges_ordered(s),
        ends_named(s),
        forall|i: int|
            0 <= i < anchors.visited.len() ==> (#[trigger] anchors.visited[i]).1 == 0
                && anchors.visited[i].0.0 < NONE_U32,
    ensures
        ({
            let (w, from) = graph::expanded(s, anchors, as_of, historical, depth);
            walked(s, as_of, historical, anchors, w, from, depth as int)
        }),
    decreases depth,
{
    let (w, from) = graph::expanded(s, anchors, as_of, historical, depth);
    if depth == 0 {
        assert(anchors.edges =~= w.edges.subrange(0, anchors.edges.len() as int));
        assert(anchors.visited =~= w.visited.subrange(0, anchors.visited.len() as int));
    } else {
        let d = (depth - 1) as nat;
        lemma_walked(s, as_of, historical, anchors, d);
        let (u, start) = graph::expanded(s, anchors, as_of, historical, d);
        lemma_layer(
            s,
            as_of,
            historical,
            anchors,
            u,
            start,
            u.visited.len() as int,
            depth as int,
        );
        lemma_places(u, w);
        lemma_places(anchors, u);
        lemma_grew(anchors, u, w);
        assert forall|p: int| 0 <= p < from implies followed(
            s,
            as_of,
            historical,
            w,
            (#[trigger] w.visited[p]).0,
            w.visited[p].1 + 1,
        ) by {
            assert(w.visited[p] == u.visited[p]);
            if p < start {
                lemma_still_followed(
                    s,
                    as_of,
                    historical,
                    u,
                    w,
                    u.visited[p].0,
                    u.visited[p].1 + 1,
                );
            }
        }
        assert forall|i: int| anchors.edges.len() <= i < w.edges.len() implies from_visited(
            s,
            as_of,
            historical,
            w.visited,
            depth as int,
            #[trigger] w.edges[i],
        ) by {
            if i < u.edges.len() {
                assert(w.edges[i] == u.edges[i]);
                lemma_still_from(s, as_of, historical, u, w, d as int, u.edges[i]);
            }
        }
        assert forall|i: int| anchors.visited.len() <= i < w.visited.len() implies 0 < (
        #[trigger] w.visited[i]).1 && stepped_to(s, as_of, historical, w.visited, i) by {
            if i < u.visited.len() {
                assert(w.visited[i] == u.visited[i]);
                let (p, x) = choose|p: int, x: RecalledEdge|
                    0 <= p < u.visited.len() && (#[trigger] u.visited[p]).1 == u.visited[i].1 - 1
                        && #[trigger] link_of(
                        s,
                        as_of,
                        historical,
                        u.visited[p].0,
                        u.visited[i].0,
                        x,
                    );
                assert(w.visited[p] == u.visited[p]);
                assert(link_of(s, as_of, historical, w.visited[p].0, w.visited[i].0, x));
            }
        }
        assert forall|p: int| !historical && 0 <= p < w.visited.len() implies (
        #[trigger] w.visited[p]).0.0 < NONE_U32 by {
            if p < u.visited.len() {
                assert(w.visited[p] == u.visited[p]);
            }
        }
    }
}

/// An expansion follows every link of an entity that is nearer than its depth,
/// whether the entity is its source or its destination: the link is among the
/// edges and its other end is visited, one step farther at most, unless a cap
/// is reached. Nothing else is returned: each edge is a link of such an entity,
/// and each entity that is no anchor is reached by a link from one that is a
/// step nearer.
pub open spec fn follows_links(
    s: State,
    anchors: Seq<(EntityId, int)>,
    as_of: u64,
    historical: bool,
    depth: int,
    w: Walk,
) -> bool {
    &&& anchors.len() <= w.visited.len()
    &&& forall|i: int| 0 <= i < anchors.len() ==> #[trigger] w.visited[i] == anchors[i]
    &&& forall|p: int|
        0 <= p < w.visited.len() && (#[trigger] w.visited[p]).1 < depth ==> followed(
            s,
            as_of,
            historical,
            w,
            w.visited[p].0,
            w.visited[p].1 + 1,
        )
    &&& forall|i: int|
        0 <= i < w.edges.len() ==> from_visited(
            s,
            as_of,
            historical,
            w.visited,
            depth,
            #[trigger] w.edges[i],
        )
    &&& forall|i: int|
        anchors.len() <= i < w.visited.len() ==> 0 < (#[trigger] w.visited[i]).1 <= depth
            && stepped_to(s, as_of, historical, w.visited, i)
}

/// The anchors stay in front.
pub proof fn lemma_starts(s: State, anchors: Walk, as_of: u64, historical: bool, depth: nat)
    ensures
        ({
            let w = graph::expanded(s, anchors, as_of, historical, depth).0;
            &&& anchors.visited.len() <= w.visited.len()
            &&& forall|i: int|
                0 <= i < anchors.visited.len() ==> #[trigger] w.visited[i] == anchors.visited[i]
        }),
    decreases depth,
{
    if depth > 0 {
        let d = (depth - 1) as nat;
        lemma_starts(s, anchors, as_of, historical, d);
        let (u, from) = graph::expanded(s, anchors, as_of, historical, d);
        lemma_layer_starts(
            s,
            u,
            as_of,
            historical,
            from,
            u.visited.len() as int,
            depth as int,
        );
    }
}

proof fn lemma_layer_starts(
    s: State,
    w: Walk,
    as_of: u64,
    historical: bool,
    from: int,
    to: int,
    depth: int,
)
    ensures
        ({
            let v = graph::layer_expanded(s, w, as_of, historical, from, to, depth);
            &&& w.visited.len() <= v.visited.len()
            &&& forall|i: int|
                0 <= i < w.visited.len() ==> #[trigger] v.visited[i] == w.visited[i]
        }),
    decreases to - from,
{
    if from < to {
        lemma_layer_starts(s, w, as_of, historical, from, to - 1, depth);
        let v = graph::layer_expanded(s, w, as_of, historical, from, to - 1, depth);
        let e = v.visited[to - 1].0;
        lemma_touched_starts(v, e, graph::neighbors(s, e, as_of, historical), depth);
    }
}

proof fn lemma_touched_starts(w: Walk, e: EntityId, ns: Seq<Neighbor>, depth: int)
    ensures
        ({
            let v = graph::all_touched(w, e, ns, depth);
            &&& w.visited.len() <= v.visited.len()
            &&& forall|i: int|
                0 <= i < w.visited.len() ==> #[trigger] v.visited[i] == w.visited[i]
        }),
    decreases ns.len(),
{
    if ns.len() > 0 {
        lemma_touched_starts(w, e, ns.drop_last(), depth);
    }
}

/// An expansion follows every link.
pub proof fn an_expansion_follows_every_link(
    s: State,
    anchors: Walk,
    as_of: u64,
    historical: bool,
    depth: nat,
)
    requires
        edges_ordered(s),
        ends_named(s),
        anchors.edges.len() == 0,
        forall|i: int|
            0 <= i < anchors.visited.len() ==> (#[trigger] anchors.visited[i]).1 == 0
                && anchors.visited[i].0.0 < NONE_U32,
    ensures
        follows_links(
            s,
            anchors.visited,
            as_of,
            historical,
            depth as int,
            graph::expanded(s, anchors, as_of, historical, depth).0,
        ),
{
    lemma_walked(s, as_of, historical, anchors, depth);
    let (w, from) = graph::expanded(s, anchors, as_of, historical, depth);
    lemma_places(anchors, w);
}

/// A returned edge of some ends and relation.
pub open spec fn has_edge(w: Walk, src: EntityId, rel: TermId, dst: EntityId) -> bool {
    exists|i: int|
        0 <= i < w.edges.len() && (#[trigger] w.edges[i]).src == src && w.edges[i].rel == rel
            && w.edges[i].dst == dst
}

/// Every current link of an anchor is followed, in both directions: whichever
/// end of a link an anchor is, the link is returned and the other end visited,
/// unless a cap is reached.
pub proof fn links_are_followed_both_ways(
    s: State,
    n: u32,
    anchors: Walk,
    as_of: u64,
    depth: nat,
    anchor: int,
    row: int,
)
    requires
        links::links_whole(s, n),
        s.next_entity <= NONE_U32,
        depth >= 1,
        anchors.edges.len() == 0,
        forall|i: int|
            0 <= i < anchors.visited.len() ==> (#[trigger] anchors.visited[i]).1 == 0
                && anchors.visited[i].0.0 < NONE_U32,
        0 <= anchor < anchors.visited.len(),
        0 <= row < s.edges_out.len(),
        s.edges_out[row].a == anchors.visited[anchor].0 || s.edges_out[row].b
            == anchors.visited[anchor].0,
    ensures
        ({
            let w = graph::expanded(s, anchors, as_of, false, depth).0;
            let x = s.edges_out[row];
            &&& has_edge(w, x.a, x.rel, x.b) || w.edges.len() >= 128
            &&& within_reach(w.visited, x.a, 1) || w.visited.len() >= 64
            &&& within_reach(w.visited, x.b, 1) || w.visited.len() >= 64
        }),
{
    lemma_whole(s, n);
    an_expansion_follows_every_link(s, anchors, as_of, false, depth);
    let w = graph::expanded(s, anchors, as_of, false, depth).0;
    let x = s.edges_out[row];
    let e = anchors.visited[anchor].0;
    assert(w.visited[anchor] == anchors.visited[anchor]);
    assert(within_reach(w.visited, e, 1));
    assert(followed(s, as_of, false, w, e, 1));
    let y = RecalledEdge { src: x.a, rel: x.rel, dst: x.b, provenance: x.fact };
    assert(leaves(s, as_of, false, y));
    if x.a == e {
        assert(link_of(s, as_of, false, e, x.b, y));
        if w.edges.contains(y) {
            let i = w.edges.index_of(y);
            assert(w.edges[i] == y);
        }
    } else {
        let j = lemma_mirrored(s, n, row);
        let m = s.edges_in[j];
        let z = RecalledEdge { src: m.b, rel: m.rel, dst: m.a, provenance: m.fact };
        assert(enters(s, as_of, false, z));
        assert(link_of(s, as_of, false, e, x.a, z));
        if w.edges.contains(z) {
            let i = w.edges.index_of(z);
            assert(w.edges[i] == z);
        }
    }
}

proof fn lemma_whole(s: State, n: u32)
    requires
        links::links_whole(s, n),
        s.next_entity <= NONE_U32,
    ensures
        edges_ordered(s),
        ends_named(s),
{
    reveal(links::links_whole);
    assert forall|i: int| 0 <= i < s.edges_out.len() implies (#[trigger] s.edges_out[i]).b.0
        < NONE_U32 by {
        table::lemma_found(s.edges_out, s.edges_out[i].key(), i);
    }
    assert forall|i: int| 0 <= i < s.edges_in.len() implies (#[trigger] s.edges_in[i]).b.0
        < NONE_U32 by {
        table::lemma_found(s.edges_in, s.edges_in[i].key(), i);
    }
}

/// The mirror of a current edge.
proof fn lemma_mirrored(s: State, n: u32, row: int) -> (j: int)
    requires
        links::links_whole(s, n),
        0 <= row < s.edges_out.len(),
    ensures
        0 <= j < s.edges_in.len(),
        s.edges_in[j].a == s.edges_out[row].b,
        s.edges_in[j].rel == s.edges_out[row].rel,
        s.edges_in[j].b == s.edges_out[row].a,
{
    reveal(links::links_whole);
    reveal(links::mirror_key);
    let e = s.edges_out[row];
    table::lemma_found(s.edges_out, e.key(), row);
    assert(links::out_sane(s, n, e));
    let j = choose|j: int|
        0 <= j < s.edges_in.len() && (#[trigger] s.edges_in[j]).key() == links::mirror_key(e);
    j
}

/// One hop is symmetric: a link leads from one of its ends to the other
/// exactly when it leads back, now and at any past instant.
pub proof fn one_hop_is_symmetric(
    s: State,
    as_of: u64,
    historical: bool,
    a: EntityId,
    b: EntityId,
    x: RecalledEdge,
)
    requires
        edges_ordered(s),
        links::ends_agree(s),
    ensures
        link_of(s, as_of, historical, a, b, x) <==> link_of(s, as_of, historical, b, a, x),
        leaves(s, as_of, historical, x) <==> enters(s, as_of, historical, x),
{
    reveal(links::ends_agree);
    reveal(links::edge_key);
    reveal(links::past_key);
    if leaves(s, as_of, historical, x) {
        if historical {
            let i = choose|i: int|
                0 <= i < s.hist_out.len() && true_at(#[trigger] s.hist_out[i], as_of) && x
                    == (RecalledEdge {
                    src: s.hist_out[i].a,
                    rel: s.hist_out[i].rel,
                    dst: s.hist_out[i].b,
                    provenance: s.hist_out[i].fact,
                });
            let v = s.hist_out[i];
            let m = EdgeHistorySlot { a: v.b, b: v.a, ..v };
            table::lemma_found(s.hist_out, v.key(), i);
            assert(links::holds_version(s.hist_out, v));
            assert(links::holds_version(s.hist_in, m));
            table::lemma_rank(s.hist_in, m.key());
            let j = table::rank(s.hist_in, m.key());
            assert(s.hist_in[j] == m);
        } else {
            let i = choose|i: int|
                0 <= i < s.edges_out.len() && x == (RecalledEdge {
                    src: (#[trigger] s.edges_out[i]).a,
                    rel: s.edges_out[i].rel,
                    dst: s.edges_out[i].b,
                    provenance: s.edges_out[i].fact,
                });
            let e = s.edges_out[i];
            let m = EdgeSlot { a: e.b, b: e.a, ..e };
            table::lemma_found(s.edges_out, e.key(), i);
            assert(links::holds_edge(s.edges_out, e));
            assert(links::holds_edge(s.edges_in, m));
            table::lemma_rank(s.edges_in, m.key());
            let j = table::rank(s.edges_in, m.key());
            assert(s.edges_in[j] == m);
        }
    }
    if enters(s, as_of, historical, x) {
        if historical {
            let i = choose|i: int|
                0 <= i < s.hist_in.len() && true_at(#[trigger] s.hist_in[i], as_of) && x
                    == (RecalledEdge {
                    src: s.hist_in[i].b,
                    rel: s.hist_in[i].rel,
                    dst: s.hist_in[i].a,
                    provenance: s.hist_in[i].fact,
                });
            let m = s.hist_in[i];
            let v = EdgeHistorySlot { a: m.b, b: m.a, ..m };
            table::lemma_found(s.hist_in, m.key(), i);
            assert(links::holds_version(s.hist_in, m));
            assert(m == (EdgeHistorySlot { a: v.b, b: v.a, ..v }));
            assert(links::holds_version(s.hist_out, v));
            table::lemma_rank(s.hist_out, v.key());
            let j = table::rank(s.hist_out, v.key());
            assert(s.hist_out[j] == v);
        } else {
            let i = choose|i: int|
                0 <= i < s.edges_in.len() && x == (RecalledEdge {
                    src: (#[trigger] s.edges_in[i]).b,
                    rel: s.edges_in[i].rel,
                    dst: s.edges_in[i].a,
                    provenance: s.edges_in[i].fact,
                });
            let m = s.edges_in[i];
            let e = EdgeSlot { a: m.b, b: m.a, ..m };
            table::lemma_found(s.edges_in, m.key(), i);
            assert(links::holds_edge(s.edges_in, m));
            assert(m == (EdgeSlot { a: e.b, b: e.a, ..e }));
            assert(links::holds_edge(s.edges_out, e));
            table::lemma_rank(s.edges_out, e.key());
            let j = table::rank(s.edges_out, e.key());
            assert(s.edges_out[j] == e);
        }
    }
}

} // verus!
