//! The edge tables of a state: current edges, their mirrors and their versions.
//!
//! The tables are whole when every row stands between known entities, each
//! table agrees with its mirror, and each current edge is the open version of
//! its history. A link keeps them so.

use crate::id::{EdgeId, EntityId, FactId, TermId, NONE_U32};
use crate::memory::state;
use crate::memory::state::State;
use crate::model;
use crate::model::{EdgeHistorySlot, EdgeSlot, Slot, VALID_TO_OPEN};
use crate::table;
use vstd::prelude::*;

verus! {

/// A provenance that is absent or below the bound.
pub open spec fn source_sane(f: FactId, n: u32) -> bool {
    f.0 == NONE_U32 || f.0 < n
}

/// An entity that is on record.
pub open spec fn known(s: State, e: EntityId) -> bool {
    e.0 < s.next_entity && table::has_key(s.entities, e.0 as int)
}

/// A current edge between known entities.
pub open spec fn edge_sane(s: State, n: u32, e: EdgeSlot) -> bool {
    known(s, e.a) && known(s, e.b) && e.rel.0 < s.terms.len() && e.edge.0 < s.next_edge
        && source_sane(e.fact, n)
}

/// A version of an edge between known entities.
pub open spec fn version_sane(s: State, n: u32, v: EdgeHistorySlot) -> bool {
    known(s, v.a) && known(s, v.b) && v.rel.0 < s.terms.len() && v.edge.0 < s.next_edge
        && source_sane(v.fact, n) && v.kind == 0 && v.valid_from <= v.valid_to
}

/// The key of a current edge.
#[verifier::opaque]
pub open spec fn edge_key(e: EdgeSlot) -> int {
    e.key()
}

/// The key of a version.
#[verifier::opaque]
pub open spec fn past_key(v: EdgeHistorySlot) -> int {
    v.key()
}

/// The key of the current edge that a version is one of.
#[verifier::opaque]
pub open spec fn ends_key(v: EdgeHistorySlot) -> int {
    model::edge_key_of(v.a, v.rel, v.b)
}

/// The key of an edge seen from its other end.
#[verifier::opaque]
pub open spec fn mirror_key(e: EdgeSlot) -> int {
    model::edge_key_of(e.b, e.rel, e.a)
}

/// The key of an edge's open version.
#[verifier::opaque]
pub open spec fn version_key(e: EdgeSlot) -> int {
    model::edge_history_key_of(e.a, e.valid_from, e.edge)
}

/// The key of a version seen from its other end.
#[verifier::opaque]
pub open spec fn version_mirror_key(v: EdgeHistorySlot) -> int {
    model::edge_history_key_of(v.b, v.valid_from, v.edge)
}

/// The version is the open one of the edge.
pub open spec fn is_version_of(v: EdgeHistorySlot, e: EdgeSlot) -> bool {
    v.valid_to == VALID_TO_OPEN && v.rel == e.rel && v.b == e.b && v.fact == e.fact
}

/// Every row of a table satisfies a rule.
pub open spec fn all_rows<T: Slot>(rows: Seq<T>, p: spec_fn(T) -> bool) -> bool {
    forall|k: int| (#[trigger] table::row_of(rows, k)) matches Some(r) ==> p(r)
}

/// An outgoing edge agrees with its mirror and its open version.
pub open spec fn out_sane(s: State, n: u32, e: EdgeSlot) -> bool {
    &&& edge_sane(s, n, e)
    &&& table::has_key(s.edges_in, mirror_key(e))
    &&& match table::row_of(s.hist_out, version_key(e)) {
        Some(v) => is_version_of(v, e),
        None => false,
    }
}

/// An incoming edge agrees with its mirror.
pub open spec fn in_sane(s: State, n: u32, e: EdgeSlot) -> bool {
    edge_sane(s, n, e) && table::has_key(s.edges_out, mirror_key(e))
}

/// A version agrees with its mirror; an open one is a current edge.
pub open spec fn past_sane(s: State, n: u32, v: EdgeHistorySlot) -> bool {
    &&& version_sane(s, n, v)
    &&& table::has_key(s.hist_in, version_mirror_key(v))
    &&& v.valid_to == VALID_TO_OPEN ==> table::has_key(s.edges_out, ends_key(v))
}

/// A mirrored version agrees with its version.
pub open spec fn past_in_sane(s: State, v: EdgeHistorySlot) -> bool {
    v.edge.0 < s.next_edge && table::has_key(s.hist_out, version_mirror_key(v))
}

/// The current edges agree with their mirrors and their versions.
pub open spec fn current_whole(s: State, n: u32) -> bool {
    &&& table::ascending(s.edges_out)
    &&& table::ascending(s.edges_in)
    &&& s.edges_out.len() == s.edges_in.len()
    &&& all_rows(s.edges_out, |e: EdgeSlot| out_sane(s, n, e))
    &&& all_rows(s.edges_in, |e: EdgeSlot| in_sane(s, n, e))
}

/// The versions agree with their mirrors and the current edges.
pub open spec fn history_whole(s: State, n: u32) -> bool {
    &&& table::ascending(s.hist_out)
    &&& table::ascending(s.hist_in)
    &&& s.hist_out.len() == s.hist_in.len()
    &&& all_rows(s.hist_out, |v: EdgeHistorySlot| past_sane(s, n, v))
    &&& all_rows(s.hist_in, |v: EdgeHistorySlot| past_in_sane(s, v))
}

/// The edge tables of a state.
#[verifier::opaque]
pub open spec fn links_whole(s: State, n: u32) -> bool {
    current_whole(s, n) && history_whole(s, n)
}

/// A row found by its key carries the key.
pub proof fn lemma_row<T: Slot>(rows: Seq<T>, key: int)
    requires
        table::ascending(rows),
    ensures
        table::row_of(rows, key) matches Some(r) ==> r.key() == key,
        table::row_of(rows, key) is Some <==> table::has_key(rows, key),
{
    table::lemma_rank(rows, key);
}

/// Growing around the edges keeps them whole.
pub proof fn lemma_links_grow(s: State, t: State, n: u32, m: u32)
    requires
        links_whole(s, n),
        n <= m,
        t.edges_out == s.edges_out,
        t.edges_in == s.edges_in,
        t.hist_out == s.hist_out,
        t.hist_in == s.hist_in,
        t.next_edge == s.next_edge,
        s.next_entity <= t.next_entity,
        s.terms.len() <= t.terms.len(),
        forall|k: int| table::has_key(s.entities, k) ==> #[trigger] table::has_key(t.entities, k),
    ensures
        links_whole(t, m),
{
    reveal(links_whole);
    assert forall|k: int| (#[trigger] table::row_of(t.edges_out, k)) is Some implies out_sane(
        t,
        m,
        table::row_of(t.edges_out, k)->0,
    ) by {
        assert(out_sane(s, n, table::row_of(s.edges_out, k)->0));
    }
    assert forall|k: int| (#[trigger] table::row_of(t.edges_in, k)) is Some implies in_sane(
        t,
        m,
        table::row_of(t.edges_in, k)->0,
    ) by {
        assert(in_sane(s, n, table::row_of(s.edges_in, k)->0));
    }
    assert forall|k: int| (#[trigger] table::row_of(t.hist_out, k)) is Some implies past_sane(
        t,
        m,
        table::row_of(t.hist_out, k)->0,
    ) by {
        assert(past_sane(s, n, table::row_of(s.hist_out, k)->0));
    }
    assert forall|k: int| (#[trigger] table::row_of(t.hist_in, k)) is Some implies past_in_sane(
        t,
        table::row_of(t.hist_in, k)->0,
    ) by {
        assert(past_in_sane(s, table::row_of(s.hist_in, k)->0));
    }
}

/// What closing one version does to a table of versions.
proof fn lemma_version_closed(rows: Seq<EdgeHistorySlot>, key: int, t: u64)
    requires
        table::ascending(rows),
    ensures
        ({
            let out = state::version_closed(rows, key, t);
            &&& table::ascending(out)
            &&& out.len() == rows.len()
            &&& forall|k: int| #[trigger] table::has_key(out, k) == table::has_key(rows, k)
            &&& forall|k: int|
                k != key ==> #[trigger] table::row_of(out, k) == table::row_of(rows, k)
            &&& match table::row_of(rows, key) {
                Some(v) => table::row_of(out, key) == Some(model::closed_edge(v, t)),
                None => out == rows,
            }
        }),
{
    lemma_row(rows, key);
    if let Some(v) = table::row_of(rows, key) {
        table::lemma_replaced(rows, model::closed_edge(v, t));
    }
}

/// What putting a row in, over one of the same key, does to a table.
proof fn lemma_upserted<T: Slot>(rows: Seq<T>, max_bytes: int, row: T)
    requires
        table::ascending(rows),
    ensures
        state::upserted(rows, max_bytes, row) matches Ok(out) ==> {
            &&& table::ascending(out)
            &&& out.len() == rows.len() + (if table::has_key(rows, row.key()) {
                0int
            } else {
                1
            })
            &&& table::row_of(out, row.key()) == Some(row)
            &&& forall|k: int|
                k != row.key() ==> #[trigger] table::row_of(out, k) == table::row_of(rows, k)
        },
{
    if table::has_key(rows, row.key()) {
        table::lemma_replaced(rows, row);
    } else {
        table::lemma_with_row(rows, row);
    }
}

proof fn lemma_edge_row(rows: Seq<EdgeSlot>, k: int)
    requires
        table::ascending(rows),
    ensures
        table::row_of(rows, k) matches Some(r) ==> edge_key(r) == k,
        table::row_of(rows, k) is Some <==> table::has_key(rows, k),
{
    reveal(edge_key);
    lemma_row(rows, k);
}

proof fn lemma_past_row(rows: Seq<EdgeHistorySlot>, k: int)
    requires
        table::ascending(rows),
    ensures
        table::row_of(rows, k) matches Some(r) ==> past_key(r) == k,
        table::row_of(rows, k) is Some <==> table::has_key(rows, k),
{
    reveal(past_key);
    lemma_row(rows, k);
}

/// Edges of one key have the same ends and relation.
pub proof fn lemma_edge_keys(a: EdgeSlot, b: EdgeSlot)
    ensures
        edge_key(a) == edge_key(b) <==> a.a == b.a && a.rel == b.rel && a.b == b.b,
        edge_key(a) == mirror_key(b) <==> a.a == b.b && a.rel == b.rel && a.b == b.a,
        mirror_key(a) == mirror_key(b) <==> a.a == b.a && a.rel == b.rel && a.b == b.b,
{
    reveal(edge_key);
    reveal(mirror_key);
}

/// An edge and a version of one key have the same start and number.
proof fn lemma_version_keys(e: EdgeSlot, v: EdgeHistorySlot)
    ensures
        version_key(e) == past_key(v) <==> e.a == v.a && e.valid_from == v.valid_from && e.edge
            == v.edge,
        edge_key(e) == ends_key(v) <==> e.a == v.a && e.rel == v.rel && e.b == v.b,
{
    reveal(version_key);
    reveal(past_key);
    reveal(edge_key);
    reveal(ends_key);
}

proof fn lemma_edge_versions(a: EdgeSlot, b: EdgeSlot)
    ensures
        version_key(a) == version_key(b) <==> a.a == b.a && a.valid_from == b.valid_from && a.edge
            == b.edge,
{
    reveal(version_key);
}

proof fn lemma_past_keys(a: EdgeHistorySlot, b: EdgeHistorySlot)
    ensures
        past_key(a) == past_key(b) <==> a.a == b.a && a.valid_from == b.valid_from && a.edge
            == b.edge,
        past_key(a) == version_mirror_key(b) <==> a.a == b.b && a.valid_from == b.valid_from
            && a.edge == b.edge,
        version_mirror_key(a) == version_mirror_key(b) <==> a.b == b.b && a.valid_from
            == b.valid_from && a.edge == b.edge,
        ends_key(a) == ends_key(b) <==> a.a == b.a && a.rel == b.rel && a.b == b.b,
{
    reveal(past_key);
    reveal(version_mirror_key);
    reveal(ends_key);
}

/// The current edge of a key, and its open version.
proof fn lemma_prior(s: State, n: u32, key: int)
    requires
        current_whole(s, n),
        history_whole(s, n),
    ensures
        table::row_of(s.edges_out, key) matches Some(o) ==> {
            let was = table::row_of(s.hist_out, version_key(o));
            &&& edge_key(o) == key
            &&& out_sane(s, n, o)
            &&& was is Some
            &&& past_sane(s, n, was->0)
            &&& is_version_of(was->0, o)
            &&& was->0.a == o.a && was->0.valid_from == o.valid_from && was->0.edge == o.edge
        },
{
    lemma_edge_row(s.edges_out, key);
    if let Some(o) = table::row_of(s.edges_out, key) {
        assert(out_sane(s, n, o));
        lemma_past_row(s.hist_out, version_key(o));
        let was = table::row_of(s.hist_out, version_key(o))->0;
        assert(past_sane(s, n, was));
        lemma_version_keys(o, was);
    }
}

/// A version with a new edge id is in neither table.
proof fn lemma_unused(s: State, n: u32, v: EdgeHistorySlot)
    requires
        history_whole(s, n),
        v.edge.0 == s.next_edge,
    ensures
        !table::has_key(s.hist_out, past_key(v)),
        !table::has_key(s.hist_in, past_key(state::version_mirrored(v))),
{
    let w = state::version_mirrored(v);
    lemma_past_row(s.hist_out, past_key(v));
    if table::has_key(s.hist_out, past_key(v)) {
        let r = table::row_of(s.hist_out, past_key(v))->0;
        assert(past_sane(s, n, r));
        lemma_past_keys(r, v);
    }
    lemma_past_row(s.hist_in, past_key(w));
    if table::has_key(s.hist_in, past_key(w)) {
        let r = table::row_of(s.hist_in, past_key(w))->0;
        assert(past_in_sane(s, r));
        lemma_past_keys(r, w);
    }
}

/// One table of versions after a link: the version at `key` is closed, when
/// there is one, and a new one is added.
spec fn versions_after(
    rows: Seq<EdgeHistorySlot>,
    key: Option<int>,
    start: u64,
    v: EdgeHistorySlot,
) -> Seq<EdgeHistorySlot> {
    let closed = match key {
        Some(k) => state::version_closed(rows, k, start),
        None => rows,
    };
    table::with_row(closed, v)
}

/// The same version, up to its end date.
spec fn same_version(a: EdgeHistorySlot, b: EdgeHistorySlot) -> bool {
    a == (EdgeHistorySlot { valid_to: a.valid_to, flags: a.flags, ..b })
}

/// What adding a version and closing another does to a table.
spec fn version_put(
    rows: Seq<EdgeHistorySlot>,
    out: Seq<EdgeHistorySlot>,
    key: Option<int>,
    start: u64,
    v: EdgeHistorySlot,
) -> bool {
    &&& table::ascending(out)
    &&& out.len() == rows.len() + 1
    &&& table::row_of(out, past_key(v)) == Some(v)
    &&& forall|k: int|
        k != past_key(v) ==> #[trigger] table::has_key(out, k) == table::has_key(rows, k)
    &&& forall|k: int|
        k != past_key(v) && key != Some(k) ==> #[trigger] table::row_of(out, k) == table::row_of(
            rows,
            k,
        )
    &&& match key {
        Some(k) => k != past_key(v) && table::row_of(rows, k) is Some ==> table::row_of(out, k)
            == Some(model::closed_edge(table::row_of(rows, k)->0, start)),
        None => true,
    }
}

proof fn lemma_versions_after(
    rows: Seq<EdgeHistorySlot>,
    key: Option<int>,
    start: u64,
    v: EdgeHistorySlot,
)
    requires
        table::ascending(rows),
        !table::has_key(rows, past_key(v)),
    ensures
        version_put(rows, versions_after(rows, key, start, v), key, start, v),
{
    reveal(past_key);
    let closed = match key {
        Some(k) => state::version_closed(rows, k, start),
        None => rows,
    };
    if let Some(k) = key {
        lemma_version_closed(rows, k, start);
    }
    let out = versions_after(rows, key, start, v);
    table::lemma_with_row(closed, v);
    assert forall|k: int| k != past_key(v) implies #[trigger] table::has_key(out, k)
        == table::has_key(rows, k) by {
        lemma_row(out, k);
        lemma_row(closed, k);
        assert(table::row_of(out, k) == table::row_of(closed, k));
        assert(table::has_key(closed, k) == table::has_key(rows, k));
    }
}

/// A row that was there is the same version as before.
proof fn lemma_put_row(
    rows: Seq<EdgeHistorySlot>,
    out: Seq<EdgeHistorySlot>,
    key: Option<int>,
    start: u64,
    v: EdgeHistorySlot,
    k: int,
)
    requires
        table::ascending(rows),
        version_put(rows, out, key, start, v),
        k != past_key(v),
    ensures
        table::row_of(out, k) matches Some(r) ==> {
            let was = table::row_of(rows, k);
            &&& was is Some
            &&& same_version(r, was->0)
            &&& r.valid_to == was->0.valid_to || (key == Some(k) && r.valid_to == start)
        },
{
    lemma_past_row(rows, k);
    lemma_past_row(out, k);
    assert(table::has_key(out, k) == table::has_key(rows, k));
}

/// What a successful link does to the edge tables.
proof fn lemma_upsert_shape(
    s: State,
    n: u32,
    src: EntityId,
    rel: TermId,
    dst: EntityId,
    fact: FactId,
    now: u64,
)
    requires
        current_whole(s, n),
        history_whole(s, n),
        state::edge_upserted(s, src, rel, dst, fact, now).1 is Ok,
    ensures
        ({
            let t = state::edge_upserted(s, src, rel, dst, fact, now).0;
            let prior = table::row_of(s.edges_out, model::edge_key_of(src, rel, dst));
            let start = state::version_start(prior, now);
            let e = EdgeSlot {
                a: src,
                rel,
                b: dst,
                fact,
                edge: EdgeId(s.next_edge),
                valid_from: start,
            };
            let v = state::version_of(e, now);
            &&& s.next_edge < NONE_U32
            &&& t == (State {
                next_edge: (s.next_edge + 1) as u32,
                hist_out: versions_after(s.hist_out, closed_at(prior), start, v),
                hist_in: versions_after(
                    s.hist_in,
                    closed_in_at(prior),
                    start,
                    state::version_mirrored(v),
                ),
                edges_out: t.edges_out,
                edges_in: t.edges_in,
                ..s
            })
            &&& state::upserted(s.edges_out, state::cap(s), e) == Ok::<
                Seq<EdgeSlot>,
                crate::error::ArenaError,
            >(t.edges_out)
            &&& state::upserted(s.edges_in, state::cap(s), state::mirrored(e)) == Ok::<
                Seq<EdgeSlot>,
                crate::error::ArenaError,
            >(t.edges_in)
        }),
{
    let prior = table::row_of(s.edges_out, model::edge_key_of(src, rel, dst));
    let start = state::version_start(prior, now);
    let e = EdgeSlot { a: src, rel, b: dst, fact, edge: EdgeId(s.next_edge), valid_from: start };
    let v = state::version_of(e, now);
    let w = state::version_mirrored(v);
    lemma_unused(s, n, v);
    reveal(past_key);
    reveal(version_key);
    if let Some(o) = prior {
        lemma_version_closed(s.hist_out, version_key(o), start);
        lemma_version_closed(
            s.hist_in,
            model::edge_history_key_of(o.b, o.valid_from, o.edge),
            start,
        );
        let t = state::edge_closed(s, o, start);
        assert(!table::has_key(t.hist_out, v.key()));
        assert(!table::has_key(t.hist_in, w.key()));
    }
}

/// The key of the version that a link closes.
spec fn closed_at(prior: Option<EdgeSlot>) -> Option<int> {
    match prior {
        Some(o) => Some(version_key(o)),
        None => None,
    }
}

/// The key of its mirror.
spec fn closed_in_at(prior: Option<EdgeSlot>) -> Option<int> {
    match prior {
        Some(o) => Some(model::edge_history_key_of(o.b, o.valid_from, o.edge)),
        None => None,
    }
}

/// What putting a current edge in does to a table.
spec fn edge_put(rows: Seq<EdgeSlot>, out: Seq<EdgeSlot>, row: EdgeSlot) -> bool {
    &&& table::ascending(out)
    &&& table::row_of(out, edge_key(row)) == Some(row)
    &&& forall|k: int|
        k != edge_key(row) ==> #[trigger] table::row_of(out, k) == table::row_of(rows, k)
    &&& out.len() == rows.len() + (if table::has_key(rows, edge_key(row)) {
        0int
    } else {
        1
    })
}

/// The edge tables of `t` are those of `s` with one link made.
spec fn link_made(s: State, t: State, n: u32, e: EdgeSlot, now: u64) -> bool {
    let v = state::version_of(e, now);
    let prior = table::row_of(s.edges_out, edge_key(e));
    &&& t.next_edge == s.next_edge + 1
    &&& e.edge.0 == s.next_edge
    &&& t.entities == s.entities
    &&& t.next_entity == s.next_entity
    &&& t.terms == s.terms
    &&& edge_sane(t, n, e)
    &&& prior matches Some(o) ==> o.valid_from <= e.valid_from
    &&& edge_put(s.edges_out, t.edges_out, e)
    &&& edge_put(s.edges_in, t.edges_in, state::mirrored(e))
    &&& version_put(s.hist_out, t.hist_out, closed_at(prior), e.valid_from, v)
    &&& version_put(
        s.hist_in,
        t.hist_in,
        closed_in_at(prior),
        e.valid_from,
        state::version_mirrored(v),
    )
}

proof fn lemma_edge_kept(rows: Seq<EdgeSlot>, out: Seq<EdgeSlot>, row: EdgeSlot, k: int)
    requires
        table::ascending(rows),
        edge_put(rows, out, row),
    ensures
        table::has_key(rows, k) ==> table::has_key(out, k),
        table::has_key(out, edge_key(row)),
{
    lemma_edge_row(rows, k);
    lemma_edge_row(out, k);
    lemma_edge_row(out, edge_key(row));
}

proof fn lemma_made_out(s: State, t: State, n: u32, e: EdgeSlot, now: u64, k: int)
    requires
        current_whole(s, n),
        history_whole(s, n),
        link_made(s, t, n, e, now),
    ensures
        table::row_of(t.edges_out, k) matches Some(r) ==> out_sane(t, n, r),
{
    let v = state::version_of(e, now);
    let m = state::mirrored(e);
    let prior = table::row_of(s.edges_out, edge_key(e));
    if let Some(r) = table::row_of(t.edges_out, k) {
        lemma_edge_keys(m, e);
        lemma_edge_kept(s.edges_in, t.edges_in, m, mirror_key(r));
        if k == edge_key(e) {
            lemma_version_keys(e, v);
        } else {
            lemma_prior(s, n, k);
            lemma_version_keys(r, v);
            if let Some(o) = prior {
                lemma_prior(s, n, edge_key(e));
                lemma_edge_versions(r, o);
                lemma_edge_keys(r, o);
            }
            assert(table::row_of(t.hist_out, version_key(r)) == table::row_of(
                s.hist_out,
                version_key(r),
            ));
        }
    }
}

proof fn lemma_made_in(s: State, t: State, n: u32, e: EdgeSlot, now: u64, k: int)
    requires
        current_whole(s, n),
        link_made(s, t, n, e, now),
    ensures
        table::row_of(t.edges_in, k) matches Some(r) ==> in_sane(t, n, r),
{
    let m = state::mirrored(e);
    lemma_edge_keys(e, m);
    if let Some(r) = table::row_of(t.edges_in, k) {
        lemma_edge_kept(s.edges_out, t.edges_out, e, mirror_key(r));
        if k != edge_key(m) {
            assert(table::row_of(s.edges_in, k) == Some(r));
            assert(in_sane(s, n, r));
        }
    }
}

proof fn lemma_made_past(s: State, t: State, n: u32, e: EdgeSlot, now: u64, k: int)
    requires
        current_whole(s, n),
        history_whole(s, n),
        link_made(s, t, n, e, now),
    ensures
        table::row_of(t.hist_out, k) matches Some(r) ==> past_sane(t, n, r),
{
    let v = state::version_of(e, now);
    let w = state::version_mirrored(v);
    let prior = table::row_of(s.edges_out, edge_key(e));
    if let Some(r) = table::row_of(t.hist_out, k) {
        lemma_past_keys(w, r);
        lemma_past_row(t.hist_in, past_key(w));
        lemma_edge_kept(s.edges_out, t.edges_out, e, ends_key(r));
        if k == past_key(v) {
            lemma_past_keys(w, v);
            lemma_version_keys(e, v);
        } else {
            lemma_put_row(s.hist_out, t.hist_out, closed_at(prior), e.valid_from, v, k);
            let was = table::row_of(s.hist_out, k)->0;
            assert(past_sane(s, n, was));
            lemma_past_keys(r, was);
            if version_mirror_key(r) != past_key(w) {
                assert(table::has_key(t.hist_in, version_mirror_key(r)) == table::has_key(
                    s.hist_in,
                    version_mirror_key(r),
                ));
            }
            if let Some(o) = prior {
                lemma_prior(s, n, edge_key(e));
            }
        }
    }
}

proof fn lemma_made_past_in(s: State, t: State, n: u32, e: EdgeSlot, now: u64, k: int)
    requires
        history_whole(s, n),
        link_made(s, t, n, e, now),
    ensures
        table::row_of(t.hist_in, k) matches Some(r) ==> past_in_sane(t, r),
{
    let v = state::version_of(e, now);
    let w = state::version_mirrored(v);
    let prior = table::row_of(s.edges_out, edge_key(e));
    lemma_past_row(t.hist_out, past_key(v));
    if let Some(r) = table::row_of(t.hist_in, k) {
        lemma_past_keys(v, r);
        if k == past_key(w) {
            lemma_past_keys(v, w);
        } else {
            lemma_put_row(s.hist_in, t.hist_in, closed_in_at(prior), e.valid_from, w, k);
            let was = table::row_of(s.hist_in, k)->0;
            assert(past_in_sane(s, was));
            lemma_past_keys(r, was);
            if version_mirror_key(r) != past_key(v) {
                assert(table::has_key(t.hist_out, version_mirror_key(r)) == table::has_key(
                    s.hist_out,
                    version_mirror_key(r),
                ));
            }
        }
    }
}

/// A table pair stays equally long.
proof fn lemma_made_lens(s: State, t: State, n: u32, e: EdgeSlot, now: u64)
    requires
        current_whole(s, n),
        link_made(s, t, n, e, now),
    ensures
        t.edges_out.len() == t.edges_in.len(),
{
    let m = state::mirrored(e);
    lemma_edge_keys(m, e);
    lemma_edge_row(s.edges_out, edge_key(e));
    lemma_edge_row(s.edges_in, edge_key(m));
    if let Some(o) = table::row_of(s.edges_out, edge_key(e)) {
        assert(out_sane(s, n, o));
        lemma_edge_keys(o, e);
        lemma_edge_keys(m, o);
    }
    if let Some(r) = table::row_of(s.edges_in, edge_key(m)) {
        assert(in_sane(s, n, r));
        lemma_edge_keys(r, m);
        lemma_edge_keys(e, r);
    }
}

proof fn lemma_made_whole(s: State, t: State, n: u32, e: EdgeSlot, now: u64)
    requires
        current_whole(s, n),
        history_whole(s, n),
        link_made(s, t, n, e, now),
    ensures
        links_whole(t, n),
{
    reveal(links_whole);
    lemma_made_lens(s, t, n, e, now);
    assert forall|k: int| (#[trigger] table::row_of(t.edges_out, k)) is Some implies out_sane(
        t,
        n,
        table::row_of(t.edges_out, k)->0,
    ) by {
        lemma_made_out(s, t, n, e, now, k);
    }
    assert forall|k: int| (#[trigger] table::row_of(t.edges_in, k)) is Some implies in_sane(
        t,
        n,
        table::row_of(t.edges_in, k)->0,
    ) by {
        lemma_made_in(s, t, n, e, now, k);
    }
    assert forall|k: int| (#[trigger] table::row_of(t.hist_out, k)) is Some implies past_sane(
        t,
        n,
        table::row_of(t.hist_out, k)->0,
    ) by {
        lemma_made_past(s, t, n, e, now, k);
    }
    assert forall|k: int| (#[trigger] table::row_of(t.hist_in, k)) is Some implies past_in_sane(
        t,
        table::row_of(t.hist_in, k)->0,
    ) by {
        lemma_made_past_in(s, t, n, e, now, k);
    }
}

/// The current edge that a link makes.
pub open spec fn edge_made(
    s: State,
    src: EntityId,
    rel: TermId,
    dst: EntityId,
    fact: FactId,
    now: u64,
) -> EdgeSlot {
    EdgeSlot {
        a: src,
        rel,
        b: dst,
        fact,
        edge: EdgeId(s.next_edge),
        valid_from: state::version_start(
            table::row_of(s.edges_out, model::edge_key_of(src, rel, dst)),
            now,
        ),
    }
}

proof fn lemma_link_made(
    s: State,
    n: u32,
    src: EntityId,
    rel: TermId,
    dst: EntityId,
    fact: FactId,
    now: u64,
)
    requires
        links_whole(s, n),
        known(s, src),
        known(s, dst),
        rel.0 < s.terms.len(),
        source_sane(fact, n),
        state::edge_upserted(s, src, rel, dst, fact, now).1 is Ok,
    ensures
        link_made(
            s,
            state::edge_upserted(s, src, rel, dst, fact, now).0,
            n,
            edge_made(s, src, rel, dst, fact, now),
            now,
        ),
{
    reveal(links_whole);
    let t = state::edge_upserted(s, src, rel, dst, fact, now).0;
    let prior = table::row_of(s.edges_out, model::edge_key_of(src, rel, dst));
    let e = edge_made(s, src, rel, dst, fact, now);
    let start = e.valid_from;
    let v = state::version_of(e, now);
    let w = state::version_mirrored(v);
    assert(edge_key(e) == model::edge_key_of(src, rel, dst)) by {
        reveal(edge_key);
    }
    lemma_upsert_shape(s, n, src, rel, dst, fact, now);
    lemma_unused(s, n, v);
    lemma_versions_after(s.hist_out, closed_at(prior), start, v);
    lemma_versions_after(s.hist_in, closed_in_at(prior), start, w);
    assert(edge_put(s.edges_out, t.edges_out, e)) by {
        reveal(edge_key);
        lemma_upserted(s.edges_out, state::cap(s), e);
    }
    assert(edge_put(s.edges_in, t.edges_in, state::mirrored(e))) by {
        reveal(edge_key);
        lemma_upserted(s.edges_in, state::cap(s), state::mirrored(e));
    }
}

/// A link keeps the edge tables whole.
pub proof fn lemma_links_upserted(
    s: State,
    n: u32,
    src: EntityId,
    rel: TermId,
    dst: EntityId,
    fact: FactId,
    now: u64,
)
    requires
        links_whole(s, n),
        known(s, src),
        known(s, dst),
        rel.0 < s.terms.len(),
        source_sane(fact, n),
        state::edge_upserted(s, src, rel, dst, fact, now).1 is Ok,
    ensures
        links_whole(state::edge_upserted(s, src, rel, dst, fact, now).0, n),
{
    reveal(links_whole);
    lemma_link_made(s, n, src, rel, dst, fact, now);
    let t = state::edge_upserted(s, src, rel, dst, fact, now).0;
    lemma_made_whole(s, t, n, edge_made(s, src, rel, dst, fact, now), now);
}

/// A link is replaced, not repeated: the new edge is the only current one of
/// its ends and relation, with an open version in the history, and the version
/// it follows is closed where the new one starts. Every other current edge and
/// version is as it was.
pub proof fn a_link_is_replaced_not_repeated(
    s: State,
    n: u32,
    src: EntityId,
    rel: TermId,
    dst: EntityId,
    fact: FactId,
    now: u64,
)
    requires
        links_whole(s, n),
        known(s, src),
        known(s, dst),
        rel.0 < s.terms.len(),
        source_sane(fact, n),
        state::edge_upserted(s, src, rel, dst, fact, now).1 is Ok,
    ensures
        ({
            let t = state::edge_upserted(s, src, rel, dst, fact, now).0;
            let e = edge_made(s, src, rel, dst, fact, now);
            let prior = table::row_of(s.edges_out, edge_key(e));
            &&& table::row_of(t.edges_out, edge_key(e)) == Some(e)
            &&& table::row_of(t.hist_out, version_key(e)) == Some(state::version_of(e, now))
            &&& prior matches Some(o) ==> {
                let was = table::row_of(s.hist_out, version_key(o));
                &&& was is Some
                &&& was->0.valid_to == VALID_TO_OPEN
                &&& table::row_of(t.hist_out, version_key(o)) == Some(
                    model::closed_edge(was->0, e.valid_from),
                )
            }
            &&& forall|k: int|
                k != edge_key(e) ==> #[trigger] table::row_of(t.edges_out, k) == table::row_of(
                    s.edges_out,
                    k,
                )
            &&& forall|k: int|
                k != version_key(e) && !(prior matches Some(o) && k == version_key(o))
                    ==> #[trigger] table::row_of(t.hist_out, k) == table::row_of(s.hist_out, k)
        }),
{
    reveal(links_whole);
    lemma_link_made(s, n, src, rel, dst, fact, now);
    let e = edge_made(s, src, rel, dst, fact, now);
    let v = state::version_of(e, now);
    lemma_version_keys(e, v);
    lemma_prior(s, n, edge_key(e));
    if let Some(o) = table::row_of(s.edges_out, edge_key(e)) {
        lemma_version_keys(o, v);
    }
}

/// A table holds a current edge.
pub open spec fn holds_edge(rows: Seq<EdgeSlot>, e: EdgeSlot) -> bool {
    table::row_of(rows, edge_key(e)) == Some(e)
}

/// A table holds a version.
pub open spec fn holds_version(rows: Seq<EdgeHistorySlot>, v: EdgeHistorySlot) -> bool {
    table::row_of(rows, past_key(v)) == Some(v)
}

/// Both ends of every link say the same: a current edge and a version stand
/// under their source exactly when they stand under their destination, with
/// the same relation, provenance and times.
#[verifier::opaque]
pub open spec fn ends_agree(s: State) -> bool {
    &&& forall|e: EdgeSlot| #[trigger]
        holds_edge(s.edges_out, e) <==> holds_edge(s.edges_in, EdgeSlot { a: e.b, b: e.a, ..e })
    &&& forall|v: EdgeHistorySlot| #[trigger]
        holds_version(s.hist_out, v) <==> holds_version(
            s.hist_in,
            EdgeHistorySlot { a: v.b, b: v.a, ..v },
        )
}

/// The ends agree where there are no links.
pub proof fn empty_ends_agree(s: State)
    requires
        s.edges_out.len() == 0,
        s.edges_in.len() == 0,
        s.hist_out.len() == 0,
        s.hist_in.len() == 0,
    ensures
        ends_agree(s),
{
    reveal(ends_agree);
}

/// A link is the same from both of its ends: making one keeps the ends in
/// agreement, also about the version that it closes.
pub proof fn a_link_is_the_same_from_both_ends(
    s: State,
    n: u32,
    src: EntityId,
    rel: TermId,
    dst: EntityId,
    fact: FactId,
    now: u64,
)
    requires
        links_whole(s, n),
        ends_agree(s),
        known(s, src),
        known(s, dst),
        rel.0 < s.terms.len(),
        source_sane(fact, n),
        state::edge_upserted(s, src, rel, dst, fact, now).1 is Ok,
    ensures
        ends_agree(state::edge_upserted(s, src, rel, dst, fact, now).0),
{
    reveal(links_whole);
    lemma_link_made(s, n, src, rel, dst, fact, now);
    let t = state::edge_upserted(s, src, rel, dst, fact, now).0;
    let e = edge_made(s, src, rel, dst, fact, now);
    lemma_edges_agree(s, t, n, e, now);
    lemma_versions_agree(s, t, n, e, now);
    reveal(ends_agree);
}

proof fn lemma_edges_agree(s: State, t: State, n: u32, e: EdgeSlot, now: u64)
    requires
        current_whole(s, n),
        ends_agree(s),
        link_made(s, t, n, e, now),
    ensures
        forall|x: EdgeSlot| #[trigger]
            holds_edge(t.edges_out, x) <==> holds_edge(
                t.edges_in,
                EdgeSlot { a: x.b, b: x.a, ..x },
            ),
{
    reveal(ends_agree);
    let m = state::mirrored(e);
    assert forall|x: EdgeSlot| #[trigger]
        holds_edge(t.edges_out, x) <==> holds_edge(
            t.edges_in,
            EdgeSlot { a: x.b, b: x.a, ..x },
        ) by {
        let y = EdgeSlot { a: x.b, b: x.a, ..x };
        lemma_edge_keys(x, e);
        lemma_edge_keys(y, m);
        assert(holds_edge(s.edges_out, x) <==> holds_edge(s.edges_in, y));
        if edge_key(x) == edge_key(e) {
            assert(edge_key(y) == edge_key(m));
        } else {
            assert(edge_key(y) != edge_key(m));
        }
    }
}

proof fn lemma_versions_agree(s: State, t: State, n: u32, e: EdgeSlot, now: u64)
    requires
        current_whole(s, n),
        history_whole(s, n),
        ends_agree(s),
        link_made(s, t, n, e, now),
    ensures
        forall|x: EdgeHistorySlot| #[trigger]
            holds_version(t.hist_out, x) <==> holds_version(
                t.hist_in,
                EdgeHistorySlot { a: x.b, b: x.a, ..x },
            ),
{
    let v = state::version_of(e, now);
    let prior = table::row_of(s.edges_out, edge_key(e));
    lemma_prior(s, n, edge_key(e));
    lemma_unused(s, n, v);
    assert forall|x: EdgeHistorySlot| #[trigger]
        holds_version(t.hist_out, x) <==> holds_version(
            t.hist_in,
            EdgeHistorySlot { a: x.b, b: x.a, ..x },
        ) by {
        let y = EdgeHistorySlot { a: x.b, b: x.a, ..x };
        assert(holds_version(s.hist_out, x) ==> x.edge.0 < s.next_edge) by {
            if holds_version(s.hist_out, x) {
                assert(past_sane(s, n, table::row_of(s.hist_out, past_key(x))->0));
            }
        }
        match prior {
            None => {
                assert(holds_version(s.hist_out, x) <==> holds_version(s.hist_in, y)) by {
                    reveal(ends_agree);
                }
                lemma_agrees_added(
                    s.hist_out,
                    t.hist_out,
                    s.hist_in,
                    t.hist_in,
                    e.valid_from,
                    v,
                    x,
                );
            },
            Some(o) => {
                let w = table::row_of(s.hist_out, version_key(o))->0;
                let wm = EdgeHistorySlot { a: w.b, b: w.a, ..w };
                assert(holds_version(s.hist_out, w)) by {
                    lemma_past_row(s.hist_out, version_key(o));
                }
                assert(w.edge.0 < s.next_edge) by {
                    assert(past_sane(s, n, w));
                }
                assert((holds_version(s.hist_out, x) <==> holds_version(s.hist_in, y))
                    && holds_version(s.hist_in, wm)) by {
                    reveal(ends_agree);
                }
                assert(version_key(o) == past_key(w)) by {
                    lemma_past_row(s.hist_out, version_key(o));
                }
                assert(model::edge_history_key_of(o.b, o.valid_from, o.edge) == past_key(wm)) by {
                    reveal(past_key);
                }
                lemma_agrees_closed(
                    s.hist_out,
                    t.hist_out,
                    s.hist_in,
                    t.hist_in,
                    e.valid_from,
                    v,
                    w,
                    x,
                );
            },
        }
    }
}

/// One version more on both sides.
proof fn lemma_agrees_added(
    a: Seq<EdgeHistorySlot>,
    b: Seq<EdgeHistorySlot>,
    c: Seq<EdgeHistorySlot>,
    d: Seq<EdgeHistorySlot>,
    start: u64,
    v: EdgeHistorySlot,
    x: EdgeHistorySlot,
)
    requires
        version_put(a, b, None, start, v),
        version_put(c, d, None, start, state::version_mirrored(v)),
        holds_version(a, x) ==> x.edge.0 < v.edge.0,
        holds_version(a, x) <==> holds_version(c, EdgeHistorySlot { a: x.b, b: x.a, ..x }),
    ensures
        holds_version(b, x) <==> holds_version(d, EdgeHistorySlot { a: x.b, b: x.a, ..x }),
{
    let y = EdgeHistorySlot { a: x.b, b: x.a, ..x };
    let vm = state::version_mirrored(v);
    lemma_past_keys(x, v);
    lemma_past_keys(y, vm);
    if past_key(x) == past_key(v) {
        if holds_version(d, y) && past_key(y) != past_key(vm) {
            assert(holds_version(c, y));
        }
    } else if past_key(y) == past_key(vm) {
        if holds_version(b, x) {
            assert(holds_version(a, x));
        }
        if holds_version(d, y) {
            assert(y == vm);
        }
    } else {
        assert(table::row_of(b, past_key(x)) == table::row_of(a, past_key(x)));
        assert(table::row_of(d, past_key(y)) == table::row_of(c, past_key(y)));
    }
}

/// One version more and one closed on both sides.
proof fn lemma_agrees_closed(
    a: Seq<EdgeHistorySlot>,
    b: Seq<EdgeHistorySlot>,
    c: Seq<EdgeHistorySlot>,
    d: Seq<EdgeHistorySlot>,
    start: u64,
    v: EdgeHistorySlot,
    w: EdgeHistorySlot,
    x: EdgeHistorySlot,
)
    requires
        version_put(a, b, Some(past_key(w)), start, v),
        version_put(
            c,
            d,
            Some(past_key(EdgeHistorySlot { a: w.b, b: w.a, ..w })),
            start,
            state::version_mirrored(v),
        ),
        holds_version(a, w),
        holds_version(c, EdgeHistorySlot { a: w.b, b: w.a, ..w }),
        w.edge.0 < v.edge.0,
        holds_version(a, x) ==> x.edge.0 < v.edge.0,
        holds_version(a, x) <==> holds_version(c, EdgeHistorySlot { a: x.b, b: x.a, ..x }),
    ensures
        holds_version(b, x) <==> holds_version(d, EdgeHistorySlot { a: x.b, b: x.a, ..x }),
{
    let y = EdgeHistorySlot { a: x.b, b: x.a, ..x };
    let wm = EdgeHistorySlot { a: w.b, b: w.a, ..w };
    let vm = state::version_mirrored(v);
    let cw = model::closed_edge(w, start);
    let cm = model::closed_edge(wm, start);
    lemma_past_keys(x, v);
    lemma_past_keys(y, vm);
    lemma_past_keys(w, v);
    lemma_past_keys(wm, vm);
    lemma_past_keys(x, w);
    lemma_past_keys(y, wm);
    assert(table::row_of(b, past_key(w)) == Some(cw));
    assert(table::row_of(d, past_key(wm)) == Some(cm));
    if holds_version(b, x) {
        if past_key(x) == past_key(v) {
            assert(x == v);
        } else if past_key(x) == past_key(w) {
            assert(x == cw);
            assert(y == cm);
        } else {
            assert(holds_version(a, x));
            assert(holds_version(c, y));
            if past_key(y) == past_key(wm) {
                assert(y == wm);
            }
            assert(table::row_of(d, past_key(y)) == table::row_of(c, past_key(y)));
        }
    }
    if holds_version(d, y) {
        if past_key(y) == past_key(vm) {
            assert(y == vm);
            assert(x == v);
        } else if past_key(y) == past_key(wm) {
            assert(y == cm);
            assert(x == cw);
        } else {
            assert(holds_version(c, y));
            assert(holds_version(a, x));
            if past_key(x) == past_key(w) {
                assert(x == w);
            }
            assert(table::row_of(b, past_key(x)) == table::row_of(a, past_key(x)));
        }
    }
}

} // verus!
