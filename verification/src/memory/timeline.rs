//! The temporal index keeps step with the facts: every verb leaves one row for
//! each fact on record, at the time it was recorded.

use crate::config::Config;
use crate::id::FactId;
use crate::memory::compaction;
use crate::memory::history;
use crate::memory::links;
use crate::memory::maintain;
use crate::memory::maintain::{Carry, WorkPlan};
use crate::memory::recall::time;
use crate::memory::replay;
use crate::memory::state;
use crate::memory::state::{InputView, State};
use crate::memory::tagging;
use crate::memory::whole;
use crate::model::{FactRecord, Slot, TemporalSlot};
use crate::table;
use vstd::prelude::*;

verus! {

/// The temporal rows are in order, and they are those of the facts on record.
pub open spec fn timed(s: State) -> bool {
    table::ascending(s.temporal) && time::rows_agree(s)
}

/// An empty database is in step.
pub proof fn empty_is_timed(cfg: Config, tokenizer_version: u32)
    ensures
        timed(state::empty_state(cfg, tokenizer_version)),
{
}

/// One more row, for a fact behind all others.
proof fn lemma_row_added(s: State, t: State, f: FactRecord)
    requires
        timed(s),
        whole::moments_whole(s.temporal, f.id.0),
        state::fact_of(t, f.id) == Some(f),
        forall|other: FactId|
            other != f.id ==> #[trigger] state::fact_of(t, other) == state::fact_of(s, other),
        t.temporal == history::timed_after(s.temporal, f),
    ensures
        timed(t),
{
    let row = TemporalSlot { recorded_at: f.recorded_at, fact: f.id };
    let rows = s.temporal;
    table::lemma_rank(rows, row.key());
    let at = table::rank(rows, row.key());
    assert(!table::has_key(rows, row.key())) by {
        if table::has_key(rows, row.key()) {
            let i = choose|i: int| 0 <= i < rows.len() && (#[trigger] rows[i]).key() == row.key();
            assert(rows[i].fact.0 < f.id.0);
        }
    }
    table::lemma_with_row(rows, row);
    assert(t.temporal == rows.insert(at, row));
    assert forall|i: int| 0 <= i < t.temporal.len() implies (state::fact_of(
        t,
        (#[trigger] t.temporal[i]).fact,
    ) matches Some(g) ==> g.recorded_at == t.temporal[i].recorded_at) by {
        if i != at {
            let j = if i < at {
                i
            } else {
                i - 1
            };
            assert(t.temporal[i] == rows[j]);
            assert(rows[j].fact.0 < f.id.0);
            assert(state::fact_of(t, rows[j].fact) == state::fact_of(s, rows[j].fact));
        }
    }
    assert forall|id: FactId| (#[trigger] state::fact_of(t, id)) is Some implies table::has_key(
        t.temporal,
        time::instant_key(state::fact_of(t, id)->0.recorded_at) + id.0,
    ) by {
        let g = state::fact_of(t, id)->0;
        let key = time::instant_key(g.recorded_at) + id.0;
        links::lemma_row(t.temporal, key);
        if id == f.id {
            assert(key == row.key());
        } else {
            assert(state::fact_of(s, id) == Some(g));
            links::lemma_row(rows, key);
            assert(table::has_key(rows, key));
            if key != row.key() {
                assert(table::row_of(t.temporal, key) == table::row_of(rows, key));
            }
        }
    }
}

/// Remembering keeps the index in step.
pub proof fn remembering_keeps_time(s: State, input: InputView, revises: FactId)
    requires
        whole::whole(s),
        timed(s),
        state::remembered(s, input, revises).1 is Ok,
    ensures
        timed(state::remembered(s, input, revises).0),
{
    history::lemma_remembered(s, input, revises);
    let t = state::remembered(s, input, revises).0;
    lemma_row_added(s, t, t.facts.last());
}

/// A record put over another of the same fact and time changes nothing here.
proof fn lemma_replaced(s: State, t: State, f: FactRecord, g: FactRecord)
    requires
        whole::facts_whole(s),
        timed(s),
        table::row_of(s.facts, f.id.0 as int) == Some(f),
        g.id == f.id,
        g.recorded_at == f.recorded_at,
        t.facts == table::replaced(s.facts, g),
        t.temporal == s.temporal,
    ensures
        timed(t),
{
    history::lemma_record_replaced(s, f, g);
    let u = State { facts: t.facts, ..s };
    assert forall|id: FactId| (#[trigger] state::fact_of(t, id)) is Some implies state::fact_of(
        s,
        id,
    ) is Some && state::fact_of(s, id)->0.recorded_at == state::fact_of(t, id)->0.recorded_at by {
        assert(state::fact_of(u, id) == state::fact_of(t, id));
    }
}

/// Ending the validity of a fact keeps the index in step.
pub proof fn closing_keeps_time(s: State, target: FactId, t: u64)
    requires
        whole::whole(s),
        timed(s),
    ensures
        timed(state::target_closed(s, target, t)),
{
    if let Some(f) = state::fact_of(s, target) {
        links::lemma_row(s.facts, target.0 as int);
        lemma_replaced(s, state::target_closed(s, target, t), f, state::fact_closed_at(f, t));
    }
}

/// Forgetting keeps the index in step.
pub proof fn forgetting_keeps_time(s: State, fact: FactId)
    requires
        whole::whole(s),
        timed(s),
    ensures
        timed(state::forgotten(s, fact).0),
{
    if let Some(f) = state::fact_of(s, fact) {
        links::lemma_row(s.facts, fact.0 as int);
        if !f.tombstone() {
            lemma_replaced(s, state::forgotten(s, fact).0, f, state::fact_forgotten(f));
        }
    }
}

/// Linking keeps the index in step, whether it succeeds or not.
pub proof fn linking_keeps_time(
    s: State,
    now: u64,
    src: Seq<char>,
    rel: Seq<char>,
    dst: Seq<char>,
    provenance: FactId,
)
    requires
        timed(s),
    ensures
        timed(state::linked(s, now, src, rel, dst, provenance).0),
{
    let (t, a) = state::entity_resolved(s, src, now);
    assert(history::quiet(s, t));
    let u = state::linked(s, now, src, rel, dst, provenance).0;
    if a is Ok {
        history::lemma_link_quiet(t, a->Ok_0, (rel, dst), provenance, now);
    }
    assert(u.facts == s.facts && u.temporal == s.temporal);
    assert forall|id: FactId| #[trigger] state::fact_of(u, id) == state::fact_of(s, id) by {}
}

/// The rows of the facts that a rebuild carries over.
proof fn lemma_facts_timed(s: State, c: Carry, n: nat, reindex: bool)
    requires
        state::refs(s),
        replay::numbered(s),
        table::ascending(s.aux),
        n <= s.next_fact,
        compaction::carried(s, c.state, c.state, 0, reindex),
        timed(c.state),
        maintain::facts_carried(s, c, n, reindex) is Ok,
    ensures
        timed(maintain::facts_carried(s, c, n, reindex)->Ok_0.state),
    decreases n,
{
    if n > 0 {
        lemma_facts_timed(s, c, (n - 1) as nat, reindex);
        compaction::lemma_facts_carried(s, c, (n - 1) as nat, reindex);
        let e = maintain::facts_carried(s, c, (n - 1) as nat, reindex)->Ok_0;
        links::lemma_row(s.facts, n - 1);
        table::lemma_rank(s.facts, n - 1);
        if let Some(rec) = table::row_of(s.facts, n - 1) {
            if !rec.tombstone() {
                lemma_one_timed(s, c.state, e, rec, reindex);
            }
        }
    }
}

/// One living fact carried over brings its row.
proof fn lemma_one_timed(s: State, b: State, c: Carry, rec: FactRecord, reindex: bool)
    requires
        state::refs(s),
        replay::numbered(s),
        table::ascending(s.aux),
        table::row_of(s.facts, rec.id.0 as int) == Some(rec),
        !rec.tombstone(),
        compaction::carried(s, b, c.state, rec.id.0 as int, reindex),
        timed(c.state),
        maintain::live_carried(s, c.state, c.map, rec, reindex) is Ok,
    ensures
        timed(maintain::live_carried(s, c.state, c.map, rec, reindex)->Ok_0.0),
{
    let e = c.state;
    table::lemma_rank(s.facts, rec.id.0 as int);
    assert(s.facts[table::rank(s.facts, rec.id.0 as int)] == rec);
    compaction::lemma_live_carried(s, e, c.map, rec, reindex);
    let d = maintain::live_carried(s, e, c.map, rec, reindex)->Ok_0.0;
    let g = d.facts.last();
    assert forall|i: int| 0 <= i < e.facts.len() implies (#[trigger] e.facts[i]).key() < g.key() by {
        assert(compaction::row_kept(s, rec.id.0 as int, e.facts[i]));
    }
    table::lemma_append(e.facts, g);
    table::lemma_with_row(e.facts, g);
    lemma_row_added(e, d, g);
}

/// Maintenance keeps the index in step.
pub proof fn maintenance_keeps_time(s: State, plan: WorkPlan)
    requires
        whole::whole(s),
        state::inv(s),
        timed(s),
        maintain::pass(s, plan) is Ok,
    ensures
        timed(maintain::pass(s, plan)->Ok_0),
{
    let t = maintain::pass(s, plan)->Ok_0;
    if plan.compact {
        let index = maintain::base_index(s, plan.bm25_reindex)->Ok_0;
        let a = State { bm25: index, ..maintain::cleared(s) };
        let b = maintain::entities_carried(s, a, s.next_entity as nat)->Ok_0;
        compaction::lemma_entities_carried(s, a, s.next_entity as nat);
        let c = Carry { state: b, map: maintain::no_slots(s), purged: 0 };
        assert(timed(b));
        tagging::lemma_untagged(b);
        lemma_facts_timed(s, c, s.next_fact as nat, plan.bm25_reindex);
        let d = maintain::rebuilt(s, plan.bm25_reindex)->Ok_0.state;
        assert forall|id: FactId| #[trigger] state::fact_of(t, id) == state::fact_of(d, id) by {}
    } else {
        assert forall|id: FactId| #[trigger] state::fact_of(t, id) == state::fact_of(s, id) by {}
    }
}

} // verus!
