//! Journal replay.
//!
//! Every record is applied through the path that executed it, in journal
//! order. A record of a new fact carries the id the fact got, so a record that
//! is already contained in the state is recognized and skipped.

use crate::error::Error;
use crate::float::F32Bits;
use crate::id::{FactId, NONE_U32};
use crate::index::vecpool::check_vector;
use crate::index::hnsw::HnswState;
use crate::journal;
use crate::journal::{scan, JournalEntry, JournalScan, Op, OpView};
use crate::memory::compaction;
use crate::memory::links;
use crate::memory::maintain;
use crate::memory::maintain::{MaintainReport, MaintenanceOptions};
use crate::memory::state;
use crate::memory::state::{InputView, State};
use crate::memory::whole;
use crate::memory::{Memory, OpenReport, RememberInput};
use crate::model;
use crate::model::Slot;
use crate::table;
use vstd::prelude::*;
use vstd::string::*;

verus! {

/// Applying the journal record of a forgotten fact. Forgetting twice is fine;
/// an unknown fact is corruption.
pub open spec fn forget_replayed(s: State, fact: FactId) -> (State, Result<bool, Error>) {
    let (t, r) = state::forgotten(s, fact);
    match r {
        Ok(_) => (t, Ok(true)),
        Err(_) => (t, Err(Error::Corrupt("journal forgets an unknown fact"))),
    }
}

/// Applying the journal marker of a maintenance pass.
pub open spec fn maintain_replayed(s: State, mode: u8, word: u32) -> (State, Result<bool, Error>) {
    match maintain::options_of(mode, word) {
        Err(e) => (s, Err(e)),
        Ok(o) => match maintain::pass(s, maintain::plan_of(s, o)) {
            Err(e) => (s, Err(e)),
            Ok(t) => (t, Ok(true)),
        },
    }
}

/// Applying one operation: the state it leaves, and `false` when the state
/// held it already.
#[verifier::opaque]
pub open spec fn op_applied(s: State, op: OpView) -> (State, Result<bool, Error>) {
    match op {
        OpView::Remember {
            now,
            valid_from,
            entity,
            text,
            tags,
            links,
            vector,
            metadata,
            revises,
            assigned,
        } => state::remember_replayed(
            s,
            state::input_of(now, valid_from, entity, text, tags, links, metadata),
            vector,
            revises,
            assigned,
        ),
        OpView::Forget { fact, .. } => forget_replayed(s, fact),
        OpView::Link { now, src, rel, dst, provenance } => {
            let (t, r) = state::linked(s, now, src, rel, dst, provenance);
            match r {
                Err(e) => (t, Err(e)),
                Ok(()) => (t, Ok(true)),
            }
        },
        OpView::Maintain { mode, max_hnsw_inserts, .. } => maintain_replayed(
            s,
            mode,
            max_hnsw_inserts,
        ),
        OpView::Unlink { .. } => (s, Err(Error::Invalid("journal operation has no replay rule"))),
        OpView::RemoveTag { .. } => (
            s,
            Err(Error::Invalid("journal operation has no replay rule")),
        ),
    }
}

/// A replay in progress: the state, the records applied and skipped, and how
/// it stands.
#[verifier::ext_equal]
pub struct Progress {
    pub state: State,
    pub replayed: nat,
    pub skipped: nat,
    pub result: Result<(), Error>,
}

/// A replay about to start.
pub open spec fn started(s: State) -> Progress {
    Progress { state: s, replayed: 0, skipped: 0, result: Ok(()) }
}

/// One more operation.
pub open spec fn advanced(p: Progress, op: OpView) -> Progress {
    match p.result {
        Err(_) => p,
        Ok(()) => {
            let (t, r) = op_applied(p.state, op);
            match r {
                Err(e) => Progress { state: t, result: Err(e), ..p },
                Ok(true) => Progress { state: t, replayed: p.replayed + 1, ..p },
                Ok(false) => Progress { state: t, skipped: p.skipped + 1, ..p },
            }
        },
    }
}

/// One more journal entry.
pub open spec fn entry_advanced(p: Progress, entry: (u8, Seq<u8>)) -> Progress {
    match p.result {
        Err(_) => p,
        Ok(()) => match journal::decoded(entry.0, entry.1) {
            Err(e) => Progress { result: Err(e), ..p },
            Ok(op) => advanced(p, op),
        },
    }
}

/// The entries of a journal in turn; stops at the first that fails.
pub open spec fn replayed(s: State, entries: Seq<(u8, Seq<u8>)>) -> Progress
    decreases entries.len(),
{
    if entries.len() == 0 {
        started(s)
    } else {
        entry_advanced(replayed(s, entries.drop_last()), entries.last())
    }
}

/// Some operations in turn; stops at the first that fails.
pub open spec fn ops_applied(s: State, ops: Seq<OpView>) -> Progress
    decreases ops.len(),
{
    if ops.len() == 0 {
        started(s)
    } else {
        advanced(ops_applied(s, ops.drop_last()), ops.last())
    }
}

/// Replaying a journal buffer: the state it leaves and what it reports.
pub open spec fn replay_of(s: State, bytes: Seq<u8>) -> (State, Result<OpenReport, Error>) {
    match journal::scanned(bytes) {
        Err(e) => (s, Err(e)),
        Ok((entries, truncated_tail)) => {
            let p = replayed(s, entries);
            match p.result {
                Err(e) => (p.state, Err(e)),
                Ok(()) => (
                    p.state,
                    Ok(
                        OpenReport {
                            replayed: p.replayed as usize,
                            skipped: p.skipped as usize,
                            truncated_tail,
                        },
                    ),
                ),
            }
        },
    }
}

/// The journal of some operations.
pub open spec fn journal_bytes(ops: Seq<OpView>) -> Seq<u8> {
    journal::journal_of(entries_of(ops))
}

/// The journal entries of some operations.
pub open spec fn entries_of(ops: Seq<OpView>) -> Seq<(u8, Seq<u8>)> {
    ops.map_values(|op: OpView| (journal::op_tag(op), journal::op_payload(op)))
}

/// A journal entry whose link, if it is one, names a fact on record or none.
pub open spec fn entry_sane(s: State, entry: (u8, Seq<u8>)) -> bool {
    journal::decoded(entry.0, entry.1) matches Ok(op) ==> (op matches OpView::Link {
        provenance,
        ..
    } ==> links::source_sane(provenance, s.next_fact))
}

/// The provenance of every link of a journal is on record where it is
/// replayed.
#[verifier::opaque]
pub open spec fn journal_sane(s: State, bytes: Seq<u8>) -> bool {
    journal::scanned(bytes) matches Ok((entries, _)) ==> forall|i: int|
        0 <= i < entries.len() ==> entry_sane(
            replayed(s, entries.take(i)).state,
            #[trigger] entries[i],
        )
}

impl Memory {
    fn replay_remember(
        &mut self,
        input: &RememberInput<'_>,
        vector: &Vec<u32>,
        revises: FactId,
        assigned: FactId,
    ) -> (r: Result<bool, Error>)
        requires
            old(self).wf(),
        ensures
            final(self).sound(),
            r is Ok ==> final(self).wf(),
            input.valid_from is Some ==> state::remember_replayed(
                old(self)@,
                input@,
                vector@,
                revises,
                assigned,
            ) == (final(self)@, r),
    {
        if assigned.0 < self.next_fact {
            return Ok(false);
        }
        if assigned.0 != self.next_fact {
            return Err(Error::Corrupt("journal fact ids are not contiguous"));
        }
        if revises.0 != NONE_U32 {
            if let Err(_) = self.check_revisable(revises) {
                return Err(Error::Corrupt("journal revises an unrevisable fact"));
            }
        }
        if vector.len() > 0 {
            return Err(refuse_vector(self.cfg.dim, vector));
        }
        if input.tags.len() > 32 {
            return Err(Error::Corrupt("journal record carries too many tags"));
        }
        if let Err(e) = self.apply_remember(input, revises) {
            return Err(e);
        }
        if revises.0 != NONE_U32 {
            if let Some(from) = input.valid_from {
                self.close_target(revises, from);
            }
        }
        Ok(true)
    }

    fn replay_maintain(&mut self, mode: u8, word: u32) -> (r: Result<bool, Error>)
        requires
            old(self).wf(),
        ensures
            final(self).wf(),
            maintain_replayed(old(self)@, mode, word) == (final(self)@, r),
    {
        let options: MaintenanceOptions = match MaintenanceOptions::from_journal(mode, word) {
            Ok(o) => o,
            Err(e) => {
                return Err(e);
            },
        };
        match self.replay_maintain_with_options(options) {
            Ok(()) => Ok(true),
            Err(e) => Err(e),
        }
    }

    /// Applies one journaled operation; `false` when the state held it
    /// already.
    fn apply_op(&mut self, op: &Op<'_>) -> (r: Result<bool, Error>)
        requires
            old(self).wf(),
        ensures
            final(self).sound(),
            r is Ok ==> final(self).wf(),
            op_applied(old(self)@, op@) == (final(self)@, r),
    {
        proof {
            reveal(op_applied);
        }
        match op {
            Op::Remember {
                now,
                valid_from,
                entity,
                text,
                tags,
                links,
                vector,
                metadata,
                revises,
                assigned,
            } => {
                let input = RememberInput {
                    now: *now,
                    text: *text,
                    entity: *entity,
                    tags: tags.as_slice(),
                    links: links.as_slice(),
                    metadata: metadata.as_slice(),
                    valid_from: Some(*valid_from),
                };
                self.replay_remember(&input, vector, *revises, *assigned)
            },
            Op::Forget { fact, .. } => match self.apply_forget(*fact) {
                Ok(_) => Ok(true),
                Err(_) => Err(Error::Corrupt("journal forgets an unknown fact")),
            },
            Op::Link { now, src, rel, dst, provenance } => match self.apply_link(
                *now,
                *src,
                *rel,
                *dst,
                *provenance,
            ) {
                Ok(()) => Ok(true),
                Err(e) => Err(e),
            },
            Op::Maintain { mode, max_hnsw_inserts, .. } => self.replay_maintain(
                *mode,
                *max_hnsw_inserts,
            ),
            Op::Unlink { .. } => Err(Error::Invalid("journal operation has no replay rule")),
            Op::RemoveTag { .. } => Err(Error::Invalid("journal operation has no replay rule")),
        }
    }

    /// Applies a journal buffer to the state.
    pub(crate) fn replay(&mut self, bytes: &[u8]) -> (r: Result<OpenReport, Error>)
        requires
            old(self).wf(),
        ensures
            final(self).sound(),
            r is Ok ==> final(self).wf(),
            replay_of(old(self)@, bytes@) == (final(self)@, r),
            r is Ok && journal_sane(old(self)@, bytes@) ==> whole::kept(old(self)@, final(self)@),
    {
        let ghost s = self@;
        let found: JournalScan<'_> = match scan(bytes) {
            Ok(x) => x,
            Err(e) => {
                return Err(e);
            },
        };
        let ghost entries = journal::entry_views(found.entries@);
        let mut report = OpenReport {
            replayed: 0,
            skipped: 0,
            truncated_tail: found.truncated_tail,
        };
        let total: usize = found.entries.len();
        let mut i: usize = 0;
        assert(entries.take(0) =~= Seq::empty());
        proof {
            whole::lemma_kept_same(s);
        }
        while i < total
            invariant
                i <= total,
                total == found.entries@.len(),
                entries == journal::entry_views(found.entries@),
                entries.len() == total,
                s == old(self)@,
                journal::scanned(bytes@) == Ok::<_, Error>((entries, report.truncated_tail)),
                self.wf(),
                report.replayed + report.skipped == i,
                journal_sane(s, bytes@) ==> whole::kept(s, self@),
                replayed(s, entries.take(i as int)) == (Progress {
                    state: self@,
                    replayed: report.replayed as nat,
                    skipped: report.skipped as nat,
                    result: Ok(()),
                }),
            decreases total - i,
        {
            let entry: &JournalEntry<'_> = &found.entries[i];
            proof {
                assert(entries[i as int] == (entry.op, entry.payload@));
                assert(entries.take(i + 1).drop_last() =~= entries.take(i as int));
                assert(entries.take(i + 1).last() == entries[i as int]);
            }
            let op: Op<'_> = match Op::decode(entry.op, entry.payload) {
                Ok(op) => op,
                Err(e) => {
                    proof {
                        lemma_stopped(s, entries, i + 1);
                    }
                    return Err(e);
                },
            };
            let ghost here = self@;
            match self.apply_op(&op) {
                Ok(done) => {
                    proof {
                        if journal_sane(s, bytes@) {
                            reveal(journal_sane);
                            assert(entry_sane(
                                replayed(s, entries.take(i as int)).state,
                                entries[i as int],
                            ));
                            compaction::lemma_replay_kept(here, op@);
                            whole::lemma_kept_twice(s, here, self@);
                        }
                    }
                    if done {
                        report.replayed = report.replayed + 1;
                    } else {
                        report.skipped = report.skipped + 1;
                    }
                },
                Err(e) => {
                    proof {
                        lemma_stopped(s, entries, i + 1);
                    }
                    return Err(e);
                },
            }
            i = i + 1;
        }
        assert(entries.take(i as int) =~= entries);
        Ok(report)
    }
}

/// The refusal of a journaled vector.
fn refuse_vector(dim: usize, vector: &[u32]) -> (r: Error)
    ensures
        r == state::vector_refused(dim, vector@),
{
    let mut bits: Vec<F32Bits> = Vec::new();
    let mut i: usize = 0;
    while i < vector.len()
        invariant
            i <= vector@.len(),
            bits@ == state::vector_bits(vector@).take(i as int),
        decreases vector@.len() - i,
    {
        bits.push(F32Bits(vector[i]));
        assert(bits@ =~= state::vector_bits(vector@).take(i + 1));
        i = i + 1;
    }
    assert(bits@ =~= state::vector_bits(vector@));
    match check_vector(dim, bits.as_slice()) {
        Err(e) => e,
        Ok(()) => Error::Invalid("journaled vectors cannot be replayed"),
    }
}

/// A replay that stopped early stays stopped.
proof fn lemma_stopped(s: State, entries: Seq<(u8, Seq<u8>)>, n: int)
    requires
        0 <= n <= entries.len(),
        replayed(s, entries.take(n)).result is Err,
    ensures
        replayed(s, entries) == replayed(s, entries.take(n)),
    decreases entries.len() - n,
{
    if n < entries.len() {
        assert(entries.take(n + 1).drop_last() =~= entries.take(n));
        lemma_stopped(s, entries, n + 1);
    } else {
        assert(entries.take(n) =~= entries);
    }
}

proof fn lemma_counts(s: State, ops: Seq<OpView>)
    ensures
        ops_applied(s, ops).replayed + ops_applied(s, ops).skipped <= ops.len(),
    decreases ops.len(),
{
    if ops.len() > 0 {
        lemma_counts(s, ops.drop_last());
    }
}

proof fn lemma_replayed_ops(s: State, ops: Seq<OpView>)
    requires
        forall|i: int| 0 <= i < ops.len() ==> journal::op_fits(#[trigger] ops[i]),
    ensures
        replayed(s, entries_of(ops)) == ops_applied(s, ops),
    decreases ops.len(),
{
    if ops.len() > 0 {
        let init = ops.drop_last();
        assert(entries_of(ops).drop_last() =~= entries_of(init));
        assert forall|i: int| 0 <= i < init.len() implies journal::op_fits(#[trigger] init[i]) by {
            assert(init[i] == ops[i]);
        }
        lemma_replayed_ops(s, init);
        journal::op_round_trip(ops.last());
    } else {
        assert(entries_of(ops).len() == 0);
    }
}

/// Reopening from a journal applies exactly the operations that were
/// journaled, in order, and reports how many of them the state lacked.
pub proof fn journal_rebuilds_the_state(s: State, ops: Seq<OpView>)
    requires
        forall|i: int|
            0 <= i < ops.len() ==> journal::op_fits(#[trigger] ops[i]) && state::journalable(
                ops[i],
            ),
        ops.len() <= usize::MAX,
    ensures
        replay_of(s, journal_bytes(ops)).0 == ops_applied(s, ops).state,
        match ops_applied(s, ops).result {
            Err(e) => replay_of(s, journal_bytes(ops)).1 == Err::<OpenReport, _>(e),
            Ok(()) => replay_of(s, journal_bytes(ops)).1 matches Ok(r) && r.replayed
                == ops_applied(s, ops).replayed && r.skipped == ops_applied(s, ops).skipped
                && !r.truncated_tail,
        },
{
    let entries = entries_of(ops);
    assert forall|i: int| 0 <= i < entries.len() implies (#[trigger] entries[i]).1.len()
        < u32::MAX by {
        assert(state::journalable(ops[i]));
    }
    journal::journal_round_trip(entries);
    lemma_replayed_ops(s, ops);
    lemma_counts(s, ops);
}

/// Recording a fact and replaying its journal record leave the same state.
pub proof fn remember_replays(s: State, input: InputView)
    requires
        input.tags.len() <= 32,
        state::remembered(s, input, FactId(NONE_U32)).1 is Ok,
    ensures
        op_applied(s, state::remember_op(input, FactId(NONE_U32), FactId(s.next_fact))) == (
            state::remembered(s, input, FactId(NONE_U32)).0,
            Ok::<bool, Error>(true),
        ),
{
    reveal(op_applied);
    let other = state::input_of(
        input.now,
        state::start_of(input),
        input.entity,
        input.text,
        input.tags,
        input.links,
        input.metadata,
    );
    lemma_same_start(s, input, other, FactId(NONE_U32));
}

/// Revising a fact and replaying its journal record leave the same state.
pub proof fn revise_replays(s: State, target: FactId, input: InputView)
    requires
        input.tags.len() <= 32,
        target.0 != NONE_U32,
        state::revise_error(s, target) is None,
        state::remembered(s, input, target).1 is Ok,
    ensures
        op_applied(s, state::remember_op(input, target, FactId(s.next_fact))) == (
            state::target_closed(
                state::remembered(s, input, target).0,
                target,
                state::start_of(input),
            ),
            Ok::<bool, Error>(true),
        ),
{
    reveal(op_applied);
    let other = state::input_of(
        input.now,
        state::start_of(input),
        input.entity,
        input.text,
        input.tags,
        input.links,
        input.metadata,
    );
    lemma_same_start(s, input, other, target);
}

proof fn lemma_same_start(s: State, a: InputView, b: InputView, revises: FactId)
    requires
        b == (InputView { valid_from: b.valid_from, ..a }),
        state::start_of(a) == state::start_of(b),
    ensures
        state::remembered(s, a, revises) == state::remembered(s, b, revises),
{
    reveal(state::remembered);
    assert forall|id: FactId, entity: Option<crate::id::EntityId>, text: crate::id::BlobId| #[trigger]
        state::new_record(id, entity, text, revises, a) == state::new_record(
            id,
            entity,
            text,
            revises,
            b,
        ) by {}
    assert forall|t: State, entity: Option<crate::id::EntityId>, text: crate::id::BlobId| #[trigger]
        state::fact_finished(t, entity, text, a, revises) == state::fact_finished(
            t,
            entity,
            text,
            b,
            revises,
        ) by {}
}

/// A maintenance pass and a replay of its marker leave the same state.
pub proof fn maintain_replays(s: State, now: u64, o: MaintenanceOptions)
    requires
        o.max_hnsw_inserts matches Some(n) ==> n < maintain::NO_HNSW_INSERT_LIMIT,
        maintain::pass(s, maintain::plan_of(s, o)) is Ok,
    ensures
        op_applied(s, maintain::maintain_op(now, o)) == (
            maintain::pass(s, maintain::plan_of(s, o))->Ok_0,
            Ok::<bool, Error>(true),
        ),
{
    reveal(op_applied);
    maintain::options_round_trip(o);
}

/// A replay of the marker of a pass that the host linked leaves the same state,
/// but for the links: these the host makes again.
pub proof fn a_linked_pass_replays_without_links(
    s: State,
    t: State,
    now: u64,
    o: MaintenanceOptions,
    ceiling: int,
    g: HnswState,
    report: MaintainReport,
)
    requires
        o.max_hnsw_inserts matches Some(n) ==> n < maintain::NO_HNSW_INSERT_LIMIT,
        maintain::pass(s, maintain::plan_of(s, o)) is Ok,
        maintain::committed(s, t, o, ceiling, g, Ok(report)),
    ensures
        op_applied(s, maintain::maintain_op(now, o)).1 == Ok::<bool, Error>(true),
        t == (State { graph: g, ..op_applied(s, maintain::maintain_op(now, o)).0 }),
{
    maintain_replays(s, now, o);
}

/// Nothing that numbers or holds facts changed.
pub open spec fn facts_same(s: State, t: State) -> bool {
    t.facts == s.facts && t.next_fact == s.next_fact
}

proof fn lemma_words_frame(s: State, words: Seq<Seq<char>>)
    ensures
        facts_same(s, state::words_counted(s, words).0),
    decreases words.len(),
{
    if words.len() > 0 {
        lemma_words_frame(s, words.drop_last());
    }
}

proof fn lemma_tags_frame(s: State, tags: Seq<Seq<char>>, fact: FactId)
    ensures
        facts_same(s, state::tags_added(s, tags, fact).0),
    decreases tags.len(),
{
    if tags.len() > 0 {
        lemma_tags_frame(s, tags.drop_last(), fact);
    }
}

proof fn lemma_links_frame(
    s: State,
    src: crate::id::EntityId,
    links: Seq<(Seq<char>, Seq<char>)>,
    fact: FactId,
    now: u64,
)
    ensures
        facts_same(s, state::links_added(s, src, links, fact, now).0),
    decreases links.len(),
{
    if links.len() > 0 {
        lemma_links_frame(s, src, links.drop_last(), fact, now);
    }
}

/// What a new fact does to the records: one more, under the next id.
proof fn lemma_remembered_facts(s: State, input: InputView, revises: FactId)
    requires
        table::ascending(s.facts),
        forall|i: int| 0 <= i < s.facts.len() ==> (#[trigger] s.facts[i]).id.0 < s.next_fact,
        state::remembered(s, input, revises).1 is Ok,
    ensures
        ({
            let t = state::remembered(s, input, revises).0;
            &&& t.next_fact == s.next_fact + 1
            &&& table::ascending(t.facts)
            &&& forall|i: int| 0 <= i < t.facts.len() ==> (#[trigger] t.facts[i]).id.0 < t.next_fact
            &&& forall|id: FactId|
                id.0 < s.next_fact ==> #[trigger] state::fact_of(t, id) == state::fact_of(s, id)
        }),
{
    reveal(state::remembered);
    let (t1, r1) = state::subject_resolved(s, input);
    assert(facts_same(s, t1));
    let (t2, r2) = state::text_stored(t1, vstd::utf8::encode_utf8(input.text));
    lemma_words_frame(t2, state::tokens(input.text));
    let (t3, pairs, r3) = state::words_counted(t2, state::tokens(input.text));
    let id = FactId(s.next_fact);
    let (t4, r4) = state::doc_added(t3, id, pairs);
    assert(facts_same(s, t4));
    lemma_tags_frame(t4, input.tags, id);
    let (u1, list, _) = state::tags_added(t4, input.tags, id);
    let (u2, h) = state::tags_stored(u1, list);
    assert(facts_same(s, u2));
    let (u3, meta) = state::meta_stored(u2, input.metadata);
    assert(facts_same(s, u3));
    let (u4, _) = state::aux_added(
        u3,
        model::FactAux { id, tags: h->Ok_0, meta: meta->Ok_0 },
    );
    assert(facts_same(s, u4));
    if let Some(src) = r1->Ok_0 {
        lemma_links_frame(u4, src, input.links, id, input.now);
    }
    let (u5, _) = state::subject_linked(u4, r1->Ok_0, input.links, id, input.now);
    assert(facts_same(s, u5));
    let f = state::new_record(id, r1->Ok_0, r2->Ok_0, revises, input);
    let t = state::remembered(s, input, revises).0;
    assert(f.key() == s.next_fact);
    assert forall|i: int| 0 <= i < s.facts.len() implies (#[trigger] s.facts[i]).key()
        < f.key() by {
        assert(s.facts[i].id.0 < s.next_fact);
    }
    table::lemma_append(s.facts, f);
    table::lemma_with_row(s.facts, f);
    assert(t.facts == s.facts.push(f));
    assert forall|i: int| 0 <= i < t.facts.len() implies (#[trigger] t.facts[i]).id.0
        < t.next_fact by {
        if i < s.facts.len() {
            assert(t.facts[i] == s.facts[i]);
        }
    }
}

/// The record numbers are in order and below the next id.
pub open spec fn numbered(s: State) -> bool {
    &&& table::ascending(s.facts)
    &&& forall|i: int| 0 <= i < s.facts.len() ==> (#[trigger] s.facts[i]).id.0 < s.next_fact
}

/// The state already holds what an operation did.
pub open spec fn contained(s: State, op: OpView) -> bool {
    match op {
        OpView::Remember { assigned, .. } => assigned.0 < s.next_fact,
        OpView::Forget { fact, .. } => state::fact_of(s, fact) matches Some(f) && f.tombstone(),
        _ => false,
    }
}

/// A record over the fact it belongs to; tombstones stay.
proof fn lemma_replaced_record(s: State, f: model::FactRecord, g: model::FactRecord)
    requires
        numbered(s),
        state::fact_of(s, f.id) == Some(f),
        g.id == f.id,
        f.tombstone() ==> g.tombstone(),
    ensures
        numbered((State { facts: table::replaced(s.facts, g), ..s })),
        forall|op: OpView|
            contained(s, op) ==> #[trigger] contained(
                (State { facts: table::replaced(s.facts, g), ..s }),
                op,
            ),
        state::fact_of((State { facts: table::replaced(s.facts, g), ..s }), f.id) == Some(g),
{
    table::lemma_rank(s.facts, f.id.0 as int);
    table::lemma_replaced(s.facts, g);
    let t = State { facts: table::replaced(s.facts, g), ..s };
    assert forall|i: int| 0 <= i < t.facts.len() implies (#[trigger] t.facts[i]).id.0
        < t.next_fact by {
        assert(s.facts[i].id.0 < s.next_fact);
    }
    assert forall|op: OpView| contained(s, op) implies #[trigger] contained(t, op) by {
        if let OpView::Forget { fact, .. } = op {
            if fact != f.id {
                assert(fact.0 != f.id.0);
                assert(table::row_of(t.facts, fact.0 as int) == table::row_of(
                    s.facts,
                    fact.0 as int,
                ));
            }
        }
    }
}

/// An operation on facts that was applied is contained, and whatever was
/// contained stays so.
proof fn lemma_contained(s: State, op: OpView)
    requires
        numbered(s),
        op is Remember || op is Forget,
        op_applied(s, op).1 is Ok,
    ensures
        numbered(op_applied(s, op).0),
        contained(op_applied(s, op).0, op),
        forall|other: OpView|
            contained(s, other) ==> #[trigger] contained(op_applied(s, op).0, other),
{
    reveal(op_applied);
    let t = op_applied(s, op).0;
    match op {
        OpView::Remember {
            now,
            valid_from,
            entity,
            text,
            tags,
            links,
            vector,
            metadata,
            revises,
            assigned,
        } => {
            let input = state::input_of(now, valid_from, entity, text, tags, links, metadata);
            if assigned.0 >= s.next_fact {
                lemma_remembered_facts(s, input, revises);
                let u = state::remembered(s, input, revises).0;
                assert forall|other: OpView| contained(s, other) implies #[trigger] contained(
                    u,
                    other,
                ) by {
                    if let OpView::Forget { fact, .. } = other {
                        table::lemma_rank(s.facts, fact.0 as int);
                        assert(fact.0 < s.next_fact);
                        assert(state::fact_of(u, fact) == state::fact_of(s, fact));
                    }
                }
                if revises.0 != NONE_U32 {
                    if let Some(f) = state::fact_of(u, revises) {
                        table::lemma_rank(u.facts, revises.0 as int);
                        let x: u16 = f.flags;
                        assert(x & model::fact_flags::TOMBSTONE != 0 ==> (x
                            | model::fact_flags::CLOSED) & model::fact_flags::TOMBSTONE != 0)
                            by (bit_vector);
                        lemma_replaced_record(u, f, state::fact_closed_at(f, valid_from));
                    }
                }
            }
        },
        OpView::Forget { fact, .. } => {
            let f = state::fact_of(s, fact)->0;
            table::lemma_rank(s.facts, fact.0 as int);
            if !f.tombstone() {
                let x: u16 = f.flags;
                assert((x | model::fact_flags::TOMBSTONE) & model::fact_flags::TOMBSTONE != 0)
                    by (bit_vector);
                lemma_replaced_record(s, f, state::fact_forgotten(f));
                let u = State { facts: table::replaced(s.facts, state::fact_forgotten(f)), ..s };
                assert forall|other: OpView| contained(s, other) implies #[trigger] contained(
                    t,
                    other,
                ) by {
                    assert(contained(u, other));
                }
            }
        },
        _ => {},
    }
}

proof fn lemma_all_contained(s: State, ops: Seq<OpView>, n: int)
    requires
        numbered(s),
        0 <= n <= ops.len(),
        forall|i: int| 0 <= i < ops.len() ==> (#[trigger] ops[i]) is Remember || ops[i] is Forget,
        ops_applied(s, ops.take(n)).result is Ok,
    ensures
        numbered(ops_applied(s, ops.take(n)).state),
        forall|i: int|
            0 <= i < n ==> contained(ops_applied(s, ops.take(n)).state, #[trigger] ops[i]),
    decreases n,
{
    if n > 0 {
        assert(ops.take(n).drop_last() =~= ops.take(n - 1));
        lemma_all_contained(s, ops, n - 1);
        let u = ops_applied(s, ops.take(n - 1)).state;
        assert(ops.take(n).last() == ops[n - 1]);
        lemma_contained(u, ops[n - 1]);
        let t = ops_applied(s, ops.take(n)).state;
        assert forall|i: int| 0 <= i < n implies contained(t, #[trigger] ops[i]) by {
            if i < n - 1 {
                assert(contained(u, ops[i]));
            }
        }
    }
}

/// How many of some operations record a fact.
pub open spec fn remember_count(ops: Seq<OpView>) -> nat
    decreases ops.len(),
{
    if ops.len() == 0 {
        0
    } else {
        remember_count(ops.drop_last()) + if ops.last() is Remember { 1nat } else { 0nat }
    }
}

proof fn lemma_nothing_new(t: State, ops: Seq<OpView>)
    requires
        forall|i: int| 0 <= i < ops.len() ==> contained(t, #[trigger] ops[i]),
    ensures
        ops_applied(t, ops).state == t,
        ops_applied(t, ops).result is Ok,
        ops_applied(t, ops).skipped == remember_count(ops),
        ops_applied(t, ops).replayed == ops.len() - remember_count(ops),
    decreases ops.len(),
{
    if ops.len() > 0 {
        let init = ops.drop_last();
        assert forall|i: int| 0 <= i < init.len() implies contained(t, #[trigger] init[i]) by {
            assert(init[i] == ops[i]);
        }
        lemma_nothing_new(t, init);
        reveal(op_applied);
        assert(contained(t, ops[ops.len() - 1]));
    }
}

/// Replay is idempotent over a reapplied journal of new, revised and forgotten
/// facts: applying it to the state it built changes nothing, and each record of
/// a fact counts as skipped.
pub proof fn replay_is_idempotent(s: State, ops: Seq<OpView>)
    requires
        numbered(s),
        forall|i: int| 0 <= i < ops.len() ==> (#[trigger] ops[i]) is Remember || ops[i] is Forget,
        ops_applied(s, ops).result is Ok,
    ensures
        ops_applied(ops_applied(s, ops).state, ops).state == ops_applied(s, ops).state,
        ops_applied(ops_applied(s, ops).state, ops).result is Ok,
        ops_applied(ops_applied(s, ops).state, ops).skipped == remember_count(ops),
{
    assert(ops.take(ops.len() as int) =~= ops);
    lemma_all_contained(s, ops, ops.len() as int);
    lemma_nothing_new(ops_applied(s, ops).state, ops);
}

} // verus!
