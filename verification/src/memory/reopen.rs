//! From a run of calls on a new database to opening it again.
//!
//! Each call leaves what its contract says: a state, and at most one entry
//! behind the journal.

use crate::config;
use crate::config::Config;
use crate::error::Error;
use crate::id::{FactId, NONE_U32};
use crate::journal;
use crate::journal::OpView;
use crate::memory::maintain;
use crate::memory::maintain::MaintenanceOptions;
use crate::memory::open;
use crate::memory::replay;
use crate::memory::state;
use crate::memory::state::{InputView, State};
use crate::memory::{OpenReport, TOKENIZER_INDEX_VERSION};
use crate::parse;
use vstd::prelude::*;

verus! {

/// A call that changes the engine.
pub enum Verb {
    Remember { input: InputView },
    Revise { target: FactId, input: InputView },
    Forget { now: u64, fact: FactId },
    Link { now: u64, src: Seq<char>, rel: Seq<char>, dst: Seq<char>, provenance: FactId },
    Maintain { now: u64, options: MaintenanceOptions },
}

/// The call does its work: the engine accepts it and nothing runs out.
pub open spec fn accepted(s: State, verb: Verb) -> bool {
    match verb {
        Verb::Remember { input } => state::input_error(s, input) is None && state::remembered(
            s,
            input,
            FactId(NONE_U32),
        ).1 is Ok,
        Verb::Revise { target, input } => state::input_error(s, input) is None
            && state::revise_error(s, target) is None && state::remembered(s, input, target).1
            is Ok && target.0 != NONE_U32,
        Verb::Forget { fact, .. } => state::forgotten(s, fact).1 is Ok,
        Verb::Link { now, src, rel, dst, provenance } => state::linked(
            s,
            now,
            src,
            rel,
            dst,
            provenance,
        ).1 is Ok,
        Verb::Maintain { options, .. } => {
            &&& options.max_hnsw_inserts matches Some(n) ==> n < maintain::NO_HNSW_INSERT_LIMIT
            &&& maintain::plan_of(s, options).needed() ==> maintain::pass(
                s,
                maintain::plan_of(s, options),
            ) is Ok
        },
    }
}

/// The state an accepted call leaves.
pub open spec fn left(s: State, verb: Verb) -> State {
    match verb {
        Verb::Remember { input } => state::remembered(s, input, FactId(NONE_U32)).0,
        Verb::Revise { target, input } => state::target_closed(
            state::remembered(s, input, target).0,
            target,
            state::start_of(input),
        ),
        Verb::Forget { fact, .. } => state::forgotten(s, fact).0,
        Verb::Link { now, src, rel, dst, provenance } => state::linked(
            s,
            now,
            src,
            rel,
            dst,
            provenance,
        ).0,
        Verb::Maintain { options, .. } => if maintain::plan_of(s, options).needed() {
            maintain::pass(s, maintain::plan_of(s, options))->Ok_0
        } else {
            s
        },
    }
}

/// The operations an accepted call appends to the journal: one, or none where
/// maintenance finds nothing to do.
pub open spec fn noted(s: State, verb: Verb) -> Seq<OpView> {
    match verb {
        Verb::Remember { input } => seq![
            state::remember_op(input, FactId(NONE_U32), FactId(s.next_fact)),
        ],
        Verb::Revise { target, input } => seq![
            state::remember_op(input, target, FactId(s.next_fact)),
        ],
        Verb::Forget { now, fact } => seq![OpView::Forget { now, fact }],
        Verb::Link { now, src, rel, dst, provenance } => seq![
            OpView::Link { now, src, rel, dst, provenance },
        ],
        Verb::Maintain { now, options } => if maintain::plan_of(s, options).needed() {
            seq![maintain::maintain_op(now, options)]
        } else {
            Seq::empty()
        },
    }
}

/// The state after a run of calls.
pub open spec fn ran(s: State, verbs: Seq<Verb>) -> State
    decreases verbs.len(),
{
    if verbs.len() == 0 {
        s
    } else {
        left(ran(s, verbs.drop_last()), verbs.last())
    }
}

/// Every call of a run is accepted where it is made, and the journal can frame
/// what it appends.
pub open spec fn all_accepted(s: State, verbs: Seq<Verb>) -> bool
    decreases verbs.len(),
{
    verbs.len() > 0 ==> {
        let t = ran(s, verbs.drop_last());
        &&& all_accepted(s, verbs.drop_last())
        &&& accepted(t, verbs.last())
        &&& forall|i: int|
            0 <= i < noted(t, verbs.last()).len() ==> state::journalable(
                #[trigger] noted(t, verbs.last())[i],
            )
    }
}

/// The operations a run journals.
pub open spec fn run_ops(s: State, verbs: Seq<Verb>) -> Seq<OpView>
    decreases verbs.len(),
{
    if verbs.len() == 0 {
        Seq::empty()
    } else {
        run_ops(s, verbs.drop_last()) + noted(ran(s, verbs.drop_last()), verbs.last())
    }
}

/// The journal a run leaves on an empty store: the entries of its operations,
/// one behind the other.
pub open spec fn run_journal(s: State, verbs: Seq<Verb>) -> Seq<u8>
    decreases verbs.len(),
{
    if verbs.len() == 0 {
        Seq::empty()
    } else {
        let t = ran(s, verbs.drop_last());
        run_journal(s, verbs.drop_last()) + parse::flat(
            |op: OpView| state::entry_of(op),
            noted(t, verbs.last()),
        )
    }
}

proof fn lemma_one_entry(op: OpView)
    ensures
        parse::flat(|op: OpView| state::entry_of(op), seq![op]) == state::entry_of(op),
        replay::journal_bytes(seq![op]) == state::entry_of(op),
{
    let f = |op: OpView| state::entry_of(op);
    let g = |e: (u8, Seq<u8>)| journal::frame(e.0, e.1);
    let e = (journal::op_tag(op), journal::op_payload(op));
    assert(seq![op] =~= Seq::<OpView>::empty().push(op));
    parse::lemma_flat_push(f, Seq::empty(), op);
    assert(replay::entries_of(seq![op]) =~= Seq::<(u8, Seq<u8>)>::empty().push(e));
    parse::lemma_flat_push(g, Seq::empty(), e);
    assert(Seq::<u8>::empty() + state::entry_of(op) =~= state::entry_of(op));
}

/// A call and its journal record leave the same state.
proof fn lemma_verb_replays(s: State, verb: Verb)
    requires
        accepted(s, verb),
        noted(s, verb).len() > 0,
    ensures
        noted(s, verb).len() == 1,
        replay::op_applied(s, noted(s, verb)[0]) == (left(s, verb), Ok::<bool, Error>(true)),
{
    match verb {
        Verb::Remember { input } => {
            replay::remember_replays(s, input);
        },
        Verb::Revise { target, input } => {
            replay::revise_replays(s, target, input);
        },
        Verb::Forget { .. } => {
            reveal(replay::op_applied);
        },
        Verb::Link { .. } => {
            reveal(replay::op_applied);
        },
        Verb::Maintain { now, options } => {
            replay::maintain_replays(s, now, options);
        },
    }
}

proof fn lemma_verb_fits(s: State, verb: Verb, op: OpView)
    requires
        accepted(s, verb),
        noted(s, verb) == seq![op],
        state::journalable(op),
    ensures
        journal::op_fits(op),
{
    assert(noted(s, verb)[0] == op);
    journal::a_short_op_fits(op);
}

proof fn lemma_run(s: State, verbs: Seq<Verb>)
    requires
        all_accepted(s, verbs),
    ensures
        run_ops(s, verbs).len() <= verbs.len(),
        run_journal(s, verbs) == replay::journal_bytes(run_ops(s, verbs)),
        replay::ops_applied(s, run_ops(s, verbs)) == (replay::Progress {
            state: ran(s, verbs),
            replayed: run_ops(s, verbs).len(),
            skipped: 0,
            result: Ok(()),
        }),
        forall|i: int|
            0 <= i < run_ops(s, verbs).len() ==> journal::op_fits(#[trigger] run_ops(s, verbs)[i])
                && state::journalable(run_ops(s, verbs)[i]),
    decreases verbs.len(),
{
    let f = |op: OpView| state::entry_of(op);
    let g = |e: (u8, Seq<u8>)| journal::frame(e.0, e.1);
    if verbs.len() > 0 {
        let init = verbs.drop_last();
        let verb = verbs.last();
        lemma_run(s, init);
        let t = ran(s, init);
        let before = run_ops(s, init);
        let ops = run_ops(s, verbs);
        if noted(t, verb).len() > 0 {
            lemma_verb_replays(t, verb);
            let op = noted(t, verb)[0];
            assert(noted(t, verb) =~= seq![op]);
            assert(state::journalable(noted(t, verb)[0]));
            lemma_verb_fits(t, verb, op);
            lemma_one_entry(op);
            assert(ops =~= before.push(op));
            assert(ops.drop_last() =~= before);
            assert(replay::entries_of(ops) =~= replay::entries_of(before) + replay::entries_of(
                seq![op],
            ));
            parse::lemma_flat_concat(g, replay::entries_of(before), replay::entries_of(seq![op]));
            assert forall|i: int| 0 <= i < ops.len() implies journal::op_fits(#[trigger] ops[i])
                && state::journalable(ops[i]) by {
                if i < before.len() {
                    assert(ops[i] == before[i]);
                }
            }
        } else {
            assert(noted(t, verb) =~= Seq::<OpView>::empty());
            assert(ops =~= before);
            assert(run_journal(s, verbs) =~= run_journal(s, init));
            assert(left(t, verb) == t);
        }
    } else {
        assert(replay::entries_of(run_ops(s, verbs)) =~= Seq::<(u8, Seq<u8>)>::empty());
    }
}

/// Opening what a run of calls on a new database left gives back the state of
/// the run: each journaled call is replayed, none is skipped, and no tail is
/// dropped.
pub proof fn a_run_is_reopened(cfg: Config, verbs: Seq<Verb>)
    requires
        config::config_ok(cfg),
        cfg.dim == 0,
        all_accepted(state::empty_state(cfg, TOKENIZER_INDEX_VERSION), verbs),
        verbs.len() <= usize::MAX,
    ensures
        ({
            let s = state::empty_state(cfg, TOKENIZER_INDEX_VERSION);
            open::opened(None, run_journal(s, verbs), cfg) == Ok::<_, Error>(
                (
                    ran(s, verbs),
                    (OpenReport {
                        replayed: run_ops(s, verbs).len() as usize,
                        skipped: 0,
                        truncated_tail: false,
                    }),
                ),
            )
        }),
        run_ops(state::empty_state(cfg, TOKENIZER_INDEX_VERSION), verbs).len() <= verbs.len(),
{
    let s = state::empty_state(cfg, TOKENIZER_INDEX_VERSION);
    lemma_run(s, verbs);
    replay::journal_rebuilds_the_state(s, run_ops(s, verbs));
}

/// A run without maintenance journals every call.
pub proof fn every_call_is_journaled(s: State, verbs: Seq<Verb>)
    requires
        forall|i: int| 0 <= i < verbs.len() ==> !((#[trigger] verbs[i]) is Maintain),
    ensures
        run_ops(s, verbs).len() == verbs.len(),
    decreases verbs.len(),
{
    if verbs.len() > 0 {
        let init = verbs.drop_last();
        assert forall|i: int| 0 <= i < init.len() implies !((#[trigger] init[i]) is Maintain) by {
            assert(init[i] == verbs[i]);
        }
        every_call_is_journaled(s, init);
        assert(verbs[verbs.len() - 1] == verbs.last());
    }
}

} // verus!
