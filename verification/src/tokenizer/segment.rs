//! Word segments and CJK adjacency.

use crate::text::{push_char, string_of};
use crate::tokenizer::emit;
use crate::tokenizer::fold;
use crate::tokenizer::fold::fold_segment;
use crate::tokenizer::policy::TokenizerPolicy;
use crate::tokenizer::unicode;
use crate::tokenizer::unicode::is_cjk_unigram;
use vstd::prelude::*;
use vstd::string::*;

verus! {

/// Tracks adjacent Han and Hiragana characters and emits overlapping bigrams.
pub struct CjkRun {
    previous: Option<char>,
    single: bool,
}

/// What closing a run adds: the character itself where it stood alone.
pub open spec fn lone(run: Seq<char>) -> Seq<Seq<char>> {
    if run.len() == 1 {
        seq![run]
    } else {
        Seq::empty()
    }
}

impl CjkRun {
    /// The run holds exactly what `run` says of its last character and of its
    /// being alone.
    pub closed spec fn holds(&self, run: Seq<char>) -> bool {
        &&& self.previous is Some <==> run.len() > 0
        &&& self.previous matches Some(c) ==> c == run.last()
        &&& self.single <==> run.len() == 1
    }

    /// An empty run.
    pub fn new() -> (r: CjkRun)
        ensures
            r.holds(Seq::empty()),
    {
        CjkRun { previous: None, single: false }
    }

    /// Appends one character and emits the bigram that it closes.
    pub fn push(&mut self, current: char, out: &mut Vec<String>)
        ensures
            forall|run: Seq<char>| #[trigger]
                old(self).holds(run) ==> final(self).holds(run.push(current))
                    && emit::string_views(final(out)@) == emit::string_views(old(out)@)
                    + pair_closed(run, current),
    {
        let ghost before = emit::string_views(out@);
        assert(before + Seq::<Seq<char>>::empty() =~= before);
        if let Some(previous) = self.previous {
            let mut token: String = String::new();
            push_char(&mut token, previous);
            push_char(&mut token, current);
            assert(token@ =~= seq![previous, current]);
            out.push(token);
            assert(emit::string_views(out@) =~= before + seq![seq![previous, current]]);
        }
        self.single = self.previous.is_none();
        self.previous = Some(current);
    }

    /// Closes the run, emitting its character where it stood alone.
    pub fn flush(&mut self, out: &mut Vec<String>)
        ensures
            final(self).holds(Seq::empty()),
            forall|run: Seq<char>| #[trigger]
                old(self).holds(run) ==> emit::string_views(final(out)@) == emit::string_views(
                    old(out)@,
                ) + lone(run),
    {
        let ghost before = emit::string_views(out@);
        assert(before + Seq::<Seq<char>>::empty() =~= before);
        if let Some(previous) = self.previous {
            if self.single {
                let mut token: String = String::new();
                push_char(&mut token, previous);
                assert(token@ =~= seq![previous]);
                out.push(token);
                assert(emit::string_views(out@) =~= before + seq![seq![previous]]);
                assert forall|run: Seq<char>| #[trigger] old(self).holds(run) implies lone(run)
                    == seq![seq![previous]] by {
                    assert(run =~= seq![previous]);
                }
            }
        }
        self.previous = None;
        self.single = false;
    }
}

/// The bigram that one more character closes.
pub open spec fn pair_closed(run: Seq<char>, c: char) -> Seq<Seq<char>> {
    if run.len() == 0 {
        Seq::empty()
    } else {
        seq![seq![run.last(), c]]
    }
}

/// The tokens emitted so far and the open CJK run.
pub struct Progress {
    pub out: Seq<Seq<char>>,
    pub run: Seq<char>,
}

/// The number of characters in front of `t` whose CJK membership is `is_cjk`.
pub open spec fn run_length(t: Seq<char>, is_cjk: bool) -> int
    decreases t.len(),
{
    if t.len() == 0 || unicode::cjk(t[0]) != is_cjk {
        0
    } else {
        1 + run_length(t.skip(1), is_cjk)
    }
}

/// Pushes every character of a CJK stretch.
pub open spec fn cjk_pushed(p: Progress, t: Seq<char>) -> Progress
    decreases t.len(),
{
    if t.len() == 0 {
        p
    } else {
        let q = cjk_pushed(p, t.drop_last());
        Progress { out: q.out + pair_closed(q.run, t.last()), run: q.run.push(t.last()) }
    }
}

/// Folds a stretch without CJK characters, which closes the open run.
pub open spec fn plain_pushed(p: Progress, t: Seq<char>, policy: TokenizerPolicy) -> Progress {
    Progress {
        out: p.out + lone(p.run) + fold::segment_tokens(unicode::lowered(t), policy),
        run: Seq::empty(),
    }
}

/// One word segment, split into maximal CJK and other stretches.
pub open spec fn segment_pushed(p: Progress, t: Seq<char>, policy: TokenizerPolicy) -> Progress
    decreases t.len(),
{
    if t.len() == 0 {
        p
    } else {
        let is_cjk = unicode::cjk(t[0]);
        let n = run_length(t, is_cjk);
        let stretch = t.take(n);
        let q = if is_cjk {
            cjk_pushed(p, stretch)
        } else {
            plain_pushed(p, stretch, policy)
        };
        if 0 < n <= t.len() {
            segment_pushed(q, t.skip(n), policy)
        } else {
            q
        }
    }
}

fn stretch_end(t: &[char], is_cjk: bool) -> (r: usize)
    ensures
        r == run_length(t@, is_cjk),
        r <= t@.len(),
{
    let mut i: usize = 0;
    assert(t@.skip(0) =~= t@);
    while i < t.len() && is_cjk_unigram(t[i]) == is_cjk
        invariant
            i <= t@.len(),
            run_length(t@, is_cjk) == i + run_length(t@.skip(i as int), is_cjk),
        decreases t@.len() - i,
    {
        assert(t@.skip(i as int).skip(1) =~= t@.skip(i + 1));
        i = i + 1;
    }
    i
}

/// Splits word segments at script boundaries and applies each stretch's
/// policy.
///
/// A word segment may hold adjacent scripts, and the CJK bigram policy is
/// narrower than a word. CJK runs stay open across segments; other stretches
/// take the folding path.
pub struct SegmentProcessor {
    policy: TokenizerPolicy,
    cjk_run: CjkRun,
    out: Vec<String>,
    state: Ghost<Progress>,
}

impl SegmentProcessor {
    pub closed spec fn wf(&self) -> bool {
        &&& self.cjk_run.holds(self.state@.run)
        &&& emit::string_views(self.out@) == self.state@.out
    }

    pub closed spec fn progress(&self) -> Progress {
        self.state@
    }

    pub closed spec fn folding(&self) -> TokenizerPolicy {
        self.policy
    }

    /// A processor without any token.
    pub fn new(policy: TokenizerPolicy) -> (r: SegmentProcessor)
        ensures
            r.wf(),
            r.progress() == (Progress { out: Seq::empty(), run: Seq::empty() }),
            r.folding() == policy,
    {
        let out: Vec<String> = Vec::new();
        assert(emit::string_views(out@) =~= Seq::empty());
        SegmentProcessor {
            policy,
            cjk_run: CjkRun::new(),
            out,
            state: Ghost(Progress { out: Seq::empty(), run: Seq::empty() }),
        }
    }

    fn process_cjk(&mut self, stretch: &[char])
        requires
            old(self).wf(),
        ensures
            final(self).wf(),
            final(self).progress() == cjk_pushed(old(self).progress(), stretch@),
            final(self).folding() == old(self).folding(),
    {
        let ghost p = self.state@;
        let ghost policy = self.policy;
        let mut i: usize = 0;
        assert(stretch@.take(0) =~= Seq::empty());
        while i < stretch.len()
            invariant
                i <= stretch@.len(),
                self.wf(),
                self.state@ == cjk_pushed(p, stretch@.take(i as int)),
                self.policy == policy,
            decreases stretch@.len() - i,
        {
            let ghost q = self.state@;
            let c: char = stretch[i];
            assert(q == cjk_pushed(p, stretch@.take(i as int)));
            assert(self.cjk_run.holds(q.run));
            self.cjk_run.push(c, &mut self.out);
            assert(stretch@.take(i + 1).drop_last() =~= stretch@.take(i as int));
            self.state = Ghost(
                Progress { out: q.out + pair_closed(q.run, c), run: q.run.push(c) },
            );
            i = i + 1;
        }
        assert(stretch@.take(i as int) =~= stretch@);
    }

    fn process_plain(&mut self, stretch: &[char])
        requires
            old(self).wf(),
        ensures
            final(self).wf(),
            final(self).progress() == plain_pushed(
                old(self).progress(),
                stretch@,
                old(self).folding(),
            ),
            final(self).folding() == old(self).folding(),
    {
        let ghost p = self.state@;
        assert(self.cjk_run.holds(p.run));
        self.cjk_run.flush(&mut self.out);
        let text: String = string_of(stretch);
        let lower: String = unicode::lowercase(text.as_str());
        fold_segment(lower.as_str(), self.policy, &mut self.out);
        self.state = Ghost(plain_pushed(p, stretch@, self.policy));
    }

    /// Processes one word segment.
    pub fn process(&mut self, segment: &[char])
        requires
            old(self).wf(),
        ensures
            final(self).wf(),
            final(self).progress() == segment_pushed(
                old(self).progress(),
                segment@,
                old(self).folding(),
            ),
            final(self).folding() == old(self).folding(),
    {
        let ghost p = self.state@;
        let ghost policy = self.policy;
        let mut at: usize = 0;
        assert(segment@.skip(0) =~= segment@);
        while at < segment.len()
            invariant
                at <= segment@.len(),
                self.wf(),
                self.policy == policy,
                segment_pushed(p, segment@, policy) == segment_pushed(
                    self.state@,
                    segment@.skip(at as int),
                    policy,
                ),
            decreases segment@.len() - at,
        {
            let rest: &[char] = &segment[at..segment.len()];
            assert(rest@ =~= segment@.skip(at as int));
            let is_cjk: bool = is_cjk_unigram(rest[0]);
            let n: usize = stretch_end(rest, is_cjk);
            let stretch: &[char] = &rest[0..n];
            assert(stretch@ =~= rest@.take(n as int));
            if is_cjk {
                self.process_cjk(stretch);
            } else {
                self.process_plain(stretch);
            }
            proof {
                lemma_run_positive(rest@, is_cjk);
                assert(rest@.skip(n as int) =~= segment@.skip(at + n));
            }
            at = at + n;
        }
    }

    /// Closes the open CJK run, at a boundary that is no word or at the end.
    pub fn flush(&mut self)
        requires
            old(self).wf(),
        ensures
            final(self).wf(),
            final(self).progress() == closed_run(old(self).progress()),
            final(self).folding() == old(self).folding(),
    {
        let ghost p = self.state@;
        assert(self.cjk_run.holds(p.run));
        self.cjk_run.flush(&mut self.out);
        self.state = Ghost(closed_run(p));
    }

    /// The tokens emitted so far.
    pub fn into_tokens(self) -> (r: Vec<String>)
        requires
            self.wf(),
        ensures
            emit::string_views(r@) == self.progress().out,
    {
        self.out
    }
}

pub open spec fn closed_run(p: Progress) -> Progress {
    Progress { out: p.out + lone(p.run), run: Seq::empty() }
}

proof fn lemma_run_positive(t: Seq<char>, is_cjk: bool)
    requires
        t.len() > 0,
        unicode::cjk(t[0]) == is_cjk,
    ensures
        run_length(t, is_cjk) > 0,
{
    lemma_run_nonneg(t.skip(1), is_cjk);
}

proof fn lemma_run_nonneg(t: Seq<char>, is_cjk: bool)
    ensures
        0 <= run_length(t, is_cjk) <= t.len(),
    decreases t.len(),
{
    if t.len() > 0 {
        lemma_run_nonneg(t.skip(1), is_cjk);
    }
}

} // verus!
