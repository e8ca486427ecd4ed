//! The lexical source: which terms of a query are looked up, and the numbers
//! that score a document.

use crate::id::FactId;
use crate::index::bm25;
use crate::index::bm25::Contribution;
use crate::index::postings;
use crate::interner;
use crate::memory::recall::admission;
use crate::memory::recall::admission::Allow;
use crate::memory::recall::wordhits;
use crate::memory::recall::sources;
use crate::memory::state;
use crate::memory::state::State;
use crate::memory::Memory;
use crate::tokenizer::emit;
use vstd::prelude::*;
use vstd::string::*;

verus! {

/// A query term in more than one of this many documents is stop-frequent: its
/// weight makes it nearly rank-neutral while its list dominates the cost.
pub const STOP_DF_DIVISOR: u64 = 8;

/// Below this document frequency a term is never stop-frequent.
pub const STOP_DF_FLOOR: u64 = 1024;

/// The known terms among some words, in order; a repeated word counts again.
pub open spec fn known_terms(s: State, words: Seq<Seq<char>>) -> Seq<u32>
    decreases words.len(),
{
    if words.len() == 0 {
        Seq::empty()
    } else {
        let front = known_terms(s, words.drop_last());
        match interner::lookup_of(s.terms, words.last()) {
            Some(t) => front.push(t.0),
            None => front,
        }
    }
}

/// The number of documents that hold a term.
pub open spec fn df_of(s: State, term: u32) -> nat {
    postings::entries_of(s.bm25.postings, term).len()
}

/// A term in too many documents.
pub open spec fn stop_term(s: State, term: u32) -> bool {
    df_of(s, term) > STOP_DF_FLOOR && df_of(s, term) * STOP_DF_DIVISOR > s.bm25.total_docs
}

/// The terms that are not stop-frequent.
pub open spec fn without_stops(s: State, terms: Seq<u32>) -> Seq<u32>
    decreases terms.len(),
{
    if terms.len() == 0 {
        Seq::empty()
    } else {
        let front = without_stops(s, terms.drop_last());
        if stop_term(s, terms.last()) {
            front
        } else {
            front.push(terms.last())
        }
    }
}

/// The least frequent term; the first of several.
pub open spec fn least_frequent(s: State, terms: Seq<u32>) -> u32
    decreases terms.len(),
{
    if terms.len() <= 1 {
        terms[0]
    } else {
        let front = least_frequent(s, terms.drop_last());
        if df_of(s, terms.last()) < df_of(s, front) {
            terms.last()
        } else {
            front
        }
    }
}

/// The terms that a query looks up: its known terms without stop-frequent
/// ones; when every one of them is, the least frequent, so that such a query
/// still answers.
pub open spec fn query_terms(s: State, text: Seq<char>) -> Seq<u32> {
    let all = known_terms(s, state::tokens(text));
    let kept = without_stops(s, all);
    if kept.len() > 0 {
        kept
    } else if all.len() > 0 {
        seq![least_frequent(s, all)]
    } else {
        Seq::empty()
    }
}

/// The matches whose document is admitted.
pub open spec fn admitted_matches(
    s: State,
    filter: Option<Seq<FactId>>,
    as_of: u64,
    include_closed: bool,
    xs: Seq<Contribution>,
) -> Seq<Contribution>
    decreases xs.len(),
{
    if xs.len() == 0 {
        Seq::empty()
    } else {
        let front = admitted_matches(s, filter, as_of, include_closed, xs.drop_last());
        if admission::admitted(s, filter, as_of, include_closed, xs.last().fact) is Some {
            front.push(xs.last())
        } else {
            front
        }
    }
}

/// A query with a known term looks something up.
pub proof fn a_known_term_is_looked_up(s: State, text: Seq<char>)
    requires
        known_terms(s, state::tokens(text)).len() > 0,
    ensures
        query_terms(s, text).len() > 0,
{
}

/// The lexical source returns admitted facts only.
pub proof fn matches_are_admitted(
    s: State,
    filter: Option<Seq<FactId>>,
    as_of: u64,
    include_closed: bool,
    xs: Seq<Contribution>,
)
    ensures
        forall|i: int|
            0 <= i < admitted_matches(s, filter, as_of, include_closed, xs).len()
                ==> admission::admitted(
                s,
                filter,
                as_of,
                include_closed,
                (#[trigger] admitted_matches(s, filter, as_of, include_closed, xs)[i]).fact,
            ) is Some,
    decreases xs.len(),
{
    if xs.len() > 0 {
        matches_are_admitted(s, filter, as_of, include_closed, xs.drop_last());
        let front = admitted_matches(s, filter, as_of, include_closed, xs.drop_last());
        let all = admitted_matches(s, filter, as_of, include_closed, xs);
        assert forall|i: int| 0 <= i < all.len() implies admission::admitted(
            s,
            filter,
            as_of,
            include_closed,
            (#[trigger] all[i]).fact,
        ) is Some by {
            if i < front.len() {
                assert(all[i] == front[i]);
            }
        }
    }
}

impl Memory {
    fn known_terms(&self, text: &str) -> (r: Vec<u32>)
        requires
            self.sound(),
        ensures
            r@ == known_terms(self@, state::tokens(text@)),
    {
        let words: Vec<String> = self.tokenizer.tokenize(text);
        let ghost views = emit::string_views(words@);
        let mut out: Vec<u32> = Vec::new();
        let mut i: usize = 0;
        assert(views.take(0) =~= Seq::empty());
        while i < words.len()
            invariant
                i <= words@.len(),
                self.sound(),
                views == emit::string_views(words@),
                out@ == known_terms(self@, views.take(i as int)),
            decreases words@.len() - i,
        {
            assert(views.take(i + 1).drop_last() =~= views.take(i as int));
            assert(views.take(i + 1).last() == words@[i as int]@);
            if let Some(t) = self.terms.lookup(words[i].as_str()) {
                out.push(t.0);
            }
            i = i + 1;
        }
        assert(views.take(i as int) =~= views);
        out
    }

    /// Whether a term is in too many documents.
    fn is_stop(&self, term: u32) -> (r: bool)
        requires
            self.sound(),
        ensures
            r == stop_term(self@, term),
    {
        let df: u64 = self.bm25.df(term) as u64;
        df > STOP_DF_FLOOR && df * STOP_DF_DIVISOR > self.bm25.docs()
    }

    /// The terms that a query looks up.
    pub fn query_terms(&self, text: &str) -> (r: Vec<u32>)
        requires
            self.wf(),
        ensures
            r@ == query_terms(self@, text@),
            sources::looks_up(self@, text@, r@),
    {
        proof {
            self.terms.lemma_wf();
            sources::every_known_word_is_looked_up(self@, text@);
        }
        let all: Vec<u32> = self.known_terms(text);
        let ghost s = self@;
        let mut kept: Vec<u32> = Vec::new();
        let mut i: usize = 0;
        assert(all@.take(0) =~= Seq::empty());
        while i < all.len()
            invariant
                i <= all@.len(),
                self.sound(),
                s == self@,
                kept@ == without_stops(s, all@.take(i as int)),
            decreases all@.len() - i,
        {
            assert(all@.take(i + 1).drop_last() =~= all@.take(i as int));
            if !self.is_stop(all[i]) {
                kept.push(all[i]);
            }
            i = i + 1;
        }
        assert(all@.take(i as int) =~= all@);
        if kept.len() > 0 || all.len() == 0 {
            assert(all@.len() == 0 ==> kept@ =~= Seq::empty());
            return kept;
        }
        let mut least: u32 = all[0];
        let mut j: usize = 1;
        assert(all@.take(1)[0] == all@[0]);
        while j < all.len()
            invariant
                1 <= j <= all@.len(),
                self.sound(),
                s == self@,
                least == least_frequent(s, all@.take(j as int)),
            decreases all@.len() - j,
        {
            assert(all@.take(j + 1).drop_last() =~= all@.take(j as int));
            if self.bm25.df(all[j]) < self.bm25.df(least) {
                least = all[j];
            }
            j = j + 1;
        }
        assert(all@.take(j as int) =~= all@);
        let mut out: Vec<u32> = Vec::new();
        out.push(least);
        assert(out@ =~= seq![least]);
        out
    }

    /// The numbers that score the admitted documents of a query, term by term.
    pub fn lexical_matches(
        &self,
        text: &str,
        filter: &Option<Allow>,
        as_of: u64,
        include_closed: bool,
    ) -> (r: Vec<Contribution>)
        requires
            self.wf(),
            filter matches Some(a) ==> a.wf(),
        ensures
            r@ == admitted_matches(
                self@,
                admission::allow_view(*filter),
                as_of,
                include_closed,
                bm25::query_matches(self@.bm25, query_terms(self@, text@)),
            ),
            exists|terms: Seq<u32>|
                sources::looks_up(self@, text@, terms) && #[trigger] wordhits::lexical_answer(
                    self@,
                    admission::allow_view(*filter),
                    as_of,
                    include_closed,
                    terms,
                    r@,
                ),
    {
        let ghost s = self@;
        let ghost ids = admission::allow_view(*filter);
        let terms: Vec<u32> = self.query_terms(text);
        proof {
            self.bm25.lemma_wf();
            wordhits::the_lexical_source_returns_every_match(
                s,
                ids,
                as_of,
                include_closed,
                text@,
            );
        }
        let all: Vec<Contribution> = self.bm25.matches(&terms);
        let mut out: Vec<Contribution> = Vec::new();
        let mut i: usize = 0;
        assert(all@.take(0) =~= Seq::empty());
        while i < all.len()
            invariant
                i <= all@.len(),
                self.wf(),
                filter matches Some(a) ==> a.wf(),
                s == self@,
                ids == admission::allow_view(*filter),
                out@ == admitted_matches(s, ids, as_of, include_closed, all@.take(i as int)),
            decreases all@.len() - i,
        {
            assert(all@.take(i + 1).drop_last() =~= all@.take(i as int));
            if self.admission(filter, as_of, include_closed, all[i].fact).is_some() {
                out.push(all[i]);
            }
            i = i + 1;
        }
        assert(all@.take(i as int) =~= all@);
        assert(wordhits::lexical_answer(s, ids, as_of, include_closed, terms@, out@));
        out
    }
}

} // verus!
