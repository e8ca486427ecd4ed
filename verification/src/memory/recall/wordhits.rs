//! What the lexical source returns: one contribution for each word that is
//! looked up and each eligible document that holds it.

use crate::id::FactId;
use crate::index;
use crate::index::bm25;
use crate::index::bm25::{Bm25State, Contribution};
use crate::index::postings;
use crate::index::postings::Entry;
use crate::interner;
use crate::memory::recall::lexical;
use crate::memory::recall::sources;
use crate::memory::state;
use crate::memory::state::State;
use crate::model::DocLenSlot;
use crate::table;
use vstd::prelude::*;

verus! {

/// The documents under a term.
pub open spec fn documents(b: Bm25State, term: u32) -> Seq<Entry> {
    postings::entries_of(b.postings, term)
}

/// A contribution is that of a term to a document: how often the document
/// holds the term, how long the document is, and how many hold the term.
pub open spec fn contributes(b: Bm25State, term: u32, c: Contribution) -> bool {
    &&& c.df == documents(b, term).len() as u32
    &&& exists|k: int|
        0 <= k < documents(b, term).len() && (#[trigger] documents(b, term)[k]) == (c.fact.0, c.tf)
    &&& table::row_of(b.docs, c.fact.0 as int) matches Some(d) && d.len == c.len
}

/// The contributions to one document.
pub open spec fn of_fact(cs: Seq<Contribution>, f: FactId) -> nat
    decreases cs.len(),
{
    if cs.len() == 0 {
        0
    } else {
        of_fact(cs.drop_last(), f) + (if cs.last().fact == f {
            1nat
        } else {
            0
        })
    }
}

/// How many of some terms a document holds; a repeated term counts again.
pub open spec fn terms_met(b: Bm25State, terms: Seq<u32>, f: FactId) -> nat
    decreases terms.len(),
{
    if terms.len() == 0 {
        0
    } else {
        terms_met(b, terms.drop_last(), f) + (if index::has_id(documents(b, terms.last()), f.0) {
            1nat
        } else {
            0
        })
    }
}

proof fn lemma_joined(a: Seq<Contribution>, b: Seq<Contribution>, f: FactId)
    ensures
        of_fact(a + b, f) == of_fact(a, f) + of_fact(b, f),
    decreases b.len(),
{
    if b.len() == 0 {
        assert(a + b =~= a);
    } else {
        lemma_joined(a, b.drop_last(), f);
        assert((a + b).drop_last() =~= a + b.drop_last());
    }
}

proof fn lemma_list(docs: Seq<DocLenSlot>, xs: Seq<Entry>, df: u32, f: FactId)
    requires
        forall|i: int, j: int|
            0 <= i < j < xs.len() ==> (#[trigger] xs[i]).0 < (#[trigger] xs[j]).0,
    ensures
        table::row_of(docs, f.0 as int) is Some ==> of_fact(
            bm25::list_matches(docs, xs, df),
            f,
        ) == (if index::has_id(xs, f.0) {
            1nat
        } else {
            0
        }),
        forall|k: int|
            0 <= k < xs.len() && table::row_of(docs, (#[trigger] xs[k]).0 as int) is Some
                ==> bm25::list_matches(docs, xs, df).contains(
                Contribution {
                    fact: FactId(xs[k].0),
                    tf: xs[k].1,
                    len: table::row_of(docs, xs[k].0 as int)->0.len,
                    df,
                },
            ),
        forall|i: int|
            0 <= i < bm25::list_matches(docs, xs, df).len() ==> from_list(
                docs,
                xs,
                df,
                #[trigger] bm25::list_matches(docs, xs, df)[i],
            ),
    decreases xs.len(),
{
    let all = bm25::list_matches(docs, xs, df);
    if xs.len() > 0 {
        let init = xs.drop_last();
        let e = xs.last();
        assert forall|i: int, j: int| 0 <= i < j < init.len() implies (#[trigger] init[i]).0 < (
        #[trigger] init[j]).0 by {
            assert(init[i] == xs[i] && init[j] == xs[j]);
        }
        lemma_list(docs, init, df, f);
        let front = bm25::list_matches(docs, init, df);
        if table::row_of(docs, e.0 as int) is Some {
            assert(all.drop_last() =~= front);
        }
        assert(xs[xs.len() - 1] == e);
        assert(index::has_id(xs, f.0) <==> index::has_id(init, f.0) || e.0 == f.0) by {
            if index::has_id(init, f.0) {
                let i = choose|i: int| 0 <= i < init.len() && (#[trigger] init[i]).0 == f.0;
                assert(xs[i] == init[i]);
            }
            if index::has_id(xs, f.0) && e.0 != f.0 {
                let i = choose|i: int| 0 <= i < xs.len() && (#[trigger] xs[i]).0 == f.0;
                assert(init[i] == xs[i]);
            }
        }
        assert(!(index::has_id(init, f.0) && e.0 == f.0)) by {
            if index::has_id(init, f.0) && e.0 == f.0 {
                let i = choose|i: int| 0 <= i < init.len() && (#[trigger] init[i]).0 == f.0;
                assert(xs[i].0 < xs[xs.len() - 1].0);
            }
        }
        assert forall|k: int|
            0 <= k < xs.len() && table::row_of(docs, (#[trigger] xs[k]).0 as int) is Some implies all.contains(
        Contribution {
            fact: FactId(xs[k].0),
            tf: xs[k].1,
            len: table::row_of(docs, xs[k].0 as int)->0.len,
            df,
        }) by {
            let c = Contribution {
                fact: FactId(xs[k].0),
                tf: xs[k].1,
                len: table::row_of(docs, xs[k].0 as int)->0.len,
                df,
            };
            if k < init.len() {
                assert(init[k] == xs[k]);
                assert(front.contains(c));
                let i = front.index_of(c);
                assert(all[i] == c);
            } else {
                assert(all[all.len() - 1] == c);
            }
        }
        assert forall|i: int| 0 <= i < all.len() implies from_list(
            docs,
            xs,
            df,
            #[trigger] all[i],
        ) by {
            if i < front.len() {
                assert(all[i] == front[i]);
                let k = choose|k: int|
                    0 <= k < init.len() && (#[trigger] init[k]) == (all[i].fact.0, all[i].tf);
                assert(xs[k] == init[k]);
            } else {
                assert(xs[xs.len() - 1] == (all[i].fact.0, all[i].tf));
            }
        }
    }
}

spec fn from_list(docs: Seq<DocLenSlot>, xs: Seq<Entry>, df: u32, c: Contribution) -> bool {
    &&& c.df == df
    &&& exists|k: int| 0 <= k < xs.len() && (#[trigger] xs[k]) == (c.fact.0, c.tf)
    &&& table::row_of(docs, c.fact.0 as int) matches Some(d) && d.len == c.len
}

proof fn lemma_list_of(b: Bm25State, term: u32)
    requires
        postings::lists_ok(true, b.postings),
    ensures
        forall|i: int, j: int|
            0 <= i < j < documents(b, term).len() ==> (#[trigger] documents(b, term)[i]).0 < (
            #[trigger] documents(b, term)[j]).0,
{
    let v = b.postings;
    if postings::lists_have(v, term) {
        postings::lemma_list_rank(true, v, term);
        assert(postings::list_ok(true, v[postings::list_rank(v, term)].1));
    }
}

proof fn lemma_query(b: Bm25State, terms: Seq<u32>, f: FactId)
    requires
        postings::lists_ok(true, b.postings),
    ensures
        table::row_of(b.docs, f.0 as int) is Some ==> of_fact(bm25::query_matches(b, terms), f)
            == terms_met(b, terms, f),
        forall|i: int|
            0 <= i < bm25::query_matches(b, terms).len() ==> from_terms(
                b,
                terms,
                #[trigger] bm25::query_matches(b, terms)[i],
            ),
        forall|j: int, c: Contribution|
            0 <= j < terms.len() && #[trigger] contributes(b, #[trigger] terms[j], c)
                ==> bm25::query_matches(b, terms).contains(c),
    decreases terms.len(),
{
    let all = bm25::query_matches(b, terms);
    if terms.len() > 0 {
        let init = terms.drop_last();
        let t = terms.last();
        lemma_query(b, init, f);
        lemma_list_of(b, t);
        let xs = documents(b, t);
        lemma_list(b.docs, xs, xs.len() as u32, f);
        let front = bm25::query_matches(b, init);
        let more = bm25::list_matches(b.docs, xs, xs.len() as u32);
        lemma_joined(front, more, f);
        assert(terms[terms.len() - 1] == t);
        assert forall|i: int| 0 <= i < all.len() implies from_terms(b, terms, #[trigger] all[i]) by {
            if i < front.len() {
                assert(all[i] == front[i]);
                let j = choose|j: int|
                    0 <= j < init.len() && contributes(b, #[trigger] init[j], front[i]);
                assert(terms[j] == init[j]);
            } else {
                let c = more[i - front.len()];
                assert(all[i] == c);
                let k = choose|k: int| 0 <= k < xs.len() && (#[trigger] xs[k]) == (c.fact.0, c.tf);
                assert(documents(b, t)[k] == (c.fact.0, c.tf));
                assert(contributes(b, terms[terms.len() - 1], c));
            }
        }
        assert forall|j: int, c: Contribution|
            0 <= j < terms.len() && #[trigger] contributes(b, #[trigger] terms[j], c) implies all.contains(
        c) by {
            if j < init.len() {
                assert(init[j] == terms[j]);
                assert(front.contains(c));
                let i = front.index_of(c);
                assert(all[i] == c);
            } else {
                let k = choose|k: int|
                    0 <= k < documents(b, t).len() && (#[trigger] documents(b, t)[k]) == (
                        c.fact.0,
                        c.tf,
                    );
                assert(xs[k].0 == c.fact.0);
                assert(more.contains(c));
                let i = more.index_of(c);
                assert(all[front.len() + i] == c);
            }
        }
    }
}

/// A contribution is that of one of some terms.
pub open spec fn from_terms(b: Bm25State, terms: Seq<u32>, c: Contribution) -> bool {
    exists|j: int| 0 <= j < terms.len() && contributes(b, #[trigger] terms[j], c)
}

proof fn lemma_admitted(
    s: State,
    filter: Option<Seq<FactId>>,
    as_of: u64,
    include_closed: bool,
    xs: Seq<Contribution>,
    f: FactId,
)
    ensures
        ({
            let r = lexical::admitted_matches(s, filter, as_of, include_closed, xs);
            &&& of_fact(r, f) == (if sources::eligible(s, filter, as_of, include_closed, f) {
                of_fact(xs, f)
            } else {
                0
            })
            &&& forall|i: int|
                0 <= i < r.len() ==> xs.contains(#[trigger] r[i]) && sources::eligible(
                    s,
                    filter,
                    as_of,
                    include_closed,
                    r[i].fact,
                )
            &&& forall|k: int|
                0 <= k < xs.len() && sources::eligible(
                    s,
                    filter,
                    as_of,
                    include_closed,
                    (#[trigger] xs[k]).fact,
                ) ==> r.contains(xs[k])
        }),
    decreases xs.len(),
{
    if xs.len() > 0 {
        let init = xs.drop_last();
        let c = xs.last();
        lemma_admitted(s, filter, as_of, include_closed, init, f);
        sources::the_rule_admits_eligible_facts(s, filter, as_of, include_closed, c.fact);
        let front = lexical::admitted_matches(s, filter, as_of, include_closed, init);
        let r = lexical::admitted_matches(s, filter, as_of, include_closed, xs);
        if sources::eligible(s, filter, as_of, include_closed, c.fact) {
            assert(r.drop_last() =~= front);
        }
        assert forall|i: int| 0 <= i < r.len() implies xs.contains(#[trigger] r[i])
            && sources::eligible(s, filter, as_of, include_closed, r[i].fact) by {
            if i < front.len() {
                assert(r[i] == front[i]);
                let j = init.index_of(front[i]);
                assert(xs[j] == r[i]);
            } else {
                assert(xs[xs.len() - 1] == r[i]);
            }
        }
        assert forall|k: int|
            0 <= k < xs.len() && sources::eligible(
                s,
                filter,
                as_of,
                include_closed,
                (#[trigger] xs[k]).fact,
            ) implies r.contains(xs[k]) by {
            if k < init.len() {
                assert(init[k] == xs[k]);
                let i = front.index_of(xs[k]);
                assert(r[i] == xs[k]);
            } else {
                assert(r[r.len() - 1] == c);
            }
        }
    }
}

/// The lexical matches of a text.
pub open spec fn found(
    s: State,
    filter: Option<Seq<FactId>>,
    as_of: u64,
    include_closed: bool,
    text: Seq<char>,
) -> Seq<Contribution> {
    lexical::admitted_matches(
        s,
        filter,
        as_of,
        include_closed,
        bm25::query_matches(s.bm25, lexical::query_terms(s, text)),
    )
}

/// An answer of the lexical source: one contribution for each term that the
/// text looks up and each eligible document that holds the term, with the
/// document's own numbers, and nothing else.
pub open spec fn lexical_answer(
    s: State,
    filter: Option<Seq<FactId>>,
    as_of: u64,
    include_closed: bool,
    terms: Seq<u32>,
    r: Seq<Contribution>,
) -> bool {
    &&& forall|f: FactId|
        table::row_of(s.bm25.docs, f.0 as int) is Some && sources::eligible(
            s,
            filter,
            as_of,
            include_closed,
            f,
        ) ==> #[trigger] of_fact(r, f) == terms_met(s.bm25, terms, f)
    &&& forall|i: int|
        0 <= i < r.len() ==> from_terms(s.bm25, terms, #[trigger] r[i]) && sources::eligible(
            s,
            filter,
            as_of,
            include_closed,
            r[i].fact,
        )
    &&& forall|j: int, c: Contribution|
        0 <= j < terms.len() && #[trigger] contributes(s.bm25, #[trigger] terms[j], c)
            && sources::eligible(s, filter, as_of, include_closed, c.fact) ==> r.contains(c)
}

/// The lexical source returns every match.
pub proof fn the_lexical_source_returns_every_match(
    s: State,
    filter: Option<Seq<FactId>>,
    as_of: u64,
    include_closed: bool,
    text: Seq<char>,
)
    requires
        postings::lists_ok(true, s.bm25.postings),
    ensures
        lexical_answer(
            s,
            filter,
            as_of,
            include_closed,
            lexical::query_terms(s, text),
            found(s, filter, as_of, include_closed, text),
        ),
{
    let terms = lexical::query_terms(s, text);
    let all = bm25::query_matches(s.bm25, terms);
    let r = found(s, filter, as_of, include_closed, text);
    lemma_query(s.bm25, terms, FactId(0));
    lemma_admitted(s, filter, as_of, include_closed, all, FactId(0));
    assert forall|f: FactId|
        table::row_of(s.bm25.docs, f.0 as int) is Some && sources::eligible(
            s,
            filter,
            as_of,
            include_closed,
            f,
        ) implies #[trigger] of_fact(r, f) == terms_met(s.bm25, terms, f) by {
        lemma_query(s.bm25, terms, f);
        lemma_admitted(s, filter, as_of, include_closed, all, f);
    }
    assert forall|i: int| 0 <= i < r.len() implies from_terms(s.bm25, terms, #[trigger] r[i])
        && sources::eligible(s, filter, as_of, include_closed, r[i].fact) by {
        assert(all.contains(r[i]));
        let k = all.index_of(r[i]);
        assert(from_terms(s.bm25, terms, all[k]));
    }
    assert forall|j: int, c: Contribution|
        0 <= j < terms.len() && #[trigger] contributes(s.bm25, #[trigger] terms[j], c)
            && sources::eligible(s, filter, as_of, include_closed, c.fact) implies r.contains(c) by {
        assert(all.contains(c));
        let k = all.index_of(c);
        assert(all[k] == c);
    }
}

/// An eligible fact is found by every word of the query that it is indexed
/// under, unless the word is too common.
pub proof fn a_fact_is_found_by_each_of_its_words(
    s: State,
    filter: Option<Seq<FactId>>,
    as_of: u64,
    include_closed: bool,
    text: Seq<char>,
    word: int,
    term: u32,
    f: FactId,
)
    requires
        interner::distinct(s.terms),
        s.terms.len() <= crate::id::NONE_U32,
        postings::lists_ok(true, s.bm25.postings),
        0 <= word < state::tokens(text).len(),
        term < s.terms.len(),
        s.terms[term as int] == state::tokens(text)[word],
        !sources::too_common(s, term),
        index::has_id(documents(s.bm25, term), f.0),
        table::row_of(s.bm25.docs, f.0 as int) is Some,
        sources::eligible(s, filter, as_of, include_closed, f),
    ensures
        exists|i: int|
            0 <= i < found(s, filter, as_of, include_closed, text).len() && (#[trigger] found(
                s,
                filter,
                as_of,
                include_closed,
                text,
            )[i]).fact == f && contributes(
                s.bm25,
                term,
                found(s, filter, as_of, include_closed, text)[i],
            ),
{
    let words = state::tokens(text);
    let terms = lexical::query_terms(s, text);
    let r = found(s, filter, as_of, include_closed, text);
    sources::every_known_word_is_looked_up(s, text);
    the_lexical_source_returns_every_match(s, filter, as_of, include_closed, text);
    words.to_multiset_ensures();
    terms.to_multiset_ensures();
    assert(words.contains(s.terms[term as int]));
    assert(words.to_multiset().count(s.terms[term as int]) > 0);
    assert(terms.to_multiset().count(term) > 0);
    let j = terms.index_of(term);
    assert(terms[j] == term);
    let xs = documents(s.bm25, term);
    let k = choose|k: int| 0 <= k < xs.len() && (#[trigger] xs[k]).0 == f.0;
    let c = Contribution {
        fact: f,
        tf: xs[k].1,
        len: table::row_of(s.bm25.docs, f.0 as int)->0.len,
        df: xs.len() as u32,
    };
    assert(documents(s.bm25, term)[k] == (c.fact.0, c.tf));
    assert(contributes(s.bm25, terms[j], c));
    assert(r.contains(c));
    let i = r.index_of(c);
    assert(r[i] == c);
}

} // verus!
