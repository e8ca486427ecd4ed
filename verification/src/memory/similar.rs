//! What remembering surfaces as similar: the recent facts of the subject that
//! can still be revised, each with how many of its words it shares.

use crate::id::{EntityId, FactId};
use crate::index::postings;
use crate::index::postings::Entry;
use crate::interner;
use crate::memory::state;
use crate::memory::state::{OverlapView, State};
use crate::model::fact_flags;
use vstd::prelude::*;
use vstd::utf8::*;

verus! {

/// The known terms that a text holds.
pub open spec fn terms_in(s: State, text: Seq<char>) -> Set<u32> {
    Set::new(
        |t: u32|
            t < s.terms.len() && exists|i: int|
                0 <= i < state::tokens(text).len() && #[trigger] state::tokens(text)[i]
                    == s.terms[t as int],
    )
}

/// A fact that can be revised: on record, neither forgotten nor closed.
pub open spec fn open_fact(s: State, id: FactId) -> bool {
    state::fact_of(s, id) matches Some(f) && f.flags & fact_flags::TOMBSTONE == 0 && f.flags
        & fact_flags::CLOSED == 0
}

/// The text of a fact on record.
pub open spec fn text_of(s: State, id: FactId) -> Seq<char> {
    decode_utf8(s.texts[state::fact_of(s, id)->0.text.0 as int])
}

/// The text of a fact can be read.
pub open spec fn readable(s: State, id: FactId) -> bool {
    valid_utf8(s.texts[state::fact_of(s, id)->0.text.0 as int])
}

/// A fact stands among the facts of its subject with at most `n` others than
/// `fact` behind it.
pub open spec fn among_last(xs: Seq<Entry>, fact: FactId, n: int, id: FactId) -> bool {
    exists|i: int|
        0 <= i < xs.len() && (#[trigger] xs[i]).0 == id.0 && id != fact && others_behind(
            xs,
            fact,
            i,
        ) < n
}

/// How many entries behind place `i` are of other facts than `fact`.
pub open spec fn others_behind(xs: Seq<Entry>, fact: FactId, i: int) -> nat {
    xs.skip(i + 1).filter(|e: Entry| e.0 != fact.0).len()
}

/// An overlap counts the terms that two texts share and those of either.
pub open spec fn counts(s: State, o: OverlapView, fact: FactId) -> bool {
    let a = terms_in(s, text_of(s, fact));
    let b = terms_in(s, text_of(s, o.id));
    o.both == a.intersect(b).len() && o.union == a.union(b).len()
}

proof fn lemma_terms(s: State, words: Seq<Seq<char>>)
    requires
        interner::distinct(s.terms),
        s.terms.len() <= crate::id::NONE_U32,
    ensures
        state::term_set(s, words).no_duplicates(),
        forall|t: u32| #[trigger]
            state::term_set(s, words).contains(t) <==> t < s.terms.len() && exists|i: int|
                0 <= i < words.len() && #[trigger] words[i] == s.terms[t as int],
    decreases words.len(),
{
    let all = state::term_set(s, words);
    if words.len() > 0 {
        let init = words.drop_last();
        lemma_terms(s, init);
        let front = state::term_set(s, init);
        let w = words.last();
        if s.terms.contains(w) {
            let k = s.terms.index_of(w);
            assert(s.terms[k] == w);
            interner::lemma_lookup(s.terms, k);
        }
        assert forall|t: u32| #[trigger] all.contains(t) <==> t < s.terms.len() && exists|i: int|
            0 <= i < words.len() && #[trigger] words[i] == s.terms[t as int] by {
            if all.contains(t) {
                if front.contains(t) {
                    let i = choose|i: int|
                        0 <= i < init.len() && #[trigger] init[i] == s.terms[t as int];
                    assert(words[i] == s.terms[t as int]);
                } else {
                    let j = all.index_of(t);
                    assert(j == front.len()) by {
                        if j < front.len() {
                            assert(front[j] == t);
                        }
                    }
                    assert(words[words.len() - 1] == s.terms[t as int]);
                }
            }
            if t < s.terms.len() && exists|i: int|
                0 <= i < words.len() && #[trigger] words[i] == s.terms[t as int] {
                let i = choose|i: int|
                    0 <= i < words.len() && #[trigger] words[i] == s.terms[t as int];
                if i < init.len() {
                    assert(init[i] == s.terms[t as int]);
                    assert(front.contains(t));
                    let j = front.index_of(t);
                    assert(all[j] == t);
                } else {
                    assert(s.terms.contains(w));
                    interner::lemma_lookup(s.terms, t as int);
                    if front.contains(t) {
                        let j = front.index_of(t);
                        assert(all[j] == t);
                    } else {
                        assert(all[all.len() - 1] == t);
                    }
                }
            }
        }
    }
}

proof fn lemma_shared(xs: Seq<u32>, ys: Seq<u32>, n: nat)
    requires
        xs.no_duplicates(),
        n <= xs.len(),
    ensures
        state::shared(xs, ys, n) == xs.take(n as int).to_set().intersect(ys.to_set()).len(),
        xs.take(n as int).to_set().intersect(ys.to_set()).finite(),
    decreases n,
{
    let a = xs.take(n as int).to_set().intersect(ys.to_set());
    if n == 0 {
        assert(a =~= Set::empty());
    } else {
        let m = (n - 1) as nat;
        lemma_shared(xs, ys, m);
        let b = xs.take(m as int).to_set().intersect(ys.to_set());
        let x = xs[n - 1];
        assert(xs.take(n as int) =~= xs.take(m as int).push(x));
        assert(xs.take(n as int)[n - 1] == x);
        assert(!xs.take(m as int).contains(x)) by {
            if xs.take(m as int).contains(x) {
                let j = xs.take(m as int).index_of(x);
                assert(xs[j] == x);
            }
        }
        assert forall|t: u32| xs.take(n as int).contains(t) <==> xs.take(m as int).contains(t)
            || t == x by {
            if xs.take(m as int).contains(t) {
                let j = xs.take(m as int).index_of(t);
                assert(xs.take(n as int)[j] == t);
            }
            if xs.take(n as int).contains(t) && t != x {
                let j = xs.take(n as int).index_of(t);
                assert(xs.take(m as int)[j] == t);
            }
        }
        if ys.contains(x) {
            assert(a =~= b.insert(x));
        } else {
            assert(a =~= b);
        }
    }
}

proof fn lemma_counts(s: State, own: Seq<u32>, fact: FactId, id: FactId)
    requires
        interner::distinct(s.terms),
        s.terms.len() <= crate::id::NONE_U32,
        own == state::term_set(s, state::tokens(text_of(s, fact))),
        state::overlap_with(s, own, id) is Some,
    ensures
        counts(s, state::overlap_with(s, own, id)->0, fact),
{
    let terms = state::term_set(s, state::tokens(text_of(s, id)));
    lemma_terms(s, state::tokens(text_of(s, fact)));
    lemma_terms(s, state::tokens(text_of(s, id)));
    lemma_shared(terms, own, terms.len());
    assert(terms.take(terms.len() as int) =~= terms);
    let a = terms_in(s, text_of(s, fact));
    let b = terms_in(s, text_of(s, id));
    assert(own.to_set() =~= a);
    assert(terms.to_set() =~= b);
    assert(terms.to_set().intersect(own.to_set()) =~= a.intersect(b));
    own.unique_seq_to_set();
    terms.unique_seq_to_set();
    vstd::set_lib::lemma_set_intersect_union_lens(a, b);
}

proof fn lemma_recent(xs: Seq<Entry>, fact: FactId, n: nat)
    ensures
        forall|id: FactId| #[trigger]
            state::recent(xs, fact, n).contains(id) <==> among_last(xs, fact, n as int, id),
    decreases xs.len(),
{
    let all = state::recent(xs, fact, n);
    let p = |e: Entry| e.0 != fact.0;
    if xs.len() == 0 {
    } else if n == 0 {
    } else {
        let init = xs.drop_last();
        let last = xs.last();
        let m = if last.0 == fact.0 {
            n
        } else {
            (n - 1) as nat
        };
        lemma_recent(init, fact, m);
        let front = state::recent(init, fact, m);
        assert forall|i: int| 0 <= i < init.len() implies others_behind(xs, fact, i)
            == #[trigger] others_behind(init, fact, i) + (if p(last) {
            1nat
        } else {
            0
        }) by {
            assert(xs.skip(i + 1) =~= init.skip(i + 1).push(last));
            reveal(Seq::filter);
            assert(xs.skip(i + 1).drop_last() =~= init.skip(i + 1));
        }
        assert(others_behind(xs, fact, xs.len() - 1) == 0) by {
            assert(xs.skip(xs.len() as int) =~= Seq::empty());
            reveal(Seq::filter);
        }
        assert forall|id: FactId| #[trigger] all.contains(id) <==> among_last(
            xs,
            fact,
            n as int,
            id,
        ) by {
            if all.contains(id) {
                let j = all.index_of(id);
                if j < front.len() {
                    assert(front[j] == id);
                    assert(front.contains(id));
                    let i = choose|i: int|
                        0 <= i < init.len() && (#[trigger] init[i]).0 == id.0 && id != fact
                            && others_behind(init, fact, i) < m;
                    assert(xs[i] == init[i]);
                    assert(others_behind(xs, fact, i) < n);
                } else {
                    assert(xs[xs.len() - 1].0 == id.0);
                }
            }
            if among_last(xs, fact, n as int, id) {
                let i = choose|i: int|
                    0 <= i < xs.len() && (#[trigger] xs[i]).0 == id.0 && id != fact
                        && others_behind(xs, fact, i) < n;
                if i < init.len() {
                    assert(init[i] == xs[i]);
                    assert(others_behind(init, fact, i) < m);
                    assert(among_last(init, fact, m as int, id));
                    assert(front.contains(id));
                    let j = front.index_of(id);
                    assert(all[j] == id);
                } else {
                    assert(all[all.len() - 1] == id);
                }
            }
        }
    }
}

proof fn lemma_overlaps(s: State, own: Seq<u32>, facts: Seq<FactId>)
    ensures
        forall|i: int|
            0 <= i < state::overlaps_with(s, own, facts).len() ==> ({
                let o = #[trigger] state::overlaps_with(s, own, facts)[i];
                facts.contains(o.id) && state::overlap_with(s, own, o.id) == Some(o)
            }),
        forall|id: FactId|
            #![trigger facts.contains(id)]
            facts.contains(id) && state::overlap_with(s, own, id) is Some
                ==> state::overlaps_with(s, own, facts).contains(
                state::overlap_with(s, own, id)->0,
            ),
    decreases facts.len(),
{
    let all = state::overlaps_with(s, own, facts);
    if facts.len() > 0 {
        let init = facts.drop_last();
        lemma_overlaps(s, own, init);
        let front = state::overlaps_with(s, own, init);
        assert forall|i: int| 0 <= i < all.len() implies ({
            let o = #[trigger] all[i];
            facts.contains(o.id) && state::overlap_with(s, own, o.id) == Some(o)
        }) by {
            let o = all[i];
            if i < front.len() {
                assert(front[i] == o);
                let j = init.index_of(o.id);
                assert(facts[j] == o.id);
            } else {
                assert(facts[facts.len() - 1] == o.id);
            }
        }
        assert forall|id: FactId|
            #![trigger facts.contains(id)]
            facts.contains(id) && state::overlap_with(s, own, id) is Some implies all.contains(
            state::overlap_with(s, own, id)->0,
        ) by {
            let o = state::overlap_with(s, own, id)->0;
            let j = facts.index_of(id);
            if j < init.len() {
                assert(init[j] == id);
                assert(init.contains(id));
                let k = front.index_of(o);
                assert(all[k] == o);
            } else {
                assert(all[all.len() - 1] == o);
            }
        }
    }
}

/// What is surfaced as similar to a fact: exactly the other facts among the 32
/// most recent of the subject that are open, readable and hold a known term,
/// each with the number of terms it shares with the new one and of those that
/// either holds. Nothing is surfaced without a subject, or where the new fact
/// holds no term.
pub open spec fn surfaces(
    s: State,
    fact: FactId,
    entity: Option<EntityId>,
    r: Seq<OverlapView>,
) -> bool {
    &&& forall|i: int|
        0 <= i < r.len() ==> {
            let o = #[trigger] r[i];
            &&& entity is Some
            &&& o.id != fact
            &&& surfaced(s, fact, entity->0, o.id)
            &&& state::revise_error(s, o.id) is None
            &&& counts(s, o, fact)
        }
    &&& forall|id: FactId|
        entity is Some && #[trigger] surfaced(s, fact, entity->0, id) ==> exists|i: int|
            0 <= i < r.len() && (#[trigger] r[i]).id == id
}

/// Similar facts are open and recent.
pub proof fn similar_facts_are_open_and_recent(s: State, fact: FactId, entity: Option<EntityId>)
    requires
        interner::distinct(s.terms),
        s.terms.len() <= crate::id::NONE_U32,
    ensures
        surfaces(s, fact, entity, state::overlaps(s, fact, entity)),
{
    let all = state::overlaps(s, fact, entity);
    if let (Some(e), Some((f, text))) = (entity, state::read_fact(s, fact)) {
        let own = state::term_set(s, state::tokens(text));
        let xs = postings::entries_of(s.entity_facts, e.0);
        let near = state::recent(xs, fact, 32);
        lemma_recent(xs, fact, 32);
        lemma_overlaps(s, own, near);
        lemma_terms(s, state::tokens(text));
        assert forall|i: int| 0 <= i < all.len() implies {
            let o = #[trigger] all[i];
            &&& o.id != fact
            &&& surfaced(s, fact, e, o.id)
            &&& state::revise_error(s, o.id) is None
            &&& counts(s, o, fact)
        } by {
            let o = all[i];
            assert(own.len() > 0);
            assert(near.contains(o.id));
            assert(state::overlap_with(s, own, o.id) == Some(o));
            lemma_counts(s, own, fact, o.id);
            let terms = state::term_set(s, state::tokens(text_of(s, o.id)));
            lemma_terms(s, state::tokens(text_of(s, o.id)));
            assert(terms.contains(terms[0]));
            assert(terms_in(s, text_of(s, o.id)).contains(terms[0]));
            assert(own.contains(own[0]));
            assert(terms_in(s, text_of(s, fact)).contains(own[0]));
        }
        assert forall|id: FactId| #[trigger] surfaced(s, fact, e, id) implies exists|i: int|
            0 <= i < all.len() && (#[trigger] all[i]).id == id by {
            assert(near.contains(id));
            let terms = state::term_set(s, state::tokens(text_of(s, id)));
            lemma_terms(s, state::tokens(text_of(s, id)));
            let t = choose|t: u32| terms_in(s, text_of(s, id)).contains(t);
            assert(terms_in(s, text_of(s, id)).contains(t));
            assert(terms.contains(t));
            let u = choose|u: u32| terms_in(s, text_of(s, fact)).contains(u);
            assert(terms_in(s, text_of(s, fact)).contains(u));
            assert(own.contains(u));
            let o = state::overlap_with(s, own, id)->0;
            assert(all.contains(o));
            let i = all.index_of(o);
            assert(all[i].id == id);
        }
    }
}

/// A fact of the subject that may repeat or contradict the new one.
pub open spec fn surfaced(s: State, fact: FactId, e: EntityId, id: FactId) -> bool {
    &&& open_fact(s, id)
    &&& readable(s, id)
    &&& state::fact_of(s, fact) matches Some(f) && f.flags & fact_flags::TOMBSTONE == 0
    &&& readable(s, fact)
    &&& among_last(postings::entries_of(s.entity_facts, e.0), fact, 32, id)
    &&& exists|t: u32| #[trigger] terms_in(s, text_of(s, id)).contains(t)
    &&& exists|t: u32| #[trigger] terms_in(s, text_of(s, fact)).contains(t)
}

} // verus!
