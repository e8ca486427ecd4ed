//! What each source of a query returns: the facts that the query asks for and
//! the rule lets through, all of them up to the cap, and no others.

use crate::id::{FactId, TermId};
use crate::index;
use crate::index::bm25;
use crate::index::postings;
use crate::index::rank;
use crate::index::rank::Scored;
use crate::index::vecpool;
use crate::interner;
use crate::memory::recall::admission;
use crate::memory::recall::graph;
use crate::memory::recall::lexical;
use crate::memory::recall::vector;
use crate::memory::state;
use crate::memory::state::State;
use crate::model::fact_flags;
use vstd::prelude::*;

verus! {

/// A fact that any source may return: among the filter's where there is one,
/// on record, not forgotten, recorded and true by the instant, and still true
/// then unless closed revisions are asked for.
pub open spec fn eligible(
    s: State,
    filter: Option<Seq<FactId>>,
    as_of: u64,
    include_closed: bool,
    id: FactId,
) -> bool {
    &&& filter matches Some(ids) ==> ids.contains(id)
    &&& state::fact_of(s, id) matches Some(f) && {
        &&& f.flags & fact_flags::TOMBSTONE == 0
        &&& f.recorded_at <= as_of
        &&& f.valid_from <= as_of
        &&& include_closed || as_of < f.valid_to
    }
}

/// The shared rule is this one.
pub proof fn the_rule_admits_eligible_facts(
    s: State,
    filter: Option<Seq<FactId>>,
    as_of: u64,
    include_closed: bool,
    id: FactId,
)
    ensures
        match admission::admitted(s, filter, as_of, include_closed, id) {
            Some(f) => eligible(s, filter, as_of, include_closed, id) && state::fact_of(s, id)
                == Some(f),
            None => !eligible(s, filter, as_of, include_closed, id),
        },
{
}

proof fn lemma_slots(
    s: State,
    filter: Option<Seq<FactId>>,
    as_of: u64,
    include_closed: bool,
    slots: Seq<Scored>,
)
    ensures
        ({
            let xs = vector::admitted_slots(s, filter, as_of, include_closed, slots);
            &&& xs.len() <= slots.len()
            &&& forall|i: int|
                0 <= i < xs.len() ==> stands_for(
                    s,
                    slots,
                    #[trigger] xs[i],
                ) && eligible(s, filter, as_of, include_closed, FactId(xs[i].1))
            &&& forall|j: int|
                0 <= j < slots.len() && eligible(
                    s,
                    filter,
                    as_of,
                    include_closed,
                    FactId(fact_behind(s, (#[trigger] slots[j]).1)),
                ) ==> xs.contains((slots[j].0, fact_behind(s, slots[j].1)))
        }),
    decreases slots.len(),
{
    if slots.len() > 0 {
        let init = slots.drop_last();
        lemma_slots(s, filter, as_of, include_closed, init);
        let front = vector::admitted_slots(s, filter, as_of, include_closed, init);
        let xs = vector::admitted_slots(s, filter, as_of, include_closed, slots);
        let x = (slots.last().0, fact_behind(s, slots.last().1));
        the_rule_admits_eligible_facts(s, filter, as_of, include_closed, FactId(x.1));
        assert forall|i: int| 0 <= i < xs.len() implies stands_for(s, slots, #[trigger] xs[i])
            && eligible(s, filter, as_of, include_closed, FactId(xs[i].1)) by {
            if i < front.len() {
                assert(xs[i] == front[i]);
                let j = choose|j: int|
                    0 <= j < init.len() && (#[trigger] init[j]).0 == xs[i].0 && fact_behind(
                        s,
                        init[j].1,
                    ) == xs[i].1;
                assert(slots[j] == init[j]);
            } else {
                assert(xs[i] == x);
                assert(slots[slots.len() - 1].0 == x.0);
            }
        }
        assert forall|j: int|
            0 <= j < slots.len() && eligible(
                s,
                filter,
                as_of,
                include_closed,
                FactId(fact_behind(s, (#[trigger] slots[j]).1)),
            ) implies xs.contains((slots[j].0, fact_behind(s, slots[j].1))) by {
            if j < init.len() {
                assert(init[j] == slots[j]);
                let y = (slots[j].0, fact_behind(s, slots[j].1));
                let k = front.index_of(y);
                assert(xs[k] == y);
            } else {
                assert(xs[xs.len() - 1] == x);
            }
        }
    }
}

/// The fact whose vector a slot holds: the number in front of its bytes.
pub open spec fn fact_behind(s: State, slot: u32) -> u32 {
    vecpool::fact_of(vecpool::slot_at(s.cfg.dim as int, s.vecs, slot as int))
}

/// A scored fact comes from a slot with that score.
pub open spec fn stands_for(s: State, slots: Seq<Scored>, x: Scored) -> bool {
    exists|j: int|
        0 <= j < slots.len() && (#[trigger] slots[j]).0 == x.0 && fact_behind(s, slots[j].1) == x.1
}

/// What the vector source returns for some scored slots.
pub open spec fn vector_facts(
    s: State,
    filter: Option<Seq<FactId>>,
    as_of: u64,
    include_closed: bool,
    slots: Seq<Scored>,
) -> Seq<Scored> {
    rank::top(
        vector::admitted_slots(s, filter, as_of, include_closed, slots),
        graph::SOURCE_CAP as int,
    )
}

/// An answer of the vector source: eligible facts only, each with the score of
/// one of its slots, best first; and every eligible fact that was found, unless
/// 128 others that it does not rank before are returned.
pub open spec fn vector_answer(
    s: State,
    filter: Option<Seq<FactId>>,
    as_of: u64,
    include_closed: bool,
    slots: Seq<Scored>,
    r: Seq<Scored>,
) -> bool {
    &&& r.len() <= 128
    &&& rank::in_order(r)
    &&& forall|i: int|
        0 <= i < r.len() ==> eligible(
            s,
            filter,
            as_of,
            include_closed,
            FactId((#[trigger] r[i]).1),
        ) && stands_for(s, slots, r[i])
    &&& forall|j: int|
        0 <= j < slots.len() && eligible(
            s,
            filter,
            as_of,
            include_closed,
            FactId(fact_behind(s, (#[trigger] slots[j]).1)),
        ) ==> {
            let x = (slots[j].0, fact_behind(s, slots[j].1));
            r.contains(x) || (r.len() == 128 && forall|i: int|
                0 <= i < r.len() ==> !rank::before(x, #[trigger] r[i]))
        }
}

/// The vector source returns what is eligible.
pub proof fn the_vector_source_returns_what_is_eligible(
    s: State,
    filter: Option<Seq<FactId>>,
    as_of: u64,
    include_closed: bool,
    slots: Seq<Scored>,
)
    ensures
        vector_answer(
            s,
            filter,
            as_of,
            include_closed,
            slots,
            vector_facts(s, filter, as_of, include_closed, slots),
        ),
{
    let xs = vector::admitted_slots(s, filter, as_of, include_closed, slots);
    let r = rank::top(xs, graph::SOURCE_CAP as int);
    lemma_slots(s, filter, as_of, include_closed, slots);
    rank::the_best_are_kept(xs, graph::SOURCE_CAP as int);
    assert forall|i: int| 0 <= i < r.len() implies eligible(
        s,
        filter,
        as_of,
        include_closed,
        FactId((#[trigger] r[i]).1),
    ) && stands_for(s, slots, r[i]) by {
        assert(xs.contains(r[i]));
        let k = xs.index_of(r[i]);
        assert(xs[k] == r[i]);
    }
    assert forall|j: int|
        0 <= j < slots.len() && eligible(
            s,
            filter,
            as_of,
            include_closed,
            FactId(fact_behind(s, (#[trigger] slots[j]).1)),
        ) implies {
        let x = (slots[j].0, fact_behind(s, slots[j].1));
        r.contains(x) || (r.len() == 128 && forall|i: int|
            0 <= i < r.len() ==> !rank::before(x, #[trigger] r[i]))
    } by {
        assert(xs.contains((slots[j].0, fact_behind(s, slots[j].1))));
    }
}

/// A term in more than 1024 documents and in more than an eighth of all.
pub open spec fn too_common(s: State, term: u32) -> bool {
    let n = postings::entries_of(s.bm25.postings, term).len();
    n > 1024 && n * 8 > s.bm25.total_docs
}

/// How often a word occurs among some.
pub open spec fn occurrences(words: Seq<Seq<char>>, word: Seq<char>) -> nat {
    words.to_multiset().count(word)
}

proof fn lemma_known(s: State, words: Seq<Seq<char>>)
    requires
        interner::distinct(s.terms),
        s.terms.len() <= crate::id::NONE_U32,
    ensures
        forall|t: u32|
            t < s.terms.len() ==> (#[trigger] lexical::known_terms(s, words).to_multiset().count(t))
                == occurrences(words, s.terms[t as int]),
        forall|i: int|
            0 <= i < lexical::known_terms(s, words).len() ==> (#[trigger] lexical::known_terms(
                s,
                words,
            )[i]) < s.terms.len(),
    decreases words.len(),
{
    broadcast use vstd::seq_lib::group_to_multiset_ensures;

    let all = lexical::known_terms(s, words);
    if words.len() > 0 {
        let front = words.drop_last();
        let w = words.last();
        lemma_known(s, front);
        let xs = lexical::known_terms(s, front);
        assert(front.push(w) =~= words);
        if s.terms.contains(w) {
            let k = s.terms.index_of(w);
            assert(s.terms[k] == w);
            interner::lemma_lookup(s.terms, k);
        }
        assert forall|t: u32| t < s.terms.len() implies (#[trigger] all.to_multiset().count(t))
            == occurrences(words, s.terms[t as int]) by {
            assert(xs.to_multiset().count(t) == occurrences(front, s.terms[t as int]));
            interner::lemma_lookup(s.terms, t as int);
            assert(s.terms.contains(s.terms[t as int]));
        }
        assert forall|i: int| 0 <= i < all.len() implies (#[trigger] all[i]) < s.terms.len() by {
            if i < xs.len() {
                assert(all[i] == xs[i]);
            }
        }
    }
}

proof fn lemma_kept(s: State, terms: Seq<u32>)
    ensures
        forall|t: u32|
            (#[trigger] lexical::without_stops(s, terms).to_multiset().count(t)) == if too_common(
                s,
                t,
            ) {
                0
            } else {
                terms.to_multiset().count(t)
            },
    decreases terms.len(),
{
    broadcast use vstd::seq_lib::group_to_multiset_ensures;

    let kept = lexical::without_stops(s, terms);
    if terms.len() > 0 {
        let init = terms.drop_last();
        let front = lexical::without_stops(s, init);
        lemma_kept(s, init);
        assert(init.push(terms.last()) =~= terms);
        assert forall|t: u32| (#[trigger] kept.to_multiset().count(t)) == if too_common(s, t) {
            0
        } else {
            terms.to_multiset().count(t)
        } by {
            assert(front.to_multiset().count(t) == if too_common(s, t) {
                0
            } else {
                init.to_multiset().count(t)
            });
            assert(terms.to_multiset() =~= init.to_multiset().insert(terms.last()));
        }
    } else {
        assert(terms =~= kept);
        assert forall|t: u32| (#[trigger] kept.to_multiset().count(t)) == 0 by {
            kept.to_multiset_ensures();
            assert(!kept.contains(t));
        }
    }
}

proof fn lemma_least(s: State, terms: Seq<u32>)
    requires
        terms.len() > 0,
    ensures
        terms.contains(lexical::least_frequent(s, terms)),
        forall|i: int|
            0 <= i < terms.len() ==> postings::entries_of(
                s.bm25.postings,
                lexical::least_frequent(s, terms),
            ).len() <= postings::entries_of(s.bm25.postings, #[trigger] terms[i]).len(),
    decreases terms.len(),
{
    if terms.len() == 1 {
        assert(terms[0] == lexical::least_frequent(s, terms));
    } else {
        let front = terms.drop_last();
        lemma_least(s, front);
        let least = lexical::least_frequent(s, front);
        let k = front.index_of(least);
        assert(terms[k] == least);
        assert(terms[terms.len() - 1] == terms.last());
        assert forall|i: int| 0 <= i < terms.len() implies postings::entries_of(
            s.bm25.postings,
            lexical::least_frequent(s, terms),
        ).len() <= postings::entries_of(s.bm25.postings, #[trigger] terms[i]).len() by {
            if i < front.len() {
                assert(front[i] == terms[i]);
            }
        }
    }
}

/// The terms that a text looks up: every word that is a known term and not too
/// common, as often as it occurs. A term that is too common is looked up only
/// where every known word is: then the least frequent of them alone. Nothing
/// else is looked up.
pub open spec fn looks_up(s: State, text: Seq<char>, terms: Seq<u32>) -> bool {
    let words = state::tokens(text);
    &&& forall|t: u32|
        t < s.terms.len() && !too_common(s, t) ==> (#[trigger] terms.to_multiset().count(t))
            == occurrences(words, s.terms[t as int])
    &&& forall|i: int|
        0 <= i < terms.len() ==> (#[trigger] terms[i]) < s.terms.len() && words.contains(
            s.terms[terms[i] as int],
        )
    &&& forall|i: int|
        0 <= i < terms.len() && too_common(s, #[trigger] terms[i]) ==> {
            &&& terms.len() == 1
            &&& forall|t: u32|
                t < s.terms.len() && words.contains(#[trigger] s.terms[t as int]) ==> too_common(
                    s,
                    t,
                ) && postings::entries_of(s.bm25.postings, terms[i]).len()
                    <= postings::entries_of(s.bm25.postings, t).len()
        }
    &&& terms.len() == 0 <==> forall|i: int|
        0 <= i < words.len() ==> !s.terms.contains(#[trigger] words[i])
}

/// Every known word of a query is looked up.
pub proof fn every_known_word_is_looked_up(s: State, text: Seq<char>)
    requires
        interner::distinct(s.terms),
        s.terms.len() <= crate::id::NONE_U32,
    ensures
        looks_up(s, text, lexical::query_terms(s, text)),
{
    broadcast use vstd::seq_lib::group_to_multiset_ensures;

    let words = state::tokens(text);
    let all = lexical::known_terms(s, words);
    let kept = lexical::without_stops(s, all);
    let terms = lexical::query_terms(s, text);
    lemma_known(s, words);
    lemma_kept(s, all);
    all.to_multiset_ensures();
    kept.to_multiset_ensures();
    words.to_multiset_ensures();
    assert forall|i: int| 0 <= i < all.len() implies words.contains(
        s.terms[(#[trigger] all[i]) as int],
    ) by {
        assert(all.contains(all[i]));
        assert(all.to_multiset().count(all[i]) > 0);
    }
    assert forall|i: int| 0 <= i < kept.len() implies all.contains(#[trigger] kept[i])
        && !too_common(s, kept[i]) by {
        assert(kept.contains(kept[i]));
        assert(kept.to_multiset().count(kept[i]) > 0);
        assert(all.to_multiset().count(kept[i]) > 0);
    }
    assert forall|t: u32| t < s.terms.len() && words.contains(#[trigger] s.terms[t as int]) implies
        all.contains(t) by {
        assert(words.to_multiset().count(s.terms[t as int]) > 0);
        assert(all.to_multiset().count(t) > 0);
    }
    if kept.len() == 0 && all.len() > 0 {
        lemma_least(s, all);
        let least = lexical::least_frequent(s, all);
        assert(terms =~= seq![least]);
        assert forall|i: int| 0 <= i < all.len() implies too_common(s, #[trigger] all[i]) by {
            assert(all.contains(all[i]));
            assert(kept.to_multiset().count(all[i]) == 0) by {
                if kept.to_multiset().count(all[i]) > 0 {
                    assert(kept.contains(all[i]));
                }
            }
            assert(all.to_multiset().count(all[i]) > 0);
        }
        let k = all.index_of(least);
        assert(all[k] == least);
        assert forall|t: u32| t < s.terms.len() && !too_common(s, t) implies (
        #[trigger] terms.to_multiset().count(t)) == occurrences(words, s.terms[t as int]) by {
            terms.to_multiset_ensures();
            if terms.to_multiset().count(t) > 0 {
                assert(terms.contains(t));
            }
            if all.to_multiset().count(t) > 0 {
                assert(all.contains(t));
                let j = all.index_of(t);
                assert(too_common(s, all[j]));
            }
        }
        assert forall|t: u32|
            t < s.terms.len() && words.contains(#[trigger] s.terms[t as int]) implies too_common(
            s,
            t,
        ) && postings::entries_of(s.bm25.postings, least).len() <= postings::entries_of(
            s.bm25.postings,
            t,
        ).len() by {
            assert(all.contains(t));
            let j = all.index_of(t);
            assert(all[j] == t);
        }
    }
    assert forall|i: int| 0 <= i < terms.len() implies (#[trigger] terms[i]) < s.terms.len()
        && words.contains(s.terms[terms[i] as int]) by {
        if kept.len() > 0 {
            assert(all.contains(kept[i]));
            let j = all.index_of(kept[i]);
            assert(all[j] == terms[i]);
        } else {
            let j = all.index_of(terms[i]);
            assert(all[j] == terms[i]);
        }
    }
    if terms.len() == 0 {
        assert forall|i: int| 0 <= i < words.len() implies !s.terms.contains(
            #[trigger] words[i],
        ) by {
            if s.terms.contains(words[i]) {
                let t = s.terms.index_of(words[i]);
                assert(s.terms[t as u32 as int] == words[i]);
                assert(words.contains(s.terms[t as u32 as int]));
                assert(all.contains(t as u32));
            }
        }
    } else {
        assert(words.contains(s.terms[terms[0] as int]));
        let i = words.index_of(s.terms[terms[0] as int]);
        assert(words[i] == s.terms[terms[0] as int]);
        assert(s.terms.contains(words[i]));
    }
}

/// A fact is listed under a tag.
pub open spec fn listed_under(s: State, tag: Seq<char>, id: FactId) -> bool {
    exists|t: u32|
        t < s.terms.len() && s.terms[t as int] == tag && #[trigger] index::has_id(
            postings::entries_of(s.tags_idx, t),
            id.0,
        )
}

/// What a tag filter lets through is exactly what is listed under every tag of
/// the query; a query without tags has no filter.
pub proof fn a_filter_lets_through_what_carries_every_tag(
    s: State,
    tags: Seq<Seq<char>>,
    filter: admission::TagFilter,
    id: FactId,
)
    requires
        interner::distinct(s.terms),
        s.terms.len() <= crate::id::NONE_U32,
        filter.is_filter(s, tags),
    ensures
        filter is Open <==> tags.len() == 0,
        tags.len() > 0 && (forall|i: int|
            0 <= i < tags.len() ==> listed_under(s, #[trigger] tags[i], id)) ==> (
        filter matches admission::TagFilter::Only(a) && a@.contains(id)),
        filter matches admission::TagFilter::Only(a) ==> (a@.contains(id) ==> forall|i: int|
            0 <= i < tags.len() ==> listed_under(s, #[trigger] tags[i], id)),
{
    lemma_tag_terms(s, tags);
    if tags.len() > 0 {
        if forall|i: int| 0 <= i < tags.len() ==> listed_under(s, #[trigger] tags[i], id) {
            assert forall|i: int| 0 <= i < tags.len() implies s.terms.contains(
                #[trigger] tags[i],
            ) by {
                assert(listed_under(s, tags[i], id));
            }
            let terms = admission::tag_terms(s, tags)->0;
            assert(index::on_all(s.tags_idx, terms, id.0)) by {
                assert forall|k: int| 0 <= k < terms.len() implies index::has_id(
                    postings::entries_of(s.tags_idx, #[trigger] terms[k]),
                    id.0,
                ) by {
                    assert(listed_under(s, tags[k], id));
                    let t = choose|t: u32|
                        t < s.terms.len() && s.terms[t as int] == tags[k]
                            && #[trigger] index::has_id(
                            postings::entries_of(s.tags_idx, t),
                            id.0,
                        );
                    interner::lemma_lookup(s.terms, t as int);
                    assert(terms[k] == t);
                }
            }
            if let admission::TagFilter::Only(a) = filter {
                assert(a@.contains(FactId(id.0)));
            }
        }
        if let admission::TagFilter::Only(a) = filter {
            if a@.contains(id) {
                let terms = admission::tag_terms(s, tags)->0;
                assert(a@.contains(FactId(id.0)));
                assert(index::on_all(s.tags_idx, terms, id.0));
                assert forall|i: int| 0 <= i < tags.len() implies listed_under(
                    s,
                    #[trigger] tags[i],
                    id,
                ) by {
                    let t = terms[i];
                    assert(index::has_id(postings::entries_of(s.tags_idx, t), id.0));
                    let k = s.terms.index_of(tags[i]);
                    assert(s.terms.contains(tags[i]));
                    interner::lemma_lookup(s.terms, k);
                }
            }
        }
    }
}

proof fn lemma_tag_terms(s: State, tags: Seq<Seq<char>>)
    requires
        interner::distinct(s.terms),
        s.terms.len() <= crate::id::NONE_U32,
    ensures
        admission::tag_terms(s, tags) is Some <==> forall|i: int|
            0 <= i < tags.len() ==> s.terms.contains(#[trigger] tags[i]),
        admission::tag_terms(s, tags) matches Some(terms) ==> terms.len() == tags.len()
            && forall|i: int|
            0 <= i < tags.len() ==> interner::lookup_of(s.terms, #[trigger] tags[i]) == Some(
                TermId(terms[i]),
            ),
    decreases tags.len(),
{
    if tags.len() > 0 {
        let init = tags.drop_last();
        lemma_tag_terms(s, init);
        assert(tags[tags.len() - 1] == tags.last());
        if admission::tag_terms(s, tags) is Some {
            let terms = admission::tag_terms(s, tags)->0;
            assert forall|i: int| 0 <= i < tags.len() implies interner::lookup_of(
                s.terms,
                #[trigger] tags[i],
            ) == Some(TermId(terms[i])) && s.terms.contains(tags[i]) by {
                if i < init.len() {
                    assert(init[i] == tags[i]);
                }
            }
        } else if forall|i: int| 0 <= i < tags.len() ==> s.terms.contains(#[trigger] tags[i]) {
            assert forall|i: int| 0 <= i < init.len() implies s.terms.contains(
                #[trigger] init[i],
            ) by {
                assert(tags[i] == init[i]);
            }
        }
    }
}

} // verus!
