//! What is remembered can be found: the inverted indexes list a new fact under
//! each of its words, each of its tags and its subject.

use crate::id::{BlobId, EntityId, FactId, NONE_U32};
use crate::index::bm25;
use crate::index::postings;
use crate::index::postings::List;
use crate::memory::history;
use crate::memory::state;
use crate::memory::state::{InputView, State};
use crate::model::FactAux;
use vstd::prelude::*;
use vstd::utf8::*;

verus! {

/// A fact is the newest of the list of a key.
pub open spec fn listed(v: Seq<List>, key: u32, fact: FactId) -> bool {
    postings::entries_of(v, key).len() > 0 && postings::entries_of(v, key).last().0 == fact.0
}

/// A fact is the newest of the list of some term that spells a word.
pub open spec fn found_under(
    terms: Seq<Seq<char>>,
    v: Seq<List>,
    word: Seq<char>,
    fact: FactId,
) -> bool {
    exists|k: u32| k < terms.len() && terms[k as int] == word && #[trigger] listed(v, k, fact)
}

/// The terms of counted words.
pub open spec fn keys_of(pairs: Seq<(u32, u8)>) -> Seq<u32> {
    Seq::new(pairs.len(), |i: int| pairs[i].0)
}

pub proof fn lemma_pair_at(pairs: Seq<(u32, u8)>, term: u32, i: int)
    requires
        0 <= i <= pairs.len(),
    ensures
        i <= state::pair_at(pairs, term, i) <= pairs.len(),
        state::pair_at(pairs, term, i) < pairs.len() ==> pairs[state::pair_at(pairs, term, i)].0
            == term,
        forall|j: int| i <= j < state::pair_at(pairs, term, i) ==> (#[trigger] pairs[j]).0 != term,
    decreases pairs.len() - i,
{
    if i < pairs.len() && pairs[i].0 != term {
        lemma_pair_at(pairs, term, i + 1);
    }
}

/// Counting a word adds its term once.
proof fn lemma_bumped(pairs: Seq<(u32, u8)>, term: u32)
    requires
        bm25::terms_once(pairs),
    ensures
        bm25::terms_once(state::bumped(pairs, term)),
        keys_of(state::bumped(pairs, term)) == (if keys_of(pairs).contains(term) {
            keys_of(pairs)
        } else {
            keys_of(pairs).push(term)
        }),
{
    lemma_pair_at(pairs, term, 0);
    let at = state::pair_at(pairs, term, 0);
    let out = state::bumped(pairs, term);
    let ks = keys_of(pairs);
    if at < pairs.len() {
        assert(ks[at] == term);
        assert(keys_of(out) =~= ks);
    } else {
        assert(!ks.contains(term)) by {
            if ks.contains(term) {
                let j = choose|j: int| 0 <= j < ks.len() && ks[j] == term;
                assert(pairs[j].0 == term);
            }
        }
        assert(keys_of(out) =~= ks.push(term));
    }
    assert forall|i: int, j: int| 0 <= i < j < out.len() implies (#[trigger] out[i]).0 != (
    #[trigger] out[j]).0 by {
        if j < pairs.len() {
            assert(pairs[i].0 != pairs[j].0);
        } else {
            assert(pairs[i].0 != term);
        }
    }
}

/// The terms that counting collects spell the words.
pub proof fn lemma_words_spelled(s: State, words: Seq<Seq<char>>)
    requires
        s.terms.len() <= NONE_U32,
        state::words_counted(s, words).2 is Ok,
    ensures
        ({
            let (t, pairs, _) = state::words_counted(s, words);
            &&& bm25::terms_once(pairs)
            &&& history::spells(t.terms, keys_of(pairs), words)
            &&& t.terms.len() <= NONE_U32
        }),
    decreases words.len(),
{
    if words.len() == 0 {
        reveal(history::spells);
    } else {
        let front = words.drop_last();
        lemma_words_spelled(s, front);
        let (u, pairs, _) = state::words_counted(s, front);
        let word = words.last();
        history::lemma_term_grown(u, word);
        let (v, term) = state::term_interned(u, word);
        assert(u.terms.is_prefix_of(v.terms) && v.terms.len() <= NONE_U32) by {
            reveal(history::terms_grown);
        }
        history::lemma_still_spells(u.terms, v.terms, keys_of(pairs), front);
        history::lemma_one_more_word(v.terms, keys_of(pairs), front, term->Ok_0.0, word);
        lemma_bumped(pairs, term->Ok_0.0);
        assert(front.push(word) =~= words);
    }
}

/// Every pushed term lists the fact.
proof fn lemma_pushed_listed(
    v: Seq<List>,
    max_bytes: int,
    fact: FactId,
    pairs: Seq<(u32, u8)>,
    n: int,
)
    requires
        postings::lists_ok(true, v),
        bm25::ids_below(v, fact.0 as int),
        bm25::terms_once(pairs),
        0 <= n <= pairs.len(),
        bm25::pushed_all(true, v, max_bytes, bm25::doc_items(fact.0, pairs).take(n)).1 is Ok,
    ensures
        forall|i: int|
            0 <= i < n ==> listed(
                bm25::pushed_all(true, v, max_bytes, bm25::doc_items(fact.0, pairs).take(n)).0,
                (#[trigger] pairs[i]).0,
                fact,
            ),
    decreases n,
{
    let items = bm25::doc_items(fact.0, pairs);
    if n > 0 {
        bm25::lemma_items(fact.0, pairs, n - 1);
        lemma_pushed_listed(v, max_bytes, fact, pairs, n - 1);
        bm25::lemma_pushed_ids(v, max_bytes, fact.0, pairs, n - 1);
        let mid = bm25::pushed_all(true, v, max_bytes, items.take(n - 1)).0;
        let out = bm25::pushed_all(true, v, max_bytes, items.take(n)).0;
        let key = pairs[n - 1].0;
        let e = (fact.0, pairs[n - 1].1);
        assert(postings::entries_of(mid, key) == postings::entries_of(v, key));
        postings::appending_touches_one_list(true, mid, key, e);
        assert(out == postings::with_entry(mid, key, e));
        assert forall|i: int| 0 <= i < n implies listed(out, (#[trigger] pairs[i]).0, fact) by {
            if i < n - 1 {
                assert(pairs[i].0 != pairs[n - 1].0);
                assert(listed(mid, pairs[i].0, fact));
            }
        }
    }
}

/// The words of an indexed document find it.
proof fn lemma_doc_found(s: State, fact: FactId, pairs: Seq<(u32, u8)>, words: Seq<Seq<char>>)
    requires
        postings::lists_ok(true, s.bm25.postings),
        bm25::ids_below(s.bm25.postings, fact.0 as int),
        bm25::terms_once(pairs),
        history::spells(s.terms, keys_of(pairs), words),
        state::doc_added(s, fact, pairs).1 is Ok,
    ensures
        forall|i: int|
            0 <= i < words.len() ==> found_under(
                s.terms,
                state::doc_added(s, fact, pairs).0.bm25.postings,
                #[trigger] words[i],
                fact,
            ),
{
    let v = s.bm25.postings;
    let n = pairs.len() as int;
    let items = bm25::doc_items(fact.0, pairs);
    assert(items.take(n) =~= items);
    lemma_pushed_listed(v, state::cap(s), fact, pairs, n);
    let out = state::doc_added(s, fact, pairs).0.bm25.postings;
    let ks = keys_of(pairs);
    reveal(history::spells);
    assert forall|i: int| 0 <= i < words.len() implies found_under(
        s.terms,
        out,
        #[trigger] words[i],
        fact,
    ) by {
        assert(history::word_in(s.terms, ks, words[i]));
        let k = choose|k: int|
            0 <= k < ks.len() && #[trigger] history::word_at(s.terms, ks, k) == words[i];
        assert(ks[k] == pairs[k].0);
        assert(listed(out, pairs[k].0, fact));
    }
}

/// More terms do not hide a fact.
proof fn lemma_still_found(
    a: Seq<Seq<char>>,
    b: Seq<Seq<char>>,
    v: Seq<List>,
    word: Seq<char>,
    fact: FactId,
)
    requires
        found_under(a, v, word, fact),
        a.is_prefix_of(b),
    ensures
        found_under(b, v, word, fact),
{
    let k = choose|k: u32| k < a.len() && a[k as int] == word && #[trigger] listed(v, k, fact);
    assert(a[k as int] == b.subrange(0, a.len() as int)[k as int]);
    assert(listed(v, k, fact));
}

/// The lists of some keys have one entry more, the others are the same.
pub open spec fn appended_under(v: Seq<List>, w: Seq<List>, keys: Seq<u32>, fact: FactId) -> bool {
    &&& postings::lists_ok(false, w)
    &&& forall|k: u32|
        !keys.contains(k) ==> #[trigger] postings::entries_of(w, k) == postings::entries_of(v, k)
    &&& forall|i: int|
        0 <= i < keys.len() ==> postings::entries_of(w, #[trigger] keys[i])
            == postings::entries_of(v, keys[i]).push((fact.0, 1u8))
}

/// One more key.
pub proof fn lemma_one_more_key(
    v: Seq<List>,
    w: Seq<List>,
    keys: Seq<u32>,
    fact: FactId,
    key: u32,
)
    requires
        appended_under(v, w, keys, fact),
        bm25::ids_below(v, fact.0 as int),
        !keys.contains(key),
    ensures
        appended_under(
            v,
            postings::with_entry(w, key, (fact.0, 1u8)),
            keys.push(key),
            fact,
        ),
{
    let e = (fact.0, 1u8);
    let all = keys.push(key);
    let out = postings::with_entry(w, key, e);
    assert(postings::entries_of(w, key) == postings::entries_of(v, key));
    postings::appending_touches_one_list(false, w, key, e);
    assert forall|i: int| 0 <= i < all.len() implies postings::entries_of(out, #[trigger] all[i])
        == postings::entries_of(v, all[i]).push(e) by {
        if i < keys.len() {
            assert(all[i] == keys[i]);
            assert(keys.contains(keys[i]));
        }
    }
    assert forall|k: u32| !all.contains(k) implies #[trigger] postings::entries_of(out, k)
        == postings::entries_of(v, k) by {
        assert(all[keys.len() as int] == key);
        if keys.contains(k) {
            let j = choose|j: int| 0 <= j < keys.len() && keys[j] == k;
            assert(all[j] == k);
        }
    }
}

/// Every collected tag lists the fact.
pub proof fn lemma_tags_listed(s: State, tags: Seq<Seq<char>>, fact: FactId)
    requires
        postings::lists_ok(false, s.tags_idx),
        bm25::ids_below(s.tags_idx, fact.0 as int),
        state::tags_added(s, tags, fact).2 is Ok,
    ensures
        ({
            let (t, list, _) = state::tags_added(s, tags, fact);
            appended_under(s.tags_idx, t.tags_idx, list, fact) && list.len() <= tags.len()
        }),
    decreases tags.len(),
{
    if tags.len() > 0 {
        let front = tags.drop_last();
        lemma_tags_listed(s, front, fact);
        let (u, xs, _) = state::tags_added(s, front, fact);
        let id = state::term_interned(u, tags.last()).1->Ok_0.0;
        if !xs.contains(id) {
            lemma_one_more_key(s.tags_idx, u.tags_idx, xs, fact, id);
        }
    }
}

/// The tags of a fact find it.
proof fn lemma_tags_found(s: State, tags: Seq<Seq<char>>, fact: FactId)
    requires
        postings::lists_ok(false, s.tags_idx),
        bm25::ids_below(s.tags_idx, fact.0 as int),
        s.terms.len() <= NONE_U32,
        state::tags_added(s, tags, fact).2 is Ok,
    ensures
        ({
            let t = state::tags_added(s, tags, fact).0;
            &&& forall|i: int|
                0 <= i < tags.len() ==> found_under(t.terms, t.tags_idx, #[trigger] tags[i], fact)
            &&& t.bm25 == s.bm25
            &&& t.entity_facts == s.entity_facts
        }),
{
    lemma_tags_listed(s, tags, fact);
    history::lemma_tags_spelled(s, tags, fact);
    lemma_tags_frame(s, tags, fact);
    let (t, list, _) = state::tags_added(s, tags, fact);
    reveal(history::spells);
    assert forall|i: int| 0 <= i < tags.len() implies found_under(
        t.terms,
        t.tags_idx,
        #[trigger] tags[i],
        fact,
    ) by {
        assert(history::word_in(t.terms, list, tags[i]));
        let k = choose|k: int|
            0 <= k < list.len() && #[trigger] history::word_at(t.terms, list, k) == tags[i];
        assert(postings::entries_of(t.tags_idx, list[k]) == postings::entries_of(
            s.tags_idx,
            list[k],
        ).push((fact.0, 1u8)));
        assert(listed(t.tags_idx, list[k], fact));
    }
}

proof fn lemma_tags_frame(s: State, tags: Seq<Seq<char>>, fact: FactId)
    ensures
        state::tags_added(s, tags, fact).0.bm25 == s.bm25,
        state::tags_added(s, tags, fact).0.entity_facts == s.entity_facts,
    decreases tags.len(),
{
    if tags.len() > 0 {
        lemma_tags_frame(s, tags.drop_last(), fact);
    }
}

/// The indexes behind the tags, the links and the record of a fact.
pub proof fn lemma_finished(
    s: State,
    entity: Option<EntityId>,
    text: BlobId,
    input: InputView,
    revises: FactId,
)
    requires
        s.terms.len() <= NONE_U32,
        postings::lists_ok(false, s.tags_idx),
        bm25::ids_below(s.tags_idx, s.next_fact as int),
        postings::lists_ok(false, s.entity_facts),
        bm25::ids_below(s.entity_facts, s.next_fact as int),
        state::fact_finished(s, entity, text, input, revises).1 is Ok,
    ensures
        ({
            let t = state::fact_finished(s, entity, text, input, revises).0;
            let id = FactId(s.next_fact);
            &&& s.terms.is_prefix_of(t.terms)
            &&& t.bm25 == s.bm25
            &&& forall|i: int|
                0 <= i < input.tags.len() ==> found_under(
                    t.terms,
                    t.tags_idx,
                    #[trigger] input.tags[i],
                    id,
                )
            &&& entity matches Some(e) ==> listed(t.entity_facts, e.0, id)
        }),
{
    let id = FactId(s.next_fact);
    let (t1, list, _) = state::tags_added(s, input.tags, id);
    lemma_tags_found(s, input.tags, id);
    history::lemma_tags_spelled(s, input.tags, id);
    let (t2, tags) = state::tags_stored(t1, list);
    let (t3, meta) = state::meta_stored(t2, input.metadata);
    let t4 = state::aux_added(t3, FactAux { id, tags: tags->Ok_0, meta: meta->Ok_0 }).0;
    let t5 = state::subject_linked(t4, entity, input.links, id, input.now).0;
    history::lemma_same_terms(t1, t4);
    if let Some(src) = entity {
        let u = state::links_added(t4, src, input.links, id, input.now).0;
        history::lemma_links_grown(t4, src, input.links, id, input.now);
        history::lemma_same_terms(u, t5);
        history::lemma_terms_grown(t4, u, t5);
        postings::appending_touches_one_list(false, u.entity_facts, src.0, (id.0, 1u8));
    } else {
        history::lemma_same_terms(t4, t5);
    }
    history::lemma_terms_grown(t1, t4, t5);
    history::lemma_terms_grown(s, t1, t5);
    let t = state::fact_finished(s, entity, text, input, revises).0;
    assert(t1.terms.is_prefix_of(t5.terms) && s.terms.is_prefix_of(t5.terms)) by {
        reveal(history::terms_grown);
    }
    assert(t.terms == t5.terms && t.tags_idx == t1.tags_idx);
    assert forall|i: int| 0 <= i < input.tags.len() implies found_under(
        t.terms,
        t.tags_idx,
        #[trigger] input.tags[i],
        id,
    ) by {
        lemma_still_found(t1.terms, t.terms, t.tags_idx, input.tags[i], id);
    }
}

/// A remembered fact is indexed: each of its words and each of its tags leads
/// to it, and so does its subject.
pub proof fn a_remembered_fact_is_indexed(s: State, input: InputView, revises: FactId)
    requires
        state::inv(s),
        s.terms.len() <= NONE_U32,
        postings::lists_ok(true, s.bm25.postings),
        postings::lists_ok(false, s.tags_idx),
        postings::lists_ok(false, s.entity_facts),
        state::remembered(s, input, revises).1 is Ok,
    ensures
        ({
            let (t, r) = state::remembered(s, input, revises);
            let (id, entity) = r->Ok_0;
            let words = state::tokens(input.text);
            &&& forall|i: int|
                0 <= i < words.len() ==> found_under(
                    t.terms,
                    t.bm25.postings,
                    #[trigger] words[i],
                    id,
                )
            &&& forall|i: int|
                0 <= i < input.tags.len() ==> found_under(
                    t.terms,
                    t.tags_idx,
                    #[trigger] input.tags[i],
                    id,
                )
            &&& entity matches Some(e) ==> listed(t.entity_facts, e.0, id)
        }),
{
    reveal(state::remembered);
    let id = FactId(s.next_fact);
    let words = state::tokens(input.text);
    let (t1, entity) = state::subject_resolved(s, input);
    if let Some(name) = input.entity {
        history::lemma_entity_grown(s, name, input.now);
    } else {
        history::lemma_same_terms(s, t1);
    }
    assert(t1.terms.len() <= NONE_U32) by {
        reveal(history::terms_grown);
    }
    let (t2, text) = state::text_stored(t1, encode_utf8(input.text));
    let (t3, pairs, _) = state::words_counted(t2, words);
    lemma_words_spelled(t2, words);
    history::lemma_words_grown(t2, words);
    lemma_doc_found(t3, id, pairs, words);
    let t4 = state::doc_added(t3, id, pairs).0;
    lemma_words_next(t2, words);
    lemma_finished(t4, entity->Ok_0, text->Ok_0, input, revises);
    let t = state::remembered(s, input, revises).0;
    assert forall|i: int| 0 <= i < words.len() implies found_under(
        t.terms,
        t.bm25.postings,
        #[trigger] words[i],
        id,
    ) by {
        lemma_still_found(t3.terms, t.terms, t.bm25.postings, words[i], id);
    }
}

pub proof fn lemma_words_next(s: State, words: Seq<Seq<char>>)
    ensures
        state::words_counted(s, words).0.next_fact == s.next_fact,
    decreases words.len(),
{
    if words.len() > 0 {
        lemma_words_next(s, words.drop_last());
    }
}

} // verus!
