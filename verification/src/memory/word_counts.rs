//! How often the index says that a word occurs, and how long a text is.

use crate::id::{FactId, NONE_U32};
use crate::index::bm25;
use crate::index::bm25::Bm25State;
use crate::index::postings;
use crate::index::postings::List;
use crate::interner;
use crate::memory::history;
use crate::memory::indexing;
use crate::memory::state;
use crate::memory::state::{InputView, State};
use crate::memory::whole;
use crate::model::DocLenSlot;
use crate::table;
use vstd::prelude::*;
use vstd::utf8::*;

verus! {

/// A number of occurrences as the index stores it.
pub open spec fn capped(n: nat) -> int {
    if n > 255 {
        255
    } else {
        n as int
    }
}

/// The newest entry of a word is that of a fact, with some frequency.
pub open spec fn noted(
    terms: Seq<Seq<char>>,
    v: Seq<List>,
    word: Seq<char>,
    fact: FactId,
    n: int,
) -> bool {
    exists|k: u32|
        k < terms.len() && terms[k as int] == word && indexing::listed(v, k, fact)
            && (#[trigger] postings::entries_of(v, k)).last().1 == n
}

/// No word occurs more often than the index can count.
pub open spec fn countable(words: Seq<Seq<char>>) -> bool {
    forall|w: Seq<char>| (#[trigger] words.to_multiset().count(w)) <= 255
}

/// Each pair counts the occurrences of its term.
spec fn counted(terms: Seq<Seq<char>>, pairs: Seq<(u32, u8)>, words: Seq<Seq<char>>) -> bool {
    forall|i: int|
        0 <= i < pairs.len() ==> (#[trigger] pairs[i]).0 < terms.len() && pairs[i].1 == capped(
            words.to_multiset().count(terms[pairs[i].0 as int]),
        )
}

spec fn sum(pairs: Seq<(u32, u8)>) -> nat
    decreases pairs.len(),
{
    if pairs.len() == 0 {
        0
    } else {
        sum(pairs.drop_last()) + pairs.last().1 as nat
    }
}

proof fn lemma_sum_update(pairs: Seq<(u32, u8)>, i: int, p: (u32, u8))
    requires
        0 <= i < pairs.len(),
    ensures
        sum(pairs.update(i, p)) == sum(pairs) - pairs[i].1 + p.1,
    decreases pairs.len(),
{
    let out = pairs.update(i, p);
    if i == pairs.len() - 1 {
        assert(out.drop_last() =~= pairs.drop_last());
    } else {
        lemma_sum_update(pairs.drop_last(), i, p);
        assert(out.drop_last() =~= pairs.drop_last().update(i, p));
    }
}

proof fn lemma_tokens(pairs: Seq<(u32, u8)>)
    ensures
        bm25::doc_tokens(pairs) == if sum(pairs) > u64::MAX {
            u64::MAX as int
        } else {
            sum(pairs) as int
        },
    decreases pairs.len(),
{
    if pairs.len() > 0 {
        lemma_tokens(pairs.drop_last());
    }
}

/// One more word.
proof fn lemma_bumped(
    a: Seq<Seq<char>>,
    b: Seq<Seq<char>>,
    pairs: Seq<(u32, u8)>,
    front: Seq<Seq<char>>,
    term: u32,
    word: Seq<char>,
)
    requires
        interner::distinct(b),
        a.is_prefix_of(b),
        counted(a, pairs, front),
        bm25::terms_once(pairs),
        history::spells(a, indexing::keys_of(pairs), front),
        term < b.len(),
        b[term as int] == word,
    ensures
        counted(b, state::bumped(pairs, term), front.push(word)),
        countable(front.push(word)) ==> sum(state::bumped(pairs, term)) == sum(pairs) + 1,
{
    broadcast use vstd::seq_lib::group_to_multiset_ensures;

    let all = front.push(word);
    let out = state::bumped(pairs, term);
    let at = state::pair_at(pairs, term, 0);
    let ks = indexing::keys_of(pairs);
    indexing::lemma_pair_at(pairs, term, 0);
    reveal(history::spells);
    assert(all.to_multiset() =~= front.to_multiset().insert(word));
    assert forall|i: int| 0 <= i < a.len() implies #[trigger] b[i] == a[i] by {
        assert(b.subrange(0, a.len() as int)[i] == b[i]);
    }
    assert(at == pairs.len() ==> front.to_multiset().count(word) == 0) by {
        if at == pairs.len() && front.contains(word) {
            let i = choose|i: int| 0 <= i < front.len() && front[i] == word;
            assert(history::word_in(a, ks, front[i]));
            let k = choose|k: int|
                0 <= k < ks.len() && #[trigger] history::word_at(a, ks, k) == front[i];
            assert(pairs[k].0 == ks[k]);
            assert(ks[k] < a.len());
            assert(b[ks[k] as int] == word);
            assert(ks[k] == term);
        }
    }
    assert forall|i: int| 0 <= i < out.len() implies (#[trigger] out[i]).0 < b.len() && out[i].1
        == capped(all.to_multiset().count(b[out[i].0 as int])) by {
        if i < pairs.len() {
            assert(out[i].0 == pairs[i].0);
            assert(pairs[i].0 < a.len());
            assert(b[pairs[i].0 as int] == a[pairs[i].0 as int]);
            if i != at {
                assert(pairs[i].0 != term) by {
                    if at < pairs.len() {
                        if i < at {
                            assert(pairs[i].0 != pairs[at].0);
                        } else {
                            assert(pairs[at].0 != pairs[i].0);
                        }
                    }
                }
                assert(b[pairs[i].0 as int] != word);
            }
        }
    }
    if at < pairs.len() {
        lemma_sum_update(pairs, at, out[at]);
        assert(pairs[at].1 == capped(front.to_multiset().count(word))) by {
            assert(b[pairs[at].0 as int] == a[pairs[at].0 as int]);
        }
        if countable(all) {
            assert(all.to_multiset().count(word) <= 255);
        }
    } else {
        assert(out.drop_last() =~= pairs);
    }
}

proof fn lemma_counted(s: State, words: Seq<Seq<char>>)
    requires
        interner::distinct(s.terms),
        s.terms.len() <= NONE_U32,
        state::words_counted(s, words).2 is Ok,
    ensures
        ({
            let (t, pairs, _) = state::words_counted(s, words);
            &&& interner::distinct(t.terms)
            &&& t.terms.len() <= NONE_U32
            &&& counted(t.terms, pairs, words)
            &&& countable(words) ==> sum(pairs) == words.len()
        }),
    decreases words.len(),
{
    broadcast use vstd::seq_lib::group_to_multiset_ensures;

    if words.len() > 0 {
        let front = words.drop_last();
        let word = words.last();
        lemma_counted(s, front);
        indexing::lemma_words_spelled(s, front);
        let (u, pairs, _) = state::words_counted(s, front);
        let (v, term) = state::term_interned(u, word);
        interner::interning_keeps_ids(u.terms, state::cap(u), state::blob_cap(u), word);
        lemma_bumped(u.terms, v.terms, pairs, front, term->Ok_0.0, word);
        assert(front.push(word) =~= words);
        assert(words.to_multiset() =~= front.to_multiset().insert(word));
        if countable(words) {
            assert forall|w: Seq<char>| (#[trigger] front.to_multiset().count(w)) <= 255 by {
                assert(words.to_multiset().count(w) <= 255);
            }
        }
    }
}

/// Every pushed term ends with the entry that was pushed.
proof fn lemma_pushed(
    v: Seq<List>,
    max_bytes: int,
    fact: FactId,
    pairs: Seq<(u32, u8)>,
    n: int,
)
    requires
        postings::lists_ok(true, v),
        bm25::ids_below(v, fact.0 as int),
        bm25::terms_once(pairs),
        0 <= n <= pairs.len(),
        bm25::pushed_all(true, v, max_bytes, bm25::doc_items(fact.0, pairs).take(n)).1 is Ok,
    ensures
        forall|i: int|
            0 <= i < n ==> postings::entries_of(
                bm25::pushed_all(true, v, max_bytes, bm25::doc_items(fact.0, pairs).take(n)).0,
                (#[trigger] pairs[i]).0,
            ) == postings::entries_of(v, pairs[i].0).push((fact.0, pairs[i].1)),
    decreases n,
{
    let items = bm25::doc_items(fact.0, pairs);
    if n > 0 {
        bm25::lemma_items(fact.0, pairs, n - 1);
        lemma_pushed(v, max_bytes, fact, pairs, n - 1);
        bm25::lemma_pushed_ids(v, max_bytes, fact.0, pairs, n - 1);
        let mid = bm25::pushed_all(true, v, max_bytes, items.take(n - 1)).0;
        let out = bm25::pushed_all(true, v, max_bytes, items.take(n)).0;
        let key = pairs[n - 1].0;
        let e = (fact.0, pairs[n - 1].1);
        assert(postings::entries_of(mid, key) == postings::entries_of(v, key));
        postings::appending_touches_one_list(true, mid, key, e);
        assert(out == postings::with_entry(mid, key, e));
        assert forall|i: int| 0 <= i < n implies postings::entries_of(out, (#[trigger] pairs[i]).0)
            == postings::entries_of(v, pairs[i].0).push((fact.0, pairs[i].1)) by {
            if i < n - 1 {
                assert(pairs[i].0 != pairs[n - 1].0);
            }
        }
    }
}

proof fn lemma_doc_len(doc: DocLenSlot, pairs: Seq<(u32, u8)>)
    ensures
        bm25::with_terms(doc, pairs).len == doc.len,
        bm25::with_terms(doc, pairs).fact == doc.fact,
    decreases pairs.len(),
{
    if pairs.len() > 0 {
        lemma_doc_len(doc, pairs.drop_last());
    }
}

/// The words of an indexed document are counted in it.
proof fn lemma_words_noted(s: State, fact: FactId, pairs: Seq<(u32, u8)>, words: Seq<Seq<char>>)
    requires
        postings::lists_ok(true, s.bm25.postings),
        bm25::ids_below(s.bm25.postings, fact.0 as int),
        bm25::terms_once(pairs),
        history::spells(s.terms, indexing::keys_of(pairs), words),
        counted(s.terms, pairs, words),
        state::doc_added(s, fact, pairs).1 is Ok,
    ensures
        forall|i: int|
            0 <= i < words.len() ==> noted(
                s.terms,
                state::doc_added(s, fact, pairs).0.bm25.postings,
                #[trigger] words[i],
                fact,
                capped(words.to_multiset().count(words[i])),
            ),
{
    let items = bm25::doc_items(fact.0, pairs);
    assert(items.take(pairs.len() as int) =~= items);
    lemma_pushed(s.bm25.postings, state::cap(s), fact, pairs, pairs.len() as int);
    let out = state::doc_added(s, fact, pairs).0.bm25.postings;
    let ks = indexing::keys_of(pairs);
    reveal(history::spells);
    assert forall|i: int| 0 <= i < words.len() implies noted(
        s.terms,
        out,
        #[trigger] words[i],
        fact,
        capped(words.to_multiset().count(words[i])),
    ) by {
        assert(history::word_in(s.terms, ks, words[i]));
        let k = choose|k: int|
            0 <= k < ks.len() && #[trigger] history::word_at(s.terms, ks, k) == words[i];
        let p = pairs[k];
        assert(ks[k] == p.0);
        assert(postings::entries_of(out, p.0).last() == (fact.0, p.1));
    }
}

/// A text of so many words, as the index measures it.
pub open spec fn measured(b: Bm25State, c: Bm25State, fact: FactId, words: Seq<Seq<char>>) -> bool {
    &&& match table::row_of(c.docs, fact.0 as int) {
        Some(d) => d.fact == fact && (countable(words) ==> d.len == if words.len() > u16::MAX {
            u16::MAX as int
        } else {
            words.len() as int
        }),
        None => false,
    }
    &&& c.total_docs == b.total_docs + 1
    &&& countable(words) && b.total_len + words.len() <= u64::MAX ==> c.total_len == b.total_len
        + words.len()
}

proof fn lemma_measured(s: State, fact: FactId, pairs: Seq<(u32, u8)>, words: Seq<Seq<char>>)
    requires
        countable(words) ==> sum(pairs) == words.len(),
        whole::docs_whole(s.bm25.docs, s.bm25.total_docs, fact.0),
        state::doc_added(s, fact, pairs).1 is Ok,
    ensures
        measured(s.bm25, state::doc_added(s, fact, pairs).0.bm25, fact, words),
{
    let blank = bm25::blank_doc(fact, bm25::doc_tokens(pairs));
    let doc = bm25::with_terms(blank, pairs);
    lemma_doc_len(blank, pairs);
    lemma_tokens(pairs);
    table::lemma_append(s.bm25.docs, doc);
    table::lemma_with_row(s.bm25.docs, doc);
    assert(table::has_room(s.bm25.docs, state::cap(s)));
    assert((s.bm25.docs.len() + 1) * 16 <= s.cfg.max_bytes);
}

/// More terms do not hide a count.
proof fn lemma_still_noted(
    a: Seq<Seq<char>>,
    b: Seq<Seq<char>>,
    v: Seq<List>,
    word: Seq<char>,
    fact: FactId,
    n: int,
)
    requires
        noted(a, v, word, fact, n),
        a.is_prefix_of(b),
    ensures
        noted(b, v, word, fact, n),
{
    let k = choose|k: u32|
        k < a.len() && a[k as int] == word && indexing::listed(v, k, fact)
            && (#[trigger] postings::entries_of(v, k)).last().1 == n;
    assert(a[k as int] == b.subrange(0, a.len() as int)[k as int]);
}

/// A remembered text is counted: the index says of each of its words how often
/// it occurs, up to 255, and the document is as long as the text has words,
/// where no word occurs more often than that.
pub proof fn a_remembered_text_is_counted(s: State, input: InputView, revises: FactId)
    requires
        state::inv(s),
        interner::distinct(s.terms),
        s.terms.len() <= NONE_U32,
        postings::lists_ok(true, s.bm25.postings),
        postings::lists_ok(false, s.tags_idx),
        postings::lists_ok(false, s.entity_facts),
        whole::docs_whole(s.bm25.docs, s.bm25.total_docs, s.next_fact),
        state::remembered(s, input, revises).1 is Ok,
    ensures
        ({
            let t = state::remembered(s, input, revises).0;
            let id = FactId(s.next_fact);
            let words = state::tokens(input.text);
            &&& forall|i: int|
                0 <= i < words.len() ==> noted(
                    t.terms,
                    t.bm25.postings,
                    #[trigger] words[i],
                    id,
                    capped(words.to_multiset().count(words[i])),
                )
            &&& measured(s.bm25, t.bm25, id, words)
        }),
{
    reveal(state::remembered);
    let id = FactId(s.next_fact);
    let words = state::tokens(input.text);
    let (t1, entity) = state::subject_resolved(s, input);
    if let Some(name) = input.entity {
        history::lemma_entity_grown(s, name, input.now);
        interner::interning_keeps_ids(
            s.terms,
            state::cap(s),
            state::blob_cap(s),
            state::normalized(name),
        );
    } else {
        history::lemma_same_terms(s, t1);
    }
    assert(t1.terms.len() <= NONE_U32) by {
        reveal(history::terms_grown);
    }
    let (t2, text) = state::text_stored(t1, encode_utf8(input.text));
    let (t3, pairs, _) = state::words_counted(t2, words);
    indexing::lemma_words_spelled(t2, words);
    history::lemma_words_grown(t2, words);
    indexing::lemma_words_next(t2, words);
    lemma_counted(t2, words);
    lemma_words_noted(t3, id, pairs, words);
    lemma_measured(t3, id, pairs, words);
    let t4 = state::doc_added(t3, id, pairs).0;
    indexing::lemma_finished(t4, entity->Ok_0, text->Ok_0, input, revises);
    let t = state::remembered(s, input, revises).0;
    assert forall|i: int| 0 <= i < words.len() implies noted(
        t.terms,
        t.bm25.postings,
        #[trigger] words[i],
        id,
        capped(words.to_multiset().count(words[i])),
    ) by {
        lemma_still_noted(
            t3.terms,
            t.terms,
            t.bm25.postings,
            words[i],
            id,
            capped(words.to_multiset().count(words[i])),
        );
    }
}

} // verus!
