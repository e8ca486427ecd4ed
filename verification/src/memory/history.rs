//! What the verbs do to what can be read.
//!
//! A remembered fact reads back as it was given and disturbs no other. A
//! revision hands over at one instant and keeps its predecessor. A forgotten
//! fact is gone for readers.

use crate::error::Error;
use crate::id::{BlobId, EntityId, FactId, NONE_U32};
use crate::memory;
use crate::memory::compaction;
use crate::memory::links;
use crate::memory::maintain;
use crate::memory::replay;
use crate::memory::state;
use crate::memory::state::{InputView, State};
use crate::memory::whole;
use crate::model;
use crate::model::{FactAux, FactRecord, Slot, TemporalSlot, VALID_TO_OPEN};
use crate::table;
use vstd::prelude::*;
use vstd::utf8::*;

verus! {

/// The facts and their times are the same, and no text was lost.
pub open spec fn quiet(s: State, t: State) -> bool {
    t.facts == s.facts && t.temporal == s.temporal && t.next_fact == s.next_fact
        && compaction::extends(s.texts, t.texts)
}

/// The temporal rows with that of one more fact.
pub open spec fn timed_after(rows: Seq<TemporalSlot>, f: FactRecord) -> Seq<TemporalSlot> {
    let row = TemporalSlot { recorded_at: f.recorded_at, fact: f.id };
    if table::has_key(rows, row.key()) {
        rows
    } else {
        table::with_row(rows, row)
    }
}

proof fn lemma_quiet(s: State, t: State, u: State)
    requires
        quiet(s, t),
        quiet(t, u),
    ensures
        quiet(s, u),
{
    assert forall|i: int| 0 <= i < s.texts.len() implies #[trigger] u.texts[i] == s.texts[i] by {
        assert(t.texts[i] == s.texts[i]);
    }
}

proof fn lemma_words_quiet(s: State, words: Seq<Seq<char>>)
    ensures
        quiet(s, state::words_counted(s, words).0),
    decreases words.len(),
{
    if words.len() > 0 {
        lemma_words_quiet(s, words.drop_last());
    }
}

proof fn lemma_tags_quiet(s: State, tags: Seq<Seq<char>>, fact: FactId)
    ensures
        quiet(s, state::tags_added(s, tags, fact).0),
    decreases tags.len(),
{
    if tags.len() > 0 {
        lemma_tags_quiet(s, tags.drop_last(), fact);
    }
}

pub proof fn lemma_link_quiet(
    s: State,
    src: EntityId,
    link: (Seq<char>, Seq<char>),
    fact: FactId,
    now: u64,
)
    ensures
        quiet(s, state::link_added(s, src, link, fact, now).0),
{
    let (t, dst) = state::entity_resolved(s, link.1, now);
    assert(quiet(s, t));
    if dst is Ok {
        let (u, rel) = state::term_interned(t, link.0);
        if rel is Ok {
            let v = state::edge_upserted(u, src, rel->Ok_0, dst->Ok_0, fact, now).0;
            assert(v.facts == u.facts && v.temporal == u.temporal && v.texts == u.texts
                && v.next_fact == u.next_fact);
        }
    }
}

proof fn lemma_links_quiet(
    s: State,
    src: EntityId,
    list: Seq<(Seq<char>, Seq<char>)>,
    fact: FactId,
    now: u64,
)
    ensures
        quiet(s, state::links_added(s, src, list, fact, now).0),
    decreases list.len(),
{
    if list.len() > 0 {
        lemma_links_quiet(s, src, list.drop_last(), fact, now);
        let t = state::links_added(s, src, list.drop_last(), fact, now).0;
        lemma_link_quiet(t, src, list.last(), fact, now);
        lemma_quiet(s, t, state::link_added(t, src, list.last(), fact, now).0);
    }
}

/// Up to the record itself nothing that can be read changes.
proof fn lemma_finished(
    s: State,
    entity: Option<EntityId>,
    text: BlobId,
    input: InputView,
    revises: FactId,
)
    requires
        replay::numbered(s),
        s.next_fact < NONE_U32,
        state::fact_finished(s, entity, text, input, revises).1 is Ok,
    ensures
        ({
            let t = state::fact_finished(s, entity, text, input, revises).0;
            &&& t.facts == s.facts.push(
                state::new_record(FactId(s.next_fact), entity, text, revises, input),
            )
            &&& t.next_fact == s.next_fact + 1
            &&& t.temporal == timed_after(s.temporal, t.facts.last())
            &&& compaction::extends(s.texts, t.texts)
        }),
{
    let id = FactId(s.next_fact);
    let (t1, list, _) = state::tags_added(s, input.tags, id);
    lemma_tags_quiet(s, input.tags, id);
    let (t2, tags) = state::tags_stored(t1, list);
    let (t3, meta) = state::meta_stored(t2, input.metadata);
    let t4 = state::aux_added(t3, FactAux { id, tags: tags->Ok_0, meta: meta->Ok_0 }).0;
    let t5 = state::subject_linked(t4, entity, input.links, id, input.now).0;
    assert(quiet(t1, t4));
    lemma_quiet(s, t1, t4);
    if let Some(src) = entity {
        lemma_links_quiet(t4, src, input.links, id, input.now);
    }
    assert(quiet(t4, t5));
    lemma_quiet(s, t4, t5);
    let f = state::new_record(id, entity, text, revises, input);
    table::lemma_append(s.facts, f);
}

/// The record of a remembered fact stands behind the others, its text is
/// stored, and no text was lost.
pub proof fn lemma_remembered(s: State, input: InputView, revises: FactId)
    requires
        replay::numbered(s),
        state::remembered(s, input, revises).1 is Ok,
    ensures
        ({
            let (t, r) = state::remembered(s, input, revises);
            let f = t.facts.last();
            let id = FactId(s.next_fact);
            &&& r == Ok::<_, Error>((id, r->Ok_0.1))
            &&& f == state::new_record(id, r->Ok_0.1, f.text, revises, input)
            &&& t.texts[f.text.0 as int] == encode_utf8(input.text)
            &&& compaction::extends(s.texts, t.texts)
            &&& state::fact_of(t, id) == Some(f)
            &&& t.temporal == timed_after(s.temporal, f)
            &&& t.next_fact == s.next_fact + 1
            &&& replay::numbered(t)
            &&& forall|other: FactId|
                other != id ==> #[trigger] state::fact_of(t, other) == state::fact_of(s, other)
        }),
{
    reveal(state::remembered);
    let id = FactId(s.next_fact);
    let (t1, entity) = state::subject_resolved(s, input);
    assert(quiet(s, t1));
    let (t2, text) = state::text_stored(t1, encode_utf8(input.text));
    assert(quiet(t1, t2));
    lemma_quiet(s, t1, t2);
    let (t3, pairs, _) = state::words_counted(t2, state::tokens(input.text));
    lemma_words_quiet(t2, state::tokens(input.text));
    lemma_quiet(s, t2, t3);
    let t4 = state::doc_added(t3, id, pairs).0;
    assert(quiet(t3, t4));
    lemma_quiet(s, t3, t4);
    lemma_finished(t4, entity->Ok_0, text->Ok_0, input, revises);
    let t = state::remembered(s, input, revises).0;
    let f = state::new_record(id, entity->Ok_0, text->Ok_0, revises, input);
    table::lemma_append(s.facts, f);
    table::lemma_with_row(s.facts, f);
    assert(t.texts[text->Ok_0.0 as int] == encode_utf8(input.text)) by {
        assert(t3.texts[text->Ok_0.0 as int] == encode_utf8(input.text));
        assert(t4.texts[text->Ok_0.0 as int] == encode_utf8(input.text));
    }
    assert forall|i: int| 0 <= i < s.texts.len() implies #[trigger] t.texts[i] == s.texts[i] by {
        assert(t4.texts[i] == s.texts[i]);
    }
}

/// A remembered fact gets the next id and reads back as it was given; every
/// other fact reads as before.
pub proof fn a_remembered_fact_reads_back(s: State, input: InputView, revises: FactId)
    requires
        replay::numbered(s),
        state::inv(s),
        state::remembered(s, input, revises).1 is Ok,
    ensures
        ({
            let (t, r) = state::remembered(s, input, revises);
            let (id, entity) = r->Ok_0;
            &&& id.0 == s.next_fact
            &&& match state::read_fact(t, id) {
                Some((f, text)) => text == input.text && f == state::new_record(
                    id,
                    entity,
                    f.text,
                    revises,
                    input,
                ),
                None => false,
            }
            &&& forall|other: FactId|
                other != id ==> #[trigger] state::read_fact(t, other) == state::read_fact(s, other)
        }),
{
    lemma_remembered(s, input, revises);
    let (t, r) = state::remembered(s, input, revises);
    memory::lemma_no_flags();
    encode_utf8_valid_utf8(input.text);
    encode_utf8_decode_utf8(input.text);
    assert forall|other: FactId| other != r->Ok_0.0 implies #[trigger] state::read_fact(t, other)
        == state::read_fact(s, other) by {
        assert(state::fact_of(t, other) == state::fact_of(s, other));
        lemma_same_read(s, t, other);
    }
}

/// A fact whose record is the same reads the same while texts are only added.
proof fn lemma_same_read(s: State, t: State, fact: FactId)
    requires
        replay::numbered(s),
        state::refs(s),
        state::fact_of(t, fact) == state::fact_of(s, fact),
        compaction::extends(s.texts, t.texts),
    ensures
        state::read_fact(t, fact) == state::read_fact(s, fact),
{
    table::lemma_rank(s.facts, fact.0 as int);
    if table::has_key(s.facts, fact.0 as int) {
        let f = s.facts[table::rank(s.facts, fact.0 as int)];
        assert(state::fact_ok(s, f));
        assert(t.texts[f.text.0 as int] == s.texts[f.text.0 as int]);
    }
}

/// The state that a revision leaves.
pub open spec fn revised(s: State, target: FactId, input: InputView) -> State {
    state::target_closed(state::remembered(s, input, target).0, target, state::start_of(input))
}

/// What replacing one record by another of the same fact does to readers.
pub proof fn lemma_record_replaced(s: State, f: FactRecord, g: FactRecord)
    requires
        table::ascending(s.facts),
        table::row_of(s.facts, f.id.0 as int) == Some(f),
        g.id == f.id,
    ensures
        ({
            let t = State { facts: table::replaced(s.facts, g), ..s };
            &&& state::fact_of(t, f.id) == Some(g)
            &&& forall|other: FactId|
                other != f.id ==> #[trigger] state::fact_of(t, other) == state::fact_of(s, other)
        }),
{
    links::lemma_row(s.facts, f.id.0 as int);
    table::lemma_replaced(s.facts, g);
}

/// A revision hands over at the start of the new fact: the old one stays on
/// record with its text, live until that start and no longer, and the new one
/// is live from then on and names its predecessor. They are never live
/// together, the old one cannot be revised again, and all other facts read as
/// before.
pub open spec fn handed_over(s: State, u: State, target: FactId, input: InputView) -> bool {
    let id = FactId(s.next_fact);
    let start = state::start_of(input);
    &&& match (state::fact_of(s, target), state::fact_of(u, target)) {
        (Some(f), Some(g)) => {
            &&& g == state::fact_closed_at(f, start)
            &&& g.closed()
            &&& u.texts[g.text.0 as int] == s.texts[f.text.0 as int]
            &&& forall|t: u64| #[trigger]
                g.live_at(t) <==> f.recorded_at <= t && f.valid_from <= t && t < start
            &&& match state::read_fact(u, id) {
                Some((n, text)) => {
                    &&& text == input.text
                    &&& n == state::new_record(id, n.subject(), n.text, target, input)
                    &&& forall|t: u64| #[trigger]
                        n.live_at(t) <==> input.now <= t && start <= t && t < VALID_TO_OPEN
                    &&& forall|t: u64| !(#[trigger] g.live_at(t) && n.live_at(t))
                },
                None => false,
            }
        },
        _ => false,
    }
    &&& state::revise_error(u, target) == Some(Error::AlreadyClosed(target))
    &&& u.next_fact == s.next_fact + 1
    &&& forall|other: FactId|
        other != id && other != target ==> #[trigger] state::read_fact(u, other)
            == state::read_fact(s, other)
}

/// Revising an open fact hands over.
pub proof fn a_revision_hands_over(s: State, target: FactId, input: InputView)
    requires
        replay::numbered(s),
        state::inv(s),
        state::revise_error(s, target) is None,
        state::remembered(s, input, target).1 is Ok,
    ensures
        handed_over(s, revised(s, target, input), target, input),
{
    let m = state::remembered(s, input, target).0;
    let u = revised(s, target, input);
    let id = FactId(s.next_fact);
    let start = state::start_of(input);
    let f = state::fact_of(s, target)->0;
    links::lemma_row(s.facts, target.0 as int);
    table::lemma_rank(s.facts, target.0 as int);
    assert(state::fact_ok(s, f));
    a_remembered_fact_reads_back(s, input, target);
    lemma_remembered(s, input, target);
    assert(state::fact_of(m, target) == Some(f));
    let g = state::fact_closed_at(f, start);
    let x = f.flags;
    assert((x | model::fact_flags::CLOSED) & model::fact_flags::TOMBSTONE == x
        & model::fact_flags::TOMBSTONE && (x | model::fact_flags::CLOSED)
        & model::fact_flags::CLOSED != 0) by (bit_vector);
    lemma_record_replaced(m, f, g);
    memory::lemma_no_flags();
    assert(state::fact_of(u, id) == state::fact_of(m, id));
    let n = m.facts.last();
    assert(state::read_fact(u, id) == state::read_fact(m, id));
    assert forall|other: FactId| other != id && other != target implies #[trigger] state::read_fact(
        u,
        other,
    ) == state::read_fact(s, other) by {
        assert(state::fact_of(u, other) == state::fact_of(m, other));
        assert(state::read_fact(m, other) == state::read_fact(s, other));
    }
}

/// A forgotten fact is gone for readers: it has no text and no tags, and no
/// instant admits it. Its record and its id stay, every other fact reads as
/// before, and forgetting it again changes nothing.
pub open spec fn let_go(s: State, t: State, fact: FactId) -> bool {
    &&& state::read_fact(t, fact) is None
    &&& state::fact_tags(t, fact) == Seq::<crate::id::TermId>::empty()
    &&& state::fact_of(t, fact) is Some
    &&& forall|as_of: u64| !#[trigger] (state::fact_of(t, fact)->0).live_at(as_of)
    &&& t.facts.len() == s.facts.len()
    &&& t.next_fact == s.next_fact
    &&& state::forgotten(t, fact) == (t, Ok::<bool, Error>(false))
    &&& forall|other: FactId|
        other != fact ==> #[trigger] state::read_fact(t, other) == state::read_fact(s, other)
}

/// Forgetting a fact on record lets it go.
pub proof fn a_forgotten_fact_is_gone(s: State, fact: FactId)
    requires
        table::ascending(s.facts),
        state::fact_of(s, fact) is Some,
    ensures
        let_go(s, state::forgotten(s, fact).0, fact),
        state::forgotten(s, fact).1 == Ok::<bool, Error>(
            !state::fact_of(s, fact)->0.tombstone(),
        ),
{
    let f = state::fact_of(s, fact)->0;
    let t = state::forgotten(s, fact).0;
    links::lemma_row(s.facts, fact.0 as int);
    let x = f.flags;
    assert((x | model::fact_flags::TOMBSTONE) & model::fact_flags::TOMBSTONE != 0) by (bit_vector);
    if !f.tombstone() {
        lemma_record_replaced(s, f, state::fact_forgotten(f));
        table::lemma_replaced(s.facts, state::fact_forgotten(f));
        assert(t.facts == table::replaced(s.facts, state::fact_forgotten(f)));
        let u = State { facts: t.facts, ..s };
        assert(state::fact_of(t, fact) == state::fact_of(u, fact));
        assert forall|other: FactId| other != fact implies #[trigger] state::read_fact(t, other)
            == state::read_fact(s, other) by {
            assert(state::fact_of(u, other) == state::fact_of(s, other));
        }
    }
    assert(state::fact_of(t, fact)->0.tombstone());
    assert(state::fact_tags(t, fact) =~= Seq::empty());
    assert(state::forgotten(t, fact) == (t, Ok::<bool, Error>(false)));
}

/// The indexes and the auxiliary records are the same.
pub open spec fn indexes_same(s: State, t: State) -> bool {
    &&& t.aux == s.aux
    &&& t.tag_lists == s.tag_lists
    &&& t.bm25 == s.bm25
    &&& t.tags_idx == s.tags_idx
    &&& t.entity_facts == s.entity_facts
}

/// The terms are valid, and those that were there keep their ids.
#[verifier::opaque]
pub open spec fn terms_grown(s: State, t: State) -> bool {
    &&& s.terms.is_prefix_of(t.terms)
    &&& s.terms.len() <= NONE_U32 ==> t.terms.len() <= NONE_U32
}

pub proof fn lemma_terms_grown(s: State, t: State, u: State)
    requires
        terms_grown(s, t),
        terms_grown(t, u),
    ensures
        terms_grown(s, u),
{
    reveal(terms_grown);
    assert forall|i: int| 0 <= i < s.terms.len() implies s.terms[i] == u.terms[i] by {
        assert(s.terms[i] == t.terms[i]);
    }
    assert(s.terms =~= u.terms.subrange(0, s.terms.len() as int));
}

pub proof fn lemma_same_terms(s: State, t: State)
    requires
        t.terms == s.terms,
    ensures
        terms_grown(s, t),
{
    reveal(terms_grown);
    assert(s.terms =~= t.terms.subrange(0, s.terms.len() as int));
}

/// Resolving a name keeps the terms.
pub proof fn lemma_entity_grown(s: State, name: Seq<char>, now: u64)
    ensures
        ({
            let t = state::entity_resolved(s, name, now).0;
            terms_grown(s, t) && indexes_same(s, t)
        }),
{
    let t = state::entity_resolved(s, name, now).0;
    let u = state::term_interned(s, state::normalized(name)).0;
    lemma_term_grown(s, state::normalized(name));
    if t.terms == s.terms {
        lemma_same_terms(s, t);
    } else {
        lemma_same_terms(u, t);
        lemma_terms_grown(s, u, t);
    }
}

pub proof fn lemma_term_grown(s: State, w: Seq<char>)
    ensures
        terms_grown(s, state::term_interned(s, w).0),
        s.terms.len() <= NONE_U32 ==> (state::term_interned(s, w).1 matches Ok(id) ==> {
            let t = state::term_interned(s, w).0;
            id.0 < t.terms.len() && t.terms[id.0 as int] == w
        }),
{
    reveal(terms_grown);
    let t = state::term_interned(s, w).0;
    assert(s.terms =~= t.terms.subrange(0, s.terms.len() as int));
    if s.terms.contains(w) {
        let i = s.terms.index_of(w);
        assert(0 <= i < s.terms.len() && s.terms[i] == w);
    }
}

pub proof fn lemma_links_grown(
    s: State,
    src: EntityId,
    list: Seq<(Seq<char>, Seq<char>)>,
    fact: FactId,
    now: u64,
)
    ensures
        ({
            let t = state::links_added(s, src, list, fact, now).0;
            terms_grown(s, t) && indexes_same(s, t)
        }),
    decreases list.len(),
{
    if list.len() == 0 {
        lemma_same_terms(s, s);
    } else {
        lemma_links_grown(s, src, list.drop_last(), fact, now);
        let (t, r) = state::links_added(s, src, list.drop_last(), fact, now);
        if r is Ok {
            let link = list.last();
            lemma_link_grown(t, src, link, fact, now);
            lemma_terms_grown(s, t, state::link_added(t, src, link, fact, now).0);
        }
    }
}

proof fn lemma_link_grown(
    s: State,
    src: EntityId,
    link: (Seq<char>, Seq<char>),
    fact: FactId,
    now: u64,
)
    ensures
        ({
            let t = state::link_added(s, src, link, fact, now).0;
            terms_grown(s, t) && indexes_same(s, t)
        }),
{
    let (u, dst) = state::entity_resolved(s, link.1, now);
    lemma_entity_grown(s, link.1, now);
    if dst is Ok {
        lemma_term_grown(u, link.0);
        let (v, rel) = state::term_interned(u, link.0);
        lemma_terms_grown(s, u, v);
        if rel is Ok {
            let w = state::edge_upserted(v, src, rel->Ok_0, dst->Ok_0, fact, now).0;
            assert(w.terms == v.terms && indexes_same(v, w));
            lemma_same_terms(v, w);
            lemma_terms_grown(s, v, w);
        }
    }
}

/// The word that id number `k` of a list stands for.
pub open spec fn word_at(terms: Seq<Seq<char>>, list: Seq<u32>, k: int) -> Seq<char> {
    terms[list[k] as int]
}

/// Some id of a list stands for a word.
pub open spec fn word_in(terms: Seq<Seq<char>>, list: Seq<u32>, word: Seq<char>) -> bool {
    exists|k: int| 0 <= k < list.len() && #[trigger] word_at(terms, list, k) == word
}

/// A list of term ids spells exactly some words.
#[verifier::opaque]
pub open spec fn spells(terms: Seq<Seq<char>>, list: Seq<u32>, words: Seq<Seq<char>>) -> bool {
    &&& forall|k: int| 0 <= k < list.len() ==> (#[trigger] list[k]) < terms.len()
    &&& forall|k: int|
        0 <= k < list.len() ==> words.contains(#[trigger] word_at(terms, list, k))
    &&& forall|i: int| 0 <= i < words.len() ==> word_in(terms, list, #[trigger] words[i])
}

pub proof fn lemma_still_spells(a: Seq<Seq<char>>, b: Seq<Seq<char>>, list: Seq<u32>, words: Seq<Seq<char>>)
    requires
        spells(a, list, words),
        a.is_prefix_of(b),
    ensures
        spells(b, list, words),
{
    reveal(spells);
    assert forall|k: int| 0 <= k < list.len() implies #[trigger] word_at(b, list, k) == word_at(
        a,
        list,
        k,
    ) by {
        assert(a[list[k] as int] == b.subrange(0, a.len() as int)[list[k] as int]);
    }
    assert forall|k: int| 0 <= k < list.len() implies words.contains(
        #[trigger] word_at(b, list, k),
    ) by {
        assert(words.contains(word_at(a, list, k)));
    }
    assert forall|i: int| 0 <= i < words.len() implies word_in(b, list, #[trigger] words[i]) by {
        assert(word_in(a, list, words[i]));
        let k = choose|k: int| 0 <= k < list.len() && #[trigger] word_at(a, list, k) == words[i];
        assert(word_at(b, list, k) == words[i]);
    }
}

/// One more word, already on the list or put behind it.
pub proof fn lemma_one_more_word(
    terms: Seq<Seq<char>>,
    xs: Seq<u32>,
    words: Seq<Seq<char>>,
    id: u32,
    word: Seq<char>,
)
    requires
        spells(terms, xs, words),
        id < terms.len(),
        terms[id as int] == word,
    ensures
        spells(
            terms,
            if xs.contains(id) {
                xs
            } else {
                xs.push(id)
            },
            words.push(word),
        ),
{
    reveal(spells);
    let list = if xs.contains(id) {
        xs
    } else {
        xs.push(id)
    };
    let all = words.push(word);
    assert(all[words.len() as int] == word);
    assert forall|k: int| 0 <= k < list.len() implies all.contains(
        #[trigger] word_at(terms, list, k),
    ) by {
        if k < xs.len() {
            assert(words.contains(word_at(terms, xs, k)));
            let i = choose|i: int| 0 <= i < words.len() && words[i] == word_at(terms, xs, k);
            assert(all[i] == words[i]);
        }
    }
    assert forall|i: int| 0 <= i < all.len() implies word_in(terms, list, #[trigger] all[i]) by {
        if i < words.len() {
            assert(word_in(terms, xs, words[i]));
            let k = choose|k: int|
                0 <= k < xs.len() && #[trigger] word_at(terms, xs, k) == words[i];
            assert(word_at(terms, list, k) == words[i]);
        } else if xs.contains(id) {
            let k = choose|k: int| 0 <= k < xs.len() && xs[k] == id;
            assert(word_at(terms, list, k) == word);
        } else {
            assert(word_at(terms, list, xs.len() as int) == word);
        }
    }
}

/// The ids that adding tags collects spell the tags.
pub proof fn lemma_tags_spelled(s: State, tags: Seq<Seq<char>>, fact: FactId)
    requires
        s.terms.len() <= NONE_U32,
        state::tags_added(s, tags, fact).2 is Ok,
    ensures
        ({
            let (t, list, _) = state::tags_added(s, tags, fact);
            &&& terms_grown(s, t)
            &&& list.len() <= tags.len()
            &&& spells(t.terms, list, tags)
            &&& t.aux == s.aux && t.tag_lists == s.tag_lists
        }),
    decreases tags.len(),
{
    let t = state::tags_added(s, tags, fact).0;
    if tags.len() == 0 {
        lemma_same_terms(s, t);
        reveal(spells);
    } else {
        let front = tags.drop_last();
        lemma_tags_spelled(s, front, fact);
        let (u, xs, _) = state::tags_added(s, front, fact);
        let tag = tags.last();
        lemma_term_grown(u, tag);
        let (v, term) = state::term_interned(u, tag);
        assert(u.terms.len() <= NONE_U32 && u.terms.is_prefix_of(v.terms)) by {
            reveal(terms_grown);
        }
        lemma_same_terms(v, t);
        lemma_terms_grown(s, u, v);
        lemma_terms_grown(s, v, t);
        lemma_still_spells(u.terms, v.terms, xs, front);
        lemma_one_more_word(v.terms, xs, front, term->Ok_0.0, tag);
        assert(front.push(tag) =~= tags);
    }
}

/// The stored tags of a remembered fact spell the tags it was given.
proof fn lemma_remembered_tags(s: State, input: InputView, revises: FactId)
    requires
        whole::whole(s),
        s.terms.len() <= NONE_U32,
        input.tags.len() <= 32,
        state::remembered(s, input, revises).1 is Ok,
    ensures
        ({
            let t = state::remembered(s, input, revises).0;
            match table::row_of(t.aux, s.next_fact as int) {
                Some(a) => spells(t.terms, maintain::tag_ids(t, a.tags), input.tags),
                None => false,
            }
        }),
{
    reveal(state::remembered);
    let id = FactId(s.next_fact);
    let (t1, entity) = state::subject_resolved(s, input);
    if let Some(name) = input.entity {
        lemma_entity_grown(s, name, input.now);
    } else {
        lemma_same_terms(s, t1);
    }
    let (t2, text) = state::text_stored(t1, encode_utf8(input.text));
    let (t3, pairs, _) = state::words_counted(t2, state::tokens(input.text));
    lemma_words_grown(t2, state::tokens(input.text));
    lemma_words_quiet(t2, state::tokens(input.text));
    assert(t3.terms.len() <= NONE_U32) by {
        reveal(terms_grown);
    }
    let t4 = state::doc_added(t3, id, pairs).0;
    lemma_tags_of(t4, entity->Ok_0, text->Ok_0, input, revises);
}

/// A remembered fact carries the tags it was given: each of them, and no
/// other.
pub proof fn a_remembered_fact_carries_its_tags(s: State, input: InputView, revises: FactId)
    requires
        whole::whole(s),
        s.terms.len() <= NONE_U32,
        input.tags.len() <= 32,
        state::remembered(s, input, revises).1 is Ok,
    ensures
        ({
            let t = state::remembered(s, input, revises).0;
            let read = state::fact_tags(t, FactId(s.next_fact));
            spells(t.terms, Seq::new(read.len(), |k: int| read[k].0), input.tags)
        }),
{
    lemma_remembered(s, input, revises);
    lemma_remembered_tags(s, input, revises);
    memory::lemma_no_flags();
    let t = state::remembered(s, input, revises).0;
    let a = table::row_of(t.aux, s.next_fact as int)->0;
    let read = state::fact_tags(t, FactId(s.next_fact));
    assert(Seq::new(read.len(), |k: int| read[k].0) =~= maintain::tag_ids(t, a.tags));
}

pub proof fn lemma_words_grown(s: State, words: Seq<Seq<char>>)
    ensures
        ({
            let t = state::words_counted(s, words).0;
            terms_grown(s, t) && indexes_same(s, t)
        }),
    decreases words.len(),
{
    if words.len() == 0 {
        lemma_same_terms(s, s);
    } else {
        lemma_words_grown(s, words.drop_last());
        let t = state::words_counted(s, words.drop_last()).0;
        lemma_term_grown(t, words.last());
        lemma_terms_grown(s, t, state::term_interned(t, words.last()).0);
    }
}

/// The stored tags of a finished fact.
proof fn lemma_tags_of(
    s: State,
    entity: Option<EntityId>,
    text: BlobId,
    input: InputView,
    revises: FactId,
)
    requires
        whole::aux_whole(s.aux, s.tag_lists, s.next_fact),
        s.next_fact < NONE_U32,
        s.terms.len() <= NONE_U32,
        input.tags.len() <= 32,
        state::fact_finished(s, entity, text, input, revises).1 is Ok,
    ensures
        ({
            let t = state::fact_finished(s, entity, text, input, revises).0;
            let list = state::tags_added(s, input.tags, FactId(s.next_fact)).1;
            &&& spells(t.terms, list, input.tags)
            &&& match table::row_of(t.aux, s.next_fact as int) {
                Some(a) => maintain::tag_ids(t, a.tags) == list,
                None => false,
            }
        }),
{
    let id = FactId(s.next_fact);
    let (t1, list, _) = state::tags_added(s, input.tags, id);
    lemma_tags_spelled(s, input.tags, id);
    let (t2, tags) = state::tags_stored(t1, list);
    compaction::lemma_tags_stored(t1, list);
    let (t3, meta) = state::meta_stored(t2, input.metadata);
    let a = FactAux { id, tags: tags->Ok_0, meta: meta->Ok_0 };
    let t4 = state::aux_added(t3, a).0;
    whole::lemma_aux_added(s.aux, s.tag_lists, s.next_fact, a, state::tag_bytes(list));
    table::lemma_with_row(s.aux, a);
    let t5 = state::subject_linked(t4, entity, input.links, id, input.now).0;
    lemma_same_terms(t1, t4);
    if let Some(src) = entity {
        lemma_links_grown(t4, src, input.links, id, input.now);
        lemma_same_terms(state::links_added(t4, src, input.links, id, input.now).0, t5);
        lemma_terms_grown(
            t4,
            state::links_added(t4, src, input.links, id, input.now).0,
            t5,
        );
    } else {
        lemma_same_terms(t4, t5);
    }
    lemma_terms_grown(t1, t4, t5);
    reveal(terms_grown);
    lemma_still_spells(t1.terms, t5.terms, list, input.tags);
    let t = state::fact_finished(s, entity, text, input, revises).0;
    assert(maintain::tag_ids(t, a.tags) =~= maintain::tag_ids(t2, a.tags));
}

} // verus!
