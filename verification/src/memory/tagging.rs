//! The tag index keeps step with the tag lists: a fact that it lists under a
//! term carries that term as a tag.

use crate::id::{BlobId, EntityId, FactId, NONE_U32};
use crate::index::bm25;
use crate::index::postings;
use crate::memory::compaction;
use crate::memory::history;
use crate::memory::indexing;
use crate::memory::links;
use crate::memory::maintain;
use crate::memory::state;
use crate::memory::state::{InputView, State};
use crate::memory::whole;
use crate::model;
use crate::model::FactAux;
use crate::table;
use vstd::prelude::*;
use vstd::utf8::*;

verus! {

/// The auxiliary record of a fact holds a term among its tags.
pub open spec fn tag_held(s: State, term: u32, fact: u32) -> bool {
    match table::row_of(s.aux, fact as int) {
        Some(a) => maintain::tag_ids(s, a.tags).contains(term) && (a.tags != model::empty_handle()
            ==> a.tags.list < s.tag_lists.len()),
        None => false,
    }
}

/// Whatever the tag index lists under a term carries it.
#[verifier::opaque]
pub open spec fn tagged(s: State) -> bool {
    &&& postings::lists_ok(false, s.tags_idx)
    &&& forall|k: u32, j: int|
        0 <= j < postings::entries_of(s.tags_idx, k).len() ==> tag_held(
            s,
            k,
            (#[trigger] postings::entries_of(s.tags_idx, k)[j]).0,
        )
}

/// Tags depend on the index, the auxiliary records and the lists alone.
pub proof fn lemma_tagged_same(s: State, t: State)
    requires
        tagged(s),
        t.tags_idx == s.tags_idx,
        t.aux == s.aux,
        t.tag_lists == s.tag_lists,
    ensures
        tagged(t),
{
    reveal(tagged);
    assert forall|k: u32, j: int| 0 <= j < postings::entries_of(t.tags_idx, k).len() implies tag_held(
        t,
        k,
        (#[trigger] postings::entries_of(t.tags_idx, k)[j]).0,
    ) by {
        let id = postings::entries_of(s.tags_idx, k)[j].0;
        assert(tag_held(s, k, id));
        let a = table::row_of(s.aux, id as int)->0;
        compaction::lemma_same_ids(s, t, a.tags);
    }
}

/// No tag, nothing listed.
pub proof fn lemma_untagged(s: State)
    requires
        s.tags_idx.len() == 0,
    ensures
        tagged(s),
{
    reveal(tagged);
    assert forall|k: u32| (#[trigger] postings::entries_of(s.tags_idx, k)).len() == 0 by {
        postings::lemma_list_rank(false, s.tags_idx, k);
    }
}

/// Listed facts have auxiliary records, so they are below the next one.
proof fn lemma_ids_below(s: State, n: u32)
    requires
        tagged(s),
        whole::aux_whole(s.aux, s.tag_lists, n),
    ensures
        bm25::ids_below(s.tags_idx, n as int),
{
    reveal(tagged);
    assert forall|k: u32| (#[trigger] postings::entries_of(s.tags_idx, k)).len()
        > 0 implies postings::entries_of(s.tags_idx, k).last().0 < n by {
        let xs = postings::entries_of(s.tags_idx, k);
        let id = xs[xs.len() - 1].0;
        assert(tag_held(s, k, id));
        links::lemma_row(s.aux, id as int);
        table::lemma_rank(s.aux, id as int);
        assert(s.aux[table::rank(s.aux, id as int)].id.0 < n);
    }
}

/// One more fact: its tags listed, its record behind the others.
proof fn lemma_fact_tagged(s: State, t: State, keys: Seq<u32>, a: FactAux)
    requires
        tagged(s),
        whole::aux_whole(s.aux, s.tag_lists, a.id.0),
        indexing::appended_under(s.tags_idx, t.tags_idx, keys, a.id),
        table::row_of(t.aux, a.id.0 as int) == Some(a),
        forall|k: int|
            k != a.id.0 ==> #[trigger] table::row_of(t.aux, k) == table::row_of(s.aux, k),
        compaction::extends(s.tag_lists, t.tag_lists),
        a.tags != model::empty_handle() ==> a.tags.list < t.tag_lists.len(),
        forall|k: u32| keys.contains(k) ==> #[trigger] maintain::tag_ids(t, a.tags).contains(k),
    ensures
        tagged(t),
{
    reveal(tagged);
    lemma_ids_below(s, a.id.0);
    assert forall|k: u32, j: int| 0 <= j < postings::entries_of(t.tags_idx, k).len() implies tag_held(
        t,
        k,
        (#[trigger] postings::entries_of(t.tags_idx, k)[j]).0,
    ) by {
        let was = postings::entries_of(s.tags_idx, k);
        let now = postings::entries_of(t.tags_idx, k);
        if keys.contains(k) {
            let i = choose|i: int| 0 <= i < keys.len() && keys[i] == k;
            assert(postings::entries_of(t.tags_idx, keys[i]) == was.push((a.id.0, 1u8)));
        }
        if j < was.len() {
            assert(now[j] == was[j]);
            lemma_kept(s, t, a, k, j);
        } else {
            assert(keys.contains(k));
            assert(maintain::tag_ids(t, a.tags).contains(k));
        }
    }
}

/// An earlier entry stays held.
proof fn lemma_kept(s: State, t: State, a: FactAux, k: u32, j: int)
    requires
        tagged(s),
        whole::aux_whole(s.aux, s.tag_lists, a.id.0),
        forall|k: int|
            k != a.id.0 ==> #[trigger] table::row_of(t.aux, k) == table::row_of(s.aux, k),
        compaction::extends(s.tag_lists, t.tag_lists),
        0 <= j < postings::entries_of(s.tags_idx, k).len(),
    ensures
        tag_held(t, k, postings::entries_of(s.tags_idx, k)[j].0),
{
    reveal(tagged);
    let id = postings::entries_of(s.tags_idx, k)[j].0;
    assert(tag_held(s, k, id));
    let c = table::row_of(s.aux, id as int)->0;
    links::lemma_row(s.aux, id as int);
    table::lemma_rank(s.aux, id as int);
    assert(s.aux[table::rank(s.aux, id as int)].id.0 < a.id.0);
    assert(table::row_of(t.aux, id as int) == Some(c));
    compaction::lemma_same_ids(s, t, c.tags);
}

/// The tags of a finished fact are in step.
proof fn lemma_finished(
    s: State,
    entity: Option<EntityId>,
    text: BlobId,
    input: InputView,
    revises: FactId,
)
    requires
        tagged(s),
        whole::aux_whole(s.aux, s.tag_lists, s.next_fact),
        s.next_fact < NONE_U32,
        input.tags.len() <= 32,
        state::fact_finished(s, entity, text, input, revises).1 is Ok,
    ensures
        tagged(state::fact_finished(s, entity, text, input, revises).0),
{
    let id = FactId(s.next_fact);
    let (t1, list, _) = state::tags_added(s, input.tags, id);
    lemma_ids_below(s, s.next_fact);
    assert(postings::lists_ok(false, s.tags_idx)) by {
        reveal(tagged);
    }
    indexing::lemma_tags_listed(s, input.tags, id);
    lemma_tags_frame(s, input.tags, id);
    let (t2, tags) = state::tags_stored(t1, list);
    compaction::lemma_tags_stored(t1, list);
    let (t3, meta) = state::meta_stored(t2, input.metadata);
    let a = FactAux { id, tags: tags->Ok_0, meta: meta->Ok_0 };
    let t4 = state::aux_added(t3, a).0;
    whole::lemma_aux_added(s.aux, s.tag_lists, s.next_fact, a, state::tag_bytes(list));
    table::lemma_with_row(s.aux, a);
    compaction::lemma_same_ids(t2, t4, a.tags);
    assert(maintain::tag_ids(t4, a.tags) == list);
    lemma_fact_tagged(s, t4, list, a);
    let t5 = state::subject_linked(t4, entity, input.links, id, input.now).0;
    if let Some(src) = entity {
        history::lemma_links_grown(t4, src, input.links, id, input.now);
    }
    lemma_tagged_same(t4, state::fact_finished(s, entity, text, input, revises).0);
}

proof fn lemma_tags_frame(s: State, tags: Seq<Seq<char>>, fact: FactId)
    ensures
        state::tags_added(s, tags, fact).0.aux == s.aux,
        state::tags_added(s, tags, fact).0.tag_lists == s.tag_lists,
    decreases tags.len(),
{
    if tags.len() > 0 {
        lemma_tags_frame(s, tags.drop_last(), fact);
    }
}

/// Remembering keeps the tag index in step.
pub proof fn remembering_keeps_tags(s: State, input: InputView, revises: FactId)
    requires
        tagged(s),
        whole::aux_whole(s.aux, s.tag_lists, s.next_fact),
        input.tags.len() <= 32,
        state::remembered(s, input, revises).1 is Ok,
    ensures
        tagged(state::remembered(s, input, revises).0),
{
    reveal(state::remembered);
    let id = FactId(s.next_fact);
    let words = state::tokens(input.text);
    let (t1, entity) = state::subject_resolved(s, input);
    if let Some(name) = input.entity {
        history::lemma_entity_grown(s, name, input.now);
    }
    let (t2, text) = state::text_stored(t1, encode_utf8(input.text));
    let (t3, pairs, _) = state::words_counted(t2, words);
    history::lemma_words_grown(t2, words);
    let t4 = state::doc_added(t3, id, pairs).0;
    lemma_tagged_same(s, t4);
    lemma_words_next(t2, words);
    lemma_finished(t4, entity->Ok_0, text->Ok_0, input, revises);
}

proof fn lemma_words_next(s: State, words: Seq<Seq<char>>)
    ensures
        state::words_counted(s, words).0.next_fact == s.next_fact,
    decreases words.len(),
{
    if words.len() > 0 {
        lemma_words_next(s, words.drop_last());
    }
}

/// The tags that a rebuild lists anew.
pub proof fn lemma_carried_listed(b: State, tags: Seq<u32>, fact: FactId)
    requires
        postings::lists_ok(false, b.tags_idx),
        bm25::ids_below(b.tags_idx, fact.0 as int),
        maintain::tags_carried(b, tags, fact) is Ok,
    ensures
        ({
            let (c, list) = maintain::tags_carried(b, tags, fact)->Ok_0;
            indexing::appended_under(b.tags_idx, c.tags_idx, list, fact)
        }),
    decreases tags.len(),
{
    if tags.len() > 0 {
        lemma_carried_listed(b, tags.drop_last(), fact);
        let (c, list) = maintain::tags_carried(b, tags.drop_last(), fact)->Ok_0;
        if !list.contains(tags.last()) {
            indexing::lemma_one_more_key(b.tags_idx, c.tags_idx, list, fact, tags.last());
        }
    }
}

/// The auxiliary record of a fact carried over keeps the tag index in step.
pub proof fn lemma_aux_tagged(s: State, b: State, a: FactAux)
    requires
        state::aux_ok(s, a),
        a.id.0 < NONE_U32,
        whole::aux_whole(b.aux, b.tag_lists, a.id.0),
        tagged(b),
        maintain::aux_carried(s, b, a) is Ok,
    ensures
        tagged(maintain::aux_carried(s, b, a)->Ok_0),
{
    let ids = maintain::tag_ids(s, a.tags);
    compaction::lemma_tags_carried(b, ids, a.id);
    compaction::lemma_aux_carried(s, b, a);
    let (c, list) = maintain::tags_carried(b, ids, a.id)->Ok_0;
    lemma_ids_below(b, a.id.0);
    assert(postings::lists_ok(false, b.tags_idx)) by {
        reveal(tagged);
    }
    lemma_carried_listed(b, ids, a.id);
    let d = maintain::aux_carried(s, b, a)->Ok_0;
    let row = table::row_of(d.aux, a.id.0 as int)->0;
    assert(d.tags_idx == c.tags_idx);
    assert forall|k: u32| list.contains(k) implies #[trigger] maintain::tag_ids(
        d,
        row.tags,
    ).contains(k) by {
        assert(ids.contains(k));
    }
    lemma_fact_tagged(b, d, list, row);
}

} // verus!
