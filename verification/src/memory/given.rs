//! The metadata that a fact is remembered with reads back.

use crate::error::Error;
use crate::id::{EntityId, FactId};
use crate::memory;
use crate::memory::compaction;
use crate::memory::history;
use crate::memory::replay;
use crate::memory::state;
use crate::memory::state::{InputView, State};
use crate::memory::whole;
use crate::metadata;
use crate::model::FactAux;
use crate::table;
use vstd::prelude::*;
use vstd::utf8::*;

verus! {

/// A remembered fact has the metadata that it was given: each pair, in key
/// order, and no other; a fact that was given none has none.
pub proof fn a_remembered_fact_has_its_metadata(s: State, input: InputView, revises: FactId)
    requires
        whole::whole(s),
        replay::numbered(s),
        input.tags.len() <= 32,
        state::remembered(s, input, revises).1 is Ok,
    ensures
        ({
            let t = state::remembered(s, input, revises).0;
            let stored = compaction::stored_metadata(t, FactId(s.next_fact));
            if input.metadata.len() == 0 {
                stored is None
            } else {
                &&& stored is Some
                &&& metadata::pairs_fit(input.metadata) ==> {
                    let (pairs, r) = metadata::decoded(stored->0);
                    &&& r == Ok::<(), Error>(())
                    &&& pairs.to_multiset() == input.metadata.to_multiset()
                    &&& metadata::ascending(pairs)
                }
            }
        }),
{
    history::lemma_remembered(s, input, revises);
    memory::lemma_no_flags();
    reveal(state::remembered);
    let id = FactId(s.next_fact);
    let (t1, entity) = state::subject_resolved(s, input);
    if let Some(name) = input.entity {
        whole::lemma_entity_resolved(s, name, input.now);
    }
    let (t2, text) = state::text_stored(t1, encode_utf8(input.text));
    whole::lemma_names_same(t1, t2);
    let (t3, pairs, _) = state::words_counted(t2, state::tokens(input.text));
    whole::lemma_words_counted(t2, state::tokens(input.text));
    let t4 = state::doc_added(t3, id, pairs).0;
    whole::lemma_names_same(t3, t4);
    let (t5, list, _) = state::tags_added(t4, input.tags, id);
    whole::lemma_tags_added(t4, input.tags, id);
    let (t6, tags) = state::tags_stored(t5, list);
    let (t7, meta) = state::meta_stored(t6, input.metadata);
    let a = FactAux { id, tags: tags->Ok_0, meta: meta->Ok_0 };
    let t8 = state::aux_added(t7, a).0;
    whole::lemma_aux_added(s.aux, s.tag_lists, s.next_fact, a, state::tag_bytes(list));
    table::lemma_with_row(s.aux, a);
    let t9 = state::subject_linked(t8, entity->Ok_0, input.links, id, input.now).0;
    if let Some(src) = entity->Ok_0 {
        lemma_links_apart(t8, src, input.links, id, input.now);
    }
    let t = state::remembered(s, input, revises).0;
    assert(t.aux == t8.aux && t.metas == t8.metas);
    assert(table::row_of(t.aux, id.0 as int) == Some(a));
    if input.metadata.len() > 0 {
        assert(t.metas[a.meta.0 as int] == metadata::blob_of(metadata::sorted(input.metadata)));
        metadata::sorting_keeps_the_pairs(input.metadata);
        metadata::sorting_is_ascending(input.metadata);
        if metadata::pairs_fit(input.metadata) {
            metadata::metadata_round_trip(input.metadata);
        }
    }
}

/// Links leave the auxiliary records and the metadata alone.
proof fn lemma_links_apart(
    s: State,
    src: EntityId,
    list: Seq<(Seq<char>, Seq<char>)>,
    fact: FactId,
    now: u64,
)
    ensures
        ({
            let t = state::links_added(s, src, list, fact, now).0;
            t.aux == s.aux && t.metas == s.metas
        }),
    decreases list.len(),
{
    if list.len() > 0 {
        lemma_links_apart(s, src, list.drop_last(), fact, now);
        let (t, r) = state::links_added(s, src, list.drop_last(), fact, now);
        let link = list.last();
        let (u, dst) = state::entity_resolved(t, link.1, now);
        assert(u.aux == t.aux && u.metas == t.metas);
        if dst is Ok {
            let (v, rel) = state::term_interned(u, link.0);
            if rel is Ok {
                let w = state::edge_upserted(v, src, rel->Ok_0, dst->Ok_0, fact, now).0;
                assert(w.aux == v.aux && w.metas == v.metas);
            }
        }
    }
}

} // verus!
