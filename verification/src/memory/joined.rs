//! The links that a fact is remembered with stand in the graph.

use crate::id::{EntityId, FactId, NONE_U32};
use crate::interner;
use crate::memory::history;
use crate::memory::links;
use crate::memory::state;
use crate::memory::state::{InputView, State};
use crate::memory::whole;
use crate::model::{EdgeSlot, EntityByName, FactAux, Slot};
use crate::table;
use vstd::prelude::*;
use vstd::utf8::*;

verus! {

/// An entity carries a normalized name.
pub open spec fn carries(s: State, e: EntityId, norm: Seq<char>) -> bool {
    exists|i: int|
        0 <= i < s.by_name.len() && (#[trigger] s.by_name[i]).id == e && s.by_name[i].name_term.0
            < s.terms.len() && s.terms[s.by_name[i].name_term.0 as int] == norm
}

/// A current edge of a fact leads from an entity, under a relation, to one of
/// a given name.
pub open spec fn joined(
    s: State,
    src: EntityId,
    link: (Seq<char>, Seq<char>),
    fact: FactId,
) -> bool {
    exists|e: EdgeSlot| #[trigger]
        links::holds_edge(s.edges_out, e) && e.a == src && e.fact == fact && e.rel.0
            < s.terms.len() && s.terms[e.rel.0 as int] == link.0 && carries(
            s,
            e.b,
            state::normalized(link.1),
        )
}

/// Terms and names are only added.
spec fn names_kept(s: State, t: State) -> bool {
    &&& s.terms.is_prefix_of(t.terms)
    &&& forall|i: int| 0 <= i < s.by_name.len() ==> t.by_name.contains(#[trigger] s.by_name[i])
}

proof fn lemma_carries(s: State, t: State, e: EntityId, norm: Seq<char>)
    requires
        names_kept(s, t),
        carries(s, e, norm),
    ensures
        carries(t, e, norm),
{
    let i = choose|i: int|
        0 <= i < s.by_name.len() && (#[trigger] s.by_name[i]).id == e && s.by_name[i].name_term.0
            < s.terms.len() && s.terms[s.by_name[i].name_term.0 as int] == norm;
    assert(t.by_name.contains(s.by_name[i]));
    let j = choose|j: int| 0 <= j < t.by_name.len() && t.by_name[j] == s.by_name[i];
    let k = t.by_name[j].name_term.0 as int;
    assert(s.terms[k] == t.terms.subrange(0, s.terms.len() as int)[k]);
}

proof fn lemma_interned(s: State, w: Seq<char>)
    requires
        s.terms.len() <= NONE_U32,
    ensures
        names_kept(s, state::term_interned(s, w).0),
        state::term_interned(s, w).0.terms.len() <= NONE_U32,
        state::term_interned(s, w).0.edges_out == s.edges_out,
        state::term_interned(s, w).1 matches Ok(id) ==> {
            let t = state::term_interned(s, w).0;
            id.0 < t.terms.len() && t.terms[id.0 as int] == w
        },
{
    history::lemma_term_grown(s, w);
    reveal(history::terms_grown);
    let t = state::term_interned(s, w).0;
    assert forall|i: int| 0 <= i < s.by_name.len() implies t.by_name.contains(
        #[trigger] s.by_name[i],
    ) by {
        assert(t.by_name[i] == s.by_name[i]);
    }
}

proof fn lemma_resolved(s: State, name: Seq<char>, now: u64)
    requires
        whole::names_whole(s),
        s.terms.len() <= NONE_U32,
        state::entity_resolved(s, name, now).1 is Ok,
    ensures
        ({
            let (t, r) = state::entity_resolved(s, name, now);
            &&& names_kept(s, t)
            &&& t.terms.len() <= NONE_U32
            &&& t.edges_out == s.edges_out
            &&& carries(t, r->Ok_0, state::normalized(name))
        }),
{
    let norm = state::normalized(name);
    let (t, r) = state::entity_resolved(s, name, now);
    if state::entity_named(s, norm) is Some {
        let term = interner::lookup_of(s.terms, norm)->0;
        let k = s.terms.index_of(norm);
        assert(0 <= k < s.terms.len() && s.terms[k] == norm);
        let key = 0x1_0000_0000 * (term.0 as int);
        table::lemma_rank(s.by_name, key);
        let at = table::rank(s.by_name, key);
        assert(s.by_name[at].id == r->Ok_0);
        assert(s.terms =~= s.terms.subrange(0, s.terms.len() as int));
        assert forall|i: int| 0 <= i < s.by_name.len() implies t.by_name.contains(
            #[trigger] s.by_name[i],
        ) by {}
    } else {
        lemma_interned(s, norm);
        whole::lemma_term_interned(s, norm);
        let (u, term) = state::term_interned(s, norm);
        let b = EntityByName { name_term: term->Ok_0, id: EntityId(s.next_entity) };
        assert(!table::has_key(s.by_name, b.key())) by {
            if table::has_key(s.by_name, b.key()) {
                let i = choose|i: int|
                    0 <= i < s.by_name.len() && (#[trigger] s.by_name[i]).key() == b.key();
                assert(whole::name_sane(s, s.by_name[i]));
            }
        }
        table::lemma_rank(s.by_name, b.key());
        let at = table::rank(s.by_name, b.key());
        assert(t.by_name == s.by_name.insert(at, b));
        assert(t.by_name[at] == b);
        assert(t.terms == u.terms);
        assert forall|i: int| 0 <= i < s.by_name.len() implies t.by_name.contains(
            #[trigger] s.by_name[i],
        ) by {
            if i < at {
                assert(t.by_name[i] == s.by_name[i]);
            } else {
                assert(t.by_name[i + 1] == s.by_name[i]);
            }
        }
    }
}

/// One link joins its ends, and leaves those joined before it joined.
proof fn lemma_joined(
    s: State,
    n: u32,
    src: EntityId,
    link: (Seq<char>, Seq<char>),
    fact: FactId,
    now: u64,
)
    requires
        whole::names_whole(s),
        s.terms.len() <= NONE_U32,
        links::links_whole(s, n),
        links::known(s, src),
        links::source_sane(fact, n),
        state::link_added(s, src, link, fact, now).1 is Ok,
    ensures
        ({
            let t = state::link_added(s, src, link, fact, now).0;
            &&& t.terms.len() <= NONE_U32
            &&& joined(t, src, link, fact)
            &&& forall|l: (Seq<char>, Seq<char>)|
                joined(s, src, l, fact) ==> #[trigger] joined(t, src, l, fact)
        }),
{
    let (u, dst) = state::entity_resolved(s, link.1, now);
    whole::lemma_entity_resolved(s, link.1, now);
    whole::lemma_still_known(s, u, n, src);
    lemma_resolved(s, link.1, now);
    let (v, rel) = state::term_interned(u, link.0);
    whole::lemma_term_interned(u, link.0);
    whole::lemma_still_known(u, v, n, src);
    lemma_interned(u, link.0);
    let norm = state::normalized(link.1);
    lemma_carries(u, v, dst->Ok_0, norm);
    links::a_link_is_replaced_not_repeated(v, n, src, rel->Ok_0, dst->Ok_0, fact, now);
    let t = state::link_added(s, src, link, fact, now).0;
    let e = links::edge_made(v, src, rel->Ok_0, dst->Ok_0, fact, now);
    assert(t.terms == v.terms && t.by_name == v.by_name);
    assert(carries(t, e.b, norm)) by {
        let i = choose|i: int|
            0 <= i < v.by_name.len() && (#[trigger] v.by_name[i]).id == e.b
                && v.by_name[i].name_term.0 < v.terms.len()
                && v.terms[v.by_name[i].name_term.0 as int] == norm;
        assert(t.by_name[i].id == e.b);
    }
    assert(links::holds_edge(t.edges_out, e));
    assert forall|l: (Seq<char>, Seq<char>)| joined(s, src, l, fact) implies #[trigger] joined(
        t,
        src,
        l,
        fact,
    ) by {
        let o = choose|o: EdgeSlot| #[trigger]
            links::holds_edge(s.edges_out, o) && o.a == src && o.fact == fact && o.rel.0
                < s.terms.len() && s.terms[o.rel.0 as int] == l.0 && carries(
                s,
                o.b,
                state::normalized(l.1),
            );
        lemma_carries(s, u, o.b, state::normalized(l.1));
        lemma_carries(u, v, o.b, state::normalized(l.1));
        let w = state::normalized(l.1);
        let i = choose|i: int|
            0 <= i < v.by_name.len() && (#[trigger] v.by_name[i]).id == o.b
                && v.by_name[i].name_term.0 < v.terms.len()
                && v.terms[v.by_name[i].name_term.0 as int] == w;
        assert(t.by_name[i].id == o.b);
        assert(carries(t, o.b, w));
        let k = o.rel.0 as int;
        assert(s.terms[k] == u.terms.subrange(0, s.terms.len() as int)[k]);
        assert(u.terms[k] == v.terms.subrange(0, u.terms.len() as int)[k]);
        links::lemma_edge_keys(o, e);
        if links::edge_key(o) != links::edge_key(e) {
            assert(links::holds_edge(t.edges_out, o));
        }
    }
}

proof fn lemma_all_joined(
    s: State,
    n: u32,
    src: EntityId,
    list: Seq<(Seq<char>, Seq<char>)>,
    fact: FactId,
    now: u64,
)
    requires
        whole::names_whole(s),
        s.terms.len() <= NONE_U32,
        links::links_whole(s, n),
        links::known(s, src),
        links::source_sane(fact, n),
        state::links_added(s, src, list, fact, now).1 is Ok,
    ensures
        ({
            let t = state::links_added(s, src, list, fact, now).0;
            &&& t.terms.len() <= NONE_U32
            &&& forall|i: int| 0 <= i < list.len() ==> joined(t, src, #[trigger] list[i], fact)
        }),
    decreases list.len(),
{
    if list.len() > 0 {
        let init = list.drop_last();
        lemma_all_joined(s, n, src, init, fact, now);
        whole::lemma_links_added(s, n, src, init, fact, now);
        let u = state::links_added(s, src, init, fact, now).0;
        lemma_joined(u, n, src, list.last(), fact, now);
        let t = state::links_added(s, src, list, fact, now).0;
        assert forall|i: int| 0 <= i < list.len() implies joined(
            t,
            src,
            #[trigger] list[i],
            fact,
        ) by {
            if i < init.len() {
                assert(list[i] == init[i]);
                assert(joined(u, src, init[i], fact));
            }
        }
    }
}

proof fn lemma_tag_terms(s: State, tags: Seq<Seq<char>>, fact: FactId)
    requires
        s.terms.len() <= NONE_U32,
    ensures
        state::tags_added(s, tags, fact).0.terms.len() <= NONE_U32,
    decreases tags.len(),
{
    if tags.len() > 0 {
        lemma_tag_terms(s, tags.drop_last(), fact);
        lemma_interned(state::tags_added(s, tags.drop_last(), fact).0, tags.last());
    }
}

/// The links of a remembered fact stand in the graph: for each of them a
/// current edge of that fact leads from its subject, under the given relation,
/// to the entity of the given name.
pub proof fn a_remembered_fact_is_linked(s: State, input: InputView, revises: FactId)
    requires
        whole::whole(s),
        s.terms.len() <= NONE_U32,
        state::remembered(s, input, revises).1 is Ok,
    ensures
        ({
            let (t, r) = state::remembered(s, input, revises);
            let (id, entity) = r->Ok_0;
            entity matches Some(src) ==> forall|i: int|
                0 <= i < input.links.len() ==> joined(t, src, #[trigger] input.links[i], id)
        }),
{
    reveal(state::remembered);
    let id = FactId(s.next_fact);
    let n = s.next_fact;
    let m = (s.next_fact + 1) as u32;
    let (t1, entity) = state::subject_resolved(s, input);
    if let Some(src) = entity->Ok_0 {
        whole::lemma_entity_resolved(s, input.entity->0, input.now);
        lemma_resolved(s, input.entity->0, input.now);
        let (t2, text) = state::text_stored(t1, encode_utf8(input.text));
        whole::lemma_names_same(t1, t2);
        let (t3, pairs, _) = state::words_counted(t2, state::tokens(input.text));
        whole::lemma_words_counted(t2, state::tokens(input.text));
        history::lemma_words_grown(t2, state::tokens(input.text));
        assert(t3.terms.len() <= NONE_U32) by {
            reveal(history::terms_grown);
        }
        whole::lemma_still_known(s, t3, n, src);
        let t4 = state::doc_added(t3, id, pairs).0;
        whole::lemma_names_same(t3, t4);
        links::lemma_links_grow(t3, t4, n, m);
        let (t5, list, _) = state::tags_added(t4, input.tags, id);
        whole::lemma_tags_added(t4, input.tags, id);
        lemma_tag_terms(t4, input.tags, id);
        links::lemma_links_grow(t4, t5, m, m);
        let (t6, tags) = state::tags_stored(t5, list);
        let (t7, meta) = state::meta_stored(t6, input.metadata);
        let t8 = state::aux_added(t7, FactAux { id, tags: tags->Ok_0, meta: meta->Ok_0 }).0;
        whole::lemma_names_same(t5, t8);
        links::lemma_links_grow(t5, t8, m, m);
        lemma_all_joined(t8, m, src, input.links, id, input.now);
        let t9 = state::links_added(t8, src, input.links, id, input.now).0;
        let t = state::remembered(s, input, revises).0;
        assert(t.terms == t9.terms && t.by_name == t9.by_name && t.edges_out == t9.edges_out);
        assert forall|i: int| 0 <= i < input.links.len() implies joined(
            t,
            src,
            #[trigger] input.links[i],
            id,
        ) by {
            lemma_same_joined(t9, t, src, input.links[i], id);
        }
    }
}

proof fn lemma_same_joined(
    s: State,
    t: State,
    src: EntityId,
    link: (Seq<char>, Seq<char>),
    fact: FactId,
)
    requires
        joined(s, src, link, fact),
        t.terms == s.terms,
        t.by_name == s.by_name,
        t.edges_out == s.edges_out,
    ensures
        joined(t, src, link, fact),
{
    let w = state::normalized(link.1);
    let e = choose|e: EdgeSlot| #[trigger]
        links::holds_edge(s.edges_out, e) && e.a == src && e.fact == fact && e.rel.0
            < s.terms.len() && s.terms[e.rel.0 as int] == link.0 && carries(s, e.b, w);
    assert(links::holds_edge(t.edges_out, e));
    let i = choose|i: int|
        0 <= i < s.by_name.len() && (#[trigger] s.by_name[i]).id == e.b && s.by_name[i].name_term.0
            < s.terms.len() && s.terms[s.by_name[i].name_term.0 as int] == w;
    assert(t.by_name[i].id == e.b);
    assert(carries(t, e.b, w));
}

} // verus!
