//! What a loaded engine is checked for.
//!
//! Loading range-checks every stored id, so that no persisted reference can
//! lead out of its table. The content of the large byte pools is checked on
//! demand by [`Memory::verify`], and attributed to single facts by
//! [`Memory::faulty_facts`].

use crate::codec::get_be32;
use crate::error::{ArenaError, Error};
use crate::id::{FactId, NONE_U32};
use crate::index::bm25;
use crate::index::hnsw;
use crate::index::postings;
use crate::index::postings::PostingStore;
use crate::index::vecpool;
use crate::memory::state;
use crate::memory::state::State;
use crate::memory::Memory;
use crate::metadata;
use crate::metadata::decode;
use crate::model;
use crate::model::{
    edge_history_key, edge_key, EdgeHistorySlot, EdgeSlot, EntityByName, EntityRecord, FactAux,
    FactRecord, ListHandle, TemporalSlot, VALID_TO_OPEN,
};
use crate::table;
use crate::table::Table;
use crate::text::str_from_utf8;
use vstd::prelude::*;
use vstd::utf8::*;

verus! {

/// The first fault among numbers `0` to `n`.
pub open spec fn first_fault(n: nat, f: spec_fn(int) -> Option<Error>) -> Option<Error>
    decreases n,
{
    if n == 0 {
        None
    } else {
        match first_fault((n - 1) as nat, f) {
            Some(e) => Some(e),
            None => f(n - 1),
        }
    }
}

proof fn lemma_first_fault(n: nat, i: nat, f: spec_fn(int) -> Option<Error>)
    requires
        i < n,
        first_fault(i, f) is None,
        f(i as int) is Some,
    ensures
        first_fault(n, f) == f(i as int),
    decreases n,
{
    if n > i + 1 {
        lemma_first_fault((n - 1) as nat, i, f);
    }
}

/// No fault means that nothing is at fault.
pub proof fn lemma_no_fault(n: nat, f: spec_fn(int) -> Option<Error>)
    requires
        first_fault(n, f) is None,
    ensures
        forall|i: int| 0 <= i < n ==> (#[trigger] f(i)) is None,
    decreases n,
{
    if n > 0 {
        lemma_no_fault((n - 1) as nat, f);
    }
}

/// The result that a fault stands for.
pub open spec fn outcome(fault: Option<Error>) -> Result<(), Error> {
    match fault {
        Some(e) => Err(e),
        None => Ok(()),
    }
}

/// What is wrong with a fact record.
pub open spec fn fact_fault(s: State, f: FactRecord) -> Option<Error> {
    if f.id.0 >= s.next_fact || f.text.0 >= s.texts.len() || (f.entity.0 != NONE_U32 && f.entity.0
        >= s.next_entity) || (f.revises.0 != NONE_U32 && f.revises.0 >= s.next_fact) || f.kind
        != 0 {
        Some(Error::Corrupt("fact record references out of range"))
    } else if !f.vectored() && f.vector != NONE_U32 {
        Some(Error::Corrupt("fact without a vector flag carries a slot"))
    } else {
        None
    }
}

/// What is wrong with the fact records.
pub open spec fn facts_fault(s: State) -> Option<Error> {
    first_fault(s.facts.len(), |i: int| fact_fault(s, s.facts[i]))
}

/// One of the first `n` records claims tag list `list`.
pub open spec fn tags_claimed(aux: Seq<FactAux>, n: int, list: int) -> bool {
    exists|k: int| 0 <= k < n && #[trigger] tags_claim(aux, k, list)
}

/// Record `k` claims tag list `list`.
pub open spec fn tags_claim(aux: Seq<FactAux>, k: int, list: int) -> bool {
    aux[k].tags != model::empty_handle() && aux[k].tags.list == list
}

/// Some term of a stored tag list is unknown.
pub open spec fn unknown_tag(s: State, list: Seq<u8>) -> bool {
    exists|k: int| 0 <= k < list.len() / 4 && #[trigger] state::tag_at(list, k) >= s.terms.len()
}

/// What is wrong with the tag list of record `i`.
pub open spec fn tags_fault(s: State, i: int) -> Option<Error> {
    let h = s.aux[i].tags;
    if h == model::empty_handle() {
        None
    } else if !postings::handle_ok(h, s.tag_lists) || tags_claimed(s.aux, i, h.list as int) {
        Some(Error::Arena(ArenaError::Malformed))
    } else if h.bytes % 4 != 0 {
        Some(Error::Corrupt("tag list is not a term-id sequence"))
    } else if unknown_tag(s, s.tag_lists[h.list as int]) {
        Some(Error::Corrupt("tag term out of range"))
    } else {
        None
    }
}

/// What is wrong with auxiliary record `i`.
pub open spec fn aux_fault(s: State, i: int) -> Option<Error> {
    let a = s.aux[i];
    if a.id.0 >= s.next_fact || (a.meta.0 != NONE_U32 && a.meta.0 >= s.metas.len()) {
        Some(Error::Corrupt("aux record references out of range"))
    } else {
        tags_fault(s, i)
    }
}

/// A tag list that no record claims.
pub open spec fn orphan_tags(s: State) -> bool {
    exists|l: int|
        0 <= l < s.tag_lists.len() && !#[trigger] tags_claimed(s.aux, s.aux.len() as int, l)
}

/// What is wrong with the auxiliary records and their tag lists.
pub open spec fn auxes_fault(s: State) -> Option<Error> {
    match first_fault(s.aux.len(), |i: int| aux_fault(s, i)) {
        Some(e) => Some(e),
        None => if orphan_tags(s) {
            Some(Error::Corrupt("tag pool has orphan chunks"))
        } else {
            None
        },
    }
}

/// What is wrong with an entity record.
pub open spec fn entity_fault(s: State, e: EntityRecord) -> Option<Error> {
    if e.id.0 >= s.next_entity || e.name.0 >= s.texts.len() || e.name_term.0 >= s.terms.len() {
        Some(Error::Corrupt("entity record references out of range"))
    } else {
        None
    }
}

pub open spec fn entities_fault(s: State) -> Option<Error> {
    first_fault(s.entities.len(), |i: int| entity_fault(s, s.entities[i]))
}

/// What is wrong with a by-name record.
pub open spec fn name_fault(s: State, b: EntityByName) -> Option<Error> {
    if b.name_term.0 >= s.terms.len() || !table::has_key(s.entities, b.id.0 as int) {
        Some(Error::Corrupt("by-name record references out of range"))
    } else {
        None
    }
}

pub open spec fn names_fault(s: State) -> Option<Error> {
    first_fault(s.by_name.len(), |i: int| name_fault(s, s.by_name[i]))
}

/// What is wrong with a current edge, seen from either end.
pub open spec fn edge_fault(s: State, e: EdgeSlot) -> Option<Error> {
    if e.a.0 >= s.next_entity || e.b.0 >= s.next_entity || e.rel.0 >= s.terms.len() || e.edge.0
        >= s.next_edge || (e.fact.0 != NONE_U32 && e.fact.0 >= s.next_fact) || !table::has_key(
        s.entities,
        e.a.0 as int,
    ) || !table::has_key(s.entities, e.b.0 as int) {
        Some(Error::Corrupt("edge record references out of range"))
    } else {
        None
    }
}

/// What is wrong with the records of one current-edge table.
pub open spec fn edges_fault(s: State, rows: Seq<EdgeSlot>) -> Option<Error> {
    first_fault(rows.len(), |i: int| edge_fault(s, rows[i]))
}

/// What is wrong between a current edge, its mirror and its open version.
pub open spec fn mirror_fault(s: State, e: EdgeSlot) -> Option<Error> {
    if !table::has_key(s.edges_in, model::edge_key_of(e.b, e.rel, e.a)) {
        Some(Error::Corrupt("edge mirrors disagree"))
    } else {
        match table::row_of(s.hist_out, model::edge_history_key_of(e.a, e.valid_from, e.edge)) {
            None => Some(Error::Corrupt("current edge has no history record")),
            Some(v) => if v.valid_to != VALID_TO_OPEN || v.rel != e.rel || v.b != e.b || v.fact
                != e.fact {
                Some(Error::Corrupt("current edge disagrees with its history"))
            } else {
                None
            },
        }
    }
}

/// What is wrong between the edge tables.
pub open spec fn mirrors_fault(s: State) -> Option<Error> {
    if s.edges_out.len() != s.edges_in.len() || s.hist_out.len() != s.hist_in.len() {
        Some(Error::Corrupt("edge mirrors disagree"))
    } else {
        first_fault(s.edges_out.len(), |i: int| mirror_fault(s, s.edges_out[i]))
    }
}

/// What is wrong with an edge version.
pub open spec fn version_fault(s: State, v: EdgeHistorySlot) -> Option<Error> {
    if v.a.0 >= s.next_entity || v.b.0 >= s.next_entity || v.edge.0 >= s.next_edge || v.rel.0
        >= s.terms.len() || v.kind != 0 || v.valid_from > v.valid_to || (v.fact.0 != NONE_U32
        && v.fact.0 >= s.next_fact) || !table::has_key(s.entities, v.a.0 as int)
        || !table::has_key(s.entities, v.b.0 as int) {
        Some(Error::Corrupt("edge history references out of range"))
    } else if !table::has_key(s.hist_in, model::edge_history_key_of(v.b, v.valid_from, v.edge)) {
        Some(Error::Corrupt("edge history mirrors disagree"))
    } else if v.valid_to == VALID_TO_OPEN && !table::has_key(
        s.edges_out,
        model::edge_key_of(v.a, v.rel, v.b),
    ) {
        Some(Error::Corrupt("open edge version is not a current edge"))
    } else {
        None
    }
}

pub open spec fn versions_fault(s: State) -> Option<Error> {
    first_fault(s.hist_out.len(), |i: int| version_fault(s, s.hist_out[i]))
}

/// What is wrong with a temporal record.
pub open spec fn moment_fault(s: State, t: TemporalSlot) -> Option<Error> {
    if t.fact.0 >= s.next_fact {
        Some(Error::Corrupt("temporal record references out of range"))
    } else {
        None
    }
}

pub open spec fn moments_fault(s: State) -> Option<Error> {
    first_fault(s.temporal.len(), |i: int| moment_fault(s, s.temporal[i]))
}

/// What is wrong with a list of indexed facts.
pub open spec fn posting_fault(list: postings::List, next: u32) -> Option<Error> {
    if list.1.len() > 0 && list.1.last().0 >= next {
        Some(Error::Corrupt("posting list references out of range"))
    } else {
        None
    }
}

/// What is wrong with the lists of one index.
pub open spec fn postings_fault(v: Seq<postings::List>, next: u32) -> Option<Error> {
    first_fault(v.len(), |i: int| posting_fault(v[i], next))
}

/// What is wrong with the vector graph.
pub open spec fn graph_fault(s: State) -> Option<Error> {
    match hnsw::graph_fault(s.graph, s.cfg.dim as int, s.vecs) {
        Some(what) => Some(Error::Corrupt(what)),
        None => None,
    }
}

/// The earlier fault of two.
pub open spec fn earlier(a: Option<Error>, b: Option<Error>) -> Option<Error> {
    match a {
        Some(e) => Some(e),
        None => b,
    }
}

/// The first reference of a state that leads nowhere.
#[verifier::opaque]
pub open spec fn reference_fault(s: State) -> Option<Error> {
    earlier(
        graph_fault(s),
        earlier(
            facts_fault(s),
            earlier(
                auxes_fault(s),
                earlier(
                    entities_fault(s),
                    earlier(
                        names_fault(s),
                        earlier(
                            edges_fault(s, s.edges_out),
                            earlier(
                                edges_fault(s, s.edges_in),
                                earlier(
                                    mirrors_fault(s),
                                    earlier(
                                        versions_fault(s),
                                        earlier(
                                            moments_fault(s),
                                            earlier(
                                                postings_fault(s.bm25.postings, s.next_fact),
                                                earlier(
                                                    postings_fault(s.tags_idx, s.next_fact),
                                                    postings_fault(s.entity_facts, s.next_fact),
                                                ),
                                            ),
                                        ),
                                    ),
                                ),
                            ),
                        ),
                    ),
                ),
            ),
        ),
    )
}

/// Bounded lists keep every id below the bound.
proof fn lemma_bounded_lists(tf: bool, v: Seq<postings::List>, next: u32)
    requires
        postings::lists_ok(tf, v),
        postings_fault(v, next) is None,
    ensures
        bm25::ids_below(v, next as int),
{
    let f = |i: int| posting_fault(v[i], next);
    lemma_no_fault(v.len(), f);
    assert forall|k: u32| (#[trigger] postings::entries_of(v, k)).len() > 0 implies
        postings::entries_of(v, k).last().0 < next by {
        postings::lemma_list_rank(tf, v, k);
        let at = postings::list_rank(v, k);
        assert(f(at) is None);
    }
}

/// A state without a dangling reference satisfies what every operation needs.
pub proof fn lemma_sound_references(s: State)
    requires
        crate::config::config_ok(s.cfg),
        reference_fault(s) is None,
        postings::lists_ok(true, s.bm25.postings),
        postings::lists_ok(false, s.tags_idx),
        postings::lists_ok(false, s.entity_facts),
    ensures
        state::inv(s),
{
    reveal(state::graph_ok);
    reveal(reference_fault);
    let f = |i: int| fact_fault(s, s.facts[i]);
    lemma_no_fault(s.facts.len(), f);
    assert forall|i: int| 0 <= i < s.facts.len() implies state::fact_ok(
        s,
        #[trigger] s.facts[i],
    ) by {
        assert(f(i) is None);
    }
    let g = |i: int| aux_fault(s, i);
    lemma_no_fault(s.aux.len(), g);
    assert forall|i: int| 0 <= i < s.aux.len() implies state::aux_ok(s, #[trigger] s.aux[i]) by {
        assert(g(i) is None);
        let h = s.aux[i].tags;
        if h != model::empty_handle() {
            let list = s.tag_lists[h.list as int];
            assert forall|k: int| 0 <= k < h.bytes / 4 implies #[trigger] state::tag_at(list, k)
                < s.terms.len() by {
                if state::tag_at(list, k) >= s.terms.len() {
                    assert(unknown_tag(s, list));
                }
            }
        }
    }
    let h = |i: int| entity_fault(s, s.entities[i]);
    lemma_no_fault(s.entities.len(), h);
    assert forall|i: int| 0 <= i < s.entities.len() implies state::entity_ok(
        s,
        #[trigger] s.entities[i],
    ) by {
        assert(h(i) is None);
    }
    lemma_bounded_lists(true, s.bm25.postings, s.next_fact);
    lemma_bounded_lists(false, s.tags_idx, s.next_fact);
    lemma_bounded_lists(false, s.entity_facts, s.next_fact);
}

/// Whether every list of an index stays below the next fact id.
fn check_postings<const TF: bool>(store: &PostingStore<TF>, next: u32) -> (r: Result<(), Error>)
    requires
        store.wf(),
    ensures
        r == outcome(postings_fault(store@, next)),
{
    let ghost v = store@;
    let ghost f = |i: int| posting_fault(v[i], next);
    let n: usize = store.keys();
    let mut i: usize = 0;
    while i < n
        invariant
            i <= n,
            n == v.len(),
            v == store@,
            store.wf(),
            f == (|i: int| posting_fault(v[i], next)),
            first_fault(i as nat, f) is None,
        decreases n - i,
    {
        if store.last_at(i) >= next {
            proof {
                assert(f(i as int) is Some);
                lemma_first_fault(v.len(), i as nat, f);
            }
            return Err(Error::Corrupt("posting list references out of range"));
        }
        assert(f(i as int) is None);
        i = i + 1;
    }
    Ok(())
}

impl Memory {
    fn check_facts(&self) -> (r: Result<(), Error>)
        requires
            self.sound(),
        ensures
            r == outcome(facts_fault(self@)),
    {
        let ghost s = self@;
        let ghost f = |i: int| fact_fault(s, s.facts[i]);
        let mut i: usize = 0;
        while i < self.facts.len()
            invariant
                i <= s.facts.len(),
                s == self@,
                f == (|i: int| fact_fault(s, s.facts[i])),
                first_fault(i as nat, f) is None,
            decreases s.facts.len() - i,
        {
            let x: FactRecord = self.facts.row(i);
            assert(f(i as int) == fact_fault(s, x));
            if x.id.0 >= self.next_fact || x.text.0 as usize >= self.texts.len() || (x.entity.0
                != NONE_U32 && x.entity.0 >= self.next_entity) || (x.revises.0 != NONE_U32
                && x.revises.0 >= self.next_fact) || x.kind != 0 {
                proof {
                    lemma_first_fault(s.facts.len(), i as nat, f);
                }
                return Err(Error::Corrupt("fact record references out of range"));
            }
            if !x.has_vector() && x.vector != NONE_U32 {
                proof {
                    lemma_first_fault(s.facts.len(), i as nat, f);
                }
                return Err(Error::Corrupt("fact without a vector flag carries a slot"));
            }
            i = i + 1;
        }
        Ok(())
    }

    /// Whether some term of a stored tag list is unknown.
    fn has_unknown_tag(&self, list: &[u8]) -> (r: bool)
        requires
            self.sound(),
        ensures
            r == unknown_tag(self@, list@),
    {
        let total: usize = list.len();
        let n: usize = total / 4;
        let mut k: usize = 0;
        while k < n
            invariant
                k <= n,
                total == list@.len(),
                n == list@.len() / 4,
                forall|j: int|
                    0 <= j < k ==> #[trigger] state::tag_at(list@, j) < self@.terms.len(),
            decreases n - k,
        {
            let t: u32 = get_be32(list, 4 * k);
            assert(state::tag_at(list@, k as int) == t);
            if t as usize >= self.terms.len() {
                return true;
            }
            k = k + 1;
        }
        false
    }

    /// Checks the tag list of record `i`; `visited` tells which lists the
    /// records before it claim.
    fn check_tags(&self, i: usize, visited: &mut Vec<bool>) -> (r: Result<(), Error>)
        requires
            self.sound(),
            i < self@.aux.len(),
            old(visited)@.len() == self@.tag_lists.len(),
            forall|l: int|
                0 <= l < old(visited)@.len() ==> #[trigger] old(visited)@[l] == tags_claimed(
                    self@.aux,
                    i as int,
                    l,
                ),
        ensures
            r == outcome(tags_fault(self@, i as int)),
            r is Ok ==> final(visited)@.len() == self@.tag_lists.len(),
            r is Ok ==> forall|l: int|
                0 <= l < final(visited)@.len() ==> #[trigger] final(visited)@[l] == tags_claimed(
                    self@.aux,
                    i + 1,
                    l,
                ),
    {
        let ghost s = self@;
        let h: ListHandle = self.fact_aux.row(i).tags;
        let ghost before = visited@;
        if h == ListHandle::empty() {
            assert forall|l: int| 0 <= l < visited@.len() implies #[trigger] visited@[l]
                == tags_claimed(s.aux, i + 1, l) by {
                assert(!tags_claim(s.aux, i as int, l));
                lemma_claimed_step(s.aux, i as int, l);
            }
            return Ok(());
        }
        if h.list as usize >= self.tag_lists.len() || h.reserved != 0 {
            return Err(Error::Arena(ArenaError::Malformed));
        }
        let list: &[u8] = self.tag_lists.get(crate::id::BlobId(h.list));
        if h.bytes as usize != list.len() || visited[h.list as usize] {
            assert(before[h.list as int] == tags_claimed(s.aux, i as int, h.list as int));
            return Err(Error::Arena(ArenaError::Malformed));
        }
        assert(before[h.list as int] == tags_claimed(s.aux, i as int, h.list as int));
        if h.bytes % 4 != 0 {
            return Err(Error::Corrupt("tag list is not a term-id sequence"));
        }
        if self.has_unknown_tag(list) {
            return Err(Error::Corrupt("tag term out of range"));
        }
        visited.set(h.list as usize, true);
        assert forall|l: int| 0 <= l < visited@.len() implies #[trigger] visited@[l]
            == tags_claimed(s.aux, i + 1, l) by {
            lemma_claimed_step(s.aux, i as int, l);
            if l == h.list {
                assert(tags_claim(s.aux, i as int, l));
            } else {
                assert(visited@[l] == before[l]);
                assert(!tags_claim(s.aux, i as int, l));
            }
        }
        Ok(())
    }

    fn check_auxes(&self) -> (r: Result<(), Error>)
        requires
            self.sound(),
        ensures
            r == outcome(auxes_fault(self@)),
    {
        let ghost s = self@;
        let ghost f = |i: int| aux_fault(s, i);
        let mut visited: Vec<bool> = Vec::new();
        let mut j: usize = 0;
        while j < self.tag_lists.len()
            invariant
                j <= s.tag_lists.len(),
                s == self@,
                visited@.len() == j,
                forall|l: int| 0 <= l < j ==> #[trigger] visited@[l] == false,
            decreases s.tag_lists.len() - j,
        {
            visited.push(false);
            j = j + 1;
        }
        let mut i: usize = 0;
        while i < self.fact_aux.len()
            invariant
                i <= s.aux.len(),
                s == self@,
                self.sound(),
                f == (|i: int| aux_fault(s, i)),
                first_fault(i as nat, f) is None,
                visited@.len() == s.tag_lists.len(),
                forall|l: int|
                    0 <= l < visited@.len() ==> #[trigger] visited@[l] == tags_claimed(
                        s.aux,
                        i as int,
                        l,
                    ),
            decreases s.aux.len() - i,
        {
            let a: FactAux = self.fact_aux.row(i);
            assert(f(i as int) == aux_fault(s, i as int));
            if a.id.0 >= self.next_fact || (a.meta.0 != NONE_U32 && a.meta.0 as usize
                >= self.metas.len()) {
                proof {
                    lemma_first_fault(s.aux.len(), i as nat, f);
                }
                return Err(Error::Corrupt("aux record references out of range"));
            }
            if let Err(e) = self.check_tags(i, &mut visited) {
                proof {
                    lemma_first_fault(s.aux.len(), i as nat, f);
                }
                return Err(e);
            }
            i = i + 1;
        }
        let mut l: usize = 0;
        while l < visited.len()
            invariant
                l <= visited@.len(),
                s == self@,
                visited@.len() == s.tag_lists.len(),
                first_fault(s.aux.len(), f) is None,
                f == (|i: int| aux_fault(s, i)),
                forall|k: int|
                    0 <= k < visited@.len() ==> #[trigger] visited@[k] == tags_claimed(
                        s.aux,
                        s.aux.len() as int,
                        k,
                    ),
                forall|k: int| 0 <= k < l ==> #[trigger] visited@[k],
            decreases visited@.len() - l,
        {
            if !visited[l] {
                assert(!tags_claimed(s.aux, s.aux.len() as int, l as int));
                assert(orphan_tags(s));
                return Err(Error::Corrupt("tag pool has orphan chunks"));
            }
            l = l + 1;
        }
        assert(!orphan_tags(s)) by {
            if orphan_tags(s) {
                let k = choose|k: int|
                    0 <= k < s.tag_lists.len() && !#[trigger] tags_claimed(
                        s.aux,
                        s.aux.len() as int,
                        k,
                    );
                assert(visited@[k]);
            }
        }
        Ok(())
    }

    fn check_entities(&self) -> (r: Result<(), Error>)
        requires
            self.sound(),
        ensures
            r == outcome(entities_fault(self@)),
    {
        let ghost s = self@;
        let ghost f = |i: int| entity_fault(s, s.entities[i]);
        let mut i: usize = 0;
        while i < self.entities.len()
            invariant
                i <= s.entities.len(),
                s == self@,
                f == (|i: int| entity_fault(s, s.entities[i])),
                first_fault(i as nat, f) is None,
            decreases s.entities.len() - i,
        {
            let e: EntityRecord = self.entities.row(i);
            assert(f(i as int) == entity_fault(s, e));
            if e.id.0 >= self.next_entity || e.name.0 as usize >= self.texts.len()
                || e.name_term.0 as usize >= self.terms.len() {
                proof {
                    lemma_first_fault(s.entities.len(), i as nat, f);
                }
                return Err(Error::Corrupt("entity record references out of range"));
            }
            i = i + 1;
        }
        Ok(())
    }

    fn check_names(&self) -> (r: Result<(), Error>)
        requires
            self.sound(),
        ensures
            r == outcome(names_fault(self@)),
    {
        let ghost s = self@;
        let ghost f = |i: int| name_fault(s, s.by_name[i]);
        let mut i: usize = 0;
        while i < self.by_name.len()
            invariant
                i <= s.by_name.len(),
                s == self@,
                self.sound(),
                f == (|i: int| name_fault(s, s.by_name[i])),
                first_fault(i as nat, f) is None,
            decreases s.by_name.len() - i,
        {
            let b: EntityByName = self.by_name.row(i);
            assert(f(i as int) == name_fault(s, b));
            if b.name_term.0 as usize >= self.terms.len() || !self.entities.contains(
                b.id.0 as u128,
            ) {
                proof {
                    lemma_first_fault(s.by_name.len(), i as nat, f);
                }
                return Err(Error::Corrupt("by-name record references out of range"));
            }
            i = i + 1;
        }
        Ok(())
    }

    /// Checks one current-edge table.
    fn check_edges(&self, rows: &Table<EdgeSlot>) -> (r: Result<(), Error>)
        requires
            self.sound(),
        ensures
            r == outcome(edges_fault(self@, rows@)),
    {
        let ghost s = self@;
        let ghost f = |i: int| edge_fault(s, rows@[i]);
        let mut i: usize = 0;
        while i < rows.len()
            invariant
                i <= rows@.len(),
                s == self@,
                self.sound(),
                f == (|i: int| edge_fault(s, rows@[i])),
                first_fault(i as nat, f) is None,
            decreases rows@.len() - i,
        {
            let e: EdgeSlot = rows.row(i);
            assert(f(i as int) == edge_fault(s, e));
            if e.a.0 >= self.next_entity || e.b.0 >= self.next_entity || e.rel.0 as usize
                >= self.terms.len() || e.edge.0 >= self.next_edge || (e.fact.0 != NONE_U32
                && e.fact.0 >= self.next_fact) || !self.entities.contains(e.a.0 as u128)
                || !self.entities.contains(e.b.0 as u128) {
                proof {
                    lemma_first_fault(rows@.len(), i as nat, f);
                }
                return Err(Error::Corrupt("edge record references out of range"));
            }
            i = i + 1;
        }
        Ok(())
    }

    fn check_mirrors(&self) -> (r: Result<(), Error>)
        requires
            self.sound(),
        ensures
            r == outcome(mirrors_fault(self@)),
    {
        let ghost s = self@;
        let ghost f = |i: int| mirror_fault(s, s.edges_out[i]);
        if self.edges_out.len() != self.edges_in.len() || self.edges_hist_out.len()
            != self.edges_hist_in.len() {
            return Err(Error::Corrupt("edge mirrors disagree"));
        }
        let mut i: usize = 0;
        while i < self.edges_out.len()
            invariant
                i <= s.edges_out.len(),
                s == self@,
                self.sound(),
                s.edges_out.len() == s.edges_in.len() && s.hist_out.len() == s.hist_in.len(),
                f == (|i: int| mirror_fault(s, s.edges_out[i])),
                first_fault(i as nat, f) is None,
            decreases s.edges_out.len() - i,
        {
            let e: EdgeSlot = self.edges_out.row(i);
            assert(f(i as int) == mirror_fault(s, e));
            if !self.edges_in.contains(edge_key(e.b, e.rel, e.a)) {
                proof {
                    lemma_first_fault(s.edges_out.len(), i as nat, f);
                }
                return Err(Error::Corrupt("edge mirrors disagree"));
            }
            match self.edges_hist_out.get(edge_history_key(e.a, e.valid_from, e.edge)) {
                None => {
                    proof {
                        lemma_first_fault(s.edges_out.len(), i as nat, f);
                    }
                    return Err(Error::Corrupt("current edge has no history record"));
                },
                Some(v) => {
                    if v.valid_to != VALID_TO_OPEN || v.rel.0 != e.rel.0 || v.b.0 != e.b.0
                        || v.fact.0 != e.fact.0 {
                        proof {
                            lemma_first_fault(s.edges_out.len(), i as nat, f);
                        }
                        return Err(Error::Corrupt("current edge disagrees with its history"));
                    }
                },
            }
            i = i + 1;
        }
        Ok(())
    }

    fn check_versions(&self) -> (r: Result<(), Error>)
        requires
            self.sound(),
        ensures
            r == outcome(versions_fault(self@)),
    {
        let ghost s = self@;
        let ghost f = |i: int| version_fault(s, s.hist_out[i]);
        let mut i: usize = 0;
        while i < self.edges_hist_out.len()
            invariant
                i <= s.hist_out.len(),
                s == self@,
                self.sound(),
                f == (|i: int| version_fault(s, s.hist_out[i])),
                first_fault(i as nat, f) is None,
            decreases s.hist_out.len() - i,
        {
            let v: EdgeHistorySlot = self.edges_hist_out.row(i);
            assert(f(i as int) == version_fault(s, v));
            if v.a.0 >= self.next_entity || v.b.0 >= self.next_entity || v.edge.0 >= self.next_edge
                || v.rel.0 as usize >= self.terms.len() || v.kind != 0 || v.valid_from > v.valid_to
                || (v.fact.0 != NONE_U32 && v.fact.0 >= self.next_fact) || !self.entities.contains(
                v.a.0 as u128,
            ) || !self.entities.contains(v.b.0 as u128) {
                proof {
                    lemma_first_fault(s.hist_out.len(), i as nat, f);
                }
                return Err(Error::Corrupt("edge history references out of range"));
            }
            if !self.edges_hist_in.contains(edge_history_key(v.b, v.valid_from, v.edge)) {
                proof {
                    lemma_first_fault(s.hist_out.len(), i as nat, f);
                }
                return Err(Error::Corrupt("edge history mirrors disagree"));
            }
            if v.valid_to == VALID_TO_OPEN && !self.edges_out.contains(edge_key(v.a, v.rel, v.b)) {
                proof {
                    lemma_first_fault(s.hist_out.len(), i as nat, f);
                }
                return Err(Error::Corrupt("open edge version is not a current edge"));
            }
            i = i + 1;
        }
        Ok(())
    }

    fn check_moments(&self) -> (r: Result<(), Error>)
        requires
            self.sound(),
        ensures
            r == outcome(moments_fault(self@)),
    {
        let ghost s = self@;
        let ghost f = |i: int| moment_fault(s, s.temporal[i]);
        let mut i: usize = 0;
        while i < self.temporal.len()
            invariant
                i <= s.temporal.len(),
                s == self@,
                f == (|i: int| moment_fault(s, s.temporal[i])),
                first_fault(i as nat, f) is None,
            decreases s.temporal.len() - i,
        {
            let t: TemporalSlot = self.temporal.row(i);
            assert(f(i as int) == moment_fault(s, t));
            if t.fact.0 >= self.next_fact {
                proof {
                    lemma_first_fault(s.temporal.len(), i as nat, f);
                }
                return Err(Error::Corrupt("temporal record references out of range"));
            }
            i = i + 1;
        }
        Ok(())
    }

    /// Range-checks every stored id. Does not touch the text or vector bytes:
    /// their content is checked by [`Memory::verify`].
    pub(crate) fn validate_references(&self) -> (r: Result<(), Error>)
        requires
            self.sound(),
        ensures
            r == outcome(reference_fault(self@)),
            r is Ok ==> self.wf(),
    {
        proof {
            reveal(reference_fault);
        }
        self.hnsw.validate(&self.vecs)?;
        self.check_facts()?;
        self.check_auxes()?;
        self.check_entities()?;
        self.check_names()?;
        self.check_edges(&self.edges_out)?;
        self.check_edges(&self.edges_in)?;
        self.check_mirrors()?;
        self.check_versions()?;
        self.check_moments()?;
        check_postings(self.bm25.postings(), self.next_fact)?;
        check_postings(&self.tags_idx, self.next_fact)?;
        check_postings(&self.entity_facts, self.next_fact)?;
        proof {
            self.bm25.lemma_wf();
            self.tags_idx.lemma_wf();
            self.entity_facts.lemma_wf();
            lemma_sound_references(self@);
        }
        Ok(())
    }
}

/// What is wrong with the content of one fact.
#[derive(Clone, Copy, Debug, PartialEq, Eq, Structural)]
pub enum FactFault {
    /// The stored text is not valid UTF-8.
    Text,
    /// The vector slot is out of range or does not name the fact back.
    Vector,
    /// The metadata blob does not decode.
    Metadata,
}

/// What is wrong with a stored text.
pub open spec fn text_fault(b: Seq<u8>) -> Option<Error> {
    if valid_utf8(b) {
        None
    } else {
        Some(Error::Corrupt("stored text is not valid UTF-8"))
    }
}

pub open spec fn texts_fault(s: State) -> Option<Error> {
    first_fault(s.texts.len(), |i: int| text_fault(s.texts[i]))
}

/// What is wrong with the metadata of a record.
pub open spec fn meta_fault(s: State, a: FactAux) -> Option<Error> {
    if a.meta.0 == NONE_U32 {
        None
    } else {
        match metadata::decoded(s.metas[a.meta.0 as int]).1 {
            Ok(()) => None,
            Err(e) => Some(e),
        }
    }
}

pub open spec fn metas_fault(s: State) -> Option<Error> {
    first_fault(s.aux.len(), |i: int| meta_fault(s, s.aux[i]))
}

/// A vector slot that is there and names the fact back.
pub open spec fn slot_names(s: State, f: FactRecord) -> bool {
    let dim = s.cfg.dim as int;
    f.vector < vecpool::slot_count(dim, s.vecs) && vecpool::fact_of(
        vecpool::slot_at(dim, s.vecs, f.vector as int),
    ) == f.id.0
}

/// What is wrong with the vector of a fact.
pub open spec fn slot_fault(s: State, f: FactRecord) -> Option<Error> {
    if f.vectored() && !slot_names(s, f) {
        Some(Error::Corrupt("fact vector slot is out of range or mismatched"))
    } else {
        None
    }
}

/// How many of the first `n` facts carry a vector.
pub open spec fn vectored_count(facts: Seq<FactRecord>, n: nat) -> nat
    decreases n,
{
    if n == 0 {
        0
    } else {
        vectored_count(facts, (n - 1) as nat) + (if facts[n - 1].vectored() {
            1nat
        } else {
            0
        })
    }
}

/// What is wrong between facts and vector slots.
pub open spec fn vectors_fault(s: State) -> Option<Error> {
    let dim = s.cfg.dim as int;
    earlier(
        match vecpool::checked(dim, s.vecs) {
            Ok(()) => None,
            Err(e) => Some(e),
        },
        earlier(
            first_fault(s.facts.len(), |i: int| slot_fault(s, s.facts[i])),
            if vectored_count(s.facts, s.facts.len()) != vecpool::slot_count(dim, s.vecs) {
                Some(Error::Corrupt("vector pool has orphan slots"))
            } else {
                None
            },
        ),
    )
}

/// The first inconsistency in the content of the pools.
pub open spec fn content_fault(s: State) -> Option<Error> {
    earlier(texts_fault(s), earlier(metas_fault(s), vectors_fault(s)))
}

/// What is wrong with one fact; nothing with a forgotten one.
pub open spec fn fault_of(s: State, f: FactRecord) -> Option<FactFault> {
    if f.tombstone() {
        None
    } else if !valid_utf8(s.texts[f.text.0 as int]) {
        Some(FactFault::Text)
    } else if f.vectored() && !slot_names(s, f) {
        Some(FactFault::Vector)
    } else {
        match table::row_of(s.aux, f.id.0 as int) {
            None => None,
            Some(a) => if a.meta.0 != NONE_U32 && metadata::decoded(s.metas[a.meta.0 as int]).1
                is Err {
                Some(FactFault::Metadata)
            } else {
                None
            },
        }
    }
}

/// The faulty ones among the first `n` facts, in id order.
pub open spec fn faults_of(s: State, n: nat) -> Seq<(FactId, FactFault)>
    decreases n,
{
    if n == 0 {
        Seq::empty()
    } else {
        let front = faults_of(s, (n - 1) as nat);
        match fault_of(s, s.facts[n - 1]) {
            Some(fault) => front.push((s.facts[n - 1].id, fault)),
            None => front,
        }
    }
}

/// An engine whose content is in order has no faulty fact.
pub proof fn verified_has_no_faulty_fact(s: State)
    requires
        state::inv(s),
        table::ascending(s.aux),
        content_fault(s) is None,
    ensures
        faults_of(s, s.facts.len()) == Seq::<(FactId, FactFault)>::empty(),
{
    lemma_no_faults(s, s.facts.len());
}

proof fn lemma_no_faults(s: State, n: nat)
    requires
        state::inv(s),
        table::ascending(s.aux),
        n <= s.facts.len(),
        texts_fault(s) is None,
        metas_fault(s) is None,
        first_fault(s.facts.len(), |i: int| slot_fault(s, s.facts[i])) is None,
    ensures
        faults_of(s, n) == Seq::<(FactId, FactFault)>::empty(),
    decreases n,
{
    if n > 0 {
        lemma_no_faults(s, (n - 1) as nat);
        let f = |i: int| text_fault(s.texts[i]);
        let g = |i: int| meta_fault(s, s.aux[i]);
        let h = |i: int| slot_fault(s, s.facts[i]);
        lemma_no_fault(s.texts.len(), f);
        lemma_no_fault(s.aux.len(), g);
        lemma_no_fault(s.facts.len(), h);
        let x = s.facts[n - 1];
        assert(state::fact_ok(s, x));
        assert(f(x.text.0 as int) is None);
        assert(h(n - 1) is None);
        table::lemma_rank(s.aux, x.id.0 as int);
        let at = table::rank(s.aux, x.id.0 as int);
        if at < s.aux.len() {
            assert(g(at) is None);
        }
    }
}

impl Memory {
    fn verify_texts(&self) -> (r: Result<(), Error>)
        requires
            self.sound(),
        ensures
            r == outcome(texts_fault(self@)),
    {
        let ghost s = self@;
        let ghost f = |i: int| text_fault(s.texts[i]);
        let mut i: usize = 0;
        proof {
            self.texts.lemma_wf();
        }
        while i < self.texts.len()
            invariant
                i <= s.texts.len(),
                s == self@,
                self.sound(),
                s.texts.len() <= NONE_U32,
                f == (|i: int| text_fault(s.texts[i])),
                first_fault(i as nat, f) is None,
            decreases s.texts.len() - i,
        {
            assert(f(i as int) == text_fault(s.texts[i as int]));
            if str_from_utf8(self.texts.get(crate::id::BlobId(i as u32))).is_none() {
                proof {
                    lemma_first_fault(s.texts.len(), i as nat, f);
                }
                return Err(Error::Corrupt("stored text is not valid UTF-8"));
            }
            i = i + 1;
        }
        Ok(())
    }

    fn verify_metadata(&self) -> (r: Result<(), Error>)
        requires
            self.wf(),
        ensures
            r == outcome(metas_fault(self@)),
    {
        let ghost s = self@;
        let ghost f = |i: int| meta_fault(s, s.aux[i]);
        let mut i: usize = 0;
        while i < self.fact_aux.len()
            invariant
                i <= s.aux.len(),
                s == self@,
                self.wf(),
                f == (|i: int| meta_fault(s, s.aux[i])),
                first_fault(i as nat, f) is None,
            decreases s.aux.len() - i,
        {
            let a: FactAux = self.fact_aux.row(i);
            assert(f(i as int) == meta_fault(s, a));
            assert(state::aux_ok(s, s.aux[i as int]));
            if a.meta.0 != NONE_U32 {
                let mut pairs: Vec<(&str, &str)> = Vec::new();
                if let Err(e) = decode(self.metas.get(a.meta), &mut pairs) {
                    proof {
                        lemma_first_fault(s.aux.len(), i as nat, f);
                    }
                    return Err(e);
                }
            }
            i = i + 1;
        }
        Ok(())
    }

    /// Whether the vector slot of a fact is there and names it back.
    fn slot_names_back(&self, f: FactRecord) -> (r: bool)
        requires
            self.sound(),
        ensures
            r == slot_names(self@, f),
    {
        (f.vector as usize) < self.vecs.len() && self.vecs.slot_fact(f.vector as usize) == f.id.0
    }

    fn verify_vectors(&self) -> (r: Result<(), Error>)
        requires
            self.sound(),
        ensures
            r == outcome(vectors_fault(self@)),
    {
        let ghost s = self@;
        let ghost f = |i: int| slot_fault(s, s.facts[i]);
        self.vecs.validate()?;
        let mut with_vec: usize = 0;
        let mut i: usize = 0;
        while i < self.facts.len()
            invariant
                i <= s.facts.len(),
                s == self@,
                self.sound(),
                vecpool::checked(s.cfg.dim as int, s.vecs) == Ok::<(), Error>(()),
                f == (|i: int| slot_fault(s, s.facts[i])),
                first_fault(i as nat, f) is None,
                with_vec == vectored_count(s.facts, i as nat),
                with_vec <= i,
            decreases s.facts.len() - i,
        {
            let x: FactRecord = self.facts.row(i);
            assert(f(i as int) == slot_fault(s, x));
            if x.has_vector() {
                if !self.slot_names_back(x) {
                    proof {
                        lemma_first_fault(s.facts.len(), i as nat, f);
                    }
                    return Err(Error::Corrupt("fact vector slot is out of range or mismatched"));
                }
                with_vec = with_vec + 1;
            }
            i = i + 1;
        }
        if with_vec != self.vecs.len() {
            return Err(Error::Corrupt("vector pool has orphan slots"));
        }
        Ok(())
    }

    /// Runs the integrity checks that a load defers: every stored text is
    /// valid UTF-8, every metadata blob decodes, the vector pool is
    /// self-consistent, and facts with a vector map one-to-one onto slots that
    /// name them back. Returns the first inconsistency found.
    ///
    /// Skipping it is safe: the accessors that read these pools tolerate bad
    /// bytes on their own.
    pub fn verify(&self) -> (r: Result<(), Error>)
        requires
            self.wf(),
        ensures
            r == outcome(content_fault(self@)),
    {
        self.verify_texts()?;
        self.verify_metadata()?;
        self.verify_vectors()
    }

    fn fault_of(&self, f: FactRecord) -> (r: Option<FactFault>)
        requires
            self.wf(),
            f.text.0 < self@.texts.len(),
        ensures
            r == fault_of(self@, f),
    {
        let ghost s = self@;
        if f.is_tombstone() {
            return None;
        }
        if str_from_utf8(self.texts.get(f.text)).is_none() {
            return Some(FactFault::Text);
        }
        if f.has_vector() && !self.slot_names_back(f) {
            return Some(FactFault::Vector);
        }
        if let Some(a) = self.fact_aux.get(f.id.0 as u128) {
            proof {
                self.fact_aux.lemma_wf();
                table::lemma_rank(s.aux, f.id.0 as int);
                assert(state::aux_ok(s, s.aux[table::rank(s.aux, f.id.0 as int)]));
            }
            if a.meta.0 != NONE_U32 {
                let mut pairs: Vec<(&str, &str)> = Vec::new();
                if decode(self.metas.get(a.meta), &mut pairs).is_err() {
                    return Some(FactFault::Metadata);
                }
            }
        }
        None
    }

    /// Attributes the content checks of [`Memory::verify`] to single facts:
    /// every live fact whose text, vector or metadata is faulty, in id order,
    /// so that the caller can forget it and rebuild a clean image.
    pub fn faulty_facts(&self) -> (r: Vec<(FactId, FactFault)>)
        requires
            self.wf(),
        ensures
            r@ == faults_of(self@, self@.facts.len()),
    {
        let ghost s = self@;
        let mut out: Vec<(FactId, FactFault)> = Vec::new();
        let mut i: usize = 0;
        while i < self.facts.len()
            invariant
                i <= s.facts.len(),
                s == self@,
                self.wf(),
                out@ == faults_of(s, i as nat),
            decreases s.facts.len() - i,
        {
            let f: FactRecord = self.facts.row(i);
            assert(state::fact_ok(s, s.facts[i as int]));
            if let Some(fault) = self.fault_of(f) {
                out.push((f.id, fault));
            }
            i = i + 1;
        }
        out
    }
}

proof fn lemma_claimed_step(aux: Seq<FactAux>, i: int, l: int)
    requires
        0 <= i,
    ensures
        tags_claimed(aux, i + 1, l) == (tags_claimed(aux, i, l) || tags_claim(aux, i, l)),
{
    if tags_claim(aux, i, l) {
        assert(tags_claimed(aux, i + 1, l));
    }
    if tags_claimed(aux, i, l) {
        let k = choose|k: int| 0 <= k < i && #[trigger] tags_claim(aux, k, l);
        assert(tags_claim(aux, k, l));
    }
}

} // verus!
