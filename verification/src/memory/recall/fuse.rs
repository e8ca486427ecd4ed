//! Rank fusion: which sources surfaced a fact, and at which rank.

use crate::id::FactId;
use vstd::prelude::*;

verus! {

/// The lexical (BM25) source.
pub const BM25: u8 = 1;

/// The graph-expansion source.
pub const GRAPH: u8 = 2;

/// The temporal-range source.
pub const TIME: u8 = 4;

/// The vector source.
pub const VEC: u8 = 8;

/// Positions by fact id.
#[verifier::external_body]
pub struct Positions {
    map: hashbrown::HashMap<u32, usize, xxhash_rust::xxh3::Xxh3Builder>,
}

/// The positions that a map holds, by fact id.
pub uninterp spec fn positions_of(m: Positions) -> Map<u32, usize>;

/// No position at all.
pub open spec fn nowhere() -> Map<u32, usize> {
    Map::empty()
}

/// An empty map.
///
/// Calls `hashbrown::HashMap::with_hasher`, whose map holds nothing.
#[verifier::external_body]
fn no_positions() -> (r: Positions)
    ensures
        positions_of(r) == nowhere(),
{
    Positions { map: hashbrown::HashMap::with_hasher(xxhash_rust::xxh3::Xxh3Builder::new()) }
}

/// The position of a fact.
///
/// Calls `hashbrown::HashMap::get`, which returns the value of the key, or
/// nothing when the map does not hold it.
#[verifier::external_body]
fn position(m: &Positions, id: u32) -> (r: Option<usize>)
    ensures
        r == (if positions_of(*m).contains_key(id) {
            Some(positions_of(*m)[id])
        } else {
            None
        }),
{
    m.map.get(&id).copied()
}

/// Notes the position of a fact.
///
/// Calls `hashbrown::HashMap::insert`, which sets the value of the key and
/// leaves every other key as it was.
#[verifier::external_body]
fn set_position(m: &mut Positions, id: u32, at: usize)
    ensures
        positions_of(*final(m)) == positions_of(*old(m)).insert(id, at),
{
    m.map.insert(id, at);
}

/// A fact with the sources that surfaced it and its zero-based rank in each.
pub struct Fused {
    /// The fact.
    pub id: FactId,
    /// The source bits.
    pub sources: u8,
    /// Source bit and rank, in the order of the sources.
    pub hits: Vec<(u8, usize)>,
}

/// A fused fact.
pub struct FusedView {
    pub id: FactId,
    pub sources: u8,
    pub hits: Seq<(u8, int)>,
}

impl View for Fused {
    type V = FusedView;

    open spec fn view(&self) -> FusedView {
        FusedView {
            id: self.id,
            sources: self.sources,
            hits: self.hits@.map_values(|h: (u8, usize)| (h.0, h.1 as int)),
        }
    }
}

pub open spec fn fused_views(xs: Seq<Fused>) -> Seq<FusedView> {
    xs.map_values(|x: Fused| x@)
}

/// A ranked list of a source.
pub type SourceList = (u8, Seq<FactId>);

/// The place of a fact among fused ones.
pub open spec fn place_of(xs: Seq<FusedView>, id: FactId) -> Option<int> {
    if exists|i: int| 0 <= i < xs.len() && (#[trigger] xs[i]).id == id {
        Some(choose|i: int| 0 <= i < xs.len() && (#[trigger] xs[i]).id == id)
    } else {
        None
    }
}

/// One more hit.
pub open spec fn with_hit(xs: Seq<FusedView>, id: FactId, bit: u8, rank: int) -> Seq<FusedView> {
    match place_of(xs, id) {
        Some(i) => xs.update(
            i,
            FusedView { id, sources: xs[i].sources | bit, hits: xs[i].hits.push((bit, rank)) },
        ),
        None => xs.push(FusedView { id, sources: bit, hits: seq![(bit, rank)] }),
    }
}

/// The first `n` facts of a list, joined in.
pub open spec fn with_list(xs: Seq<FusedView>, bit: u8, facts: Seq<FactId>, n: nat) -> Seq<FusedView>
    decreases n,
{
    if n == 0 {
        xs
    } else {
        with_hit(with_list(xs, bit, facts, (n - 1) as nat), facts[n - 1], bit, n - 1)
    }
}

/// The lists fused, in order of first occurrence.
pub open spec fn fused(lists: Seq<SourceList>) -> Seq<FusedView>
    decreases lists.len(),
{
    if lists.len() == 0 {
        Seq::empty()
    } else {
        let (bit, facts) = lists.last();
        with_list(fused(lists.drop_last()), bit, facts, facts.len())
    }
}

pub open spec fn list_views(lists: Seq<(u8, Vec<FactId>)>) -> Seq<SourceList> {
    lists.map_values(|l: (u8, Vec<FactId>)| (l.0, l.1@))
}

/// No fact occurs twice.
pub open spec fn each_once(xs: Seq<FusedView>) -> bool {
    forall|i: int, j: int| 0 <= i < j < xs.len() ==> (#[trigger] xs[i]).id != (#[trigger] xs[j]).id
}

/// The map says where each fact stands.
spec fn mapped(m: Map<u32, usize>, xs: Seq<FusedView>) -> bool {
    &&& each_once(xs)
    &&& forall|i: int|
        0 <= i < xs.len() ==> m.contains_key((#[trigger] xs[i]).id.0) && m[xs[i].id.0] == i
    &&& forall|id: u32| #[trigger]
        m.contains_key(id) ==> m[id] < xs.len() && xs[m[id] as int].id.0 == id
}

proof fn lemma_place(m: Map<u32, usize>, xs: Seq<FusedView>, id: FactId)
    requires
        mapped(m, xs),
    ensures
        place_of(xs, id) == (if m.contains_key(id.0) {
            Some(m[id.0] as int)
        } else {
            None
        }),
{
    if m.contains_key(id.0) {
        assert(xs[m[id.0] as int].id == id);
    }
}

/// Notes one hit.
fn note(out: &mut Vec<Fused>, m: &mut Positions, id: FactId, bit: u8, rank: usize)
    requires
        mapped(positions_of(*old(m)), fused_views(old(out)@)),
    ensures
        mapped(positions_of(*final(m)), fused_views(final(out)@)),
        fused_views(final(out)@) == with_hit(fused_views(old(out)@), id, bit, rank as int),
{
    let ghost xs = fused_views(out@);
    let ghost before = positions_of(*m);
    proof {
        lemma_place(before, xs, id);
    }
    match position(m, id.0) {
        Some(at) => {
            assert(xs[at as int] == out@[at as int]@);
            let mut hits: Vec<(u8, usize)> = Vec::new();
            let n: usize = out[at].hits.len();
            let mut k: usize = 0;
            while k < n
                invariant
                    k <= n,
                    at < out@.len(),
                    n == out@[at as int].hits@.len(),
                    hits@ == out@[at as int].hits@.take(k as int),
                decreases n - k,
            {
                hits.push(out[at].hits[k]);
                k = k + 1;
                assert(hits@ =~= out@[at as int].hits@.take(k as int));
            }
            assert(hits@ =~= out@[at as int].hits@);
            hits.push((bit, rank));
            let sources: u8 = out[at].sources | bit;
            out.set(at, Fused { id, sources, hits });
            proof {
                let v = out@[at as int]@;
                assert(v.hits =~= xs[at as int].hits.push((bit, rank as int)));
                assert(fused_views(out@) =~= with_hit(xs, id, bit, rank as int));
            }
        },
        None => {
            let at: usize = out.len();
            let mut hits: Vec<(u8, usize)> = Vec::new();
            hits.push((bit, rank));
            out.push(Fused { id, sources: bit, hits });
            set_position(m, id.0, at);
            proof {
                let v = out@[at as int]@;
                assert(v.hits =~= seq![(bit, rank as int)]);
                assert(fused_views(out@) =~= with_hit(xs, id, bit, rank as int));
            }
        },
    }
}

/// Fuses ranked lists: every fact once, with its rank in each list.
pub fn fuse(lists: &Vec<(u8, Vec<FactId>)>) -> (r: Vec<Fused>)
    ensures
        fused_views(r@) == fused(list_views(lists@)),
{
    let ghost views = list_views(lists@);
    let mut out: Vec<Fused> = Vec::new();
    let mut m: Positions = no_positions();
    let mut i: usize = 0;
    proof {
        assert(fused_views(out@) =~= Seq::empty());
        assert(views.take(0) =~= Seq::empty());
    }
    while i < lists.len()
        invariant
            i <= lists@.len(),
            views == list_views(lists@),
            mapped(positions_of(m), fused_views(out@)),
            fused_views(out@) == fused(views.take(i as int)),
        decreases lists@.len() - i,
    {
        let ghost before = fused_views(out@);
        let bit: u8 = lists[i].0;
        let facts: &Vec<FactId> = &lists[i].1;
        proof {
            assert(views.take(i + 1).drop_last() =~= views.take(i as int));
            assert(views.take(i + 1).last() == (bit, facts@));
        }
        let mut rank: usize = 0;
        while rank < facts.len()
            invariant
                rank <= facts@.len(),
                mapped(positions_of(m), fused_views(out@)),
                fused_views(out@) == with_list(before, bit, facts@, rank as nat),
            decreases facts@.len() - rank,
        {
            note(&mut out, &mut m, facts[rank], bit, rank);
            rank = rank + 1;
        }
        i = i + 1;
    }
    assert(views.take(i as int) =~= views);
    out
}

proof fn lemma_hit_once(xs: Seq<FusedView>, id: FactId, bit: u8, rank: int)
    requires
        each_once(xs),
    ensures
        each_once(with_hit(xs, id, bit, rank)),
{
}

proof fn lemma_list_once(xs: Seq<FusedView>, bit: u8, facts: Seq<FactId>, n: nat)
    requires
        each_once(xs),
    ensures
        each_once(with_list(xs, bit, facts, n)),
    decreases n,
{
    if n > 0 {
        lemma_list_once(xs, bit, facts, (n - 1) as nat);
        lemma_hit_once(with_list(xs, bit, facts, (n - 1) as nat), facts[n - 1], bit, n - 1);
    }
}

/// However many sources surface a fact, fusion returns it once.
pub proof fn fused_facts_are_distinct(lists: Seq<SourceList>)
    ensures
        each_once(fused(lists)),
    decreases lists.len(),
{
    if lists.len() > 0 {
        fused_facts_are_distinct(lists.drop_last());
        let (bit, facts) = lists.last();
        lemma_list_once(fused(lists.drop_last()), bit, facts, facts.len());
    }
}

/// A fact of some list.
pub open spec fn on_some(lists: Seq<SourceList>, id: FactId) -> bool {
    exists|i: int| 0 <= i < lists.len() && (#[trigger] lists[i]).1.contains(id)
}

proof fn lemma_list_ids(xs: Seq<FusedView>, bit: u8, facts: Seq<FactId>, n: nat, id: FactId)
    requires
        n <= facts.len(),
    ensures
        (place_of(with_list(xs, bit, facts, n), id) is Some) <==> (place_of(xs, id) is Some || facts.take(
            n as int,
        ).contains(id)),
    decreases n,
{
    if n > 0 {
        let m = (n - 1) as nat;
        lemma_list_ids(xs, bit, facts, m, id);
        let front = with_list(xs, bit, facts, m);
        let all = with_list(xs, bit, facts, n);
        let f = facts[n - 1];
        assert(facts.take(n as int) =~= facts.take(m as int).push(f));
        assert(facts.take(n as int).contains(id) <==> facts.take(m as int).contains(id) || f == id)
            by {
            assert(facts.take(n as int)[n - 1] == f);
            if facts.take(m as int).contains(id) {
                let j = facts.take(m as int).index_of(id);
                assert(facts.take(n as int)[j] == id);
            }
            if facts.take(n as int).contains(id) {
                let j = facts.take(n as int).index_of(id);
                if j < m {
                    assert(facts.take(m as int)[j] == id);
                }
            }
        }
        assert(place_of(all, id) is Some <==> place_of(front, id) is Some || f == id) by {
            if place_of(front, id) is Some {
                let j = place_of(front, id)->0;
                assert(all[j].id == id);
            }
            match place_of(front, f) {
                Some(j) => {
                    assert(all[j].id == f);
                    assert forall|k: int| 0 <= k < all.len() implies (#[trigger] all[k]).id
                        == front[k].id by {}
                },
                None => {
                    assert(all[front.len() as int].id == f);
                    assert forall|k: int| 0 <= k < front.len() implies (#[trigger] all[k]).id
                        == front[k].id by {}
                },
            }
        }
    } else {
        assert(facts.take(0) =~= Seq::empty());
        assert(!facts.take(0).contains(id));
    }
}

/// Fusion returns the facts of the lists and no others.
pub proof fn fused_facts_come_from_sources(lists: Seq<SourceList>, id: FactId)
    ensures
        place_of(fused(lists), id) is Some <==> on_some(lists, id),
    decreases lists.len(),
{
    if lists.len() > 0 {
        let front = lists.drop_last();
        fused_facts_come_from_sources(front, id);
        let (bit, facts) = lists.last();
        lemma_list_ids(fused(front), bit, facts, facts.len(), id);
        assert(facts.take(facts.len() as int) =~= facts);
        assert(lists[lists.len() - 1].1 == facts);
        if on_some(front, id) {
            let i = choose|i: int| 0 <= i < front.len() && (#[trigger] front[i]).1.contains(id);
            assert(lists[i].1.contains(id));
        }
        if on_some(lists, id) && !facts.contains(id) {
            let i = choose|i: int| 0 <= i < lists.len() && (#[trigger] lists[i]).1.contains(id);
            assert(front[i].1.contains(id));
        }
    }
}

/// The hits of a fact among fused ones.
spec fn hits_of(xs: Seq<FusedView>, id: FactId) -> Seq<(u8, int)> {
    match place_of(xs, id) {
        Some(i) => xs[i].hits,
        None => Seq::empty(),
    }
}

/// The bits of some hits together.
pub open spec fn bits_of(hits: Seq<(u8, int)>) -> u8
    decreases hits.len(),
{
    if hits.len() == 0 {
        0
    } else {
        bits_of(hits.drop_last()) | hits.last().0
    }
}

/// Every fused fact carries the bits of its hits.
spec fn bits_agree(xs: Seq<FusedView>) -> bool {
    forall|i: int| 0 <= i < xs.len() ==> (#[trigger] xs[i]).sources == bits_of(xs[i].hits)
}

proof fn lemma_hit(xs: Seq<FusedView>, f: FactId, bit: u8, rank: int, id: FactId)
    requires
        each_once(xs),
        bits_agree(xs),
    ensures
        hits_of(with_hit(xs, f, bit, rank), id) == (if id == f {
            hits_of(xs, id).push((bit, rank))
        } else {
            hits_of(xs, id)
        }),
        bits_agree(with_hit(xs, f, bit, rank)),
{
    let out = with_hit(xs, f, bit, rank);
    lemma_hit_once(xs, f, bit, rank);
    let h = (bit, rank);
    assert(hits_of(xs, f).push(h).drop_last() =~= hits_of(xs, f));
    assert(0u8 | bit == bit) by (bit_vector);
    match place_of(xs, f) {
        Some(i) => {
            assert(out[i].id == f);
            assert forall|k: int| 0 <= k < out.len() implies (#[trigger] out[k]).sources == bits_of(
                out[k].hits,
            ) by {
                if k != i {
                    assert(out[k] == xs[k]);
                }
            }
            if id == f {
                assert(place_of(out, f) == Some(i));
            } else {
                if place_of(xs, id) is Some {
                    let j = place_of(xs, id)->0;
                    assert(out[j] == xs[j]);
                    assert(place_of(out, id) == Some(j));
                } else if place_of(out, id) is Some {
                    let j = place_of(out, id)->0;
                    assert(xs[j].id == id);
                }
            }
        },
        None => {
            let n = xs.len() as int;
            assert(out[n].id == f);
            assert(seq![h] =~= Seq::empty().push(h));
            assert(seq![h].drop_last() =~= Seq::empty());
            assert(bits_of(seq![h]) == bit) by {
                assert(bits_of(seq![h].drop_last()) == 0);
            }
            assert forall|k: int| 0 <= k < out.len() implies (#[trigger] out[k]).sources == bits_of(
                out[k].hits,
            ) by {
                if k < n {
                    assert(out[k] == xs[k]);
                }
            }
            if id == f {
                assert(place_of(out, f) == Some(n));
            } else {
                if place_of(xs, id) is Some {
                    let j = place_of(xs, id)->0;
                    assert(out[j] == xs[j]);
                    assert(place_of(out, id) == Some(j));
                } else if place_of(out, id) is Some {
                    let j = place_of(out, id)->0;
                    assert(xs[j].id == id);
                }
            }
        },
    }
}

/// A hit is a place of a fact on a list.
pub open spec fn is_hit(bit: u8, facts: Seq<FactId>, id: FactId, h: (u8, int)) -> bool {
    h.0 == bit && 0 <= h.1 < facts.len() && facts[h.1] == id
}

proof fn lemma_list_hits(xs: Seq<FusedView>, bit: u8, facts: Seq<FactId>, n: nat, id: FactId)
    requires
        each_once(xs),
        bits_agree(xs),
        n <= facts.len(),
    ensures
        ({
            let old = hits_of(xs, id);
            let new = hits_of(with_list(xs, bit, facts, n), id);
            &&& bits_agree(with_list(xs, bit, facts, n))
            &&& new.len() == old.len() + facts.take(n as int).to_multiset().count(id)
            &&& forall|i: int| 0 <= i < old.len() ==> #[trigger] new[i] == old[i]
            &&& forall|i: int|
                old.len() <= i < new.len() ==> is_hit(bit, facts, id, #[trigger] new[i])
            &&& forall|r: int| 0 <= r < n && #[trigger] facts[r] == id ==> new.contains((bit, r))
        }),
    decreases n,
{
    broadcast use vstd::seq_lib::group_to_multiset_ensures;

    if n == 0 {
        facts.take(0).to_multiset_ensures();
        assert(!facts.take(0).contains(id));
    } else {
        let m = (n - 1) as nat;
        lemma_list_hits(xs, bit, facts, m, id);
        let front = with_list(xs, bit, facts, m);
        lemma_list_once(xs, bit, facts, m);
        let f = facts[m as int];
        lemma_hit(front, f, bit, m as int, id);
        assert(facts.take(n as int) =~= facts.take(m as int).push(f));
        let old = hits_of(xs, id);
        let mid = hits_of(front, id);
        let new = hits_of(with_list(xs, bit, facts, n), id);
        assert forall|r: int| 0 <= r < n && #[trigger] facts[r] == id implies new.contains(
            (bit, r),
        ) by {
            if r < m {
                let k = mid.index_of((bit, r));
                assert(mid.contains((bit, r)));
                assert(new[k] == (bit, r));
            } else {
                assert(new[new.len() - 1] == (bit, r));
            }
        }
        assert forall|i: int| old.len() <= i < new.len() implies is_hit(
            bit,
            facts,
            id,
            #[trigger] new[i],
        ) by {
            if i < mid.len() {
                assert(new[i] == mid[i]);
            }
        }
    }
}

/// How often a fact occurs on some lists.
pub open spec fn times_listed(lists: Seq<SourceList>, id: FactId) -> nat
    decreases lists.len(),
{
    if lists.len() == 0 {
        0
    } else {
        times_listed(lists.drop_last(), id) + lists.last().1.to_multiset().count(id)
    }
}

/// A hit of a fact: its place on one of the lists.
pub open spec fn hit_on(lists: Seq<SourceList>, id: FactId, h: (u8, int)) -> bool {
    exists|l: int| 0 <= l < lists.len() && is_hit((#[trigger] lists[l]).0, lists[l].1, id, h)
}

proof fn lemma_fused_hits(lists: Seq<SourceList>, id: FactId)
    ensures
        ({
            let hits = hits_of(fused(lists), id);
            &&& bits_agree(fused(lists))
            &&& hits.len() == times_listed(lists, id)
            &&& forall|i: int| 0 <= i < hits.len() ==> hit_on(lists, id, #[trigger] hits[i])
            &&& forall|l: int, r: int|
                0 <= l < lists.len() && 0 <= r < lists[l].1.len() && #[trigger] lists[l].1[r] == id
                    ==> hits.contains((lists[l].0, r))
        }),
    decreases lists.len(),
{
    if lists.len() > 0 {
        let init = lists.drop_last();
        let (bit, facts) = lists.last();
        lemma_fused_hits(init, id);
        fused_facts_are_distinct(init);
        lemma_list_hits(fused(init), bit, facts, facts.len(), id);
        assert(facts.take(facts.len() as int) =~= facts);
        let old = hits_of(fused(init), id);
        let hits = hits_of(fused(lists), id);
        assert forall|i: int| 0 <= i < hits.len() implies hit_on(lists, id, #[trigger] hits[i]) by {
            if i < old.len() {
                assert(hits[i] == old[i]);
                let l = choose|l: int|
                    0 <= l < init.len() && is_hit((#[trigger] init[l]).0, init[l].1, id, old[i]);
                assert(lists[l] == init[l]);
            } else {
                assert(lists[lists.len() - 1] == (bit, facts));
            }
        }
        assert forall|l: int, r: int|
            0 <= l < lists.len() && 0 <= r < lists[l].1.len() && #[trigger] lists[l].1[r]
                == id implies hits.contains((lists[l].0, r)) by {
            if l < init.len() {
                assert(lists[l] == init[l]);
                assert(init[l].1[r] == id);
                let k = old.index_of((lists[l].0, r));
                assert(old.contains((lists[l].0, r)));
                assert(hits[k] == (lists[l].0, r));
            } else {
                assert(facts[r] == id);
            }
        }
    }
}

/// Fusion notes every rank: each fused fact has one hit for each of its places
/// on a list, with the bit of that list, and the bits of its hits together.
pub proof fn fusion_notes_every_rank(lists: Seq<SourceList>, p: int)
    requires
        0 <= p < fused(lists).len(),
    ensures
        ({
            let v = fused(lists)[p];
            &&& v.sources == bits_of(v.hits)
            &&& v.hits.len() == times_listed(lists, v.id)
            &&& forall|i: int| 0 <= i < v.hits.len() ==> hit_on(lists, v.id, #[trigger] v.hits[i])
            &&& forall|l: int, r: int|
                0 <= l < lists.len() && 0 <= r < lists[l].1.len() && #[trigger] lists[l].1[r]
                    == v.id ==> v.hits.contains((lists[l].0, r))
        }),
{
    let v = fused(lists)[p];
    lemma_fused_hits(lists, v.id);
    fused_facts_are_distinct(lists);
    let q = place_of(fused(lists), v.id)->0;
    assert(fused(lists)[q].id == v.id);
    assert(q == p);
}

} // verus!
