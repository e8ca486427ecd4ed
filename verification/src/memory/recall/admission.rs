//! The tag filter and the admission rule that every source shares.

use crate::id::FactId;
use crate::index;
use crate::index::{intersect, IntersectScratch};
use crate::interner;
use crate::memory::state;
use crate::memory::state::State;
use crate::memory::Memory;
use crate::model::FactRecord;
use vstd::prelude::*;
use vstd::string::*;

verus! {

/// The multiplier of Fibonacci hashing.
pub const MIX: u64 = 0x9E37_79B9_7F4A_7C15;

/// Smallest filter, in 64-bit words.
pub const ALLOW_MIN_WORDS: usize = 8;

/// Largest filter, in 64-bit words.
pub const ALLOW_MAX_WORDS: usize = 16384;

/// A membership filter over fact ids: a member's bit is always set, so a clear
/// bit is proof of absence.
pub struct AllowFilter {
    bits: Vec<u64>,
    /// The shift that maps a hash onto a bit index.
    shift: u64,
}

/// The bit of an id.
pub open spec fn bit_of(id: FactId, shift: u64) -> u64 {
    (id.0 as u64).wrapping_mul(MIX) >> shift
}

/// Bit `at` is set.
pub open spec fn bit_set(bits: Seq<u64>, at: int) -> bool {
    bits[at / 64] & (1u64 << ((at % 64) as u64)) != 0
}

/// One of some ids has the bit `at`.
pub open spec fn hit(ids: Seq<FactId>, shift: u64, at: int) -> bool {
    exists|i: int| 0 <= i < ids.len() && #[trigger] bit_of(ids[i], shift) == at
}

/// `words` doubled until it is enough or as large as a filter gets.
pub open spec fn grown_to(words: int, enough: int) -> int
    decreases
            (if words < ALLOW_MAX_WORDS {
                ALLOW_MAX_WORDS - words
            } else {
                0
            }),
{
    if words < 1 || words >= enough || words >= ALLOW_MAX_WORDS {
        words
    } else {
        grown_to(2 * words, enough)
    }
}

impl AllowFilter {
    /// As many bits as the shift leaves.
    pub closed spec fn wf(&self) -> bool {
        &&& 44 <= self.shift <= 55
        &&& self.bits@.len() * 64 == (1u64 << ((64 - self.shift) as u64))
    }

    /// The shift that maps a hash onto a bit index.
    pub closed spec fn spread(&self) -> u64 {
        self.shift
    }

    /// The filter holds the bits of exactly these ids.
    pub closed spec fn covers(&self, ids: Seq<FactId>) -> bool {
        forall|at: int|
            0 <= at < self.bits@.len() * 64 ==> #[trigger] bit_set(self.bits@, at) == hit(
                ids,
                self.shift,
                at,
            )
    }

    /// The number of words.
    pub closed spec fn size(&self) -> int {
        self.bits@.len() as int
    }

    /// The filter of some ids: a byte for each, rounded up to a power of two of
    /// words.
    pub fn fill(allow: &Vec<FactId>) -> (r: AllowFilter)
        ensures
            r.wf(),
            r.covers(allow@),
            r.size() == grown_to(ALLOW_MIN_WORDS as int, (allow@.len() as int + 7) / 8),
    {
        let eighth: usize = if allow.len() % 8 == 0 {
            allow.len() / 8
        } else {
            allow.len() / 8 + 1
        };
        let mut words: usize = ALLOW_MIN_WORDS;
        let mut shift: u64 = 55;
        assert(8 * 64 == (1u64 << 9u64)) by (bit_vector);
        while words < eighth && words < ALLOW_MAX_WORDS
            invariant
                grown_to(words as int, eighth as int) == grown_to(
                    ALLOW_MIN_WORDS as int,
                    eighth as int,
                ),
                44 <= shift <= 55,
                8 <= words <= ALLOW_MAX_WORDS,
                words * 64 == (1u64 << ((64 - shift) as u64)),
                words == ALLOW_MAX_WORDS <==> shift == 44,
            decreases ALLOW_MAX_WORDS - words,
        {
            let ghost before = shift;
            proof {
                let a: u64 = (64 - before) as u64;
                assert(44 < before <= 55);
                assert((1u64 << ((a + 1) as u64)) == 2 * (1u64 << a)) by (bit_vector)
                    requires
                        9 <= a < 20,
                ;
                assert((1u64 << 20u64) == 16384 * 64) by (bit_vector);
                assert(9 <= a < 19 ==> (1u64 << ((a + 1) as u64)) < (1u64 << 20u64)) by (bit_vector);
            }
            words = words * 2;
            shift = shift - 1;
        }
        let mut bits: Vec<u64> = Vec::new();
        let mut j: usize = 0;
        while j < words
            invariant
                j <= words,
                bits@.len() == j,
                forall|k: int| 0 <= k < j ==> #[trigger] bits@[k] == 0,
            decreases words - j,
        {
            bits.push(0);
            j = j + 1;
        }
        let mut out = AllowFilter { bits, shift };
        let mut i: usize = 0;
        proof {
            assert(allow@.take(0) =~= Seq::empty());
            assert forall|at: int| 0 <= at < out.bits@.len() * 64 implies #[trigger] bit_set(
                out.bits@,
                at,
            ) == hit(allow@.take(0), shift, at) by {
                let b: u64 = (at % 64) as u64;
                assert(0u64 & (1u64 << b) == 0) by (bit_vector);
                assert(out.bits@[at / 64] == 0);
            }
        }
        while i < allow.len()
            invariant
                i <= allow@.len(),
                out.wf(),
                out.size() == words,
                out.covers(allow@.take(i as int)),
            decreases allow@.len() - i,
        {
            out.set(allow[i]);
            proof {
                let front = allow@.take(i as int);
                let next = allow@.take(i + 1);
                assert forall|at: int| hit(next, out.shift, at) == (hit(front, out.shift, at)
                    || bit_of(allow@[i as int], out.shift) == at) by {
                    if hit(front, out.shift, at) {
                        let k = choose|k: int|
                            0 <= k < front.len() && #[trigger] bit_of(front[k], out.shift) == at;
                        assert(bit_of(next[k], out.shift) == at);
                    }
                    if bit_of(allow@[i as int], out.shift) == at {
                        assert(bit_of(next[i as int], out.shift) == at);
                    }
                    if hit(next, out.shift, at) {
                        let k = choose|k: int|
                            0 <= k < next.len() && #[trigger] bit_of(next[k], out.shift) == at;
                        if k < i {
                            assert(bit_of(front[k], out.shift) == at);
                        }
                    }
                }
            }
            i = i + 1;
        }
        assert(allow@.take(i as int) =~= allow@);
        out
    }

    /// Bit index of `id`. Ids that differ in their low bits do not collide in
    /// runs.
    fn index(&self, id: FactId) -> (r: usize)
        requires
            self.wf(),
        ensures
            r == bit_of(id, self.shift),
            r < self.bits@.len() * 64,
    {
        let x: u64 = (id.0 as u64).wrapping_mul(MIX);
        let shift: u64 = self.shift;
        assert((x >> shift) < (1u64 << ((64 - shift) as u64))) by (bit_vector)
            requires
                44 <= shift <= 55,
        ;
        let n: usize = self.bits.len();
        assert((1u64 << ((64 - shift) as u64)) <= 0x10_0000) by (bit_vector)
            requires
                44 <= shift <= 55,
        ;
        (x >> shift) as usize
    }

    /// Sets the bit of an id.
    fn set(&mut self, id: FactId)
        requires
            old(self).wf(),
        ensures
            final(self).size() == old(self).size(),
            final(self).wf(),
            final(self).shift == old(self).shift,
            final(self).bits@.len() == old(self).bits@.len(),
            forall|at: int|
                0 <= at < final(self).bits@.len() * 64 ==> #[trigger] bit_set(final(self).bits@, at)
                    == (bit_set(old(self).bits@, at) || bit_of(id, old(self).shift) == at),
    {
        let ghost before = self.bits@;
        let at: usize = self.index(id);
        let w: u64 = self.bits[at / 64];
        let b: u64 = (at % 64) as u64;
        self.bits.set(at / 64, w | (1u64 << b));
        proof {
            assert forall|k: int| 0 <= k < self.bits@.len() * 64 implies #[trigger] bit_set(
                self.bits@,
                k,
            ) == (bit_set(before, k) || bit_of(id, self.shift) == k) by {
                let c: u64 = (k % 64) as u64;
                if k / 64 == at / 64 {
                    assert(((w | (1u64 << b)) & (1u64 << c) != 0) == ((w & (1u64 << c) != 0) || b
                        == c)) by (bit_vector)
                        requires
                            b < 64,
                            c < 64,
                    ;
                }
            }
        }
    }

    /// `false` proves that `id` is not among the ids of the filter; `true`
    /// asks for a look at the ids themselves.
    pub fn maybe_contains(&self, id: FactId) -> (r: bool)
        requires
            self.wf(),
        ensures
            forall|ids: Seq<FactId>| #[trigger]
                self.covers(ids) ==> r == hit(ids, self.spread(), bit_of(id, self.spread()) as int),
            forall|ids: Seq<FactId>| #[trigger]
                self.covers(ids) && ids.contains(id) ==> r,
    {
        let at: usize = self.index(id);
        let r: bool = self.bits[at / 64] & (1u64 << ((at % 64) as u64)) != 0;
        proof {
            assert(r == bit_set(self.bits@, at as int));
            assert forall|ids: Seq<FactId>| #[trigger] self.covers(ids) && ids.contains(id) implies r by {
                let k = choose|k: int| 0 <= k < ids.len() && ids[k] == id;
                assert(bit_of(ids[k], self.shift) == at);
                assert(hit(ids, self.shift, at as int));
            }
        }
        r
    }
}

/// The terms of some tags; `None` when a tag is unknown.
pub open spec fn tag_terms(s: State, tags: Seq<Seq<char>>) -> Option<Seq<u32>>
    decreases tags.len(),
{
    if tags.len() == 0 {
        Some(Seq::empty())
    } else {
        match (tag_terms(s, tags.drop_last()), interner::lookup_of(s.terms, tags.last())) {
            (Some(front), Some(t)) => Some(front.push(t.0)),
            _ => None,
        }
    }
}

/// The facts that carry all of some terms, by ascending id.
pub open spec fn allow_of(s: State, terms: Seq<u32>, ids: Seq<FactId>) -> bool {
    &&& index::rising(ids.map_values(|f: FactId| f.0))
    &&& forall|id: u32| #[trigger]
        ids.contains(FactId(id)) <==> terms.len() > 0 && index::on_all(s.tags_idx, terms, id)
}

/// The allow-set of a query.
pub struct Allow {
    ids: Vec<FactId>,
    filter: AllowFilter,
}

impl View for Allow {
    type V = Seq<FactId>;

    closed spec fn view(&self) -> Seq<FactId> {
        self.ids@
    }
}

impl Allow {
    pub closed spec fn wf(&self) -> bool {
        &&& index::rising(self.ids@.map_values(|f: FactId| f.0))
        &&& self.filter.wf()
        &&& self.filter.covers(self.ids@)
    }

    /// The facts of the set, by ascending id.
    pub fn members(&self) -> (r: &Vec<FactId>)
        ensures
            r@ == self@,
    {
        &self.ids
    }

    /// Whether a fact is in the set.
    pub fn contains(&self, id: FactId) -> (r: bool)
        requires
            self.wf(),
        ensures
            r == self@.contains(id),
    {
        if !self.filter.maybe_contains(id) {
            return false;
        }
        let ghost nums = self.ids@.map_values(|f: FactId| f.0);
        let mut lo: usize = 0;
        let mut hi: usize = self.ids.len();
        while lo < hi
            invariant
                lo <= hi <= self.ids@.len(),
                nums == self.ids@.map_values(|f: FactId| f.0),
                index::rising(nums),
                forall|i: int| 0 <= i < lo ==> (#[trigger] self.ids@[i]).0 < id.0,
                forall|i: int| hi <= i < self.ids@.len() ==> (#[trigger] self.ids@[i]).0 > id.0,
            decreases hi - lo,
        {
            let mid: usize = lo + (hi - lo) / 2;
            let x: u32 = self.ids[mid].0;
            if x == id.0 {
                assert(self.ids@[mid as int] == id);
                return true;
            }
            proof {
                assert forall|i: int| 0 <= i < self.ids@.len() implies (i < mid ==> (
                #[trigger] self.ids@[i]).0 < x) && (i > mid ==> self.ids@[i].0 > x) by {
                    assert(nums[i] == self.ids@[i].0 && nums[mid as int] == x);
                }
            }
            if x < id.0 {
                lo = mid + 1;
            } else {
                hi = mid;
            }
        }
        false
    }
}

/// The ids that a filter lets through; `None` lets everything through.
pub open spec fn allow_view(allow: Option<Allow>) -> Option<Seq<FactId>> {
    match allow {
        Some(a) => Some(a@),
        None => None,
    }
}

/// A fact that a source may return: in the allow-set when there is one, not
/// forgotten, known and true at the instant. `include_closed` drops the upper
/// end of the validity interval.
pub open spec fn admitted(
    s: State,
    allow: Option<Seq<FactId>>,
    as_of: u64,
    include_closed: bool,
    id: FactId,
) -> Option<FactRecord> {
    if allow is Some && !allow->0.contains(id) {
        None
    } else {
        match state::fact_of(s, id) {
            None => None,
            Some(f) => if f.tombstone() || f.recorded_at > as_of || f.valid_from > as_of || (
            !include_closed && as_of >= f.valid_to) {
                None
            } else {
                Some(f)
            },
        }
    }
}

/// What the tag filter of a query comes to.
pub enum TagFilter {
    /// The query names no tag.
    Open,
    /// No fact can match.
    Dead,
    /// Only these facts can match.
    Only(Allow),
}

impl TagFilter {
    /// The filter is that of some tags.
    pub open spec fn is_filter(&self, s: State, tags: Seq<Seq<char>>) -> bool {
        match *self {
            TagFilter::Open => tags.len() == 0,
            TagFilter::Dead => tags.len() > 0 && match tag_terms(s, tags) {
                None => true,
                Some(terms) => forall|id: u32| !#[trigger] index::on_all(s.tags_idx, terms, id),
            },
            TagFilter::Only(a) => a.wf() && tags.len() > 0 && a@.len() > 0 && match tag_terms(
                s,
                tags,
            ) {
                None => false,
                Some(terms) => allow_of(s, terms, a@),
            },
        }
    }
}

proof fn lemma_unknown(s: State, tags: Seq<Seq<char>>, n: int)
    requires
        0 <= n <= tags.len(),
        tag_terms(s, tags.take(n)) is None,
    ensures
        tag_terms(s, tags) is None,
    decreases tags.len() - n,
{
    if n < tags.len() {
        assert(tags.take(n + 1).drop_last() =~= tags.take(n));
        lemma_unknown(s, tags, n + 1);
    } else {
        assert(tags.take(n) =~= tags);
    }
}

proof fn lemma_terms_len(s: State, tags: Seq<Seq<char>>)
    ensures
        tag_terms(s, tags) matches Some(t) ==> t.len() == tags.len(),
    decreases tags.len(),
{
    if tags.len() > 0 {
        lemma_terms_len(s, tags.drop_last());
    }
}

impl Memory {
    /// The tag filter of a query: a fact must carry all of the tags, and an
    /// unknown tag matches nothing.
    pub fn tag_filter(&self, tags: &[&str]) -> (r: TagFilter)
        requires
            self.wf(),
        ensures
            r.is_filter(self@, crate::journal::str_views(tags@)),
    {
        let ghost s = self@;
        let ghost views = crate::journal::str_views(tags@);
        if tags.len() == 0 {
            return TagFilter::Open;
        }
        let mut terms: Vec<u32> = Vec::new();
        let mut i: usize = 0;
        assert(views.take(0) =~= Seq::empty());
        while i < tags.len()
            invariant
                i <= tags@.len(),
                tags@.len() > 0,
                s == self@,
                self.sound(),
                views == crate::journal::str_views(tags@),
                tag_terms(s, views.take(i as int)) == Some(terms@),
            decreases tags@.len() - i,
        {
            proof {
                assert(views.take(i + 1).drop_last() =~= views.take(i as int));
                assert(views.take(i + 1).last() == tags@[i as int]@);
            }
            match self.terms.lookup(tags[i]) {
                Some(t) => {
                    terms.push(t.0);
                },
                None => {
                    proof {
                        lemma_unknown(s, views, i + 1);
                    }
                    return TagFilter::Dead;
                },
            }
            i = i + 1;
        }
        assert(views.take(i as int) =~= views);
        proof {
            lemma_terms_len(s, views);
        }
        let mut scratch: IntersectScratch = IntersectScratch::new();
        let mut ids: Vec<FactId> = Vec::new();
        intersect(&self.tags_idx, terms.as_slice(), &mut scratch, &mut ids);
        if ids.len() == 0 {
            assert forall|id: u32| !#[trigger] index::on_all(s.tags_idx, terms@, id) by {
                assert(!ids@.contains(FactId(id)));
            }
            return TagFilter::Dead;
        }
        let filter: AllowFilter = AllowFilter::fill(&ids);
        TagFilter::Only(Allow { ids, filter })
    }

    /// The shared admission rule. Returns the record so that callers can reuse
    /// it.
    pub fn admission(&self, allow: &Option<Allow>, as_of: u64, include_closed: bool, id: FactId) -> (r:
        Option<FactRecord>)
        requires
            self.wf(),
            allow matches Some(a) ==> a.wf(),
        ensures
            r == admitted(self@, allow_view(*allow), as_of, include_closed, id),
    {
        if let Some(a) = allow {
            if !a.contains(id) {
                return None;
            }
        }
        match self.fact(id) {
            None => None,
            Some(f) => {
                if f.is_tombstone() || f.recorded_at > as_of || f.valid_from > as_of || (
                !include_closed && as_of >= f.valid_to) {
                    return None;
                }
                Some(f)
            },
        }
    }
}

/// Without closed revisions, what is admitted at an instant is live then.
pub proof fn admitted_is_live(s: State, allow: Option<Seq<FactId>>, as_of: u64, id: FactId)
    requires
        admitted(s, allow, as_of, false, id) is Some,
    ensures
        state::fact_of(s, id) matches Some(f) && f.live_at(as_of),
        allow matches Some(ids) ==> ids.contains(id),
{
}

} // verus!
