//! The recall indexes: shared posting storage, the BM25 lexical index, the
//! vector indexes, and plain id-list indexes (tag to facts, entity to facts)
//! with sorted-list intersection.

pub mod beam;
pub mod best_first;
pub mod bm25;
pub mod hnsw;
pub mod in_range;
pub mod insertion;
pub mod postings;
pub mod rank;
pub mod varint;
pub mod vecpool;

use crate::id::FactId;
use crate::index::postings::{Entries, Entry, PostingStore};
use vstd::prelude::*;

verus! {

/// Key to sorted fact-id lists without term frequencies: the tag and entity
/// indexes.
pub type IdListIndex = PostingStore<false>;

/// Reusable scratch for [`intersect`].
#[derive(Debug)]
pub struct IntersectScratch {
    a: Vec<u32>,
    b: Vec<u32>,
}

impl IntersectScratch {
    /// Empty scratch buffers.
    pub fn new() -> (r: IntersectScratch)
        ensures
            r.held() == (Seq::<u32>::empty(), Seq::<u32>::empty()),
    {
        IntersectScratch { a: Vec::new(), b: Vec::new() }
    }

    /// What the two buffers hold.
    pub closed spec fn held(&self) -> (Seq<u32>, Seq<u32>) {
        (self.a@, self.b@)
    }
}

impl Default for IntersectScratch {
    fn default() -> (r: IntersectScratch)
        ensures
            r.held() == (Seq::<u32>::empty(), Seq::<u32>::empty()),
    {
        IntersectScratch::new()
    }
}

/// `id` is among the entries.
pub open spec fn has_id(xs: Seq<Entry>, id: u32) -> bool {
    exists|i: int| 0 <= i < xs.len() && (#[trigger] xs[i]).0 == id
}

/// `id` is on the list of each key.
pub open spec fn on_all(v: Seq<postings::List>, keys: Seq<u32>, id: u32) -> bool {
    forall|k: int|
        0 <= k < keys.len() ==> has_id(postings::entries_of(v, #[trigger] keys[k]), id)
}

/// Strictly ascending numbers.
pub open spec fn rising(xs: Seq<u32>) -> bool {
    forall|i: int, j: int| 0 <= i < j < xs.len() ==> (#[trigger] xs[i]) < (#[trigger] xs[j])
}

/// Writes the ids that are both in `a` and on the walked list.
fn keep_common(a: &Vec<u32>, other: &mut Entries<'_, false>, out: &mut Vec<u32>)
    requires
        rising(a@),
        old(other).wf(),
    ensures
        final(other).wf(),
        rising(final(out)@),
        forall|x: u32|
            #[trigger] final(out)@.contains(x) <==> a@.contains(x) && has_id(
                old(other).rest(),
                x,
            ),
{
    out.clear();
    let ghost full = other.rest();
    proof {
        other.lemma_rest();
    }
    let ghost mut pos: int = 0;
    let mut cur: Option<(FactId, u8)> = other.next();
    let mut i: usize = 0;
    assert(full.skip(0) =~= full);
    while i < a.len()
        invariant
            i <= a@.len(),
            rising(a@),
            other.wf(),
            postings::list_ok(false, full),
            0 <= pos <= full.len(),
            match cur {
                Some((id, f)) => pos < full.len() && full[pos] == (id.0, f) && other.rest()
                    == full.skip(pos + 1),
                None => pos == full.len() && other.rest().len() == 0,
            },
            forall|p: int| 0 <= p < pos && i < a@.len() ==> (#[trigger] full[p]).0 < a@[i as int],
            rising(out@),
            forall|x: u32|
                #[trigger] out@.contains(x) <==> (exists|k: int|
                    0 <= k < i && #[trigger] a@[k] == x) && has_id(full, x),
        decreases a@.len() - i,
    {
        let id: u32 = a[i];
        let mut ahead: bool = match cur {
            Some((o, _)) => o.0 < id,
            None => false,
        };
        while ahead
            invariant
                other.wf(),
                i < a@.len(),
                id == a@[i as int],
                postings::list_ok(false, full),
                0 <= pos <= full.len(),
                match cur {
                    Some((o, f)) => pos < full.len() && full[pos] == (o.0, f) && other.rest()
                        == full.skip(pos + 1) && ahead == (o.0 < id),
                    None => pos == full.len() && other.rest().len() == 0 && !ahead,
                },
                forall|p: int| 0 <= p < pos ==> (#[trigger] full[p]).0 < id,
            decreases full.len() - pos,
        {
            cur = other.next();
            proof {
                if pos + 1 < full.len() {
                    assert(full.skip(pos + 1).skip(1) =~= full.skip(pos + 2));
                }
                pos = pos + 1;
            }
            ahead = match cur {
                Some((o, _)) => o.0 < id,
                None => false,
            };
        }
        let hit: bool = match cur {
            Some((o, _)) => o.0 == id,
            None => false,
        };
        let ghost before = out@;
        proof {
            if has_id(full, id) {
                let q = choose|q: int| 0 <= q < full.len() && (#[trigger] full[q]).0 == id;
                if q > pos {
                    assert(full[pos].0 < full[q].0);
                }
            }
            assert(hit == has_id(full, id));
        }
        if hit {
            proof {
                assert forall|k: int| 0 <= k < before.len() implies (#[trigger] before[k]) < id by {
                    assert(before.contains(before[k]));
                    let m = choose|m: int| 0 <= m < i && #[trigger] a@[m] == before[k];
                    assert(a@[m] < a@[i as int]);
                }
            }
            out.push(id);
        }
        proof {
            assert forall|x: u32|
                #[trigger] out@.contains(x) <==> (exists|k: int|
                    0 <= k < i + 1 && #[trigger] a@[k] == x) && has_id(full, x) by {
                if out@.contains(x) {
                    let k = out@.index_of(x);
                    if k < before.len() {
                        assert(before[k] == x && before.contains(x));
                    } else {
                        assert(a@[i as int] == x);
                    }
                }
                if (exists|k: int| 0 <= k < i + 1 && #[trigger] a@[k] == x) && has_id(full, x) {
                    let k = choose|k: int| 0 <= k < i + 1 && #[trigger] a@[k] == x;
                    if k < i {
                        assert(before.contains(x));
                        let m = before.index_of(x);
                        assert(out@[m] == x);
                    } else {
                        assert(out@[before.len() as int] == x);
                    }
                }
            }
            if i + 1 < a@.len() {
                assert(a@[i as int] < a@[i + 1]);
            }
        }
        i = i + 1;
    }
    proof {
        assert forall|x: u32| #[trigger] out@.contains(x) <==> a@.contains(x) && has_id(
            full,
            x,
        ) by {
            if a@.contains(x) {
                let k = a@.index_of(x);
                assert(a@[k] == x);
            }
        }
    }
}

/// Intersects the sorted lists of `keys` into `out` (ascending ids).
///
/// Starts from the shortest list (fewest candidates) and filters it against
/// the others by merge. An absent key means an empty list, so the intersection
/// is empty; an empty `keys` slice yields an empty result (the caller treats
/// "no tag filter" as "no allow-set", not as "allow everything").
pub fn intersect(
    index: &IdListIndex,
    keys: &[u32],
    scratch: &mut IntersectScratch,
    out: &mut Vec<FactId>,
)
    requires
        index.wf(),
    ensures
        rising(final(out)@.map_values(|f: FactId| f.0)),
        forall|id: u32|
            #[trigger] final(out)@.contains(FactId(id)) <==> keys@.len() > 0 && on_all(
                index@,
                keys@,
                id,
            ),
{
    out.clear();
    if keys.len() == 0 {
        return;
    }
    let mut smallest: usize = 0;
    let mut best: u32 = index.count(keys[0]);
    let mut s: usize = 1;
    while s < keys.len()
        invariant
            1 <= s <= keys@.len(),
            smallest < s,
            index.wf(),
        decreases keys@.len() - s,
    {
        let n: u32 = index.count(keys[s]);
        if n < best {
            best = n;
            smallest = s;
        }
        s = s + 1;
    }
    let first: u32 = keys[smallest];
    let ghost base = postings::entries_of(index@, first);
    let mut walk = index.entries(first);
    scratch.a.clear();
    proof {
        walk.lemma_rest();
        assert(base.take(0) =~= Seq::empty());
    }
    let ghost mut done: int = 0;
    let mut cur: Option<(FactId, u8)> = walk.next();
    while cur.is_some()
        invariant
            walk.wf(),
            postings::list_ok(false, base),
            0 <= done <= base.len(),
            match cur {
                Some((id, f)) => done < base.len() && base[done] == (id.0, f) && walk.rest()
                    == base.skip(done + 1),
                None => done == base.len(),
            },
            scratch.a@.len() == done,
            forall|k: int| 0 <= k < done ==> #[trigger] scratch.a@[k] == base[k].0,
        decreases base.len() - done,
    {
        scratch.a.push(cur.unwrap().0.0);
        cur = walk.next();
        proof {
            if done + 1 < base.len() {
                assert(base.skip(done + 1).skip(1) =~= base.skip(done + 2));
            }
            done = done + 1;
        }
    }
    proof {
        assert(rising(scratch.a@));
        assert forall|x: u32| #[trigger] scratch.a@.contains(x) <==> has_id(base, x) by {
            if scratch.a@.contains(x) {
                let k = scratch.a@.index_of(x);
                assert(base[k].0 == x);
            }
            if has_id(base, x) {
                let k = choose|k: int| 0 <= k < base.len() && (#[trigger] base[k]).0 == x;
                assert(scratch.a@[k] == x);
            }
        }
    }
    let mut k: usize = 0;
    while k < keys.len()
        invariant
            k <= keys@.len(),
            smallest < keys@.len(),
            first == keys@[smallest as int],
            index.wf(),
            base == postings::entries_of(index@, first),
            rising(scratch.a@),
            forall|x: u32|
                #[trigger] scratch.a@.contains(x) <==> has_id(base, x) && on_all(
                    index@,
                    keys@.take(k as int),
                    x,
                ),
        decreases keys@.len() - k,
    {
        let key: u32 = keys[k];
        let ghost before = scratch.a@;
        let ghost seen = keys@.take(k as int);
        let ghost next = keys@.take(k + 1);
        if key != first {
            let mut other = index.entries(key);
            keep_common(&scratch.a, &mut other, &mut scratch.b);
            core::mem::swap(&mut scratch.a, &mut scratch.b);
        }
        proof {
            assert(next =~= seen.push(key));
            assert forall|x: u32|
                #[trigger] scratch.a@.contains(x) <==> has_id(base, x) && on_all(
                    index@,
                    next,
                    x,
                ) by {
                assert(before.contains(x) <==> has_id(base, x) && on_all(index@, seen, x));
                if on_all(index@, next, x) {
                    assert forall|m: int| 0 <= m < seen.len() implies has_id(
                        postings::entries_of(index@, #[trigger] seen[m]),
                        x,
                    ) by {
                        assert(next[m] == seen[m]);
                    }
                    assert(next[k as int] == key);
                }
                if on_all(index@, seen, x) && has_id(postings::entries_of(index@, key), x) {
                    assert forall|m: int| 0 <= m < next.len() implies has_id(
                        postings::entries_of(index@, #[trigger] next[m]),
                        x,
                    ) by {
                        if m < k {
                            assert(next[m] == seen[m]);
                        }
                    }
                }
            }
        }
        k = k + 1;
    }
    assert(keys@.take(k as int) =~= keys@);
    let mut i: usize = 0;
    while i < scratch.a.len()
        invariant
            i <= scratch.a@.len(),
            out@.len() == i,
            forall|m: int| 0 <= m < i ==> (#[trigger] out@[m]).0 == scratch.a@[m],
        decreases scratch.a@.len() - i,
    {
        out.push(FactId(scratch.a[i]));
        i = i + 1;
    }
    proof {
        assert(out@.map_values(|f: FactId| f.0) =~= scratch.a@);
        assert forall|id: u32| #[trigger] out@.contains(FactId(id)) <==> keys@.len() > 0 && on_all(
            index@,
            keys@,
            id,
        ) by {
            if out@.contains(FactId(id)) {
                let m = out@.index_of(FactId(id));
                assert(scratch.a@[m] == id);
                assert(scratch.a@.contains(id));
            }
            if on_all(index@, keys@, id) {
                assert(has_id(postings::entries_of(index@, keys@[smallest as int]), id));
                assert(scratch.a@.contains(id));
                let m = scratch.a@.index_of(id);
                assert(out@[m] == FactId(id));
            }
        }
    }
}

} // verus!
