//! The current tag catalog: a sorted base plus a small overlay of count
//! overrides.
//!
//! Facts remain the source of truth. Writes place overrides into small sorted
//! runs, so a new tag does not shift the whole catalog, while reads merge one
//! base and a few runs.

use crate::codec::{get_u32, put_u32};
use crate::codec;
use crate::error::Error;
use crate::hash;
use crate::hash::{digest, feed, hash64, hasher};
use crate::id::{FactId, TermId};
use crate::index::postings;
use crate::interner;
use crate::interner::Interner;
use crate::memory::state;
use crate::memory::state::State;
use crate::memory::Memory;
use crate::memory::cursor;
use crate::memory::cursor::{decode_cursor, encode_cursor, Cursor};
use crate::parse;
use crate::text;
use crate::text::{str_before, str_eq};
use vstd::prelude::*;
use vstd::string::*;
use vstd::utf8::*;

verus! {

/// Default number of tags of one page.
pub const DEFAULT_TAG_PAGE_LIMIT: usize = 64;

/// Most tags of one page.
pub const MAX_TAG_PAGE_LIMIT: usize = 256;

/// Overrides that the level-zero run gathers before it is merged away.
pub const RUN_BASE: usize = 64;

/// A tag and its count.
#[derive(Clone, Copy, Debug, PartialEq, Eq, Structural)]
pub struct Entry {
    /// The tag.
    pub term: u32,
    /// Current facts that carry it.
    pub count: u32,
}

/// The sorted lists of a catalog: the base, the level-zero run, the merged
/// runs.
pub type Levels = Seq<Seq<Entry>>;

/// Names strictly ascending.
pub open spec fn sorted(terms: Seq<Seq<char>>, xs: Seq<Entry>) -> bool {
    forall|i: int, j: int|
        0 <= i < j < xs.len() ==> text::str_lt(
            terms[(#[trigger] xs[i]).term as int],
            terms[(#[trigger] xs[j]).term as int],
        )
}

/// Every tag is interned.
pub open spec fn interned(terms: Seq<Seq<char>>, xs: Seq<Entry>) -> bool {
    forall|i: int| 0 <= i < xs.len() ==> (#[trigger] xs[i]).term < terms.len()
}

/// An override is in force.
pub open spec fn overrides(c: Levels, t: u32, n: u32) -> bool {
    exists|k: int, i: int|
        1 <= k < c.len() && 0 <= i < c[k].len() && (#[trigger] c[k][i]).term == t && c[k][i].count
            == n
}

/// A tag has an override.
pub open spec fn overridden(c: Levels, t: u32) -> bool {
    exists|n: u32| #[trigger] overrides(c, t, n)
}

/// The base gives a tag a count.
pub open spec fn in_base(base: Seq<Entry>, t: u32, n: u32) -> bool {
    exists|i: int| 0 <= i < base.len() && (#[trigger] base[i]).term == t && base[i].count == n
}

/// The count of a tag: its override, else its base entry, else 0.
pub open spec fn count_of(c: Levels, t: u32) -> u32 {
    if overridden(c, t) {
        choose|n: u32| #[trigger] overrides(c, t, n)
    } else if exists|n: u32| #[trigger] in_base(c[0], t, n) {
        choose|n: u32| #[trigger] in_base(c[0], t, n)
    } else {
        0
    }
}

/// A tag has one override at most.
pub open spec fn single(c: Levels) -> bool {
    forall|k: int, i: int, l: int, j: int|
        1 <= k < c.len() && 0 <= i < c[k].len() && 1 <= l < c.len() && 0 <= j < c[l].len() && (
        #[trigger] c[k][i]).term == (#[trigger] c[l][j]).term ==> k == l && i == j
}

/// Every list is sorted and names interned tags.
pub open spec fn levels_ok(terms: Seq<Seq<char>>, c: Levels) -> bool {
    forall|k: int|
        0 <= k < c.len() ==> sorted(terms, #[trigger] c[k]) && interned(terms, c[k])
}

/// The digest of a tag and its count.
pub open spec fn entry_hash(name: Seq<char>, count: u32) -> u64 {
    hash::xxh3(encode_utf8(name) + codec::le32(count))
}

/// What a tag adds to the fingerprint.
pub open spec fn mark(name: Seq<char>, count: u32) -> u64 {
    if count == 0 {
        0
    } else {
        entry_hash(name, count)
    }
}

/// The fingerprint of the first `n` tags: the digests of the active ones,
/// combined in a way that no order matters to.
pub open spec fn fingerprint_of(terms: Seq<Seq<char>>, c: Levels, n: nat) -> u64
    decreases n,
{
    if n == 0 {
        0
    } else {
        fingerprint_of(terms, c, (n - 1) as nat) ^ mark(
            terms[n - 1],
            count_of(c, (n - 1) as u32),
        )
    }
}

/// A count after a change.
pub open spec fn changed(n: u32, delta: i32) -> u32 {
    let v = n as int + delta as int;
    if v < 0 {
        0
    } else if v > u32::MAX {
        u32::MAX
    } else {
        v as u32
    }
}

pub open spec fn level_views(xs: Seq<Vec<Entry>>) -> Levels {
    xs.map_values(|x: Vec<Entry>| x@)
}

/// A derived index of the tags of current facts.
#[derive(Debug)]
pub struct TagCatalog {
    levels: Vec<Vec<Entry>>,
    fingerprint: u64,
}

impl View for TagCatalog {
    type V = Levels;

    closed spec fn view(&self) -> Levels {
        level_views(self.levels@)
    }
}

proof fn lemma_sorted_once(terms: Seq<Seq<char>>, xs: Seq<Entry>, i: int, j: int)
    requires
        sorted(terms, xs),
        0 <= i < xs.len(),
        0 <= j < xs.len(),
        xs[i].term == xs[j].term,
    ensures
        i == j,
{
    text::lemma_str_total(terms[xs[i].term as int], terms[xs[i].term as int]);
}

/// The count of an overridden tag.
proof fn lemma_count_over(c: Levels, t: u32, n: u32)
    requires
        single(c),
        overrides(c, t, n),
    ensures
        overridden(c, t),
        count_of(c, t) == n,
{
    let m = choose|m: u32| #[trigger] overrides(c, t, m);
    assert(overrides(c, t, m));
    let (k, i) = choose|k: int, i: int|
        1 <= k < c.len() && 0 <= i < c[k].len() && (#[trigger] c[k][i]).term == t && c[k][i].count
            == n;
    let (l, j) = choose|l: int, j: int|
        1 <= l < c.len() && 0 <= j < c[l].len() && (#[trigger] c[l][j]).term == t && c[l][j].count
            == m;
    assert(c[l][j].term == c[k][i].term);
}

/// The count of a tag that has no override.
proof fn lemma_count_base(terms: Seq<Seq<char>>, c: Levels, t: u32, n: u32)
    requires
        sorted(terms, c[0]),
        in_base(c[0], t, n),
        !overridden(c, t),
    ensures
        count_of(c, t) == n,
{
    let m = choose|m: u32| #[trigger] in_base(c[0], t, m);
    assert(in_base(c[0], t, m));
    let i = choose|i: int|
        0 <= i < c[0].len() && (#[trigger] c[0][i]).term == t && c[0][i].count == n;
    let j = choose|j: int|
        0 <= j < c[0].len() && (#[trigger] c[0][j]).term == t && c[0][j].count == m;
    lemma_sorted_once(terms, c[0], i, j);
}

/// A tag whose count is not 0 has an entry that says so.
proof fn lemma_counted(c: Levels, t: u32)
    requires
        count_of(c, t) != 0,
    ensures
        overridden(c, t) ==> overrides(c, t, count_of(c, t)),
        !overridden(c, t) ==> in_base(c[0], t, count_of(c, t)),
{
}

/// Catalogs with the same base and the same overrides, but for one tag, count
/// alike, but for that tag.
proof fn lemma_same_counts(c: Levels, d: Levels, but: Option<u32>)
    requires
        single(c),
        single(d),
        c[0] == d[0],
        forall|t: u32, n: u32|
            but != Some(t) ==> (#[trigger] overrides(c, t, n) <==> overrides(d, t, n)),
    ensures
        forall|t: u32| but != Some(t) ==> #[trigger] count_of(c, t) == count_of(d, t),
{
    assert forall|t: u32| but != Some(t) implies #[trigger] count_of(c, t) == count_of(d, t) by {
        if overridden(c, t) {
            let n = choose|n: u32| #[trigger] overrides(c, t, n);
            assert(overrides(c, t, n));
            assert(overrides(d, t, n));
            lemma_count_over(c, t, n);
            lemma_count_over(d, t, n);
        } else {
            if overridden(d, t) {
                let n = choose|n: u32| #[trigger] overrides(d, t, n);
                assert(overrides(c, t, n));
            }
        }
    }
}

proof fn lemma_xor(a: u64, b: u64, x: u64, y: u64)
    ensures
        a ^ 0 == a,
        0 ^ a == a,
        (a ^ x) ^ y == (a ^ y) ^ x,
        ((a ^ x) ^ x) ^ y == a ^ y,
        ((a ^ b) ^ x) ^ y == ((a ^ x) ^ y) ^ b,
{
    assert(a ^ 0 == a && 0 ^ a == a && (a ^ x) ^ y == (a ^ y) ^ x && ((a ^ x) ^ x) ^ y == a ^ y && (
    (a ^ b) ^ x) ^ y == ((a ^ x) ^ y) ^ b) by (bit_vector);
}

/// A change of one count changes the fingerprint by the old and the new mark.
proof fn lemma_fingerprint(terms: Seq<Seq<char>>, c: Levels, d: Levels, t: u32, n: nat)
    requires
        n <= u32::MAX + 1,
        forall|s: u32| s != t ==> #[trigger] count_of(c, s) == count_of(d, s),
    ensures
        fingerprint_of(terms, d, n) == (if t < n {
            (fingerprint_of(terms, c, n) ^ mark(terms[t as int], count_of(c, t))) ^ mark(
                terms[t as int],
                count_of(d, t),
            )
        } else {
            fingerprint_of(terms, c, n)
        }),
    decreases n,
{
    if n > 0 {
        let m = (n - 1) as nat;
        lemma_fingerprint(terms, c, d, t, m);
        let f = fingerprint_of(terms, c, m);
        let a = mark(terms[t as int], count_of(c, t));
        let b = mark(terms[t as int], count_of(d, t));
        if t == m {
            lemma_xor(f, 0, a, b);
        } else {
            assert(count_of(c, m as u32) == count_of(d, m as u32));
            let r = mark(terms[m as int], count_of(c, m as u32));
            lemma_xor(f, r, a, b);
        }
    }
}

/// Catalogs that count alike have the same fingerprint.
proof fn lemma_same_fingerprint(terms: Seq<Seq<char>>, c: Levels, d: Levels, n: nat)
    requires
        forall|s: u32| #[trigger] count_of(c, s) == count_of(d, s),
    ensures
        fingerprint_of(terms, c, n) == fingerprint_of(terms, d, n),
    decreases n,
{
    if n > 0 {
        lemma_same_fingerprint(terms, c, d, (n - 1) as nat);
        assert(count_of(c, (n - 1) as u32) == count_of(d, (n - 1) as u32));
    }
}

impl TagCatalog {
    /// The catalog is valid over the terms it was built for.
    pub closed spec fn wf(&self, terms: Seq<Seq<char>>) -> bool {
        &&& self@.len() >= 2
        &&& levels_ok(terms, self@)
        &&& single(self@)
        &&& self@[1].len() < RUN_BASE
        &&& self.fingerprint == fingerprint_of(terms, self@, terms.len())
    }

    /// The fingerprint of the current tags and counts.
    pub closed spec fn fingerprint(&self) -> u64 {
        self.fingerprint
    }

    /// An empty catalog.
    pub fn new() -> (r: TagCatalog)
        ensures
            forall|terms: Seq<Seq<char>>| #[trigger] r.wf(terms),
            forall|t: u32| #[trigger] count_of(r@, t) == 0,
    {
        let mut levels: Vec<Vec<Entry>> = Vec::new();
        levels.push(Vec::new());
        levels.push(Vec::new());
        let r = TagCatalog { levels, fingerprint: 0 };
        proof {
            assert(r@[0] =~= Seq::empty() && r@[1] =~= Seq::empty());
            assert forall|t: u32| #[trigger] count_of(r@, t) == 0 by {
                assert forall|n: u32| !#[trigger] overrides(r@, t, n) by {}
                assert forall|n: u32| !#[trigger] in_base(r@[0], t, n) by {}
            }
            assert forall|terms: Seq<Seq<char>>| #[trigger] r.wf(terms) by {
                lemma_no_tags(terms, r@, terms.len());
            }
        }
        r
    }
}

proof fn lemma_no_tags(terms: Seq<Seq<char>>, c: Levels, n: nat)
    requires
        forall|t: u32| #[trigger] count_of(c, t) == 0,
    ensures
        fingerprint_of(terms, c, n) == 0,
    decreases n,
{
    if n > 0 {
        lemma_no_tags(terms, c, (n - 1) as nat);
        assert(count_of(c, (n - 1) as u32) == 0);
        lemma_xor(0, 0, 0, 0);
    }
}

/// The place of a name in a sorted list: the number of smaller names. `true`
/// when the name is there.
fn search(entries: &Vec<Entry>, terms: &Interner, name: &str) -> (r: (bool, usize))
    requires
        sorted(terms@, entries@),
        interned(terms@, entries@),
    ensures
        r.1 <= entries@.len(),
        forall|i: int|
            0 <= i < r.1 ==> text::str_lt(terms@[(#[trigger] entries@[i]).term as int], name@),
        forall|i: int|
            r.1 <= i < entries@.len() ==> !text::str_lt(
                terms@[(#[trigger] entries@[i]).term as int],
                name@,
            ),
        r.0 == (r.1 < entries@.len() && terms@[entries@[r.1 as int].term as int] == name@),
{
    let ghost names = terms@;
    let mut lo: usize = 0;
    let mut hi: usize = entries.len();
    while lo < hi
        invariant
            names == terms@,
            sorted(names, entries@),
            interned(names, entries@),
            lo <= hi <= entries@.len(),
            forall|i: int|
                0 <= i < lo ==> text::str_lt(names[(#[trigger] entries@[i]).term as int], name@),
            forall|i: int|
                hi <= i < entries@.len() ==> !text::str_lt(
                    names[(#[trigger] entries@[i]).term as int],
                    name@,
                ),
        decreases hi - lo,
    {
        let mid: usize = lo + (hi - lo) / 2;
        let ghost at = names[entries@[mid as int].term as int];
        assert(entries@[mid as int].term < names.len());
        if str_before(terms.resolve(TermId(entries[mid].term)), name) {
            proof {
                assert forall|i: int| 0 <= i < mid + 1 implies text::str_lt(
                    names[(#[trigger] entries@[i]).term as int],
                    name@,
                ) by {
                    if i < mid {
                        text::lemma_str_transitive(names[entries@[i].term as int], at, name@);
                    }
                }
            }
            lo = mid + 1;
        } else {
            proof {
                assert forall|i: int| mid <= i < entries@.len() implies !text::str_lt(
                    names[(#[trigger] entries@[i]).term as int],
                    name@,
                ) by {
                    if i > mid {
                        let x = names[entries@[i].term as int];
                        if text::str_lt(x, name@) {
                            text::lemma_str_transitive(at, x, name@);
                        }
                    }
                }
            }
            hi = mid;
        }
    }
    if lo < entries.len() {
        assert(entries@[lo as int].term < names.len());
        (str_eq(terms.resolve(TermId(entries[lo].term)), name), lo)
    } else {
        (false, lo)
    }
}

/// [`search`] for a tag: the tag is in the list exactly when it is at that
/// place.
fn find(entries: &Vec<Entry>, terms: &Interner, term: u32) -> (r: (bool, usize))
    requires
        terms.wf(),
        term < terms@.len(),
        sorted(terms@, entries@),
        interned(terms@, entries@),
    ensures
        r.1 <= entries@.len(),
        r.0 ==> r.1 < entries@.len() && entries@[r.1 as int].term == term,
        !r.0 ==> forall|i: int| 0 <= i < entries@.len() ==> (#[trigger] entries@[i]).term != term,
        forall|i: int|
            0 <= i < r.1 ==> text::str_lt(
                terms@[(#[trigger] entries@[i]).term as int],
                terms@[term as int],
            ),
        !r.0 ==> forall|i: int|
            r.1 <= i < entries@.len() ==> text::str_lt(
                terms@[term as int],
                terms@[(#[trigger] entries@[i]).term as int],
            ),
{
    let name: &str = terms.resolve(TermId(term));
    let (found, at): (bool, usize) = search(entries, terms, name);
    proof {
        terms.lemma_wf();
        let names = terms@;
        text::lemma_str_total(name@, name@);
        if found {
            assert(entries@[at as int].term < names.len());
            if entries@[at as int].term != term {
                assert(names[entries@[at as int].term as int] != names[term as int]);
            }
        } else {
            assert forall|i: int| at <= i < entries@.len() implies text::str_lt(
                name@,
                names[(#[trigger] entries@[i]).term as int],
            ) by {
                let x = names[entries@[i].term as int];
                text::lemma_str_total(x, name@);
                if x == name@ {
                    if i > at {
                        assert(text::str_lt(names[entries@[at as int].term as int], x));
                    }
                }
            }
        }
    }
    (found, at)
}

/// One list replaced by another with the same overrides but for one tag.
proof fn lemma_replaced(terms: Seq<Seq<char>>, c: Levels, k: int, xs: Seq<Entry>, t: u32, n: u32)
    requires
        single(c),
        levels_ok(terms, c),
        1 <= k < c.len(),
        sorted(terms, xs),
        interned(terms, xs),
        exists|i: int| 0 <= i < xs.len() && (#[trigger] xs[i]) == (Entry { term: t, count: n }),
        forall|e: Entry| e.term != t ==> (#[trigger] xs.contains(e) <==> c[k].contains(e)),
        forall|l: int, j: int|
            1 <= l < c.len() && l != k && 0 <= j < c[l].len() ==> (#[trigger] c[l][j]).term != t,
    ensures
        single(c.update(k, xs)),
        levels_ok(terms, c.update(k, xs)),
        count_of(c.update(k, xs), t) == n,
        forall|s: u32| s != t ==> #[trigger] count_of(c.update(k, xs), s) == count_of(c, s),
{
    let d = c.update(k, xs);
    assert forall|l: int| 0 <= l < d.len() implies sorted(terms, #[trigger] d[l]) && interned(
        terms,
        d[l],
    ) by {
        assert(l != k ==> d[l] == c[l]);
    }
    assert forall|a: int, i: int, b: int, j: int|
        1 <= a < d.len() && 0 <= i < d[a].len() && 1 <= b < d.len() && 0 <= j < d[b].len() && (
        #[trigger] d[a][i]).term == (#[trigger] d[b][j]).term implies a == b && i == j by {
        let e = d[a][i];
        let f = d[b][j];
        if a == b {
            lemma_sorted_once(terms, d[a], i, j);
        } else if a != k && b != k {
            assert(c[a][i].term == c[b][j].term);
        } else if a == k {
            assert(xs.contains(e));
            assert(c[b][j].term != t);
            assert(c[k].contains(e));
            let m = c[k].index_of(e);
            assert(c[k][m].term == c[b][j].term);
        } else {
            assert(xs.contains(f));
            assert(c[a][i].term != t);
            assert(c[k].contains(f));
            let m = c[k].index_of(f);
            assert(c[k][m].term == c[a][i].term);
        }
    }
    assert forall|s: u32, v: u32| s != t implies (#[trigger] overrides(c, s, v) <==> overrides(
        d,
        s,
        v,
    )) by {
        if overrides(c, s, v) {
            let (a, i) = choose|a: int, i: int|
                1 <= a < c.len() && 0 <= i < c[a].len() && (#[trigger] c[a][i]).term == s
                    && c[a][i].count == v;
            if a == k {
                assert(c[k].contains(c[a][i]));
                assert(xs.contains(c[a][i]));
                let m = xs.index_of(c[a][i]);
                assert(d[k][m].term == s && d[k][m].count == v);
            } else {
                assert(d[a][i].term == s && d[a][i].count == v);
            }
        }
        if overrides(d, s, v) {
            let (a, i) = choose|a: int, i: int|
                1 <= a < d.len() && 0 <= i < d[a].len() && (#[trigger] d[a][i]).term == s
                    && d[a][i].count == v;
            if a == k {
                assert(xs.contains(d[a][i]));
                let m = c[k].index_of(d[a][i]);
                assert(c[k][m].term == s && c[k][m].count == v);
            } else {
                assert(c[a][i].term == s && c[a][i].count == v);
            }
        }
    }
    assert(d[0] == c[0]);
    lemma_same_counts(d, c, Some(t));
    let i = choose|i: int|
        0 <= i < xs.len() && (#[trigger] xs[i]) == (Entry { term: t, count: n });
    assert(d[k][i].term == t && d[k][i].count == n);
    assert(overrides(d, t, n));
    lemma_count_over(d, t, n);
}

/// A list with one count replaced.
proof fn lemma_recounted(terms: Seq<Seq<char>>, xs: Seq<Entry>, i: int, n: u32)
    requires
        sorted(terms, xs),
        interned(terms, xs),
        0 <= i < xs.len(),
    ensures
        ({
            let ys = xs.update(i, Entry { term: xs[i].term, count: n });
            &&& sorted(terms, ys)
            &&& interned(terms, ys)
            &&& forall|e: Entry|
                e.term != xs[i].term ==> (#[trigger] ys.contains(e) <==> xs.contains(e))
        }),
{
    let t = xs[i].term;
    let ys = xs.update(i, Entry { term: t, count: n });
    assert forall|j: int| 0 <= j < ys.len() implies (#[trigger] ys[j]).term == xs[j].term by {}
    assert forall|a: int, b: int| 0 <= a < b < ys.len() implies text::str_lt(
        terms[(#[trigger] ys[a]).term as int],
        terms[(#[trigger] ys[b]).term as int],
    ) by {
        assert(ys[a].term == xs[a].term && ys[b].term == xs[b].term);
    }
    assert forall|e: Entry| e.term != t implies (#[trigger] ys.contains(e) <==> xs.contains(
        e,
    )) by {
        if ys.contains(e) {
            let j = ys.index_of(e);
            assert(xs[j] == e);
        }
        if xs.contains(e) {
            let j = xs.index_of(e);
            assert(ys[j] == e);
        }
    }
}

/// A list with one more tag at its place.
proof fn lemma_listed(terms: Seq<Seq<char>>, xs: Seq<Entry>, at: int, e: Entry)
    requires
        sorted(terms, xs),
        interned(terms, xs),
        0 <= at <= xs.len(),
        e.term < terms.len(),
        forall|i: int|
            0 <= i < at ==> text::str_lt(
                terms[(#[trigger] xs[i]).term as int],
                terms[e.term as int],
            ),
        forall|i: int|
            at <= i < xs.len() ==> text::str_lt(
                terms[e.term as int],
                terms[(#[trigger] xs[i]).term as int],
            ),
    ensures
        sorted(terms, xs.insert(at, e)),
        interned(terms, xs.insert(at, e)),
        forall|f: Entry| #[trigger] xs.insert(at, e).contains(f) <==> f == e || xs.contains(f),
{
    let ys = xs.insert(at, e);
    assert forall|j: int| 0 <= j < ys.len() implies #[trigger] ys[j] == (if j < at {
        xs[j]
    } else if j == at {
        e
    } else {
        xs[j - 1]
    }) by {}
    assert forall|a: int, b: int| 0 <= a < b < ys.len() implies text::str_lt(
        terms[(#[trigger] ys[a]).term as int],
        terms[(#[trigger] ys[b]).term as int],
    ) by {
        let x = ys[a];
        let y = ys[b];
    }
    assert forall|f: Entry| #[trigger] ys.contains(f) <==> f == e || xs.contains(f) by {
        assert(ys[at] == e);
        if ys.contains(f) {
            let j = ys.index_of(f);
            if j < at {
                assert(xs[j] == f);
            } else if j > at {
                assert(xs[j - 1] == f);
            }
        }
        if xs.contains(f) {
            let j = xs.index_of(f);
            if j < at {
                assert(ys[j] == f);
            } else {
                assert(ys[j + 1] == f);
            }
        }
    }
}

/// Merges two sorted lists that share no tag.
fn merge(a: &Vec<Entry>, b: &Vec<Entry>, terms: &Interner) -> (r: Vec<Entry>)
    requires
        terms.wf(),
        sorted(terms@, a@),
        interned(terms@, a@),
        sorted(terms@, b@),
        interned(terms@, b@),
        forall|i: int, j: int|
            0 <= i < a@.len() && 0 <= j < b@.len() ==> (#[trigger] a@[i]).term != (
            #[trigger] b@[j]).term,
    ensures
        sorted(terms@, r@),
        interned(terms@, r@),
        forall|e: Entry| #[trigger] r@.contains(e) <==> a@.contains(e) || b@.contains(e),
{
    let ghost names = terms@;
    let mut out: Vec<Entry> = Vec::new();
    let mut ai: usize = 0;
    let mut bi: usize = 0;
    proof {
        terms.lemma_wf();
        assert forall|e: Entry| !#[trigger] out@.contains(e) by {}
        assert forall|e: Entry| !#[trigger] a@.take(0).contains(e) by {}
        assert forall|e: Entry| !#[trigger] b@.take(0).contains(e) by {}
    }
    while ai < a.len() || bi < b.len()
        invariant
            names == terms@,
            interner::distinct(names),
            ai <= a@.len(),
            bi <= b@.len(),
            sorted(names, a@),
            interned(names, a@),
            sorted(names, b@),
            interned(names, b@),
            sorted(names, out@),
            interned(names, out@),
            forall|i: int, j: int|
                0 <= i < a@.len() && 0 <= j < b@.len() ==> (#[trigger] a@[i]).term != (
                #[trigger] b@[j]).term,
            forall|e: Entry| #[trigger]
                out@.contains(e) <==> a@.take(ai as int).contains(e) || b@.take(
                    bi as int,
                ).contains(e),
            forall|i: int, j: int|
                0 <= i < out@.len() && ai <= j < a@.len() ==> text::str_lt(
                    names[(#[trigger] out@[i]).term as int],
                    names[(#[trigger] a@[j]).term as int],
                ),
            forall|i: int, j: int|
                0 <= i < out@.len() && bi <= j < b@.len() ==> text::str_lt(
                    names[(#[trigger] out@[i]).term as int],
                    names[(#[trigger] b@[j]).term as int],
                ),
        decreases (a@.len() - ai) + (b@.len() - bi),
    {
        let left: bool = if ai < a.len() && bi < b.len() {
            assert(a@[ai as int].term < names.len() && b@[bi as int].term < names.len());
            str_before(terms.resolve(TermId(a[ai].term)), terms.resolve(TermId(b[bi].term)))
        } else {
            ai < a.len()
        };
        let ghost before = out@;
        if left {
            let e: Entry = a[ai];
            out.push(e);
            proof {
                lemma_take_push(a@, ai as int);
                lemma_push_contains(before, e);
                assert forall|j: int| bi <= j < b@.len() implies text::str_lt(
                    names[e.term as int],
                    names[(#[trigger] b@[j]).term as int],
                ) by {
                    if j > bi {
                        text::lemma_str_transitive(
                            names[e.term as int],
                            names[b@[bi as int].term as int],
                            names[b@[j].term as int],
                        );
                    }
                }
            }
            ai = ai + 1;
        } else {
            let e: Entry = b[bi];
            out.push(e);
            proof {
                lemma_take_push(b@, bi as int);
                lemma_push_contains(before, e);
                assert forall|j: int| ai <= j < a@.len() implies text::str_lt(
                    names[e.term as int],
                    names[(#[trigger] a@[j]).term as int],
                ) by {
                    let x = names[a@[ai as int].term as int];
                    assert(a@[ai as int].term != b@[bi as int].term);
                    text::lemma_str_total(x, names[e.term as int]);
                    assert(text::str_lt(names[e.term as int], x));
                    if j > ai {
                        text::lemma_str_transitive(
                            names[e.term as int],
                            x,
                            names[a@[j].term as int],
                        );
                    }
                }
            }
            bi = bi + 1;
        }
    }
    assert(a@.take(ai as int) =~= a@);
    assert(b@.take(bi as int) =~= b@);
    out
}

proof fn lemma_take_push(xs: Seq<Entry>, i: int)
    requires
        0 <= i < xs.len(),
    ensures
        forall|e: Entry| #[trigger]
            xs.take(i + 1).contains(e) <==> xs.take(i).contains(e) || e == xs[i],
{
    assert(xs.take(i + 1) =~= xs.take(i).push(xs[i]));
    lemma_push_contains(xs.take(i), xs[i]);
}

proof fn lemma_push_contains(xs: Seq<Entry>, x: Entry)
    ensures
        forall|e: Entry| #[trigger] xs.push(x).contains(e) <==> xs.contains(e) || e == x,
{
    assert forall|e: Entry| #[trigger] xs.push(x).contains(e) <==> xs.contains(e) || e == x by {
        assert(xs.push(x)[xs.len() as int] == x);
        if xs.contains(e) {
            let j = xs.index_of(e);
            assert(xs.push(x)[j] == e);
        }
        if xs.push(x).contains(e) {
            let j = xs.push(x).index_of(e);
            if j < xs.len() {
                assert(xs[j] == e);
            }
        }
    }
}

/// The same overrides, arranged in other lists.
proof fn lemma_rearranged(terms: Seq<Seq<char>>, c: Levels, d: Levels)
    requires
        c[0] == d[0],
        single(c),
        single(d),
        forall|e: Entry| #[trigger] held(c, e) <==> held(d, e),
    ensures
        forall|t: u32| #[trigger] count_of(c, t) == count_of(d, t),
{
    assert forall|t: u32, n: u32| #[trigger] overrides(c, t, n) <==> overrides(d, t, n) by {
        lemma_held(c, t, n);
        lemma_held(d, t, n);
    }
    lemma_same_counts(c, d, None);
}

/// An entry is an override.
spec fn held(c: Levels, e: Entry) -> bool {
    exists|k: int| 1 <= k < c.len() && (#[trigger] c[k]).contains(e)
}

proof fn lemma_held(c: Levels, t: u32, n: u32)
    ensures
        overrides(c, t, n) <==> held(c, Entry { term: t, count: n }),
{
    let e = Entry { term: t, count: n };
    if overrides(c, t, n) {
        let (k, i) = choose|k: int, i: int|
            1 <= k < c.len() && 0 <= i < c[k].len() && (#[trigger] c[k][i]).term == t
                && c[k][i].count == n;
        assert(c[k][i] == e);
        assert(c[k].contains(e));
    }
    if held(c, e) {
        let k = choose|k: int| 1 <= k < c.len() && (#[trigger] c[k]).contains(e);
        let i = c[k].index_of(e);
        assert(c[k][i].term == t && c[k][i].count == n);
    }
}

/// Moves everything of one list into another.
proof fn lemma_moved(terms: Seq<Seq<char>>, c: Levels, from: int, to: int, xs: Seq<Entry>)
    requires
        single(c),
        levels_ok(terms, c),
        1 <= from < c.len(),
        1 <= to < c.len(),
        from != to,
        sorted(terms, xs),
        interned(terms, xs),
        forall|e: Entry| #[trigger] xs.contains(e) <==> c[from].contains(e) || c[to].contains(e),
    ensures
        ({
            let d = c.update(from, Seq::empty()).update(to, xs);
            &&& single(d)
            &&& levels_ok(terms, d)
            &&& d[0] == c[0]
            &&& forall|t: u32| #[trigger] count_of(d, t) == count_of(c, t)
        }),
{
    let d = c.update(from, Seq::empty()).update(to, xs);
    assert forall|l: int| 0 <= l < d.len() implies sorted(terms, #[trigger] d[l]) && interned(
        terms,
        d[l],
    ) by {
        if l != from && l != to {
            assert(d[l] == c[l]);
        }
    }
    assert forall|a: int, i: int, b: int, j: int|
        1 <= a < d.len() && 0 <= i < d[a].len() && 1 <= b < d.len() && 0 <= j < d[b].len() && (
        #[trigger] d[a][i]).term == (#[trigger] d[b][j]).term implies a == b && i == j by {
        if a == b {
            lemma_sorted_once(terms, d[a], i, j);
        } else {
            let (x, y) = (d[a][i], d[b][j]);
            assert(a != from && b != from);
            if a == to {
                assert(xs.contains(x));
                assert(c[b][j] == y);
                if c[from].contains(x) {
                    let m = c[from].index_of(x);
                    assert(c[from][m].term == c[b][j].term);
                } else {
                    let m = c[to].index_of(x);
                    assert(c[to][m].term == c[b][j].term);
                }
            } else if b == to {
                assert(xs.contains(y));
                assert(c[a][i] == x);
                if c[from].contains(y) {
                    let m = c[from].index_of(y);
                    assert(c[from][m].term == c[a][i].term);
                } else {
                    let m = c[to].index_of(y);
                    assert(c[to][m].term == c[a][i].term);
                }
            } else {
                assert(c[a][i].term == c[b][j].term);
            }
        }
    }
    assert forall|e: Entry| #[trigger] held(c, e) <==> held(d, e) by {
        if held(c, e) {
            let k = choose|k: int| 1 <= k < c.len() && (#[trigger] c[k]).contains(e);
            if k == from || k == to {
                assert(d[to].contains(e));
            } else {
                assert(d[k].contains(e));
            }
        }
        if held(d, e) {
            let k = choose|k: int| 1 <= k < d.len() && (#[trigger] d[k]).contains(e);
            if k == to {
                assert(c[from].contains(e) || c[to].contains(e));
            } else if k != from {
                assert(c[k].contains(e));
            }
        }
    }
    lemma_rearranged(terms, d, c);
}

/// One more list, an empty one.
proof fn lemma_widened(terms: Seq<Seq<char>>, c: Levels)
    requires
        single(c),
        levels_ok(terms, c),
        c.len() > 0,
    ensures
        ({
            let d = c.push(Seq::empty());
            &&& single(d)
            &&& levels_ok(terms, d)
            &&& d[0] == c[0]
            &&& forall|t: u32| #[trigger] count_of(d, t) == count_of(c, t)
        }),
{
    let d = c.push(Seq::empty());
    assert forall|l: int| 0 <= l < d.len() implies sorted(terms, #[trigger] d[l]) && interned(
        terms,
        d[l],
    ) by {
        if l < c.len() {
            assert(d[l] == c[l]);
        }
    }
    assert forall|a: int, i: int, b: int, j: int|
        1 <= a < d.len() && 0 <= i < d[a].len() && 1 <= b < d.len() && 0 <= j < d[b].len() && (
        #[trigger] d[a][i]).term == (#[trigger] d[b][j]).term implies a == b && i == j by {
        assert(a < c.len() && b < c.len());
        assert(c[a][i].term == c[b][j].term);
    }
    assert forall|e: Entry| #[trigger] held(c, e) <==> held(d, e) by {
        if held(c, e) {
            let k = choose|k: int| 1 <= k < c.len() && (#[trigger] c[k]).contains(e);
            assert(d[k].contains(e));
        }
        if held(d, e) {
            let k = choose|k: int| 1 <= k < d.len() && (#[trigger] d[k]).contains(e);
            assert(k < c.len());
            assert(c[k].contains(e));
        }
    }
    lemma_rearranged(terms, d, c);
}

/// The digest of a tag and its count.
fn hash_entry(name: &str, count: u32) -> (r: u64)
    ensures
        r == entry_hash(name@, count),
{
    let mut bytes: Vec<u8> = Vec::new();
    put_u32(&mut bytes, count);
    let mut h = hasher();
    feed(&mut h, name.as_bytes());
    feed(&mut h, bytes.as_slice());
    proof {
        assert(bytes@ =~= codec::le32(count));
        assert(hash::fed(h) =~= encode_utf8(name@) + codec::le32(count));
    }
    digest(&h)
}

impl TagCatalog {
    /// Where a tag's override is.
    fn overlay_entry(&self, terms: &Interner, term: u32) -> (r: Option<(usize, usize)>)
        requires
            terms.wf(),
            term < terms@.len(),
            self@.len() >= 1,
            levels_ok(terms@, self@),
        ensures
            match r {
                Some((k, i)) => 1 <= k < self@.len() && i < self@[k as int].len()
                    && self@[k as int][i as int].term == term && overrides(
                    self@,
                    term,
                    self@[k as int][i as int].count,
                ),
                None => !overridden(self@, term) && forall|k: int, i: int|
                    1 <= k < self@.len() && 0 <= i < self@[k].len() ==> (
                    #[trigger] self@[k][i]).term != term,
            },
    {
        let ghost c = self@;
        let mut k: usize = 1;
        while k < self.levels.len()
            invariant
                1 <= k <= self.levels@.len(),
                c == self@,
                terms.wf(),
                term < terms@.len(),
                levels_ok(terms@, c),
                forall|l: int, i: int|
                    1 <= l < k && 0 <= i < c[l].len() ==> (#[trigger] c[l][i]).term != term,
            decreases self.levels@.len() - k,
        {
            assert(c[k as int] == self.levels@[k as int]@);
            let (found, at): (bool, usize) = find(&self.levels[k], terms, term);
            if found {
                assert(c[k as int][at as int].term == term);
                return Some((k, at));
            }
            k = k + 1;
        }
        assert forall|n: u32| !#[trigger] overrides(c, term, n) by {}
        None
    }

    /// The count of a tag.
    pub fn count(&self, terms: &Interner, term: TermId) -> (r: u32)
        requires
            terms.wf(),
            term.0 < terms@.len(),
            self.wf(terms@),
        ensures
            r == count_of(self@, term.0),
    {
        let ghost c = self@;
        match self.overlay_entry(terms, term.0) {
            Some((k, i)) => {
                proof {
                    lemma_count_over(c, term.0, c[k as int][i as int].count);
                }
                self.levels[k][i].count
            },
            None => {
                assert(c[0] == self.levels@[0]@);
                let (found, at): (bool, usize) = find(&self.levels[0], terms, term.0);
                if found {
                    proof {
                        assert(c[0][at as int].term == term.0);
                        assert(in_base(c[0], term.0, c[0][at as int].count));
                        lemma_count_base(terms@, c, term.0, c[0][at as int].count);
                    }
                    self.levels[0][at].count
                } else {
                    assert forall|n: u32| !#[trigger] in_base(c[0], term.0, n) by {}
                    0
                }
            },
        }
    }

    /// Applies a signed change to the count of a tag.
    pub fn change(&mut self, terms: &Interner, term: TermId, delta: i32)
        requires
            terms.wf(),
            term.0 < terms@.len(),
            old(self).wf(terms@),
        ensures
            final(self).wf(terms@),
            count_of(final(self)@, term.0) == changed(count_of(old(self)@, term.0), delta),
            forall|t: u32|
                t != term.0 ==> #[trigger] count_of(final(self)@, t) == count_of(old(self)@, t),
    {
        let ghost c = self@;
        let t: u32 = term.0;
        let before: u32 = self.count(terms, term);
        let after: u32 = if delta >= 0 {
            if u32::MAX - before < delta as u32 {
                u32::MAX
            } else {
                before + delta as u32
            }
        } else {
            let down: i64 = -(delta as i64);
            if (before as i64) < down {
                0
            } else {
                (before as i64 - down) as u32
            }
        };
        assert(after == changed(before, delta));
        if before == after {
            return ;
        }
        let name: &str = terms.resolve(term);
        let mut print: u64 = self.fingerprint;
        let ghost start = print;
        if before != 0 {
            print = print ^ hash_entry(name, before);
        }
        if after != 0 {
            print = print ^ hash_entry(name, after);
        }
        proof {
            lemma_xor(start, 0, 0, 0);
            lemma_xor(start ^ mark(name@, before), 0, 0, 0);
            assert(print == (start ^ mark(name@, before)) ^ mark(name@, after));
            terms.lemma_wf();
        }
        match self.overlay_entry(terms, t) {
            Some((k, i)) => {
                let ghost xs = c[k as int];
                let mut list: Vec<Entry> = Vec::new();
                std::mem::swap(&mut list, &mut self.levels[k]);
                assert(list@ == xs);
                list.set(i, Entry { term: t, count: after });
                let ghost ys = list@;
                std::mem::swap(&mut list, &mut self.levels[k]);
                proof {
                    let d = c.update(k as int, ys);
                    assert(self@ =~= d);
                    lemma_recounted(terms@, xs, i as int, after);
                    assert(ys[i as int] == (Entry { term: t, count: after }));
                    assert forall|l: int, j: int|
                        1 <= l < c.len() && l != k && 0 <= j < c[l].len() implies (
                    #[trigger] c[l][j]).term != t by {
                        assert(c[k as int][i as int].term == t);
                    }
                    lemma_replaced(terms@, c, k as int, ys, t, after);
                    lemma_fingerprint(terms@, c, d, t, terms@.len());
                    assert(self@[1].len() == c[1].len());
                }
                self.fingerprint = print;
            },
            None => {
                let ghost xs = c[1];
                assert(xs == self.levels@[1]@);
                let (_, at): (bool, usize) = find(&self.levels[1], terms, t);
                let mut list: Vec<Entry> = Vec::new();
                std::mem::swap(&mut list, &mut self.levels[1]);
                list.insert(at, Entry { term: t, count: after });
                let ghost ys = list@;
                let full: bool = list.len() >= RUN_BASE;
                std::mem::swap(&mut list, &mut self.levels[1]);
                let ghost d = c.update(1, ys);
                proof {
                    assert(self@ =~= d);
                    lemma_listed(terms@, xs, at as int, Entry { term: t, count: after });
                    assert(ys[at as int] == (Entry { term: t, count: after }));
                    lemma_replaced(terms@, c, 1, ys, t, after);
                    lemma_fingerprint(terms@, c, d, t, terms@.len());
                }
                self.fingerprint = print;
                if full {
                    self.flush_buffer(terms);
                    proof {
                        lemma_same_fingerprint(terms@, d, self@, terms@.len());
                    }
                }
            },
        }
    }

    /// Merges the level-zero run into the runs behind it.
    fn flush_buffer(&mut self, terms: &Interner)
        requires
            terms.wf(),
            old(self)@.len() >= 2,
            levels_ok(terms@, old(self)@),
            single(old(self)@),
        ensures
            final(self)@.len() >= 2,
            levels_ok(terms@, final(self)@),
            single(final(self)@),
            final(self)@[1].len() == 0,
            final(self).fingerprint() == old(self).fingerprint(),
            forall|t: u32| #[trigger] count_of(final(self)@, t) == count_of(old(self)@, t),
    {
        let ghost c = self@;
        let ghost print = self.fingerprint;
        let mut from: usize = 1;
        let mut to: usize = 2;
        let mut more: bool = true;
        while more
            invariant
                terms.wf(),
                self@.len() >= 2,
                levels_ok(terms@, self@),
                single(self@),
                self.fingerprint == print,
                forall|t: u32| #[trigger] count_of(self@, t) == count_of(c, t),
                1 <= from < self@.len(),
                to == from + 1,
                from > 1 ==> self@[1].len() == 0,
                !more ==> self@[1].len() == 0,
            decreases (if more { 1int } else { 0 }), self@.len() - from,
        {
            let ghost now = self@;
            if to == self.levels.len() {
                self.levels.push(Vec::new());
                proof {
                    assert(self@ =~= now.push(Seq::empty()));
                    lemma_widened(terms@, now);
                }
                let ghost wide = self@;
                let mut list: Vec<Entry> = Vec::new();
                std::mem::swap(&mut list, &mut self.levels[from]);
                std::mem::swap(&mut list, &mut self.levels[to]);
                proof {
                    assert(wide[to as int] == Seq::<Entry>::empty());
                    assert(self@ =~= wide.update(from as int, Seq::empty()).update(
                        to as int,
                        wide[from as int],
                    ));
                    lemma_moved(terms@, wide, from as int, to as int, wide[from as int]);
                }
                more = false;
            } else {
                let mut list: Vec<Entry> = Vec::new();
                std::mem::swap(&mut list, &mut self.levels[from]);
                let mut other: Vec<Entry> = Vec::new();
                std::mem::swap(&mut other, &mut self.levels[to]);
                let free: bool = other.len() == 0;
                proof {
                    assert(list@ == now[from as int]);
                    assert(other@ == now[to as int]);
                    assert forall|i: int, j: int|
                        0 <= i < other@.len() && 0 <= j < list@.len() implies (
                    #[trigger] other@[i]).term != (#[trigger] list@[j]).term by {
                        assert(now[to as int][i].term == other@[i].term);
                        assert(now[from as int][j].term == list@[j].term);
                    }
                }
                let mut merged: Vec<Entry> = merge(&other, &list, terms);
                let ghost xs = merged@;
                std::mem::swap(&mut merged, &mut self.levels[to]);
                proof {
                    assert(self@ =~= now.update(from as int, Seq::empty()).update(
                        to as int,
                        xs,
                    ));
                    lemma_moved(terms@, now, from as int, to as int, xs);
                }
                if free {
                    more = false;
                } else {
                    from = to;
                    to = to + 1;
                }
            }
        }
    }
}

/// A name begins with a prefix.
pub open spec fn begins(name: Seq<char>, prefix: Seq<char>) -> bool {
    encode_utf8(prefix).is_prefix_of(encode_utf8(name))
}

/// A name comes behind another, when there is one.
pub open spec fn behind(name: Seq<char>, after: Option<Seq<char>>) -> bool {
    match after {
        Some(a) => text::str_lt(a, name),
        None => true,
    }
}

/// A tag that a scan returns: some current fact carries it, its name begins
/// with the prefix, and it comes behind the last one returned.
pub open spec fn wanted(
    terms: Seq<Seq<char>>,
    c: Levels,
    prefix: Seq<char>,
    after: Option<Seq<char>>,
    t: u32,
) -> bool {
    count_of(c, t) != 0 && begins(terms[t as int], prefix) && behind(terms[t as int], after)
}

/// The wanted ones among some tags, in their order.
pub open spec fn wanted_of(
    terms: Seq<Seq<char>>,
    c: Levels,
    prefix: Seq<char>,
    after: Option<Seq<char>>,
    order: Seq<u32>,
) -> Seq<u32>
    decreases order.len(),
{
    if order.len() == 0 {
        Seq::empty()
    } else {
        let front = wanted_of(terms, c, prefix, after, order.drop_last());
        if wanted(terms, c, prefix, after, order.last()) {
            front.push(order.last())
        } else {
            front
        }
    }
}

/// The wanted tags by name.
pub open spec fn listing(
    terms: Seq<Seq<char>>,
    c: Levels,
    prefix: Seq<char>,
    after: Option<Seq<char>>,
) -> Seq<u32> {
    wanted_of(terms, c, prefix, after, interner::order_of(terms))
}

/// Tags with their counts.
pub open spec fn counted(c: Levels, tags: Seq<u32>) -> Seq<Entry> {
    tags.map_values(|t: u32| Entry { term: t, count: count_of(c, t) })
}

/// Names strictly ascending.
pub open spec fn by_name(terms: Seq<Seq<char>>, tags: Seq<u32>) -> bool {
    forall|i: int, j: int|
        0 <= i < j < tags.len() ==> text::str_lt(
            terms[(#[trigger] tags[i]) as int],
            terms[(#[trigger] tags[j]) as int],
        )
}

proof fn lemma_wanted_of(
    terms: Seq<Seq<char>>,
    c: Levels,
    prefix: Seq<char>,
    after: Option<Seq<char>>,
    order: Seq<u32>,
)
    requires
        by_name(terms, order),
    ensures
        by_name(terms, wanted_of(terms, c, prefix, after, order)),
        wanted_of(terms, c, prefix, after, order).len() <= order.len(),
        forall|t: u32| #[trigger]
            wanted_of(terms, c, prefix, after, order).contains(t) <==> order.contains(t) && wanted(
                terms,
                c,
                prefix,
                after,
                t,
            ),
    decreases order.len(),
{
    let out = wanted_of(terms, c, prefix, after, order);
    if order.len() == 0 {
        assert forall|t: u32| !#[trigger] out.contains(t) by {}
        assert forall|t: u32| !#[trigger] order.contains(t) by {}
    } else {
        let init = order.drop_last();
        let last = order.last();
        assert(by_name(terms, init)) by {
            assert forall|i: int, j: int| 0 <= i < j < init.len() implies text::str_lt(
                terms[(#[trigger] init[i]) as int],
                terms[(#[trigger] init[j]) as int],
            ) by {
                assert(init[i] == order[i] && init[j] == order[j]);
            }
        }
        lemma_wanted_of(terms, c, prefix, after, init);
        let front = wanted_of(terms, c, prefix, after, init);
        assert forall|t: u32| #[trigger] order.contains(t) <==> init.contains(t) || t == last by {
            assert(order[order.len() - 1] == last);
            if order.contains(t) {
                let j = order.index_of(t);
                if j < init.len() {
                    assert(init[j] == t);
                }
            }
            if init.contains(t) {
                let j = init.index_of(t);
                assert(order[j] == t);
            }
        }
        if wanted(terms, c, prefix, after, last) {
            assert forall|i: int| 0 <= i < front.len() implies text::str_lt(
                terms[(#[trigger] front[i]) as int],
                terms[last as int],
            ) by {
                assert(front.contains(front[i]));
                let j = init.index_of(front[i]);
                assert(order[j] == front[i] && order[order.len() - 1] == last);
            }
            assert forall|t: u32| #[trigger] out.contains(t) <==> front.contains(t) || t == last by {
                assert(out[front.len() as int] == last);
                if out.contains(t) {
                    let j = out.index_of(t);
                    if j < front.len() {
                        assert(front[j] == t);
                    }
                }
                if front.contains(t) {
                    let j = front.index_of(t);
                    assert(out[j] == t);
                }
            }
        }
    }
}

/// The listing holds exactly the wanted tags, by name.
proof fn lemma_listing(
    terms: &Interner,
    c: Levels,
    prefix: Seq<char>,
    after: Option<Seq<char>>,
)
    requires
        terms.wf(),
    ensures
        by_name(terms@, listing(terms@, c, prefix, after)),
        listing(terms@, c, prefix, after).len() <= terms@.len(),
        forall|t: u32| #[trigger]
            listing(terms@, c, prefix, after).contains(t) <==> t < terms@.len() && wanted(
                terms@,
                c,
                prefix,
                after,
                t,
            ),
{
    terms.lemma_wf();
    let order = interner::order_of(terms@);
    assert(interner::order_ok(order, terms@));
    lemma_wanted_of(terms@, c, prefix, after, order);
    assert forall|t: u32| #[trigger] order.contains(t) <==> t < terms@.len() by {
        if order.contains(t) {
            let p = order.index_of(t);
            assert(order[p] < terms@.len());
        }
        if t < terms@.len() {
            assert(interner::listed(order, t as int));
            let p = choose|p: int| 0 <= p < order.len() && #[trigger] order[p] == t as int;
            assert(order[p] == t);
        }
    }
}

/// Names with a prefix follow each other: behind the prefix, the first name
/// without it ends them.
proof fn lemma_prefix_run(p: Seq<u8>, a: Seq<u8>, b: Seq<u8>)
    requires
        !text::lex_lt(a, p),
        text::lex_lt(a, b),
        p.is_prefix_of(b),
    ensures
        p.is_prefix_of(a),
    decreases p.len(),
{
    if p.len() > 0 {
        assert(b.subrange(0, p.len() as int) =~= p);
        assert(b[0] == p[0]);
        assert(a.len() > 0);
        assert(a[0] == p[0]);
        let (q, x, y) = (p.skip(1), a.skip(1), b.skip(1));
        assert(q.is_prefix_of(y)) by {
            assert(q =~= y.subrange(0, q.len() as int));
        }
        lemma_prefix_run(q, x, y);
        assert(p =~= a.subrange(0, p.len() as int)) by {
            assert(q =~= x.subrange(0, q.len() as int));
            assert forall|i: int| 0 <= i < p.len() implies p[i] == a[i] by {
                if i > 0 {
                    assert(q[i - 1] == x[i - 1]);
                }
            }
        }
    }
}

/// An entry that decides the count of its tag.
pub open spec fn live(c: Levels, k: int, i: int) -> bool {
    0 <= k < c.len() && 0 <= i < c[k].len() && (k > 0 || !overridden(c, c[k][i].term))
}

proof fn lemma_live(terms: Seq<Seq<char>>, c: Levels, k: int, i: int)
    requires
        c.len() > 0,
        levels_ok(terms, c),
        single(c),
        live(c, k, i),
    ensures
        count_of(c, c[k][i].term) == c[k][i].count,
{
    let e = c[k][i];
    if k > 0 {
        assert(overrides(c, e.term, e.count));
        lemma_count_over(c, e.term, e.count);
    } else {
        assert(in_base(c[0], e.term, e.count));
        lemma_count_base(terms, c, e.term, e.count);
    }
}

/// A counted tag has a live entry.
proof fn lemma_has_live(c: Levels, t: u32) -> (r: (int, int))
    requires
        c.len() > 0,
        count_of(c, t) != 0,
    ensures
        live(c, r.0, r.1),
        c[r.0][r.1].term == t,
{
    lemma_counted(c, t);
    let n = count_of(c, t);
    if overridden(c, t) {
        choose|k: int, i: int|
            1 <= k < c.len() && 0 <= i < c[k].len() && (#[trigger] c[k][i]).term == t
                && c[k][i].count == n
    } else {
        let i = choose|i: int|
            0 <= i < c[0].len() && (#[trigger] c[0][i]).term == t && c[0][i].count == n;
        (0, i)
    }
}

/// Two live entries of a tag are the same one.
proof fn lemma_live_once(terms: Seq<Seq<char>>, c: Levels, k: int, i: int, l: int, j: int)
    requires
        c.len() > 0,
        levels_ok(terms, c),
        single(c),
        live(c, k, i),
        live(c, l, j),
        c[k][i].term == c[l][j].term,
    ensures
        k == l,
        i == j,
{
    if k == l {
        lemma_sorted_once(terms, c[k], i, j);
    } else {
        let t = c[k][i].term;
        if k > 0 {
            assert(overrides(c, t, c[k][i].count));
        }
        if l > 0 {
            assert(overrides(c, t, c[l][j].count));
        }
    }
}

/// Where a scan stands: entries before the positions hold nothing of what is
/// left, and those from the positions on are not before the floor.
spec fn scanning(
    terms: Seq<Seq<char>>,
    c: Levels,
    prefix: Seq<char>,
    after: Option<Seq<char>>,
    m: Seq<u32>,
    n: int,
    at: Seq<usize>,
) -> bool {
    &&& at.len() == c.len()
    &&& forall|k: int| 0 <= k < c.len() ==> 0 <= (#[trigger] at[k]) <= c[k].len()
    &&& forall|k: int, i: int|
        0 <= k < c.len() && 0 <= i < at[k] && live(c, k, i) ==> !m.skip(n).contains(
            (#[trigger] c[k][i]).term,
        )
    &&& forall|k: int, i: int|
        0 <= k < c.len() && at[k] <= i < c[k].len() ==> {
            &&& !text::str_lt(terms[(#[trigger] c[k][i]).term as int], prefix)
            &&& behind(terms[c[k][i].term as int], after)
            &&& live(c, k, i) ==> !m.take(n).contains(c[k][i].term)
        }
}

/// Whether a name begins with a prefix.
fn name_begins(name: &str, prefix: &str) -> (r: bool)
    ensures
        r == begins(name@, prefix@),
{
    let a = name.as_bytes();
    let p = prefix.as_bytes();
    if p.len() > a.len() {
        return false;
    }
    let mut i: usize = 0;
    while i < p.len()
        invariant
            i <= p@.len() <= a@.len(),
            p@ == encode_utf8(prefix@),
            a@ == encode_utf8(name@),
            forall|j: int| 0 <= j < i ==> p@[j] == a@[j],
        decreases p@.len() - i,
    {
        if p[i] != a[i] {
            assert(a@.subrange(0, p@.len() as int)[i as int] != p@[i as int]);
            return false;
        }
        i = i + 1;
    }
    assert(p@ =~= a@.subrange(0, p@.len() as int));
    true
}

impl TagCatalog {
    /// The first place of each list that a scan looks at.
    fn start_positions(&self, terms: &Interner, prefix: &str, after: Option<&str>) -> (r: Vec<
        usize,
    >)
        requires
            terms.wf(),
            self.wf(terms@),
        ensures
            r@.len() == self@.len(),
            scanning(
                terms@,
                self@,
                prefix@,
                opt_view(after),
                listing(terms@, self@, prefix@, opt_view(after)),
                0,
                r@,
            ),
    {
        let ghost c = self@;
        let ghost names = terms@;
        let ghost aft = opt_view(after);
        let ghost m = listing(names, c, prefix@, aft);
        let mut out: Vec<usize> = Vec::new();
        let mut k: usize = 0;
        while k < self.levels.len()
            invariant
                k <= self.levels@.len(),
                c == self@,
                names == terms@,
                terms.wf(),
                levels_ok(names, c),
                aft == opt_view(after),
                out@.len() == k,
                forall|l: int| 0 <= l < k ==> 0 <= (#[trigger] out@[l]) <= c[l].len(),
                forall|l: int, i: int|
                    0 <= l < k && 0 <= i < out@[l] ==> text::str_lt(
                        names[(#[trigger] c[l][i]).term as int],
                        prefix@,
                    ) || !behind(names[c[l][i].term as int], aft),
                forall|l: int, i: int|
                    0 <= l < k && out@[l] <= i < c[l].len() ==> !text::str_lt(
                        names[(#[trigger] c[l][i]).term as int],
                        prefix@,
                    ) && behind(names[c[l][i].term as int], aft),
            decreases self.levels@.len() - k,
        {
            let list: &Vec<Entry> = &self.levels[k];
            let total: usize = list.len();
            assert(c[k as int] == list@);
            let (_, first): (bool, usize) = search(list, terms, prefix);
            let at: usize = match after {
                None => first,
                Some(name) => {
                    let (found, place): (bool, usize) = search(list, terms, name);
                    let next: usize = if found && place < total {
                        place + 1
                    } else {
                        place
                    };
                    proof {
                        assert forall|i: int| 0 <= i < list@.len() implies (i >= next
                            <==> text::str_lt(name@, names[(#[trigger] list@[i]).term as int])) by {
                            let x = names[list@[i].term as int];
                            text::lemma_str_total(name@, x);
                            text::lemma_str_total(name@, name@);
                            if i > place {
                                assert(text::str_lt(names[list@[place as int].term as int], x));
                            }
                        }
                    }
                    if next > first {
                        next
                    } else {
                        first
                    }
                },
            };
            out.push(at);
            k = k + 1;
        }
        proof {
            lemma_listing(terms, c, prefix@, aft);
            assert(m.skip(0) =~= m);
            assert forall|l: int, i: int|
                0 <= l < c.len() && 0 <= i < out@[l] && live(c, l, i) implies !m.skip(0).contains(
                (#[trigger] c[l][i]).term,
            ) by {
                let t = c[l][i].term;
                if m.contains(t) {
                    assert(wanted(names, c, prefix@, aft, t));
                    lemma_begins_not_before(names[t as int], prefix@);
                }
            }
            assert forall|t: u32| !#[trigger] m.take(0).contains(t) by {}
        }
        out
    }

    /// Moves one list's position to the next entry that the scan returns.
    /// `true` when there is one.
    fn advance(
        &self,
        terms: &Interner,
        prefix: &str,
        k: usize,
        from: usize,
        Ghost(aft): Ghost<Option<Seq<char>>>,
    ) -> (r: usize)
        requires
            terms.wf(),
            self.wf(terms@),
            k < self@.len(),
            from <= self@[k as int].len(),
            forall|i: int|
                from <= i < self@[k as int].len() ==> !text::str_lt(
                    terms@[(#[trigger] self@[k as int][i]).term as int],
                    prefix@,
                ) && behind(terms@[self@[k as int][i].term as int], aft),
        ensures
            from <= r <= self@[k as int].len(),
            forall|i: int|
                from <= i < r && live(self@, k as int, i) ==> !wanted(
                    terms@,
                    self@,
                    prefix@,
                    aft,
                    (#[trigger] self@[k as int][i]).term,
                ),
            r < self@[k as int].len() ==> live(self@, k as int, r as int) && wanted(
                terms@,
                self@,
                prefix@,
                aft,
                self@[k as int][r as int].term,
            ),
    {
        let ghost c = self@;
        let ghost names = terms@;
        let list: &Vec<Entry> = &self.levels[k];
        assert(c[k as int] == list@);
        let mut at: usize = from;
        while at < list.len()
            invariant
                from <= at <= list@.len(),
                k < c.len(),
                c == self@,
                names == terms@,
                terms.wf(),
                self.wf(names),
                c[k as int] == list@,
                list == &self.levels[k as int],
                forall|i: int|
                    from <= i < list@.len() ==> !text::str_lt(
                        names[(#[trigger] list@[i]).term as int],
                        prefix@,
                    ) && behind(names[list@[i].term as int], aft),
                forall|i: int|
                    from <= i < at && live(c, k as int, i) ==> !wanted(
                        names,
                        c,
                        prefix@,
                        aft,
                        (#[trigger] list@[i]).term,
                    ),
            decreases list@.len() - at,
        {
            let e: Entry = list[at];
            assert(sorted(names, c[k as int]) && interned(names, c[k as int]));
            assert(list@[at as int].term < names.len());
            let name: &str = terms.resolve(TermId(e.term));
            if !name_begins(name, prefix) {
                proof {
                    assert forall|i: int| at <= i < list@.len() implies !wanted(
                        names,
                        c,
                        prefix@,
                        aft,
                        (#[trigger] list@[i]).term,
                    ) by {
                        let x = names[list@[i].term as int];
                        if begins(x, prefix@) && i > at {
                            lemma_prefix_run(
                                encode_utf8(prefix@),
                                encode_utf8(name@),
                                encode_utf8(x),
                            );
                        }
                    }
                }
                return list.len();
            }
            if e.count != 0 {
                let shadowed: bool = k == 0 && self.overlay_entry(terms, e.term).is_some();
                if !shadowed {
                    proof {
                        assert(live(c, k as int, at as int));
                        lemma_live(names, c, k as int, at as int);
                    }
                    return at;
                }
            } else {
                proof {
                    if live(c, k as int, at as int) {
                        lemma_live(names, c, k as int, at as int);
                    }
                }
            }
            at = at + 1;
        }
        at
    }
}

pub open spec fn opt_view(s: Option<&str>) -> Option<Seq<char>> {
    match s {
        Some(t) => Some(t@),
        None => None,
    }
}

/// A name does not come before its own beginning.
proof fn lemma_begins_not_before(name: Seq<char>, prefix: Seq<char>)
    requires
        begins(name, prefix),
    ensures
        !text::str_lt(name, prefix),
{
    lemma_prefix_least(encode_utf8(prefix), encode_utf8(name));
}

proof fn lemma_prefix_least(p: Seq<u8>, a: Seq<u8>)
    requires
        p.is_prefix_of(a),
    ensures
        !text::lex_lt(a, p),
    decreases p.len(),
{
    assert(p =~= a.subrange(0, p.len() as int));
    if p.len() > 0 {
        assert(a[0] == p[0]);
        assert(p.skip(1) =~= a.skip(1).subrange(0, p.len() - 1));
        lemma_prefix_least(p.skip(1), a.skip(1));
    }
}

impl TagCatalog {
    /// The next tag of a scan, and its list. The positions are moved to the
    /// next tag of each list.
    fn next_tag(
        &self,
        terms: &Interner,
        prefix: &str,
        at: &mut Vec<usize>,
        Ghost(aft): Ghost<Option<Seq<char>>>,
        Ghost(n): Ghost<int>,
    ) -> (r: Option<usize>)
        requires
            terms.wf(),
            self.wf(terms@),
            0 <= n <= listing(terms@, self@, prefix@, aft).len(),
            scanning(
                terms@,
                self@,
                prefix@,
                aft,
                listing(terms@, self@, prefix@, aft),
                n,
                old(at)@,
            ),
        ensures
            scanning(
                terms@,
                self@,
                prefix@,
                aft,
                listing(terms@, self@, prefix@, aft),
                n,
                final(at)@,
            ),
            match r {
                Some(k) => n < listing(terms@, self@, prefix@, aft).len() && k < self@.len()
                    && final(at)@[k as int] < self@[k as int].len() && live(
                    self@,
                    k as int,
                    final(at)@[k as int] as int,
                ) && self@[k as int][final(at)@[k as int] as int].term == listing(
                    terms@,
                    self@,
                    prefix@,
                    aft,
                )[n] && forall|l: int|
                    0 <= l < self@.len() && final(at)@[l] < self@[l].len() && l != k
                        ==> text::str_lt(
                        terms@[listing(terms@, self@, prefix@, aft)[n] as int],
                        terms@[(#[trigger] self@[l])[final(at)@[l] as int].term as int],
                    ),
                None => n == listing(terms@, self@, prefix@, aft).len(),
            },
    {
        let ghost c = self@;
        let ghost names = terms@;
        let ghost m = listing(names, c, prefix@, aft);
        let mut best: Option<usize> = None;
        let mut k: usize = 0;
        proof {
            terms.lemma_wf();
            lemma_listing(terms, c, prefix@, aft);
        }
        while k < self.levels.len()
            invariant
                k <= self.levels@.len(),
                c == self@,
                names == terms@,
                terms.wf(),
                interner::distinct(names),
                self.wf(names),
                m == listing(names, c, prefix@, aft),
                0 <= n <= m.len(),
                forall|t: u32| #[trigger]
                    m.contains(t) <==> t < names.len() && wanted(names, c, prefix@, aft, t),
                by_name(names, m),
                scanning(names, c, prefix@, aft, m, n, at@),
                forall|l: int|
                    0 <= l < k && at@[l] < (#[trigger] c[l]).len() ==> live(c, l, at@[l] as int)
                        && m.contains(c[l][at@[l] as int].term),
                match best {
                    Some(b) => b < k && at@[b as int] < c[b as int].len() && forall|l: int|
                        0 <= l < k && at@[l] < (#[trigger] c[l]).len() && l != b ==> text::str_lt(
                            names[c[b as int][at@[b as int] as int].term as int],
                            names[c[l][at@[l] as int].term as int],
                        ),
                    None => forall|l: int| 0 <= l < k ==> at@[l] >= (#[trigger] c[l]).len(),
                },
            decreases self.levels@.len() - k,
        {
            let ghost before = at@;
            let from: usize = at[k];
            assert(c[k as int] == self.levels@[k as int]@);
            let next: usize = self.advance(terms, prefix, k, from, Ghost(aft));
            at.set(k, next);
            proof {
                lemma_advanced(names, c, prefix@, aft, m, n, before, k as int, next);
            }
            if next < self.levels[k].len() {
                let ghost t = c[k as int][next as int].term;
                proof {
                    assert(interned(names, c[k as int]));
                    assert(t < names.len());
                    assert(m.contains(t));
                }
                match best {
                    None => {
                        best = Some(k);
                    },
                    Some(b) => {
                        let ghost u = c[b as int][at@[b as int] as int].term;
                        proof {
                            assert(c[b as int] == self.levels@[b as int]@);
                            assert(interned(names, c[b as int]));
                            assert(m.contains(u));
                            assert(live(c, b as int, at@[b as int] as int));
                            if t == u {
                                lemma_live_once(
                                    names,
                                    c,
                                    k as int,
                                    next as int,
                                    b as int,
                                    at@[b as int] as int,
                                );
                            }
                            text::lemma_str_total(names[t as int], names[u as int]);
                        }
                        let x: u32 = self.levels[k][next].term;
                        let y: u32 = self.levels[b][at[b]].term;
                        if str_before(terms.resolve(TermId(x)), terms.resolve(TermId(y))) {
                            proof {
                                assert forall|l: int|
                                    0 <= l < k + 1 && at@[l] < (#[trigger] c[l]).len() && l
                                        != k implies text::str_lt(
                                    names[t as int],
                                    names[c[l][at@[l] as int].term as int],
                                ) by {
                                    if l != b {
                                        text::lemma_str_transitive(
                                            names[t as int],
                                            names[u as int],
                                            names[c[l][at@[l] as int].term as int],
                                        );
                                    }
                                }
                            }
                            best = Some(k);
                        } else {
                            assert(text::str_lt(names[u as int], names[t as int]));
                        }
                    },
                }
            }
            k = k + 1;
        }
        proof {
            if n < m.len() {
                let t = m[n];
                assert(m.skip(n)[0] == t);
                assert(m.skip(n).contains(t));
                assert(m.contains(t));
                let (l, i) = lemma_has_live(c, t);
                assert(i >= at@[l]) by {
                    if i < at@[l] {
                        assert(c[l][i].term == t);
                    }
                }
                assert(at@[l] < c[l].len());
                lemma_first(names, c, prefix@, aft, m, n, at@, best->0 as int, l, i);
            } else {
                if let Some(b) = best {
                    let u = c[b as int][at@[b as int] as int].term;
                    assert(live(c, b as int, at@[b as int] as int));
                    assert(m.contains(u));
                    assert(m.take(n) =~= m);
                }
            }
        }
        best
    }
}

/// A position moved past entries that are not wanted.
proof fn lemma_advanced(
    names: Seq<Seq<char>>,
    c: Levels,
    prefix: Seq<char>,
    aft: Option<Seq<char>>,
    m: Seq<u32>,
    n: int,
    at: Seq<usize>,
    k: int,
    next: usize,
)
    requires
        scanning(names, c, prefix, aft, m, n, at),
        0 <= n <= m.len(),
        0 <= k < c.len(),
        at[k] <= next <= c[k].len(),
        forall|t: u32| #[trigger]
            m.contains(t) <==> t < names.len() && wanted(names, c, prefix, aft, t),
        forall|i: int|
            at[k] <= i < next && live(c, k, i) ==> !wanted(
                names,
                c,
                prefix,
                aft,
                (#[trigger] c[k][i]).term,
            ),
    ensures
        scanning(names, c, prefix, aft, m, n, at.update(k, next)),
{
    let now = at.update(k, next);
    assert forall|l: int, i: int| 0 <= l < c.len() && 0 <= i < now[l] && live(
        c,
        l,
        i,
    ) implies !m.skip(n).contains((#[trigger] c[l][i]).term) by {
        let t = c[l][i].term;
        if l == k && i >= at[k] {
            if m.skip(n).contains(t) {
                let j = m.skip(n).index_of(t);
                assert(m[n + j] == t);
                assert(m.contains(t));
            }
        }
    }
}

/// The least of the lists' next tags is the next tag of the listing.
proof fn lemma_first(
    names: Seq<Seq<char>>,
    c: Levels,
    prefix: Seq<char>,
    aft: Option<Seq<char>>,
    m: Seq<u32>,
    n: int,
    at: Seq<usize>,
    b: int,
    l: int,
    i: int,
)
    requires
        c.len() > 0,
        interner::distinct(names),
        levels_ok(names, c),
        single(c),
        scanning(names, c, prefix, aft, m, n, at),
        0 <= n < m.len(),
        by_name(names, m),
        forall|t: u32| #[trigger]
            m.contains(t) <==> t < names.len() && wanted(names, c, prefix, aft, t),
        0 <= b < c.len(),
        at[b] < c[b].len(),
        live(c, b, at[b] as int),
        m.contains(c[b][at[b] as int].term),
        0 <= l < c.len(),
        at[l] <= i < c[l].len(),
        live(c, l, i),
        c[l][i].term == m[n],
        l != b ==> text::str_lt(
            names[c[b][at[b] as int].term as int],
            names[c[l][at[l] as int].term as int],
        ),
    ensures
        c[b][at[b] as int].term == m[n],
{
    let u = c[b][at[b] as int].term;
    let t = m[n];
    let x = names[u as int];
    let y = names[t as int];
    let w = names[c[l][at[l] as int].term as int];
    assert(m.contains(t));
    assert(!text::str_lt(y, x)) by {
        assert(sorted(names, c[l]));
        text::lemma_str_total(w, y);
        text::lemma_str_total(x, w);
        text::lemma_str_total(x, y);
        if at[l] < i {
            assert(text::str_lt(w, y));
        }
        if l != b && text::str_lt(w, y) {
            text::lemma_str_transitive(x, w, y);
        }
    }
    let j = m.index_of(u);
    assert(j >= n) by {
        if j < n {
            assert(m.take(n)[j] == u);
            assert(m.take(n).contains(u));
        }
    }
    if j > n {
        assert(text::str_lt(names[m[n] as int], names[m[j] as int]));
    }
}

/// The next step of a scan: the tag is behind its list's position.
proof fn lemma_taken(
    names: Seq<Seq<char>>,
    c: Levels,
    prefix: Seq<char>,
    aft: Option<Seq<char>>,
    m: Seq<u32>,
    n: int,
    at: Seq<usize>,
    b: int,
)
    requires
        c.len() > 0,
        levels_ok(names, c),
        single(c),
        scanning(names, c, prefix, aft, m, n, at),
        0 <= n < m.len(),
        by_name(names, m),
        0 <= b < c.len(),
        at[b] < c[b].len(),
        at[b] < usize::MAX,
        live(c, b, at[b] as int),
        c[b][at[b] as int].term == m[n],
    ensures
        scanning(names, c, prefix, aft, m, n + 1, at.update(b, (at[b] + 1) as usize)),
{
    let now = at.update(b, (at[b] + 1) as usize);
    assert forall|l: int, i: int| 0 <= l < c.len() && 0 <= i < now[l] && live(
        c,
        l,
        i,
    ) implies !m.skip(n + 1).contains((#[trigger] c[l][i]).term) by {
        let t = c[l][i].term;
        if m.skip(n + 1).contains(t) {
            let j = m.skip(n + 1).index_of(t);
            assert(m[n + 1 + j] == t);
            if l == b && i == at[b] {
                text::lemma_str_total(names[t as int], names[t as int]);
            } else {
                assert(m.skip(n)[1 + j] == t);
                assert(m.skip(n).contains(t));
            }
        }
    }
    assert forall|l: int, i: int| 0 <= l < c.len() && now[l] <= i < c[l].len() && live(
        c,
        l,
        i,
    ) implies !m.take(n + 1).contains((#[trigger] c[l][i]).term) by {
        let t = c[l][i].term;
        if m.take(n + 1).contains(t) {
            let j = m.take(n + 1).index_of(t);
            if j < n {
                assert(m.take(n)[j] == t);
                assert(m.take(n).contains(t));
            } else {
                lemma_live_once(names, c, l, i, b, at[b] as int);
            }
        }
    }
}

impl TagCatalog {
    /// The first tags of a scan, at most `max` of them.
    fn collect(&self, terms: &Interner, prefix: &str, after: Option<&str>, max: usize) -> (r: Vec<
        Entry,
    >)
        requires
            terms.wf(),
            self.wf(terms@),
        ensures
            r@ == counted(
                self@,
                listing(terms@, self@, prefix@, opt_view(after)).take(
                    if listing(terms@, self@, prefix@, opt_view(after)).len() <= max {
                        listing(terms@, self@, prefix@, opt_view(after)).len() as int
                    } else {
                        max as int
                    },
                ),
            ),
            interned(terms@, r@),
    {
        let ghost c = self@;
        let ghost names = terms@;
        let ghost aft = opt_view(after);
        let ghost m = listing(names, c, prefix@, aft);
        let mut at: Vec<usize> = self.start_positions(terms, prefix, after);
        let mut out: Vec<Entry> = Vec::new();
        let mut more: bool = true;
        proof {
            lemma_listing(terms, c, prefix@, aft);
            assert(out@ =~= counted(c, m.take(0)));
        }
        while more && out.len() < max
            invariant
                c == self@,
                names == terms@,
                terms.wf(),
                self.wf(names),
                m == listing(names, c, prefix@, aft),
                by_name(names, m),
                m.len() <= names.len(),
                out@.len() <= m.len(),
                out@.len() <= max,
                out@ == counted(c, m.take(out@.len() as int)),
                interned(names, out@),
                scanning(names, c, prefix@, aft, m, out@.len() as int, at@),
                !more ==> out@.len() == m.len(),
            decreases (if more { 1int } else { 0 }), max - out@.len(),
        {
            let ghost n = out@.len() as int;
            match self.next_tag(terms, prefix, &mut at, Ghost(aft), Ghost(n)) {
                None => {
                    more = false;
                },
                Some(k) => {
                    let place: usize = at[k];
                    let total: usize = self.levels[k].len();
                    assert(c[k as int] == self.levels@[k as int]@);
                    assert(place < total);
                    let e: Entry = self.levels[k][place];
                    proof {
                        lemma_live(names, c, k as int, place as int);
                        lemma_taken(names, c, prefix@, aft, m, n, at@, k as int);
                        assert(interned(names, c[k as int]));
                    }
                    out.push(e);
                    at.set(k, place + 1);
                    proof {
                        assert(e == (Entry { term: m[n], count: count_of(c, m[n]) }));
                        assert(m.take(n + 1) =~= m.take(n).push(m[n]));
                        assert(out@ =~= counted(c, m.take(n + 1)));
                    }
                },
            }
        }
        out
    }
}

/// One active tag and the number of current facts that carry it.
pub struct TagSummary {
    /// Verbatim tag name.
    pub name: String,
    /// Current facts that carry the tag.
    pub count: u32,
}

/// A tag and its count.
pub struct SummaryView {
    pub name: Seq<char>,
    pub count: u32,
}

impl View for TagSummary {
    type V = SummaryView;

    open spec fn view(&self) -> SummaryView {
        SummaryView { name: self.name@, count: self.count }
    }
}

/// A bounded tag-catalog query.
#[derive(Clone, Copy, Debug)]
pub struct TagQuery<'a> {
    /// Optional exact, case-sensitive prefix.
    pub prefix: Option<&'a str>,
    /// Opaque cursor returned by the previous page.
    pub cursor: Option<&'a str>,
    /// Page size; 0 selects the default.
    pub limit: usize,
}

impl<'a> Default for TagQuery<'a> {
    fn default() -> (r: TagQuery<'a>)
        ensures
            r.prefix is None && r.cursor is None && r.limit == 0,
    {
        TagQuery { prefix: None, cursor: None, limit: 0 }
    }
}

/// One bounded page of active tags.
pub struct TagPage {
    /// Tags in the order of their names.
    pub items: Vec<TagSummary>,
    /// Pass to the next call; nothing when the scan is complete.
    pub next_cursor: Option<String>,
}

/// A page.
pub struct PageView {
    pub items: Seq<SummaryView>,
    pub next_cursor: Option<Seq<char>>,
}

impl View for TagPage {
    type V = PageView;

    open spec fn view(&self) -> PageView {
        PageView {
            items: self.items@.map_values(|x: TagSummary| x@),
            next_cursor: match self.next_cursor {
                Some(c) => Some(c@),
                None => None,
            },
        }
    }
}

/// The page size of a query.
pub open spec fn limit_of(limit: usize) -> usize {
    if limit == 0 {
        DEFAULT_TAG_PAGE_LIMIT
    } else {
        limit
    }
}

/// The prefix of a query.
pub open spec fn prefix_of(prefix: Option<&str>) -> Seq<char> {
    match prefix {
        Some(p) => p@,
        None => ""@,
    }
}

/// The digest of a string.
pub open spec fn name_hash(name: Seq<char>) -> u64 {
    hash::xxh3(encode_utf8(name))
}

/// Where a query goes on: a cursor of another catalog state, prefix or
/// database is stale.
pub open spec fn resumed(
    terms: Seq<Seq<char>>,
    fingerprint: u64,
    prefix: Seq<char>,
    db_uuid: u128,
    raw: Option<Seq<char>>,
) -> Result<Option<Seq<char>>, Error> {
    match raw {
        None => Ok(None),
        Some(raw) => match cursor::decoded(raw) {
            Err(e) => Err(e),
            Ok(c) => if c.fingerprint != fingerprint || c.prefix_hash != name_hash(prefix)
                || c.db_uuid != db_uuid || c.term >= terms.len() || name_hash(
                terms[c.term as int],
            ) != c.term_hash {
                Err(Error::StaleCursor)
            } else {
                Ok(Some(terms[c.term as int]))
            },
        },
    }
}

/// The page behind `after`: the first wanted tags, and where the next page
/// goes on when there are more.
pub open spec fn page_from(
    terms: Seq<Seq<char>>,
    c: Levels,
    fingerprint: u64,
    prefix: Seq<char>,
    db_uuid: u128,
    after: Option<Seq<char>>,
    limit: int,
) -> PageView {
    let all = listing(terms, c, prefix, after);
    let n = if all.len() <= limit {
        all.len() as int
    } else {
        limit
    };
    PageView {
        items: all.take(n).map_values(
            |t: u32| SummaryView { name: terms[t as int], count: count_of(c, t) },
        ),
        next_cursor: if all.len() > limit {
            Some(
                cursor::encoded(
                    Cursor {
                        fingerprint,
                        prefix_hash: name_hash(prefix),
                        db_uuid,
                        term: all[limit - 1],
                        term_hash: name_hash(terms[all[limit - 1] as int]),
                    },
                ),
            )
        } else {
            None
        },
    }
}

/// What a query returns.
pub open spec fn paged(
    terms: Seq<Seq<char>>,
    c: Levels,
    fingerprint: u64,
    db_uuid: u128,
    prefix: Seq<char>,
    raw: Option<Seq<char>>,
    limit: usize,
) -> Result<PageView, Error> {
    if limit_of(limit) > MAX_TAG_PAGE_LIMIT {
        Err(
            Error::TooLarge {
                what: "tag page limit",
                len: limit_of(limit),
                max: MAX_TAG_PAGE_LIMIT,
            },
        )
    } else {
        match resumed(terms, fingerprint, prefix, db_uuid, raw) {
            Err(e) => Err(e),
            Ok(after) => Ok(
                page_from(
                    terms,
                    c,
                    fingerprint,
                    prefix,
                    db_uuid,
                    after,
                    limit_of(limit) as int,
                ),
            ),
        }
    }
}

impl TagCatalog {
    /// One page of the active tags, by name.
    pub fn page(&self, terms: &Interner, db_uuid: u128, query: TagQuery<'_>) -> (r: Result<
        TagPage,
        Error,
    >)
        requires
            terms.wf(),
            self.wf(terms@),
        ensures
            match r {
                Ok(p) => paged(
                    terms@,
                    self@,
                    self.fingerprint(),
                    db_uuid,
                    prefix_of(query.prefix),
                    opt_view(query.cursor),
                    query.limit,
                ) == Ok::<PageView, Error>(p@),
                Err(e) => paged(
                    terms@,
                    self@,
                    self.fingerprint(),
                    db_uuid,
                    prefix_of(query.prefix),
                    opt_view(query.cursor),
                    query.limit,
                ) == Err::<PageView, Error>(e),
            },
    {
        let ghost names = terms@;
        let ghost c = self@;
        let limit: usize = if query.limit == 0 {
            DEFAULT_TAG_PAGE_LIMIT
        } else {
            query.limit
        };
        if limit > MAX_TAG_PAGE_LIMIT {
            return Err(
                Error::TooLarge { what: "tag page limit", len: limit, max: MAX_TAG_PAGE_LIMIT },
            );
        }
        let prefix: &str = match query.prefix {
            Some(p) => p,
            None => "",
        };
        let prefix_hash: u64 = hash64(prefix.as_bytes());
        let after: Option<&str> = match query.cursor {
            None => None,
            Some(raw) => {
                let d: Cursor = match decode_cursor(raw) {
                    Ok(d) => d,
                    Err(e) => {
                        return Err(e);
                    },
                };
                if d.fingerprint != self.fingerprint || d.prefix_hash != prefix_hash || d.db_uuid
                    != db_uuid || d.term as usize >= terms.len() {
                    return Err(Error::StaleCursor);
                }
                let name: &str = terms.resolve(TermId(d.term));
                if hash64(name.as_bytes()) != d.term_hash {
                    return Err(Error::StaleCursor);
                }
                Some(name)
            },
        };
        let ghost aft = opt_view(after);
        let ghost all = listing(names, c, prefix@, aft);
        let ghost f = |t: u32| SummaryView { name: names[t as int], count: count_of(c, t) };
        let found: Vec<Entry> = self.collect(terms, prefix, after, limit + 1);
        let more: bool = found.len() > limit;
        let n: usize = if more {
            limit
        } else {
            found.len()
        };
        let ghost top = all.take(n as int);
        let mut items: Vec<TagSummary> = Vec::new();
        let mut i: usize = 0;
        proof {
            assert(items@.map_values(|x: TagSummary| x@) =~= top.take(0).map_values(f));
        }
        while i < n
            invariant
                i <= n <= found@.len(),
                n <= all.len(),
                c == self@,
                names == terms@,
                interned(names, found@),
                top == all.take(n as int),
                forall|j: int|
                    0 <= j < n ==> (#[trigger] found@[j]) == (Entry {
                        term: all[j],
                        count: count_of(c, all[j]),
                    }),
                f == (|t: u32| SummaryView { name: names[t as int], count: count_of(c, t) }),
                items@.map_values(|x: TagSummary| x@) == top.take(i as int).map_values(f),
            decreases n - i,
        {
            let e: Entry = found[i];
            assert(e.term < names.len());
            let ghost before = items@.map_values(|x: TagSummary| x@);
            let name: String = String::from_str(terms.resolve(TermId(e.term)));
            items.push(TagSummary { name, count: e.count });
            i = i + 1;
            proof {
                let now = items@.map_values(|x: TagSummary| x@);
                assert(now =~= before.push(f(top[i - 1])));
                assert(top.take(i as int) =~= top.take(i - 1).push(top[i - 1]));
                assert(now =~= top.take(i as int).map_values(f));
            }
        }
        assert(top.take(n as int) =~= top);
        let next_cursor: Option<String> = if more {
            let last: u32 = found[limit - 1].term;
            assert(last < names.len());
            let name: &str = terms.resolve(TermId(last));
            let next = Cursor {
                fingerprint: self.fingerprint,
                prefix_hash,
                db_uuid,
                term: last,
                term_hash: hash64(name.as_bytes()),
            };
            Some(encode_cursor(&next))
        } else {
            None
        };
        Ok(TagPage { items, next_cursor })
    }
}

/// An entry as stored.
pub open spec fn entry_bytes(e: Entry) -> Seq<u8> {
    codec::le32(e.term) + codec::le32(e.count)
}

/// The stored form of some entries.
pub open spec fn entries_bytes(xs: Seq<Entry>) -> Seq<u8> {
    parse::flat(|e: Entry| entry_bytes(e), xs)
}

/// The active tags with their counts, by name.
pub open spec fn active(terms: Seq<Seq<char>>, c: Levels) -> Seq<Entry> {
    counted(c, listing(terms, c, ""@, None))
}

/// Entry number `i` of a stored catalog.
pub open spec fn stored_entry(b: Seq<u8>, i: int) -> Entry {
    Entry {
        term: codec::num_at(b, 8 * i, 4) as u32,
        count: codec::num_at(b, 8 * i + 4, 4) as u32,
    }
}

/// The first `n` entries of a stored catalog.
pub open spec fn stored_entries(b: Seq<u8>, n: nat) -> Seq<Entry> {
    Seq::new(n, |i: int| stored_entry(b, i))
}

/// The first fault among the first `n` stored entries.
pub open spec fn stored_fault(terms: Seq<Seq<char>>, b: Seq<u8>, n: nat) -> Option<&'static str>
    decreases n,
{
    if n == 0 {
        None
    } else {
        match stored_fault(terms, b, (n - 1) as nat) {
            Some(what) => Some(what),
            None => {
                let e = stored_entry(b, n - 1);
                if e.term >= terms.len() || e.count == 0 {
                    Some("tag catalog entry is invalid")
                } else if n > 1 && !text::str_lt(
                    terms[stored_entry(b, n - 2).term as int],
                    terms[e.term as int],
                ) {
                    Some("tag catalog is not strictly sorted")
                } else {
                    None
                }
            },
        }
    }
}

/// A catalog of a base alone.
pub open spec fn over(base: Seq<Entry>) -> Levels {
    seq![base, Seq::empty()]
}

/// What a stored catalog loads as.
pub open spec fn catalog_loaded(terms: Seq<Seq<char>>, b: Seq<u8>) -> Result<Levels, Error> {
    if b.len() % 8 != 0 {
        Err(Error::Corrupt("tag catalog is not an entry sequence"))
    } else {
        match stored_fault(terms, b, b.len() / 8) {
            Some(what) => Err(Error::Corrupt(what)),
            None => Ok(over(stored_entries(b, b.len() / 8))),
        }
    }
}

proof fn lemma_fault_stays(terms: Seq<Seq<char>>, b: Seq<u8>, k: nat, n: nat)
    requires
        k <= n,
        stored_fault(terms, b, k) is Some,
    ensures
        stored_fault(terms, b, n) == stored_fault(terms, b, k),
    decreases n,
{
    if k < n {
        lemma_fault_stays(terms, b, k, (n - 1) as nat);
    }
}

/// A list with one more entry at its end stays sorted.
proof fn lemma_appended(terms: Seq<Seq<char>>, xs: Seq<Entry>, e: Entry)
    requires
        sorted(terms, xs),
        interned(terms, xs),
        e.term < terms.len(),
        xs.len() > 0 ==> text::str_lt(terms[xs.last().term as int], terms[e.term as int]),
    ensures
        sorted(terms, xs.push(e)),
        interned(terms, xs.push(e)),
        forall|i: int| 0 <= i < xs.len() ==> (#[trigger] xs[i]).term != e.term,
{
    let ys = xs.push(e);
    assert forall|i: int| 0 <= i < xs.len() implies text::str_lt(
        terms[(#[trigger] xs[i]).term as int],
        terms[e.term as int],
    ) by {
        if i < xs.len() - 1 {
            assert(xs[xs.len() - 1] == xs.last());
            text::lemma_str_transitive(
                terms[xs[i].term as int],
                terms[xs.last().term as int],
                terms[e.term as int],
            );
        }
    }
    text::lemma_str_total(terms[e.term as int], terms[e.term as int]);
}

/// One more base entry.
proof fn lemma_based(terms: Seq<Seq<char>>, xs: Seq<Entry>, ys: Seq<Entry>, e: Entry)
    requires
        sorted(terms, xs),
        sorted(terms, ys),
        forall|f: Entry| #[trigger] ys.contains(f) <==> f == e || xs.contains(f),
        forall|i: int| 0 <= i < xs.len() ==> (#[trigger] xs[i]).term != e.term,
    ensures
        ({
            let c: Levels = over(xs);
            let d: Levels = over(ys);
            &&& count_of(c, e.term) == 0
            &&& count_of(d, e.term) == e.count
            &&& forall|t: u32| t != e.term ==> #[trigger] count_of(c, t) == count_of(d, t)
        }),
{
    let c: Levels = over(xs);
    let d: Levels = over(ys);
    assert forall|t: u32, n: u32| !#[trigger] overrides(c, t, n) && !overrides(d, t, n) by {}
    assert forall|t: u32| !#[trigger] overridden(c, t) by {}
    assert forall|t: u32| !#[trigger] overridden(d, t) by {
        assert forall|n: u32| !#[trigger] overrides(d, t, n) by {}
    }
    assert forall|t: u32, n: u32|
        t != e.term implies (#[trigger] in_base(c[0], t, n) <==> in_base(d[0], t, n)) by {
        if in_base(c[0], t, n) {
            let i = choose|i: int|
                0 <= i < xs.len() && (#[trigger] xs[i]).term == t && xs[i].count == n;
            assert(xs.contains(xs[i]));
            assert(ys.contains(xs[i]));
            let j = ys.index_of(xs[i]);
            assert(ys[j].term == t && ys[j].count == n);
        }
        if in_base(d[0], t, n) {
            let j = choose|j: int|
                0 <= j < ys.len() && (#[trigger] ys[j]).term == t && ys[j].count == n;
            assert(ys.contains(ys[j]));
            assert(xs.contains(ys[j]));
            let i = xs.index_of(ys[j]);
            assert(xs[i].term == t && xs[i].count == n);
        }
    }
    assert forall|n: u32| !#[trigger] in_base(c[0], e.term, n) by {}
    assert(ys.contains(e));
    let k = ys.index_of(e);
    assert(ys[k].term == e.term && ys[k].count == e.count);
    assert(in_base(d[0], e.term, e.count));
    lemma_count_base(terms, d, e.term, e.count);
    assert forall|t: u32| t != e.term implies #[trigger] count_of(c, t) == count_of(d, t) by {
        if exists|n: u32| #[trigger] in_base(c[0], t, n) {
            let n = choose|n: u32| #[trigger] in_base(c[0], t, n);
            assert(in_base(c[0], t, n));
            assert(in_base(d[0], t, n));
            lemma_count_base(terms, c, t, n);
            lemma_count_base(terms, d, t, n);
        } else {
            assert forall|n: u32| !#[trigger] in_base(d[0], t, n) by {
                assert(!in_base(c[0], t, n));
            }
        }
    }
}

proof fn lemma_levels(levels: Seq<Vec<Entry>>)
    requires
        levels.len() == 2,
        levels[1]@.len() == 0,
    ensures
        level_views(levels) == over(levels[0]@),
{
    assert(levels[1]@ =~= Seq::empty());
    assert(level_views(levels) =~= over(levels[0]@));
}

/// No tag at all.
proof fn lemma_empty_base(terms: Seq<Seq<char>>, n: nat)
    ensures
        fingerprint_of(terms, over(Seq::empty()), n) == 0,
        forall|t: u32| #[trigger] count_of(over(Seq::empty()), t) == 0,
{
    let c: Levels = over(Seq::empty());
    assert forall|t: u32| #[trigger] count_of(c, t) == 0 by {
        assert forall|n: u32| !#[trigger] overrides(c, t, n) by {}
        assert forall|n: u32| !#[trigger] in_base(c[0], t, n) by {}
    }
    lemma_no_tags(terms, c, n);
}

impl TagCatalog {
    /// A catalog of a sorted base.
    fn over_base(base: Vec<Entry>, fingerprint: u64, terms: &Interner) -> (r: TagCatalog)
        requires
            sorted(terms@, base@),
            interned(terms@, base@),
            fingerprint == fingerprint_of(terms@, over(base@), terms@.len()),
        ensures
            r.wf(terms@),
            r@ == over(base@),
            r.fingerprint() == fingerprint,
    {
        let ghost xs = base@;
        let mut levels: Vec<Vec<Entry>> = Vec::new();
        levels.push(base);
        levels.push(Vec::new());
        proof {
            lemma_levels(levels@);
            let c: Levels = over(xs);
            assert forall|k: int| 0 <= k < c.len() implies sorted(
                terms@,
                #[trigger] c[k],
            ) && interned(terms@, c[k]) by {
                if k == 1 {
                    assert(c[k] =~= Seq::empty());
                }
            }
        }
        TagCatalog { levels, fingerprint }
    }

    /// Loads a stored catalog.
    pub fn load(bytes: &[u8], terms: &Interner) -> (r: Result<TagCatalog, Error>)
        requires
            terms.wf(),
        ensures
            match r {
                Ok(c) => catalog_loaded(terms@, bytes@) == Ok::<Levels, Error>(c@) && c.wf(terms@),
                Err(e) => catalog_loaded(terms@, bytes@) == Err::<Levels, Error>(e),
            },
    {
        let ghost names = terms@;
        let total: usize = bytes.len();
        if total % 8 != 0 {
            return Err(Error::Corrupt("tag catalog is not an entry sequence"));
        }
        let n: usize = total / 8;
        let mut base: Vec<Entry> = Vec::new();
        let mut print: u64 = 0;
        let mut i: usize = 0;
        proof {
            terms.lemma_wf();
            lemma_empty_base(names, names.len());
            assert(base@ =~= stored_entries(bytes@, 0));
            assert(base@ =~= Seq::empty());
        }
        while i < n
            invariant
                i <= n,
                n == total / 8,
                total == bytes@.len(),
                total % 8 == 0,
                names == terms@,
                names.len() <= u32::MAX,
                terms.wf(),
                stored_fault(names, bytes@, i as nat) is None,
                base@ == stored_entries(bytes@, i as nat),
                sorted(names, base@),
                interned(names, base@),
                print == fingerprint_of(names, over(base@), names.len()),
            decreases n - i,
        {
            let term: u32 = get_u32(bytes, 8 * i);
            let count: u32 = get_u32(bytes, 8 * i + 4);
            let ghost xs = base@;
            let ghost e = Entry { term, count };
            proof {
                assert(e == stored_entry(bytes@, i as int));
                if i > 0 {
                    assert(xs.last() == stored_entry(bytes@, i - 1));
                }
            }
            if term as usize >= terms.len() || count == 0 {
                proof {
                    lemma_fault_stays(names, bytes@, (i + 1) as nat, n as nat);
                }
                return Err(Error::Corrupt("tag catalog entry is invalid"));
            }
            let name: &str = terms.resolve(TermId(term));
            if i > 0 {
                assert(interned(names, xs));
                assert(xs[i - 1].term < names.len());
                let previous: &str = terms.resolve(TermId(base[i - 1].term));
                if !str_before(previous, name) {
                    proof {
                        lemma_fault_stays(names, bytes@, (i + 1) as nat, n as nat);
                    }
                    return Err(Error::Corrupt("tag catalog is not strictly sorted"));
                }
            }
            let mark_now: u64 = hash_entry(name, count);
            print = print ^ mark_now;
            base.push(Entry { term, count });
            proof {
                lemma_appended(names, xs, e);
                lemma_push_contains(xs, e);
                lemma_based(names, xs, base@, e);
                let c: Levels = over(xs);
                let d: Levels = over(base@);
                lemma_fingerprint(names, c, d, term, names.len());
                lemma_xor(fingerprint_of(names, c, names.len()), 0, 0, 0);
                assert(base@ =~= stored_entries(bytes@, (i + 1) as nat));
            }
            i = i + 1;
        }
        Ok(TagCatalog::over_base(base, print, terms))
    }

    /// Builds a catalog from the counts of some tags.
    pub fn from_counts(entries: &Vec<(TermId, u32)>, terms: &Interner) -> (r: TagCatalog)
        requires
            terms.wf(),
            forall|i: int| 0 <= i < entries@.len() ==> (#[trigger] entries@[i]).0.0 < terms@.len(),
            forall|i: int, j: int|
                0 <= i < j < entries@.len() ==> (#[trigger] entries@[i]).0 != (
                #[trigger] entries@[j]).0,
        ensures
            r.wf(terms@),
            forall|i: int|
                0 <= i < entries@.len() ==> #[trigger] count_of(r@, entries@[i].0.0)
                    == entries@[i].1,
            forall|t: u32|
                (forall|i: int| 0 <= i < entries@.len() ==> (#[trigger] entries@[i]).0.0 != t)
                    ==> #[trigger] count_of(r@, t) == 0,
    {
        let ghost names = terms@;
        let mut base: Vec<Entry> = Vec::new();
        let mut print: u64 = 0;
        let mut k: usize = 0;
        proof {
            terms.lemma_wf();
            lemma_empty_base(names, names.len());
            assert(base@ =~= Seq::empty());
        }
        while k < entries.len()
            invariant
                k <= entries@.len(),
                names == terms@,
                names.len() <= u32::MAX,
                terms.wf(),
                forall|i: int|
                    0 <= i < entries@.len() ==> (#[trigger] entries@[i]).0.0 < names.len(),
                forall|i: int, j: int|
                    0 <= i < j < entries@.len() ==> (#[trigger] entries@[i]).0 != (
                    #[trigger] entries@[j]).0,
                sorted(names, base@),
                interned(names, base@),
                print == fingerprint_of(names, over(base@), names.len()),
                forall|i: int|
                    0 <= i < k ==> #[trigger] count_of(
                        over(base@),
                        entries@[i].0.0,
                    ) == entries@[i].1,
                forall|t: u32|
                    (forall|i: int| 0 <= i < k ==> (#[trigger] entries@[i]).0.0 != t)
                        ==> #[trigger] count_of(over(base@), t) == 0,
                forall|j: int|
                    0 <= j < base@.len() ==> exists|i: int|
                        0 <= i < k && (#[trigger] entries@[i]).0.0 == (#[trigger] base@[j]).term,
            decreases entries@.len() - k,
        {
            let (id, count): (TermId, u32) = entries[k];
            let ghost xs = base@;
            let ghost c: Levels = over(xs);
            let ghost e = Entry { term: id.0, count };
            assert(entries@[k as int].0.0 < names.len());
            proof {
                assert forall|j: int| 0 <= j < xs.len() implies (#[trigger] xs[j]).term
                    != id.0 by {
                    let i = choose|i: int|
                        0 <= i < k && (#[trigger] entries@[i]).0.0 == xs[j].term;
                    assert(entries@[i].0 != entries@[k as int].0);
                }
                assert(count_of(c, id.0) == 0) by {
                    assert forall|i: int| 0 <= i < k implies (#[trigger] entries@[i]).0.0
                        != id.0 by {
                        assert(entries@[i].0 != entries@[k as int].0);
                    }
                }
            }
            if count != 0 {
                let (_, at): (bool, usize) = find(&base, terms, id.0);
                base.insert(at, Entry { term: id.0, count });
                print = print ^ hash_entry(terms.resolve(id), count);
                proof {
                    let d: Levels = over(base@);
                    lemma_listed(names, xs, at as int, e);
                    lemma_based(names, xs, base@, e);
                    lemma_fingerprint(names, c, d, id.0, names.len());
                    lemma_xor(fingerprint_of(names, c, names.len()), 0, 0, 0);
                    assert forall|j: int| 0 <= j < base@.len() implies exists|i: int|
                        0 <= i < k + 1 && (#[trigger] entries@[i]).0.0 == (
                        #[trigger] base@[j]).term by {
                        assert(base@.contains(base@[j]));
                        if base@[j] == e {
                            assert(entries@[k as int].0.0 == e.term);
                        } else {
                            let m = xs.index_of(base@[j]);
                            assert(xs[m] == base@[j]);
                            let i = choose|i: int|
                                0 <= i < k && (#[trigger] entries@[i]).0.0 == xs[m].term;
                            assert(entries@[i].0.0 == base@[j].term);
                        }
                    }
                }
            }
            proof {
                let d: Levels = over(base@);
                assert forall|i: int| 0 <= i < k + 1 implies #[trigger] count_of(
                    d,
                    entries@[i].0.0,
                ) == entries@[i].1 by {
                    if i < k {
                        assert(entries@[i].0 != entries@[k as int].0);
                        assert(count_of(c, entries@[i].0.0) == entries@[i].1);
                    }
                }
                assert forall|t: u32|
                    (forall|i: int|
                        0 <= i < k + 1 ==> (#[trigger] entries@[i]).0.0 != t) implies #[trigger] count_of(
                    d,
                    t,
                ) == 0 by {
                    assert(entries@[k as int].0.0 != t);
                    assert(forall|i: int| 0 <= i < k ==> (#[trigger] entries@[i]).0.0 != t);
                    assert(count_of(c, t) == 0);
                }
            }
            k = k + 1;
        }
        TagCatalog::over_base(base, print, terms)
    }

    /// The stored form of the merged catalog.
    pub fn dump(&self, terms: &Interner) -> (r: Vec<u8>)
        requires
            terms.wf(),
            self.wf(terms@),
        ensures
            r@ == entries_bytes(active(terms@, self@)),
    {
        let ghost xs = active(terms@, self@);
        let ghost f = |e: Entry| entry_bytes(e);
        let max: usize = terms.len();
        let found: Vec<Entry> = self.collect(terms, "", None, max);
        proof {
            lemma_listing(terms, self@, ""@, None);
            let all = listing(terms@, self@, ""@, None);
            assert(all.take(all.len() as int) =~= all);
            assert(found@ == xs);
        }
        let mut out: Vec<u8> = Vec::new();
        let mut i: usize = 0;
        assert(found@.take(0) =~= Seq::empty());
        while i < found.len()
            invariant
                i <= found@.len(),
                f == (|e: Entry| entry_bytes(e)),
                out@ == parse::flat(f, found@.take(i as int)),
            decreases found@.len() - i,
        {
            let e: Entry = found[i];
            let ghost before = out@;
            put_u32(&mut out, e.term);
            put_u32(&mut out, e.count);
            proof {
                assert(found@.take(i + 1) =~= found@.take(i as int).push(e));
                parse::lemma_flat_push(f, found@.take(i as int), e);
                assert(out@ =~= before + entry_bytes(e));
            }
            i = i + 1;
        }
        assert(found@.take(i as int) =~= found@);
        out
    }
}

/// Tags by name that hold the same tags are the same.
proof fn lemma_names_unique(names: Seq<Seq<char>>, a: Seq<u32>, b: Seq<u32>)
    requires
        by_name(names, a),
        by_name(names, b),
        forall|t: u32| #[trigger] a.contains(t) <==> b.contains(t),
    ensures
        a == b,
    decreases a.len(),
{
    if a.len() == 0 {
        if b.len() > 0 {
            assert(b.contains(b[0]));
            assert(a.contains(b[0]));
        }
        assert(a =~= b);
    } else {
        let x = a.last();
        assert(a[a.len() - 1] == x);
        assert(a.contains(x));
        assert(b.contains(x));
        let k = b.index_of(x);
        let y = b.last();
        assert(b[b.len() - 1] == y);
        assert(b.contains(y));
        assert(a.contains(y));
        let n = a.index_of(y);
        text::lemma_str_total(names[x as int], names[y as int]);
        assert(x == y) by {
            if n < a.len() - 1 {
                assert(text::str_lt(names[y as int], names[x as int]));
                assert(k < b.len() - 1 ==> text::str_lt(names[x as int], names[y as int]));
            }
        }
        let c = a.drop_last();
        let d = b.drop_last();
        assert forall|t: u32| #[trigger] c.contains(t) <==> d.contains(t) by {
            text::lemma_str_total(names[t as int], names[t as int]);
            if c.contains(t) {
                let i = c.index_of(t);
                assert(a[i] == t && a.contains(t));
                let j = b.index_of(t);
                assert(j < b.len() - 1) by {
                    if j == b.len() - 1 {
                        assert(t == x);
                        assert(text::str_lt(names[a[i] as int], names[a[a.len() - 1] as int]));
                    }
                }
                assert(d[j] == t);
            }
            if d.contains(t) {
                let j = d.index_of(t);
                assert(b[j] == t && b.contains(t));
                assert(a.contains(t));
                let i = a.index_of(t);
                assert(i < a.len() - 1) by {
                    if i == a.len() - 1 {
                        assert(t == x);
                        assert(text::str_lt(names[b[j] as int], names[b[b.len() - 1] as int]));
                    }
                }
                assert(c[i] == t);
            }
        }
        lemma_names_unique(names, c, d);
        assert(a =~= c.push(x));
        assert(b =~= d.push(y));
    }
}

/// A page goes on exactly where the one before it ended: the cursor that a
/// page hands out is accepted, and what it leads to is the rest of the scan.
/// Nothing is skipped and nothing comes twice.
pub proof fn pages_join_up(
    terms: &Interner,
    c: Levels,
    fingerprint: u64,
    prefix: Seq<char>,
    db_uuid: u128,
    after: Option<Seq<char>>,
    limit: int,
)
    requires
        terms.wf(),
        1 <= limit < listing(terms@, c, prefix, after).len(),
    ensures
        ({
            let all = listing(terms@, c, prefix, after);
            let page = page_from(terms@, c, fingerprint, prefix, db_uuid, after, limit);
            let last = terms@[all[limit - 1] as int];
            &&& resumed(terms@, fingerprint, prefix, db_uuid, page.next_cursor) == Ok::<
                Option<Seq<char>>,
                Error,
            >(Some(last))
            &&& listing(terms@, c, prefix, Some(last)) == all.skip(limit)
        }),
{
    let names = terms@;
    let all = listing(names, c, prefix, after);
    let t = all[limit - 1];
    let last = names[t as int];
    lemma_listing(terms, c, prefix, after);
    lemma_listing(terms, c, prefix, Some(last));
    assert(all.contains(t));
    let cur = Cursor {
        fingerprint,
        prefix_hash: name_hash(prefix),
        db_uuid,
        term: t,
        term_hash: name_hash(last),
    };
    cursor::cursor_round_trip(cur);
    let rest = all.skip(limit);
    let next = listing(names, c, prefix, Some(last));
    assert(by_name(names, rest)) by {
        assert forall|i: int, j: int| 0 <= i < j < rest.len() implies text::str_lt(
            names[(#[trigger] rest[i]) as int],
            names[(#[trigger] rest[j]) as int],
        ) by {
            assert(rest[i] == all[limit + i] && rest[j] == all[limit + j]);
        }
    }
    assert forall|u: u32| #[trigger] rest.contains(u) <==> next.contains(u) by {
        let x = names[u as int];
        if rest.contains(u) {
            let i = rest.index_of(u);
            assert(all[limit + i] == u);
            assert(all.contains(u));
            assert(text::str_lt(names[all[limit - 1] as int], names[all[limit + i] as int]));
        }
        if next.contains(u) {
            assert(wanted(names, c, prefix, Some(last), u));
            assert(behind(x, after)) by {
                if let Some(a) = after {
                    assert(wanted(names, c, prefix, after, t));
                    text::lemma_str_transitive(a, last, x);
                }
            }
            assert(all.contains(u));
            let i = all.index_of(u);
            assert(i >= limit) by {
                text::lemma_str_total(last, x);
                if i < limit - 1 {
                    assert(text::str_lt(names[all[i] as int], names[all[limit - 1] as int]));
                }
            }
            assert(rest[i - limit] == u);
        }
    }
    lemma_names_unique(names, rest, next);
}

/// What a listing shows of some tags.
pub open spec fn summaries(
    terms: Seq<Seq<char>>,
    c: Levels,
    tags: Seq<u32>,
) -> Seq<SummaryView> {
    tags.map_values(|t: u32| SummaryView { name: terms[t as int], count: count_of(c, t) })
}

/// The items of up to `n` pages, each asked for with the cursor of the one
/// before it.
pub open spec fn walked(
    terms: Seq<Seq<char>>,
    c: Levels,
    fingerprint: u64,
    db_uuid: u128,
    prefix: Seq<char>,
    raw: Option<Seq<char>>,
    limit: usize,
    n: nat,
) -> Seq<SummaryView>
    decreases n,
{
    if n == 0 {
        Seq::empty()
    } else {
        match paged(terms, c, fingerprint, db_uuid, prefix, raw, limit) {
            Err(_) => Seq::empty(),
            Ok(page) => if page.next_cursor is None {
                page.items
            } else {
                page.items + walked(
                    terms,
                    c,
                    fingerprint,
                    db_uuid,
                    prefix,
                    page.next_cursor,
                    limit,
                    (n - 1) as nat,
                )
            },
        }
    }
}

proof fn lemma_walk_from(
    terms: &Interner,
    c: Levels,
    fingerprint: u64,
    db_uuid: u128,
    prefix: Seq<char>,
    raw: Option<Seq<char>>,
    after: Option<Seq<char>>,
    limit: usize,
    n: nat,
)
    requires
        terms.wf(),
        limit_of(limit) <= MAX_TAG_PAGE_LIMIT,
        resumed(terms@, fingerprint, prefix, db_uuid, raw) == Ok::<_, Error>(after),
        1 <= n,
        listing(terms@, c, prefix, after).len() <= n,
    ensures
        walked(terms@, c, fingerprint, db_uuid, prefix, raw, limit, n) == summaries(
            terms@,
            c,
            listing(terms@, c, prefix, after),
        ),
    decreases n,
{
    let names = terms@;
    let all = listing(names, c, prefix, after);
    let size = limit_of(limit) as int;
    let page = page_from(names, c, fingerprint, prefix, db_uuid, after, size);
    if all.len() <= size {
        assert(all.take(all.len() as int) =~= all);
        assert(page.items =~= summaries(names, c, all));
    } else {
        let last = names[all[size - 1] as int];
        pages_join_up(terms, c, fingerprint, prefix, db_uuid, after, size);
        lemma_walk_from(
            terms,
            c,
            fingerprint,
            db_uuid,
            prefix,
            page.next_cursor,
            Some(last),
            limit,
            (n - 1) as nat,
        );
        assert(summaries(names, c, all.take(size)) + summaries(names, c, all.skip(size))
            =~= summaries(names, c, all));
        assert(page.items =~= summaries(names, c, all.take(size)));
    }
}

/// Following the cursors from the first page to the last lists every wanted
/// tag once, by name, with its count.
pub proof fn the_pages_list_every_tag(
    terms: &Interner,
    c: Levels,
    fingerprint: u64,
    db_uuid: u128,
    prefix: Seq<char>,
    limit: usize,
    n: nat,
)
    requires
        terms.wf(),
        limit_of(limit) <= MAX_TAG_PAGE_LIMIT,
        1 <= n,
        listing(terms@, c, prefix, None).len() <= n,
    ensures
        walked(terms@, c, fingerprint, db_uuid, prefix, None, limit, n) == summaries(
            terms@,
            c,
            listing(terms@, c, prefix, None),
        ),
        by_name(terms@, listing(terms@, c, prefix, None)),
        forall|t: u32|
            t < terms@.len() ==> (#[trigger] listing(terms@, c, prefix, None).contains(t)
                <==> wanted(terms@, c, prefix, None, t)),
{
    lemma_listing(terms, c, prefix, None);
    lemma_walk_from(terms, c, fingerprint, db_uuid, prefix, None, None, limit, n);
}

/// Every page but the last holds as many tags as were asked for, and the last
/// holds the rest.
pub proof fn only_the_last_page_is_short(
    terms: Seq<Seq<char>>,
    c: Levels,
    fingerprint: u64,
    db_uuid: u128,
    prefix: Seq<char>,
    raw: Option<Seq<char>>,
    limit: usize,
)
    requires
        paged(terms, c, fingerprint, db_uuid, prefix, raw, limit) is Ok,
    ensures
        ({
            let p = paged(terms, c, fingerprint, db_uuid, prefix, raw, limit)->Ok_0;
            &&& p.next_cursor is Some ==> p.items.len() == limit_of(limit)
            &&& p.next_cursor is None ==> p.items.len() <= limit_of(limit)
        }),
{
}

/// A cursor that a page handed out leads nowhere once the catalog has another
/// fingerprint, in another database, or under a prefix of another digest.
pub proof fn a_foreign_cursor_is_stale(
    terms: Seq<Seq<char>>,
    c: Levels,
    fingerprint: u64,
    db_uuid: u128,
    prefix: Seq<char>,
    raw: Option<Seq<char>>,
    limit: usize,
    now: (Seq<Seq<char>>, Levels, u64, u128, Seq<char>, usize),
)
    requires
        paged(terms, c, fingerprint, db_uuid, prefix, raw, limit) matches Ok(p)
            && p.next_cursor is Some,
        now.2 != fingerprint || now.3 != db_uuid || name_hash(now.4) != name_hash(prefix),
        limit_of(now.5) <= MAX_TAG_PAGE_LIMIT,
    ensures
        paged(
            now.0,
            now.1,
            now.2,
            now.3,
            now.4,
            paged(terms, c, fingerprint, db_uuid, prefix, raw, limit)->Ok_0.next_cursor,
            now.5,
        ) == Err::<PageView, _>(Error::StaleCursor),
{
    let after = resumed(terms, fingerprint, prefix, db_uuid, raw)->Ok_0;
    let all = listing(terms, c, prefix, after);
    let last = all[limit_of(limit) - 1];
    cursor::cursor_round_trip(
        Cursor {
            fingerprint,
            prefix_hash: name_hash(prefix),
            db_uuid,
            term: last,
            term_hash: name_hash(terms[last as int]),
        },
    );
}

/// Entry `i` of a run reads back.
proof fn lemma_stored_entry(xs: Seq<Entry>, b: Seq<u8>, i: int)
    requires
        0 <= i < xs.len(),
        b == entries_bytes(xs),
    ensures
        stored_entry(b, i) == xs[i],
{
    let f = |e: Entry| entry_bytes(e);
    reveal(codec::has_at);
    lemma_entries_len(xs, i as nat);
    lemma_entries_len(xs, (i + 1) as nat);
    let e = xs[i];
    let front = entries_bytes(xs.take(i));
    assert(xs.take(i + 1) =~= xs.take(i).push(e));
    parse::lemma_flat_push(f, xs.take(i), e);
    parse::lemma_flat_concat(f, xs.take(i + 1), xs.skip(i + 1));
    assert(xs.take(i + 1) + xs.skip(i + 1) =~= xs);
    codec::lemma_pow256();
    codec::lemma_le_bytes_len(e.term as nat, 4);
    codec::lemma_le_bytes_len(e.count as nat, 4);
    let whole = front + entry_bytes(e);
    assert(b.subrange(0, whole.len() as int) =~= whole);
    assert(b.subrange(8 * i, 8 * i + 4) =~= codec::le32(e.term));
    assert(b.subrange(8 * i + 4, 8 * i + 8) =~= codec::le32(e.count));
    assert(codec::has_at(b, 8 * i, codec::le32(e.term)));
    assert(codec::has_at(b, 8 * i + 4, codec::le32(e.count)));
    codec::lemma_num_at(b, 8 * i, e.term as nat, 4);
    codec::lemma_num_at(b, 8 * i + 4, e.count as nat, 4);
}

proof fn lemma_stored(xs: Seq<Entry>, b: Seq<u8>, n: nat)
    requires
        n <= xs.len(),
        b == entries_bytes(xs),
    ensures
        entries_bytes(xs.take(n as int)).len() == 8 * n,
        codec::has_at(b, 0, entries_bytes(xs.take(n as int))),
        forall|i: int| 0 <= i < n ==> #[trigger] stored_entry(b, i) == xs[i],
{
    let f = |e: Entry| entry_bytes(e);
    lemma_entries_len(xs, n);
    assert(codec::has_at(b, 0, entries_bytes(xs.take(n as int)))) by {
        reveal(codec::has_at);
        parse::lemma_flat_concat(f, xs.take(n as int), xs.skip(n as int));
        assert(xs.take(n as int) + xs.skip(n as int) =~= xs);
        let head = entries_bytes(xs.take(n as int));
        assert(b.subrange(0, head.len() as int) =~= head);
    }
    assert forall|i: int| 0 <= i < n implies #[trigger] stored_entry(b, i) == xs[i] by {
        lemma_stored_entry(xs, b, i);
    }
}

proof fn lemma_entries_len(xs: Seq<Entry>, n: nat)
    requires
        n <= xs.len(),
    ensures
        entries_bytes(xs.take(n as int)).len() == 8 * n,
    decreases n,
{
    let f = |e: Entry| entry_bytes(e);
    if n > 0 {
        lemma_entries_len(xs, (n - 1) as nat);
        let e = xs[n - 1];
        assert(xs.take(n as int) =~= xs.take(n - 1).push(e));
        parse::lemma_flat_push(f, xs.take(n - 1), e);
        codec::lemma_pow256();
        codec::lemma_le_bytes_len(e.term as nat, 4);
        codec::lemma_le_bytes_len(e.count as nat, 4);
    } else {
        assert(xs.take(0) =~= Seq::empty());
    }
}

proof fn lemma_no_fault(terms: Seq<Seq<char>>, xs: Seq<Entry>, b: Seq<u8>, n: nat)
    requires
        n <= xs.len(),
        forall|i: int| 0 <= i < xs.len() ==> #[trigger] stored_entry(b, i) == xs[i],
        sorted(terms, xs),
        interned(terms, xs),
        forall|i: int| 0 <= i < xs.len() ==> (#[trigger] xs[i]).count != 0,
    ensures
        stored_fault(terms, b, n) is None,
    decreases n,
{
    if n > 0 {
        lemma_no_fault(terms, xs, b, (n - 1) as nat);
        assert(stored_entry(b, n - 1) == xs[n - 1]);
        assert(xs[n - 1].count != 0 && xs[n - 1].term < terms.len());
        if n > 1 {
            assert(stored_entry(b, n - 2) == xs[n - 2]);
        }
    }
}

/// A stored catalog loads back: its base is the merged catalog, and every tag
/// counts as it did.
pub proof fn catalog_round_trip(terms: &Interner, cat: TagCatalog)
    requires
        terms.wf(),
        cat.wf(terms@),
    ensures
        catalog_loaded(terms@, entries_bytes(active(terms@, cat@))) == Ok::<Levels, Error>(
            over(active(terms@, cat@)),
        ),
        forall|t: u32| #[trigger] count_of(over(active(terms@, cat@)), t) == count_of(cat@, t),
{
    let names = terms@;
    let c = cat@;
    let tags = listing(names, c, ""@, None);
    let xs = active(names, c);
    let b = entries_bytes(xs);
    lemma_listing(terms, c, ""@, None);
    terms.lemma_wf();
    assert(xs.take(xs.len() as int) =~= xs);
    lemma_stored(xs, b, xs.len());
    assert forall|i: int| 0 <= i < xs.len() implies (#[trigger] xs[i]).term == tags[i]
        && xs[i].count == count_of(c, tags[i]) && xs[i].count != 0 && xs[i].term < names.len() by {
        assert(tags.contains(tags[i]));
    }
    assert(sorted(names, xs)) by {
        assert forall|i: int, j: int| 0 <= i < j < xs.len() implies text::str_lt(
            names[(#[trigger] xs[i]).term as int],
            names[(#[trigger] xs[j]).term as int],
        ) by {
            assert(xs[i].term == tags[i] && xs[j].term == tags[j]);
        }
    }
    assert(interned(names, xs));
    lemma_no_fault(names, xs, b, xs.len());
    assert(b.len() / 8 == xs.len());
    assert(stored_entries(b, xs.len()) =~= xs);
    let d = over(xs);
    assert forall|t: u32| #[trigger] count_of(d, t) == count_of(c, t) by {
        assert(!overridden(d, t)) by {
            assert forall|n: u32| !#[trigger] overrides(d, t, n) by {}
        }
        if t < names.len() && count_of(c, t) != 0 {
            assert(begins(names[t as int], ""@)) by {
                reveal_strlit("");
                assert(""@ =~= Seq::empty());
                encode_utf8_empty();
                assert(encode_utf8(""@) =~= encode_utf8(names[t as int]).subrange(0, 0));
            }
            assert(tags.contains(t));
            let i = tags.index_of(t);
            assert(xs[i].term == t && xs[i].count == count_of(c, t));
            assert(in_base(d[0], t, count_of(c, t)));
            lemma_count_base(names, d, t, count_of(c, t));
        } else {
            assert(count_of(c, t) == 0) by {
                if count_of(c, t) != 0 {
                    let (k, i) = lemma_has_live(c, t);
                    assert(interned(names, c[k]));
                    assert(c[k][i].term < names.len());
                }
            }
            assert forall|n: u32| !#[trigger] in_base(d[0], t, n) by {
                if in_base(d[0], t, n) {
                    let i = choose|i: int|
                        0 <= i < xs.len() && (#[trigger] xs[i]).term == t && xs[i].count == n;
                    assert(xs[i].term == tags[i]);
                }
            }
        }
    }
}

proof fn encode_utf8_empty()
    ensures
        encode_utf8(Seq::<char>::empty()).len() == 0,
{
}

/// A catalog stays valid, with the same fingerprint, when new terms are
/// interned.
pub proof fn new_terms_change_nothing(
    cat: TagCatalog,
    terms: Seq<Seq<char>>,
    more: Seq<Seq<char>>,
)
    requires
        cat.wf(terms),
        (terms + more).len() <= u32::MAX,
    ensures
        cat.wf(terms + more),
{
    let c = cat@;
    let all = terms + more;
    assert forall|k: int| 0 <= k < c.len() implies sorted(all, #[trigger] c[k]) && interned(
        all,
        c[k],
    ) by {
        assert(sorted(terms, c[k]) && interned(terms, c[k]));
        assert forall|i: int| 0 <= i < c[k].len() implies all[(#[trigger] c[k][i]).term as int]
            == terms[c[k][i].term as int] && c[k][i].term < all.len() by {
            assert(c[k][i].term < terms.len());
        }
        assert forall|i: int, j: int| 0 <= i < j < c[k].len() implies text::str_lt(
            all[(#[trigger] c[k][i]).term as int],
            all[(#[trigger] c[k][j]).term as int],
        ) by {
            assert(all[c[k][i].term as int] == terms[c[k][i].term as int]);
            assert(all[c[k][j].term as int] == terms[c[k][j].term as int]);
        }
    }
    lemma_fingerprint_grows(c, terms, all, all.len());
}

proof fn lemma_fingerprint_grows(
    c: Levels,
    terms: Seq<Seq<char>>,
    all: Seq<Seq<char>>,
    n: nat,
)
    requires
        c.len() > 0,
        levels_ok(terms, c),
        n <= all.len() <= u32::MAX,
        terms.len() <= all.len(),
        forall|i: int| 0 <= i < terms.len() ==> #[trigger] all[i] == terms[i],
    ensures
        fingerprint_of(all, c, n) == fingerprint_of(
            terms,
            c,
            if n <= terms.len() {
                n
            } else {
                terms.len()
            },
        ),
    decreases n,
{
    if n > 0 {
        lemma_fingerprint_grows(c, terms, all, (n - 1) as nat);
        let t = (n - 1) as u32;
        if n > terms.len() {
            assert(count_of(c, t) == 0) by {
                if count_of(c, t) != 0 {
                    let (k, i) = lemma_has_live(c, t);
                    assert(interned(terms, c[k]));
                    assert(c[k][i].term < terms.len());
                }
            }
            lemma_xor(fingerprint_of(all, c, (n - 1) as nat), 0, 0, 0);
        }
    }
}

/// A fact that is neither forgotten nor closed.
pub open spec fn is_current(s: State, id: u32) -> bool {
    match state::fact_of(s, FactId(id)) {
        Some(f) => !f.tombstone() && !f.closed(),
        None => false,
    }
}

/// How many of the first `n` listed facts are current.
pub open spec fn current_among(s: State, xs: Seq<postings::Entry>, n: nat) -> nat
    decreases n,
{
    if n == 0 {
        0
    } else {
        current_among(s, xs, (n - 1) as nat) + (if is_current(s, xs[n - 1].0) {
            1nat
        } else {
            0
        })
    }
}

/// The number of current facts that carry a tag.
pub open spec fn current_count(s: State, t: u32) -> nat {
    let xs = postings::entries_of(s.tags_idx, t);
    current_among(s, xs, xs.len())
}

impl Memory {
    /// The number of current facts that carry a tag.
    fn current_facts(&self, term: u32) -> (r: u32)
        requires
            self.wf(),
        ensures
            r == current_count(self@, term),
    {
        let ghost s = self@;
        let ghost xs = postings::entries_of(s.tags_idx, term);
        let total: u32 = self.tags_idx.count(term);
        let mut walk = self.tags_idx.entries(term);
        let mut n: u32 = 0;
        let mut i: u32 = 0;
        assert(xs.skip(0) =~= xs);
        while i < total
            invariant
                walk.wf(),
                self.wf(),
                s == self@,
                i <= total,
                total == xs.len(),
                walk.rest() == xs.skip(i as int),
                n == current_among(s, xs, i as nat),
                n <= i,
            decreases total - i,
        {
            match walk.next() {
                None => {
                    assert(xs.skip(i as int).len() > 0);
                },
                Some((fact, _)) => {
                    proof {
                        assert(xs.skip(i as int)[0] == xs[i as int]);
                        assert(xs.skip(i as int).skip(1) =~= xs.skip(i + 1));
                        assert(fact == FactId(xs[i as int].0));
                    }
                    if let Some(f) = self.fact(fact) {
                        if !f.is_tombstone() && !f.is_closed() {
                            n = n + 1;
                        }
                    }
                },
            }
            i = i + 1;
        }
        n
    }

    /// The tag catalog of the current facts, built from the tag index.
    pub fn tag_catalog(&self) -> (r: TagCatalog)
        requires
            self.wf(),
        ensures
            r.wf(self@.terms),
            forall|t: u32|
                t < self@.terms.len() ==> #[trigger] count_of(r@, t) == current_count(self@, t),
            forall|t: u32| t >= self@.terms.len() ==> #[trigger] count_of(r@, t) == 0,
    {
        let ghost s = self@;
        let mut counts: Vec<(TermId, u32)> = Vec::new();
        let total: usize = self.terms.len();
        proof {
            self.terms.lemma_wf();
        }
        let mut t: u32 = 0;
        while (t as usize) < total
            invariant
                t <= total,
                total == s.terms.len(),
                total <= u32::MAX,
                s == self@,
                self.wf(),
                counts@.len() == t,
                forall|i: int|
                    0 <= i < t ==> (#[trigger] counts@[i]).0.0 == i && counts@[i].1
                        == current_count(s, i as u32),
            decreases total - t,
        {
            let n: u32 = self.current_facts(t);
            counts.push((TermId(t), n));
            t = t + 1;
        }
        let r: TagCatalog = TagCatalog::from_counts(&counts, &self.terms);
        proof {
            assert forall|u: u32| u < s.terms.len() implies #[trigger] count_of(r@, u)
                == current_count(s, u) by {
                assert(counts@[u as int].0.0 == u);
                assert(count_of(r@, counts@[u as int].0.0) == counts@[u as int].1);
            }
        }
        r
    }

    /// One page of the tags that current facts carry.
    pub fn tags(&self, db_uuid: u128, query: TagQuery<'_>) -> (r: Result<TagPage, Error>)
        requires
            self.wf(),
        ensures
            exists|cat: TagCatalog|
                cat.wf(self@.terms) && (forall|t: u32|
                    t < self@.terms.len() ==> count_of(cat@, t) == current_count(self@, t))
                    && #[trigger] page_result(
                    self@.terms,
                    cat,
                    db_uuid,
                    query,
                ) == page_outcome(r),
    {
        let cat: TagCatalog = self.tag_catalog();
        let r = cat.page(&self.terms, db_uuid, query);
        assert(page_result(self@.terms, cat, db_uuid, query) == page_outcome(r));
        r
    }
}

/// What a page of a catalog returns.
pub open spec fn page_result(
    terms: Seq<Seq<char>>,
    cat: TagCatalog,
    db_uuid: u128,
    query: TagQuery<'_>,
) -> Result<PageView, Error> {
    paged(
        terms,
        cat@,
        cat.fingerprint(),
        db_uuid,
        prefix_of(query.prefix),
        opt_view(query.cursor),
        query.limit,
    )
}

/// A page, or the error that came instead.
pub open spec fn page_outcome(r: Result<TagPage, Error>) -> Result<PageView, Error> {
    match r {
        Ok(p) => Ok(p@),
        Err(e) => Err(e),
    }
}

} // verus!
