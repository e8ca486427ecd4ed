//! Canonical encoding of a fact's optional metadata: a small key-value map of
//! UTF-8 strings, stored as one opaque blob per fact.
//!
//! # Layout
//!
//! ```text
//! [count: u32 LE]
//! repeated count times, keys STRICTLY ascending (raw UTF-8 bytes), no dups:
//!   [klen: u32 LE][key bytes UTF-8]
//!   [vlen: u32 LE][val bytes UTF-8]
//! ```
//!
//! # One canonical order
//!
//! Order is decided in exactly one place: [`encode`] sorts the keys ascending
//! and rejects duplicates. Every reader walks the blob in stored order, so the
//! pairs come back in that same ascending order at every layer.

use crate::codec;
use crate::codec::{get_u32, put_slice, put_u32};
use crate::error::Error;
use crate::parse;
use crate::text;
use crate::text::{str_before, str_eq, str_from_utf8};
use vstd::prelude::*;
use vstd::string::*;
use vstd::utf8::*;

verus! {

/// A key and its value.
pub type Pair = (Seq<char>, Seq<char>);

pub open spec fn pair_views(xs: Seq<(&str, &str)>) -> Seq<Pair> {
    xs.map_values(|x: (&str, &str)| (x.0@, x.1@))
}

/// A length-prefixed string.
pub open spec fn enc_str(s: Seq<char>) -> Seq<u8> {
    codec::le32(encode_utf8(s).len() as u32) + encode_utf8(s)
}

pub open spec fn enc_pair(p: Pair) -> Seq<u8> {
    enc_str(p.0) + enc_str(p.1)
}

/// The blob that holds `xs` in the given order.
pub open spec fn blob_of(xs: Seq<Pair>) -> Seq<u8> {
    codec::le32(xs.len() as u32) + parse::flat(|p: Pair| enc_pair(p), xs)
}

/// Keys strictly ascending.
pub open spec fn ascending(xs: Seq<Pair>) -> bool {
    forall|i: int, j: int|
        0 <= i < j < xs.len() ==> text::str_lt((#[trigger] xs[i]).0, (#[trigger] xs[j]).0)
}

/// Two pairs share a key.
pub open spec fn has_duplicate(xs: Seq<Pair>) -> bool {
    exists|i: int, j: int|
        0 <= i < j < xs.len() && (#[trigger] xs[i]).0 == (#[trigger] xs[j]).0
}

/// `p` put at its place among the ascending `xs`.
pub open spec fn placed(xs: Seq<Pair>, p: Pair) -> Seq<Pair>
    decreases xs.len(),
{
    if xs.len() == 0 || text::str_lt(xs.last().0, p.0) {
        xs.push(p)
    } else {
        placed(xs.drop_last(), p).push(xs.last())
    }
}

/// `xs` in the canonical order.
pub open spec fn sorted(xs: Seq<Pair>) -> Seq<Pair>
    decreases xs.len(),
{
    if xs.len() == 0 {
        xs
    } else {
        placed(sorted(xs.drop_last()), xs.last())
    }
}

proof fn lemma_placed(xs: Seq<Pair>, p: Pair, at: int)
    requires
        0 <= at <= xs.len(),
        forall|i: int| at <= i < xs.len() ==> !text::str_lt((#[trigger] xs[i]).0, p.0),
        at > 0 ==> text::str_lt(xs[at - 1].0, p.0),
    ensures
        placed(xs, p) == xs.insert(at, p),
    decreases xs.len(),
{
    if xs.len() == at {
        assert(xs.push(p) =~= xs.insert(at, p));
    } else {
        assert(!text::str_lt(xs[xs.len() - 1].0, p.0));
        assert(xs.drop_last().len() == xs.len() - 1);
        lemma_placed(xs.drop_last(), p, at);
        assert(xs.drop_last().insert(at, p).push(xs.last()) =~= xs.insert(at, p));
    }
}

proof fn lemma_placed_multiset(xs: Seq<Pair>, p: Pair)
    ensures
        placed(xs, p).to_multiset() =~= xs.to_multiset().insert(p),
    decreases xs.len(),
{
    broadcast use vstd::seq_lib::group_to_multiset_ensures;

    if !(xs.len() == 0 || text::str_lt(xs.last().0, p.0)) {
        lemma_placed_multiset(xs.drop_last(), p);
        assert(xs =~= xs.drop_last().push(xs.last()));
        assert(xs.to_multiset() =~= xs.drop_last().to_multiset().insert(xs.last()));
    }
}

/// Sorting keeps every pair, with its multiplicity.
pub proof fn sorting_keeps_the_pairs(xs: Seq<Pair>)
    ensures
        sorted(xs).to_multiset() =~= xs.to_multiset(),
    decreases xs.len(),
{
    broadcast use vstd::seq_lib::group_to_multiset_ensures;

    if xs.len() > 0 {
        sorting_keeps_the_pairs(xs.drop_last());
        lemma_placed_multiset(sorted(xs.drop_last()), xs.last());
        assert(xs =~= xs.drop_last().push(xs.last()));
    }
}

proof fn lemma_placed_ascending(xs: Seq<Pair>, p: Pair)
    requires
        ascending(xs),
        forall|i: int| 0 <= i < xs.len() ==> (#[trigger] xs[i]).0 != p.0,
    ensures
        ascending(placed(xs, p)),
        placed(xs, p).len() == xs.len() + 1,
        forall|i: int|
            0 <= i < placed(xs, p).len() ==> (#[trigger] placed(xs, p)[i]) == p || exists|k: int|
                0 <= k < xs.len() && xs[k] == placed(xs, p)[i],
    decreases xs.len(),
{
    let out = placed(xs, p);
    if xs.len() == 0 || text::str_lt(xs.last().0, p.0) {
        assert forall|i: int, j: int| 0 <= i < j < out.len() implies text::str_lt(
            (#[trigger] out[i]).0,
            (#[trigger] out[j]).0,
        ) by {
            if j == xs.len() && i < xs.len() - 1 {
                text::lemma_str_transitive(xs[i].0, xs.last().0, p.0);
            }
        }
        assert forall|i: int| 0 <= i < out.len() implies (#[trigger] out[i]) == p || exists|k: int|
            0 <= k < xs.len() && xs[k] == out[i] by {
            if i < xs.len() {
                assert(xs[i] == out[i]);
            }
        }
    } else {
        let init = xs.drop_last();
        assert forall|i: int| 0 <= i < init.len() implies (#[trigger] init[i]).0 != p.0 by {
            assert(init[i] == xs[i]);
        }
        assert forall|i: int, j: int| 0 <= i < j < init.len() implies text::str_lt(
            (#[trigger] init[i]).0,
            (#[trigger] init[j]).0,
        ) by {
            assert(init[i] == xs[i] && init[j] == xs[j]);
        }
        lemma_placed_ascending(init, p);
        let front = placed(init, p);
        text::lemma_str_total(xs.last().0, p.0);
        assert(xs[xs.len() - 1].0 != p.0);
        assert forall|i: int, j: int| 0 <= i < j < out.len() implies text::str_lt(
            (#[trigger] out[i]).0,
            (#[trigger] out[j]).0,
        ) by {
            assert(out[i] == front[i]);
            if j < front.len() {
                assert(out[j] == front[j]);
            } else if front[i] != p {
                let k = choose|k: int| 0 <= k < init.len() && init[k] == front[i];
                assert(xs[k] == front[i]);
            }
        }
        assert forall|i: int| 0 <= i < out.len() implies (#[trigger] out[i]) == p || exists|k: int|
            0 <= k < xs.len() && xs[k] == out[i] by {
            if i < front.len() {
                assert(out[i] == front[i]);
                if front[i] != p {
                    let k = choose|k: int| 0 <= k < init.len() && init[k] == front[i];
                    assert(xs[k] == out[i]);
                }
            } else {
                assert(xs[xs.len() - 1] == out[i]);
            }
        }
    }
}

proof fn lemma_sorted_from(xs: Seq<Pair>)
    requires
        !has_duplicate(xs),
    ensures
        ascending(sorted(xs)),
        sorted(xs).len() == xs.len(),
        forall|i: int|
            0 <= i < sorted(xs).len() ==> exists|k: int|
                0 <= k < xs.len() && xs[k] == #[trigger] sorted(xs)[i],
    decreases xs.len(),
{
    if xs.len() > 0 {
        let init = xs.drop_last();
        let p = xs.last();
        if has_duplicate(init) {
            let (i, j) = choose|i: int, j: int|
                0 <= i < j < init.len() && (#[trigger] init[i]).0 == (#[trigger] init[j]).0;
            assert(xs[i].0 == xs[j].0);
        }
        lemma_sorted_from(init);
        let front = sorted(init);
        assert forall|i: int| 0 <= i < front.len() implies (#[trigger] front[i]).0 != p.0 by {
            let k = choose|k: int| 0 <= k < init.len() && init[k] == front[i];
            assert(xs[k] == front[i]);
            assert(xs[k].0 != xs[xs.len() - 1].0);
        }
        lemma_placed_ascending(front, p);
        let out = sorted(xs);
        assert forall|i: int| 0 <= i < out.len() implies exists|k: int|
            0 <= k < xs.len() && xs[k] == #[trigger] out[i] by {
            if out[i] == p {
                assert(xs[xs.len() - 1] == out[i]);
            } else {
                let k = choose|k: int| 0 <= k < front.len() && front[k] == out[i];
                let m = choose|m: int| 0 <= m < init.len() && init[m] == front[k];
                assert(xs[m] == out[i]);
            }
        }
    }
}

/// Pairs with distinct keys sort into strictly ascending order.
pub proof fn sorting_is_ascending(xs: Seq<Pair>)
    requires
        !has_duplicate(xs),
    ensures
        ascending(sorted(xs)),
        sorted(xs).len() == xs.len(),
{
    lemma_sorted_from(xs);
}

fn put_str(out: &mut Vec<u8>, s: &str)
    ensures
        final(out)@ == old(out)@ + enc_str(s@),
{
    let bytes = s.as_bytes();
    put_u32(out, bytes.len() as u32);
    put_slice(out, bytes);
    assert(out@ =~= old(out)@ + enc_str(s@));
}

/// The place of a new key among ascending ones, or `None` when it is taken.
fn place_of(xs: &Vec<(&str, &str)>, key: &str) -> (r: Option<usize>)
    requires
        ascending(pair_views(xs@)),
    ensures
        match r {
            Some(at) => at <= xs@.len() && (forall|i: int|
                at <= i < xs@.len() ==> !text::str_lt((#[trigger] pair_views(xs@)[i]).0, key@))
                && (at > 0 ==> text::str_lt(pair_views(xs@)[at - 1].0, key@)) && (forall|i: int|
                0 <= i < xs@.len() ==> (#[trigger] pair_views(xs@)[i]).0 != key@),
            None => exists|i: int|
                0 <= i < xs@.len() && (#[trigger] pair_views(xs@)[i]).0 == key@,
        },
{
    let mut at: usize = xs.len();
    let ghost views = pair_views(xs@);
    while at > 0
        invariant
            at <= xs@.len(),
            views == pair_views(xs@),
            ascending(views),
            forall|i: int|
                at <= i < xs@.len() ==> !text::str_lt((#[trigger] views[i]).0, key@) && views[i].0
                    != key@,
        ensures
            at <= xs@.len(),
            forall|i: int|
                at <= i < xs@.len() ==> !text::str_lt((#[trigger] views[i]).0, key@) && views[i].0
                    != key@,
            at > 0 ==> text::str_lt(views[at - 1].0, key@),
        decreases at,
    {
        let k = xs[at - 1].0;
        assert(views[at - 1].0 == k@);
        if str_eq(k, key) {
            return None;
        }
        if str_before(k, key) {
            break;
        }
        at = at - 1;
    }
    proof {
        assert forall|i: int| 0 <= i < xs@.len() implies (#[trigger] views[i]).0 != key@ by {
            if i < at {
                if i < at - 1 {
                    text::lemma_str_transitive(views[i].0, views[at - 1].0, key@);
                }
                text::lemma_str_total(views[i].0, key@);
            }
        }
    }
    Some(at)
}

/// Encodes key-value `pairs` into one canonical metadata blob: keys sorted
/// ascending (raw UTF-8 bytes), duplicates rejected. Callers pass pairs in any
/// order; this is the single place order is fixed.
pub fn encode(pairs: &[(&str, &str)]) -> (r: Result<Vec<u8>, Error>)
    ensures
        match r {
            Ok(out) => !has_duplicate(pair_views(pairs@)) && out@ == blob_of(
                sorted(pair_views(pairs@)),
            ),
            Err(e) => has_duplicate(pair_views(pairs@)) && e == Error::Invalid(
                "duplicate metadata key",
            ),
        },
{
    let ghost all = pair_views(pairs@);
    let mut order: Vec<(&str, &str)> = Vec::new();
    let mut i: usize = 0;
    assert(pair_views(order@) =~= Seq::empty());
    assert(all.take(0) =~= Seq::empty());
    while i < pairs.len()
        invariant
            i <= pairs@.len(),
            all == pair_views(pairs@),
            pair_views(order@) == sorted(all.take(i as int)),
            !has_duplicate(all.take(i as int)),
            order@.len() == i,
        decreases pairs@.len() - i,
    {
        let (k, v) = pairs[i];
        let ghost seen = all.take(i as int);
        let ghost next = all.take(i + 1);
        proof {
            assert(next =~= seen.push((k@, v@)));
            assert(next.drop_last() =~= seen);
            lemma_sorted_from(seen);
        }
        match place_of(&order, k) {
            None => {
                proof {
                    let views = pair_views(order@);
                    let x = choose|x: int| 0 <= x < views.len() && (#[trigger] views[x]).0 == k@;
                    let m = choose|m: int| 0 <= m < seen.len() && seen[m] == sorted(seen)[x];
                    assert(all[m].0 == all[i as int].0);
                }
                return Err(Error::Invalid("duplicate metadata key"));
            },
            Some(at) => {
                let ghost before = pair_views(order@);
                order.insert(at, (k, v));
                proof {
                    assert(pair_views(order@) =~= before.insert(at as int, (k@, v@)));
                    lemma_placed(before, (k@, v@), at as int);
                    if has_duplicate(next) {
                        let (a, b) = choose|a: int, b: int|
                            0 <= a < b < next.len() && (#[trigger] next[a]).0
                                == (#[trigger] next[b]).0;
                        if b < i {
                            assert(seen[a].0 == seen[b].0);
                        } else {
                            assert(seen[a].0 == k@);
                            sorting_keeps_the_pairs(seen);
                            lemma_multiset_member(seen, sorted(seen), a);
                        }
                    }
                }
            },
        }
        i = i + 1;
    }
    assert(all.take(i as int) =~= all);
    let mut out: Vec<u8> = Vec::new();
    put_u32(&mut out, order.len() as u32);
    let ghost head = out@;
    let ghost enc = |p: Pair| enc_pair(p);
    let ghost views = pair_views(order@);
    let mut j: usize = 0;
    assert(out@ + Seq::<u8>::empty() =~= out@);
    assert(views.take(0) =~= Seq::empty());
    while j < order.len()
        invariant
            j <= order@.len(),
            views == pair_views(order@),
            enc == (|p: Pair| enc_pair(p)),
            out@ == head + parse::flat(enc, views.take(j as int)),
        decreases order@.len() - j,
    {
        let (k, v) = order[j];
        put_str(&mut out, k);
        put_str(&mut out, v);
        proof {
            assert(views.take(j + 1) =~= views.take(j as int).push(views[j as int]));
            parse::lemma_flat_push(enc, views.take(j as int), views[j as int]);
            assert(out@ =~= head + parse::flat(enc, views.take(j + 1)));
        }
        j = j + 1;
    }
    assert(views.take(j as int) =~= views);
    assert(out@ =~= blob_of(views));
    Ok(out)
}

proof fn lemma_multiset_member(xs: Seq<Pair>, ys: Seq<Pair>, a: int)
    requires
        ys.to_multiset() =~= xs.to_multiset(),
        0 <= a < xs.len(),
    ensures
        exists|b: int| 0 <= b < ys.len() && ys[b] == xs[a],
{
    broadcast use vstd::seq_lib::group_to_multiset_ensures;

    assert(xs.contains(xs[a]));
    assert(ys.to_multiset().count(xs[a]) > 0);
    assert(ys.contains(xs[a]));
}

/// Reads a `u32`.
pub open spec fn rd_u32(b: Seq<u8>, at: int) -> Result<(u32, int), Error> {
    if at + 4 > b.len() {
        Err(Error::Corrupt("metadata blob truncated inside a field"))
    } else {
        Ok((codec::num_at(b, at, 4) as u32, at + 4))
    }
}

/// Reads a length-prefixed string.
pub open spec fn rd_str(b: Seq<u8>, at: int) -> Result<(Seq<char>, int), Error> {
    match rd_u32(b, at) {
        Err(e) => Err(e),
        Ok((len, p)) => if p + len > b.len() {
            Err(Error::Corrupt("metadata string overruns its blob"))
        } else if !valid_utf8(b.subrange(p, p + len)) {
            Err(Error::Corrupt("metadata string is not UTF-8"))
        } else {
            Ok((decode_utf8(b.subrange(p, p + len)), p + len))
        },
    }
}

/// Reads a key and its value.
pub open spec fn rd_pair(b: Seq<u8>, at: int) -> Result<(Pair, int), Error> {
    match rd_str(b, at) {
        Err(e) => Err(e),
        Ok((k, p)) => match rd_str(b, p) {
            Err(e) => Err(e),
            Ok((v, q)) => Ok(((k, v), q)),
        },
    }
}

/// The pairs that `n` steps from `at` read, and where they end or why they
/// stop.
pub open spec fn walk(b: Seq<u8>, at: int, n: nat) -> (Seq<Pair>, Result<int, Error>)
    decreases n,
{
    if n == 0 {
        (Seq::empty(), Ok(at))
    } else {
        match walk(b, at, (n - 1) as nat) {
            (xs, Err(e)) => (xs, Err(e)),
            (xs, Ok(p)) => match rd_pair(b, p) {
                Err(e) => (xs, Err(e)),
                Ok((x, q)) => if xs.len() > 0 && !text::str_lt(xs.last().0, x.0) {
                    (xs, Err(Error::Corrupt("metadata keys are not strictly ascending")))
                } else {
                    (xs.push(x), Ok(q))
                },
            },
        }
    }
}

/// What a blob holds: the pairs read from it, and whether all of it is a
/// canonical metadata image.
pub open spec fn decoded(b: Seq<u8>) -> (Seq<Pair>, Result<(), Error>) {
    match rd_u32(b, 0) {
        Err(e) => (Seq::empty(), Err(e)),
        Ok((n, p)) => match walk(b, p, n as nat) {
            (xs, Err(e)) => (xs, Err(e)),
            (xs, Ok(end)) => if end != b.len() {
                (xs, Err(Error::Corrupt("metadata blob has trailing bytes")))
            } else {
                (xs, Ok(()))
            },
        },
    }
}

proof fn lemma_walk_err(b: Seq<u8>, at: int, k: nat, n: nat)
    requires
        k <= n,
        walk(b, at, k).1 is Err,
    ensures
        walk(b, at, n) == walk(b, at, k),
    decreases n,
{
    if k < n {
        lemma_walk_err(b, at, k, (n - 1) as nat);
    }
}

fn take_u32(bytes: &[u8], at: usize) -> (r: Result<(u32, usize), Error>)
    requires
        at <= bytes@.len(),
    ensures
        match r {
            Ok((v, p)) => rd_u32(bytes@, at as int) == Ok::<_, Error>((v, p as int)) && p
                <= bytes@.len(),
            Err(e) => rd_u32(bytes@, at as int) == Err::<(u32, int), _>(e),
        },
{
    if bytes.len() - at < 4 {
        return Err(Error::Corrupt("metadata blob truncated inside a field"));
    }
    Ok((get_u32(bytes, at), at + 4))
}

fn take_str<'a>(bytes: &'a [u8], at: usize) -> (r: Result<(&'a str, usize), Error>)
    requires
        at <= bytes@.len(),
    ensures
        parse::agrees_at(r, rd_str(bytes@, at as int)),
        r matches Ok((v, p)) ==> p <= bytes@.len(),
{
    let (len, p) = take_u32(bytes, at)?;
    if len as u64 > (bytes.len() - p) as u64 {
        return Err(Error::Corrupt("metadata string overruns its blob"));
    }
    let end: usize = p + len as usize;
    let piece: &'a [u8] = &bytes[p..end];
    assert(piece@ =~= bytes@.subrange(p as int, end as int));
    match str_from_utf8(piece) {
        None => Err(Error::Corrupt("metadata string is not UTF-8")),
        Some(s) => Ok((s, end)),
    }
}

fn take_pair<'a>(bytes: &'a [u8], at: usize) -> (r: Result<(&'a str, &'a str, usize), Error>)
    requires
        at <= bytes@.len(),
    ensures
        match r {
            Ok((k, v, p)) => rd_pair(bytes@, at as int) == Ok::<_, Error>(((k@, v@), p as int))
                && p <= bytes@.len(),
            Err(e) => rd_pair(bytes@, at as int) == Err::<(Pair, int), _>(e),
        },
{
    let (k, p) = take_str(bytes, at)?;
    let (v, q) = take_str(bytes, p)?;
    Ok((k, v, q))
}

/// Decodes a metadata blob into `out` (cleared first), validating the whole
/// image: bounds, UTF-8, strictly ascending unique keys, and no trailing
/// bytes. The pairs borrow `bytes`, so they come back in stored (ascending)
/// order.
///
/// Untrusted input: a malformed blob is [`Error::Corrupt`], and `out` then
/// holds the pairs in front of the fault.
pub fn decode<'a>(bytes: &'a [u8], out: &mut Vec<(&'a str, &'a str)>) -> (r: Result<(), Error>)
    ensures
        r == decoded(bytes@).1,
        pair_views(final(out)@) == decoded(bytes@).0,
{
    out.clear();
    assert(pair_views(out@) =~= Seq::empty());
    let (count, start) = take_u32(bytes, 0)?;
    let mut at: usize = start;
    let mut i: u32 = 0;
    while i < count
        invariant
            i <= count,
            at <= bytes@.len(),
            rd_u32(bytes@, 0) == Ok::<_, Error>((count, start as int)),
            walk(bytes@, start as int, i as nat) == (
                pair_views(out@),
                Ok::<int, Error>(at as int),
            ),
            out@.len() == i,
        decreases count - i,
    {
        let ghost before = pair_views(out@);
        let ghost w = walk(bytes@, start as int, (i + 1) as nat);
        let (k, v, next) = match take_pair(bytes, at) {
            Ok(x) => x,
            Err(e) => {
                proof {
                    assert(w == (before, Err::<int, Error>(e)));
                    lemma_walk_err(bytes@, start as int, (i + 1) as nat, count as nat);
                }
                return Err(e);
            },
        };
        if out.len() > 0 {
            let last = out[out.len() - 1].0;
            assert(before.last().0 == last@);
            if !str_before(last, k) {
                proof {
                    lemma_walk_err(bytes@, start as int, (i + 1) as nat, count as nat);
                }
                return Err(Error::Corrupt("metadata keys are not strictly ascending"));
            }
        }
        out.push((k, v));
        assert(pair_views(out@) =~= before.push((k@, v@)));
        at = next;
        i = i + 1;
    }
    if at != bytes.len() {
        return Err(Error::Corrupt("metadata blob has trailing bytes"));
    }
    Ok(())
}

/// Every length and the count fit their fields.
pub open spec fn pairs_fit(xs: Seq<Pair>) -> bool {
    &&& xs.len() <= u32::MAX
    &&& forall|i: int|
        0 <= i < xs.len() ==> encode_utf8((#[trigger] xs[i]).0).len() <= u32::MAX && encode_utf8(
            xs[i].1,
        ).len() <= u32::MAX
}

proof fn lemma_str_at(b: Seq<u8>, at: int, s: Seq<char>)
    requires
        encode_utf8(s).len() <= u32::MAX,
        codec::has_at(b, at, enc_str(s)),
    ensures
        rd_str(b, at) == Ok::<_, Error>((s, at + enc_str(s).len())),
{
    let bytes = encode_utf8(s);
    codec::lemma_has_split(b, at, codec::le32(bytes.len() as u32), bytes);
    codec::lemma_pow256();
    codec::lemma_num_at(b, at, bytes.len() as u32 as nat, 4);
    encode_utf8_valid_utf8(s);
    encode_utf8_decode_utf8(s);
    reveal(codec::has_at);
}

proof fn lemma_walk(b: Seq<u8>, at: int, xs: Seq<Pair>)
    requires
        ascending(xs),
        pairs_fit(xs),
        codec::has_at(b, at, parse::flat(|p: Pair| enc_pair(p), xs)),
    ensures
        walk(b, at, xs.len()) == (
            xs,
            Ok::<int, Error>(at + parse::flat(|p: Pair| enc_pair(p), xs).len()),
        ),
    decreases xs.len(),
{
    let enc = |p: Pair| enc_pair(p);
    if xs.len() > 0 {
        let init = xs.drop_last();
        let x = xs.last();
        codec::lemma_has_split(b, at, parse::flat(enc, init), enc_pair(x));
        assert forall|i: int| 0 <= i < init.len() implies encode_utf8((#[trigger] init[i]).0).len()
            <= u32::MAX && encode_utf8(init[i].1).len() <= u32::MAX by {
            assert(init[i] == xs[i]);
        }
        assert forall|i: int, j: int| 0 <= i < j < init.len() implies text::str_lt(
            (#[trigger] init[i]).0,
            (#[trigger] init[j]).0,
        ) by {
            assert(init[i] == xs[i] && init[j] == xs[j]);
        }
        lemma_walk(b, at, init);
        let p = at + parse::flat(enc, init).len();
        assert(xs[xs.len() - 1] == x);
        codec::lemma_has_split(b, p, enc_str(x.0), enc_str(x.1));
        lemma_str_at(b, p, x.0);
        lemma_str_at(b, p + enc_str(x.0).len(), x.1);
        if init.len() > 0 {
            assert(text::str_lt(xs[xs.len() - 2].0, xs[xs.len() - 1].0));
        }
        assert(init.push(x) =~= xs);
    } else {
        assert(xs =~= Seq::empty());
    }
}

/// Pairs read back from the front of a blob that starts with their encoding;
/// bytes behind it are refused.
proof fn lemma_blob_at(b: Seq<u8>, xs: Seq<Pair>)
    requires
        ascending(xs),
        pairs_fit(xs),
        codec::has_at(b, 0, blob_of(xs)),
    ensures
        decoded(b) == (
            xs,
            if b.len() == blob_of(xs).len() {
                Ok::<(), Error>(())
            } else {
                Err(Error::Corrupt("metadata blob has trailing bytes"))
            },
        ),
{
    let body = parse::flat(|p: Pair| enc_pair(p), xs);
    codec::lemma_has_split(b, 0, codec::le32(xs.len() as u32), body);
    codec::lemma_pow256();
    codec::lemma_num_at(b, 0, xs.len() as u32 as nat, 4);
    lemma_walk(b, 4, xs);
    reveal(codec::has_at);
}

/// A blob of ascending pairs reads back as those pairs.
pub proof fn blob_round_trip(xs: Seq<Pair>)
    requires
        ascending(xs),
        pairs_fit(xs),
    ensures
        decoded(blob_of(xs)) == (xs, Ok::<(), Error>(())),
{
    let b = blob_of(xs);
    assert(codec::has_at(b, 0, b)) by {
        reveal(codec::has_at);
        assert(b.subrange(0, b.len() as int) =~= b);
    }
    lemma_blob_at(b, xs);
}

/// Whatever order the pairs are given in, they come back sorted by key.
pub proof fn metadata_round_trip(xs: Seq<Pair>)
    requires
        !has_duplicate(xs),
        pairs_fit(xs),
    ensures
        decoded(blob_of(sorted(xs))) == (sorted(xs), Ok::<(), Error>(())),
{
    lemma_sorted_from(xs);
    let ys = sorted(xs);
    assert forall|i: int| 0 <= i < ys.len() implies encode_utf8((#[trigger] ys[i]).0).len()
        <= u32::MAX && encode_utf8(ys[i].1).len() <= u32::MAX by {
        let k = choose|k: int| 0 <= k < xs.len() && xs[k] == ys[i];
        assert(encode_utf8(xs[k].0).len() <= u32::MAX);
    }
    blob_round_trip(ys);
}

/// Only canonical blobs are accepted: keys strictly ascending.
pub proof fn accepted_blobs_are_ascending(b: Seq<u8>)
    requires
        decoded(b).1 is Ok,
    ensures
        ascending(decoded(b).0),
{
    let (n, p) = rd_u32(b, 0)->Ok_0;
    lemma_walk_ascending(b, p, n as nat);
}

proof fn lemma_walk_ascending(b: Seq<u8>, at: int, n: nat)
    ensures
        ascending(walk(b, at, n).0),
    decreases n,
{
    if n > 0 {
        lemma_walk_ascending(b, at, (n - 1) as nat);
        let (xs, r) = walk(b, at, (n - 1) as nat);
        let out = walk(b, at, n).0;
        assert forall|i: int, j: int| 0 <= i < j < out.len() implies text::str_lt(
            (#[trigger] out[i]).0,
            (#[trigger] out[j]).0,
        ) by {
            if j < xs.len() {
                assert(out[i] == xs[i] && out[j] == xs[j]);
            } else if i < xs.len() - 1 {
                assert(text::str_lt(xs[i].0, xs[xs.len() - 1].0));
                text::lemma_str_transitive(xs[i].0, xs.last().0, out[j].0);
            }
        }
    }
}

proof fn lemma_str_back(b: Seq<u8>, at: int)
    requires
        0 <= at,
        rd_str(b, at) is Ok,
    ensures
        codec::has_at(b, at, enc_str(rd_str(b, at)->Ok_0.0)),
        rd_str(b, at)->Ok_0.1 == at + enc_str(rd_str(b, at)->Ok_0.0).len(),
        encode_utf8(rd_str(b, at)->Ok_0.0).len() <= u32::MAX,
{
    codec::lemma_pow256();
    codec::lemma_le_nat_bound(b.subrange(at, at + 4));
    let len = rd_u32(b, at)->Ok_0.0;
    let piece = b.subrange(at + 4, at + 4 + len);
    decode_utf8_encode_utf8(piece);
    assert(codec::has_at(b, at, codec::le32(len)) && codec::has_at(b, at + 4, piece)) by {
        reveal(codec::has_at);
    }
    codec::lemma_le_bytes_len(len as nat, 4);
    codec::lemma_has_split(b, at, codec::le32(len), piece);
}

proof fn lemma_walk_back(b: Seq<u8>, at: int, n: nat)
    requires
        0 <= at <= b.len(),
        walk(b, at, n).1 is Ok,
        n <= u32::MAX,
    ensures
        codec::has_at(b, at, parse::flat(|p: Pair| enc_pair(p), walk(b, at, n).0)),
        walk(b, at, n).1->Ok_0 == at + parse::flat(|p: Pair| enc_pair(p), walk(b, at, n).0).len(),
        walk(b, at, n).0.len() == n,
        pairs_fit(walk(b, at, n).0),
    decreases n,
{
    let enc = |p: Pair| enc_pair(p);
    if n == 0 {
        reveal(codec::has_at);
        assert(b.subrange(at, at) =~= Seq::<u8>::empty());
    } else {
        lemma_walk_back(b, at, (n - 1) as nat);
        let xs = walk(b, at, (n - 1) as nat).0;
        let p = walk(b, at, (n - 1) as nat).1->Ok_0;
        let x = rd_pair(b, p)->Ok_0.0;
        lemma_str_back(b, p);
        lemma_str_back(b, rd_str(b, p)->Ok_0.1);
        codec::lemma_has_split(b, p, enc_str(x.0), enc_str(x.1));
        parse::lemma_flat_push(enc, xs, x);
        codec::lemma_has_split(b, at, parse::flat(enc, xs), enc_pair(x));
        assert forall|i: int| 0 <= i < n implies encode_utf8((#[trigger] xs.push(x)[i]).0).len()
            <= u32::MAX && encode_utf8(xs.push(x)[i].1).len() <= u32::MAX by {
            if i < n - 1 {
                assert(encode_utf8(xs[i].0).len() <= u32::MAX);
            }
        }
    }
}

/// An accepted blob is what its pairs encode to.
pub proof fn an_accepted_blob_is_canonical(b: Seq<u8>)
    requires
        decoded(b).1 is Ok,
    ensures
        pairs_fit(decoded(b).0),
        blob_of(decoded(b).0) == b,
{
    let (n, p) = rd_u32(b, 0)->Ok_0;
    let xs = decoded(b).0;
    let body = parse::flat(|p: Pair| enc_pair(p), xs);
    codec::lemma_pow256();
    codec::lemma_le_nat_bound(b.subrange(0, 4));
    codec::lemma_le_bytes_len(n as nat, 4);
    lemma_walk_back(b, 4, n as nat);
    reveal(codec::has_at);
    codec::lemma_has_split(b, 0, codec::le32(n), body);
    assert(b.subrange(0, b.len() as int) =~= b);
}

/// Bytes behind an accepted blob are refused.
pub proof fn a_longer_blob_is_refused(b: Seq<u8>, more: Seq<u8>)
    requires
        decoded(b).1 is Ok,
        more.len() > 0,
    ensures
        decoded(b + more).1 matches Err(Error::Corrupt(_)),
{
    an_accepted_blob_is_canonical(b);
    accepted_blobs_are_ascending(b);
    assert(codec::has_at(b + more, 0, b)) by {
        reveal(codec::has_at);
        assert((b + more).subrange(0, b.len() as int) =~= b);
    }
    lemma_blob_at(b + more, decoded(b).0);
}

/// The front of an accepted blob is refused.
pub proof fn a_shorter_blob_is_refused(b: Seq<u8>, n: int)
    requires
        decoded(b).1 is Ok,
        0 <= n < b.len(),
    ensures
        decoded(b.take(n)).1 matches Err(Error::Corrupt(_)),
{
    let front = b.take(n);
    assert(front + b.skip(n) =~= b);
    if decoded(front).1 is Ok {
        a_longer_blob_is_refused(front, b.skip(n));
    }
    if rd_u32(front, 0) is Ok {
        lemma_walk_corrupt(front, 4, rd_u32(front, 0)->Ok_0.0 as nat);
    }
}

proof fn lemma_walk_corrupt(b: Seq<u8>, at: int, n: nat)
    ensures
        walk(b, at, n).1 is Err ==> walk(b, at, n).1->Err_0 is Corrupt,
    decreases n,
{
    if n > 0 {
        lemma_walk_corrupt(b, at, (n - 1) as nat);
    }
}

/// Pairs in ascending order are determined by which pairs they are.
proof fn lemma_ascending_unique(xs: Seq<Pair>, ys: Seq<Pair>)
    requires
        ascending(xs),
        ascending(ys),
        xs.to_multiset() =~= ys.to_multiset(),
    ensures
        xs == ys,
    decreases xs.len(),
{
    broadcast use vstd::seq_lib::group_to_multiset_ensures;

    assert(xs.to_multiset() == ys.to_multiset());
    assert(xs.to_multiset().len() == xs.len());
    assert(ys.to_multiset().len() == ys.len());
    if xs.len() > 0 {
        let n = xs.len() - 1;
        lemma_multiset_member(xs, ys, n);
        lemma_multiset_member(ys, xs, n);
        let k = choose|k: int| 0 <= k < ys.len() && ys[k] == xs[n];
        let j = choose|j: int| 0 <= j < xs.len() && xs[j] == ys[n];
        if k < n && j < n {
            assert(text::str_lt(ys[k].0, ys[n].0));
            assert(text::str_lt(xs[j].0, xs[n].0));
            text::lemma_str_transitive(xs[n].0, ys[n].0, xs[n].0);
            text::lemma_str_total(xs[n].0, xs[n].0);
        }
        assert(xs.last() == ys.last());
        assert(xs =~= xs.drop_last().push(xs.last()));
        assert(ys =~= ys.drop_last().push(ys.last()));
        assert(xs.to_multiset() =~= xs.drop_last().to_multiset().insert(xs.last()));
        assert(ys.to_multiset() =~= ys.drop_last().to_multiset().insert(ys.last()));
        assert(xs.drop_last().to_multiset() =~= xs.to_multiset().remove(xs.last()));
        assert(ys.drop_last().to_multiset() =~= ys.to_multiset().remove(ys.last()));
        let a = xs.drop_last();
        let b = ys.drop_last();
        assert forall|i: int, j: int| 0 <= i < j < a.len() implies text::str_lt(
            (#[trigger] a[i]).0,
            (#[trigger] a[j]).0,
        ) by {
            assert(a[i] == xs[i] && a[j] == xs[j]);
        }
        assert forall|i: int, j: int| 0 <= i < j < b.len() implies text::str_lt(
            (#[trigger] b[i]).0,
            (#[trigger] b[j]).0,
        ) by {
            assert(b[i] == ys[i] && b[j] == ys[j]);
        }
        lemma_ascending_unique(a, b);
    } else {
        assert(xs =~= ys);
    }
}

proof fn lemma_duplicate_kept(xs: Seq<Pair>, ys: Seq<Pair>)
    requires
        xs.to_multiset() =~= ys.to_multiset(),
        has_duplicate(xs),
    ensures
        has_duplicate(ys),
{
    broadcast use vstd::seq_lib::group_to_multiset_ensures;

    let (i, j) = choose|i: int, j: int|
        0 <= i < j < xs.len() && (#[trigger] xs[i]).0 == (#[trigger] xs[j]).0;
    let p = xs[i];
    let q = xs[j];
    lemma_multiset_member(xs, ys, i);
    let a = choose|a: int| 0 <= a < ys.len() && ys[a] == xs[i];
    let rest = xs.remove(i);
    assert(rest[j - 1] == q);
    assert(rest.to_multiset() =~= xs.to_multiset().remove(p));
    assert(ys.remove(a).to_multiset() =~= ys.to_multiset().remove(p));
    lemma_multiset_member(rest, ys.remove(a), j - 1);
    let c = choose|c: int| 0 <= c < ys.remove(a).len() && ys.remove(a)[c] == rest[j - 1];
    let d = if c < a { c } else { c + 1 };
    assert(ys[d] == q);
    if d < a {
        assert(ys[d].0 == ys[a].0);
    } else {
        assert(ys[a].0 == ys[d].0);
    }
}

/// The order in which pairs are given is lost: every permutation of them
/// encodes to the same bytes, or is refused alike for a key that comes twice.
pub proof fn the_order_of_pairs_is_lost(xs: Seq<Pair>, ys: Seq<Pair>)
    requires
        xs.to_multiset() == ys.to_multiset(),
    ensures
        has_duplicate(xs) == has_duplicate(ys),
        !has_duplicate(xs) ==> blob_of(sorted(xs)) == blob_of(sorted(ys)),
{
    if has_duplicate(xs) {
        lemma_duplicate_kept(xs, ys);
    } else if has_duplicate(ys) {
        lemma_duplicate_kept(ys, xs);
    } else {
        sorting_is_ascending(xs);
        sorting_is_ascending(ys);
        sorting_keeps_the_pairs(xs);
        sorting_keeps_the_pairs(ys);
        lemma_ascending_unique(sorted(xs), sorted(ys));
    }
}

} // verus!
