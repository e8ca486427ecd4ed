//! What it means to read a run of fields out of a byte string.
//!
//! A field reader maps an offset to a value and the offset behind it, or to
//! the error that stops the whole decode.

use crate::codec;
use crate::codec::{put_u32, put_u64};
use crate::error::Error;
use vstd::prelude::*;

verus! {

/// Reads `n` fields with `f`, one behind the other, from offset `at`.
pub open spec fn rd_list<T>(
    f: spec_fn(int) -> Result<(T, int), Error>,
    at: int,
    n: nat,
) -> Result<(Seq<T>, int), Error>
    decreases n,
{
    if n == 0 {
        Ok((Seq::<T>::empty(), at))
    } else {
        match rd_list(f, at, (n - 1) as nat) {
            Err(e) => Err(e),
            Ok((xs, p)) => match f(p) {
                Err(e) => Err(e),
                Ok((x, q)) => Ok((xs.push(x), q)),
            },
        }
    }
}

/// The encodings of `xs`, one behind the other.
pub open spec fn flat<T>(f: spec_fn(T) -> Seq<u8>, xs: Seq<T>) -> Seq<u8>
    decreases xs.len(),
{
    if xs.len() == 0 {
        Seq::<u8>::empty()
    } else {
        flat(f, xs.drop_last()) + f(xs.last())
    }
}

/// An error in the first `k` fields stops the whole list.
pub proof fn lemma_list_err<T>(
    f: spec_fn(int) -> Result<(T, int), Error>,
    at: int,
    k: nat,
    n: nat,
)
    requires
        k <= n,
        rd_list(f, at, k) is Err,
    ensures
        rd_list(f, at, n) == rd_list(f, at, k),
    decreases n,
{
    if k < n {
        lemma_list_err(f, at, k, (n - 1) as nat);
    }
}

/// A list reads back from where its encoding stands, if each item does.
pub proof fn lemma_list_round_trip<T>(
    b: Seq<u8>,
    at: int,
    xs: Seq<T>,
    enc: spec_fn(T) -> Seq<u8>,
    f: spec_fn(int) -> Result<(T, int), Error>,
)
    requires
        codec::has_at(b, at, flat(enc, xs)),
        forall|i: int, p: int|
            0 <= i < xs.len() && #[trigger] codec::has_at(b, p, enc(#[trigger] xs[i])) ==> f(p)
                == Ok::<(T, int), Error>((xs[i], p + enc(xs[i]).len())),
    ensures
        rd_list(f, at, xs.len()) == Ok::<(Seq<T>, int), Error>((xs, at + flat(enc, xs).len())),
    decreases xs.len(),
{
    if xs.len() > 0 {
        let init = xs.drop_last();
        codec::lemma_has_split(b, at, flat(enc, init), enc(xs.last()));
        assert forall|i: int, p: int|
            0 <= i < init.len() && #[trigger] codec::has_at(
                b,
                p,
                enc(#[trigger] init[i]),
            ) implies f(p) == Ok::<(T, int), Error>((init[i], p + enc(init[i]).len())) by {
            assert(init[i] == xs[i]);
        }
        lemma_list_round_trip(b, at, init, enc, f);
        let p = at + flat(enc, init).len();
        assert(codec::has_at(b, p, enc(xs[xs.len() - 1])));
        assert(init.push(xs.last()) =~= xs);
    } else {
        assert(xs =~= Seq::<T>::empty());
    }
}

/// A list that was read is the encoding of its items, if each item is.
pub proof fn lemma_list_back<T>(
    b: Seq<u8>,
    at: int,
    n: nat,
    enc: spec_fn(T) -> Seq<u8>,
    f: spec_fn(int) -> Result<(T, int), Error>,
)
    requires
        0 <= at <= b.len(),
        rd_list(f, at, n) is Ok,
        forall|p: int|
            0 <= p <= b.len() && (#[trigger] f(p)) is Ok ==> codec::has_at(
                b,
                p,
                enc(f(p)->Ok_0.0),
            ) && f(p)->Ok_0.1 == p + enc(f(p)->Ok_0.0).len(),
    ensures
        codec::has_at(b, at, flat(enc, rd_list(f, at, n)->Ok_0.0)),
        rd_list(f, at, n)->Ok_0.1 == at + flat(enc, rd_list(f, at, n)->Ok_0.0).len(),
        rd_list(f, at, n)->Ok_0.0.len() == n,
        forall|i: int|
            0 <= i < n ==> exists|p: int|
                0 <= p <= b.len() && (#[trigger] f(p)) is Ok && f(p)->Ok_0.0
                    == #[trigger] rd_list(f, at, n)->Ok_0.0[i],
    decreases n,
{
    reveal(codec::has_at);
    if n == 0 {
        assert(b.subrange(at, at) =~= Seq::<u8>::empty());
    } else {
        lemma_list_back(b, at, (n - 1) as nat, enc, f);
        let (xs, p) = rd_list(f, at, (n - 1) as nat)->Ok_0;
        let x = f(p)->Ok_0.0;
        lemma_flat_push(enc, xs, x);
        codec::lemma_has_split(b, at, flat(enc, xs), enc(x));
        assert forall|i: int| 0 <= i < n implies exists|q: int|
            0 <= q <= b.len() && (#[trigger] f(q)) is Ok && f(q)->Ok_0.0
                == #[trigger] xs.push(x)[i] by {
            if i < n - 1 {
                assert(xs.push(x)[i] == xs[i]);
            } else {
                assert(f(p) is Ok);
            }
        }
    }
}

/// One more item at the end of a list.
pub proof fn lemma_flat_push<T>(f: spec_fn(T) -> Seq<u8>, xs: Seq<T>, x: T)
    ensures
        flat(f, xs.push(x)) == flat(f, xs) + f(x),
{
    assert(xs.push(x).drop_last() =~= xs);
}

/// No item is longer than its list, and a list of items that take space is no
/// shorter than their number.
pub proof fn lemma_flat_bounds<T>(f: spec_fn(T) -> Seq<u8>, xs: Seq<T>)
    requires
        forall|i: int| 0 <= i < xs.len() ==> f(#[trigger] xs[i]).len() > 0,
    ensures
        forall|i: int| 0 <= i < xs.len() ==> f(#[trigger] xs[i]).len() <= flat(f, xs).len(),
        xs.len() <= flat(f, xs).len(),
    decreases xs.len(),
{
    if xs.len() > 0 {
        let init = xs.drop_last();
        assert forall|i: int| 0 <= i < init.len() implies f(#[trigger] init[i]).len() > 0 by {
            assert(init[i] == xs[i]);
        }
        lemma_flat_bounds(f, init);
        assert forall|i: int| 0 <= i < xs.len() implies f(#[trigger] xs[i]).len() <= flat(
            f,
            xs,
        ).len() by {
            if i < xs.len() - 1 {
                assert(init[i] == xs[i]);
            }
        }
        assert(f(xs[xs.len() - 1]).len() > 0);
    }
}

/// The encodings of two lists, one behind the other.
pub proof fn lemma_flat_concat<T>(f: spec_fn(T) -> Seq<u8>, xs: Seq<T>, ys: Seq<T>)
    ensures
        flat(f, xs + ys) == flat(f, xs) + flat(f, ys),
    decreases ys.len(),
{
    if ys.len() == 0 {
        assert(xs + ys =~= xs);
    } else {
        lemma_flat_concat(f, xs, ys.drop_last());
        assert((xs + ys).drop_last() =~= xs + ys.drop_last());
        assert(flat(f, xs + ys) =~= flat(f, xs) + flat(f, ys));
    }
}

/// What a decoder returned is what the model says, value or error.
pub open spec fn agrees<T: View>(got: Result<T, Error>, want: Result<T::V, Error>) -> bool {
    match got {
        Ok(v) => want == Ok::<T::V, Error>(v@),
        Err(e) => want == Err::<T::V, Error>(e),
    }
}

/// What a field reader returned is what the model says, value, offset or
/// error.
pub open spec fn agrees_at<T: View>(
    got: Result<(T, usize), Error>,
    want: Result<(T::V, int), Error>,
) -> bool {
    match got {
        Ok((v, end)) => want == Ok::<(T::V, int), Error>((v@, end as int)),
        Err(e) => want == Err::<(T::V, int), Error>(e),
    }
}

/// Appends each number of `xs`.
pub fn put_u64s(out: &mut Vec<u8>, xs: &Vec<u64>)
    ensures
        final(out)@ == old(out)@ + flat(|v: u64| codec::le64(v), xs@),
{
    let ghost enc = |v: u64| codec::le64(v);
    let mut i: usize = 0;
    assert(out@ + Seq::<u8>::empty() =~= out@);
    assert(xs@.take(0) =~= Seq::empty());
    while i < xs.len()
        invariant
            i <= xs@.len(),
            enc == (|v: u64| codec::le64(v)),
            out@ == old(out)@ + flat(enc, xs@.take(i as int)),
        decreases xs@.len() - i,
    {
        put_u64(out, xs[i]);
        proof {
            assert(xs@.take(i + 1) =~= xs@.take(i as int).push(xs@[i as int]));
            lemma_flat_push(enc, xs@.take(i as int), xs@[i as int]);
            assert(out@ =~= old(out)@ + flat(enc, xs@.take(i + 1)));
        }
        i = i + 1;
    }
    assert(xs@.take(i as int) =~= xs@);
}

/// Appends each number of `xs`.
pub fn put_u32s(out: &mut Vec<u8>, xs: &Vec<u32>)
    ensures
        final(out)@ == old(out)@ + flat(|v: u32| codec::le32(v), xs@),
{
    let ghost enc = |v: u32| codec::le32(v);
    let mut i: usize = 0;
    assert(out@ + Seq::<u8>::empty() =~= out@);
    assert(xs@.take(0) =~= Seq::empty());
    while i < xs.len()
        invariant
            i <= xs@.len(),
            enc == (|v: u32| codec::le32(v)),
            out@ == old(out)@ + flat(enc, xs@.take(i as int)),
        decreases xs@.len() - i,
    {
        put_u32(out, xs[i]);
        proof {
            assert(xs@.take(i + 1) =~= xs@.take(i as int).push(xs@[i as int]));
            lemma_flat_push(enc, xs@.take(i as int), xs@[i as int]);
            assert(out@ =~= old(out)@ + flat(enc, xs@.take(i + 1)));
        }
        i = i + 1;
    }
    assert(xs@.take(i as int) =~= xs@);
}

} // verus!
