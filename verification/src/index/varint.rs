//! LEB128 coding of posting-list numbers.
//!
//! Posting entries store fact-id *deltas*; lists are sorted by construction,
//! so deltas are small and most entries take one byte instead of four.

use vstd::prelude::*;

verus! {

/// Maximum encoded size of a `u32` (five groups of seven bits).
pub const MAX_VARINT: usize = 5;

/// The LEB128 encoding of `v`: seven bits per byte, low groups first, the top
/// bit set on every byte but the last.
pub open spec fn leb(v: nat) -> Seq<u8>
    decreases v,
{
    if v < 128 {
        seq![v as u8]
    } else {
        seq![(v % 128 + 128) as u8] + leb(v / 128)
    }
}

/// Reads a LEB128 number at `i`, which is the `group`-th byte of the number:
/// the value and the offset behind it. `None` when the bytes end first, or
/// when the number does not fit 32 bits.
pub open spec fn unleb(b: Seq<u8>, i: int, group: nat) -> Option<(nat, int)>
    decreases 5 - group,
{
    if group >= 5 || i >= b.len() {
        None
    } else if group == 4 && b[i] > 0x0F {
        None
    } else if b[i] < 128 {
        Some((b[i] as nat, i + 1))
    } else {
        match unleb(b, i + 1, group + 1) {
            Some((v, end)) => Some(((b[i] - 128 + 128 * v) as nat, end)),
            None => None,
        }
    }
}

/// The bound on a number whose first byte is byte `group` of a `u32`.
pub open spec fn group_bound(group: nat) -> nat {
    if group == 0 {
        0x1_0000_0000
    } else if group == 1 {
        0x200_0000
    } else if group == 2 {
        0x4_0000
    } else if group == 3 {
        0x800
    } else {
        0x10
    }
}

pub proof fn lemma_unleb_bounds(b: Seq<u8>, i: int, group: nat)
    requires
        0 <= i,
    ensures
        unleb(b, i, group) matches Some((v, end)) ==> i < end <= b.len() && end <= i + 5 - group
            && (group == 0 ==> v < 0x1_0000_0000),
        unleb(b, i, group) matches Some((v, end)) ==> v < group_bound(group),
    decreases 5 - group,
{
    if group < 5 {
        lemma_unleb_bounds(b, i + 1, group + 1);
    }
}

/// The encoding of a `u32` takes one to five bytes.
pub proof fn lemma_leb_len(v: nat)
    requires
        v < 0x1_0000_0000,
    ensures
        1 <= leb(v).len() <= 5,
        v < 0x1000_0000 ==> leb(v).len() <= 4,
        v < 0x20_0000 ==> leb(v).len() <= 3,
        v < 0x4000 ==> leb(v).len() <= 2,
        v < 0x80 ==> leb(v).len() == 1,
{
    reveal_with_fuel(leb, 6);
}

/// A number that fits the remaining groups reads back from wherever its
/// encoding stands.
proof fn lemma_unleb_leb(b: Seq<u8>, i: int, group: nat, v: nat)
    requires
        0 <= i,
        group < 5,
        v < group_bound(group),
        i + leb(v).len() <= b.len(),
        forall|k: int| 0 <= k < leb(v).len() ==> b[i + k] == #[trigger] leb(v)[k],
    ensures
        unleb(b, i, group) == Some((v, i + leb(v).len())),
    decreases 5 - group,
{
    assert(b[i + 0] == leb(v)[0]);
    if v >= 128 {
        let rest = leb(v / 128);
        assert forall|k: int| 0 <= k < rest.len() implies b[i + 1 + k] == #[trigger] rest[k] by {
            assert(leb(v)[k + 1] == rest[k]);
            assert(b[i + (k + 1)] == leb(v)[k + 1]);
        }
        lemma_unleb_leb(b, i + 1, group + 1, v / 128);
    }
}

/// Decoding an encoded number gives it back, with the length of its encoding,
/// whatever follows.
pub proof fn varint_round_trip(v: u32, rest: Seq<u8>)
    ensures
        unleb(leb(v as nat) + rest, 0, 0) == Some((v as nat, leb(v as nat).len() as int)),
{
    lemma_unleb_leb(leb(v as nat) + rest, 0, 0, v as nat);
}

/// [`varint_round_trip`] at any offset.
pub proof fn lemma_varint_at(b: Seq<u8>, at: int, v: u32)
    requires
        crate::codec::has_at(b, at, leb(v as nat)),
    ensures
        unleb(b, at, 0) == Some((v as nat, at + leb(v as nat).len())),
{
    reveal(crate::codec::has_at);
    let piece = leb(v as nat);
    assert forall|k: int| 0 <= k < piece.len() implies b[at + k] == #[trigger] piece[k] by {
        assert(b.subrange(at, at + piece.len())[k] == piece[k]);
    }
    lemma_unleb_leb(b, at, 0, v as nat);
}

/// Encodes `v` into `out`, returning the number of bytes written.
pub fn encode_u32(v: u32, out: &mut [u8; MAX_VARINT]) -> (n: usize)
    ensures
        1 <= n <= MAX_VARINT,
        final(out)@.subrange(0, n as int) == leb(v as nat),
        final(out)@.subrange(n as int, 5) == old(out)@.subrange(n as int, 5),
{
    let mut rest: u32 = v;
    let mut n: usize = 0;
    proof {
        lemma_leb_len(v as nat);
        assert(out@.subrange(0, 0) + leb(v as nat) =~= leb(v as nat));
    }
    while rest >= 128
        invariant
            n + leb(rest as nat).len() == leb(v as nat).len() <= 5,
            out@.len() == 5,
            old(out)@.len() == 5,
            out@.subrange(0, n as int) + leb(rest as nat) == leb(v as nat),
            out@.subrange(n as int, 5) == old(out)@.subrange(n as int, 5),
        decreases rest,
    {
        let ghost before = out@;
        let ghost left = rest as nat;
        proof {
            assert(leb(left / 128).len() >= 1) by {
                lemma_leb_len(left / 128);
            }
        }
        out[n] = (rest % 128 + 128) as u8;
        rest = rest / 128;
        n = n + 1;
        proof {
            assert(out@.subrange(0, n as int) =~= before.subrange(0, n - 1).push(
                (left % 128 + 128) as u8,
            ));
            assert(before.subrange(0, n - 1).push((left % 128 + 128) as u8) + leb(left / 128)
                =~= before.subrange(0, n - 1) + leb(left));
            assert(out@.subrange(n as int, 5) =~= before.subrange(n - 1, 5).subrange(
                1,
                5 - (n - 1),
            ));
            assert(old(out)@.subrange(n as int, 5) =~= old(out)@.subrange(n - 1, 5).subrange(
                1,
                5 - (n - 1),
            ));
        }
    }
    let ghost before = out@;
    out[n] = rest as u8;
    n = n + 1;
    proof {
        assert(out@.subrange(0, n as int) =~= before.subrange(0, n - 1) + leb(rest as nat));
        assert(out@.subrange(n as int, 5) =~= before.subrange(n - 1, 5).subrange(1, 5 - (n - 1)));
        assert(old(out)@.subrange(n as int, 5) =~= old(out)@.subrange(n - 1, 5).subrange(
            1,
            5 - (n - 1),
        ));
    }
    n
}

/// Appends the encoding of `v`.
pub fn put_varint(out: &mut Vec<u8>, v: u32)
    ensures
        final(out)@ == old(out)@ + leb(v as nat),
{
    let mut buf: [u8; MAX_VARINT] = [0u8; 5];
    let n: usize = encode_u32(v, &mut buf);
    let mut i: usize = 0;
    while i < n
        invariant
            i <= n <= 5,
            buf@.len() == 5,
            out@ == old(out)@ + buf@.subrange(0, i as int),
        decreases n - i,
    {
        out.push(buf[i]);
        i = i + 1;
        assert(buf@.subrange(0, i as int) =~= buf@.subrange(0, i - 1).push(buf@[i - 1]));
        assert(out@ =~= old(out)@ + buf@.subrange(0, i as int));
    }
}

fn decode_group(bytes: &[u8], i: usize, group: usize) -> (r: Option<(u32, usize)>)
    requires
        group <= 5,
    ensures
        r is Some == unleb(bytes@, i as int, group as nat) is Some,
        r matches Some((v, end)) ==> unleb(bytes@, i as int, group as nat) == Some(
            (v as nat, end as int),
        ),
    decreases 5 - group,
{
    if group >= 5 || i >= bytes.len() {
        return None;
    }
    let byte: u8 = bytes[i];
    if group == 4 && byte > 0x0F {
        return None;
    }
    if byte < 128 {
        return Some((byte as u32, i + 1));
    }
    proof {
        lemma_unleb_bounds(bytes@, i + 1, (group + 1) as nat);
    }
    match decode_group(bytes, i + 1, group + 1) {
        Some((v, end)) => Some(((byte - 128) as u32 + 128 * v, end)),
        None => None,
    }
}

/// Decodes one `u32` from the front of `bytes`, returning the value and the
/// number of bytes consumed. `None` on truncated input or a value that does
/// not fit 32 bits (a fifth byte with more than four payload bits, or a
/// continuation bit on the fifth byte).
pub fn decode_u32(bytes: &[u8]) -> (r: Option<(u32, usize)>)
    ensures
        r is Some == unleb(bytes@, 0, 0) is Some,
        r matches Some((v, n)) ==> unleb(bytes@, 0, 0) == Some((v as nat, n as int)),
{
    decode_group(bytes, 0, 0)
}

/// Decodes one `u32` at offset `at`, returning the value and the offset
/// behind it.
pub fn decode_u32_at(bytes: &[u8], at: usize) -> (r: Option<(u32, usize)>)
    ensures
        r is Some == unleb(bytes@, at as int, 0) is Some,
        r matches Some((v, end)) ==> unleb(bytes@, at as int, 0) == Some((v as nat, end as int)),
{
    decode_group(bytes, at, 0)
}

} // verus!
