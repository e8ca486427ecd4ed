//! Fixed-width integers as bytes.
//!
//! Little-endian for the container formats, big-endian for record keys, whose
//! byte order then agrees with the numeric order.

use vstd::prelude::*;

verus! {

/// `256^n`.
pub open spec fn pow256(n: nat) -> nat
    decreases n,
{
    if n == 0 { 1 } else { 256 * pow256((n - 1) as nat) }
}

/// The `n` low bytes of `v`, least significant first.
pub open spec fn le_bytes(v: nat, n: nat) -> Seq<u8>
    decreases n,
{
    if n == 0 {
        Seq::<u8>::empty()
    } else {
        seq![(v % 256) as u8] + le_bytes(v / 256, (n - 1) as nat)
    }
}

/// The number a little-endian byte string denotes.
pub open spec fn le_nat(s: Seq<u8>) -> nat
    decreases s.len(),
{
    if s.len() == 0 {
        0
    } else {
        s[0] as nat + 256 * le_nat(s.skip(1))
    }
}

/// The `n` low bytes of `v`, most significant first.
pub open spec fn be_bytes(v: nat, n: nat) -> Seq<u8> {
    le_bytes(v, n).reverse()
}

/// The number a big-endian byte string denotes.
pub open spec fn be_nat(s: Seq<u8>) -> nat {
    le_nat(s.reverse())
}

pub proof fn lemma_pow256()
    ensures
        pow256(1) == 0x100,
        pow256(2) == 0x1_0000,
        pow256(4) == 0x1_0000_0000,
        pow256(8) == 0x1_0000_0000_0000_0000,
        pow256(16) == 0x1_0000_0000_0000_0000_0000_0000_0000_0000,
{
    reveal_with_fuel(pow256, 17);
}

pub proof fn lemma_le_bytes_len(v: nat, n: nat)
    ensures
        le_bytes(v, n).len() == n,
    decreases n,
{
    if n > 0 {
        lemma_le_bytes_len(v / 256, (n - 1) as nat);
    }
}

/// Reading back what was written.
pub proof fn lemma_le_round_trip(v: nat, n: nat)
    requires
        v < pow256(n),
    ensures
        le_nat(le_bytes(v, n)) == v,
        le_bytes(v, n).len() == n,
    decreases n,
{
    lemma_le_bytes_len(v, n);
    if n > 0 {
        assert(v / 256 < pow256((n - 1) as nat)) by (nonlinear_arith)
            requires
                v < 256 * pow256((n - 1) as nat),
        ;
        lemma_le_round_trip(v / 256, (n - 1) as nat);
        assert(le_bytes(v, n).skip(1) =~= le_bytes(v / 256, (n - 1) as nat));
    }
}

/// A byte string of length `n` denotes a number below `256^n`, and is the
/// encoding of that number.
pub proof fn lemma_le_nat_bound(s: Seq<u8>)
    ensures
        le_nat(s) < pow256(s.len()),
        le_bytes(le_nat(s), s.len()) == s,
    decreases s.len(),
{
    if s.len() > 0 {
        lemma_le_nat_bound(s.skip(1));
        let rest = le_nat(s.skip(1));
        assert((s[0] as nat + 256 * rest) % 256 == s[0] as nat);
        assert((s[0] as nat + 256 * rest) / 256 == rest);
        assert(s[0] as nat + 256 * rest < 256 * pow256((s.len() - 1) as nat)) by (nonlinear_arith)
            requires
                s[0] <= 255,
                rest < pow256((s.len() - 1) as nat),
        ;
        assert(seq![s[0]] + s.skip(1) =~= s);
    } else {
        assert(s =~= Seq::<u8>::empty());
    }
}

/// Big-endian reading back what was written.
pub proof fn lemma_be_round_trip(v: nat, n: nat)
    requires
        v < pow256(n),
    ensures
        be_nat(be_bytes(v, n)) == v,
        be_bytes(v, n).len() == n,
{
    lemma_le_round_trip(v, n);
    assert(le_bytes(v, n).reverse().reverse() =~= le_bytes(v, n));
}

pub open spec fn le16(v: u16) -> Seq<u8> {
    le_bytes(v as nat, 2)
}

pub open spec fn le32(v: u32) -> Seq<u8> {
    le_bytes(v as nat, 4)
}

pub open spec fn le64(v: u64) -> Seq<u8> {
    le_bytes(v as nat, 8)
}

pub open spec fn le128(v: u128) -> Seq<u8> {
    le_bytes(v as nat, 16)
}

pub open spec fn be16(v: u16) -> Seq<u8> {
    be_bytes(v as nat, 2)
}

pub open spec fn be32(v: u32) -> Seq<u8> {
    be_bytes(v as nat, 4)
}

pub open spec fn be64(v: u64) -> Seq<u8> {
    be_bytes(v as nat, 8)
}

/// `piece` stands in `bytes` at offset `at`.
#[verifier::opaque]
pub open spec fn has_at(bytes: Seq<u8>, at: int, piece: Seq<u8>) -> bool {
    &&& 0 <= at
    &&& at + piece.len() <= bytes.len()
    &&& bytes.subrange(at, at + piece.len()) == piece
}

/// The little-endian number of `n` bytes at `at`.
pub open spec fn num_at(b: Seq<u8>, at: int, n: int) -> nat {
    le_nat(b.subrange(at, at + n))
}

/// Every byte of `bytes[from..to]` is zero.
pub open spec fn all_zero(bytes: Seq<u8>, from: int, to: int) -> bool {
    forall|i: int| from <= i < to ==> #[trigger] bytes[i] == 0u8
}

pub open spec fn zeros(n: nat) -> Seq<u8> {
    Seq::new(n, |i: int| 0u8)
}

/// Appends `s`.
pub fn put_slice(out: &mut Vec<u8>, s: &[u8])
    ensures
        final(out)@ == old(out)@ + s@,
{
    out.extend_from_slice(s);
    assert(out@ =~= old(out)@ + s@);
}

fn put_le(out: &mut Vec<u8>, v: u128, n: usize)
    ensures
        final(out)@ == old(out)@ + le_bytes(v as nat, n as nat),
{
    let mut rest: u128 = v;
    let mut i: usize = 0;
    while i < n
        invariant
            i <= n,
            out@ + le_bytes(rest as nat, (n - i) as nat) == old(out)@ + le_bytes(
                v as nat,
                n as nat,
            ),
        decreases n - i,
    {
        let ghost before = out@;
        out.push((rest % 256) as u8);
        assert(before + (seq![(rest % 256) as u8] + le_bytes(
            (rest / 256) as nat,
            (n - i - 1) as nat,
        )) =~= out@ + le_bytes((rest / 256) as nat, (n - i - 1) as nat));
        rest = rest / 256;
        i = i + 1;
    }
    assert(out@ + Seq::<u8>::empty() =~= out@);
}

/// Appends a little-endian `u16`.
pub fn put_u16(out: &mut Vec<u8>, v: u16)
    ensures
        final(out)@ == old(out)@ + le16(v),
{
    put_le(out, v as u128, 2);
}

/// Appends a little-endian `u32`.
pub fn put_u32(out: &mut Vec<u8>, v: u32)
    ensures
        final(out)@ == old(out)@ + le32(v),
{
    put_le(out, v as u128, 4);
}

/// Appends a little-endian `u64`.
pub fn put_u64(out: &mut Vec<u8>, v: u64)
    ensures
        final(out)@ == old(out)@ + le64(v),
{
    put_le(out, v as u128, 8);
}

/// Appends a little-endian `u128`.
pub fn put_u128(out: &mut Vec<u8>, v: u128)
    ensures
        final(out)@ == old(out)@ + le128(v),
{
    put_le(out, v, 16);
}

fn get_le(bytes: &[u8], at: usize, n: usize) -> (r: u128)
    requires
        at + n <= bytes@.len(),
        n <= 16,
    ensures
        r == le_nat(bytes@.subrange(at as int, at + n)),
        r < pow256(n as nat),
{
    let mut acc: u128 = 0;
    let mut i: usize = n;
    let total: usize = bytes.len();
    proof {
        lemma_le_nat_bound(bytes@.subrange(at as int, at + n));
        assert(bytes@.subrange(at + n, at + n) =~= Seq::<u8>::empty());
    }
    while i > 0
        invariant
            i <= n <= 16,
            total == bytes@.len(),
            at + n <= total,
            acc == le_nat(bytes@.subrange(at + i, at + n)),
        decreases i,
    {
        i = i - 1;
        proof {
            let tail = bytes@.subrange(at + i, at + n);
            assert(tail.skip(1) =~= bytes@.subrange(at + i + 1, at + n));
            lemma_le_nat_bound(tail);
            lemma_le_nat_bound(bytes@.subrange(at + i + 1, at + n));
            lemma_pow256();
            lemma_pow256_mono((n - i) as nat, 16);
        }
        acc = acc * 256 + bytes[at + i] as u128;
    }
    acc
}

pub proof fn lemma_pow256_mono(a: nat, b: nat)
    requires
        a <= b,
    ensures
        pow256(a) <= pow256(b),
        0 < pow256(a),
    decreases b,
{
    if b > 0 && a < b {
        lemma_pow256_mono(a, (b - 1) as nat);
    } else if a > 0 {
        lemma_pow256_mono((a - 1) as nat, (b - 1) as nat);
    }
}

/// Reads a little-endian `u16` at `at`.
pub fn get_u16(bytes: &[u8], at: usize) -> (r: u16)
    requires
        at + 2 <= bytes@.len(),
    ensures
        r as nat == le_nat(bytes@.subrange(at as int, at + 2)),
{
    proof {
        lemma_pow256();
    }
    get_le(bytes, at, 2) as u16
}

/// Reads a little-endian `u32` at `at`.
pub fn get_u32(bytes: &[u8], at: usize) -> (r: u32)
    requires
        at + 4 <= bytes@.len(),
    ensures
        r as nat == le_nat(bytes@.subrange(at as int, at + 4)),
{
    proof {
        lemma_pow256();
    }
    get_le(bytes, at, 4) as u32
}

/// Reads a little-endian `u64` at `at`.
pub fn get_u64(bytes: &[u8], at: usize) -> (r: u64)
    requires
        at + 8 <= bytes@.len(),
    ensures
        r as nat == le_nat(bytes@.subrange(at as int, at + 8)),
{
    proof {
        lemma_pow256();
    }
    get_le(bytes, at, 8) as u64
}

/// Reads a little-endian `u128` at `at`.
pub fn get_u128(bytes: &[u8], at: usize) -> (r: u128)
    requires
        at + 16 <= bytes@.len(),
    ensures
        r as nat == le_nat(bytes@.subrange(at as int, at + 16)),
{
    get_le(bytes, at, 16)
}

/// `true` when the two slices hold the same bytes.
pub fn slice_eq(a: &[u8], b: &[u8]) -> (r: bool)
    ensures
        r == (a@ == b@),
{
    if a.len() != b.len() {
        return false;
    }
    let mut i: usize = 0;
    while i < a.len()
        invariant
            i <= a@.len(),
            a@.len() == b@.len(),
            forall|k: int| 0 <= k < i ==> a@[k] == b@[k],
        decreases a@.len() - i,
    {
        if a[i] != b[i] {
            return false;
        }
        i = i + 1;
    }
    assert(a@ =~= b@);
    true
}

/// Reading a number where its encoding stands.
pub proof fn lemma_le_at(b: Seq<u8>, at: int, v: nat, n: nat)
    requires
        v < pow256(n),
        has_at(b, at, le_bytes(v, n)),
    ensures
        at + n <= b.len(),
        le_nat(b.subrange(at, at + n)) == v,
{
    reveal(has_at);
    lemma_le_round_trip(v, n);
}

/// [`lemma_le_at`] for [`num_at`].
pub proof fn lemma_num_at(b: Seq<u8>, at: int, v: nat, n: nat)
    requires
        v < pow256(n),
        has_at(b, at, le_bytes(v, n)),
    ensures
        num_at(b, at, n as int) == v,
        le_bytes(v, n).len() == n,
{
    lemma_le_at(b, at, v, n);
    lemma_le_bytes_len(v, n);
}

/// The pieces of a concatenation stand one behind the other.
pub proof fn lemma_has_split(b: Seq<u8>, at: int, x: Seq<u8>, y: Seq<u8>)
    ensures
        has_at(b, at, x + y) <==> has_at(b, at, x) && has_at(b, at + x.len(), y),
{
    reveal(has_at);
    let whole = b.subrange(at, at + (x + y).len());
    if has_at(b, at, x + y) {
        assert(b.subrange(at, at + x.len()) =~= whole.subrange(0, x.len() as int));
        assert((x + y).subrange(0, x.len() as int) =~= x);
        assert(b.subrange(at + x.len(), at + x.len() + y.len()) =~= whole.subrange(
            x.len() as int,
            (x.len() + y.len()) as int,
        ));
        assert((x + y).subrange(x.len() as int, (x.len() + y.len()) as int) =~= y);
    }
    if has_at(b, at, x) && has_at(b, at + x.len(), y) {
        assert(whole =~= b.subrange(at, at + x.len()) + b.subrange(
            at + x.len(),
            at + x.len() + y.len(),
        ));
    }
}

/// `true` when every byte of `bytes[from..to]` is zero.
pub fn is_zero_range(bytes: &[u8], from: usize, to: usize) -> (r: bool)
    requires
        from <= to <= bytes@.len(),
    ensures
        r == all_zero(bytes@, from as int, to as int),
{
    let mut i: usize = from;
    while i < to
        invariant
            from <= i <= to <= bytes@.len(),
            all_zero(bytes@, from as int, i as int),
        decreases to - i,
    {
        if bytes[i] != 0 {
            return false;
        }
        i = i + 1;
    }
    true
}

/// The big-endian number of `n` bytes at `at`.
pub open spec fn be_at(b: Seq<u8>, at: int, n: int) -> nat {
    be_nat(b.subrange(at, at + n))
}

/// The byte string of length `n` that denotes a number is its encoding.
pub proof fn lemma_be_nat_bound(s: Seq<u8>)
    ensures
        be_nat(s) < pow256(s.len()),
        be_bytes(be_nat(s), s.len()) == s,
{
    lemma_le_nat_bound(s.reverse());
    assert(s.reverse().len() == s.len());
    assert(s.reverse().reverse() =~= s);
}

/// Reading a big-endian number where its encoding stands.
pub proof fn lemma_be_at(b: Seq<u8>, at: int, v: nat, n: nat)
    requires
        v < pow256(n),
        has_at(b, at, be_bytes(v, n)),
    ensures
        be_at(b, at, n as int) == v,
        be_bytes(v, n).len() == n,
{
    reveal(has_at);
    lemma_be_round_trip(v, n);
}

pub proof fn lemma_be_bytes_len(v: nat, n: nat)
    ensures
        be_bytes(v, n).len() == n,
{
    lemma_le_bytes_len(v, n);
}

fn put_be(out: &mut Vec<u8>, v: u128, n: usize)
    ensures
        final(out)@ == old(out)@ + be_bytes(v as nat, n as nat),
{
    let mut low: Vec<u8> = Vec::new();
    put_le(&mut low, v, n);
    proof {
        lemma_le_bytes_len(v as nat, n as nat);
        assert(low@ =~= le_bytes(v as nat, n as nat));
    }
    let mut i: usize = n;
    assert(out@ =~= old(out)@ + low@.reverse().take(0));
    while i > 0
        invariant
            i <= n,
            low@.len() == n,
            out@ == old(out)@ + low@.reverse().take(n - i),
        decreases i,
    {
        i = i - 1;
        out.push(low[i]);
        assert(low@.reverse().take(n - i) =~= low@.reverse().take(n - i - 1).push(low@[i as int]));
        assert(out@ =~= old(out)@ + low@.reverse().take(n - i));
    }
    assert(low@.reverse().take(n as int) =~= low@.reverse());
}

/// Appends a big-endian `u16`.
pub fn put_be16(out: &mut Vec<u8>, v: u16)
    ensures
        final(out)@ == old(out)@ + be16(v),
{
    put_be(out, v as u128, 2);
}

/// Appends a big-endian `u32`.
pub fn put_be32(out: &mut Vec<u8>, v: u32)
    ensures
        final(out)@ == old(out)@ + be32(v),
{
    put_be(out, v as u128, 4);
}

/// Appends a big-endian `u64`.
pub fn put_be64(out: &mut Vec<u8>, v: u64)
    ensures
        final(out)@ == old(out)@ + be64(v),
{
    put_be(out, v as u128, 8);
}

proof fn lemma_be_nat_push(s: Seq<u8>, b: u8)
    ensures
        be_nat(s.push(b)) == 256 * be_nat(s) + b as nat,
{
    let r = s.push(b).reverse();
    assert(r[0] == b);
    assert(r.skip(1) =~= s.reverse());
}

fn get_be(bytes: &[u8], at: usize, n: usize) -> (r: u128)
    requires
        at + n <= bytes@.len(),
        n <= 16,
    ensures
        r == be_at(bytes@, at as int, n as int),
        r < pow256(n as nat),
{
    let total: usize = bytes.len();
    let mut acc: u128 = 0;
    let mut i: usize = 0;
    proof {
        assert(bytes@.subrange(at as int, at as int) =~= Seq::<u8>::empty());
        assert(Seq::<u8>::empty().reverse() =~= Seq::<u8>::empty());
    }
    while i < n
        invariant
            i <= n <= 16,
            total == bytes@.len(),
            at + n <= total,
            acc == be_nat(bytes@.subrange(at as int, at + i)),
        decreases n - i,
    {
        proof {
            let head = bytes@.subrange(at as int, at + i);
            let next = bytes@.subrange(at as int, at + i + 1);
            assert(next =~= head.push(bytes@[at + i]));
            lemma_be_nat_push(head, bytes@[at + i]);
            lemma_be_nat_bound(next);
            lemma_pow256();
            lemma_pow256_mono((i + 1) as nat, 16);
        }
        acc = acc * 256 + bytes[at + i] as u128;
        i = i + 1;
    }
    proof {
        lemma_be_nat_bound(bytes@.subrange(at as int, at + n));
    }
    acc
}

/// Reads a big-endian `u16` at `at`.
pub fn get_be16(bytes: &[u8], at: usize) -> (r: u16)
    requires
        at + 2 <= bytes@.len(),
    ensures
        r as nat == be_at(bytes@, at as int, 2),
        be16(r) == bytes@.subrange(at as int, at + 2),
{
    proof {
        lemma_pow256();
        lemma_be_nat_bound(bytes@.subrange(at as int, at + 2));
    }
    get_be(bytes, at, 2) as u16
}

/// Reads a big-endian `u32` at `at`.
pub fn get_be32(bytes: &[u8], at: usize) -> (r: u32)
    requires
        at + 4 <= bytes@.len(),
    ensures
        r as nat == be_at(bytes@, at as int, 4),
        be32(r) == bytes@.subrange(at as int, at + 4),
{
    proof {
        lemma_pow256();
        lemma_be_nat_bound(bytes@.subrange(at as int, at + 4));
    }
    get_be(bytes, at, 4) as u32
}

/// Reads a big-endian `u64` at `at`.
pub fn get_be64(bytes: &[u8], at: usize) -> (r: u64)
    requires
        at + 8 <= bytes@.len(),
    ensures
        r as nat == be_at(bytes@, at as int, 8),
        be64(r) == bytes@.subrange(at as int, at + 8),
{
    proof {
        lemma_pow256();
        lemma_be_nat_bound(bytes@.subrange(at as int, at + 8));
    }
    get_be(bytes, at, 8) as u64
}

/// Putting one big-endian number behind another shifts the first.
pub proof fn lemma_be_concat(x: Seq<u8>, y: Seq<u8>)
    ensures
        be_nat(x + y) == pow256(y.len()) * be_nat(x) + be_nat(y),
    decreases y.len(),
{
    if y.len() == 0 {
        assert(x + y =~= x);
        assert(y.reverse() =~= Seq::<u8>::empty());
        assert(pow256(0) * be_nat(x) == be_nat(x)) by (nonlinear_arith)
            requires
                pow256(0) == 1,
        ;
    } else {
        let init = y.drop_last();
        lemma_be_concat(x, init);
        lemma_be_nat_push(x + init, y.last());
        lemma_be_nat_push(init, y.last());
        assert((x + init).push(y.last()) =~= x + y);
        assert(init.push(y.last()) =~= y);
        assert(256 * (pow256(init.len()) * be_nat(x)) == pow256(y.len()) * be_nat(x))
            by (nonlinear_arith)
            requires
                pow256(y.len()) == 256 * pow256(init.len()),
        ;
    }
}

} // verus!
