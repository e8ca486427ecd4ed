//! Flat storage of quantized vectors.
//!
//! One slot holds `fact u32 | scale f32 | signature | components`, all
//! little-endian: the sign signature has one bit per component (set when the
//! component is not negative) in words of 64 bits, the components are `i8`.
//! Slots are append-only; dead ones are dropped by a compaction.
//!
//! The pool frames, appends, checks and compares slots. Quantizing a vector
//! and scaling a dot product are floating-point work and belong to the host.

use crate::codec;
use crate::codec::{get_u32, get_u64, put_slice, put_u32, put_u64};
use crate::error::Error;
use crate::float::F32Bits;
use crate::id::FactId;
use vstd::prelude::*;

verus! {

/// Fixed slot header: the fact and the scale.
pub const HEAD: usize = 8;

/// Signature words for a dimension.
pub open spec fn words(dim: int) -> int {
    (dim + 63) / 64
}

/// Byte stride of one slot.
pub open spec fn stride_of(dim: int) -> int {
    HEAD + words(dim) * 8 + dim
}

/// Why a vector cannot be quantized: it has another length, a component that
/// is not finite, or no direction.
pub open spec fn vector_error(dim: usize, v: Seq<F32Bits>) -> Option<Error> {
    if v.len() != dim {
        Some(Error::DimMismatch { got: v.len() as usize, want: dim })
    } else if exists|i: int| 0 <= i < v.len() && !(#[trigger] v[i]).finite() {
        Some(Error::Invalid("vector must be finite"))
    } else if forall|i: int| 0 <= i < v.len() ==> (#[trigger] v[i]).zero() {
        Some(Error::Invalid("vector must be nonzero"))
    } else {
        None
    }
}

/// Refuses a vector that cannot be quantized: one of another length, one that
/// is not finite, and the zero vector.
pub fn check_vector(dim: usize, v: &[F32Bits]) -> (r: Result<(), Error>)
    ensures
        match r {
            Ok(()) => vector_error(dim, v@) is None,
            Err(e) => vector_error(dim, v@) == Some(e),
        },
{
    if v.len() != dim {
        return Err(Error::DimMismatch { got: v.len(), want: dim });
    }
    let mut nonzero: bool = false;
    let mut i: usize = 0;
    while i < v.len()
        invariant
            i <= v@.len(),
            v@.len() == dim,
            forall|k: int| 0 <= k < i ==> (#[trigger] v@[k]).finite(),
            !nonzero ==> forall|k: int| 0 <= k < i ==> (#[trigger] v@[k]).zero(),
            nonzero ==> exists|k: int| 0 <= k < i && !(#[trigger] v@[k]).zero(),
        decreases v@.len() - i,
    {
        let x: F32Bits = v[i];
        if !x.is_finite() {
            assert(!v@[i as int].finite());
            return Err(Error::Invalid("vector must be finite"));
        }
        if !x.is_zero() {
            assert(!v@[i as int].zero());
            nonzero = true;
        }
        i = i + 1;
    }
    if nonzero {
        Ok(())
    } else {
        Err(Error::Invalid("vector must be nonzero"))
    }
}

/// Dimensions whose stride fits the machine.
pub open spec fn dim_fits(dim: int) -> bool {
    stride_of(dim) <= usize::MAX
}

/// The signature word of the components from `at` on: bit `k` is set when
/// component `at + k` is there and not negative, for the first `n` bits.
pub open spec fn sig_bits(q: Seq<u8>, at: int, n: nat) -> u64
    decreases n,
{
    if n == 0 {
        0
    } else {
        let prev = sig_bits(q, at, (n - 1) as nat);
        if at + n - 1 < q.len() && q[at + n - 1] < 128 {
            prev | (1u64 << ((n - 1) as u64))
        } else {
            prev
        }
    }
}

/// The first `n` signature words of the components.
pub open spec fn signature(q: Seq<u8>, n: nat) -> Seq<u8>
    decreases n,
{
    if n == 0 {
        Seq::empty()
    } else {
        signature(q, (n - 1) as nat) + codec::le64(sig_bits(q, (n - 1) * 64, 64))
    }
}

/// A slot as stored.
pub open spec fn slot_image(fact: u32, scale: F32Bits, q: Seq<u8>) -> Seq<u8> {
    codec::le32(fact) + codec::le32(scale.0) + signature(q, words(q.len() as int) as nat) + q
}

/// The number of slots in a pool.
pub open spec fn slot_count(dim: int, pool: Seq<u8>) -> int {
    pool.len() as int / stride_of(dim)
}

/// The bytes of slot `i`.
pub open spec fn slot_at(dim: int, pool: Seq<u8>, i: int) -> Seq<u8> {
    pool.subrange(i * stride_of(dim), (i + 1) * stride_of(dim))
}

/// The owning fact of a slot.
pub open spec fn fact_of(slot: Seq<u8>) -> u32 {
    codec::num_at(slot, 0, 4) as u32
}

/// The scale of a slot.
pub open spec fn scale_of(slot: Seq<u8>) -> F32Bits {
    F32Bits(codec::num_at(slot, 4, 4) as u32)
}

/// The components of a slot.
pub open spec fn components_of(dim: int, slot: Seq<u8>) -> Seq<u8> {
    slot.skip(HEAD + words(dim) * 8)
}

/// Every signature word agrees with the signs of the components.
pub open spec fn signature_agrees(dim: int, slot: Seq<u8>, n: int) -> bool {
    forall|w: int|
        0 <= w < n ==> #[trigger] codec::num_at(slot, HEAD + w * 8, 8) == sig_bits(
            components_of(dim, slot),
            w * 64,
            64,
        )
}

/// What is wrong with a slot.
pub open spec fn slot_fault(dim: int, slot: Seq<u8>) -> Option<&'static str> {
    if !scale_of(slot).weight() {
        Some("vector slot scale is not finite and non-negative")
    } else if !signature_agrees(dim, slot, words(dim)) {
        Some("vector slot signature disagrees with its components")
    } else {
        None
    }
}

/// The fault of the first faulty slot among the first `n`.
pub open spec fn pool_fault(dim: int, pool: Seq<u8>, n: nat) -> Option<&'static str>
    decreases n,
{
    if n == 0 {
        None
    } else {
        match pool_fault(dim, pool, (n - 1) as nat) {
            Some(what) => Some(what),
            None => slot_fault(dim, slot_at(dim, pool, n - 1)),
        }
    }
}

/// What checking a pool returns.
pub open spec fn checked(dim: int, pool: Seq<u8>) -> Result<(), Error> {
    if dim == 0 {
        Ok(())
    } else {
        match pool_fault(dim, pool, slot_count(dim, pool) as nat) {
            Some(what) => Err(Error::Corrupt(what)),
            None => Ok(()),
        }
    }
}

/// What loading a pool section returns.
pub open spec fn pool_loaded(dim: int, max_bytes: int, bytes: Seq<u8>) -> Result<Seq<u8>, Error> {
    if bytes.len() > max_bytes {
        Err(Error::Corrupt("vector pool exceeds the configured ceiling"))
    } else if dim == 0 {
        if bytes.len() > 0 {
            Err(Error::Corrupt("vector pool present with dim 0"))
        } else {
            Ok(Seq::empty())
        }
    } else if bytes.len() as int % stride_of(dim) != 0 {
        Err(Error::Corrupt("vector pool is not a whole number of slots"))
    } else {
        Ok(bytes)
    }
}

/// What appending a quantized vector returns: the pool and the slot number.
pub open spec fn slot_pushed(
    dim: int,
    max_bytes: int,
    pool: Seq<u8>,
    fact: u32,
    scale: F32Bits,
    q: Seq<u8>,
) -> Result<(Seq<u8>, u32), Error> {
    if pool.len() + stride_of(dim) > max_bytes {
        Err(Error::CapacityExceeded { what: "vectors" })
    } else if slot_count(dim, pool) > u32::MAX {
        Err(Error::CapacityExceeded { what: "vector slots" })
    } else if q.len() != dim {
        Err(Error::DimMismatch { got: q.len() as usize, want: dim as usize })
    } else {
        Ok((pool + slot_image(fact, scale, q), slot_count(dim, pool) as u32))
    }
}

/// The value of a component.
pub open spec fn component(b: u8) -> int {
    if b < 128 {
        b as int
    } else {
        b - 256
    }
}

/// The integer dot product of two component runs, over their common length.
pub open spec fn dot(a: Seq<u8>, b: Seq<u8>, n: nat) -> int
    decreases n,
{
    if n == 0 {
        0
    } else {
        dot(a, b, (n - 1) as nat) + component(a[n - 1]) * component(b[n - 1])
    }
}

/// The number of set bits among the first `n` of `x`.
pub open spec fn ones(x: u64, n: nat) -> int
    decreases n,
{
    if n == 0 {
        0
    } else {
        ones(x, (n - 1) as nat) + (if (x >> ((n - 1) as u64)) & 1u64 == 1 {
            1int
        } else {
            0
        })
    }
}

/// The number of sign bits in which two slots differ, over `n` words.
pub open spec fn hamming(a: Seq<u8>, b: Seq<u8>, n: nat) -> int
    decreases n,
{
    if n == 0 {
        0
    } else {
        let at = HEAD + (n - 1) * 8;
        hamming(a, b, (n - 1) as nat) + ones(
            (codec::num_at(a, at, 8) as u64) ^ (codec::num_at(b, at, 8) as u64),
            64,
        )
    }
}

/// `a` precedes `b` among the candidates: closer, or as close and earlier.
pub open spec fn nearer(a: (u32, u32), b: (u32, u32)) -> bool {
    a.0 < b.0 || (a.0 == b.0 && a.1 < b.1)
}

/// Candidates kept in order of distance.
pub open spec fn cand_placed(xs: Seq<(u32, u32)>, p: (u32, u32)) -> Seq<(u32, u32)>
    decreases xs.len(),
{
    if xs.len() > 0 && nearer(p, xs.last()) {
        cand_placed(xs.drop_last(), p).push(xs.last())
    } else {
        xs.push(p)
    }
}

/// The slots by their distance to the query: `(distance, slot)`, nearest
/// first, ties by the earlier slot.
pub open spec fn by_distance(dim: int, pool: Seq<u8>, query: Seq<u8>, n: nat) -> Seq<(u32, u32)>
    decreases n,
{
    if n == 0 {
        Seq::empty()
    } else {
        cand_placed(
            by_distance(dim, pool, query, (n - 1) as nat),
            (
                hamming(query, slot_at(dim, pool, n - 1), words(dim) as nat) as u32,
                (n - 1) as u32,
            ),
        )
    }
}

/// How many candidates a query for `k` results rescores.
pub open spec fn candidate_count(k: int, n: int) -> int {
    let want = if 4 * k > 64 {
        4 * k
    } else {
        64
    };
    if want < n {
        want
    } else {
        n
    }
}

proof fn lemma_count(dim: int, pool: Seq<u8>)
    requires
        dim >= 0,
        pool.len() as int % stride_of(dim) == 0,
    ensures
        slot_count(dim, pool) * stride_of(dim) == pool.len(),
        0 <= slot_count(dim, pool) <= pool.len(),
{
    let s = stride_of(dim);
    assert(s >= 8);
    vstd::arithmetic::div_mod::lemma_fundamental_div_mod(pool.len() as int, s);
    let n = slot_count(dim, pool);
    assert(n * s == s * n) by (nonlinear_arith);
    assert(n >= 0 && n <= n * s) by (nonlinear_arith)
        requires
            n * s == pool.len(),
            pool.len() >= 0,
            s >= 8,
    ;
}

proof fn lemma_inside(dim: int, pool: Seq<u8>, i: int)
    requires
        dim >= 0,
        pool.len() as int % stride_of(dim) == 0,
        0 <= i < slot_count(dim, pool),
    ensures
        0 <= i * stride_of(dim),
        (i + 1) * stride_of(dim) == i * stride_of(dim) + stride_of(dim),
        (i + 1) * stride_of(dim) <= pool.len(),
        slot_at(dim, pool, i).len() == stride_of(dim),
{
    lemma_count(dim, pool);
    let s = stride_of(dim);
    let n = slot_count(dim, pool);
    assert((i + 1) * s == i * s + s) by (nonlinear_arith);
    assert((i + 1) * s <= n * s) by (nonlinear_arith)
        requires
            i + 1 <= n,
            s >= 0,
    ;
    assert(0 <= i * s) by (nonlinear_arith)
        requires
            0 <= i,
            s >= 0,
    ;
}

proof fn lemma_signature_len(q: Seq<u8>, n: nat)
    ensures
        signature(q, n).len() == n * 8,
    decreases n,
{
    if n > 0 {
        lemma_signature_len(q, (n - 1) as nat);
        codec::lemma_le_bytes_len(sig_bits(q, (n - 1) * 64, 64) as nat, 8);
    }
}

fn count_ones(x: u64) -> (r: u32)
    ensures
        r == ones(x, 64),
        r <= 64,
{
    let mut n: u32 = 0;
    let mut i: u64 = 0;
    while i < 64
        invariant
            i <= 64,
            n == ones(x, i as nat),
            n <= i,
        decreases 64 - i,
    {
        if (x >> i) & 1u64 == 1 {
            n = n + 1;
        }
        i = i + 1;
    }
    n
}

fn sig_word(q: &[u8], at: usize) -> (r: u64)
    requires
        at <= q@.len(),
    ensures
        r == sig_bits(q@, at as int, 64),
{
    let mut word: u64 = 0;
    let mut i: u64 = 0;
    let total: usize = q.len();
    while i < 64
        invariant
            i <= 64,
            total == q@.len(),
            at <= total,
            word == sig_bits(q@, at as int, i as nat),
        decreases 64 - i,
    {
        if (i as usize) < total - at && q[at + i as usize] < 128 {
            word = word | (1u64 << i);
        }
        i = i + 1;
    }
    word
}

/// Integer dot product of two component runs over their common length.
///
/// A run of up to 65536 components keeps the sum inside `i32`.
pub fn dot_i8(a: &[u8], b: &[u8]) -> (r: i32)
    requires
        a@.len() <= 65536 || b@.len() <= 65536,
    ensures
        r == dot(a@, b@, (if a@.len() < b@.len() { a@.len() } else { b@.len() })),
{
    let n: usize = if a.len() < b.len() { a.len() } else { b.len() };
    let mut acc: i32 = 0;
    let mut i: usize = 0;
    while i < n
        invariant
            i <= n <= 65536,
            n <= a@.len(),
            n <= b@.len(),
            acc == dot(a@, b@, i as nat),
            -16384 * i <= acc <= 16384 * i,
        decreases n - i,
    {
        let x: i32 = if a[i] < 128 { a[i] as i32 } else { a[i] as i32 - 256 };
        let y: i32 = if b[i] < 128 { b[i] as i32 } else { b[i] as i32 - 256 };
        assert(-16384 <= x * y <= 16384) by (nonlinear_arith)
            requires
                -128 <= x <= 127,
                -128 <= y <= 127,
        ;
        if i == 65535 {
            assert(acc + x * y <= 16384 * 65536);
        }
        acc = acc + x * y;
        i = i + 1;
    }
    acc
}

/// Flat store of quantized vectors.
pub struct VecPool {
    bytes: Vec<u8>,
    dim: usize,
    max_bytes: usize,
    dots: u64,
}

impl View for VecPool {
    type V = Seq<u8>;

    closed spec fn view(&self) -> Seq<u8> {
        self.bytes@
    }
}

impl VecPool {
    pub closed spec fn wf(&self) -> bool {
        &&& dim_fits(self.dim as int)
        &&& self.dim == 0 ==> self.bytes@.len() == 0
        &&& self.bytes@.len() as int % stride_of(self.dim as int) == 0
    }

    /// The dimension of the stored vectors.
    pub closed spec fn dimension(&self) -> int {
        self.dim as int
    }

    /// The byte ceiling.
    pub closed spec fn ceiling(&self) -> int {
        self.max_bytes as int
    }

    /// The number of dot products counted.
    pub closed spec fn counted(&self) -> u64 {
        self.dots
    }

    pub broadcast proof fn lemma_wf(&self)
        ensures
            #[trigger] self.wf() ==> self@.len() <= usize::MAX
                && self@.len() as int % stride_of(self.dimension()) == 0 && 0 <= self.dimension()
                && dim_fits(self.dimension()) && (self.dimension() == 0 ==> self@.len() == 0)
                && 0 <= slot_count(self.dimension(), self@) <= usize::MAX,
    {
        if self.wf() {
            assert(self.bytes.len() == self@.len());
            lemma_count(self.dim as int, self@);
        }
    }

    /// An empty pool for `dim`-dimensional vectors; with `dim == 0` it stays
    /// empty.
    pub fn new(dim: usize, max_bytes: usize) -> (r: VecPool)
        requires
            dim_fits(dim as int),
        ensures
            r.wf(),
            r@ == Seq::<u8>::empty(),
            r.dimension() == dim,
            r.ceiling() == max_bytes,
            r.counted() == 0,
    {
        VecPool { bytes: Vec::new(), dim, max_bytes, dots: 0 }
    }

    fn words(&self) -> (r: usize)
        requires
            self.wf(),
        ensures
            r == words(self.dimension()),
    {
        if self.dim % 64 == 0 {
            self.dim / 64
        } else {
            self.dim / 64 + 1
        }
    }

    /// Byte stride of one slot.
    pub fn stride(&self) -> (r: usize)
        requires
            self.wf(),
        ensures
            r == stride_of(self.dimension()),
    {
        HEAD + self.words() * 8 + self.dim
    }

    /// Number of stored slots.
    pub fn len(&self) -> (r: usize)
        requires
            self.wf(),
        ensures
            r == slot_count(self.dimension(), self@),
    {
        if self.bytes.len() == 0 {
            0
        } else {
            self.bytes.len() / self.stride()
        }
    }

    /// `true` when no vector is stored.
    pub fn is_empty(&self) -> (r: bool)
        ensures
            r == (self@.len() == 0),
    {
        self.bytes.len() == 0
    }

    /// Total bytes held.
    pub fn pool_bytes(&self) -> (r: usize)
        ensures
            r == self@.len(),
    {
        self.bytes.len()
    }

    /// The stored bytes.
    pub fn bytes(&self) -> (r: &[u8])
        ensures
            r@ == self@,
    {
        self.bytes.as_slice()
    }

    /// The bytes of slot `i`.
    pub fn slot_bytes(&self, i: usize) -> (r: &[u8])
        requires
            self.wf(),
            i < slot_count(self.dimension(), self@),
        ensures
            r@ == slot_at(self.dimension(), self@, i as int),
            r@.len() == stride_of(self.dimension()),
    {
        proof {
            lemma_inside(self.dim as int, self@, i as int);
        }
        let s: usize = self.stride();
        assert(self.bytes.len() == self@.len());
        let r: &[u8] = &self.bytes.as_slice()[i * s..i * s + s];
        r
    }

    /// The owning fact of slot `i`.
    pub fn slot_fact(&self, i: usize) -> (r: u32)
        requires
            self.wf(),
            i < slot_count(self.dimension(), self@),
        ensures
            r == fact_of(slot_at(self.dimension(), self@, i as int)),
    {
        get_u32(self.slot_bytes(i), 0)
    }

    /// The scale and the components of slot `i`: what a distance needs.
    pub fn quant(&self, i: usize) -> (r: (F32Bits, &[u8]))
        requires
            self.wf(),
            i < slot_count(self.dimension(), self@),
        ensures
            r.0 == scale_of(slot_at(self.dimension(), self@, i as int)),
            r.1@ == components_of(
                self.dimension(),
                slot_at(self.dimension(), self@, i as int),
            ),
            r.1@.len() == self.dimension(),
    {
        let slot: &[u8] = self.slot_bytes(i);
        let at: usize = HEAD + self.words() * 8;
        let q: &[u8] = &slot[at..slot.len()];
        assert(q@ =~= components_of(self.dim as int, slot@));
        (F32Bits(get_u32(slot, 4)), q)
    }

    /// Appends the quantized vector of `fact` and returns its slot number.
    pub fn push(&mut self, fact: FactId, scale: F32Bits, q: &[u8]) -> (r: Result<u32, Error>)
        requires
            old(self).wf(),
            old(self).dimension() > 0,
        ensures
            final(self).wf(),
            final(self).dimension() == old(self).dimension(),
            final(self).ceiling() == old(self).ceiling(),
            final(self).counted() == old(self).counted(),
            match r {
                Ok(slot) => slot_pushed(
                    old(self).dimension(),
                    old(self).ceiling(),
                    old(self)@,
                    fact.0,
                    scale,
                    q@,
                ) == Ok::<_, Error>((final(self)@, slot)),
                Err(e) => slot_pushed(
                    old(self).dimension(),
                    old(self).ceiling(),
                    old(self)@,
                    fact.0,
                    scale,
                    q@,
                ) == Err::<(Seq<u8>, u32), _>(e) && final(self)@ == old(self)@,
            },
    {
        let ghost pool = self@;
        let s: usize = self.stride();
        let n: usize = self.bytes.len();
        if s > self.max_bytes || n > self.max_bytes - s {
            return Err(Error::CapacityExceeded { what: "vectors" });
        }
        let count: usize = self.len();
        if count as u64 > u32::MAX as u64 {
            return Err(Error::CapacityExceeded { what: "vector slots" });
        }
        if q.len() != self.dim {
            return Err(Error::DimMismatch { got: q.len(), want: self.dim });
        }
        let w: usize = self.words();
        let total: usize = q.len();
        put_u32(&mut self.bytes, fact.0);
        put_u32(&mut self.bytes, scale.0);
        let mut i: usize = 0;
        let ghost head = pool + codec::le32(fact.0) + codec::le32(scale.0);
        assert(self.bytes@ =~= head + signature(q@, 0));
        while i < w
            invariant
                i <= w,
                total == q@.len(),
                w == words(total as int),
                self.bytes@ == head + signature(q@, i as nat),
                self.dim == old(self).dim,
                self.max_bytes == old(self).max_bytes,
                self.dots == old(self).dots,
            decreases w - i,
        {
            assert(i * 64 < total);
            let word: u64 = sig_word(q, i * 64);
            put_u64(&mut self.bytes, word);
            i = i + 1;
            assert(self.bytes@ =~= head + signature(q@, i as nat));
        }
        put_slice(&mut self.bytes, q);
        proof {
            let img = slot_image(fact.0, scale, q@);
            assert(self.bytes@ =~= pool + img);
            lemma_signature_len(q@, w as nat);
            codec::lemma_le_bytes_len(fact.0 as nat, 4);
            codec::lemma_le_bytes_len(scale.0 as nat, 4);
            assert(img.len() == s);
            vstd::arithmetic::div_mod::lemma_mod_add_multiples_vanish(pool.len() as int, s as int);
            assert((s + pool.len() as int) % (s as int) == pool.len() as int % (s as int));
        }
        Ok(count as u32)
    }

    /// Appends slot `i` of `src` as it stands and returns its new number. The
    /// ceiling does not stop a copy.
    pub fn copy_slot(&mut self, src: &VecPool, i: u32) -> (r: u32)
        requires
            old(self).wf(),
            src.wf(),
            old(self).dimension() == src.dimension(),
            i < slot_count(src.dimension(), src@),
        ensures
            final(self).wf(),
            final(self).dimension() == old(self).dimension(),
            final(self).ceiling() == old(self).ceiling(),
            final(self)@ == old(self)@ + slot_at(src.dimension(), src@, i as int),
            r == slot_count(old(self).dimension(), old(self)@) as u32,
    {
        let ghost pool = self@;
        let s: usize = self.stride();
        proof {
            src.lemma_wf();
            if src.dimension() == 0 {
                assert(slot_count(0, src@) == 0) by {
                    assert(stride_of(0) == 8);
                }
            }
        }
        let count: usize = self.len();
        let slot: &[u8] = src.slot_bytes(i as usize);
        put_slice(&mut self.bytes, slot);
        proof {
            vstd::arithmetic::div_mod::lemma_mod_add_multiples_vanish(pool.len() as int, s as int);
            assert((s + pool.len() as int) % (s as int) == pool.len() as int % (s as int));
        }
        count as u32
    }

    /// Rebuilds a pool from its stored section, checking only the framing.
    pub fn from_parts(dim: usize, max_bytes: usize, bytes: &[u8]) -> (r: Result<VecPool, Error>)
        requires
            dim_fits(dim as int),
        ensures
            match r {
                Ok(p) => p.wf() && p.dimension() == dim && p.ceiling() == max_bytes && pool_loaded(
                    dim as int,
                    max_bytes as int,
                    bytes@,
                ) == Ok::<_, Error>(p@),
                Err(e) => pool_loaded(dim as int, max_bytes as int, bytes@) == Err::<Seq<u8>, _>(e),
            },
    {
        if bytes.len() > max_bytes {
            return Err(Error::Corrupt("vector pool exceeds the configured ceiling"));
        }
        let mut pool: VecPool = VecPool::new(dim, max_bytes);
        if dim == 0 {
            if bytes.len() > 0 {
                return Err(Error::Corrupt("vector pool present with dim 0"));
            }
            return Ok(pool);
        }
        if bytes.len() % pool.stride() != 0 {
            return Err(Error::Corrupt("vector pool is not a whole number of slots"));
        }
        put_slice(&mut pool.bytes, bytes);
        assert(pool.bytes@ =~= bytes@);
        Ok(pool)
    }

    fn slot_sound(&self, slot: &[u8]) -> (r: bool)
        requires
            self.wf(),
            slot@.len() == stride_of(self.dimension()),
        ensures
            r == signature_agrees(self.dimension(), slot@, words(self.dimension())),
    {
        let w: usize = self.words();
        let at: usize = HEAD + w * 8;
        let q: &[u8] = &slot[at..slot.len()];
        assert(q@ =~= components_of(self.dim as int, slot@));
        let mut i: usize = 0;
        while i < w
            invariant
                i <= w,
                self.wf(),
                w == words(self.dimension()),
                slot@.len() == stride_of(self.dimension()),
                q@ == components_of(self.dimension(), slot@),
                q@.len() == self.dimension(),
                signature_agrees(self.dimension(), slot@, i as int),
            decreases w - i,
        {
            let stored: u64 = get_u64(slot, HEAD + i * 8);
            if stored != sig_word(q, i * 64) {
                assert(codec::num_at(slot@, HEAD + i * 8, 8) != sig_bits(q@, i * 64, 64));
                return false;
            }
            i = i + 1;
        }
        true
    }

    /// Checks every slot: its scale is finite and not negative, and its
    /// signature agrees with the signs of its components.
    pub fn validate(&self) -> (r: Result<(), Error>)
        requires
            self.wf(),
        ensures
            r == checked(self.dimension(), self@),
    {
        if self.dim == 0 {
            return Ok(());
        }
        let n: usize = self.len();
        let mut i: usize = 0;
        while i < n
            invariant
                i <= n,
                self.wf(),
                self.dim > 0,
                n == slot_count(self.dimension(), self@),
                pool_fault(self.dimension(), self@, i as nat) is None,
            decreases n - i,
        {
            let slot: &[u8] = self.slot_bytes(i);
            let scale: F32Bits = F32Bits(get_u32(slot, 4));
            let bad_scale: bool = !scale.is_weight();
            if bad_scale || !self.slot_sound(slot) {
                let ghost what = slot_fault(self.dimension(), slot@)->0;
                assert(pool_fault(self.dimension(), self@, (i + 1) as nat) == Some(what));
                proof {
                    lemma_fault_stays(self.dimension(), self@, (i + 1) as nat, n as nat);
                }
                if bad_scale {
                    return Err(
                        Error::Corrupt("vector slot scale is not finite and non-negative"),
                    );
                }
                return Err(Error::Corrupt("vector slot signature disagrees with its components"));
            }
            i = i + 1;
        }
        Ok(())
    }

    /// The slots a query for `k` results rescores: the nearest by sign
    /// signature, `max(4 * k, 64)` of them, as `(distance, slot)`.
    ///
    /// `query` is a whole slot; its fact is not looked at.
    pub fn candidates(&self, query: &[u8], k: usize) -> (r: Vec<(u32, u32)>)
        requires
            self.wf(),
            query@.len() == stride_of(self.dimension()),
            slot_count(self.dimension(), self@) <= u32::MAX,
            words(self.dimension()) * 64 <= u32::MAX,
        ensures
            r@ == by_distance(
                self.dimension(),
                self@,
                query@,
                slot_count(self.dimension(), self@) as nat,
            ).take(candidate_count(k as int, slot_count(self.dimension(), self@))),
    {
        let n: usize = self.len();
        let w: usize = self.words();
        let mut out: Vec<(u32, u32)> = Vec::new();
        let mut i: usize = 0;
        while i < n
            invariant
                i <= n,
                n <= u32::MAX,
                self.wf(),
                n == slot_count(self.dimension(), self@),
                w == words(self.dimension()),
                w * 64 <= u32::MAX,
                query@.len() == stride_of(self.dimension()),
                out@ == by_distance(self.dimension(), self@, query@, i as nat),
                out@.len() == i,
            decreases n - i,
        {
            let slot: &[u8] = self.slot_bytes(i);
            let d: u32 = distance(query, slot, w);
            insert_candidate(&mut out, (d, i as u32));
            i = i + 1;
        }
        let want: u128 = if 4 * (k as u128) > 64 { 4 * (k as u128) } else { 64 };
        if want < n as u128 {
            out.truncate(want as usize);
        }
        assert(out@ =~= by_distance(self.dimension(), self@, query@, n as nat).take(
            candidate_count(k as int, n as int),
        ));
        out
    }

    /// The dot product of `query`'s components and those of slot `i`; counted.
    pub fn dot_query(&mut self, query: &[u8], i: usize) -> (r: i32)
        requires
            old(self).wf(),
            old(self).dimension() <= 65536,
            query@.len() == old(self).dimension(),
            i < slot_count(old(self).dimension(), old(self)@),
        ensures
            final(self).wf(),
            final(self)@ == old(self)@,
            final(self).dimension() == old(self).dimension(),
            final(self).ceiling() == old(self).ceiling(),
            final(self).counted() == (if old(self).counted() == u64::MAX {
                u64::MAX as int
            } else {
                old(self).counted() + 1
            }),
            r == dot(
                query@,
                components_of(
                    old(self).dimension(),
                    slot_at(old(self).dimension(), old(self)@, i as int),
                ),
                query@.len(),
            ),
    {
        let r: i32 = dot_i8(query, self.quant(i).1);
        if self.dots < u64::MAX {
            self.dots = self.dots + 1;
        }
        r
    }

    /// The dot product of two slots' components; `0` when either is out of
    /// range.
    pub fn dot_slots(&self, a: u32, b: u32) -> (r: i32)
        requires
            self.wf(),
            self.dimension() <= 65536,
        ensures
            a < slot_count(self.dimension(), self@) && b < slot_count(self.dimension(), self@)
                ==> r == dot(
                components_of(self.dimension(), slot_at(self.dimension(), self@, a as int)),
                components_of(self.dimension(), slot_at(self.dimension(), self@, b as int)),
                self.dimension() as nat,
            ),
            !(a < slot_count(self.dimension(), self@) && b < slot_count(self.dimension(), self@))
                ==> r == 0,
    {
        let n: usize = self.len();
        if (a as usize) >= n || (b as usize) >= n {
            return 0;
        }
        dot_i8(self.quant(a as usize).1, self.quant(b as usize).1)
    }

    /// Dot products counted so far.
    pub fn dots(&self) -> (r: u64)
        ensures
            r == self.counted(),
    {
        self.dots
    }

    /// Resets the dot counter.
    pub fn reset_dots(&mut self)
        requires
            old(self).wf(),
        ensures
            final(self).wf(),
            final(self)@ == old(self)@,
            final(self).dimension() == old(self).dimension(),
            final(self).ceiling() == old(self).ceiling(),
            final(self).counted() == 0,
    {
        self.dots = 0;
    }
}

fn distance(a: &[u8], b: &[u8], w: usize) -> (r: u32)
    requires
        HEAD + w * 8 <= a@.len(),
        HEAD + w * 8 <= b@.len(),
        w * 64 <= u32::MAX,
    ensures
        r == hamming(a@, b@, w as nat),
{
    let mut n: u32 = 0;
    let mut i: usize = 0;
    while i < w
        invariant
            i <= w,
            w * 64 <= u32::MAX,
            HEAD + w * 8 <= a@.len(),
            HEAD + w * 8 <= b@.len(),
            n == hamming(a@, b@, i as nat),
            n <= i * 64,
        decreases w - i,
    {
        let x: u64 = get_u64(a, HEAD + i * 8);
        let y: u64 = get_u64(b, HEAD + i * 8);
        n = n + count_ones(x ^ y);
        i = i + 1;
    }
    n
}

proof fn lemma_cand_at(xs: Seq<(u32, u32)>, p: (u32, u32), at: int)
    requires
        0 <= at <= xs.len(),
        forall|k: int| at <= k < xs.len() ==> nearer(p, #[trigger] xs[k]),
        at > 0 ==> !nearer(p, xs[at - 1]),
    ensures
        cand_placed(xs, p) == xs.insert(at, p),
    decreases xs.len(),
{
    if at < xs.len() {
        lemma_cand_at(xs.drop_last(), p, at);
        assert(xs.drop_last().insert(at, p).push(xs.last()) =~= xs.insert(at, p));
    } else {
        assert(xs.push(p) =~= xs.insert(at, p));
    }
}

fn insert_candidate(out: &mut Vec<(u32, u32)>, p: (u32, u32))
    ensures
        final(out)@ == cand_placed(old(out)@, p),
        final(out)@.len() == old(out)@.len() + 1,
{
    let mut at: usize = out.len();
    while at > 0 && (p.0 < out[at - 1].0 || (p.0 == out[at - 1].0 && p.1 < out[at - 1].1))
        invariant
            at <= out@.len(),
            forall|k: int| at <= k < out@.len() ==> nearer(p, #[trigger] out@[k]),
        decreases at,
    {
        at = at - 1;
    }
    proof {
        lemma_cand_at(out@, p, at as int);
    }
    out.insert(at, p);
}

proof fn lemma_fault_stays(dim: int, pool: Seq<u8>, n: nat, m: nat)
    requires
        n <= m,
        pool_fault(dim, pool, n) is Some,
    ensures
        pool_fault(dim, pool, m) == pool_fault(dim, pool, n),
    decreases m - n,
{
    if n < m {
        lemma_fault_stays(dim, pool, n, (m - 1) as nat);
    }
}

/// What was stored is read back: the fact, the scale and the components of an
/// appended slot, whose signature agrees with its components.
pub proof fn slot_round_trip(fact: u32, scale: F32Bits, q: Seq<u8>)
    ensures
        slot_image(fact, scale, q).len() == stride_of(q.len() as int),
        fact_of(slot_image(fact, scale, q)) == fact,
        scale_of(slot_image(fact, scale, q)) == scale,
        components_of(q.len() as int, slot_image(fact, scale, q)) == q,
        signature_agrees(q.len() as int, slot_image(fact, scale, q), words(q.len() as int)),
{
    let dim = q.len() as int;
    let n = words(dim) as nat;
    let img = slot_image(fact, scale, q);
    lemma_signature_len(q, n);
    codec::lemma_pow256();
    codec::lemma_le_bytes_len(fact as nat, 4);
    codec::lemma_le_bytes_len(scale.0 as nat, 4);
    assert(components_of(dim, img) =~= q);
    let b1 = codec::le32(fact);
    let b2 = b1 + codec::le32(scale.0);
    let b3 = b2 + signature(q, n);
    assert(codec::has_at(img, 0, img)) by {
        reveal(codec::has_at);
        assert(img.subrange(0, img.len() as int) =~= img);
    }
    codec::lemma_has_split(img, 0, b3, q);
    codec::lemma_has_split(img, 0, b2, signature(q, n));
    codec::lemma_has_split(img, 0, b1, codec::le32(scale.0));
    codec::lemma_num_at(img, 0, fact as nat, 4);
    codec::lemma_num_at(img, 4, scale.0 as nat, 4);
    assert forall|w: int| 0 <= w < n implies #[trigger] codec::num_at(img, HEAD + w * 8, 8)
        == sig_bits(q, w * 64, 64) by {
        lemma_word_at(img, q, n, w);
    }
}

proof fn lemma_word_at(img: Seq<u8>, q: Seq<u8>, n: nat, w: int)
    requires
        0 <= w < n,
        codec::has_at(img, HEAD as int, signature(q, n)),
    ensures
        codec::num_at(img, HEAD + w * 8, 8) == sig_bits(q, w * 64, 64),
    decreases n,
{
    codec::lemma_pow256();
    let front = signature(q, (n - 1) as nat);
    let word = sig_bits(q, (n - 1) * 64, 64);
    lemma_signature_len(q, (n - 1) as nat);
    codec::lemma_has_split(img, HEAD as int, front, codec::le64(word));
    if w == n - 1 {
        codec::lemma_num_at(img, HEAD + w * 8, word as nat, 8);
    } else {
        lemma_word_at(img, q, (n - 1) as nat, w);
    }
}

/// A pool read back from its own bytes is the same pool.
pub proof fn pool_round_trip(dim: int, max_bytes: int, pool: Seq<u8>)
    requires
        0 <= dim,
        dim == 0 ==> pool.len() == 0,
        pool.len() as int % stride_of(dim) == 0,
        pool.len() <= max_bytes,
    ensures
        pool_loaded(dim, max_bytes, pool) == Ok::<_, Error>(pool),
{
    assert(dim == 0 ==> pool =~= Seq::empty());
}

} // verus!
