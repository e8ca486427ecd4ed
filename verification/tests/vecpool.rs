//! The quantized vector pool.

use plugmem_core::error::Error;
use plugmem_core::float::F32Bits;
use plugmem_core::id::FactId;
use plugmem_core::index::rank::rank_top;
use plugmem_core::index::vecpool::{check_vector, dot_i8, VecPool, HEAD};

/// Scales a vector to unit length and quantizes its components to `i8`.
fn quantize(dim: usize, v: &[f32]) -> Result<(F32Bits, Vec<u8>), Error> {
    let bits: Vec<F32Bits> = v.iter().map(|x| F32Bits(x.to_bits())).collect();
    check_vector(dim, &bits)?;
    let norm = v.iter().fold(0.0f32, |sum, &x| sum + x * x).sqrt();
    let inv = 1.0 / norm;
    let max_abs = v.iter().fold(0.0f32, |m, &x| m.max((x * inv).abs()));
    let scale = max_abs / 127.0;
    let q = v
        .iter()
        .map(|&x| ((x * inv) / scale).round().clamp(-127.0, 127.0) as i32 as i8 as u8)
        .collect();
    Ok((F32Bits(scale.to_bits()), q))
}

fn push(pool: &mut VecPool, dim: usize, fact: u32, v: &[f32]) -> Result<u32, Error> {
    let (scale, q) = quantize(dim, v)?;
    pool.push(FactId(fact), scale, &q)
}

fn cosine(pool: &VecPool, a: u32, b: u32) -> f32 {
    let n = pool.len();
    if a as usize >= n || b as usize >= n {
        return 0.0;
    }
    let sa = f32::from_bits(pool.quant(a as usize).0 .0);
    let sb = f32::from_bits(pool.quant(b as usize).0 .0);
    sa * sb * pool.dot_slots(a, b) as f32
}

/// The two phases of a search: candidates by signature, then the exact
/// quantized cosine.
fn search(pool: &mut VecPool, dim: usize, query: &[f32], k: usize) -> Vec<(FactId, f32)> {
    if pool.is_empty() || k == 0 {
        return Vec::new();
    }
    let (scale, q) = quantize(dim, query).unwrap();
    let mut probe = VecPool::new(dim, usize::MAX);
    probe.push(FactId(0), scale, &q).unwrap();
    let slot = probe.slot_bytes(0).to_vec();
    let mut scored = Vec::new();
    for (_, at) in pool.candidates(&slot, k) {
        let s = f32::from_bits(pool.quant(at as usize).0 .0);
        let dot = pool.dot_query(&q, at as usize);
        let score = f32::from_bits(scale.0) * s * dot as f32;
        scored.push((F32Bits(score.to_bits()), pool.slot_fact(at as usize)));
    }
    rank_top(&scored, k)
        .iter()
        .map(|x| (FactId(x.1), f32::from_bits(x.0 .0)))
        .collect()
}

/// A tiny deterministic generator of numbers in `[-1, 1)`.
struct Lcg(u64);
impl Lcg {
    fn next(&mut self) -> f32 {
        self.0 = self
            .0
            .wrapping_mul(6_364_136_223_846_793_005)
            .wrapping_add(1_442_695_040_888_963_407);
        ((self.0 >> 40) as f32 / (1u64 << 24) as f32) * 2.0 - 1.0
    }
    fn vector(&mut self, dim: usize) -> Vec<f32> {
        (0..dim).map(|_| self.next()).collect()
    }
}

fn cosine_f32(a: &[f32], b: &[f32]) -> f32 {
    let dot: f32 = a.iter().zip(b).map(|(x, y)| x * y).sum();
    let na: f32 = a.iter().map(|x| x * x).sum::<f32>().sqrt();
    let nb: f32 = b.iter().map(|x| x * x).sum::<f32>().sqrt();
    dot / (na * nb)
}

/// The quantized cosine tracks the true cosine within the documented
/// error band across many random pairs.
#[test]
fn quantized_cosine_tracks_f32() {
    let dim = 384;
    let mut rng = Lcg(0x1234_5678);
    let mut worst = 0.0f32;
    for i in 0..200u32 {
        let a = rng.vector(dim);
        let b = rng.vector(dim);
        let mut pool = VecPool::new(dim, usize::MAX);
        push(&mut pool, dim, 2 * i, &a).unwrap();
        push(&mut pool, dim, 2 * i + 1, &b).unwrap();
        let q = cosine(&pool, 0, 1);
        let t = cosine_f32(&a, &b);
        worst = worst.max((q - t).abs());
    }
    assert!(
        worst < 0.05,
        "worst quantization error {worst} exceeds 0.05"
    );
}

/// Golden: a hand-built dim-4 example. `a` and `b` share a direction,
/// `c` is orthogonal-ish; quantized cosine ranks them accordingly and
/// the sign signature matches the component signs.
#[test]
fn golden_dim4() {
    let dim = 4;
    let mut pool = VecPool::new(dim, usize::MAX);
    push(&mut pool, dim, 0, &[1.0, 1.0, 0.0, 0.0]).unwrap();
    push(&mut pool, dim, 1, &[2.0, 2.0, 0.0, 0.0]).unwrap(); // same direction
    push(&mut pool, dim, 2, &[0.0, 0.0, 1.0, 1.0]).unwrap(); // orthogonal
    // Parallel vectors: cosine near 1.
    assert!((cosine(&pool, 0, 1) - 1.0).abs() < 1e-3);
    // Orthogonal vectors: cosine near 0.
    assert!(cosine(&pool, 0, 2).abs() < 1e-3);
    // Structural self-check passes and the signature is well-formed.
    pool.validate().unwrap();
    // Slot 0 signature: components (positive, positive, +0, +0), so all
    // sign bits are set for the first four bits.
    let stride = pool.stride();
    let sig = u64::from_le_bytes(pool.bytes()[HEAD..HEAD + 8].try_into().unwrap());
    assert_eq!(sig & 0b1111, 0b1111);
    assert_eq!(pool.len(), 3);
    assert_eq!(stride, HEAD + 8 + 4);
}

/// The two-phase search returns the true nearest neighbor at the top.
#[test]
fn search_surfaces_the_nearest() {
    let dim = 64;
    let mut rng = Lcg(0xdead_beef);
    let mut pool = VecPool::new(dim, usize::MAX);
    let target = rng.vector(dim);
    // 200 random vectors, then the target itself as fact 500.
    for i in 0..200u32 {
        push(&mut pool, dim, i, &rng.vector(dim)).unwrap();
    }
    push(&mut pool, dim, 500, &target).unwrap();
    let out = search(&mut pool, dim, &target, 5);
    assert_eq!(out[0].0, FactId(500), "exact match must rank first");
    assert!(out[0].1 > 0.99, "self-cosine near 1, got {}", out[0].1);
    // Every survivor of the first phase was rescored once.
    assert_eq!(pool.dots(), 64);
    pool.reset_dots();
    assert_eq!(pool.dots(), 0);
}

/// A zero or non-finite vector has no direction to quantize.
#[test]
fn degenerate_vectors_are_invalid() {
    let dim = 3;
    let mut pool = VecPool::new(dim, usize::MAX);
    assert_eq!(
        push(&mut pool, dim, 0, &[0.0, 0.0, 0.0]).unwrap_err(),
        Error::Invalid("vector must be nonzero")
    );
    assert_eq!(
        push(&mut pool, dim, 0, &[1.0, f32::NAN, 0.0]).unwrap_err(),
        Error::Invalid("vector must be finite")
    );
    assert!(matches!(
        pool.push(FactId(0), F32Bits(0x3f80_0000), &[1, 2]).unwrap_err(),
        Error::DimMismatch { got: 2, want: 3 }
    ));
    // A failed push leaves the pool canonical (nothing appended).
    assert_eq!(pool.len(), 0);
    assert!(pool.bytes().is_empty());
}

/// Accessors and the edge branches: empty pool, `k == 0`, an
/// out-of-range cosine, and the byte ceiling.
#[test]
fn accessors_and_edges() {
    let dim = 4;
    let mut pool = VecPool::new(dim, usize::MAX);
    assert!(pool.is_empty());
    assert_eq!(pool.pool_bytes(), 0);
    // Empty pool: a search returns nothing.
    assert!(search(&mut pool, dim, &[1.0; 4], 5).is_empty());

    push(&mut pool, dim, 0, &[1.0, 0.0, 0.0, 0.0]).unwrap();
    assert!(!pool.is_empty());
    assert_eq!(pool.pool_bytes(), pool.stride());
    // k == 0 short-circuits.
    assert!(search(&mut pool, dim, &[1.0; 4], 0).is_empty());
    // An out-of-range slot index yields a zero cosine, never a panic.
    assert_eq!(cosine(&pool, 0, 9), 0.0);

    // The byte ceiling: a push past `max_bytes` is a typed error.
    let mut tight = VecPool::new(dim, 4);
    assert_eq!(
        push(&mut tight, dim, 0, &[1.0, 0.0, 0.0, 0.0]).unwrap_err(),
        Error::CapacityExceeded { what: "vectors" }
    );
}

/// `from_parts` accepts a whole number of slots and rejects the rest.
#[test]
fn from_parts_frames_slots() {
    let dim = 8;
    let mut pool = VecPool::new(dim, usize::MAX);
    push(&mut pool, dim, 0, &vec![0.5; dim]).unwrap();
    push(&mut pool, dim, 1, &vec![-0.5; dim]).unwrap();
    let bytes = pool.bytes().to_vec();
    let rebuilt = VecPool::from_parts(dim, usize::MAX, &bytes).unwrap();
    assert_eq!(rebuilt.len(), 2);
    rebuilt.validate().unwrap();
    // One byte short of a slot boundary is corrupt.
    assert!(VecPool::from_parts(dim, usize::MAX, &bytes[..bytes.len() - 1]).is_err());
    // A non-empty pool with dim 0 is corrupt.
    assert!(VecPool::from_parts(0, usize::MAX, &bytes).is_err());
    // Bytes past the configured ceiling are corrupt.
    assert!(VecPool::from_parts(dim, bytes.len() - 1, &bytes).is_err());
}

/// The structural self-check rejects malformed slots.
#[test]
fn validate_rejects_malformed_slots() {
    let dim = 8;
    let mut pool = VecPool::new(dim, usize::MAX);
    push(&mut pool, dim, 0, &vec![0.5; dim]).unwrap();
    let good = pool.bytes().to_vec();

    // A non-finite scale (bytes 4..8) is rejected.
    let mut bad = good.clone();
    bad[4..8].copy_from_slice(&f32::NAN.to_le_bytes());
    assert!(
        VecPool::from_parts(dim, usize::MAX, &bad)
            .unwrap()
            .validate()
            .is_err()
    );

    // A signature bit that disagrees with its component's sign is
    // rejected: flip one i8 component negative without touching sig.
    let mut bad = good.clone();
    let q_off = HEAD + dim.div_ceil(64) * 8;
    bad[q_off] = (-1i8) as u8; // was positive (sig bit 0 set)
    assert!(
        VecPool::from_parts(dim, usize::MAX, &bad)
            .unwrap()
            .validate()
            .is_err()
    );
}

#[test]
fn dot_products_are_signed() {
    assert_eq!(dot_i8(&[127, 129, 0], &[127, 129, 5]), 127 * 127 + 127 * 127);
    assert_eq!(dot_i8(&[255, 2], &[3, 4]), -3 + 8);
    assert_eq!(dot_i8(&[], &[1]), 0);
}

/// The zeros of either sign give no direction; the smallest number does.
#[test]
fn only_the_zero_vector_has_no_direction() {
    let bits = |v: &[f32]| v.iter().map(|x| F32Bits(x.to_bits())).collect::<Vec<_>>();
    assert_eq!(
        check_vector(2, &bits(&[0.0, -0.0])).unwrap_err(),
        Error::Invalid("vector must be nonzero")
    );
    assert!(check_vector(2, &bits(&[0.0, f32::from_bits(1)])).is_ok());
    assert_eq!(
        check_vector(2, &bits(&[f32::INFINITY, 0.0])).unwrap_err(),
        Error::Invalid("vector must be finite")
    );
    assert!(matches!(
        check_vector(3, &bits(&[1.0])).unwrap_err(),
        Error::DimMismatch { got: 1, want: 3 }
    ));
}
