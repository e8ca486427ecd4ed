//! The tokenizer over its Unicode data, and the hash.

use plugmem_core::index::varint::{decode_u32, encode_u32, MAX_VARINT};
use plugmem_core::index::{intersect, IntersectScratch};
use plugmem_core::index::postings::PostingStore;
use plugmem_core::snapshot::{build_prefix, pad_len, SnapshotWriter, SectionMeta, Snapshot};
use plugmem_core::tokenizer::policy::TokenizerPolicy;
use plugmem_core::tokenizer::{tokenize, Tokenizer};
use plugmem_core::FactId;

#[test]
fn words_are_folded() {
    assert_eq!(tokenize("Hello, WORLD!"), vec!["hello", "world"]);
    // Compatibility forms and diacritics.
    assert_eq!(Tokenizer::new().tokenize("Crème BRÛLÉE"), vec!["creme", "brulee"]);
    assert_eq!(
        Tokenizer::with_policy(TokenizerPolicy::unicode()).tokenize("Crème"),
        vec!["crème"]
    );
    assert_eq!(Tokenizer::new().tokenize("ёлка"), vec!["елка"]);
    assert_eq!(
        Tokenizer::with_policy(TokenizerPolicy::unicode()).tokenize("Ёлка"),
        vec!["ёлка"]
    );
    assert_eq!(Tokenizer::new().tokenize("ﬁne Ｗide"), vec!["fine", "wide"]);
    assert!(Tokenizer::new().tokenize("... — !").is_empty());
    assert_eq!(Tokenizer::new().policy(), TokenizerPolicy::search());
}

#[test]
fn digests_are_xxh3() {
    // The stored hash of a section is the XXH3-64 digest of its body.
    let mut w = SnapshotWriter::new();
    w.section(9, b"hello".to_vec()).unwrap();
    assert!(w.section(9, Vec::new()).is_err());
    let image = w.finish(b"cfg", 0, 5, "v");
    let want = xxhash_rust::xxh3::xxh3_64(b"hello").to_le_bytes();
    assert!(image.windows(8).any(|x| x == want));
    let snap = Snapshot::parse(&image).unwrap();
    assert_eq!(snap.section(9), Some(&b"hello"[..]));
    assert_eq!(snap.section(8), None);
    assert_eq!(snap.config(), b"cfg");
    assert_eq!(snap.engine_ver(), "v");
    let meta = SectionMeta { kind: 9, len: 5, hash: xxhash_rust::xxh3::xxh3_64(b"hello") };
    let p = build_prefix(b"cfg", 0, 5, "v", &[meta]);
    assert_eq!(p.file_len, image.len() as u64);
    assert_eq!(&image[p.offsets[0] as usize..p.offsets[0] as usize + 5], b"hello");
    assert_eq!((p.offsets[0] + 5 + pad_len(p.offsets[0], 5) as u64) % 8, 0);
}

/// Checksums are written anew; nothing else of a parsed file changes.
#[test]
fn only_checksums_change_in_a_rewrite() {
    let mut w = SnapshotWriter::new();
    w.section(9, b"hello".to_vec()).unwrap();
    let image = w.finish(b"cfg", 0, 5, "v");
    let mut damaged = image.clone();
    damaged[20] ^= 1;
    damaged[128 + 24] ^= 1;
    let snap = Snapshot::parse(&damaged).unwrap();
    let mut again = SnapshotWriter::new();
    again.section(9, snap.section(9).unwrap().to_vec()).unwrap();
    let bytes = again.finish(snap.config(), snap.flags(), snap.created_at(), snap.engine_ver());
    assert_eq!(bytes, image);
    let changed: Vec<usize> = (0..bytes.len()).filter(|&i| bytes[i] != damaged[i]).collect();
    assert_eq!(changed, vec![20, 152]);
}

#[test]
fn varints_round_trip() {
    for v in [0u32, 1, 127, 128, 300, 16_383, 16_384, u32::MAX] {
        let mut out = [0u8; MAX_VARINT];
        let n = encode_u32(v, &mut out);
        assert_eq!(decode_u32(&out[..n]), Some((v, n)));
    }
    assert_eq!(encode_u32(300, &mut [0u8; MAX_VARINT]), 2);
    assert_eq!(decode_u32(&[0x80]), None);
}

#[test]
fn intersection_keeps_what_is_on_every_list() {
    let mut s: PostingStore<false> = PostingStore::new(1 << 16);
    for (key, ids) in [(1u32, vec![1u32, 3, 5, 9]), (2, vec![3, 4, 5]), (3, vec![5, 9])] {
        for id in ids {
            s.push(key, FactId(id), 1).unwrap();
        }
    }
    let mut out: Vec<FactId> = Vec::new();
    let mut scratch = IntersectScratch::new();
    intersect(&s, &[1, 2], &mut scratch, &mut out);
    assert_eq!(out, vec![FactId(3), FactId(5)]);
    intersect(&s, &[1, 2, 3], &mut scratch, &mut out);
    assert_eq!(out, vec![FactId(5)]);
    intersect(&s, &[1, 7], &mut scratch, &mut out);
    assert!(out.is_empty());
}

#[test]
fn plain_tokens_are_their_own() {
    let text = "Ein Haus, 東京 42";
    let found = tokenize(text);
    assert_eq!(found, ["ein", "haus", "東", "京", "42"]);
    for token in &found {
        assert_eq!(&tokenize(token), std::slice::from_ref(token));
    }
    let joined = format!("{text} am See");
    assert_eq!(tokenize(&joined), [found, tokenize("am See")].concat());
}
