//! Metadata blobs.

use plugmem_core::error::Error;
use plugmem_core::metadata::{decode, encode};

#[test]
fn encode_sorts_keys_and_round_trips() {
    // Deliberately unsorted input: the encoder fixes the order.
    let pairs = [
        ("uri", "s3://b/x"),
        ("mime", "application/pdf"),
        ("page", "3"),
    ];
    let bytes = encode(&pairs).unwrap();
    let mut out = Vec::new();
    decode(&bytes, &mut out).unwrap();
    assert_eq!(
        out,
        vec![
            ("mime", "application/pdf"),
            ("page", "3"),
            ("uri", "s3://b/x"),
        ]
    );
}

#[test]
fn empty_map_encodes_to_a_count_of_zero() {
    let bytes = encode(&[]).unwrap();
    assert_eq!(bytes, 0u32.to_le_bytes());
    let mut out = vec![("stale", "stale")];
    decode(&bytes, &mut out).unwrap();
    assert!(out.is_empty());
}

#[test]
fn duplicate_key_is_rejected() {
    let err = encode(&[("k", "a"), ("k", "b")]).unwrap_err();
    assert!(matches!(err, Error::Invalid(_)));
}

#[test]
fn decode_rejects_unsorted_or_duplicate_keys() {
    // Hand-built blob with descending keys must not decode.
    let mut bad = Vec::new();
    bad.extend_from_slice(&2u32.to_le_bytes());
    for (k, v) in [("b", "1"), ("a", "2")] {
        bad.extend_from_slice(&(k.len() as u32).to_le_bytes());
        bad.extend_from_slice(k.as_bytes());
        bad.extend_from_slice(&(v.len() as u32).to_le_bytes());
        bad.extend_from_slice(v.as_bytes());
    }
    let mut out = Vec::new();
    assert!(matches!(decode(&bad, &mut out), Err(Error::Corrupt(_))));
}

#[test]
fn decode_rejects_truncation_and_trailing_bytes() {
    let bytes = encode(&[("k", "v")]).unwrap();
    let mut out = Vec::new();
    assert!(matches!(
        decode(&bytes[..bytes.len() - 1], &mut out),
        Err(Error::Corrupt(_))
    ));
    let mut extra = bytes.clone();
    extra.push(0);
    assert!(matches!(decode(&extra, &mut out), Err(Error::Corrupt(_))));
}

#[test]
fn decode_rejects_non_utf8_key() {
    let mut bad = Vec::new();
    bad.extend_from_slice(&1u32.to_le_bytes());
    bad.extend_from_slice(&1u32.to_le_bytes());
    bad.push(0xff); // not UTF-8
    bad.extend_from_slice(&0u32.to_le_bytes());
    let mut out = Vec::new();
    assert!(matches!(decode(&bad, &mut out), Err(Error::Corrupt(_))));
}

#[test]
fn a_blob_has_exactly_these_bytes() {
    let bytes = encode(&[("b", ""), ("a", "xy")]).unwrap();
    assert_eq!(
        bytes,
        [
            2, 0, 0, 0, 1, 0, 0, 0, b'a', 2, 0, 0, 0, b'x', b'y', 1, 0, 0, 0, b'b', 0, 0, 0, 0
        ]
    );
}

#[test]
fn every_order_gives_the_same_bytes() {
    let a = encode(&[("x", "1"), ("y", "2"), ("z", "3")]).unwrap();
    let b = encode(&[("z", "3"), ("x", "1"), ("y", "2")]).unwrap();
    assert_eq!(a, b);
    let mut pairs = Vec::new();
    decode(&a, &mut pairs).unwrap();
    assert_eq!(encode(&pairs).unwrap(), a);
}
