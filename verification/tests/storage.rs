//! The in-memory storage implementations.

use plugmem_core::storage::{MemScratch, MemStorage, Scratch, Storage};

#[test]
fn mem_scratch_builds_and_freezes_to_the_concatenation() {
    let mut s = MemScratch::new();
    assert!(s.is_empty());
    s.write(b"hello ").unwrap();
    s.write(b"world").unwrap();
    assert_eq!(s.len(), 11);
    assert!(!s.is_empty());
    // freeze returns every written byte, in order, as one slice.
    assert_eq!(s.freeze().unwrap(), b"hello world");
    // random read into the frozen view.
    assert_eq!(&s.freeze().unwrap()[6..], b"world");
}

#[test]
fn mem_storage_keeps_snapshot_and_journal_apart() {
    let mut s = MemStorage::new();
    assert!(s.read_snapshot().unwrap().is_none());
    s.append_journal(b"one").unwrap();
    s.append_journal(b"two").unwrap();
    assert_eq!(s.read_journal().unwrap(), b"onetwo");
    s.write_snapshot(b"image").unwrap();
    assert_eq!(s.read_snapshot().unwrap().unwrap(), b"image");
    assert_eq!(s.read_journal().unwrap(), b"onetwo");
    s.clear_journal().unwrap();
    assert!(s.read_journal().unwrap().is_empty());
    assert_eq!(s.read_snapshot().unwrap().unwrap(), b"image");
}
