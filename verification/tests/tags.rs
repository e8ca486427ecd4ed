//! The tag catalog, its pages and their cursors.

use plugmem_core::error::Error;
use plugmem_core::id::TermId;
use plugmem_core::interner::Interner;
use plugmem_core::memory::tags::{TagCatalog, TagQuery};
use plugmem_core::storage::MemStorage;
use plugmem_core::{Config, FactId, Memory, RememberInput};

fn config() -> Config {
    let mut cfg = Config::default();
    cfg.max_bytes = 1 << 20;
    cfg
}

fn terms(names: &[&str]) -> Interner {
    let mut t = Interner::new(1 << 20, 1 << 16);
    for n in names {
        t.intern(n).unwrap();
    }
    t
}

fn names(c: &TagCatalog, t: &Interner, q: TagQuery<'_>) -> (Vec<(String, u32)>, Option<String>) {
    let p = c.page(t, 7, q).unwrap();
    (p.items.into_iter().map(|x| (x.name, x.count)).collect(), p.next_cursor)
}

#[test]
fn counts_follow_changes() {
    let t = terms(&["b", "a", "c"]);
    let mut c = TagCatalog::new();
    assert_eq!(c.count(&t, TermId(0)), 0);
    c.change(&t, TermId(0), 2);
    c.change(&t, TermId(1), 1);
    c.change(&t, TermId(0), -1);
    c.change(&t, TermId(2), -5);
    assert_eq!(c.count(&t, TermId(0)), 1);
    assert_eq!(c.count(&t, TermId(1)), 1);
    assert_eq!(c.count(&t, TermId(2)), 0);
    c.change(&t, TermId(0), i32::MAX);
    c.change(&t, TermId(0), i32::MAX);
    c.change(&t, TermId(0), 5);
    assert_eq!(c.count(&t, TermId(0)), u32::MAX);
    let (items, next) = names(&c, &t, TagQuery::default());
    assert_eq!(items, vec![("a".to_string(), 1), ("b".to_string(), u32::MAX)]);
    assert!(next.is_none());
}

#[test]
fn pages_join_up_over_many_runs() {
    let all: Vec<String> = (0..1000).map(|i| format!("tag{:04}", (i * 7) % 1000)).collect();
    let refs: Vec<&str> = all.iter().map(|s| s.as_str()).collect();
    let t = terms(&refs);
    let mut c = TagCatalog::from_counts(&vec![(TermId(0), 3), (TermId(5), 0)], &t);
    for i in 0..1000u32 {
        c.change(&t, TermId(i), 1 + (i % 3) as i32);
    }
    for i in (0..1000u32).step_by(2) {
        c.change(&t, TermId(i), -3);
    }
    let mut seen: Vec<(String, u32)> = Vec::new();
    let mut cursor: Option<String> = None;
    loop {
        let q = TagQuery { prefix: Some("tag0"), cursor: cursor.as_deref(), limit: 17 };
        let (items, next) = names(&c, &t, q);
        assert!(items.len() <= 17);
        seen.extend(items);
        match next {
            Some(n) => cursor = Some(n),
            None => break,
        }
    }
    let mut want: Vec<(String, u32)> = (0..1000u32)
        .map(|i| (refs[i as usize].to_string(), c.count(&t, TermId(i))))
        .filter(|x| x.1 > 0 && x.0.starts_with("tag0"))
        .collect();
    want.sort();
    assert_eq!(seen, want);
    // The stored catalog loads back with the same counts.
    let bytes = c.dump(&t);
    let d = TagCatalog::load(&bytes, &t).unwrap();
    for i in 0..1000u32 {
        assert_eq!(c.count(&t, TermId(i)), d.count(&t, TermId(i)));
    }
    // And a cursor of one continues in the other.
    let (first, next) = names(&c, &t, TagQuery::default());
    assert_eq!(first.len(), 64);
    let next = next.unwrap();
    let q = TagQuery { cursor: Some(&next), ..TagQuery::default() };
    assert_eq!(names(&c, &t, q), names(&d, &t, q));
}

#[test]
fn cursors_are_checked() {
    let t = terms(&["a", "b", "c"]);
    let mut c = TagCatalog::new();
    for i in 0..3 {
        c.change(&t, TermId(i), 1);
    }
    let (_, next) = names(&c, &t, TagQuery { limit: 1, ..TagQuery::default() });
    let cur = next.unwrap();
    assert_eq!(cur.len(), 2 + 1 + 16 + 1 + 16 + 1 + 32 + 1 + 8 + 1 + 16);
    assert!(cur.starts_with("t1:"));
    let q = TagQuery { cursor: Some(&cur), limit: 1, ..TagQuery::default() };
    assert_eq!(names(&c, &t, q).0, vec![("b".to_string(), 1)]);
    // Upper case and a plus sign are the same number.
    let loud = cur.to_uppercase().replacen("T1:", "t1:+", 1);
    let q2 = TagQuery { cursor: Some(&loud), ..q };
    assert_eq!(names(&c, &t, q2).0, vec![("b".to_string(), 1)]);
    // Another database, another prefix, another state: stale.
    assert_eq!(c.page(&t, 8, q).err().unwrap(), Error::StaleCursor);
    let q3 = TagQuery { prefix: Some("b"), ..q };
    assert_eq!(c.page(&t, 7, q3).err().unwrap(), Error::StaleCursor);
    c.change(&t, TermId(2), 1);
    assert_eq!(c.page(&t, 7, q).err().unwrap(), Error::StaleCursor);
    for bad in ["", "t1", "t1:0:0:0:0", "t2:0:0:0:0:0", "t1:0:0:0:0:0:0", "t1:x:0:0:0:0", "t1:0:0:0:100000000:0", "t1:+:0:0:0:0"] {
        let q = TagQuery { cursor: Some(bad), ..TagQuery::default() };
        assert_eq!(c.page(&t, 7, q).err().unwrap(), Error::Invalid("malformed tag cursor"));
    }
    let q = TagQuery { limit: 257, ..TagQuery::default() };
    assert_eq!(
        c.page(&t, 7, q).err().unwrap(),
        Error::TooLarge { what: "tag page limit", len: 257, max: 256 }
    );
}

#[test]
fn a_stored_catalog_is_checked() {
    let t = terms(&["a", "b"]);
    let entry = |term: u32, count: u32| {
        let mut v = term.to_le_bytes().to_vec();
        v.extend(count.to_le_bytes());
        v
    };
    let err = |b: &[u8]| TagCatalog::load(b, &t).err().unwrap();
    assert_eq!(err(&[0; 7]), Error::Corrupt("tag catalog is not an entry sequence"));
    assert_eq!(err(&entry(2, 1)), Error::Corrupt("tag catalog entry is invalid"));
    assert_eq!(err(&entry(0, 0)), Error::Corrupt("tag catalog entry is invalid"));
    let back = [entry(1, 1), entry(0, 1)].concat();
    assert_eq!(err(&back), Error::Corrupt("tag catalog is not strictly sorted"));
    let good = [entry(0, 4), entry(1, 1)].concat();
    let c = TagCatalog::load(&good, &t).unwrap();
    assert_eq!((c.count(&t, TermId(0)), c.count(&t, TermId(1))), (4, 1));
    assert_eq!(c.dump(&t), good);
}

#[test]
fn new_terms_keep_cursors_valid() {
    let mut t = terms(&["m", "n"]);
    let mut c = TagCatalog::new();
    c.change(&t, TermId(0), 1);
    c.change(&t, TermId(1), 1);
    let (_, next) = names(&c, &t, TagQuery { limit: 1, ..TagQuery::default() });
    let cur = next.unwrap();
    t.intern("a").unwrap();
    let q = TagQuery { cursor: Some(&cur), ..TagQuery::default() };
    assert_eq!(names(&c, &t, q).0, vec![("n".to_string(), 1)]);
}

#[test]
fn the_engine_counts_current_facts() {
    let mut m = Memory::new(config()).unwrap();
    let mut s = MemStorage::new();
    for (i, tags) in [&["x", "y"][..], &["x"][..], &["z"][..]].iter().enumerate() {
        let input = RememberInput { tags, ..RememberInput::text(i as u64, "t") };
        m.remember(&mut s, input).unwrap();
    }
    m.forget(&mut s, 5, FactId(2)).unwrap();
    m.revise(&mut s, FactId(1), RememberInput::text(6, "u")).unwrap();
    let page = m.tags(1, TagQuery::default()).unwrap();
    let got: Vec<(&str, u32)> = page.items.iter().map(|x| (x.name.as_str(), x.count)).collect();
    assert_eq!(got, vec![("x", 1), ("y", 1)]);
    assert!(page.next_cursor.is_none());
}
