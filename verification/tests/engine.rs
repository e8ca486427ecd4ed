//! The verbs of the engine, its journal and its snapshots.

use plugmem_core::id::NONE_U32;
use plugmem_core::index::hnsw::HnswGraph;
use plugmem_core::index::insertion::Insertion;
use plugmem_core::index::vecpool::VecPool;
use plugmem_core::journal::{scan, Op};
use plugmem_core::memory::maintain::{MaintenanceMode, MaintenanceOptions};
use plugmem_core::memory::migrations::decode_engine_state;
use plugmem_core::memory::reembed::{embed_batches, embed_requests};
use plugmem_core::snapshot::Snapshot;
use plugmem_core::storage::{MemStorage, Storage};
use plugmem_core::{
    Config, Error, F32Bits, FactId, LinkInput, Memory, RememberInput, VALID_TO_OPEN,
};

fn config() -> Config {
    let mut cfg = Config::default();
    cfg.max_bytes = 1 << 20;
    cfg
}

fn fresh() -> (Memory, MemStorage) {
    (Memory::new(config()).unwrap(), MemStorage::new())
}

fn about<'a>(now: u64, text: &'a str, entity: &'a str) -> RememberInput<'a> {
    RememberInput {
        entity: Some(entity),
        ..RememberInput::text(now, text)
    }
}

#[test]
fn a_remembered_fact_reads_back() {
    let (mut m, mut s) = fresh();
    let out = m
        .remember(
            &mut s,
            RememberInput {
                tags: &["home", "cat", "home"],
                valid_from: Some(50),
                ..about(100, "Mara keeps a cat", "Mara")
            },
        )
        .unwrap();
    assert_eq!(out.id, FactId(0));
    let v = m.get(out.id).unwrap();
    assert_eq!(v.text, "Mara keeps a cat");
    assert_eq!(v.record.recorded_at, 100);
    assert_eq!(v.record.valid_from, 50);
    assert_eq!(v.record.valid_to, VALID_TO_OPEN);
    let tags: Vec<&str> = m.tags_of(out.id).iter().map(|&t| m.term(t)).collect();
    assert_eq!(tags, vec!["home", "cat"]);
    assert_eq!(m.entity("  MARA "), out.entity);
    assert_eq!(m.facts_len(), 1);
    assert_eq!(m.entities_len(), 1);
    assert!(m.verify().is_ok());
    assert!(m.faulty_facts().is_empty());
}

#[test]
fn inputs_are_checked() {
    let (mut m, mut s) = fresh();
    let long = "x".repeat(config().max_text + 1);
    assert_eq!(
        m.remember(&mut s, RememberInput::text(1, &long)).unwrap_err(),
        Error::TooLarge {
            what: "text",
            len: config().max_text + 1,
            max: config().max_text
        }
    );
    let many = vec!["t"; 33];
    assert!(matches!(
        m.remember(&mut s, RememberInput { tags: &many, ..RememberInput::text(1, "a") }),
        Err(Error::TooLarge { what: "tags", len: 33, max: 32 })
    ));
    let links = vec![("r", "x"); 17];
    assert!(matches!(
        m.remember(&mut s, RememberInput { links: &links, ..about(1, "a", "e") }),
        Err(Error::TooLarge { what: "links", len: 17, max: 16 })
    ));
    assert_eq!(
        m.remember(&mut s, RememberInput { tags: &[""], ..RememberInput::text(1, "a") })
            .unwrap_err(),
        Error::Invalid("empty tag")
    );
    assert_eq!(
        m.remember(&mut s, RememberInput { links: &[("r", "x")], ..RememberInput::text(1, "a") })
            .unwrap_err(),
        Error::Invalid("links require a subject entity")
    );
    assert_eq!(
        m.remember(
            &mut s,
            RememberInput { metadata: &[("k", "1"), ("k", "2")], ..RememberInput::text(1, "a") }
        )
        .unwrap_err(),
        Error::Invalid("duplicate metadata key")
    );
    assert!(m.remember(&mut s, about(1, "a", "...")).is_err());
    assert_eq!(m.facts_len(), 0);
}

#[test]
fn a_revision_closes_its_target() {
    let (mut m, mut s) = fresh();
    let a = m.remember(&mut s, about(10, "lives in Oslo", "Mara")).unwrap();
    let b = m.revise(&mut s, a.id, about(20, "lives in Bergen", "Mara")).unwrap();
    let (va, vb) = (m.get(a.id).unwrap(), m.get(b.id).unwrap());
    assert_eq!(va.record.valid_to, 20);
    assert!(va.record.is_closed());
    assert_eq!(vb.record.revises, a.id);
    // At most one version of a chain is live at any instant.
    for t in [5, 10, 19, 20, 21] {
        assert!(!(va.record.is_live_at(t) && vb.record.is_live_at(t)));
    }
    assert_eq!(
        m.revise(&mut s, a.id, RememberInput::text(30, "x")).unwrap_err(),
        Error::AlreadyClosed(a.id)
    );
    assert_eq!(
        m.revise(&mut s, FactId(9), RememberInput::text(30, "x")).unwrap_err(),
        Error::NotFound(FactId(9))
    );
}

#[test]
fn a_forgotten_fact_is_hidden() {
    let (mut m, mut s) = fresh();
    let a = m.remember(&mut s, RememberInput { tags: &["t"], ..about(1, "secret", "Mara") }).unwrap();
    assert!(m.forget(&mut s, 2, a.id).unwrap());
    assert!(!m.forget(&mut s, 2, a.id).unwrap());
    assert!(m.get(a.id).is_none());
    assert!(m.tags_of(a.id).is_empty());
    assert_eq!(m.forget(&mut s, 3, FactId(7)).unwrap_err(), Error::NotFound(FactId(7)));
    assert_eq!(m.facts_len(), 1);
}

#[test]
fn a_link_is_replaced_not_repeated() {
    let (mut m, mut s) = fresh();
    for now in [10, 20] {
        m.link(
            &mut s,
            LinkInput { now, src: "Mara", rel: "knows", dst: "Tove", provenance: None },
        )
        .unwrap();
    }
    assert_eq!(m.entities_len(), 2);
    let p = m.population();
    assert_eq!((p.edges, p.edge_versions), (1, 2));
}

#[test]
fn similar_facts_are_surfaced_as_fractions() {
    let (mut m, mut s) = fresh();
    m.remember(&mut s, about(1, "red green blue", "e")).unwrap();
    let out = m.remember(&mut s, about(2, "red green black", "e")).unwrap();
    assert_eq!(out.similar.len(), 1);
    assert_eq!((out.similar[0].both, out.similar[0].union), (2, 4));
    let batch = m
        .remember_batch(&mut s, &[about(3, "red", "e"), about(4, "blue", "e")], true)
        .unwrap();
    assert_eq!(batch.len(), 2);
    assert!(batch[1].similar.is_empty());
}

fn build() -> (Memory, MemStorage) {
    let (mut m, mut s) = fresh();
    let a = m
        .remember(
            &mut s,
            RememberInput {
                tags: &["home", "pets"],
                links: &[("knows", "Tove")],
                metadata: &[("uri", "s3://b/x"), ("page", "3")],
                ..about(100, "Mara keeps a cat", "Mara")
            },
        )
        .unwrap();
    m.remember(&mut s, RememberInput { tags: &["work"], ..about(200, "Tove writes code", "Tove") })
        .unwrap();
    m.revise(&mut s, a.id, RememberInput { tags: &["home"], ..about(300, "Mara keeps two cats", "Mara") })
        .unwrap();
    m.remember(&mut s, RememberInput::text(400, "a note")).unwrap();
    m.forget(&mut s, 500, FactId(3)).unwrap();
    m.link(
        &mut s,
        LinkInput { now: 600, src: "Tove", rel: "knows", dst: "Mara", provenance: Some(FactId(1)) },
    )
    .unwrap();
    (m, s)
}

fn same(a: &Memory, b: &Memory) {
    assert_eq!(a.snapshot_bytes(7), b.snapshot_bytes(7));
}

#[test]
fn the_journal_rebuilds_the_state() {
    let (m, mut s) = build();
    let (again, report) = Memory::open(&mut s, config()).unwrap();
    assert_eq!(report.replayed, 6);
    assert_eq!(report.skipped, 0);
    assert!(!report.truncated_tail);
    same(&m, &again);
}

#[test]
fn a_saved_state_loads_back() {
    let (mut m, mut s) = build();
    let image = m.snapshot_bytes(7);
    let (again, report) = Memory::from_bytes(Some(&image), &[], config()).unwrap();
    assert_eq!(report.replayed, 0);
    same(&m, &again);
    // A journal that the snapshot already holds is skipped.
    let journal = s.read_journal().unwrap();
    let (twice, report) = Memory::from_bytes(Some(&image), &journal, config()).unwrap();
    assert!(report.skipped > 0);
    assert_eq!(twice.facts_len(), m.facts_len());
    // A snapshot clears the journal.
    m.snapshot(&mut s, 8).unwrap();
    assert!(s.read_journal().unwrap().is_empty());
    let (third, _) = Memory::open(&mut s, config()).unwrap();
    same(&m, &third);
}

#[test]
fn a_torn_tail_is_dropped() {
    let (_, mut s) = build();
    let journal = s.read_journal().unwrap();
    let cut = &journal[..journal.len() - 3];
    let (m, report) = Memory::from_bytes(None, cut, config()).unwrap();
    assert!(report.truncated_tail);
    assert_eq!(report.replayed, 5);
    assert_eq!(m.facts_len(), 4);
}

#[test]
fn compaction_purges_what_was_forgotten() {
    let (mut m, mut s) = build();
    let before = m.snapshot_bytes(7).len();
    let report = m.maintain(&mut s, 700).unwrap();
    assert_eq!(report.purged, 1);
    assert!(!report.no_op);
    assert_eq!((report.facts_before, report.facts_after), (4, 3));
    assert!(m.snapshot_bytes(7).len() < before);
    assert_eq!(m.get(FactId(2)).unwrap().text, "Mara keeps two cats");
    assert!(m.get(FactId(3)).is_none());
    // Purged ids stay burned.
    let next = m.remember(&mut s, RememberInput::text(800, "later")).unwrap();
    assert_eq!(next.id, FactId(4));
    // The pass is replayed from the journal.
    let (again, _) = Memory::open(&mut s, config()).unwrap();
    same(&m, &again);
    // A second pass purges nothing.
    let again = m.maintain_with_options(&mut s, 900, MaintenanceOptions::full()).unwrap();
    assert_eq!(again.purged, 0);
    assert_eq!(m.get(FactId(4)).unwrap().text, "later");
}

#[test]
fn a_pass_is_not_seen_by_readers() {
    let (mut m, mut s) = build();
    let read = |m: &Memory| -> Vec<(u32, String, u64, u64, Vec<String>)> {
        (0..4)
            .filter_map(|i| m.get(FactId(i)).map(|v| (i, v)))
            .map(|(i, v)| {
                let tags = m.tags_of(FactId(i)).iter().map(|&t| m.term(t).to_string()).collect();
                (i, v.text.to_string(), v.record.valid_from, v.record.valid_to, tags)
            })
            .collect()
    };
    let before = read(&m);
    assert_eq!(before.len(), 3);
    let names = (m.entity("Mara"), m.entity("Tove"));
    m.maintain_with_options(&mut s, 700, MaintenanceOptions::full()).unwrap();
    assert_eq!(read(&m), before);
    assert_eq!((m.entity("Mara"), m.entity("Tove")), names);
    // The state behind a pass can be saved and loaded.
    assert!(m.verify().is_ok());
    let image = m.snapshot_bytes(7);
    let (again, _) = Memory::from_bytes(Some(&image), &[], config()).unwrap();
    same(&m, &again);
}

#[test]
fn maintenance_options_survive_the_journal() {
    let o = MaintenanceOptions { mode: MaintenanceMode::Compact, max_hnsw_inserts: Some(9) };
    let back =
        MaintenanceOptions::from_journal(o.journal_mode(), o.journal_max_hnsw_inserts()).unwrap();
    assert_eq!(back, o);
    assert!(MaintenanceOptions::from_journal(200, 0).is_err());
}

#[test]
fn a_buffer_takes_the_whole_snapshot() {
    let (m, _) = build();
    let mut buffer: Vec<u8> = Vec::new();
    assert!(m.write_snapshot_to(7, &mut buffer).is_ok());
    assert_eq!(buffer, m.snapshot_bytes(7));
}

#[test]
fn a_disk_first_snapshot_opens_compacted() {
    let (m, _) = build();
    let mut sink: Vec<u8> = Vec::new();
    let purged = m.snapshot_disk_first(9, &mut sink).unwrap();
    assert_eq!(purged, 1);
    let (again, _) = Memory::from_bytes(Some(&sink), &[], config()).unwrap();
    assert_eq!(again.facts_len(), 3);
    assert_eq!(again.get(FactId(2)).unwrap().text, "Mara keeps two cats");
}

#[test]
fn the_embedder_is_always_asked() {
    let (m, _) = build();
    let texts = m.reembed_texts().unwrap();
    let asked = embed_requests(&texts, 2).unwrap();
    assert_eq!(asked, vec![vec![texts[0].1, texts[1].1], vec![texts[2].1]]);
    assert_eq!(
        embed_requests(&texts, 0),
        Err(Error::Invalid("reembed batch size must be nonzero"))
    );
    // With nothing to embed it is asked for one empty text.
    let (empty, _) = fresh();
    let none = empty.reembed_texts().unwrap();
    assert!(none.is_empty());
    assert_eq!(embed_requests(&none, 7).unwrap(), vec![vec![""]]);
    let probe = vec![vec![(F32Bits(0.01f32.to_bits()), vec![1u8, 2, 3, 4])]];
    let report = empty
        .write_reembedded_snapshot(9, 4, "model", 7, &probe, &mut Vec::new())
        .unwrap();
    assert_eq!((report.embedded, report.vector_bytes), (0, 0));
    assert_eq!(
        empty.write_reembedded_snapshot(9, 4, "model", 7, &Vec::new(), &mut Vec::new()),
        Err(Error::Invalid("embedder returned the wrong number of probe vectors"))
    );
    assert_eq!(
        empty.reembed_config(0, 7).unwrap_err(),
        Error::Invalid("reembed target dimension must be nonzero")
    );
}

#[test]
fn a_disk_first_image_is_the_maintained_one() {
    let (mut m, mut s) = build();
    let mut sink: Vec<u8> = Vec::new();
    let purged = m.snapshot_disk_first(9, &mut sink).unwrap();
    let report = m.maintain(&mut s, 700).unwrap();
    assert_eq!(sink, m.snapshot_bytes(9));
    assert_eq!(purged, report.purged);
    let journal = s.read_journal().unwrap();
    let entries = scan(&journal).unwrap().entries;
    let marker = &entries[entries.len() - 1];
    let op = Op::decode(marker.op, marker.payload).unwrap();
    assert!(matches!(op, Op::Maintain { now: 700, .. }));
    // With nothing due, the image is the engine's own.
    let mut again: Vec<u8> = Vec::new();
    assert_eq!(m.snapshot_disk_first(9, &mut again).unwrap(), 0);
    assert_eq!(again, m.snapshot_bytes(9));
}

#[test]
fn a_batch_hints_unless_told_not_to() {
    let (mut m, mut s) = fresh();
    let batch = [
        about(1, "Mara keeps a cat", "Mara"),
        about(2, "Mara keeps a black cat", "Mara"),
    ];
    let outs = m.remember_batch(&mut s, &batch, false).unwrap();
    assert!(outs[0].similar.is_empty());
    assert_eq!(outs[1].similar.len(), 1);
    let more = m.remember_batch(&mut s, &[about(3, "Mara keeps a cat", "Mara")], true).unwrap();
    assert!(more[0].similar.is_empty());
    // A refused input leaves what was applied before it journaled.
    let held = m.facts_len();
    let stop = [about(4, "one more", "Mara"), RememberInput { tags: &[""], ..about(5, "x", "Mara") }];
    assert_eq!(m.remember_batch(&mut s, &stop, true).unwrap_err(), Error::Invalid("empty tag"));
    assert_eq!(m.facts_len(), held + 1);
    let (again, report) = Memory::open(&mut s, config()).unwrap();
    assert_eq!(report.replayed, 4);
    same(&m, &again);
}

#[test]
fn a_reembedded_snapshot_carries_vectors() {
    let (m, _) = build();
    let texts = m.reembed_texts().unwrap();
    assert_eq!(texts.len(), 3);
    assert_eq!(texts[0], (FactId(0), "Mara keeps a cat"));
    let cuts = embed_batches(texts.len(), 2).unwrap();
    assert_eq!(cuts, vec![(0, 2), (2, 3)]);
    assert!(embed_batches(3, 0).is_err());
    let answers: Vec<Vec<(F32Bits, Vec<u8>)>> = cuts
        .iter()
        .map(|&(a, b)| {
            (a..b)
                .map(|i| (F32Bits(0.01f32.to_bits()), vec![i as u8 + 1, 5, 250, 127]))
                .collect()
        })
        .collect();
    let mut sink: Vec<u8> = Vec::new();
    let report = m
        .write_reembedded_snapshot(9, 4, "model", 2, &answers, &mut sink)
        .unwrap();
    assert_eq!((report.embedded, report.tombstones_skipped), (3, 1));
    assert_eq!((report.previous_dim, report.new_dim), (0, 4));
    let mut cfg = config();
    cfg.dim = 4;
    let (again, _) = Memory::from_bytes(Some(&sink), &[], cfg).unwrap();
    assert_eq!(again.vectors().len(), 3);
    assert_eq!(again.vectors().slot_fact(2), 2);
    assert!(again.get(FactId(2)).unwrap().record.has_vector());
    assert!(again.verify().is_ok());
    // The image names the space of its vectors, and the next one says which
    // it replaced.
    assert_eq!(report.previous_space, None);
    assert_eq!(report.new_space, "model");
    assert_eq!(again.vector_space(), Some("model"));
    let mut next: Vec<u8> = Vec::new();
    let report = again
        .write_reembedded_snapshot(9, 4, "other", 2, &answers, &mut next)
        .unwrap();
    assert_eq!(report.previous_space.as_deref(), Some("model"));
    let (third, _) = Memory::from_bytes(Some(&next), &[], cfg).unwrap();
    assert_eq!(third.vector_space(), Some("other"));
    assert_eq!(third.snapshot_bytes(9), next);
    let snap = Snapshot::parse(&next).unwrap();
    assert_eq!((snap.flags(), snap.created_at()), (1, 9));
    assert_eq!(
        m.write_reembedded_snapshot(9, 0, "model", 2, &answers, &mut Vec::new()).unwrap_err(),
        Error::Invalid("reembed target dimension must be nonzero")
    );
}

#[test]
fn a_journaled_vector_is_refused() {
    let mut journal: Vec<u8> = Vec::new();
    Op::Remember {
        now: 1,
        valid_from: 1,
        entity: None,
        text: "a cat",
        tags: vec![],
        links: vec![],
        vector: vec![0x3f80_0000],
        metadata: vec![],
        revises: FactId::none(),
        assigned: FactId(0),
    }
    .encode(&mut journal);
    assert!(matches!(
        Memory::from_bytes(None, &journal, config()),
        Err(Error::DimMismatch { got: 1, want: 0 })
    ));
    let (m, _) = fresh();
    let mut image: Vec<u8> = Vec::new();
    let probe = vec![vec![(F32Bits(0x3f80_0000), vec![127])]];
    m.write_reembedded_snapshot(9, 1, "model", 2, &probe, &mut image).unwrap();
    let mut cfg = config();
    cfg.dim = 1;
    assert!(matches!(
        Memory::from_bytes(Some(&image), &journal, cfg),
        Err(Error::Invalid("journaled vectors cannot be replayed"))
    ));
}

#[test]
fn a_nameless_link_changes_nothing() {
    let (mut m, mut s) = fresh();
    let err = m
        .remember(&mut s, RememberInput { links: &[("knows", "!!")], ..about(1, "a cat", "Mara") })
        .unwrap_err();
    assert_eq!(err, Error::Invalid("entity name has no indexable characters"));
    assert_eq!((m.facts_len(), m.entities_len()), (0, 0));
    m.remember(&mut s, about(2, "a cat", "Mara")).unwrap();
    let (_, report) = Memory::open(&mut s, config()).unwrap();
    assert_eq!(report.replayed, 1);
    // A link creates its source before it looks at its target.
    let err = m
        .link(&mut s, LinkInput { now: 3, src: "Tove", rel: "knows", dst: "!!", provenance: None })
        .unwrap_err();
    assert_eq!(err, Error::Invalid("entity name has no indexable characters"));
    assert_eq!(m.entities_len(), 2);
    m.forget(&mut s, 4, FactId(0)).unwrap();
}

/// Links the slots of a pool below `upto`; a slot is as close to another as
/// their numbers are.
fn link(g: &mut HnswGraph, pool: &VecPool, upto: u32) {
    g.reserve(upto);
    for slot in g.indexed()..upto {
        let level = g.level_of(pool.slot_fact(slot as usize));
        let top = match g.entry() {
            NONE_U32 => level,
            ep => g.level_of(pool.slot_fact(ep as usize)),
        };
        let mut insertion = Insertion::begin(g, slot, level, top, 8);
        while let Some((of, to)) = insertion.ask() {
            let near = |other: u32| 1.0 / (1.0 + of.abs_diff(other) as f32);
            let sims = to.iter().map(|&t| F32Bits(near(t).to_bits())).collect();
            insertion.answer(g, &sims).unwrap();
        }
    }
}

#[test]
fn a_pass_is_committed_with_its_links() {
    let mut cfg = config();
    cfg.flat_to_hnsw = 2;
    let (mut m, mut s) = (Memory::new(cfg).unwrap(), MemStorage::new());
    for (now, text) in [(1, "one cat"), (2, "two cats"), (3, "three cats")] {
        m.remember(&mut s, about(now, text, "Mara")).unwrap();
    }
    let one = |i: u8| (F32Bits(0.01f32.to_bits()), vec![i, 5, 250, 127]);
    let answers = vec![vec![one(1), one(2)], vec![one(3)]];
    // A new image carries the links that the host made over its vectors.
    let pool = m.reembed_vectors(4, 2, &answers).unwrap();
    assert_eq!(pool.len(), 3);
    let mut g = m.empty_graph();
    link(&mut g, &pool, 3);
    let mut image: Vec<u8> = Vec::new();
    let report = m.write_linked_snapshot(9, 4, "model", 2, &answers, &g, &mut image).unwrap();
    assert_eq!((report.embedded, report.hnsw_indexed), (3, 3));
    cfg.dim = 4;
    let (linked, _) = Memory::from_bytes(Some(&image), &[], cfg).unwrap();
    assert_eq!(linked.graph().indexed(), 3);
    assert_eq!(linked.graph().neighbors(1, 0), g.neighbors(1, 0));
    let other = HnswGraph::new(3, 9, 64);
    assert_eq!(
        m.write_linked_snapshot(9, 4, "model", 2, &answers, &other, &mut Vec::new()).unwrap_err(),
        Error::ConfigMismatch("hnsw degree caps")
    );
    // One without links leaves them to a pass.
    let mut bare: Vec<u8> = Vec::new();
    m.write_reembedded_snapshot(9, 4, "model", 2, &answers, &mut bare).unwrap();
    let (mut m, _) = Memory::from_bytes(Some(&bare), &[], cfg).unwrap();
    assert_eq!(m.graph().indexed(), 0);
    let mut s = MemStorage::new();
    let options = MaintenanceOptions {
        mode: MaintenanceMode::OptimizeVectors,
        max_hnsw_inserts: Some(2),
    };
    let pass = m.prepare_maintenance(options).unwrap().unwrap();
    assert_eq!(m.pass_target(&pass), Some(2));
    assert_eq!(m.pass_vectors(&pass).len(), 3);
    assert_eq!(m.pass_graph(&pass).indexed(), 0);
    let other = HnswGraph::new(3, 9, 64);
    assert_eq!(
        m.commit_maintenance(&mut s, 50, options, pass, other).unwrap_err(),
        Error::ConfigMismatch("hnsw degree caps")
    );
    assert!(s.read_journal().unwrap().is_empty());
    let pass = m.prepare_maintenance(options).unwrap().unwrap();
    let mut g = m.empty_graph();
    link(&mut g, m.pass_vectors(&pass), 2);
    let mut ahead: Vec<u8> = Vec::new();
    let own = m.write_prepared_snapshot(9, options, &pass, &g, &mut ahead).unwrap();
    let report = m.commit_maintenance(&mut s, 50, options, pass, g).unwrap();
    // The image written ahead is the one behind the pass.
    assert_eq!(ahead, m.snapshot_bytes(9));
    assert_eq!(own, report);
    assert!(report.hnsw_rebuilt && !report.hnsw_remapped && !report.no_op);
    assert_eq!((report.hnsw_indexed_before, report.hnsw_indexed_after), (0, 2));
    assert_eq!(report.hnsw_inserted, 2);
    assert!(report.bytes_after > report.bytes_before);
    assert_eq!(m.graph().indexed(), 2);
    assert!(m.verify().is_ok());
    let journal = s.read_journal().unwrap();
    let entries = scan(&journal).unwrap().entries;
    let op = Op::decode(entries[0].op, entries[0].payload).unwrap();
    assert!(matches!(op, Op::Maintain { now: 50, mode: 3, max_hnsw_inserts: 2 }));
    // The next pass links the rest; then nothing is left to do.
    let pass = m.prepare_maintenance(options).unwrap().unwrap();
    assert_eq!(m.pass_target(&pass), Some(3));
    let mut g = m.empty_graph();
    link(&mut g, m.pass_vectors(&pass), 3);
    let report = m.commit_maintenance(&mut s, 60, options, pass, g).unwrap();
    assert!(report.hnsw_remapped && !report.hnsw_rebuilt);
    assert_eq!(report.hnsw_inserted, 1);
    assert!(m.prepare_maintenance(options).unwrap().is_none());
}

#[test]
fn an_adopted_graph_must_be_valid() {
    let (mut m, _) = build();
    let g = m.empty_graph();
    m.adopt_graph(g).unwrap();
    let other = HnswGraph::new(3, 9, 64);
    assert_eq!(
        m.adopt_graph(other).unwrap_err(),
        Error::ConfigMismatch("hnsw degree caps")
    );
    let mut g = m.empty_graph();
    g.reserve(1);
    g.admit_node(0, 0, 0);
    assert!(matches!(m.adopt_graph(g), Err(Error::Corrupt(_))));
}

#[test]
fn operations_survive_their_bytes() {
    let ops = vec![
        Op::Remember {
            now: 1,
            valid_from: 2,
            entity: Some("Mara"),
            text: "a cat",
            tags: vec!["home"],
            links: vec![("knows", "Tove")],
            vector: vec![0x3f80_0000],
            metadata: vec![("k", "v")],
            revises: FactId::none(),
            assigned: FactId(7),
        },
        Op::Forget { now: 3, fact: FactId(7) },
        Op::Link { now: 4, src: "a", rel: "r", dst: "b", provenance: FactId(1) },
        Op::Maintain { now: 5, mode: 1, max_hnsw_inserts: 9 },
        Op::Unlink { now: 6, src: "a", rel: "r", dst: "b" },
        Op::RemoveTag { now: 7, tag: "home" },
    ];
    let mut journal: Vec<u8> = Vec::new();
    for op in &ops {
        op.encode(&mut journal);
    }
    let found = scan(&journal).unwrap();
    assert!(!found.truncated_tail);
    let back: Vec<Op<'_>> = found
        .entries
        .iter()
        .map(|e| Op::decode(e.op, e.payload).unwrap())
        .collect();
    assert_eq!(back, ops);
    // What was decoded encodes back to the same bytes; a longer or a shorter
    // payload is refused.
    let mut written: Vec<u8> = Vec::new();
    for op in &back {
        op.encode(&mut written);
    }
    assert_eq!(written, journal);
    for e in &found.entries {
        let mut long = e.payload.to_vec();
        long.push(0);
        assert!(matches!(Op::decode(e.op, &long), Err(Error::Corrupt(_))));
        for n in 0..e.payload.len() {
            let cut = Op::decode(e.op, &e.payload[..n]);
            assert_eq!(cut.is_ok(), e.op == 5 && n == 8);
        }
    }
    // A damaged record in the middle is corruption, not a torn tail.
    let mut bad = journal.clone();
    bad[9] ^= 1;
    assert!(matches!(scan(&bad), Err(Error::Corrupt(_))));
    assert!(Op::decode(99, &[]).is_err());
}

#[test]
fn a_snapshot_knows_its_own_checksum() {
    let (m, _) = build();
    let image = m.snapshot_bytes(7);
    let snap = Snapshot::parse(&image).unwrap();
    let mut scrub = snap.scrub_with_budget(100);
    let mut done = 0;
    let mut slices = 0;
    while let Some(step) = scrub.next() {
        slices += 1;
        done = step.unwrap().done_bytes;
        assert_eq!(done, (slices * 100).min(image.len() as u64));
    }
    assert_eq!(done, image.len() as u64);
    assert_eq!(slices, (image.len() as u64).div_ceil(100));
    assert!(scrub.next().is_none());
    let mut bad = image.clone();
    let last = bad.len() - 1;
    bad[last] ^= 1;
    let mut failed = false;
    if let Ok(snap) = Snapshot::parse(&bad) {
        let mut scrub = snap.scrub();
        while let Some(step) = scrub.next() {
            failed = failed || step.is_err();
        }
    } else {
        failed = true;
    }
    assert!(failed);
    assert!(Snapshot::parse(&image[..10]).is_err());
    assert!(Memory::from_bytes(Some(&image[..image.len() - 8]), &[], config()).is_err());
}

#[test]
fn the_configuration_must_fit_the_image() {
    let (m, _) = build();
    let image = m.snapshot_bytes(7);
    let mut other = config();
    other.dim = 8;
    assert!(matches!(
        Memory::from_bytes(Some(&image), &[], other),
        Err(Error::ConfigMismatch(_))
    ));
    let mut other = config();
    other.max_text = 100;
    assert!(matches!(
        Memory::from_bytes(Some(&image), &[], other),
        Err(Error::ConfigMismatch(_))
    ));
    let mut bad = config();
    bad.shards_facts = 3;
    assert!(Memory::new(bad).is_err());
}

#[test]
fn older_engine_states_decode() {
    let old = [1u8; 24];
    let s = decode_engine_state(&old).unwrap();
    assert!(s.predates_edge_versions);
    assert_eq!(s.next_fact, 0x0101_0101);
    let s = decode_engine_state(&[2u8; 40]).unwrap();
    assert!(!s.predates_edge_versions);
    assert!(decode_engine_state(&[0u8; 25]).is_err());
}

#[test]
fn a_full_engine_says_so() {
    let mut cfg = Config::default();
    cfg.max_bytes = 4096;
    cfg.max_blob = 1024;
    cfg.max_text = 1024;
    let mut m = Memory::new(cfg).unwrap();
    let mut s = MemStorage::new();
    let mut last = Ok(());
    for i in 0..2000 {
        last = m.remember(&mut s, RememberInput::text(i, "some words to keep")).map(|_| ());
        if last.is_err() {
            break;
        }
    }
    assert!(matches!(last, Err(Error::Arena(_)) | Err(Error::CapacityExceeded { .. })));
}

#[test]
fn a_caller_that_names_no_database_gets_it() {
    let mut cfg = config();
    cfg.db_uuid = 42;
    let mut m = Memory::new(cfg).unwrap();
    let mut s = MemStorage::new();
    m.remember(&mut s, about(1, "a cat", "Mara")).unwrap();
    let image = m.snapshot_bytes(7);
    let (again, _) = Memory::from_bytes(Some(&image), &[], config()).unwrap();
    same(&m, &again);
    cfg.db_uuid = 43;
    assert!(matches!(
        Memory::from_bytes(Some(&image), &[], cfg),
        Err(Error::ConfigMismatch(_))
    ));
}

#[test]
fn a_full_engine_can_be_read() {
    let mut cfg = Config::default();
    cfg.max_bytes = 4096;
    cfg.max_blob = 1024;
    cfg.max_text = 1024;
    let mut m = Memory::new(cfg).unwrap();
    let mut s = MemStorage::new();
    let mut kept = 0;
    while m
        .remember(&mut s, RememberInput { tags: &["t"], ..about(kept, "some words to keep", "Mara") })
        .is_ok()
    {
        kept += 1;
    }
    for id in 0..kept as u32 {
        assert_eq!(m.get(FactId(id)).unwrap().text, "some words to keep");
        assert_eq!(m.tags_of(FactId(id)).len(), 1);
    }
    assert!(m.entity("mara").is_some());
}

#[test]
fn a_replayed_fact_counts_as_skipped() {
    let (mut m, mut s) = fresh();
    for i in 0..3 {
        m.remember(&mut s, RememberInput::text(i, "a note")).unwrap();
    }
    let image = m.snapshot_bytes(7);
    let journal = s.read_journal().unwrap();
    let (again, report) = Memory::from_bytes(Some(&image), &journal, config()).unwrap();
    assert_eq!((report.replayed, report.skipped), (0, 3));
    same(&m, &again);
}

#[test]
fn a_config_block_is_canonical() {
    let mut cfg = config();
    cfg.db_uuid = 7;
    let mut block: Vec<u8> = Vec::new();
    cfg.encode(&mut block);
    let back = Config::decode(&block).unwrap();
    let mut again: Vec<u8> = Vec::new();
    back.encode(&mut again);
    assert_eq!(block, again);
    let last = block.len() - 1;
    block[last] = 1;
    assert!(matches!(Config::decode(&block), Err(Error::Corrupt(_))));
}
