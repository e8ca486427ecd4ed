//! Recall: the sources, fusion, selection and the rendered block.

use plugmem_core::memory::recall::fuse::{fuse, BM25, GRAPH, TIME};
use plugmem_core::storage::MemStorage;
use plugmem_core::{
    Config, F32Bits, FactId, LinkInput, Memory, RecallQuery, RememberInput,
};

fn config() -> Config {
    let mut cfg = Config::default();
    cfg.max_bytes = 1 << 20;
    cfg
}

fn bits(x: f32) -> F32Bits {
    F32Bits(x.to_bits())
}

const NOV_2025: u64 = 1_762_000_000_000;
const FEB_2024: u64 = 1_709_164_800_000; // 2024-02-29

fn build() -> (Memory, MemStorage) {
    let mut m = Memory::new(config()).unwrap();
    let mut s = MemStorage::new();
    m.remember(
        &mut s,
        RememberInput {
            entity: Some("Mara"),
            tags: &["home"],
            links: &[("knows", "Tove")],
            ..RememberInput::text(NOV_2025, "keeps a cat")
        },
    )
    .unwrap();
    m.remember(
        &mut s,
        RememberInput {
            entity: Some("Tove"),
            tags: &["work", "home"],
            ..RememberInput::text(NOV_2025 + 10, "writes code about a cat")
        },
    )
    .unwrap();
    let a = m
        .remember(
            &mut s,
            RememberInput { valid_from: Some(FEB_2024), ..RememberInput::text(NOV_2025 + 20, "old news") },
        )
        .unwrap();
    m.revise(&mut s, a.id, RememberInput::text(NOV_2025 + 30, "new news")).unwrap();
    (m, s)
}

fn weights() -> Vec<F32Bits> {
    vec![bits(1.0), bits(0.5), bits(0.25), bits(0.125), bits(0.0625)]
}

#[test]
fn the_lexical_source_matches_words() {
    let (m, _) = build();
    let q = RecallQuery::text(NOV_2025 + 100, "CAT unknownword");
    let c = m.recall_sources(&q, &weights()).unwrap();
    let facts: Vec<u32> = c.lexical.iter().map(|x| x.fact.0).collect();
    assert_eq!(facts, vec![0, 1]);
    assert_eq!((c.lexical[0].tf, c.lexical[0].len, c.lexical[0].df), (1, 3, 2));
    assert_eq!(c.docs, 4);
    assert!(c.allow.is_none());
    assert!(c.graph.is_empty() && c.time.is_empty());
    assert_eq!(m.query_terms("cat").len(), 1);
}

#[test]
fn tags_filter_every_source() {
    let (m, _) = build();
    let tags = ["home", "work"];
    let q = RecallQuery { tags: &tags, ..RecallQuery::text(NOV_2025 + 100, "cat") };
    let c = m.recall_sources(&q, &weights()).unwrap();
    let facts: Vec<u32> = c.lexical.iter().map(|x| x.fact.0).collect();
    assert_eq!(facts, vec![1]);
    let a = c.allow.unwrap();
    assert_eq!(a.members(), &vec![FactId(1)]);
    assert!(a.contains(FactId(1)) && !a.contains(FactId(0)));
    // An unknown tag can match nothing.
    let tags = ["home", "nowhere"];
    let q = RecallQuery { tags: &tags, ..RecallQuery::text(NOV_2025 + 100, "cat") };
    assert!(m.recall_sources(&q, &weights()).is_none());
}

#[test]
fn the_graph_source_walks_edges() {
    let (mut m, mut s) = build();
    m.link(
        &mut s,
        LinkInput { now: NOV_2025 + 50, src: "Tove", rel: "likes", dst: "Bo", provenance: Some(FactId(1)) },
    )
    .unwrap();
    let names = ["mara", "Mara", "nobody"];
    let q = RecallQuery { text: None, entities: &names, ..RecallQuery::text(NOV_2025 + 100, "") };
    let c = m.recall_sources(&q, &weights()).unwrap();
    let facts: Vec<(F32Bits, u32)> = c.graph.clone();
    assert_eq!(facts[0], (bits(1.0), 0));
    assert!(facts.contains(&(bits(0.5), 1)));
    assert_eq!(c.edges.len(), 2);
    assert_eq!(c.edges[0].src, m.entity("Mara").unwrap());
    assert_eq!(m.term(c.edges[0].rel), "knows");
    // A query for an earlier instant sees the edges of that instant.
    let q = RecallQuery { as_of: Some(NOV_2025 - 1), ..q };
    let c = m.recall_sources(&q, &weights()).unwrap();
    assert!(c.edges.is_empty() && c.graph.is_empty());
}

#[test]
fn the_temporal_source_is_newest_first() {
    let (m, _) = build();
    let q = RecallQuery {
        text: None,
        range: Some((NOV_2025, NOV_2025 + 25)),
        ..RecallQuery::text(NOV_2025 + 100, "")
    };
    let c = m.recall_sources(&q, &weights()).unwrap();
    // The closed fact 2 is left out.
    assert_eq!(c.time, vec![FactId(1), FactId(0)]);
    let all = RecallQuery { include_closed: true, ..q };
    let c = m.recall_sources(&all, &weights()).unwrap();
    assert_eq!(c.time, vec![FactId(2), FactId(1), FactId(0)]);
    // A tag filter gives the same order.
    let tags = ["home"];
    let tagged = RecallQuery { tags: &tags, ..q };
    let c = m.recall_sources(&tagged, &weights()).unwrap();
    assert_eq!(c.time, vec![FactId(1), FactId(0)]);
}

#[test]
fn fusion_keeps_every_rank() {
    let lists = vec![
        (BM25, vec![FactId(4), FactId(1)]),
        (GRAPH, vec![FactId(1)]),
        (TIME, vec![FactId(9), FactId(4)]),
    ];
    let f = fuse(&lists);
    let ids: Vec<u32> = f.iter().map(|x| x.id.0).collect();
    assert_eq!(ids, vec![4, 1, 9]);
    assert_eq!(f[0].hits, vec![(BM25, 0), (TIME, 1)]);
    assert_eq!(f[1].hits, vec![(BM25, 1), (GRAPH, 0)]);
    assert_eq!(f[1].sources, BM25 | GRAPH);
    assert_eq!(f[2].sources, TIME);
}

#[test]
fn selection_respects_count_and_budget() {
    let (m, _) = build();
    let f = fuse(&vec![(BM25, vec![FactId(0), FactId(1), FactId(3)])]);
    let scores = vec![bits(0.1), bits(0.9), bits(0.5)];
    let r = m.respond(&f, &scores, Vec::new(), 8, 512);
    let ids: Vec<u32> = r.facts.iter().map(|x| x.id.0).collect();
    assert_eq!(ids, vec![1, 3, 0]);
    assert!(!r.truncated);
    let r = m.respond(&f, &scores, Vec::new(), 2, 512);
    assert_eq!(r.facts.len(), 2);
    assert!(r.truncated);
    // "writes code about a cat" is 23 bytes: 5 + 8 tokens.
    let r = m.respond(&f, &scores, Vec::new(), 8, 13);
    assert_eq!(r.facts.len(), 1);
    assert!(r.truncated);
    let r = m.respond(&f, &scores, Vec::new(), 8, 12);
    assert!(r.facts.is_empty() && r.truncated && r.rendered.is_empty());
}

#[test]
fn the_block_is_rendered() {
    let (m, _) = build();
    let names = ["Mara"];
    let q = RecallQuery { text: None, entities: &names, ..RecallQuery::text(NOV_2025 + 100, "") };
    let c = m.recall_sources(&q, &weights()).unwrap();
    let f = fuse(&vec![(GRAPH, vec![FactId(0), FactId(2)])]);
    let r = m.respond(&f, &vec![bits(1.0), bits(0.5)], c.edges, q.limit(), q.budget());
    assert_eq!(
        r.rendered,
        "## memory\n\
         - [f0] Mara: keeps a cat (2025-11; active) #home\n\
         - [f2] old news (2024-02 → 2025-11; closed)\n\
         - links: Mara —knows→ Tove\n"
    );
    assert_eq!(r.facts[0].sources, GRAPH);
    assert_eq!(r.facts[0].score, bits(1.0));
    assert_eq!(m.render(&Vec::new(), &Vec::new()), "");
}

#[test]
fn knobs_have_defaults_and_ceilings() {
    let q = RecallQuery::text(5, "x");
    assert_eq!((q.limit(), q.budget(), q.instant()), (8, 512, 5));
    let q = RecallQuery { k: 1000, as_of: Some(3), token_budget: Some(9), ..q };
    assert_eq!((q.limit(), q.budget(), q.instant()), (64, 9, 3));
}
