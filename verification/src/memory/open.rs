//! Opening a database: a snapshot, if there is one, and the journal behind it.

use crate::codec;
use crate::config;
use crate::config::Config;
use crate::error::Error;
use crate::heap;
use crate::index::hnsw;
use crate::index::postings;
use crate::index::vecpool;
use crate::interner;
use crate::memory::integrity;
use crate::memory::kind;
use crate::memory::legacy_kind;
use crate::memory::load;
use crate::memory::migrations;
use crate::memory::persist;
use crate::memory::replay;
use crate::memory::state;
use crate::memory::state::State;
use crate::memory::whole;
use crate::memory::{storage_failed, Memory, OpenReport, TOKENIZER_INDEX_VERSION};
use crate::model::Slot;
use crate::snapshot;
use crate::snapshot::SnapshotView;
use crate::storage::Storage;
use crate::table;
use vstd::prelude::*;
use vstd::string::*;
use vstd::utf8::*;

verus! {

/// A new database under a configuration.
pub open spec fn created(cfg: Config) -> Result<State, Error> {
    match config::validated(cfg) {
        Err(e) => Err(e),
        Ok(()) => if cfg.dim != 0 {
            Err(Error::ConfigMismatch("vector layer lands in stage 4: dim must be 0"))
        } else {
            Ok(state::empty_state(cfg, TOKENIZER_INDEX_VERSION))
        },
    }
}

/// The state behind a snapshot, or a new one where there is none.
pub open spec fn based(image: Option<Seq<u8>>, cfg: Config) -> Result<State, Error> {
    match image {
        Some(b) => load::loaded(b, cfg),
        None => created(cfg),
    }
}

/// What opening a database gives.
pub open spec fn opened(image: Option<Seq<u8>>, journal: Seq<u8>, cfg: Config) -> Result<
    (State, OpenReport),
    Error,
> {
    match based(image, cfg) {
        Err(e) => Err(e),
        Ok(s) => {
            let (t, r) = replay::replay_of(s, journal);
            match r {
                Err(e) => Err(e),
                Ok(report) => Ok((t, report)),
            }
        },
    }
}

/// What is opened is whole where the state behind the snapshot is, and the
/// journal links only facts on record.
pub open spec fn opened_whole(
    image: Option<Seq<u8>>,
    journal: Seq<u8>,
    cfg: Config,
    t: State,
) -> bool {
    based(image, cfg) matches Ok(s) ==> (replay::journal_sane(s, journal) ==> whole::kept(s, t)) && (
    image is None ==> whole::whole(s))
}

/// A snapshot image, where there is one.
pub open spec fn opt_bytes(b: Option<&[u8]>) -> Option<Seq<u8>> {
    match b {
        Some(x) => Some(x@),
        None => None,
    }
}

impl Memory {
    /// Opens a database from storage: the snapshot if there is one, then the
    /// journal replayed on top of it.
    pub fn open<S: Storage>(store: &mut S, cfg: Config) -> (r: Result<(Memory, OpenReport), Error>)
        ensures
            match r {
                Ok((m, report)) => m.wf() && opened(
                    old(store).snapshot(),
                    old(store).journal(),
                    cfg,
                ) == Ok::<_, Error>((m@, report)) && opened_whole(
                    old(store).snapshot(),
                    old(store).journal(),
                    cfg,
                    m@,
                ) && final(store).snapshot()
                    == old(store).snapshot() && final(store).journal() == old(store).journal(),
                Err(e) => e is Storage || opened(
                    old(store).snapshot(),
                    old(store).journal(),
                    cfg,
                ) == Err::<(State, OpenReport), _>(e),
            },
    {
        let image: Option<Vec<u8>> = match store.read_snapshot() {
            Ok(x) => x,
            Err(e) => {
                return Err(storage_failed(e));
            },
        };
        let journal: Vec<u8> = match store.read_journal() {
            Ok(x) => x,
            Err(e) => {
                return Err(storage_failed(e));
            },
        };
        match image {
            Some(b) => Memory::from_bytes(Some(b.as_slice()), journal.as_slice(), cfg),
            None => Memory::from_bytes(None, journal.as_slice(), cfg),
        }
    }

    /// Opens a database from the bytes of its snapshot, if there is one, and
    /// of its journal.
    pub fn from_bytes(image: Option<&[u8]>, journal: &[u8], cfg: Config) -> (r: Result<
        (Memory, OpenReport),
        Error,
    >)
        ensures
            match r {
                Ok((m, report)) => m.wf() && opened(opt_bytes(image), journal@, cfg) == Ok::<
                    _,
                    Error,
                >((m@, report)) && opened_whole(opt_bytes(image), journal@, cfg, m@),
                Err(e) => opened(opt_bytes(image), journal@, cfg) == Err::<
                    (State, OpenReport),
                    _,
                >(e),
            },
    {
        let mut mem: Memory = match image {
            Some(b) => Memory::load_snapshot(b, cfg)?,
            None => Memory::new(cfg)?,
        };
        proof {
            whole::empty_is_whole(cfg, TOKENIZER_INDEX_VERSION);
        }
        let report: OpenReport = mem.replay(journal)?;
        Ok((mem, report))
    }
}

/// The counters of a state cover its records, and every reference holds: what
/// a load demands of an image.
pub open spec fn complete(s: State) -> bool {
    &&& integrity::reference_fault(s) is None
    &&& s.facts.len() <= s.next_fact
    &&& s.entities.len() <= s.next_entity
    &&& load::edge_bound(s.hist_out, s.hist_out.len()) <= s.next_edge
    &&& s.tombstones == load::tombstone_count(s.facts, s.facts.len())
    &&& s.bm25.total_docs == s.bm25.docs.len()
    &&& narrow(s)
}

/// Every count and length of a state fits the 32-bit field that stores it, and
/// the vectors stay below the byte ceiling.
pub open spec fn narrow(s: State) -> bool {
    &&& s.vecs.len() <= state::cap(s)
    &&& forall|i: int| 0 <= i < s.texts.len() ==> (#[trigger] s.texts[i]).len() <= u32::MAX
    &&& forall|i: int| 0 <= i < s.metas.len() ==> (#[trigger] s.metas[i]).len() <= u32::MAX
    &&& forall|i: int|
        0 <= i < s.terms.len() ==> encode_utf8(#[trigger] s.terms[i]).len() <= u32::MAX
    &&& s.bm25.postings.len() <= u32::MAX
    &&& s.tags_idx.len() <= u32::MAX
    &&& s.entity_facts.len() <= u32::MAX
}

/// Every section of a state is found in a parsed snapshot.
spec fn holds(v: SnapshotView, s: State) -> bool {
    forall|i: int|
        0 <= i < persist::section_total(s) ==> snapshot::section_of(
            v,
            (#[trigger] persist::section_list(s)[i]).0,
        ) == Some(persist::section_list(s)[i].1)
}

proof fn lemma_section(v: SnapshotView, s: State, k: u16)
    requires
        holds(v, s),
        0 <= persist::place_of(k) < persist::SECTION_COUNT,
    ensures
        load::required(v, k) == Ok::<_, Error>(persist::section_at(s, persist::place_of(k)).1),
        snapshot::section_of(v, k) == Some(persist::section_at(s, persist::place_of(k)).1),
{
    let i = persist::place_of(k);
    assert(persist::section_list(s)[i].0 == k) by {
        reveal(persist::section_at);
        reveal(persist::place_of);
    }
}

proof fn lemma_table<T: Slot>(
    v: SnapshotView,
    s: State,
    meta: u16,
    pool: u16,
    rows: Seq<T>,
    max_bytes: int,
)
    requires
        holds(v, s),
        0 <= persist::place_of(meta) < persist::SECTION_COUNT,
        0 <= persist::place_of(pool) < persist::SECTION_COUNT,
        persist::section_at(s, persist::place_of(meta)).1 == codec::le64(rows.len() as u64),
        persist::section_at(s, persist::place_of(pool)).1 == table::rows_bytes(rows),
        table::ascending(rows),
        rows.len() <= u64::MAX,
        rows.len() * T::slot_size() <= max_bytes,
    ensures
        load::table_in::<T>(v, meta, pool, max_bytes) == Ok::<_, Error>(rows),
{
    lemma_section(v, s, meta);
    lemma_section(v, s, pool);
    table::table_round_trip(rows, max_bytes);
}

proof fn lemma_heap(
    v: SnapshotView,
    s: State,
    index: u16,
    pool: u16,
    blobs: Seq<Seq<u8>>,
    max_bytes: int,
    max_blob: int,
)
    requires
        holds(v, s),
        0 <= persist::place_of(index) < persist::SECTION_COUNT,
        0 <= persist::place_of(pool) < persist::SECTION_COUNT,
        persist::section_at(s, persist::place_of(index)).1 == heap::index_bytes(blobs),
        persist::section_at(s, persist::place_of(pool)).1 == heap::pool_content(blobs),
        blobs.len() <= crate::id::NONE_U32,
        heap::total_bytes(blobs) <= max_bytes,
        forall|i: int| 0 <= i < blobs.len() ==> (#[trigger] blobs[i]).len() <= max_blob,
        forall|i: int| 0 <= i < blobs.len() ==> (#[trigger] blobs[i]).len() <= u32::MAX,
    ensures
        load::heap_in(v, index, pool, max_bytes, max_blob) == Ok::<_, Error>(blobs),
{
    lemma_section(v, s, index);
    lemma_section(v, s, pool);
    heap::heap_round_trip(blobs, max_bytes, max_blob);
}

proof fn lemma_store(
    tf: bool,
    v: SnapshotView,
    s: State,
    first: u16,
    lists: Seq<postings::List>,
    max_bytes: int,
)
    requires
        holds(v, s),
        first == kind::BM25_HANDLES_META || first == kind::TAGS_HANDLES_META || first
            == kind::ENTFACTS_HANDLES_META,
        ({
            let at = persist::place_of(first);
            &&& persist::section_at(s, at).1 == codec::le64(lists.len() as u64)
            &&& persist::section_at(s, at + 1).1 == table::rows_bytes(
                postings::stored_headers(tf, lists),
            )
            &&& persist::section_at(s, at + 2).1 == heap::index_bytes(
                postings::stored_lists(tf, lists),
            )
            &&& persist::section_at(s, at + 3).1 == heap::pool_content(
                postings::stored_lists(tf, lists),
            )
        }),
        postings::lists_ok(tf, lists),
        postings::lists_bounded(tf, lists),
        lists.len() <= u32::MAX,
        lists.len() * 24 <= max_bytes,
        postings::store_bytes(tf, lists) <= max_bytes,
    ensures
        load::store_in(tf, v, first, max_bytes) == Ok::<_, Error>(lists),
{
    reveal(persist::place_of);
    let at = persist::place_of(first);
    assert(persist::place_of((first + 1) as u16) == at + 1);
    assert(persist::place_of((first + 2) as u16) == at + 2);
    assert(persist::place_of((first + 3) as u16) == at + 3);
    lemma_section(v, s, first);
    lemma_section(v, s, (first + 1) as u16);
    lemma_section(v, s, (first + 2) as u16);
    lemma_section(v, s, (first + 3) as u16);
    postings::sections_round_trip(tf, lists, max_bytes);
}

/// The engine-state section reads back.
proof fn lemma_state_section(s: State)
    ensures
        migrations::state_decoded(persist::state_bytes(s)) == Ok::<_, Error>(
            migrations::EngineState {
                next_fact: s.next_fact,
                next_entity: s.next_entity,
                bm25_tokenizer_version: s.tokenizer_version,
                next_edge: s.next_edge,
                predates_edge_versions: false,
            },
        ),
        codec::num_at(persist::state_bytes(s), 8, 8) == s.bm25.total_docs,
        codec::num_at(persist::state_bytes(s), 16, 8) == s.bm25.total_len,
{
    let b = persist::state_bytes(s);
    let s1 = codec::le32(s.next_fact);
    let s2 = s1 + codec::le32(s.next_entity);
    let s3 = s2 + codec::le64(s.bm25.total_docs);
    let s4 = s3 + codec::le64(s.bm25.total_len);
    let s5 = s4 + codec::le32(s.tokenizer_version);
    let s6 = s5 + codec::le32(0);
    let s7 = s6 + codec::le32(s.next_edge);
    codec::lemma_pow256();
    codec::lemma_le_bytes_len(s.next_fact as nat, 4);
    codec::lemma_le_bytes_len(s.next_entity as nat, 4);
    codec::lemma_le_bytes_len(s.bm25.total_docs as nat, 8);
    codec::lemma_le_bytes_len(s.bm25.total_len as nat, 8);
    codec::lemma_le_bytes_len(s.tokenizer_version as nat, 4);
    codec::lemma_le_bytes_len(0, 4);
    codec::lemma_le_bytes_len(s.next_edge as nat, 4);
    assert(codec::has_at(b, 0, b)) by {
        reveal(codec::has_at);
        assert(b.subrange(0, b.len() as int) =~= b);
    }
    codec::lemma_has_split(b, 0, s7, codec::le32(0));
    codec::lemma_has_split(b, 0, s6, codec::le32(s.next_edge));
    codec::lemma_has_split(b, 0, s5, codec::le32(0));
    codec::lemma_has_split(b, 0, s4, codec::le32(s.tokenizer_version));
    codec::lemma_has_split(b, 0, s3, codec::le64(s.bm25.total_len));
    codec::lemma_has_split(b, 0, s2, codec::le64(s.bm25.total_docs));
    codec::lemma_has_split(b, 0, s1, codec::le32(s.next_entity));
    codec::lemma_num_at(b, 0, s.next_fact as nat, 4);
    codec::lemma_num_at(b, 4, s.next_entity as nat, 4);
    codec::lemma_num_at(b, 8, s.bm25.total_docs as nat, 8);
    codec::lemma_num_at(b, 16, s.bm25.total_len as nat, 8);
    codec::lemma_num_at(b, 24, s.tokenizer_version as nat, 4);
    codec::lemma_num_at(b, 32, s.next_edge as nat, 4);
}

/// Plain ASCII encodes to one byte per character, none of them zero.
proof fn lemma_ascii(chars: Seq<char>)
    requires
        forall|i: int| 0 <= i < chars.len() ==> 0 < (#[trigger] chars[i]) as u32 && (chars[i] as u32)
            < 128,
    ensures
        encode_utf8(chars).len() == chars.len(),
        forall|i: int| 0 <= i < chars.len() ==> #[trigger] encode_utf8(chars)[i] != 0,
    decreases chars.len(),
{
    if chars.len() > 0 {
        let c = chars[0] as u32;
        let rest = chars.drop_first();
        assert forall|i: int| 0 <= i < rest.len() implies 0 < (#[trigger] rest[i]) as u32 && (
        rest[i] as u32) < 128 by {
            assert(rest[i] == chars[i + 1]);
        }
        lemma_ascii(rest);
        assert(0 < c && c < 128 ==> (c & 0x7F) as u8 != 0) by (bit_vector);
        assert(encode_scalar(c) =~= seq![leading_byte_width_1(c)]);
        let all = encode_utf8(chars);
        assert forall|i: int| 0 <= i < chars.len() implies #[trigger] all[i] != 0 by {
            if i > 0 {
                assert(all[i] == encode_utf8(rest)[i - 1]);
            }
        }
    }
}

proof fn lemma_version()
    ensures
        snapshot::version_ok(encode_utf8(persist::ENGINE_VERSION@)),
{
    reveal_strlit("0.1.0");
    let chars = persist::ENGINE_VERSION@;
    assert(chars.len() == 5);
    lemma_ascii(chars);
    encode_utf8_valid_utf8(chars);
}

/// The record tables come back.
proof fn lemma_records(m: Memory, v: SnapshotView, t: State)
    requires
        m.sound(),
        holds(v, m@),
        t.cfg == m@.cfg,
    ensures
        load::step(t, v, 0) == Ok::<_, Error>(State { facts: m@.facts, ..t }),
        load::step(t, v, 1) == Ok::<_, Error>(State { aux: m@.aux, ..t }),
        load::step(t, v, 2) == Ok::<_, Error>(State { entities: m@.entities, ..t }),
        load::step(t, v, 3) == Ok::<_, Error>(State { by_name: m@.by_name, ..t }),
        load::step(t, v, 5) == Ok::<_, Error>(State { temporal: m@.temporal, ..t }),
{
    reveal(load::step);
    reveal(persist::section_at);
    reveal(persist::place_of);
    let s = m@;
    let max = state::cap(s);
    m.facts.lemma_wf();
    m.fact_aux.lemma_wf();
    m.entities.lemma_wf();
    m.by_name.lemma_wf();
    m.temporal.lemma_wf();
    lemma_table(v, s, kind::FACTS_META, kind::FACTS_POOL, s.facts, max);
    lemma_table(v, s, kind::AUX_META, kind::AUX_POOL, s.aux, max);
    lemma_table(v, s, kind::ENTITIES_META, kind::ENTITIES_POOL, s.entities, max);
    lemma_table(v, s, kind::BY_NAME_META, kind::BY_NAME_POOL, s.by_name, max);
    lemma_table(v, s, kind::TEMPORAL_META, kind::TEMPORAL_POOL, s.temporal, max);
}

/// The edge tables come back.
proof fn lemma_edge_step(m: Memory, v: SnapshotView, t: State)
    requires
        m.sound(),
        holds(v, m@),
        t.cfg == m@.cfg,
    ensures
        load::step(t, v, 4) == Ok::<_, Error>(
            State {
                edges_out: m@.edges_out,
                edges_in: m@.edges_in,
                hist_out: m@.hist_out,
                hist_in: m@.hist_in,
                ..t
            },
        ),
{
    reveal(load::step);
    reveal(persist::section_at);
    reveal(persist::place_of);
    let s = m@;
    let max = state::cap(s);
    m.edges_out.lemma_wf();
    m.edges_in.lemma_wf();
    m.edges_hist_out.lemma_wf();
    m.edges_hist_in.lemma_wf();
    lemma_table(v, s, kind::EDGES_OUT_META, kind::EDGES_OUT_POOL, s.edges_out, max);
    lemma_table(v, s, kind::EDGES_IN_META, kind::EDGES_IN_POOL, s.edges_in, max);
    lemma_table(v, s, kind::EDGE_HIST_OUT_META, kind::EDGE_HIST_OUT_POOL, s.hist_out, max);
    lemma_table(v, s, kind::EDGE_HIST_IN_META, kind::EDGE_HIST_IN_POOL, s.hist_in, max);
    assert forall|k: u16| kind::EDGES_OUT_META <= k <= kind::EDGE_HIST_IN_POOL implies (
    #[trigger] snapshot::section_of(v, k)) is Some by {
        lemma_section(v, s, k);
    }
    assert(snapshot::section_of(v, kind::EDGES_OUT_META) is Some);
}

proof fn lemma_record_steps(m: Memory, v: SnapshotView, e: State)
    requires
        m.sound(),
        holds(v, m@),
        e.cfg == m@.cfg,
    ensures
        load::steps(e, v, 6) == Ok::<_, Error>(
            State {
                facts: m@.facts,
                aux: m@.aux,
                entities: m@.entities,
                by_name: m@.by_name,
                edges_out: m@.edges_out,
                edges_in: m@.edges_in,
                hist_out: m@.hist_out,
                hist_in: m@.hist_in,
                temporal: m@.temporal,
                ..e
            },
        ),
{
    let s = m@;
    let s1 = State { facts: s.facts, ..e };
    let s2 = State { aux: s.aux, ..s1 };
    let s3 = State { entities: s.entities, ..s2 };
    let s4 = State { by_name: s.by_name, ..s3 };
    let s5 = State {
        edges_out: s.edges_out,
        edges_in: s.edges_in,
        hist_out: s.hist_out,
        hist_in: s.hist_in,
        ..s4
    };
    let s6 = State { temporal: s.temporal, ..s5 };
    assert(load::steps(e, v, 0) == Ok::<_, Error>(e));
    lemma_records(m, v, e);
    lemma_step(e, v, 0, e, s1);
    lemma_records(m, v, s1);
    lemma_step(e, v, 1, s1, s2);
    lemma_records(m, v, s2);
    lemma_step(e, v, 2, s2, s3);
    lemma_records(m, v, s3);
    lemma_step(e, v, 3, s3, s4);
    lemma_edge_step(m, v, s4);
    lemma_step(e, v, 4, s4, s5);
    lemma_records(m, v, s5);
    lemma_step(e, v, 5, s5, s6);
}

proof fn lemma_tag_lengths(s: State)
    requires
        integrity::auxes_fault(s) is None,
    ensures
        forall|l: int| 0 <= l < s.tag_lists.len() ==> (#[trigger] s.tag_lists[l]).len() <= u32::MAX,
{
    let g = |i: int| integrity::aux_fault(s, i);
    integrity::lemma_no_fault(s.aux.len(), g);
    assert forall|l: int| 0 <= l < s.tag_lists.len() implies (#[trigger] s.tag_lists[l]).len()
        <= u32::MAX by {
        assert(integrity::tags_claimed(s.aux, s.aux.len() as int, l));
        let k = choose|k: int| 0 <= k < s.aux.len() && #[trigger] integrity::tags_claim(s.aux, k, l);
        assert(g(k) is None);
    }
}

/// The texts, the metadata and the tag lists come back.
proof fn lemma_heap_steps(m: Memory, v: SnapshotView, t: State)
    requires
        m.sound(),
        holds(v, m@),
        narrow(m@),
        integrity::auxes_fault(m@) is None,
        t.cfg == m@.cfg,
    ensures
        load::step(t, v, 6) == Ok::<_, Error>(State { texts: m@.texts, ..t }),
        load::step(t, v, 7) == Ok::<_, Error>(State { metas: m@.metas, ..t }),
        load::step(t, v, 9) == Ok::<_, Error>(State { tag_lists: m@.tag_lists, ..t }),
{
    reveal(load::step);
    reveal(persist::section_at);
    reveal(persist::place_of);
    let s = m@;
    let max = state::cap(s);
    let blob = state::blob_cap(s);
    m.texts.lemma_wf();
    m.metas.lemma_wf();
    m.tag_lists.lemma_wf();
    lemma_tag_lengths(s);
    lemma_heap(v, s, kind::TEXTS_INDEX, kind::TEXTS_POOL, s.texts, max, blob);
    lemma_heap(v, s, kind::METAS_INDEX, kind::METAS_POOL, s.metas, max, blob);
    lemma_heap(v, s, kind::TAG_LISTS_META, kind::TAG_LISTS_POOL, s.tag_lists, max, max);
}

/// The terms come back.
proof fn lemma_terms_step(m: Memory, v: SnapshotView, t: State)
    requires
        m.sound(),
        holds(v, m@),
        narrow(m@),
        t.cfg == m@.cfg,
    ensures
        load::step(t, v, 8) == Ok::<_, Error>(State { terms: m@.terms, ..t }),
{
    reveal(load::step);
    reveal(persist::section_at);
    reveal(persist::place_of);
    let s = m@;
    m.terms.lemma_wf();
    lemma_section(v, s, kind::TERMS_INDEX);
    lemma_section(v, s, kind::TERMS_POOL);
    lemma_section(v, s, kind::TERMS_TABLE);
    interner::order_is_unique(m.terms.sorted_ids(), interner::order_of(s.terms), s.terms);
    interner::interner_round_trip(
        s.terms,
        interner::order_of(s.terms),
        state::cap(s),
        state::blob_cap(s),
    );
}

/// The lexical index comes back.
proof fn lemma_index_step(m: Memory, v: SnapshotView, t: State)
    requires
        m.sound(),
        holds(v, m@),
        narrow(m@),
        m@.bm25.total_docs == m@.bm25.docs.len(),
        t.cfg == m@.cfg,
    ensures
        load::step(t, v, 10) == Ok::<_, Error>(State { bm25: m@.bm25, ..t }),
{
    reveal(load::step);
    reveal(persist::section_at);
    reveal(persist::place_of);
    let s = m@;
    let max = state::cap(s);
    m.bm25.lemma_wf();
    lemma_store(true, v, s, kind::BM25_HANDLES_META, s.bm25.postings, max);
    lemma_table(v, s, kind::BM25_DOCLEN_META, kind::BM25_DOCLEN_POOL, s.bm25.docs, max);
    lemma_section(v, s, kind::BM25_DOCLEN_META);
    lemma_section(v, s, kind::ENGINE_STATE);
    lemma_state_section(s);
    assert(load::index_in(v, max) == Ok::<_, Error>(s.bm25));
}

/// The tag and subject lists come back.
proof fn lemma_list_steps(m: Memory, v: SnapshotView, t: State)
    requires
        m.sound(),
        holds(v, m@),
        narrow(m@),
        t.cfg == m@.cfg,
    ensures
        load::step(t, v, 11) == Ok::<_, Error>(State { tags_idx: m@.tags_idx, ..t }),
        load::step(t, v, 12) == Ok::<_, Error>(State { entity_facts: m@.entity_facts, ..t }),
{
    reveal(load::step);
    reveal(persist::section_at);
    reveal(persist::place_of);
    let s = m@;
    let max = state::cap(s);
    m.tags_idx.lemma_wf();
    m.entity_facts.lemma_wf();
    lemma_store(false, v, s, kind::TAGS_HANDLES_META, s.tags_idx, max);
    lemma_store(false, v, s, kind::ENTFACTS_HANDLES_META, s.entity_facts, max);
}

/// The vectors and their graph come back.
proof fn lemma_vector_steps(m: Memory, v: SnapshotView, t: State)
    requires
        m.sound(),
        holds(v, m@),
        integrity::graph_fault(m@) is None,
        hnsw::joined(m@.graph.lists).len() <= u64::MAX,
        m@.vecs.len() <= state::cap(m@),
        t.cfg == m@.cfg,
    ensures
        load::step(t, v, 13) == Ok::<_, Error>(State { vecs: m@.vecs, ..t }),
        load::step(t, v, 14) == Ok::<_, Error>(State { graph: m@.graph, ..t }),
{
    reveal(load::step);
    reveal(persist::section_at);
    reveal(persist::place_of);
    let s = m@;
    let max = state::cap(s);
    m.vecs.lemma_wf();
    m.hnsw.lemma_wf();
    lemma_section(v, s, kind::VEC_POOL);
    vecpool::pool_round_trip(s.cfg.dim as int, max, s.vecs);
    lemma_section(v, s, kind::HNSW_META);
    lemma_section(v, s, kind::HNSW_LEVEL0);
    lemma_section(v, s, kind::HNSW_UPPER_META);
    lemma_section(v, s, kind::HNSW_UPPER_POOL);
    lemma_section(v, s, kind::HNSW_LISTS_META);
    lemma_section(v, s, kind::HNSW_LISTS_POOL);
    hnsw::graph_round_trip(s.graph, max);
}

proof fn lemma_step(e: State, v: SnapshotView, n: nat, t: State, u: State)
    requires
        load::steps(e, v, n) == Ok::<_, Error>(t),
        load::step(t, v, n as int) == Ok::<_, Error>(u),
    ensures
        load::steps(e, v, n + 1) == Ok::<_, Error>(u),
{
}

proof fn lemma_pool_steps(m: Memory, v: SnapshotView, e: State, t: State)
    requires
        m.sound(),
        holds(v, m@),
        narrow(m@),
        integrity::auxes_fault(m@) is None,
        integrity::graph_fault(m@) is None,
        m@.bm25.total_docs == m@.bm25.docs.len(),
        t.cfg == m@.cfg,
        load::steps(e, v, 6) == Ok::<_, Error>(t),
        hnsw::joined(m@.graph.lists).len() <= u64::MAX,
        m@.space is None ==> snapshot::section_of(v, kind::VECTOR_SPACE) is None,
    ensures
        load::steps(e, v, 16) == Ok::<_, Error>(
            State {
                texts: m@.texts,
                metas: m@.metas,
                terms: m@.terms,
                tag_lists: m@.tag_lists,
                bm25: m@.bm25,
                tags_idx: m@.tags_idx,
                entity_facts: m@.entity_facts,
                vecs: m@.vecs,
                graph: m@.graph,
                space: m@.space,
                ..t
            },
        ),
{
    let s = m@;
    let s7 = State { texts: s.texts, ..t };
    let s8 = State { metas: s.metas, ..s7 };
    let s9 = State { terms: s.terms, ..s8 };
    let s10 = State { tag_lists: s.tag_lists, ..s9 };
    let s11 = State { bm25: s.bm25, ..s10 };
    let s12 = State { tags_idx: s.tags_idx, ..s11 };
    let s13 = State { entity_facts: s.entity_facts, ..s12 };
    let s14 = State { vecs: s.vecs, ..s13 };
    let s15 = State { graph: s.graph, ..s14 };
    lemma_heap_steps(m, v, t);
    lemma_step(e, v, 6, t, s7);
    lemma_heap_steps(m, v, s7);
    lemma_step(e, v, 7, s7, s8);
    lemma_terms_step(m, v, s8);
    lemma_step(e, v, 8, s8, s9);
    lemma_heap_steps(m, v, s9);
    lemma_step(e, v, 9, s9, s10);
    lemma_index_step(m, v, s10);
    lemma_step(e, v, 10, s10, s11);
    lemma_list_steps(m, v, s11);
    lemma_step(e, v, 11, s11, s12);
    lemma_list_steps(m, v, s12);
    lemma_step(e, v, 12, s12, s13);
    lemma_vector_steps(m, v, s13);
    lemma_step(e, v, 13, s13, s14);
    lemma_vector_steps(m, v, s14);
    lemma_step(e, v, 14, s14, s15);
    lemma_space_step(v, s, s15);
    lemma_step(e, v, 15, s15, State { space: s.space, ..s15 });
}

proof fn lemma_space_step(v: SnapshotView, s: State, t: State)
    requires
        holds(v, s),
        s.space is None ==> snapshot::section_of(v, kind::VECTOR_SPACE) is None,
    ensures
        load::step(t, v, 15) == Ok::<_, Error>(State { space: s.space, ..t }),
{
    reveal(load::step);
    if s.space is Some {
        let i = persist::SECTION_COUNT as int;
        assert(persist::section_list(s)[i] == (
            kind::VECTOR_SPACE,
            encode_utf8(s.space->0),
        )) by {
            reveal(persist::section_at);
        }
        encode_utf8_valid_utf8(s.space->0);
        encode_utf8_decode_utf8(s.space->0);
    }
}

/// The image of a state parses, and every section is found in it.
proof fn lemma_image(s: State, created_at: u64) -> (v: SnapshotView)
    requires
        config::config_ok(s.cfg),
        persist::image_fits(s),
    ensures
        snapshot::parsed(persist::snapshot_image(s, created_at)) == Ok::<_, Error>(v),
        v.config == config::config_bytes(s.cfg),
        holds(v, s),
        snapshot::section_of(v, legacy_kind::EDGES_OUT_META) is None,
        snapshot::section_of(v, legacy_kind::EDGES_OUT_POOL) is None,
        s.space is None ==> snapshot::section_of(v, kind::VECTOR_SPACE) is None,
{
    let secs = persist::section_list(s);
    let config_b = config::config_bytes(s.cfg);
    let flags = persist::image_flags(s);
    let ver = encode_utf8(persist::ENGINE_VERSION@);
    config::config_round_trip(s.cfg);
    lemma_version();
    persist::lemma_kinds(s);
    let h = crate::hash::xxh3(snapshot::image(config_b, flags, created_at, ver, secs, 0));
    snapshot::image_round_trip(config_b, flags, created_at, ver, secs, h);
    let v = snapshot::carried(config_b, flags, created_at, ver, secs, h);
    v
}

proof fn lemma_lists_fit(s: State)
    requires
        persist::image_fits(s),
    ensures
        hnsw::joined(s.graph.lists).len() <= u64::MAX,
{
    reveal(persist::section_at);
    hnsw::lemma_lists_pool_len(s.graph);
    assert(persist::section_list(s)[48].1.len() <= u64::MAX);
}

/// A state saved and loaded under its own configuration is the same state:
/// every record, text, index and counter comes back. A caller that names no
/// database gets it too.
pub proof fn saved_state_loads_back(m: Memory, created_at: u64)
    requires
        m.sound(),
        complete(m@),
        persist::image_fits(m@),
    ensures
        load::loaded(persist::snapshot_image(m@, created_at), m@.cfg) == Ok::<_, Error>(m@),
        load::loaded(
            persist::snapshot_image(m@, created_at),
            (Config { db_uuid: 0, ..m@.cfg }),
        ) == Ok::<_, Error>(m@),
{
    let s = m@;
    let v = lemma_image(s, created_at);
    lemma_lists_fit(s);
    let e = state::empty_state(s.cfg, TOKENIZER_INDEX_VERSION);
    lemma_record_steps(m, v, e);
    let t = load::steps(e, v, 6)->Ok_0;
    lemma_parts(s);
    lemma_pool_steps(m, v, e, t);
    let u = load::steps(e, v, 16)->Ok_0;
    m.facts.lemma_wf();
    lemma_finished(s, u, v);
    lemma_loaded(persist::snapshot_image(s, created_at), s, v, u);
}

proof fn lemma_parts(s: State)
    requires
        integrity::reference_fault(s) is None,
    ensures
        integrity::auxes_fault(s) is None,
        integrity::graph_fault(s) is None,
{
    reveal(integrity::reference_fault);
}

proof fn lemma_loaded(b: Seq<u8>, s: State, v: SnapshotView, u: State)
    requires
        config::config_ok(s.cfg),
        snapshot::parsed(b) == Ok::<_, Error>(v),
        v.config == config::config_bytes(s.cfg),
        load::steps(state::empty_state(s.cfg, TOKENIZER_INDEX_VERSION), v, 16) == Ok::<_, Error>(u),
        load::finished(u, v) == Ok::<_, Error>(s),
    ensures
        load::loaded(b, s.cfg) == Ok::<_, Error>(s),
        load::loaded(b, (Config { db_uuid: 0, ..s.cfg })) == Ok::<_, Error>(s),
{
    let anonymous = Config { db_uuid: 0, ..s.cfg };
    config::config_round_trip(s.cfg);
    assert(load::reconciled(s.cfg, s.cfg) == Ok::<_, Error>(s.cfg));
    assert(load::reconciled(s.cfg, anonymous) == Ok::<_, Error>(s.cfg));
    assert(config::config_ok(anonymous));
}

/// The caller's configuration cannot stand for a stored one: the layout
/// differs, or it names another database.
pub open spec fn foreign(stored: Config, cfg: Config) -> bool {
    ||| stored.dim != cfg.dim
    ||| stored.shards_facts != cfg.shards_facts
    ||| stored.shards_entities != cfg.shards_entities
    ||| stored.shards_edges != cfg.shards_edges
    ||| stored.shards_temporal != cfg.shards_temporal
    ||| stored.shards_postings != cfg.shards_postings
    ||| stored.max_bytes != cfg.max_bytes
    ||| stored.max_text != cfg.max_text
    ||| stored.max_blob != cfg.max_blob
    ||| cfg.db_uuid != 0 && stored.db_uuid != cfg.db_uuid
}

/// A saved state is refused under a configuration whose vector length, shard
/// counts or limits differ from its own, or that names another database.
pub proof fn a_foreign_image_is_refused(s: State, created_at: u64, cfg: Config)
    requires
        config::config_ok(s.cfg),
        persist::image_fits(s),
        config::config_ok(cfg),
        foreign(s.cfg, cfg),
    ensures
        load::loaded(persist::snapshot_image(s, created_at), cfg) matches Err(
            Error::ConfigMismatch(_),
        ),
{
    let v = lemma_image(s, created_at);
    lemma_foreign(persist::snapshot_image(s, created_at), s.cfg, v, cfg);
}

proof fn lemma_foreign(b: Seq<u8>, stored: Config, v: SnapshotView, cfg: Config)
    requires
        config::config_ok(stored),
        snapshot::parsed(b) == Ok::<_, Error>(v),
        v.config == config::config_bytes(stored),
        config::config_ok(cfg),
        foreign(stored, cfg),
    ensures
        load::loaded(b, cfg) matches Err(Error::ConfigMismatch(_)),
{
    config::config_round_trip(stored);
    assert(load::reconciled(stored, cfg) is Err);
}

/// The counters of a loaded state come back.
proof fn lemma_finished(s: State, u: State, v: SnapshotView)
    requires
        holds(v, s),
        complete(s),
        s.facts.len() <= usize::MAX,
        snapshot::section_of(v, legacy_kind::EDGES_OUT_META) is None,
        snapshot::section_of(v, legacy_kind::EDGES_OUT_POOL) is None,
        s == (State {
            next_fact: s.next_fact,
            next_entity: s.next_entity,
            next_edge: s.next_edge,
            tokenizer_version: s.tokenizer_version,
            tombstones: s.tombstones,
            ..u
        }),
    ensures
        load::finished(u, v) == Ok::<_, Error>(s),
{
    assert(persist::section_at(s, persist::place_of(kind::ENGINE_STATE)).1 == persist::state_bytes(s)
        && persist::place_of(kind::ENGINE_STATE) == 41) by {
        reveal(persist::section_at);
        reveal(persist::place_of);
    }
    lemma_section(v, s, kind::ENGINE_STATE);
    lemma_state_section(s);
    let e = migrations::state_decoded(persist::state_bytes(s))->Ok_0;
    assert(load::counted(u, v, e) == Ok::<_, Error>(s));
}

} // verus!
