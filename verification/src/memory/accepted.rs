//! What a load accepts is complete: every count fits its field and every
//! counter covers its records, so that it can be saved and loaded again.

use crate::codec;
use crate::config;
use crate::config::Config;
use crate::error::Error;
use crate::heap;
use crate::index::postings;
use crate::interner;
use crate::memory::kind;
use crate::memory::load;
use crate::memory::migrations;
use crate::memory::open;
use crate::memory::persist;
use crate::memory::state;
use crate::memory::state::State;
use crate::memory::{Memory, TOKENIZER_INDEX_VERSION};
use crate::model::{FactRecord, IdListSlot, LegacyEdgeHistorySlot, LegacyEdgeSlot};
use crate::snapshot;
use crate::snapshot::SnapshotView;
use vstd::prelude::*;
use vstd::utf8::*;

verus! {

/// Blobs whose lengths fit the field that stores them.
pub open spec fn short(blobs: Seq<Seq<u8>>) -> bool {
    forall|i: int| 0 <= i < blobs.len() ==> (#[trigger] blobs[i]).len() <= u32::MAX
}

proof fn lemma_heap(index: Seq<u8>, pool: Seq<u8>, max_bytes: int, max_blob: int)
    requires
        heap::heap_loaded(index, pool, max_bytes, max_blob) is Ok,
    ensures
        short(heap::heap_loaded(index, pool, max_bytes, max_blob)->Ok_0),
        heap::heap_loaded(index, pool, max_bytes, max_blob)->Ok_0.len() <= u32::MAX,
{
    let blobs = heap::heap_loaded(index, pool, max_bytes, max_blob)->Ok_0;
    let n = (index.len() / 4) as int;
    assert forall|i: int| 0 <= i < blobs.len() implies (#[trigger] blobs[i]).len() <= u32::MAX by {
        heap::lemma_start_mono(index, i, n);
        codec::lemma_pow256();
        codec::lemma_le_nat_bound(index.subrange(4 * i, 4 * i + 4));
    }
}

proof fn lemma_terms(
    index: Seq<u8>,
    pool: Seq<u8>,
    table: Seq<u8>,
    max_bytes: int,
    max_blob: int,
)
    requires
        interner::interner_loaded(index, pool, table, max_bytes, max_blob) is Ok,
    ensures
        ({
            let terms = interner::interner_loaded(index, pool, table, max_bytes, max_blob)->Ok_0;
            forall|i: int|
                0 <= i < terms.len() ==> encode_utf8(#[trigger] terms[i]).len() <= u32::MAX
        }),
{
    let blobs = heap::heap_loaded(index, pool, max_bytes, max_blob)->Ok_0;
    lemma_heap(index, pool, max_bytes, max_blob);
    assert forall|i: int| 0 <= i < blobs.len() implies encode_utf8(
        #[trigger] interner::texts_of(blobs)[i],
    ).len() <= u32::MAX by {
        assert(valid_utf8(blobs[i]));
        decode_utf8_encode_utf8(blobs[i]);
        assert(blobs[i].len() <= u32::MAX);
    }
}

/// The lists that the first `n` headers name.
spec fn named(rows: Seq<IdListSlot>, n: int) -> Set<int>
    decreases n,
{
    if n <= 0 {
        Set::empty()
    } else {
        named(rows, n - 1).insert(rows[n - 1].handle.list as int)
    }
}

proof fn lemma_named(tf: bool, rows: Seq<IdListSlot>, lists: Seq<Seq<u8>>, n: int)
    requires
        0 <= n <= rows.len(),
        postings::lists_read(tf, rows, lists, n) is Ok,
    ensures
        postings::lists_read(tf, rows, lists, n)->Ok_0.len() == n,
        named(rows, n).finite(),
        named(rows, n).len() == n,
        forall|l: int| #[trigger]
            named(rows, n).contains(l) ==> 0 <= l < lists.len() && postings::claimed(rows, n, l),
    decreases n,
{
    if n > 0 {
        lemma_named(tf, rows, lists, n - 1);
        let l = rows[n - 1].handle.list as int;
        assert(!named(rows, n - 1).contains(l));
        assert forall|k: int| #[trigger] named(rows, n).contains(k) implies 0 <= k < lists.len()
            && postings::claimed(rows, n, k) by {
            if k == l {
                assert(postings::claims(rows, n - 1, k));
            } else {
                assert(named(rows, n - 1).contains(k));
                assert(postings::claimed(rows, n - 1, k));
            }
        }
    }
}

proof fn lemma_store(
    tf: bool,
    max_bytes: int,
    hm: Seq<u8>,
    hp: Seq<u8>,
    cm: Seq<u8>,
    cp: Seq<u8>,
)
    requires
        postings::store_loaded(tf, max_bytes, hm, hp, cm, cp) is Ok,
    ensures
        postings::store_loaded(tf, max_bytes, hm, hp, cm, cp)->Ok_0.len() <= u32::MAX,
{
    let rows = crate::table::table_loaded::<IdListSlot>(hm, hp, max_bytes)->Ok_0;
    let lists = heap::heap_loaded(cm, cp, max_bytes, u32::MAX as int)->Ok_0;
    let n = rows.len() as int;
    lemma_heap(cm, cp, max_bytes, u32::MAX as int);
    lemma_named(tf, rows, lists, n);
    let range = vstd::set_lib::set_int_range(0, lists.len() as int);
    vstd::set_lib::lemma_int_range(0, lists.len() as int);
    assert(named(rows, n).subset_of(range));
    vstd::set_lib::lemma_len_subset(named(rows, n), range);
}

/// What the first `n` steps of a load have checked.
#[verifier::opaque]
spec fn checked(s: State, n: int) -> bool {
    &&& n > 6 ==> short(s.texts)
    &&& n > 7 ==> short(s.metas)
    &&& n > 8 ==> forall|i: int|
        0 <= i < s.terms.len() ==> encode_utf8(#[trigger] s.terms[i]).len() <= u32::MAX
    &&& n > 10 ==> s.bm25.postings.len() <= u32::MAX && s.bm25.total_docs == s.bm25.docs.len()
    &&& n > 11 ==> s.tags_idx.len() <= u32::MAX
    &&& n > 12 ==> s.entity_facts.len() <= u32::MAX
    &&& n > 13 ==> s.vecs.len() <= state::cap(s)
}

proof fn lemma_step(s: State, v: SnapshotView, k: int)
    requires
        0 <= k < 16,
        checked(s, k),
        load::step(s, v, k) is Ok,
    ensures
        checked(load::step(s, v, k)->Ok_0, k + 1),
{
    reveal(load::step);
    reveal(checked);
    let max = state::cap(s);
    let blob = state::blob_cap(s);
    if k == 6 {
        let (i, p) = load::required_pair(
            v,
            kind::TEXTS_INDEX,
            kind::TEXTS_POOL,
        )->Ok_0;
        lemma_heap(i, p, max, blob);
    } else if k == 7 {
        let (i, p) = load::required_pair(
            v,
            kind::METAS_INDEX,
            kind::METAS_POOL,
        )->Ok_0;
        lemma_heap(i, p, max, blob);
    } else if k == 8 {
        let (i, p) = load::required_pair(
            v,
            kind::TERMS_INDEX,
            kind::TERMS_POOL,
        )->Ok_0;
        let t = load::required(v, kind::TERMS_TABLE)->Ok_0;
        lemma_terms(i, p, t, max, blob);
    } else if k == 10 {
        lemma_store_in(true, v, kind::BM25_HANDLES_META, max);
    } else if k == 11 {
        lemma_store_in(false, v, kind::TAGS_HANDLES_META, max);
    } else if k == 12 {
        lemma_store_in(false, v, kind::ENTFACTS_HANDLES_META, max);
    }
}

proof fn lemma_store_in(tf: bool, v: SnapshotView, first: u16, max_bytes: int)
    requires
        load::store_in(tf, v, first, max_bytes) is Ok,
    ensures
        load::store_in(tf, v, first, max_bytes)->Ok_0.len() <= u32::MAX,
{
    let (hm, hp) = load::required_pair(v, first, (first + 1) as u16)->Ok_0;
    let (cm, cp) = load::required_pair(v, (first + 2) as u16, (first + 3) as u16)->Ok_0;
    lemma_store(tf, max_bytes, hm, hp, cm, cp);
}

proof fn lemma_steps(s: State, v: SnapshotView, n: nat)
    requires
        n <= 16,
        load::steps(s, v, n) is Ok,
    ensures
        checked(load::steps(s, v, n)->Ok_0, n as int),
    decreases n,
{
    if n == 0 {
        reveal(checked);
    } else {
        lemma_steps(s, v, (n - 1) as nat);
        lemma_step(load::steps(s, v, (n - 1) as nat)->Ok_0, v, n - 1);
    }
}

/// Only edges and their counter may differ.
spec fn edges_only(s: State, t: State) -> bool {
    t == (State {
        edges_out: t.edges_out,
        edges_in: t.edges_in,
        hist_out: t.hist_out,
        hist_in: t.hist_in,
        next_edge: t.next_edge,
        ..s
    })
}

proof fn lemma_history_frame(s: State, rows: Seq<LegacyEdgeHistorySlot>)
    ensures
        edges_only(s, migrations::history_adopted(s, rows).0),
    decreases rows.len(),
{
    if rows.len() > 0 {
        lemma_history_frame(s, rows.drop_last());
    }
}

proof fn lemma_edges_frame(s: State, rows: Seq<LegacyEdgeSlot>)
    ensures
        edges_only(s, migrations::edges_adopted(s, rows).0),
    decreases rows.len(),
{
    if rows.len() > 0 {
        lemma_edges_frame(s, rows.drop_last());
    }
}

proof fn lemma_migrated_frame(s: State, v: SnapshotView)
    requires
        migrations::edges_migrated(s, v) is Ok,
    ensures
        edges_only(s, migrations::edges_migrated(s, v)->Ok_0),
{
    let current = migrations::legacy_current(v, state::cap(s));
    if current->Ok_0 is Some {
        let history = migrations::legacy_versions(v, state::cap(s));
        if history->Ok_0 is Some {
            lemma_history_frame(s, history->Ok_0->0);
        } else {
            lemma_edges_frame(s, current->Ok_0->0);
        }
    }
}

proof fn lemma_tombstones(facts: Seq<FactRecord>, n: nat)
    ensures
        load::tombstone_count(facts, n) <= n,
    decreases n,
{
    if n > 0 {
        lemma_tombstones(facts, (n - 1) as nat);
    }
}

proof fn lemma_finished(s: State, v: SnapshotView)
    requires
        checked(s, 16),
        load::finished(s, v) is Ok,
    ensures
        open::complete(load::finished(s, v)->Ok_0),
{
    reveal(checked);
    let b = load::required(v, kind::ENGINE_STATE)->Ok_0;
    let e = migrations::state_decoded(b)->Ok_0;
    let t = State {
        next_fact: e.next_fact,
        next_entity: e.next_entity,
        tokenizer_version: e.bm25_tokenizer_version,
        next_edge: e.next_edge,
        ..s
    };
    if t.hist_out.len() == 0 && t.edges_out.len() == 0 {
        lemma_migrated_frame(t, v);
    }
    lemma_tombstones(s.facts, s.facts.len());
}

/// What a load accepts is complete.
pub proof fn what_loads_is_complete(b: Seq<u8>, cfg: Config)
    requires
        load::loaded(b, cfg) is Ok,
    ensures
        open::complete(load::loaded(b, cfg)->Ok_0),
{
    let v = snapshot::parsed(b)->Ok_0;
    let stored = config::config_decoded(v.config)->Ok_0;
    let c = load::reconciled(stored, cfg)->Ok_0;
    let e = state::empty_state(c, TOKENIZER_INDEX_VERSION);
    lemma_steps(e, v, 16);
    lemma_finished(load::steps(e, v, 16)->Ok_0, v);
}

/// What was loaded can be saved and loaded again: it comes back the same.
pub proof fn what_loads_loads_again(m: Memory, b: Seq<u8>, cfg: Config, created_at: u64)
    requires
        m.sound(),
        load::loaded(b, cfg) == Ok::<_, Error>(m@),
        persist::image_fits(m@),
    ensures
        load::loaded(persist::snapshot_image(m@, created_at), m@.cfg) == Ok::<_, Error>(m@),
        load::loaded(
            persist::snapshot_image(m@, created_at),
            (Config { db_uuid: 0, ..m@.cfg }),
        ) == Ok::<_, Error>(m@),
{
    what_loads_is_complete(b, cfg);
    open::saved_state_loads_back(m, created_at);
}

} // verus!
