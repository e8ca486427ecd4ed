//! The navigable graph over the vector pool: its storage, its invariants and
//! its carriage across a compaction.
//!
//! Graph nodes are vector-slot numbers. Only slots below `indexed` are in the
//! graph; later ones form the flat tail that the host scans separately. Level
//! 0 is one run of fixed-width neighbor blocks; upper levels are lists keyed
//! by slot and level. The level of a node is a pure function of its fact id,
//! so a rebuild reproduces the same geometry.

use crate::codec;
use crate::codec::{get_u32, get_u64, put_u32, put_u64};
use crate::error::{ArenaError, Error};
use crate::hash;
use crate::hash::hash64;
use crate::id;
use crate::index::vecpool;
use crate::index::vecpool::VecPool;
use crate::model::{Slot, UpperSlot};
use crate::parse;
use crate::parse::put_u32s;
use crate::table;
use crate::table::Table;
use vstd::prelude::*;

verus! {

/// Deepest level tracked.
pub const MAX_LEVEL: usize = 16;

/// The graph as a mathematical value.
#[verifier::ext_equal]
pub struct HnswState {
    /// Upper-level degree cap.
    pub m: int,
    /// Level-0 degree cap, the width of a block.
    pub m0: int,
    /// The level-0 blocks, one behind the other.
    pub level0: Seq<u32>,
    /// The keys of the upper-level lists.
    pub upper: Seq<UpperSlot>,
    /// The upper-level lists, in the order of their keys.
    pub lists: Seq<Seq<u32>>,
    /// The entry point, or the sentinel when the graph is empty.
    pub entry: u32,
    /// How many slots are in the graph.
    pub indexed: u32,
}

/// An empty graph.
pub open spec fn no_nodes(m: int, m0: int) -> HnswState {
    HnswState {
        m,
        m0,
        level0: Seq::empty(),
        upper: Seq::empty(),
        lists: Seq::empty(),
        entry: id::NONE_U32,
        indexed: 0,
    }
}

/// A hash below this reaches level `k + 1`: the largest `u64` divided by `m`
/// once per level.
pub open spec fn threshold(m: int, k: nat) -> int
    decreases k,
{
    if k == 0 {
        u64::MAX as int / m
    } else {
        threshold(m, (k - 1) as nat) / m
    }
}

/// The number of thresholds from `k` on that a hash stays below.
pub open spec fn level_from(m: int, h: int, k: nat) -> int
    decreases MAX_LEVEL - k,
{
    if k >= MAX_LEVEL || h >= threshold(m, k) {
        0
    } else {
        1 + level_from(m, h, k + 1)
    }
}

/// The level of a fact.
pub open spec fn level_of(m: int, fact: u32) -> int {
    level_from(m, hash::xxh3(codec::le32(fact)) as int, 0)
}

/// The key of an upper-level list.
pub open spec fn list_key(slot: u32, level: int) -> int {
    0x1_0000_0000 * (slot as int) + level
}

/// The level-0 block of a node.
pub open spec fn block(g: HnswState, slot: int) -> Seq<u32> {
    g.level0.subrange(slot * g.m0, (slot + 1) * g.m0)
}

/// The values in front of the first sentinel.
pub open spec fn until_none(b: Seq<u32>) -> Seq<u32>
    decreases b.len(),
{
    if b.len() == 0 || b[0] == id::NONE_U32 {
        Seq::empty()
    } else {
        seq![b[0]] + until_none(b.skip(1))
    }
}

/// The neighbors of a node at a level.
pub open spec fn neighbors(g: HnswState, slot: u32, level: int) -> Seq<u32> {
    if level == 0 {
        until_none(block(g, slot as int))
    } else if table::has_key(g.upper, list_key(slot, level)) {
        g.lists[table::rank(g.upper, list_key(slot, level))]
    } else {
        Seq::empty()
    }
}

/// A block of width `m0` that holds `sel`.
pub open spec fn padded(sel: Seq<u32>, m0: int) -> Seq<u32> {
    Seq::new(
        m0 as nat,
        |i: int|
            if i < sel.len() {
                sel[i]
            } else {
                id::NONE_U32
            },
    )
}

/// Level 0 with the block of `slot` overwritten.
pub open spec fn with_block(level0: Seq<u32>, m0: int, slot: int, sel: Seq<u32>) -> Seq<u32> {
    Seq::new(
        level0.len(),
        |i: int|
            if slot * m0 <= i < (slot + 1) * m0 {
                padded(sel, m0)[i - slot * m0]
            } else {
                level0[i]
            },
    )
}

/// What overwriting one neighbor list does.
pub open spec fn list_written(
    g: HnswState,
    max_bytes: int,
    slot: u32,
    level: int,
    sel: Seq<u32>,
) -> Result<HnswState, ArenaError> {
    let row = UpperSlot { slot, level: level as u32, count: sel.len() as u32 };
    if level == 0 {
        Ok(HnswState { level0: with_block(g.level0, g.m0, slot as int, sel), ..g })
    } else if table::has_key(g.upper, list_key(slot, level)) {
        Ok(
            HnswState {
                upper: table::replaced(g.upper, row),
                lists: g.lists.update(table::rank(g.upper, list_key(slot, level)), sel),
                ..g
            },
        )
    } else if !table::has_room(g.upper, max_bytes) {
        Err(ArenaError::CapacityExceeded)
    } else {
        Ok(
            HnswState {
                upper: table::with_row(g.upper, row),
                lists: g.lists.insert(table::rank(g.upper, list_key(slot, level)), sel),
                ..g
            },
        )
    }
}

/// The entries of `sel` that survive a compaction, renumbered.
pub open spec fn mapped(map: Seq<u32>, sel: Seq<u32>) -> Seq<u32>
    decreases sel.len(),
{
    if sel.len() == 0 {
        Seq::empty()
    } else {
        let front = mapped(map, sel.drop_last());
        if map[sel.last() as int] == id::NONE_U32 {
            front
        } else {
            front.push(map[sel.last() as int])
        }
    }
}

/// What is wrong with a level-0 block from entry `j` on.
pub open spec fn block_fault(b: Seq<u32>, slot: int, indexed: int, j: int, ended: bool) -> Option<
    &'static str,
>
    decreases b.len() - j,
{
    if j >= b.len() {
        None
    } else if b[j] == id::NONE_U32 {
        block_fault(b, slot, indexed, j + 1, true)
    } else if ended {
        Some("hnsw level0 padding is not canonical")
    } else if b[j] >= indexed || b[j] == slot {
        Some("hnsw level0 neighbor out of range")
    } else {
        block_fault(b, slot, indexed, j + 1, ended)
    }
}

/// The fault of the first faulty block from `slot` on.
pub open spec fn level0_fault(g: HnswState, slot: int) -> Option<&'static str>
    decreases g.indexed - slot,
{
    if slot >= g.indexed {
        None
    } else {
        match block_fault(block(g, slot), slot, g.indexed as int, 0, false) {
            Some(what) => Some(what),
            None => level0_fault(g, slot + 1),
        }
    }
}

/// Every neighbor is another node of the graph.
pub open spec fn list_in_range(list: Seq<u32>, slot: u32, indexed: u32) -> bool {
    forall|j: int|
        0 <= j < list.len() ==> (#[trigger] list[j]) < indexed && list[j] != slot
}

/// What is wrong with an upper-level list.
pub open spec fn upper_list_fault(
    g: HnswState,
    dim: int,
    pool: Seq<u8>,
    i: int,
) -> Option<&'static str> {
    let row = g.upper[i];
    let fact = vecpool::fact_of(vecpool::slot_at(dim, pool, row.slot as int));
    if row.slot >= g.indexed {
        Some("hnsw upper handle out of range")
    } else if row.level == 0 || row.level > level_of(g.m, fact) {
        Some("hnsw upper level disagrees with the hash")
    } else if !list_in_range(g.lists[i], row.slot, g.indexed) {
        Some("hnsw upper neighbor out of range")
    } else if g.lists[i].len() > g.m {
        Some("hnsw upper list disagrees with its handle")
    } else {
        None
    }
}

/// The fault of the first faulty upper-level list from `i` on.
pub open spec fn upper_fault(g: HnswState, dim: int, pool: Seq<u8>, i: int) -> Option<
    &'static str,
>
    decreases g.upper.len() - i,
{
    if i >= g.upper.len() {
        None
    } else {
        match upper_list_fault(g, dim, pool, i) {
            Some(what) => Some(what),
            None => upper_fault(g, dim, pool, i + 1),
        }
    }
}

/// What is wrong with a graph over a pool.
pub open spec fn graph_fault(g: HnswState, dim: int, pool: Seq<u8>) -> Option<&'static str> {
    if g.indexed > vecpool::slot_count(dim, pool) {
        Some("hnsw indexes more slots than the pool")
    } else if g.level0.len() != g.indexed * g.m0 {
        Some("hnsw level0 disagrees with indexed")
    } else if g.indexed == 0 {
        if g.entry != id::NONE_U32 || g.upper.len() > 0 {
            Some("hnsw empty graph carries state")
        } else {
            None
        }
    } else if g.entry >= g.indexed {
        Some("hnsw entry out of range")
    } else {
        match level0_fault(g, 0) {
            Some(what) => Some(what),
            None => upper_fault(g, dim, pool, 0),
        }
    }
}

/// The upper levels of one surviving node, from `level` on, carried over.
pub open spec fn levels_remapped(
    g: HnswState,
    n: HnswState,
    max_bytes: int,
    map: Seq<u32>,
    from: u32,
    new: u32,
    level: int,
    top: int,
) -> Result<HnswState, ArenaError>
    decreases top - level + 1,
{
    if level > top {
        Ok(n)
    } else {
        let list = neighbors(g, from, level);
        let step = if list.len() == 0 {
            Ok(n)
        } else {
            list_written(n, max_bytes, new, level, mapped(map, list))
        };
        match step {
            Err(e) => Err(e),
            Ok(next) => levels_remapped(g, next, max_bytes, map, from, new, level + 1, top),
        }
    }
}

/// The level of a pool slot's fact.
pub open spec fn slot_level(m: int, dim: int, pool: Seq<u8>, slot: int) -> int {
    level_of(m, vecpool::fact_of(vecpool::slot_at(dim, pool, slot)))
}

/// One node carried over: nothing when it was purged.
pub open spec fn node_remapped(
    g: HnswState,
    n: HnswState,
    max_bytes: int,
    map: Seq<u32>,
    dim: int,
    pool: Seq<u8>,
    from: u32,
) -> Result<HnswState, Error> {
    let new = map[from as int];
    if new == id::NONE_U32 {
        Ok(n)
    } else if new >= n.indexed {
        Err(Error::Corrupt("hnsw nodes are not in slot order"))
    } else {
        match list_written(n, max_bytes, new, 0, mapped(map, neighbors(g, from, 0))) {
            Err(e) => Err(Error::Arena(e)),
            Ok(next) => table::lifted(
                levels_remapped(
                    g,
                    next,
                    max_bytes,
                    map,
                    from,
                    new,
                    1,
                    slot_level(g.m, dim, pool, new as int),
                ),
            ),
        }
    }
}

/// The first `k` nodes carried over.
pub open spec fn nodes_remapped(
    g: HnswState,
    n: HnswState,
    max_bytes: int,
    map: Seq<u32>,
    dim: int,
    pool: Seq<u8>,
    k: nat,
) -> Result<HnswState, Error>
    decreases k,
{
    if k == 0 {
        Ok(n)
    } else {
        match nodes_remapped(g, n, max_bytes, map, dim, pool, (k - 1) as nat) {
            Err(e) => Err(e),
            Ok(next) => node_remapped(g, next, max_bytes, map, dim, pool, (k - 1) as u32),
        }
    }
}

/// How many of the first `k` slots survive.
pub open spec fn survivors(map: Seq<u32>, k: nat) -> nat
    decreases k,
{
    if k == 0 {
        0
    } else {
        survivors(map, (k - 1) as nat) + (if map[k - 1] == id::NONE_U32 {
            0nat
        } else {
            1
        })
    }
}

/// The node of the highest level among the first `k`, the earliest on a tie.
pub open spec fn best_entry(m: int, dim: int, pool: Seq<u8>, k: nat) -> u32
    decreases k,
{
    if k == 0 {
        id::NONE_U32
    } else {
        let best = best_entry(m, dim, pool, (k - 1) as nat);
        if best == id::NONE_U32 || slot_level(m, dim, pool, k - 1) > slot_level(
            m,
            dim,
            pool,
            best as int,
        ) {
            (k - 1) as u32
        } else {
            best
        }
    }
}

/// A graph without links over the surviving slots.
pub open spec fn unlinked(g: HnswState, map: Seq<u32>) -> HnswState {
    let n = survivors(map, g.indexed as nat);
    HnswState {
        level0: Seq::new((n * g.m0) as nat, |i: int| id::NONE_U32),
        indexed: n as u32,
        ..no_nodes(g.m, g.m0)
    }
}

/// The graph carried across a compaction.
pub open spec fn graph_remapped(
    g: HnswState,
    max_bytes: int,
    map: Seq<u32>,
    dim: int,
    pool: Seq<u8>,
) -> Result<HnswState, Error> {
    if survivors(map, g.indexed as nat) > vecpool::slot_count(dim, pool) {
        Err(Error::Corrupt("hnsw indexes more slots than the pool"))
    } else {
        match nodes_remapped(g, unlinked(g, map), max_bytes, map, dim, pool, g.indexed as nat) {
            Err(e) => Err(e),
            Ok(n) => {
                let entry = if g.entry != id::NONE_U32 && map[g.entry as int] != id::NONE_U32 {
                    map[g.entry as int]
                } else {
                    best_entry(g.m, dim, pool, n.indexed as nat)
                };
                let out = HnswState { entry, ..n };
                match graph_fault(out, dim, pool) {
                    Some(what) => Err(Error::Corrupt(what)),
                    None => Ok(out),
                }
            },
        }
    }
}

/// The stored values of a run of bytes.
pub open spec fn values_at(b: Seq<u8>) -> Seq<u32> {
    Seq::new(b.len() / 4, |i: int| codec::num_at(b, 4 * i, 4) as u32)
}

/// Where the list of row `i` starts among the stored values.
pub open spec fn list_start(upper: Seq<UpperSlot>, i: int) -> int
    decreases i,
{
    if i <= 0 {
        0
    } else {
        list_start(upper, i - 1) + upper[i - 1].count
    }
}

/// The lists cut out of the stored values.
pub open spec fn lists_at(upper: Seq<UpperSlot>, values: Seq<u32>) -> Seq<Seq<u32>> {
    Seq::new(
        upper.len(),
        |i: int| values.subrange(list_start(upper, i), list_start(upper, i) + upper[i].count),
    )
}

/// The sections of a stored graph.
pub struct GraphSections {
    pub meta: Seq<u8>,
    pub level0: Seq<u8>,
    pub upper_meta: Seq<u8>,
    pub upper_pool: Seq<u8>,
    pub lists_meta: Seq<u8>,
    pub lists_pool: Seq<u8>,
}

/// What a stored graph holds; only the framing is checked.
pub open spec fn graph_loaded(m: int, m0: int, max_bytes: int, s: GraphSections) -> Result<
    HnswState,
    Error,
> {
    let indexed = codec::num_at(s.meta, 4, 4) as u32;
    if s.meta.len() != 8 {
        Err(Error::Corrupt("hnsw meta section has a wrong length"))
    } else if s.level0.len() != indexed * m0 * 4 {
        Err(Error::Corrupt("hnsw level0 length mismatch"))
    } else {
        match table::table_loaded::<UpperSlot>(s.upper_meta, s.upper_pool, max_bytes) {
            Err(e) => Err(Error::Arena(e)),
            Ok(upper) => if s.lists_meta.len() != 8 || s.lists_pool.len() % 4 != 0
                || codec::num_at(s.lists_meta, 0, 8) != s.lists_pool.len() / 4 {
                Err(Error::Corrupt("hnsw upper list is not a slot sequence"))
            } else if list_start(upper, upper.len() as int) != s.lists_pool.len() / 4 {
                Err(Error::Corrupt("hnsw upper list disagrees with its handle"))
            } else {
                Ok(
                    HnswState {
                        m,
                        m0,
                        level0: values_at(s.level0),
                        upper,
                        lists: lists_at(upper, values_at(s.lists_pool)),
                        entry: codec::num_at(s.meta, 0, 4) as u32,
                        indexed,
                    },
                )
            },
        }
    }
}

/// The values as little-endian bytes.
pub open spec fn value_bytes(xs: Seq<u32>) -> Seq<u8> {
    parse::flat(|x: u32| codec::le32(x), xs)
}

/// The lists, one behind the other.
pub open spec fn joined(lists: Seq<Seq<u32>>) -> Seq<u32>
    decreases lists.len(),
{
    if lists.len() == 0 {
        Seq::empty()
    } else {
        joined(lists.drop_last()) + lists.last()
    }
}

/// A graph as its sections.
pub open spec fn graph_sections(g: HnswState) -> GraphSections {
    GraphSections {
        meta: codec::le32(g.entry) + codec::le32(g.indexed),
        level0: value_bytes(g.level0),
        upper_meta: codec::le64(g.upper.len() as u64),
        upper_pool: table::rows_bytes(g.upper),
        lists_meta: codec::le64(joined(g.lists).len() as u64),
        lists_pool: value_bytes(joined(g.lists)),
    }
}

/// The navigable graph.
pub struct HnswGraph {
    m: usize,
    m0: usize,
    level0: Vec<u32>,
    upper: Table<UpperSlot>,
    lists: Vec<Vec<u32>>,
    entry: u32,
    indexed: u32,
    thresholds: Vec<u64>,
}

pub open spec fn list_views(lists: Seq<Vec<u32>>) -> Seq<Seq<u32>> {
    lists.map_values(|l: Vec<u32>| l@)
}

impl View for HnswGraph {
    type V = HnswState;

    closed spec fn view(&self) -> HnswState {
        HnswState {
            m: self.m as int,
            m0: self.m0 as int,
            level0: self.level0@,
            upper: self.upper@,
            lists: list_views(self.lists@),
            entry: self.entry,
            indexed: self.indexed,
        }
    }
}

impl HnswGraph {
    pub closed spec fn wf(&self) -> bool {
        &&& 2 <= self.m
        &&& self.m <= self.m0
        &&& self.upper.wf()
        &&& self.lists@.len() == self.upper@.len()
        &&& forall|i: int|
            0 <= i < self.lists@.len() ==> (#[trigger] self.lists@[i])@.len()
                == self.upper@[i].count
        &&& self.thresholds@.len() == MAX_LEVEL
        &&& forall|k: int|
            0 <= k < MAX_LEVEL ==> (#[trigger] self.thresholds@[k]) == threshold(
                self.m as int,
                k as nat,
            )
    }

    /// The byte ceiling of the upper-level keys.
    pub closed spec fn ceiling(&self) -> int {
        self.upper.ceiling()
    }

    pub broadcast proof fn lemma_wf(&self)
        ensures
            #[trigger] self.wf() ==> table::ascending(self@.upper) && self@.lists.len()
                == self@.upper.len() && 2 <= self@.m <= self@.m0 && self@.level0.len()
                <= usize::MAX && self@.upper.len() * 12 <= self.ceiling(),
            self.wf() ==> forall|i: int|
                0 <= i < self@.lists.len() ==> (#[trigger] self@.lists[i]).len()
                    == self@.upper[i].count,
    {
        self.upper.lemma_wf();
        assert(self.level0.len() == self@.level0.len());
        if self.wf() {
            assert forall|i: int| 0 <= i < self@.lists.len() implies (
            #[trigger] self@.lists[i]).len() == self@.upper[i].count by {
                assert(self.lists@[i]@ == self@.lists[i]);
            }
        }
    }

    /// An empty graph for the given degree caps.
    pub fn new(m: usize, m0: usize, max_bytes: usize) -> (r: HnswGraph)
        requires
            2 <= m <= m0,
        ensures
            r.wf(),
            r@ == no_nodes(m as int, m0 as int),
            r.ceiling() == max_bytes,
    {
        let mut thresholds: Vec<u64> = Vec::new();
        let mut t: u64 = u64::MAX;
        let mut k: usize = 0;
        let d: u64 = m as u64;
        while k < MAX_LEVEL
            invariant
                k <= MAX_LEVEL,
                d == m,
                d >= 2,
                thresholds@.len() == k,
                t == (if k == 0 {
                    u64::MAX as int
                } else {
                    threshold(m as int, (k - 1) as nat)
                }),
                forall|j: int|
                    0 <= j < k ==> (#[trigger] thresholds@[j]) == threshold(m as int, j as nat),
            decreases MAX_LEVEL - k,
        {
            t = t / d;
            thresholds.push(t);
            k = k + 1;
        }
        let lists: Vec<Vec<u32>> = Vec::new();
        assert(list_views(lists@) =~= Seq::empty());
        HnswGraph {
            m,
            m0,
            level0: Vec::new(),
            upper: Table::new(max_bytes),
            lists,
            entry: id::NONE_U32,
            indexed: 0,
            thresholds,
        }
    }

    /// Number of slots covered by the graph.
    pub fn indexed(&self) -> (r: u32)
        ensures
            r == self@.indexed,
    {
        self.indexed
    }

    /// The level of a fact: the number of thresholds its hash stays below.
    pub fn level_of(&self, fact: u32) -> (r: usize)
        requires
            self.wf(),
        ensures
            r == level_of(self@.m, fact),
            r <= MAX_LEVEL,
    {
        let mut key: Vec<u8> = Vec::new();
        put_u32(&mut key, fact);
        assert(key@ =~= codec::le32(fact));
        let h: u64 = hash64(key.as_slice());
        let mut k: usize = 0;
        while k < MAX_LEVEL && h < self.thresholds[k]
            invariant
                k <= MAX_LEVEL,
                self.wf(),
                level_from(self@.m, h as int, 0) == k + level_from(self@.m, h as int, k as nat),
            decreases MAX_LEVEL - k,
        {
            k = k + 1;
        }
        k
    }

    /// The level-0 block of a node.
    fn block(&self, slot: u32) -> (r: &[u32])
        requires
            self.wf(),
            (slot + 1) * self@.m0 <= self@.level0.len(),
        ensures
            r@ == block(self@, slot as int),
            r@.len() == self@.m0,
    {
        proof {
            lemma_block(self@, slot as int);
        }
        let total: usize = self.level0.len();
        assert((slot + 1) * self.m0 <= total);
        let at: usize = slot as usize * self.m0;
        &self.level0.as_slice()[at..at + self.m0]
    }

    /// The neighbors of a node at a level.
    pub fn neighbors(&self, slot: u32, level: usize) -> (r: Vec<u32>)
        requires
            self.wf(),
            level <= MAX_LEVEL,
            level == 0 ==> (slot + 1) * self@.m0 <= self@.level0.len(),
        ensures
            r@ == neighbors(self@, slot, level as int),
    {
        let mut out: Vec<u32> = Vec::new();
        if level == 0 {
            let b: &[u32] = self.block(slot);
            let mut i: usize = 0;
            assert(b@.skip(0) =~= b@);
            assert(out@ + until_none(b@) =~= until_none(b@));
            while i < b.len() && b[i] != id::NONE_U32
                invariant
                    i <= b@.len(),
                    until_none(b@) == out@ + until_none(b@.skip(i as int)),
                decreases b@.len() - i,
            {
                let ghost before = out@;
                out.push(b[i]);
                proof {
                    assert(b@.skip(i as int).skip(1) =~= b@.skip(i + 1));
                    let rest = until_none(b@.skip(i + 1));
                    assert(before + (seq![b@[i as int]] + rest) =~= out@ + rest);
                }
                i = i + 1;
            }
            assert(out@ + Seq::<u32>::empty() =~= out@);
            return out;
        }
        let key: u128 = 0x1_0000_0000 * (slot as u128) + level as u128;
        let at: usize = self.upper.lower_bound(key);
        proof {
            self.upper.lemma_wf();
            table::lemma_rank(self.upper@, key as int);
        }
        if at < self.upper.len() && self.upper.row(at).key_of() == key {
            put_values(&self.lists[at], &mut out);
            assert(out@ =~= self@.lists[at as int]);
        } else {
            assert(!table::has_key(self@.upper, key as int));
        }
        assert(out@ =~= neighbors(self@, slot, level as int));
        out
    }

    /// Overwrites the neighbor list of `slot` at `level`.
    pub fn write_list(&mut self, slot: u32, level: usize, sel: &Vec<u32>) -> (r: Result<
        (),
        ArenaError,
    >)
        requires
            old(self).wf(),
            level <= MAX_LEVEL,
            level > 0 ==> sel@.len() <= u32::MAX,
            level == 0 ==> sel@.len() <= old(self)@.m0 && (slot + 1) * old(self)@.m0 <= old(
                self,
            )@.level0.len(),
        ensures
            final(self).wf(),
            final(self).ceiling() == old(self).ceiling(),
            match r {
                Ok(()) => list_written(
                    old(self)@,
                    old(self).ceiling(),
                    slot,
                    level as int,
                    sel@,
                ) == Ok::<_, ArenaError>(final(self)@),
                Err(e) => list_written(
                    old(self)@,
                    old(self).ceiling(),
                    slot,
                    level as int,
                    sel@,
                ) == Err::<HnswState, _>(e) && final(self)@ == old(self)@,
            },
    {
        let ghost g = self@;
        if level == 0 {
            proof {
                lemma_block(g, slot as int);
            }
            let total: usize = self.level0.len();
            assert((slot + 1) * self.m0 <= total);
            let at: usize = slot as usize * self.m0;
            let width: usize = self.m0;
            let mut i: usize = 0;
            let ghost want = with_block(g.level0, g.m0, slot as int, sel@);
            while i < width
                invariant
                    i <= width,
                    width == self.m0,
                    self.m0 == g.m0,
                    at == slot * g.m0,
                    at + width == (slot + 1) * g.m0,
                    at + width <= total,
                    total == g.level0.len(),
                    self.level0@.len() == g.level0.len(),
                    want == with_block(g.level0, g.m0, slot as int, sel@),
                    forall|j: int| at <= j < at + i ==> self.level0@[j] == want[j],
                    forall|j: int|
                        0 <= j < g.level0.len() && !(at <= j < at + i) ==> self.level0@[j]
                            == g.level0[j],
                    self.m == old(self).m,
                    self.upper == old(self).upper,
                    self.lists == old(self).lists,
                    self.entry == old(self).entry,
                    self.indexed == old(self).indexed,
                    self.thresholds == old(self).thresholds,
                    self.m0 == old(self).m0,
                decreases width - i,
            {
                let v: u32 = if i < sel.len() { sel[i] } else { id::NONE_U32 };
                self.level0[at + i] = v;
                i = i + 1;
            }
            assert(self.level0@ =~= want);
            return Ok(());
        }
        let row: UpperSlot = UpperSlot { slot, level: level as u32, count: sel.len() as u32 };
        let key: u128 = row.key_of();
        let at: usize = self.upper.lower_bound(key);
        proof {
            self.upper.lemma_wf();
            table::lemma_rank(self.upper@, key as int);
        }
        let mut list: Vec<u32> = Vec::new();
        put_values(sel, &mut list);
        assert(list@ =~= sel@);
        if at < self.upper.len() && self.upper.row(at).key_of() == key {
            self.upper.set(row);
            self.lists.set(at, list);
            assert(list_views(self.lists@) =~= g.lists.update(at as int, sel@));
            return Ok(());
        }
        assert(!table::has_key(self.upper@, key as int));
        let inserted: Result<bool, ArenaError> = self.upper.insert(row);
        if let Err(e) = inserted {
            return Err(e);
        }
        self.lists.insert(at, list);
        assert(list_views(self.lists@) =~= g.lists.insert(at as int, sel@));
        proof {
            assert forall|i: int| 0 <= i < self.lists@.len() implies (
            #[trigger] self.lists@[i])@.len() == self.upper@[i].count by {
                if i < at {
                    assert(self.lists@[i] == old(self).lists@[i]);
                } else if i > at {
                    assert(self.lists@[i] == old(self).lists@[i - 1]);
                }
            }
        }
        Ok(())
    }

    /// Bytes held by the graph.
    pub fn pool_bytes(&self) -> (r: u128)
        requires
            self.wf(),
        ensures
            r == self@.level0.len() * 4 + self@.upper.len() * 12 + values_held(self@.lists) * 4,
            r <= 0x10_0000_0000_0000_0000_0000_0000,
    {
        proof {
            self.upper.lemma_wf();
        }
        let rows: usize = self.lists.len();
        let mut n: u128 = 0;
        let mut i: usize = 0;
        let ghost lists = list_views(self.lists@);
        assert(lists.take(0) =~= Seq::empty());
        while i < self.lists.len()
            invariant
                i <= self.lists@.len(),
                rows == self.lists@.len(),
                lists == list_views(self.lists@),
                self.wf(),
                n == values_held(lists.take(i as int)),
                n <= i * 0xFFFF_FFFF,
            decreases self.lists@.len() - i,
        {
            assert(lists.take(i + 1).drop_last() =~= lists.take(i as int));
            n = n + self.lists[i].len() as u128;
            i = i + 1;
        }
        assert(lists.take(i as int) =~= lists);
        self.level0.len() as u128 * 4 + self.upper.pool_bytes() as u128 + n * 4
    }

    /// The graph header: entry point and coverage.
    pub fn dump_meta(&self) -> (r: Vec<u8>)
        ensures
            r@ == graph_sections(self@).meta,
    {
        let mut out: Vec<u8> = Vec::new();
        put_u32(&mut out, self.entry);
        put_u32(&mut out, self.indexed);
        assert(out@ =~= graph_sections(self@).meta);
        out
    }

    /// The level-0 blocks.
    pub fn dump_level0(&self) -> (r: Vec<u8>)
        ensures
            r@ == graph_sections(self@).level0,
    {
        let mut out: Vec<u8> = Vec::new();
        put_u32s(&mut out, &self.level0);
        assert(out@ =~= graph_sections(self@).level0);
        out
    }

    /// The four upper-level sections: keys (count, rows) and lists (count,
    /// values).
    pub fn dump_upper(&self) -> (r: (Vec<u8>, Vec<u8>, Vec<u8>, Vec<u8>))
        requires
            self.wf(),
        ensures
            r.0@ == graph_sections(self@).upper_meta,
            r.1@ == graph_sections(self@).upper_pool,
            r.2@ == graph_sections(self@).lists_meta,
            r.3@ == graph_sections(self@).lists_pool,
    {
        let mut values: Vec<u32> = Vec::new();
        let mut i: usize = 0;
        let ghost lists = list_views(self.lists@);
        assert(lists.take(0) =~= Seq::empty());
        while i < self.lists.len()
            invariant
                i <= self.lists@.len(),
                lists == list_views(self.lists@),
                values@ == joined(lists.take(i as int)),
            decreases self.lists@.len() - i,
        {
            assert(lists.take(i + 1).drop_last() =~= lists.take(i as int));
            put_values(&self.lists[i], &mut values);
            i = i + 1;
        }
        assert(lists.take(i as int) =~= lists);
        let mut meta: Vec<u8> = Vec::new();
        put_u64(&mut meta, values.len() as u64);
        assert(meta@ =~= codec::le64(values@.len() as u64));
        let mut pool: Vec<u8> = Vec::new();
        put_u32s(&mut pool, &values);
        assert(pool@ =~= value_bytes(values@));
        (self.upper.dump_meta(), self.upper.dump_pool(), meta, pool)
    }

    /// Rebuilds a graph from its sections. Only the framing is checked here;
    /// [`HnswGraph::validate`] checks the references.
    pub fn from_parts(
        m: usize,
        m0: usize,
        max_bytes: usize,
        meta: &[u8],
        level0: &[u8],
        upper_meta: &[u8],
        upper_pool: &[u8],
        lists_meta: &[u8],
        lists_pool: &[u8],
    ) -> (r: Result<HnswGraph, Error>)
        requires
            2 <= m <= m0,
        ensures
            ({
                let s = GraphSections {
                    meta: meta@,
                    level0: level0@,
                    upper_meta: upper_meta@,
                    upper_pool: upper_pool@,
                    lists_meta: lists_meta@,
                    lists_pool: lists_pool@,
                };
                match r {
                    Ok(g) => g.wf() && g.ceiling() == max_bytes && graph_loaded(
                        m as int,
                        m0 as int,
                        max_bytes as int,
                        s,
                    ) == Ok::<_, Error>(g@),
                    Err(e) => graph_loaded(m as int, m0 as int, max_bytes as int, s) == Err::<
                        HnswState,
                        _,
                    >(e),
                }
            }),
    {
        if meta.len() != 8 {
            return Err(Error::Corrupt("hnsw meta section has a wrong length"));
        }
        let entry: u32 = get_u32(meta, 0);
        let indexed: u32 = get_u32(meta, 4);
        assert(indexed * m0 * 4 <= 0xFFFF_FFFF * 0xFFFF_FFFF_FFFF_FFFF * 4) by (nonlinear_arith)
            requires
                indexed <= 0xFFFF_FFFF,
                m0 <= 0xFFFF_FFFF_FFFF_FFFF,
        ;
        assert(indexed * m0 <= 0xFFFF_FFFF * 0xFFFF_FFFF_FFFF_FFFF) by (nonlinear_arith)
            requires
                indexed <= 0xFFFF_FFFF,
                m0 <= 0xFFFF_FFFF_FFFF_FFFF,
        ;
        if level0.len() as u128 != indexed as u128 * m0 as u128 * 4 {
            return Err(Error::Corrupt("hnsw level0 length mismatch"));
        }
        let upper: Table<UpperSlot> = match Table::load(upper_meta, upper_pool, max_bytes) {
            Ok(t) => t,
            Err(e) => {
                return Err(Error::Arena(e));
            },
        };
        if lists_meta.len() != 8 || lists_pool.len() % 4 != 0 || get_u64(lists_meta, 0) != (
        lists_pool.len() / 4) as u64 {
            return Err(Error::Corrupt("hnsw upper list is not a slot sequence"));
        }
        proof {
            upper.lemma_wf();
        }
        let n: usize = upper.len();
        let total: u128 = (lists_pool.len() / 4) as u128;
        let mut want: u128 = 0;
        let mut i: usize = 0;
        while i < n
            invariant
                i <= n,
                n == upper@.len(),
                want == list_start(upper@, i as int),
                want <= i * 0xFFFF_FFFF,
            decreases n - i,
        {
            want = want + upper.row(i).count as u128;
            i = i + 1;
        }
        if want != total {
            return Err(Error::Corrupt("hnsw upper list disagrees with its handle"));
        }
        let mut g: HnswGraph = HnswGraph::new(m, m0, max_bytes);
        let ghost values = values_at(lists_pool@);
        let mut lists: Vec<Vec<u32>> = Vec::new();
        let mut at: usize = 0;
        let mut j: usize = 0;
        let held: usize = lists_pool.len();
        while j < n
            invariant
                j <= n,
                held == lists_pool@.len(),
                n == upper@.len(),
                values == values_at(lists_pool@),
                lists_pool@.len() % 4 == 0,
                list_start(upper@, n as int) == lists_pool@.len() / 4,
                at == list_start(upper@, j as int),
                lists@.len() == j,
                forall|k: int|
                    0 <= k < j ==> (#[trigger] lists@[k])@ == values.subrange(
                        list_start(upper@, k),
                        list_start(upper@, k) + upper@[k].count,
                    ),
            decreases n - j,
        {
            proof {
                lemma_starts(upper@, j + 1, n as int);
            }
            let count: usize = upper.row(j).count as usize;
            let part: &[u8] = &lists_pool[4 * at..4 * (at + count)];
            let list: Vec<u32> = read_values(part);
            proof {
                assert(part@ == lists_pool@.subrange(4 * at as int, 4 * (at + count)));
                assert forall|k: int| 0 <= k < count implies #[trigger] values_at(part@)[k]
                    == values[at + k] by {
                    assert(part@.subrange(4 * k, 4 * k + 4) =~= lists_pool@.subrange(
                        4 * (at + k),
                        4 * (at + k) + 4,
                    ));
                }
                assert(list@ =~= values.subrange(at as int, at + count));
            }
            lists.push(list);
            at = at + count;
            j = j + 1;
        }
        g.entry = entry;
        g.indexed = indexed;
        g.level0 = read_values(level0);
        g.upper = upper;
        g.lists = lists;
        proof {
            assert(list_views(g.lists@) =~= lists_at(upper@, values));
            assert forall|k: int| 0 <= k < g.lists@.len() implies (
            #[trigger] g.lists@[k])@.len() == g.upper@[k].count by {
                lemma_starts(upper@, k + 1, n as int);
                lemma_starts(upper@, 0, k);
            }
        }
        Ok(g)
    }

    /// Checks every reference against the vector pool.
    pub fn validate(&self, pool: &VecPool) -> (r: Result<(), Error>)
        requires
            self.wf(),
            pool.wf(),
        ensures
            r == (match graph_fault(self@, pool.dimension(), pool@) {
                Some(what) => Err(Error::Corrupt(what)),
                None => Ok(()),
            }),
    {
        if self.indexed as usize > pool.len() {
            return Err(Error::Corrupt("hnsw indexes more slots than the pool"));
        }
        assert(self.indexed * self.m0 <= 0xFFFF_FFFF * 0xFFFF_FFFF_FFFF_FFFF) by (nonlinear_arith)
            requires
                self.indexed <= 0xFFFF_FFFF,
                self.m0 <= 0xFFFF_FFFF_FFFF_FFFF,
        ;
        if self.level0.len() as u128 != self.indexed as u128 * self.m0 as u128 {
            return Err(Error::Corrupt("hnsw level0 disagrees with indexed"));
        }
        if self.indexed == 0 {
            if self.entry != id::NONE_U32 || !self.upper.is_empty() {
                return Err(Error::Corrupt("hnsw empty graph carries state"));
            }
            return Ok(());
        }
        if self.entry >= self.indexed {
            return Err(Error::Corrupt("hnsw entry out of range"));
        }
        let mut slot: u32 = 0;
        while slot < self.indexed
            invariant
                slot <= self.indexed,
                self.wf(),
                self.level0@.len() == self.indexed * self.m0,
                graph_fault(self@, pool.dimension(), pool@) == (match level0_fault(self@, 0) {
                    Some(what) => Some(what),
                    None => upper_fault(self@, pool.dimension(), pool@, 0),
                }),
                level0_fault(self@, 0) == level0_fault(self@, slot as int),
            decreases self.indexed - slot,
        {
            proof {
                lemma_fits(slot + 1, self.indexed as int, self.m0 as int);
            }
            let b: &[u32] = self.block(slot);
            if let Some(what) = block_check(b, slot, self.indexed) {
                return Err(Error::Corrupt(what));
            }
            slot = slot + 1;
        }
        let mut i: usize = 0;
        proof {
            self.lemma_wf();
        }
        while i < self.upper.len()
            invariant
                i <= self.upper@.len(),
                self.wf(),
                pool.wf(),
                self.indexed <= vecpool::slot_count(pool.dimension(), pool@),
                graph_fault(self@, pool.dimension(), pool@) == (match level0_fault(self@, 0) {
                    Some(what) => Some(what),
                    None => upper_fault(self@, pool.dimension(), pool@, 0),
                }),
                level0_fault(self@, 0) is None,
                upper_fault(self@, pool.dimension(), pool@, 0) == upper_fault(
                    self@,
                    pool.dimension(),
                    pool@,
                    i as int,
                ),
            decreases self.upper@.len() - i,
        {
            let row: UpperSlot = self.upper.row(i);
            if row.slot >= self.indexed {
                return Err(Error::Corrupt("hnsw upper handle out of range"));
            }
            let top: usize = self.level_of(pool.slot_fact(row.slot as usize));
            if row.level == 0 || row.level as usize > top {
                return Err(Error::Corrupt("hnsw upper level disagrees with the hash"));
            }
            assert(self@.lists[i as int] == self.lists@[i as int]@);
            if !in_range(&self.lists[i], row.slot, self.indexed) {
                return Err(Error::Corrupt("hnsw upper neighbor out of range"));
            }
            if self.lists[i].len() > self.m {
                return Err(Error::Corrupt("hnsw upper list disagrees with its handle"));
            }
            i = i + 1;
        }
        Ok(())
    }
    /// The neighbors that survive a compaction, renumbered.
    fn mapped_neighbors(&self, map: &Vec<u32>, slot: u32, level: usize) -> (r: Vec<u32>)
        requires
            self.wf(),
            level <= MAX_LEVEL,
            level == 0 ==> (slot + 1) * self@.m0 <= self@.level0.len(),
            forall|k: int|
                0 <= k < neighbors(self@, slot, level as int).len() ==> (#[trigger] neighbors(
                    self@,
                    slot,
                    level as int,
                )[k]) < map@.len(),
        ensures
            r@ == mapped(map@, neighbors(self@, slot, level as int)),
            r@.len() <= neighbors(self@, slot, level as int).len(),
    {
        let list: Vec<u32> = self.neighbors(slot, level);
        let mut out: Vec<u32> = Vec::new();
        let mut i: usize = 0;
        assert(list@.take(0) =~= Seq::empty());
        while i < list.len()
            invariant
                i <= list@.len(),
                forall|k: int| 0 <= k < list@.len() ==> (#[trigger] list@[k]) < map@.len(),
                out@ == mapped(map@, list@.take(i as int)),
                out@.len() <= i,
            decreases list@.len() - i,
        {
            assert(list@.take(i + 1).drop_last() =~= list@.take(i as int));
            let to: u32 = map[list[i] as usize];
            if to != id::NONE_U32 {
                out.push(to);
            }
            i = i + 1;
        }
        assert(list@.take(i as int) =~= list@);
        out
    }

    /// Carries one node over into `out`.
    fn remap_node(&self, out: &mut HnswGraph, map: &Vec<u32>, pool: &VecPool, from: u32) -> (r: Result<
        (),
        Error,
    >)
        requires
            self.wf(),
            usable(self@, map@.len() as int),
            from < self@.indexed,
            pool.wf(),
            old(out).wf(),
            old(out)@.m == self@.m,
            old(out)@.m0 == self@.m0,
            old(out)@.level0.len() == old(out)@.indexed * self@.m0,
            old(out)@.indexed <= vecpool::slot_count(pool.dimension(), pool@),
        ensures
            final(out).wf(),
            final(out).ceiling() == old(out).ceiling(),
            match r {
                Ok(()) => node_remapped(
                    self@,
                    old(out)@,
                    old(out).ceiling(),
                    map@,
                    pool.dimension(),
                    pool@,
                    from,
                ) == Ok::<_, Error>(final(out)@) && final(out)@.m == self@.m && final(out)@.m0
                    == self@.m0 && final(out)@.level0.len() == old(out)@.level0.len() && final(
                    out)@.indexed == old(out)@.indexed,
                Err(e) => node_remapped(
                    self@,
                    old(out)@,
                    old(out).ceiling(),
                    map@,
                    pool.dimension(),
                    pool@,
                    from,
                ) == Err::<HnswState, _>(e),
            },
    {
        let ghost g = self@;
        let ghost start = out@;
        let ghost max = out.ceiling();
        let new: u32 = map[from as usize];
        if new == id::NONE_U32 {
            return Ok(());
        }
        if new >= out.indexed {
            return Err(Error::Corrupt("hnsw nodes are not in slot order"));
        }
        proof {
            lemma_fits(from + 1, g.indexed as int, g.m0);
            lemma_fits(new + 1, start.indexed as int, g.m0);
            lemma_usable(g, map@.len() as int, from, 0);
            lemma_until_none(block(g, from as int));
            lemma_block(g, from as int);
        }
        let sel: Vec<u32> = self.mapped_neighbors(map, from, 0);
        if let Err(e) = out.write_list(new, 0, &sel) {
            return Err(Error::Arena(e));
        }
        let top: usize = out.level_of(pool.slot_fact(new as usize));
        let mut level: usize = 1;
        let ghost first = out@;
        while level <= top
            invariant
                1 <= level <= top + 1,
                top <= MAX_LEVEL,
                top == slot_level(g.m, pool.dimension(), pool@, new as int),
                g == self@,
                self.wf(),
                usable(g, map@.len() as int),
                from < g.indexed,
                pool.wf(),
                out.wf(),
                out.ceiling() == max,
                out@.m == g.m,
                out@.m0 == g.m0,
                out@.level0.len() == start.level0.len(),
                out@.indexed == start.indexed,
                levels_remapped(g, first, max, map@, from, new, 1, top as int) == levels_remapped(
                    g,
                    out@,
                    max,
                    map@,
                    from,
                    new,
                    level as int,
                    top as int,
                ),
                node_remapped(g, start, max, map@, pool.dimension(), pool@, from) == table::lifted(
                    levels_remapped(g, first, max, map@, from, new, 1, top as int),
                ),
                max == old(out).ceiling(),
                start == old(out)@,
            decreases top + 1 - level,
        {
            proof {
                self.lemma_wf();
                lemma_usable(g, map@.len() as int, from, level as int);
                if table::has_key(g.upper, list_key(from, level as int)) {
                    table::lemma_rank(g.upper, list_key(from, level as int));
                    let at = table::rank(g.upper, list_key(from, level as int));
                    assert(g.lists[at].len() == g.upper[at].count);
                }
            }
            let list: Vec<u32> = self.neighbors(from, level);
            if list.len() > 0 {
                let sel: Vec<u32> = self.mapped_neighbors(map, from, level);
                if let Err(e) = out.write_list(new, level, &sel) {
                    return Err(Error::Arena(e));
                }
            }
            level = level + 1;
        }
        Ok(())
    }

    /// Carries the graph across a compaction: `map[old_slot]` is the new slot
    /// or the sentinel for a purged vector. Dead neighbors drop out; the entry
    /// follows the map or is picked anew, the highest level first.
    pub fn remapped(&self, map: &Vec<u32>, pool: &VecPool, max_bytes: usize) -> (r: Result<
        HnswGraph,
        Error,
    >)
        requires
            self.wf(),
            usable(self@, map@.len() as int),
            pool.wf(),
        ensures
            match r {
                Ok(g) => g.wf() && g.ceiling() == max_bytes && g@.m == self@.m && g@.m0 == self@.m0
                    && graph_remapped(
                    self@,
                    max_bytes as int,
                    map@,
                    pool.dimension(),
                    pool@,
                ) == Ok::<_, Error>(g@) && graph_fault(g@, pool.dimension(), pool@) is None,
                Err(e) => graph_remapped(
                    self@,
                    max_bytes as int,
                    map@,
                    pool.dimension(),
                    pool@,
                ) == Err::<HnswState, _>(e),
            },
    {
        let ghost g = self@;
        let mut out: HnswGraph = HnswGraph::new(self.m, self.m0, max_bytes);
        let mut n: u32 = 0;
        let mut i: u32 = 0;
        while i < self.indexed
            invariant
                i <= self.indexed <= map@.len(),
                n <= i,
                n == survivors(map@, i as nat),
            decreases self.indexed - i,
        {
            if map[i as usize] != id::NONE_U32 {
                n = n + 1;
            }
            i = i + 1;
        }
        if n as usize > pool.len() {
            return Err(Error::Corrupt("hnsw indexes more slots than the pool"));
        }
        proof {
            lemma_fits(n as int, g.indexed as int, g.m0);
        }
        let total: usize = self.level0.len();
        assert(n * self.m0 <= total);
        let width: usize = n as usize * self.m0;
        let mut j: usize = 0;
        while j < width
            invariant
                j <= width,
                out.wf(),
                out.ceiling() == max_bytes,
                out@ == (HnswState { level0: out@.level0, ..no_nodes(g.m, g.m0) }),
                out@.level0.len() == j,
                forall|k: int| 0 <= k < j ==> out@.level0[k] == id::NONE_U32,
            decreases width - j,
        {
            out.level0.push(id::NONE_U32);
            j = j + 1;
        }
        out.indexed = n;
        assert(out@ =~= unlinked(g, map@));
        let ghost base = out@;
        let mut k: u32 = 0;
        while k < self.indexed
            invariant
                k <= self.indexed,
                g == self@,
                self.wf(),
                usable(g, map@.len() as int),
                pool.wf(),
                out.wf(),
                out.ceiling() == max_bytes,
                out@.m == g.m,
                out@.m0 == g.m0,
                out@.level0.len() == out@.indexed * g.m0,
                out@.indexed == n,
                n == survivors(map@, g.indexed as nat),
                n <= vecpool::slot_count(pool.dimension(), pool@),
                base == unlinked(g, map@),
                nodes_remapped(
                    g,
                    base,
                    max_bytes as int,
                    map@,
                    pool.dimension(),
                    pool@,
                    k as nat,
                ) == Ok::<_, Error>(out@),
            decreases self.indexed - k,
        {
            if let Err(e) = self.remap_node(&mut out, map, pool, k) {
                proof {
                    lemma_nodes_err(
                        g,
                        base,
                        max_bytes as int,
                        map@,
                        pool.dimension(),
                        pool@,
                        (k + 1) as nat,
                        g.indexed as nat,
                    );
                }
                return Err(e);
            }
            k = k + 1;
        }
        let ghost linked = out@;
        if self.entry != id::NONE_U32 && map[self.entry as usize] != id::NONE_U32 {
            out.entry = map[self.entry as usize];
        } else {
            let mut best: u32 = id::NONE_U32;
            let mut best_level: usize = 0;
            let mut slot: u32 = 0;
            while slot < n
                invariant
                    slot <= n,
                    n == survivors(map@, g.indexed as nat),
                    n <= vecpool::slot_count(pool.dimension(), pool@),
                    pool.wf(),
                    out.wf(),
                    out@ == linked,
                    out@.m == g.m,
                    best == best_entry(g.m, pool.dimension(), pool@, slot as nat),
                    best != id::NONE_U32 ==> best < slot && best_level == slot_level(
                        g.m,
                        pool.dimension(),
                        pool@,
                        best as int,
                    ),
                decreases n - slot,
            {
                let level: usize = out.level_of(pool.slot_fact(slot as usize));
                if best == id::NONE_U32 || level > best_level {
                    best = slot;
                    best_level = level;
                }
                slot = slot + 1;
            }
            out.entry = best;
        }
        match out.validate(pool) {
            Ok(()) => Ok(out),
            Err(e) => Err(e),
        }
    }
}

/// Every slot and neighbor of the graph is below `n`.
pub open spec fn usable(g: HnswState, n: int) -> bool {
    &&& g.indexed <= n
    &&& g.level0.len() == g.indexed * g.m0
    &&& g.entry == id::NONE_U32 || g.entry < n
    &&& forall|i: int| 0 <= i < g.level0.len() ==> (#[trigger] g.level0[i]) == id::NONE_U32
        || g.level0[i] < n
    &&& forall|i: int, j: int|
        0 <= i < g.lists.len() && 0 <= j < g.lists[i].len() ==> (#[trigger] g.lists[i][j]) < n
}

pub proof fn lemma_until_none(b: Seq<u32>)
    ensures
        until_none(b).len() <= b.len(),
        forall|i: int|
            0 <= i < until_none(b).len() ==> (#[trigger] until_none(b)[i]) == b[i] && b[i]
                != id::NONE_U32,
    decreases b.len(),
{
    if b.len() > 0 && b[0] != id::NONE_U32 {
        lemma_until_none(b.skip(1));
        assert forall|i: int| 0 <= i < until_none(b).len() implies (#[trigger] until_none(b)[i])
            == b[i] && b[i] != id::NONE_U32 by {
            if i > 0 {
                assert(until_none(b)[i] == until_none(b.skip(1))[i - 1]);
            }
        }
    }
}

proof fn lemma_usable(g: HnswState, n: int, slot: u32, level: int)
    requires
        usable(g, n),
        slot < g.indexed,
        table::ascending(g.upper) || level == 0,
        g.upper.len() == g.lists.len(),
        g.m0 >= 0,
    ensures
        forall|k: int|
            0 <= k < neighbors(g, slot, level).len() ==> (#[trigger] neighbors(g, slot, level)[k])
                < n,
{
    if level == 0 {
        let b = block(g, slot as int);
        lemma_fits(slot + 1, g.indexed as int, g.m0);
        lemma_block(g, slot as int);
        lemma_until_none(b);
        assert forall|k: int| 0 <= k < until_none(b).len() implies (#[trigger] until_none(b)[k])
            < n by {
            assert(b[k] == g.level0[slot * g.m0 + k]);
        }
    } else if table::has_key(g.upper, list_key(slot, level)) {
        table::lemma_rank(g.upper, list_key(slot, level));
    }
}

proof fn lemma_nodes_err(
    g: HnswState,
    n: HnswState,
    max_bytes: int,
    map: Seq<u32>,
    dim: int,
    pool: Seq<u8>,
    k: nat,
    m: nat,
)
    requires
        k <= m,
        nodes_remapped(g, n, max_bytes, map, dim, pool, k) is Err,
    ensures
        nodes_remapped(g, n, max_bytes, map, dim, pool, m) == nodes_remapped(
            g,
            n,
            max_bytes,
            map,
            dim,
            pool,
            k,
        ),
    decreases m - k,
{
    if k < m {
        lemma_nodes_err(g, n, max_bytes, map, dim, pool, k, (m - 1) as nat);
    }
}

/// A graph that passes the checks refers only to slots of its pool.
pub proof fn lemma_valid_is_usable(g: HnswState, dim: int, pool: Seq<u8>)
    requires
        graph_fault(g, dim, pool) is None,
        g.m0 >= 1,
        g.upper.len() == g.lists.len(),
    ensures
        usable(g, vecpool::slot_count(dim, pool)),
{
    let n = vecpool::slot_count(dim, pool);
    assert forall|i: int| 0 <= i < g.level0.len() implies (#[trigger] g.level0[i]) == id::NONE_U32
        || g.level0[i] < n by {
        let slot = i / g.m0;
        let w = g.m0;
        let x = g.indexed as int;
        assert(0 <= slot < x && slot * w <= i < (slot + 1) * w) by (nonlinear_arith)
            requires
                0 <= i < x * w,
                w >= 1,
                slot == i / w,
        ;
        lemma_fits(slot + 1, x, w);
        lemma_level0_ok(g, 0, slot);
        lemma_block_ok(block(g, slot), slot, x, 0, false, i - slot * w);
        assert(block(g, slot)[i - slot * w] == g.level0[i]);
    }
    assert forall|i: int, j: int|
        0 <= i < g.lists.len() && 0 <= j < g.lists[i].len() implies (#[trigger] g.lists[i][j]) < n by {
        lemma_upper_ok(g, dim, pool, 0, i);
        assert(list_in_range(g.lists[i], g.upper[i].slot, g.indexed));
    }
}

proof fn lemma_level0_ok(g: HnswState, from: int, slot: int)
    requires
        level0_fault(g, from) is None,
        from <= slot < g.indexed,
    ensures
        block_fault(block(g, slot), slot, g.indexed as int, 0, false) is None,
    decreases slot - from,
{
    if from < slot {
        lemma_level0_ok(g, from + 1, slot);
    }
}

proof fn lemma_block_ok(b: Seq<u32>, slot: int, indexed: int, j: int, ended: bool, k: int)
    requires
        block_fault(b, slot, indexed, j, ended) is None,
        0 <= j <= k < b.len(),
    ensures
        b[k] == id::NONE_U32 || b[k] < indexed,
    decreases k - j,
{
    if j < k {
        if b[j] == id::NONE_U32 {
            lemma_block_ok(b, slot, indexed, j + 1, true, k);
        } else {
            lemma_block_ok(b, slot, indexed, j + 1, ended, k);
        }
    }
}

proof fn lemma_upper_ok(g: HnswState, dim: int, pool: Seq<u8>, from: int, i: int)
    requires
        upper_fault(g, dim, pool, from) is None,
        0 <= from <= i < g.upper.len(),
        g.indexed > 0,
    ensures
        upper_list_fault(g, dim, pool, i) is None,
    decreases i - from,
{
    if from < i {
        lemma_upper_ok(g, dim, pool, from + 1, i);
    }
}

/// The number of values in all lists.
pub open spec fn values_held(lists: Seq<Seq<u32>>) -> int
    decreases lists.len(),
{
    if lists.len() == 0 {
        0
    } else {
        values_held(lists.drop_last()) + lists.last().len()
    }
}

proof fn lemma_starts(upper: Seq<UpperSlot>, i: int, n: int)
    requires
        0 <= i <= n,
    ensures
        0 <= list_start(upper, i) <= list_start(upper, n),
    decreases n,
{
    if i < n {
        lemma_starts(upper, i, n - 1);
    } else if i > 0 {
        lemma_starts(upper, i - 1, i - 1);
    }
}

proof fn lemma_fits(a: int, b: int, w: int)
    requires
        0 <= a <= b,
        w >= 0,
    ensures
        0 <= a * w <= b * w,
{
    assert(0 <= a * w <= b * w) by (nonlinear_arith)
        requires
            0 <= a <= b,
            w >= 0,
    ;
}

pub proof fn lemma_block(g: HnswState, slot: int)
    requires
        0 <= slot,
        g.m0 >= 0,
    ensures
        (slot + 1) * g.m0 == slot * g.m0 + g.m0,
        0 <= slot * g.m0,
{
    let w = g.m0;
    assert((slot + 1) * w == slot * w + w) by (nonlinear_arith);
    assert(0 <= slot * w) by (nonlinear_arith)
        requires
            0 <= slot,
            w >= 0,
    ;
}

fn put_values(xs: &Vec<u32>, out: &mut Vec<u32>)
    ensures
        final(out)@ == old(out)@ + xs@,
{
    let ghost before = out@;
    let mut i: usize = 0;
    assert(before + xs@.take(0) =~= before);
    while i < xs.len()
        invariant
            i <= xs@.len(),
            out@ == before + xs@.take(i as int),
        decreases xs@.len() - i,
    {
        out.push(xs[i]);
        i = i + 1;
        assert(out@ =~= before + xs@.take(i as int));
    }
    assert(xs@.take(i as int) =~= xs@);
}

fn read_values(b: &[u8]) -> (r: Vec<u32>)
    ensures
        r@ == values_at(b@),
{
    let total: usize = b.len();
    let n: usize = total / 4;
    let mut out: Vec<u32> = Vec::new();
    let mut i: usize = 0;
    while i < n
        invariant
            i <= n,
            total == b@.len(),
            n == total / 4,
            out@.len() == i,
            forall|k: int| 0 <= k < i ==> out@[k] == #[trigger] values_at(b@)[k],
        decreases n - i,
    {
        out.push(get_u32(b, 4 * i));
        i = i + 1;
    }
    assert(out@ =~= values_at(b@));
    out
}

fn block_check(b: &[u32], slot: u32, indexed: u32) -> (r: Option<&'static str>)
    ensures
        r == block_fault(b@, slot as int, indexed as int, 0, false),
{
    let mut ended: bool = false;
    let mut j: usize = 0;
    while j < b.len()
        invariant
            j <= b@.len(),
            block_fault(b@, slot as int, indexed as int, 0, false) == block_fault(
                b@,
                slot as int,
                indexed as int,
                j as int,
                ended,
            ),
        decreases b@.len() - j,
    {
        let n: u32 = b[j];
        if n == id::NONE_U32 {
            ended = true;
        } else if ended {
            return Some("hnsw level0 padding is not canonical");
        } else if n >= indexed || n == slot {
            return Some("hnsw level0 neighbor out of range");
        }
        j = j + 1;
    }
    None
}

fn in_range(list: &Vec<u32>, slot: u32, indexed: u32) -> (r: bool)
    ensures
        r == list_in_range(list@, slot, indexed),
{
    let mut j: usize = 0;
    while j < list.len()
        invariant
            j <= list@.len(),
            forall|k: int| 0 <= k < j ==> (#[trigger] list@[k]) < indexed && list@[k] != slot,
        decreases list@.len() - j,
    {
        if list[j] >= indexed || list[j] == slot {
            return false;
        }
        j = j + 1;
    }
    true
}

proof fn lemma_value_len(xs: Seq<u32>)
    ensures
        value_bytes(xs).len() == 4 * xs.len(),
    decreases xs.len(),
{
    if xs.len() > 0 {
        lemma_value_len(xs.drop_last());
        codec::lemma_le_bytes_len(xs.last() as nat, 4);
    }
}

proof fn lemma_value_at(b: Seq<u8>, xs: Seq<u32>, i: int)
    requires
        0 <= i < xs.len(),
        codec::has_at(b, 0, value_bytes(xs)),
    ensures
        codec::num_at(b, 4 * i, 4) == xs[i],
    decreases xs.len(),
{
    let init = xs.drop_last();
    codec::lemma_has_split(b, 0, value_bytes(init), codec::le32(xs.last()));
    lemma_value_len(init);
    if i < xs.len() - 1 {
        lemma_value_at(b, init, i);
    } else {
        codec::lemma_pow256();
        codec::lemma_num_at(b, 4 * i, xs[i] as nat, 4);
    }
}

proof fn lemma_values_read(xs: Seq<u32>)
    ensures
        values_at(value_bytes(xs)) == xs,
        value_bytes(xs).len() == 4 * xs.len(),
{
    let b = value_bytes(xs);
    lemma_value_len(xs);
    assert(codec::has_at(b, 0, b)) by {
        reveal(codec::has_at);
        assert(b.subrange(0, b.len() as int) =~= b);
    }
    assert forall|i: int| 0 <= i < xs.len() implies values_at(b)[i] == xs[i] by {
        lemma_value_at(b, xs, i);
    }
    assert(values_at(b) =~= xs);
}

proof fn lemma_joined(upper: Seq<UpperSlot>, lists: Seq<Seq<u32>>, n: int)
    requires
        0 <= n <= lists.len(),
        lists.len() == upper.len(),
        forall|i: int| 0 <= i < lists.len() ==> (#[trigger] lists[i]).len() == upper[i].count,
    ensures
        joined(lists.take(n)).len() == list_start(upper, n),
        forall|i: int|
            0 <= i < n ==> 0 <= #[trigger] list_start(upper, i) && list_start(upper, i)
                + upper[i].count <= list_start(upper, n),
        forall|i: int|
            0 <= i < n ==> joined(lists.take(n)).subrange(
                list_start(upper, i),
                list_start(upper, i) + upper[i].count,
            ) == #[trigger] lists[i],
    decreases n,
{
    if n > 0 {
        lemma_joined(upper, lists, n - 1);
        assert(lists.take(n).drop_last() =~= lists.take(n - 1));
        let front = joined(lists.take(n - 1));
        let all = joined(lists.take(n));
        assert(all == front + lists[n - 1]);
        assert forall|i: int| 0 <= i < n implies all.subrange(
            list_start(upper, i),
            list_start(upper, i) + upper[i].count,
        ) == #[trigger] lists[i] by {
            let at = list_start(upper, i);
            if i < n - 1 {
                assert(all.subrange(at, at + upper[i].count) =~= front.subrange(
                    at,
                    at + upper[i].count,
                ));
            } else {
                assert(all.subrange(at, at + upper[i].count) =~= lists[i]);
            }
        }
    }
}

/// The list section holds four bytes per value.
pub proof fn lemma_lists_pool_len(g: HnswState)
    ensures
        graph_sections(g).lists_pool.len() == 4 * joined(g.lists).len(),
{
    lemma_value_len(joined(g.lists));
}

/// A graph loads back from its sections.
pub proof fn graph_round_trip(g: HnswState, max_bytes: int)
    requires
        table::ascending(g.upper),
        g.upper.len() <= u64::MAX,
        g.upper.len() * 12 <= max_bytes,
        g.lists.len() == g.upper.len(),
        forall|i: int| 0 <= i < g.lists.len() ==> (#[trigger] g.lists[i]).len() == g.upper[i].count,
        g.level0.len() == g.indexed * g.m0,
        joined(g.lists).len() <= u64::MAX,
    ensures
        graph_loaded(g.m, g.m0, max_bytes, graph_sections(g)) == Ok::<_, Error>(g),
{
    let s = graph_sections(g);
    codec::lemma_pow256();
    codec::lemma_le_bytes_len(g.entry as nat, 4);
    codec::lemma_le_bytes_len(g.indexed as nat, 4);
    assert(codec::has_at(s.meta, 0, s.meta) && codec::has_at(s.lists_meta, 0, s.lists_meta)) by {
        reveal(codec::has_at);
        assert(s.meta.subrange(0, s.meta.len() as int) =~= s.meta);
        assert(s.lists_meta.subrange(0, s.lists_meta.len() as int) =~= s.lists_meta);
    }
    codec::lemma_has_split(s.meta, 0, codec::le32(g.entry), codec::le32(g.indexed));
    codec::lemma_num_at(s.meta, 0, g.entry as nat, 4);
    codec::lemma_num_at(s.meta, 4, g.indexed as nat, 4);
    codec::lemma_le_bytes_len(joined(g.lists).len() as nat, 8);
    codec::lemma_num_at(s.lists_meta, 0, joined(g.lists).len() as nat, 8);
    lemma_values_read(g.level0);
    lemma_values_read(joined(g.lists));
    table::table_round_trip(g.upper, max_bytes);
    lemma_joined(g.upper, g.lists, g.lists.len() as int);
    assert(g.lists.take(g.lists.len() as int) =~= g.lists);
    assert(s.level0.len() == g.indexed * g.m0 * 4);
    assert(lists_at(g.upper, joined(g.lists)) =~= g.lists);
}

/// The degree cap of a level.
pub open spec fn degree_cap(g: HnswState, level: int) -> int {
    if level == 0 {
        g.m0
    } else {
        g.m
    }
}

/// Level 0 with empty blocks for every slot below `upto`.
pub open spec fn with_room_for(g: HnswState, upto: u32) -> HnswState {
    HnswState {
        level0: g.level0 + Seq::new(
            (upto * g.m0 - g.level0.len()) as nat,
            |i: int| id::NONE_U32,
        ),
        ..g
    }
}

/// A neighbor added where the list has room; `None` when it is full.
pub open spec fn link_added(g: HnswState, max_bytes: int, v: u32, new: u32, level: int) -> Result<
    Option<HnswState>,
    ArenaError,
> {
    let list = neighbors(g, v, level);
    if list.len() >= degree_cap(g, level) {
        Ok(None)
    } else {
        match list_written(g, max_bytes, v, level, list.push(new)) {
            Ok(h) => Ok(Some(h)),
            Err(e) => Err(e),
        }
    }
}

/// The graph with its next slot counted: the first node, and one that reaches
/// above the top level, becomes the entry point.
pub open spec fn node_added(g: HnswState, slot: u32, level: int, top: int) -> HnswState {
    HnswState {
        indexed: (slot + 1) as u32,
        entry: if g.entry == id::NONE_U32 || level > top {
            slot
        } else {
            g.entry
        },
        ..g
    }
}

proof fn lemma_until_none_len(b: Seq<u32>)
    ensures
        until_none(b).len() <= b.len(),
    decreases b.len(),
{
    if b.len() > 0 && b[0] != id::NONE_U32 {
        lemma_until_none_len(b.skip(1));
    }
}

impl HnswGraph {
    /// The entry point, or the sentinel when the graph is empty.
    pub fn entry(&self) -> (r: u32)
        ensures
            r == self@.entry,
    {
        self.entry
    }

    /// Whether the graph was made with these caps and this ceiling.
    pub fn is_for(&self, m: usize, m0: usize, max_bytes: usize) -> (r: bool)
        ensures
            r == (self@.m == m && self@.m0 == m0 && self.ceiling() == max_bytes),
    {
        self.m == m && self.m0 == m0 && self.upper.max_bytes() == max_bytes
    }

    /// Whether level 0 has a block for a slot.
    pub fn holds(&self, slot: u32) -> (r: bool)
        requires
            self.wf(),
        ensures
            r == ((slot + 1) * self@.m0 <= self@.level0.len()),
    {
        let total: usize = self.level0.len();
        let blocks: usize = total / self.m0;
        proof {
            let w = self.m0 as int;
            let n = slot as int + 1;
            assert((n * w <= total) == (n <= total as int / w)) by (nonlinear_arith)
                requires
                    w >= 1,
                    total >= 0,
                    n >= 0,
            ;
        }
        (slot as usize) < blocks
    }

    /// The degree cap of a level.
    pub fn cap(&self, level: usize) -> (r: usize)
        ensures
            r == degree_cap(self@, level as int),
    {
        if level == 0 {
            self.m0
        } else {
            self.m
        }
    }

    /// Makes room at level 0 for every slot below `upto`.
    pub fn reserve(&mut self, upto: u32)
        requires
            old(self).wf(),
            old(self)@.level0.len() <= upto * old(self)@.m0,
            upto * old(self)@.m0 <= usize::MAX,
        ensures
            final(self).wf(),
            final(self).ceiling() == old(self).ceiling(),
            final(self)@ == with_room_for(old(self)@, upto),
    {
        let ghost g = self@;
        let n: usize = self.level0.len();
        let total: usize = upto as usize * self.m0;
        let mut i: usize = n;
        assert(self.level0@ =~= g.level0 + Seq::new(0, |i: int| id::NONE_U32));
        while i < total
            invariant
                n <= i <= total,
                n == g.level0.len(),
                self.level0@ == g.level0 + Seq::new((i - n) as nat, |i: int| id::NONE_U32),
                self.m == old(self).m,
                self.m0 == old(self).m0,
                self.upper == old(self).upper,
                self.lists == old(self).lists,
                self.entry == old(self).entry,
                self.indexed == old(self).indexed,
                self.thresholds == old(self).thresholds,
            decreases total - i,
        {
            self.level0.push(id::NONE_U32);
            i = i + 1;
            assert(self.level0@ =~= g.level0 + Seq::new((i - n) as nat, |i: int| id::NONE_U32));
        }
        assert(self@ =~= with_room_for(g, upto));
    }

    /// Adds `new` to the list of `v` where there is room. `false`: the list is
    /// full, and the best of it and `new` are to be chosen.
    pub fn add_link(&mut self, v: u32, new: u32, level: usize) -> (r: Result<bool, ArenaError>)
        requires
            old(self).wf(),
            level <= MAX_LEVEL,
            old(self)@.m <= u32::MAX,
            level == 0 ==> (v + 1) * old(self)@.m0 <= old(self)@.level0.len(),
        ensures
            final(self).wf(),
            final(self).ceiling() == old(self).ceiling(),
            link_added(old(self)@, old(self).ceiling(), v, new, level as int) == (match r {
                Ok(true) => Ok(Some(final(self)@)),
                Ok(false) => Ok(None),
                Err(e) => Err(e),
            }),
            !(r matches Ok(true)) ==> final(self)@ == old(self)@,
    {
        let ghost g = self@;
        let mut list: Vec<u32> = self.neighbors(v, level);
        if list.len() >= self.cap(level) {
            return Ok(false);
        }
        list.push(new);
        match self.write_list(v, level, &list) {
            Ok(()) => Ok(true),
            Err(e) => Err(e),
        }
    }

    /// Counts the next slot as a node of the graph.
    pub fn admit_node(&mut self, slot: u32, level: usize, top: usize)
        requires
            old(self).wf(),
            slot < u32::MAX,
        ensures
            final(self).wf(),
            final(self).ceiling() == old(self).ceiling(),
            final(self)@ == node_added(old(self)@, slot, level as int, top as int),
    {
        if self.entry == id::NONE_U32 || level > top {
            self.entry = slot;
        }
        self.indexed = slot + 1;
        assert(self@ =~= node_added(old(self)@, slot, level as int, top as int));
    }
}

/// A link never takes a list above its degree cap.
pub proof fn links_respect_the_cap(
    g: HnswState,
    max_bytes: int,
    v: u32,
    new: u32,
    level: int,
)
    requires
        level == 0 ==> new != id::NONE_U32 && g.m0 > 0 && (v + 1) * g.m0 <= g.level0.len(),
        level != 0 ==> table::ascending(g.upper) && g.lists.len() == g.upper.len(),
        0 <= level <= MAX_LEVEL,
    ensures
        link_added(g, max_bytes, v, new, level) matches Ok(Some(h)) ==> neighbors(h, v, level).len()
            <= degree_cap(g, level),
{
    if let Ok(Some(h)) = link_added(g, max_bytes, v, new, level) {
        let sel = neighbors(g, v, level).push(new);
        if level == 0 {
            lemma_until_none_len(block(h, v as int));
            assert(v * g.m0 + g.m0 == (v + 1) * g.m0) by (nonlinear_arith);
        } else {
            let row = UpperSlot { slot: v, level: level as u32, count: sel.len() as u32 };
            assert(row.key() == list_key(v, level));
            table::lemma_rank(g.upper, list_key(v, level));
            if table::has_key(g.upper, list_key(v, level)) {
                table::lemma_replaced(g.upper, row);
                table::lemma_rank(h.upper, list_key(v, level));
                table::lemma_rank_is(
                    h.upper,
                    list_key(v, level),
                    table::rank(g.upper, list_key(v, level)),
                );
            } else {
                table::lemma_with_row(g.upper, row);
                table::lemma_rank_is(
                    h.upper,
                    list_key(v, level),
                    table::rank(g.upper, list_key(v, level)),
                );
            }
            assert(neighbors(h, v, level) == sel);
        }
    }
}

} // verus!
