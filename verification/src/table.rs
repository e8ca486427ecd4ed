//! Keyed record tables: the rows of one slot type, in ascending key order.

use crate::codec;
use crate::codec::{get_u64, put_u64};
use crate::error::{ArenaError, Error};
use crate::model::Slot;
use crate::parse;
use vstd::prelude::*;

verus! {

/// Keys strictly ascending, so that no key occurs twice.
pub open spec fn ascending<T: Slot>(rows: Seq<T>) -> bool {
    forall|i: int, j: int|
        0 <= i < j < rows.len() ==> (#[trigger] rows[i]).key() < (#[trigger] rows[j]).key()
}

/// Some row carries `key`.
pub open spec fn has_key<T: Slot>(rows: Seq<T>, key: int) -> bool {
    exists|i: int| 0 <= i < rows.len() && (#[trigger] rows[i]).key() == key
}

/// The row that carries `key`.
pub open spec fn row_of<T: Slot>(rows: Seq<T>, key: int) -> Option<T> {
    if has_key(rows, key) {
        Some(rows[rank(rows, key)])
    } else {
        None
    }
}

/// Where `key` stands, or would stand: behind every smaller key.
pub open spec fn rank<T: Slot>(rows: Seq<T>, key: int) -> int
    decreases rows.len(),
{
    if rows.len() == 0 {
        0
    } else if rows.last().key() < key {
        rows.len() as int
    } else {
        rank(rows.drop_last(), key)
    }
}

/// `rows` with `row` put at its place.
pub open spec fn with_row<T: Slot>(rows: Seq<T>, row: T) -> Seq<T> {
    rows.insert(rank(rows, row.key()), row)
}

/// `rows` with the row of the same key replaced by `row`.
pub open spec fn replaced<T: Slot>(rows: Seq<T>, row: T) -> Seq<T> {
    rows.update(rank(rows, row.key()), row)
}

/// One more row still fits under a ceiling of `max_bytes`.
pub open spec fn has_room<T: Slot>(rows: Seq<T>, max_bytes: int) -> bool {
    (rows.len() + 1) * T::slot_size() <= max_bytes
}

/// What inserting `row` does: nothing when its key is taken.
pub open spec fn inserted<T: Slot>(rows: Seq<T>, max_bytes: int, row: T) -> Result<
    (Seq<T>, bool),
    ArenaError,
> {
    if has_key(rows, row.key()) {
        Ok((rows, false))
    } else if !has_room(rows, max_bytes) {
        Err(ArenaError::CapacityExceeded)
    } else {
        Ok((with_row(rows, row), true))
    }
}

pub proof fn lemma_rank<T: Slot>(rows: Seq<T>, key: int)
    requires
        ascending(rows),
    ensures
        0 <= rank(rows, key) <= rows.len(),
        forall|i: int| 0 <= i < rank(rows, key) ==> (#[trigger] rows[i]).key() < key,
        forall|i: int| rank(rows, key) <= i < rows.len() ==> (#[trigger] rows[i]).key() >= key,
        has_key(rows, key) <==> rank(rows, key) < rows.len() && rows[rank(rows, key)].key() == key,
    decreases rows.len(),
{
    if rows.len() > 0 {
        let init = rows.drop_last();
        assert(ascending(init)) by {
            assert forall|i: int, j: int| 0 <= i < j < init.len() implies (#[trigger] init[i]).key()
                < (#[trigger] init[j]).key() by {
                assert(rows[i].key() < rows[j].key());
            }
        }
        lemma_rank(init, key);
        if rows.last().key() < key {
            assert forall|i: int| 0 <= i < rows.len() implies (#[trigger] rows[i]).key() < key by {
                if i < rows.len() - 1 {
                    assert(rows[i].key() < rows[rows.len() - 1].key());
                }
            }
        } else {
            let r = rank(rows, key);
            assert forall|i: int| 0 <= i < r implies (#[trigger] rows[i]).key() < key by {
                assert(init[i].key() < key);
            }
            assert forall|i: int| r <= i < rows.len() implies (#[trigger] rows[i]).key() >= key by {
                if i < rows.len() - 1 {
                    assert(init[i].key() >= key);
                }
            }
        }
        if has_key(rows, key) {
            let k = choose|k: int| 0 <= k < rows.len() && (#[trigger] rows[k]).key() == key;
            let r = rank(rows, key);
            if k != r {
                assert(k > r);
                assert(rows[r].key() < rows[k].key());
            }
        }
    }
}

/// The lower bound of a key is its rank.
pub proof fn lemma_rank_is<T: Slot>(rows: Seq<T>, key: int, at: int)
    requires
        ascending(rows),
        0 <= at <= rows.len(),
        forall|i: int| 0 <= i < at ==> (#[trigger] rows[i]).key() < key,
        forall|i: int| at <= i < rows.len() ==> (#[trigger] rows[i]).key() >= key,
    ensures
        rank(rows, key) == at,
{
    lemma_rank(rows, key);
    let r = rank(rows, key);
    if r < at {
        assert(rows[r].key() < key);
    } else if at < r {
        assert(rows[at].key() < key);
    }
}

pub proof fn lemma_with_row<T: Slot>(rows: Seq<T>, row: T)
    requires
        ascending(rows),
        !has_key(rows, row.key()),
    ensures
        ascending(with_row(rows, row)),
        with_row(rows, row).len() == rows.len() + 1,
        row_of(with_row(rows, row), row.key()) == Some(row),
        forall|key: int|
            key != row.key() ==> #[trigger] row_of(with_row(rows, row), key) == row_of(rows, key),
{
    lemma_rank(rows, row.key());
    let r = rank(rows, row.key());
    let out = with_row(rows, row);
    assert forall|i: int| r <= i < rows.len() implies (#[trigger] rows[i]).key() > row.key() by {
        assert(rows[i].key() != row.key());
    }
    assert forall|i: int, j: int| 0 <= i < j < out.len() implies (#[trigger] out[i]).key()
        < (#[trigger] out[j]).key() by {
        if i < r {
            assert(out[i] == rows[i]);
        } else if i > r {
            assert(out[i] == rows[i - 1]);
        }
        if j < r {
            assert(out[j] == rows[j]);
        } else if j > r {
            assert(out[j] == rows[j - 1]);
        }
    }
    assert(out[r] == row);
    lemma_found(out, row.key(), r);
    assert forall|key: int| key != row.key() implies #[trigger] row_of(out, key) == row_of(
        rows,
        key,
    ) by {
        if has_key(rows, key) {
            let k = choose|k: int| 0 <= k < rows.len() && (#[trigger] rows[k]).key() == key;
            lemma_found(rows, key, k);
            if k < r {
                assert(out[k] == rows[k]);
                lemma_found(out, key, k);
            } else {
                assert(out[k + 1] == rows[k]);
                lemma_found(out, key, k + 1);
            }
        } else if has_key(out, key) {
            let k = choose|k: int| 0 <= k < out.len() && (#[trigger] out[k]).key() == key;
            if k < r {
                assert(rows[k].key() == key);
            } else {
                assert(rows[k - 1].key() == key);
            }
        }
    }
}

/// A row found by its index is the row of its key.
pub proof fn lemma_found<T: Slot>(rows: Seq<T>, key: int, k: int)
    requires
        ascending(rows),
        0 <= k < rows.len(),
        rows[k].key() == key,
    ensures
        has_key(rows, key),
        rank(rows, key) == k,
        row_of(rows, key) == Some(rows[k]),
{
    lemma_rank(rows, key);
    let r = rank(rows, key);
    if r < k {
        assert(rows[r].key() < rows[k].key());
    } else if k < r {
        assert(rows[k].key() < key);
    }
}

pub proof fn lemma_replaced<T: Slot>(rows: Seq<T>, row: T)
    requires
        ascending(rows),
        has_key(rows, row.key()),
    ensures
        ascending(replaced(rows, row)),
        replaced(rows, row).len() == rows.len(),
        row_of(replaced(rows, row), row.key()) == Some(row),
        forall|key: int|
            key != row.key() ==> #[trigger] row_of(replaced(rows, row), key) == row_of(rows, key),
        forall|key: int| #[trigger] has_key(replaced(rows, row), key) == has_key(rows, key),
{
    lemma_rank(rows, row.key());
    let r = rank(rows, row.key());
    let out = replaced(rows, row);
    assert forall|i: int| 0 <= i < rows.len() implies (#[trigger] out[i]).key() == rows[i].key() by {}
    assert forall|i: int, j: int| 0 <= i < j < out.len() implies (#[trigger] out[i]).key()
        < (#[trigger] out[j]).key() by {
        assert(rows[i].key() < rows[j].key());
    }
    lemma_found(out, row.key(), r);
    assert forall|key: int| #[trigger] has_key(out, key) == has_key(rows, key) by {
        if has_key(rows, key) {
            let k = choose|k: int| 0 <= k < rows.len() && (#[trigger] rows[k]).key() == key;
            assert(out[k].key() == key);
        }
        if has_key(out, key) {
            let k = choose|k: int| 0 <= k < out.len() && (#[trigger] out[k]).key() == key;
            assert(rows[k].key() == key);
        }
    }
    assert forall|key: int| key != row.key() implies #[trigger] row_of(out, key) == row_of(
        rows,
        key,
    ) by {
        assert(has_key(out, key) == has_key(rows, key));
        if has_key(rows, key) {
            let k = choose|k: int| 0 <= k < rows.len() && (#[trigger] rows[k]).key() == key;
            lemma_found(rows, key, k);
            lemma_found(out, key, k);
        }
    }
}

/// A row behind every other one is appended.
pub proof fn lemma_append<T: Slot>(rows: Seq<T>, row: T)
    requires
        ascending(rows),
        forall|i: int| 0 <= i < rows.len() ==> (#[trigger] rows[i]).key() < row.key(),
    ensures
        !has_key(rows, row.key()),
        with_row(rows, row) == rows.push(row),
        ascending(rows.push(row)),
{
    lemma_rank_is(rows, row.key(), rows.len() as int);
    assert(rows.insert(rows.len() as int, row) =~= rows.push(row));
}

/// The rows as bytes, one slot behind the other.
pub open spec fn rows_bytes<T: Slot>(rows: Seq<T>) -> Seq<u8> {
    parse::flat(|row: T| row.bytes(), rows)
}

/// Row `i` of a run of slots.
pub open spec fn row_at<T: Slot>(b: Seq<u8>, i: int) -> T {
    T::of_bytes(b.subrange(i * T::slot_size(), (i + 1) * T::slot_size()))
}

/// The rows of a run of `n` slots.
pub open spec fn rows_at<T: Slot>(b: Seq<u8>, n: nat) -> Seq<T> {
    Seq::new(n, |i: int| row_at(b, i))
}

/// What a stored table holds: the row count, then the slots.
pub open spec fn table_loaded<T: Slot>(
    meta: Seq<u8>,
    pool: Seq<u8>,
    max_bytes: int,
) -> Result<Seq<T>, ArenaError> {
    if meta.len() != 8 {
        Err(ArenaError::Malformed)
    } else if codec::num_at(meta, 0, 8) * T::slot_size() != pool.len() {
        Err(ArenaError::Malformed)
    } else if pool.len() > max_bytes {
        Err(ArenaError::CapacityExceeded)
    } else if !ascending(rows_at::<T>(pool, codec::num_at(meta, 0, 8))) {
        Err(ArenaError::Malformed)
    } else {
        Ok(rows_at::<T>(pool, codec::num_at(meta, 0, 8)))
    }
}

proof fn lemma_rows_len<T: Slot>(rows: Seq<T>)
    ensures
        rows_bytes(rows).len() == rows.len() * T::slot_size(),
    decreases rows.len(),
{
    if rows.len() > 0 {
        lemma_rows_len(rows.drop_last());
        rows.last().lemma_round_trip();
        assert((rows.len() - 1) * T::slot_size() + T::slot_size() == rows.len() * T::slot_size())
            by (nonlinear_arith)
            requires
                rows.len() > 0,
        ;
    }
}

proof fn lemma_row_read<T: Slot>(b: Seq<u8>, rows: Seq<T>, i: int)
    requires
        0 <= i < rows.len(),
        codec::has_at(b, 0, rows_bytes(rows)),
    ensures
        row_at::<T>(b, i) == rows[i],
    decreases rows.len(),
{
    let f = |row: T| row.bytes();
    let init = rows.drop_last();
    codec::lemma_has_split(b, 0, rows_bytes(init), rows.last().bytes());
    lemma_rows_len(init);
    if i < rows.len() - 1 {
        lemma_row_read(b, init, i);
    } else {
        rows.last().lemma_round_trip();
        reveal(codec::has_at);
        assert(i * T::slot_size() + T::slot_size() == (i + 1) * T::slot_size())
            by (nonlinear_arith);
    }
}

/// A table loads back from its dump.
pub proof fn table_round_trip<T: Slot>(rows: Seq<T>, max_bytes: int)
    requires
        ascending(rows),
        rows.len() <= u64::MAX,
        rows.len() * T::slot_size() <= max_bytes,
    ensures
        table_loaded::<T>(codec::le64(rows.len() as u64), rows_bytes(rows), max_bytes) == Ok::<
            _,
            ArenaError,
        >(rows),
{
    let meta = codec::le64(rows.len() as u64);
    let pool = rows_bytes(rows);
    assert(codec::has_at(meta, 0, meta)) by {
        reveal(codec::has_at);
        assert(meta.subrange(0, meta.len() as int) =~= meta);
    }
    assert(codec::has_at(pool, 0, pool)) by {
        reveal(codec::has_at);
        assert(pool.subrange(0, pool.len() as int) =~= pool);
    }
    codec::lemma_pow256();
    codec::lemma_num_at(meta, 0, rows.len() as u64 as nat, 8);
    lemma_rows_len(rows);
    assert forall|i: int| 0 <= i < rows.len() implies row_at::<T>(pool, i) == rows[i] by {
        lemma_row_read(pool, rows, i);
    }
    assert(rows_at::<T>(pool, rows.len()) =~= rows);
}

/// The rows of one slot type.
#[derive(Debug)]
pub struct Table<T> {
    rows: Vec<T>,
    max_bytes: usize,
}

impl<T> View for Table<T> {
    type V = Seq<T>;

    closed spec fn view(&self) -> Seq<T> {
        self.rows@
    }
}

impl<T: Slot> Table<T> {
    /// Keys strictly ascending.
    pub closed spec fn wf(&self) -> bool {
        ascending(self@) && self@.len() * T::slot_size() <= self.max_bytes
    }

    /// The byte ceiling.
    pub closed spec fn ceiling(&self) -> int {
        self.max_bytes as int
    }

    pub broadcast proof fn lemma_wf(&self)
        ensures
            #[trigger] self.wf() ==> ascending(self@) && self@.len() * T::slot_size()
                <= self.ceiling() && self@.len() <= usize::MAX,
    {
        if self.wf() {
            assert(self.rows.len() == self@.len());
        }
    }

    /// An empty table that holds at most `max_bytes` of slots.
    pub fn new(max_bytes: usize) -> (r: Table<T>)
        ensures
            r.wf(),
            r@ == Seq::<T>::empty(),
            r.ceiling() == max_bytes,
    {
        assert(0 * T::slot_size() == 0) by (nonlinear_arith);
        Table { rows: Vec::new(), max_bytes }
    }

    /// The byte ceiling.
    pub fn max_bytes(&self) -> (r: usize)
        ensures
            r == self.ceiling(),
    {
        self.max_bytes
    }

    /// Number of rows.
    pub fn len(&self) -> (r: usize)
        ensures
            r == self@.len(),
    {
        self.rows.len()
    }

    /// `true` when there is no row.
    pub fn is_empty(&self) -> (r: bool)
        ensures
            r == (self@.len() == 0),
    {
        self.rows.len() == 0
    }

    /// Row number `i` in key order.
    pub fn row(&self, i: usize) -> (r: T)
        requires
            i < self@.len(),
        ensures
            r == self@[i as int],
    {
        self.rows[i]
    }

    /// The number of rows with a smaller key.
    pub fn lower_bound(&self, key: u128) -> (r: usize)
        requires
            self.wf(),
        ensures
            r == rank(self@, key as int),
            r <= self@.len(),
            forall|i: int| 0 <= i < r ==> (#[trigger] self@[i]).key() < key,
            forall|i: int| r <= i < self@.len() ==> (#[trigger] self@[i]).key() >= key,
    {
        let mut lo: usize = 0;
        let mut hi: usize = self.rows.len();
        while lo < hi
            invariant
                self.wf(),
                lo <= hi <= self@.len(),
                forall|i: int| 0 <= i < lo ==> (#[trigger] self@[i]).key() < key,
                forall|i: int| hi <= i < self@.len() ==> (#[trigger] self@[i]).key() >= key,
            decreases hi - lo,
        {
            let mid: usize = lo + (hi - lo) / 2;
            let k: u128 = self.rows[mid].key_of();
            assert(self@[mid as int].key() == k);
            if k < key {
                assert forall|i: int| 0 <= i < mid + 1 implies (#[trigger] self@[i]).key() < key by {
                    if i < mid {
                        assert(self@[i].key() < self@[mid as int].key());
                    }
                }
                lo = mid + 1;
            } else {
                assert forall|i: int| mid <= i < self@.len() implies (#[trigger] self@[i]).key()
                    >= key by {
                    if i > mid {
                        assert(self@[mid as int].key() < self@[i].key());
                    }
                }
                hi = mid;
            }
        }
        proof {
            lemma_rank_is(self@, key as int, lo as int);
        }
        lo
    }

    /// The row that carries `key`.
    pub fn get(&self, key: u128) -> (r: Option<T>)
        requires
            self.wf(),
        ensures
            r == row_of(self@, key as int),
    {
        let at: usize = self.lower_bound(key);
        proof {
            lemma_rank(self@, key as int);
        }
        if at < self.rows.len() && self.rows[at].key_of() == key {
            Some(self.rows[at])
        } else {
            None
        }
    }

    /// `true` when some row carries `key`.
    pub fn contains(&self, key: u128) -> (r: bool)
        requires
            self.wf(),
        ensures
            r == has_key(self@, key as int),
    {
        self.get(key).is_some()
    }

    /// Inserts `row`; `Ok(false)` when its key is taken already.
    pub fn insert(&mut self, row: T) -> (r: Result<bool, ArenaError>)
        requires
            old(self).wf(),
        ensures
            final(self).wf(),
            final(self).ceiling() == old(self).ceiling(),
            match r {
                Ok(fresh) => inserted(old(self)@, old(self).ceiling(), row) == Ok::<_, ArenaError>(
                    (final(self)@, fresh),
                ),
                Err(e) => inserted(old(self)@, old(self).ceiling(), row) == Err::<
                    (Seq<T>, bool),
                    _,
                >(e) && final(self)@ == old(self)@,
            },
    {
        let key: u128 = row.key_of();
        let at: usize = self.lower_bound(key);
        proof {
            lemma_rank(self@, key as int);
        }
        if at < self.rows.len() && self.rows[at].key_of() == key {
            return Ok(false);
        }
        let n: u128 = self.rows.len() as u128 + 1;
        let size: u128 = T::size() as u128;
        assert(n * size <= 0x1_0000_0000_0000_0000 * 64) by (nonlinear_arith)
            requires
                n <= 0x1_0000_0000_0000_0000,
                size <= 64,
        ;
        if n * size > self.max_bytes as u128 {
            return Err(ArenaError::CapacityExceeded);
        }
        proof {
            lemma_with_row(self@, row);
        }
        self.rows.insert(at, row);
        assert(self@ =~= with_row(old(self)@, row));
        Ok(true)
    }

    /// Replaces the row of the same key.
    pub fn set(&mut self, row: T)
        requires
            old(self).wf(),
            has_key(old(self)@, row.key()),
        ensures
            final(self).wf(),
            final(self).ceiling() == old(self).ceiling(),
            final(self)@ == replaced(old(self)@, row),
    {
        let at: usize = self.lower_bound(row.key_of());
        proof {
            lemma_rank(self@, row.key());
            lemma_replaced(self@, row);
        }
        self.rows[at] = row;
    }

    /// Bytes of all slots.
    pub fn pool_bytes(&self) -> (r: usize)
        requires
            self.wf(),
        ensures
            r == self@.len() * T::slot_size(),
    {
        self.rows.len() * T::size()
    }

    /// The row count, as the table's meta section.
    pub fn dump_meta(&self) -> (r: Vec<u8>)
        ensures
            r@ == codec::le64(self@.len() as u64),
    {
        let mut out: Vec<u8> = Vec::new();
        put_u64(&mut out, self.rows.len() as u64);
        assert(out@ =~= codec::le64(self@.len() as u64));
        out
    }

    /// The slots, as the table's pool section.
    pub fn dump_pool(&self) -> (r: Vec<u8>)
        ensures
            r@ == rows_bytes(self@),
    {
        let mut out: Vec<u8> = Vec::new();
        let ghost f = |row: T| row.bytes();
        let mut i: usize = 0;
        assert(self@.take(0) =~= Seq::empty());
        while i < self.rows.len()
            invariant
                i <= self@.len(),
                f == (|row: T| row.bytes()),
                out@ == parse::flat(f, self@.take(i as int)),
            decreases self@.len() - i,
        {
            self.rows[i].write(&mut out);
            proof {
                assert(self@.take(i + 1) =~= self@.take(i as int).push(self@[i as int]));
                parse::lemma_flat_push(f, self@.take(i as int), self@[i as int]);
            }
            i = i + 1;
        }
        assert(self@.take(i as int) =~= self@);
        out
    }

    /// Rebuilds a table from its two sections. Untrusted input: the sizes
    /// must agree, the slots must fit the ceiling, and the keys must ascend.
    pub fn load(meta: &[u8], pool: &[u8], max_bytes: usize) -> (r: Result<Table<T>, ArenaError>)
        ensures
            match r {
                Ok(t) => t.wf() && t.ceiling() == max_bytes && table_loaded::<T>(
                    meta@,
                    pool@,
                    max_bytes as int,
                ) == Ok::<_, ArenaError>(t@),
                Err(e) => table_loaded::<T>(meta@, pool@, max_bytes as int) == Err::<Seq<T>, _>(e),
            },
    {
        if meta.len() != 8 {
            return Err(ArenaError::Malformed);
        }
        let n: u64 = get_u64(meta, 0);
        let size: usize = T::size();
        assert(n * size <= 0xFFFF_FFFF_FFFF_FFFF * 64) by (nonlinear_arith)
            requires
                n <= 0xFFFF_FFFF_FFFF_FFFF,
                size <= 64,
        ;
        if n as u128 * size as u128 != pool.len() as u128 {
            return Err(ArenaError::Malformed);
        }
        if pool.len() > max_bytes {
            return Err(ArenaError::CapacityExceeded);
        }
        let total: usize = pool.len();
        assert(n <= total) by (nonlinear_arith)
            requires
                n * size == total,
                size >= 1,
        ;
        let count: usize = n as usize;
        let ghost want = rows_at::<T>(pool@, n as nat);
        let mut rows: Vec<T> = Vec::new();
        let mut i: usize = 0;
        while i < count
            invariant
                i <= count,
                count == n,
                meta@.len() == 8,
                codec::num_at(meta@, 0, 8) == n,
                total <= max_bytes,
                size == T::slot_size(),
                n * size == total,
                total == pool@.len(),
                want == rows_at::<T>(pool@, n as nat),
                rows@ == want.take(i as int),
                ascending(rows@),
            decreases count - i,
        {
            assert((i + 1) * size <= total && i * size + size == (i + 1) * size)
                by (nonlinear_arith)
                requires
                    i < count,
                    count * size == total,
            ;
            let at: usize = i * size;
            let piece: &[u8] = &pool[at..at + size];
            assert(piece@ =~= pool@.subrange(i * T::slot_size(), (i + 1) * T::slot_size()));
            let row: T = T::read(piece);
            assert(row == want[i as int]);
            if i > 0 {
                let last: T = rows[i - 1];
                if last.key_of() >= row.key_of() {
                    proof {
                        assert(want[i - 1] == last);
                        if ascending(want) {
                            assert(want[i - 1].key() < want[i as int].key());
                        }
                    }
                    return Err(ArenaError::Malformed);
                }
                assert forall|a: int, b: int| 0 <= a < b < i + 1 implies (#[trigger] rows@.push(
                    row,
                )[a]).key() < (#[trigger] rows@.push(row)[b]).key() by {
                    if b == i {
                        if a < i - 1 {
                            assert(rows@[a].key() < rows@[i - 1].key());
                        }
                    }
                }
            }
            rows.push(row);
            assert(rows@ =~= want.take(i + 1));
            i = i + 1;
        }
        assert(want.take(i as int) =~= want);
        Ok(Table { rows, max_bytes })
    }
}

/// The table error as an engine error.
pub fn arena_err<T>(r: Result<T, ArenaError>) -> (out: Result<T, Error>)
    ensures
        out == lifted(r),
{
    match r {
        Ok(v) => Ok(v),
        Err(e) => Err(Error::Arena(e)),
    }
}

/// A structure's result as an engine result.
pub open spec fn lifted<T>(r: Result<T, ArenaError>) -> Result<T, Error> {
    match r {
        Ok(v) => Ok(v),
        Err(e) => Err(Error::Arena(e)),
    }
}

} // verus!
