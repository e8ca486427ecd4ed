//! Record layouts of the data model.
//!
//! Every record is a fixed-size [`Slot`]; the byte layouts below are **format
//! contracts**: a snapshot section is the concatenation of a table's slots, so
//! changing an offset here changes the file format.
//!
//! All integer fields are big-endian, so that the byte order of a key prefix
//! agrees with the numeric order of its fields.

pub mod edge_flags;
pub mod fact_flags;

use crate::codec;
use crate::codec::{get_be16, get_be32, get_be64, put_be16, put_be32, put_be64};
use crate::id::{BlobId, EdgeId, EntityId, FactId, TermId, NONE_U32};
use vstd::prelude::*;

verus! {

/// `valid_to` value of an open fact ("true now").
pub const VALID_TO_OPEN: u64 = 0xFFFF_FFFF_FFFF_FFFF;

/// A fixed-size record with a big-endian key in front.
pub trait Slot: Copy {
    /// Bytes of one slot.
    spec fn slot_size() -> nat;

    /// Bytes of the key in front of the slot.
    spec fn key_len() -> nat;

    /// The slot's bytes.
    spec fn bytes(self) -> Seq<u8>;

    /// The record that a slot's bytes denote.
    spec fn of_bytes(b: Seq<u8>) -> Self;

    /// The key, as a number.
    spec fn key(self) -> int;

    fn size() -> (r: usize)
        ensures
            r == Self::slot_size(),
            0 < r <= 64,
    ;

    fn key_of(&self) -> (r: u128)
        ensures
            r == self.key(),
    ;

    /// Appends the slot.
    fn write(&self, out: &mut Vec<u8>)
        ensures
            final(out)@ == old(out)@ + self.bytes(),
    ;

    /// Reads the slot at the front of `bytes`.
    fn read(bytes: &[u8]) -> (r: Self)
        requires
            bytes@.len() == Self::slot_size(),
        ensures
            r == Self::of_bytes(bytes@),
    ;

    /// A record survives its encoding.
    proof fn lemma_round_trip(self)
        ensures
            self.bytes().len() == Self::slot_size(),
            Self::of_bytes(self.bytes()) == self,
    ;

    /// The key is the number that the front of the slot denotes, so records
    /// sort by their bytes as they sort by their keys.
    proof fn lemma_key(self)
        ensures
            self.key() == codec::be_nat(self.bytes().take(Self::key_len() as int)),
            self.bytes().take(Self::key_len() as int).len() == Self::key_len(),
    ;
}

/// Where a byte list stands in its pool: the list's number, its length in
/// bytes, and a reserved word (12 bytes).
#[derive(Clone, Copy, Debug, PartialEq, Eq, Structural)]
pub struct ListHandle {
    /// Number of the list, or `NONE_U32` for a list that holds nothing.
    pub list: u32,
    /// Bytes in the list.
    pub bytes: u32,
    /// Reserved; must be `0`.
    pub reserved: u32,
}

pub open spec fn empty_handle() -> ListHandle {
    ListHandle { list: NONE_U32, bytes: 0, reserved: 0 }
}

impl ListHandle {
    /// The handle of a list that holds nothing.
    pub fn empty() -> (r: ListHandle)
        ensures
            r == empty_handle(),
    {
        ListHandle { list: NONE_U32, bytes: 0, reserved: 0 }
    }
}

proof fn lemma_whole(b: Seq<u8>)
    ensures
        codec::has_at(b, 0, b),
{
    reveal(codec::has_at);
    assert(b.subrange(0, b.len() as int) =~= b);
}

/// The unit of memory: one fact (48-byte slot).
///
/// | off | size | field |
/// |---|---|---|
/// | 0 | 4 | `id` (key) |
/// | 4 | 4 | `entity` |
/// | 8 | 2 | `flags` |
/// | 10 | 2 | `kind` (reserved, 0) |
/// | 12 | 4 | `text` |
/// | 16 | 4 | `vector` |
/// | 20 | 4 | `revises` |
/// | 24 | 8 | `recorded_at` |
/// | 32 | 8 | `valid_from` |
/// | 40 | 8 | `valid_to` |
#[derive(Clone, Copy, Debug, PartialEq, Eq, Structural)]
pub struct FactRecord {
    /// Fact id, the key.
    pub id: FactId,
    /// Subject entity, or the sentinel.
    pub entity: EntityId,
    /// Bit set from [`fact_flags`].
    pub flags: u16,
    /// Reserved; must be `0`.
    pub kind: u16,
    /// Fact text (UTF-8) in the blob heap.
    pub text: BlobId,
    /// Slot index in the vector pool, or `NONE_U32`; meaningful only with
    /// [`fact_flags::HAS_VECTOR`].
    pub vector: u32,
    /// Predecessor in the revision chain, or the sentinel. May name a *burned*
    /// id: a predecessor that was forgotten and purged.
    pub revises: FactId,
    /// Knowledge axis: when the memory learned this. Immutable.
    pub recorded_at: u64,
    /// Truth axis: start of the validity interval.
    pub valid_from: u64,
    /// Truth axis: end of the validity interval; [`VALID_TO_OPEN`] = open.
    pub valid_to: u64,
}

impl Slot for FactRecord {
    open spec fn slot_size() -> nat {
        48
    }

    open spec fn bytes(self) -> Seq<u8> {
        codec::be32(self.id.0) + codec::be32(self.entity.0) + codec::be16(self.flags) + codec::be16(self.kind) + codec::be32(self.text.0) + codec::be32(self.vector) + codec::be32(self.revises.0) + codec::be64(self.recorded_at) + codec::be64(self.valid_from) + codec::be64(self.valid_to)
    }

    open spec fn of_bytes(b: Seq<u8>) -> FactRecord {
        FactRecord {
            id: FactId(codec::be_at(b, 0, 4) as u32),
            entity: EntityId(codec::be_at(b, 4, 4) as u32),
            flags: codec::be_at(b, 8, 2) as u16,
            kind: codec::be_at(b, 10, 2) as u16,
            text: BlobId(codec::be_at(b, 12, 4) as u32),
            vector: codec::be_at(b, 16, 4) as u32,
            revises: FactId(codec::be_at(b, 20, 4) as u32),
            recorded_at: codec::be_at(b, 24, 8) as u64,
            valid_from: codec::be_at(b, 32, 8) as u64,
            valid_to: codec::be_at(b, 40, 8) as u64,
        }
    }

    open spec fn key(self) -> int {
        self.id.0 as int
    }

    open spec fn key_len() -> nat {
        4
    }

    fn size() -> (r: usize) {
        48
    }

    fn key_of(&self) -> (r: u128) {
        self.id.0 as u128
    }

    fn write(&self, out: &mut Vec<u8>) {
        put_be32(out, self.id.0);
        put_be32(out, self.entity.0);
        put_be16(out, self.flags);
        put_be16(out, self.kind);
        put_be32(out, self.text.0);
        put_be32(out, self.vector);
        put_be32(out, self.revises.0);
        put_be64(out, self.recorded_at);
        put_be64(out, self.valid_from);
        put_be64(out, self.valid_to);
        assert(out@ =~= old(out)@ + self.bytes());
    }

    fn read(bytes: &[u8]) -> (r: FactRecord) {
        FactRecord {
            id: FactId(get_be32(bytes, 0)),
            entity: EntityId(get_be32(bytes, 4)),
            flags: get_be16(bytes, 8),
            kind: get_be16(bytes, 10),
            text: BlobId(get_be32(bytes, 12)),
            vector: get_be32(bytes, 16),
            revises: FactId(get_be32(bytes, 20)),
            recorded_at: get_be64(bytes, 24),
            valid_from: get_be64(bytes, 32),
            valid_to: get_be64(bytes, 40),
        }
    }

    proof fn lemma_round_trip(self) {
        let b = self.bytes();
        codec::lemma_pow256();
        lemma_whole(b);
        codec::lemma_be_bytes_len(self.id.0 as nat, 4);
        let s1 = codec::be32(self.id.0);
        codec::lemma_be_bytes_len(self.entity.0 as nat, 4);
        let s2 = s1 + codec::be32(self.entity.0);
        codec::lemma_be_bytes_len(self.flags as nat, 2);
        let s3 = s2 + codec::be16(self.flags);
        codec::lemma_be_bytes_len(self.kind as nat, 2);
        let s4 = s3 + codec::be16(self.kind);
        codec::lemma_be_bytes_len(self.text.0 as nat, 4);
        let s5 = s4 + codec::be32(self.text.0);
        codec::lemma_be_bytes_len(self.vector as nat, 4);
        let s6 = s5 + codec::be32(self.vector);
        codec::lemma_be_bytes_len(self.revises.0 as nat, 4);
        let s7 = s6 + codec::be32(self.revises.0);
        codec::lemma_be_bytes_len(self.recorded_at as nat, 8);
        let s8 = s7 + codec::be64(self.recorded_at);
        codec::lemma_be_bytes_len(self.valid_from as nat, 8);
        let s9 = s8 + codec::be64(self.valid_from);
        codec::lemma_be_bytes_len(self.valid_to as nat, 8);
        let s10 = s9 + codec::be64(self.valid_to);
        codec::lemma_has_split(b, 0, s9, codec::be64(self.valid_to));
        codec::lemma_has_split(b, 0, s8, codec::be64(self.valid_from));
        codec::lemma_has_split(b, 0, s7, codec::be64(self.recorded_at));
        codec::lemma_has_split(b, 0, s6, codec::be32(self.revises.0));
        codec::lemma_has_split(b, 0, s5, codec::be32(self.vector));
        codec::lemma_has_split(b, 0, s4, codec::be32(self.text.0));
        codec::lemma_has_split(b, 0, s3, codec::be16(self.kind));
        codec::lemma_has_split(b, 0, s2, codec::be16(self.flags));
        codec::lemma_has_split(b, 0, s1, codec::be32(self.entity.0));
        codec::lemma_be_at(b, 0, self.id.0 as nat, 4);
        codec::lemma_be_at(b, 4, self.entity.0 as nat, 4);
        codec::lemma_be_at(b, 8, self.flags as nat, 2);
        codec::lemma_be_at(b, 10, self.kind as nat, 2);
        codec::lemma_be_at(b, 12, self.text.0 as nat, 4);
        codec::lemma_be_at(b, 16, self.vector as nat, 4);
        codec::lemma_be_at(b, 20, self.revises.0 as nat, 4);
        codec::lemma_be_at(b, 24, self.recorded_at as nat, 8);
        codec::lemma_be_at(b, 32, self.valid_from as nat, 8);
        codec::lemma_be_at(b, 40, self.valid_to as nat, 8);
    }

    proof fn lemma_key(self) {
        let b = self.bytes();
        codec::lemma_pow256();
        codec::lemma_be_round_trip(self.id.0 as nat, 4);
        codec::lemma_be_round_trip(self.entity.0 as nat, 4);
        codec::lemma_be_round_trip(self.flags as nat, 2);
        codec::lemma_be_round_trip(self.kind as nat, 2);
        codec::lemma_be_round_trip(self.text.0 as nat, 4);
        codec::lemma_be_round_trip(self.vector as nat, 4);
        codec::lemma_be_round_trip(self.revises.0 as nat, 4);
        codec::lemma_be_round_trip(self.recorded_at as nat, 8);
        codec::lemma_be_round_trip(self.valid_from as nat, 8);
        codec::lemma_be_round_trip(self.valid_to as nat, 8);
        let k1 = codec::be32(self.id.0);
        assert(b.take(4) =~= k1);
    }
}

/// Per-fact auxiliary record: the tag-list handle and the optional metadata
/// blob (20-byte slot, layout `[id 4 | ListHandle 12 | meta 4]`).
///
/// Split from [`FactRecord`] so the hot 48-byte record stays hot.
#[derive(Clone, Copy, Debug, PartialEq, Eq, Structural)]
pub struct FactAux {
    /// Fact id, the key.
    pub id: FactId,
    /// The fact's tag list in the tag pool.
    pub tags: ListHandle,
    /// The fact's metadata blob, or the sentinel when it carries none.
    pub meta: BlobId,
}

impl Slot for FactAux {
    open spec fn slot_size() -> nat {
        20
    }

    open spec fn bytes(self) -> Seq<u8> {
        codec::be32(self.id.0) + codec::be32(self.tags.list) + codec::be32(self.tags.bytes) + codec::be32(self.tags.reserved) + codec::be32(self.meta.0)
    }

    open spec fn of_bytes(b: Seq<u8>) -> FactAux {
        FactAux {
            id: FactId(codec::be_at(b, 0, 4) as u32),
            tags: ListHandle { list: codec::be_at(b, 4, 4) as u32, bytes: codec::be_at(b, 8, 4) as u32, reserved: codec::be_at(b, 12, 4) as u32 },
            meta: BlobId(codec::be_at(b, 16, 4) as u32),
        }
    }

    open spec fn key(self) -> int {
        self.id.0 as int
    }

    open spec fn key_len() -> nat {
        4
    }

    fn size() -> (r: usize) {
        20
    }

    fn key_of(&self) -> (r: u128) {
        self.id.0 as u128
    }

    fn write(&self, out: &mut Vec<u8>) {
        put_be32(out, self.id.0);
        put_be32(out, self.tags.list);
        put_be32(out, self.tags.bytes);
        put_be32(out, self.tags.reserved);
        put_be32(out, self.meta.0);
        assert(out@ =~= old(out)@ + self.bytes());
    }

    fn read(bytes: &[u8]) -> (r: FactAux) {
        FactAux {
            id: FactId(get_be32(bytes, 0)),
            tags: ListHandle { list: get_be32(bytes, 4), bytes: get_be32(bytes, 8), reserved: get_be32(bytes, 12) },
            meta: BlobId(get_be32(bytes, 16)),
        }
    }

    proof fn lemma_round_trip(self) {
        let b = self.bytes();
        codec::lemma_pow256();
        lemma_whole(b);
        codec::lemma_be_bytes_len(self.id.0 as nat, 4);
        let s1 = codec::be32(self.id.0);
        codec::lemma_be_bytes_len(self.tags.list as nat, 4);
        let s2 = s1 + codec::be32(self.tags.list);
        codec::lemma_be_bytes_len(self.tags.bytes as nat, 4);
        let s3 = s2 + codec::be32(self.tags.bytes);
        codec::lemma_be_bytes_len(self.tags.reserved as nat, 4);
        let s4 = s3 + codec::be32(self.tags.reserved);
        codec::lemma_be_bytes_len(self.meta.0 as nat, 4);
        let s5 = s4 + codec::be32(self.meta.0);
        codec::lemma_has_split(b, 0, s4, codec::be32(self.meta.0));
        codec::lemma_has_split(b, 0, s3, codec::be32(self.tags.reserved));
        codec::lemma_has_split(b, 0, s2, codec::be32(self.tags.bytes));
        codec::lemma_has_split(b, 0, s1, codec::be32(self.tags.list));
        codec::lemma_be_at(b, 0, self.id.0 as nat, 4);
        codec::lemma_be_at(b, 4, self.tags.list as nat, 4);
        codec::lemma_be_at(b, 8, self.tags.bytes as nat, 4);
        codec::lemma_be_at(b, 12, self.tags.reserved as nat, 4);
        codec::lemma_be_at(b, 16, self.meta.0 as nat, 4);
    }

    proof fn lemma_key(self) {
        let b = self.bytes();
        codec::lemma_pow256();
        codec::lemma_be_round_trip(self.id.0 as nat, 4);
        codec::lemma_be_round_trip(self.tags.list as nat, 4);
        codec::lemma_be_round_trip(self.tags.bytes as nat, 4);
        codec::lemma_be_round_trip(self.tags.reserved as nat, 4);
        codec::lemma_be_round_trip(self.meta.0 as nat, 4);
        let k1 = codec::be32(self.id.0);
        assert(b.take(4) =~= k1);
    }
}

/// A graph node (24-byte slot).
///
/// | off | size | field |
/// |---|---|---|
/// | 0 | 4 | `id` (key) |
/// | 4 | 4 | `name` |
/// | 8 | 4 | `name_term` |
/// | 12 | 8 | `created_at` |
/// | 20 | 4 | `flags` (reserved, 0) |
#[derive(Clone, Copy, Debug, PartialEq, Eq, Structural)]
pub struct EntityRecord {
    /// Entity id, the key.
    pub id: EntityId,
    /// Canonical name as first entered (blob heap, UTF-8).
    pub name: BlobId,
    /// Interned *normalized* name, the lookup key for name resolution.
    pub name_term: TermId,
    /// When the entity was first mentioned.
    pub created_at: u64,
    /// Reserved; must be `0`.
    pub flags: u32,
}

impl Slot for EntityRecord {
    open spec fn slot_size() -> nat {
        24
    }

    open spec fn bytes(self) -> Seq<u8> {
        codec::be32(self.id.0) + codec::be32(self.name.0) + codec::be32(self.name_term.0) + codec::be64(self.created_at) + codec::be32(self.flags)
    }

    open spec fn of_bytes(b: Seq<u8>) -> EntityRecord {
        EntityRecord {
            id: EntityId(codec::be_at(b, 0, 4) as u32),
            name: BlobId(codec::be_at(b, 4, 4) as u32),
            name_term: TermId(codec::be_at(b, 8, 4) as u32),
            created_at: codec::be_at(b, 12, 8) as u64,
            flags: codec::be_at(b, 20, 4) as u32,
        }
    }

    open spec fn key(self) -> int {
        self.id.0 as int
    }

    open spec fn key_len() -> nat {
        4
    }

    fn size() -> (r: usize) {
        24
    }

    fn key_of(&self) -> (r: u128) {
        self.id.0 as u128
    }

    fn write(&self, out: &mut Vec<u8>) {
        put_be32(out, self.id.0);
        put_be32(out, self.name.0);
        put_be32(out, self.name_term.0);
        put_be64(out, self.created_at);
        put_be32(out, self.flags);
        assert(out@ =~= old(out)@ + self.bytes());
    }

    fn read(bytes: &[u8]) -> (r: EntityRecord) {
        EntityRecord {
            id: EntityId(get_be32(bytes, 0)),
            name: BlobId(get_be32(bytes, 4)),
            name_term: TermId(get_be32(bytes, 8)),
            created_at: get_be64(bytes, 12),
            flags: get_be32(bytes, 20),
        }
    }

    proof fn lemma_round_trip(self) {
        let b = self.bytes();
        codec::lemma_pow256();
        lemma_whole(b);
        codec::lemma_be_bytes_len(self.id.0 as nat, 4);
        let s1 = codec::be32(self.id.0);
        codec::lemma_be_bytes_len(self.name.0 as nat, 4);
        let s2 = s1 + codec::be32(self.name.0);
        codec::lemma_be_bytes_len(self.name_term.0 as nat, 4);
        let s3 = s2 + codec::be32(self.name_term.0);
        codec::lemma_be_bytes_len(self.created_at as nat, 8);
        let s4 = s3 + codec::be64(self.created_at);
        codec::lemma_be_bytes_len(self.flags as nat, 4);
        let s5 = s4 + codec::be32(self.flags);
        codec::lemma_has_split(b, 0, s4, codec::be32(self.flags));
        codec::lemma_has_split(b, 0, s3, codec::be64(self.created_at));
        codec::lemma_has_split(b, 0, s2, codec::be32(self.name_term.0));
        codec::lemma_has_split(b, 0, s1, codec::be32(self.name.0));
        codec::lemma_be_at(b, 0, self.id.0 as nat, 4);
        codec::lemma_be_at(b, 4, self.name.0 as nat, 4);
        codec::lemma_be_at(b, 8, self.name_term.0 as nat, 4);
        codec::lemma_be_at(b, 12, self.created_at as nat, 8);
        codec::lemma_be_at(b, 20, self.flags as nat, 4);
    }

    proof fn lemma_key(self) {
        let b = self.bytes();
        codec::lemma_pow256();
        codec::lemma_be_round_trip(self.id.0 as nat, 4);
        codec::lemma_be_round_trip(self.name.0 as nat, 4);
        codec::lemma_be_round_trip(self.name_term.0 as nat, 4);
        codec::lemma_be_round_trip(self.created_at as nat, 8);
        codec::lemma_be_round_trip(self.flags as nat, 4);
        let k1 = codec::be32(self.id.0);
        assert(b.take(4) =~= k1);
    }
}

/// Name to entity resolution record (8-byte slot, the whole slot is the key:
/// `[name_term | id]`).
#[derive(Clone, Copy, Debug, PartialEq, Eq, Structural)]
pub struct EntityByName {
    /// Interned normalized name.
    pub name_term: TermId,
    /// The entity carrying that name.
    pub id: EntityId,
}

impl Slot for EntityByName {
    open spec fn slot_size() -> nat {
        8
    }

    open spec fn bytes(self) -> Seq<u8> {
        codec::be32(self.name_term.0) + codec::be32(self.id.0)
    }

    open spec fn of_bytes(b: Seq<u8>) -> EntityByName {
        EntityByName {
            name_term: TermId(codec::be_at(b, 0, 4) as u32),
            id: EntityId(codec::be_at(b, 4, 4) as u32),
        }
    }

    open spec fn key(self) -> int {
        0x100000000 * (self.name_term.0 as int) + self.id.0 as int
    }

    open spec fn key_len() -> nat {
        8
    }

    fn size() -> (r: usize) {
        8
    }

    fn key_of(&self) -> (r: u128) {
        0x100000000 * (self.name_term.0 as u128) + self.id.0 as u128
    }

    fn write(&self, out: &mut Vec<u8>) {
        put_be32(out, self.name_term.0);
        put_be32(out, self.id.0);
        assert(out@ =~= old(out)@ + self.bytes());
    }

    fn read(bytes: &[u8]) -> (r: EntityByName) {
        EntityByName {
            name_term: TermId(get_be32(bytes, 0)),
            id: EntityId(get_be32(bytes, 4)),
        }
    }

    proof fn lemma_round_trip(self) {
        let b = self.bytes();
        codec::lemma_pow256();
        lemma_whole(b);
        codec::lemma_be_bytes_len(self.name_term.0 as nat, 4);
        let s1 = codec::be32(self.name_term.0);
        codec::lemma_be_bytes_len(self.id.0 as nat, 4);
        let s2 = s1 + codec::be32(self.id.0);
        codec::lemma_has_split(b, 0, s1, codec::be32(self.id.0));
        codec::lemma_be_at(b, 0, self.name_term.0 as nat, 4);
        codec::lemma_be_at(b, 4, self.id.0 as nat, 4);
    }

    proof fn lemma_key(self) {
        let b = self.bytes();
        codec::lemma_pow256();
        codec::lemma_be_round_trip(self.name_term.0 as nat, 4);
        codec::lemma_be_round_trip(self.id.0 as nat, 4);
        let k1 = codec::be32(self.name_term.0);
        let k2 = k1 + codec::be32(self.id.0);
        codec::lemma_be_concat(k1, codec::be32(self.id.0));
        assert(b.take(8) =~= k2);
    }
}

/// A typed graph edge, currently open (28-byte slot, key `[a | rel | b]`,
/// payload `fact | edge | valid_from`).
///
/// Stored twice, in two mirrored tables: the out-table keys by
/// `(src, rel, dst)`, the in-table by `(dst, rel, src)`; `a`/`b` are whichever
/// end comes first in that table's key. An edge is unique per
/// `(src, rel, dst)`; re-linking closes this version and opens a new one.
///
/// The slot carries the identity of its open [`EdgeHistorySlot`] version:
/// `edge` and `valid_from` are exactly that record's key tail.
#[derive(Clone, Copy, Debug, PartialEq, Eq, Structural)]
pub struct EdgeSlot {
    /// First key component (out-table: source; in-table: destination).
    pub a: EntityId,
    /// Interned relation term.
    pub rel: TermId,
    /// Second key component (out-table: destination; in-table: source).
    pub b: EntityId,
    /// Provenance fact, or the sentinel.
    pub fact: FactId,
    /// The open edge version this slot mirrors.
    pub edge: EdgeId,
    /// Start of the open version's validity.
    pub valid_from: u64,
}

impl Slot for EdgeSlot {
    open spec fn slot_size() -> nat {
        28
    }

    open spec fn bytes(self) -> Seq<u8> {
        codec::be32(self.a.0) + codec::be32(self.rel.0) + codec::be32(self.b.0) + codec::be32(self.fact.0) + codec::be32(self.edge.0) + codec::be64(self.valid_from)
    }

    open spec fn of_bytes(b: Seq<u8>) -> EdgeSlot {
        EdgeSlot {
            a: EntityId(codec::be_at(b, 0, 4) as u32),
            rel: TermId(codec::be_at(b, 4, 4) as u32),
            b: EntityId(codec::be_at(b, 8, 4) as u32),
            fact: FactId(codec::be_at(b, 12, 4) as u32),
            edge: EdgeId(codec::be_at(b, 16, 4) as u32),
            valid_from: codec::be_at(b, 20, 8) as u64,
        }
    }

    open spec fn key(self) -> int {
        0x10000000000000000 * (self.a.0 as int) + 0x100000000 * (self.rel.0 as int) + self.b.0 as int
    }

    open spec fn key_len() -> nat {
        12
    }

    fn size() -> (r: usize) {
        28
    }

    fn key_of(&self) -> (r: u128) {
        0x10000000000000000 * (self.a.0 as u128) + 0x100000000 * (self.rel.0 as u128) + self.b.0 as u128
    }

    fn write(&self, out: &mut Vec<u8>) {
        put_be32(out, self.a.0);
        put_be32(out, self.rel.0);
        put_be32(out, self.b.0);
        put_be32(out, self.fact.0);
        put_be32(out, self.edge.0);
        put_be64(out, self.valid_from);
        assert(out@ =~= old(out)@ + self.bytes());
    }

    fn read(bytes: &[u8]) -> (r: EdgeSlot) {
        EdgeSlot {
            a: EntityId(get_be32(bytes, 0)),
            rel: TermId(get_be32(bytes, 4)),
            b: EntityId(get_be32(bytes, 8)),
            fact: FactId(get_be32(bytes, 12)),
            edge: EdgeId(get_be32(bytes, 16)),
            valid_from: get_be64(bytes, 20),
        }
    }

    proof fn lemma_round_trip(self) {
        let b = self.bytes();
        codec::lemma_pow256();
        lemma_whole(b);
        codec::lemma_be_bytes_len(self.a.0 as nat, 4);
        let s1 = codec::be32(self.a.0);
        codec::lemma_be_bytes_len(self.rel.0 as nat, 4);
        let s2 = s1 + codec::be32(self.rel.0);
        codec::lemma_be_bytes_len(self.b.0 as nat, 4);
        let s3 = s2 + codec::be32(self.b.0);
        codec::lemma_be_bytes_len(self.fact.0 as nat, 4);
        let s4 = s3 + codec::be32(self.fact.0);
        codec::lemma_be_bytes_len(self.edge.0 as nat, 4);
        let s5 = s4 + codec::be32(self.edge.0);
        codec::lemma_be_bytes_len(self.valid_from as nat, 8);
        let s6 = s5 + codec::be64(self.valid_from);
        codec::lemma_has_split(b, 0, s5, codec::be64(self.valid_from));
        codec::lemma_has_split(b, 0, s4, codec::be32(self.edge.0));
        codec::lemma_has_split(b, 0, s3, codec::be32(self.fact.0));
        codec::lemma_has_split(b, 0, s2, codec::be32(self.b.0));
        codec::lemma_has_split(b, 0, s1, codec::be32(self.rel.0));
        codec::lemma_be_at(b, 0, self.a.0 as nat, 4);
        codec::lemma_be_at(b, 4, self.rel.0 as nat, 4);
        codec::lemma_be_at(b, 8, self.b.0 as nat, 4);
        codec::lemma_be_at(b, 12, self.fact.0 as nat, 4);
        codec::lemma_be_at(b, 16, self.edge.0 as nat, 4);
        codec::lemma_be_at(b, 20, self.valid_from as nat, 8);
    }

    proof fn lemma_key(self) {
        let b = self.bytes();
        codec::lemma_pow256();
        codec::lemma_be_round_trip(self.a.0 as nat, 4);
        codec::lemma_be_round_trip(self.rel.0 as nat, 4);
        codec::lemma_be_round_trip(self.b.0 as nat, 4);
        codec::lemma_be_round_trip(self.fact.0 as nat, 4);
        codec::lemma_be_round_trip(self.edge.0 as nat, 4);
        codec::lemma_be_round_trip(self.valid_from as nat, 8);
        let k1 = codec::be32(self.a.0);
        let k2 = k1 + codec::be32(self.rel.0);
        codec::lemma_be_concat(k1, codec::be32(self.rel.0));
        assert(codec::be_nat(k2) == 0x1_0000_0000 * (self.a.0 as int) + self.rel.0);
        let k3 = k2 + codec::be32(self.b.0);
        codec::lemma_be_concat(k2, codec::be32(self.b.0));
        assert(codec::be_nat(k3) == 0x1_0000_0000 * codec::be_nat(k2) + self.b.0);
        assert(b.take(12) =~= k3);
    }
}

/// A temporal typed graph edge version (48-byte slot, key
/// `[a | valid_from | edge]`).
///
/// Stored twice, in two mirrored history tables with the same orientation as
/// [`EdgeSlot`]. The key is **time-ordered per entity**: an `as_of(t)`
/// traversal starts at `t` and walks backwards through the versions that most
/// recently became true.
#[derive(Clone, Copy, Debug, PartialEq, Eq, Structural)]
pub struct EdgeHistorySlot {
    /// First key component (out-table: source; in-table: destination).
    pub a: EntityId,
    /// Truth axis: start of the edge validity interval.
    pub valid_from: u64,
    /// Edge-version id.
    pub edge: EdgeId,
    /// Interned relation term.
    pub rel: TermId,
    /// Second endpoint (out-table: destination; in-table: source).
    pub b: EntityId,
    /// Provenance fact, or the sentinel.
    pub fact: FactId,
    /// Edge flags; see [`edge_flags::CLOSED`].
    pub flags: u16,
    /// Reserved for future lifecycle states.
    pub kind: u16,
    /// Knowledge axis: when the edge version was recorded.
    pub recorded_at: u64,
    /// Truth axis: end of the edge validity interval; [`VALID_TO_OPEN`] =
    /// current.
    pub valid_to: u64,
}

impl Slot for EdgeHistorySlot {
    open spec fn slot_size() -> nat {
        48
    }

    open spec fn bytes(self) -> Seq<u8> {
        codec::be32(self.a.0) + codec::be64(self.valid_from) + codec::be32(self.edge.0) + codec::be32(self.rel.0) + codec::be32(self.b.0) + codec::be32(self.fact.0) + codec::be16(self.flags) + codec::be16(self.kind) + codec::be64(self.recorded_at) + codec::be64(self.valid_to)
    }

    open spec fn of_bytes(b: Seq<u8>) -> EdgeHistorySlot {
        EdgeHistorySlot {
            a: EntityId(codec::be_at(b, 0, 4) as u32),
            valid_from: codec::be_at(b, 4, 8) as u64,
            edge: EdgeId(codec::be_at(b, 12, 4) as u32),
            rel: TermId(codec::be_at(b, 16, 4) as u32),
            b: EntityId(codec::be_at(b, 20, 4) as u32),
            fact: FactId(codec::be_at(b, 24, 4) as u32),
            flags: codec::be_at(b, 28, 2) as u16,
            kind: codec::be_at(b, 30, 2) as u16,
            recorded_at: codec::be_at(b, 32, 8) as u64,
            valid_to: codec::be_at(b, 40, 8) as u64,
        }
    }

    open spec fn key(self) -> int {
        0x1000000000000000000000000 * (self.a.0 as int) + 0x100000000 * (self.valid_from as int) + self.edge.0 as int
    }

    open spec fn key_len() -> nat {
        16
    }

    fn size() -> (r: usize) {
        48
    }

    fn key_of(&self) -> (r: u128) {
        0x1000000000000000000000000 * (self.a.0 as u128) + 0x100000000 * (self.valid_from as u128) + self.edge.0 as u128
    }

    fn write(&self, out: &mut Vec<u8>) {
        put_be32(out, self.a.0);
        put_be64(out, self.valid_from);
        put_be32(out, self.edge.0);
        put_be32(out, self.rel.0);
        put_be32(out, self.b.0);
        put_be32(out, self.fact.0);
        put_be16(out, self.flags);
        put_be16(out, self.kind);
        put_be64(out, self.recorded_at);
        put_be64(out, self.valid_to);
        assert(out@ =~= old(out)@ + self.bytes());
    }

    fn read(bytes: &[u8]) -> (r: EdgeHistorySlot) {
        EdgeHistorySlot {
            a: EntityId(get_be32(bytes, 0)),
            valid_from: get_be64(bytes, 4),
            edge: EdgeId(get_be32(bytes, 12)),
            rel: TermId(get_be32(bytes, 16)),
            b: EntityId(get_be32(bytes, 20)),
            fact: FactId(get_be32(bytes, 24)),
            flags: get_be16(bytes, 28),
            kind: get_be16(bytes, 30),
            recorded_at: get_be64(bytes, 32),
            valid_to: get_be64(bytes, 40),
        }
    }

    proof fn lemma_round_trip(self) {
        let b = self.bytes();
        codec::lemma_pow256();
        lemma_whole(b);
        codec::lemma_be_bytes_len(self.a.0 as nat, 4);
        let s1 = codec::be32(self.a.0);
        codec::lemma_be_bytes_len(self.valid_from as nat, 8);
        let s2 = s1 + codec::be64(self.valid_from);
        codec::lemma_be_bytes_len(self.edge.0 as nat, 4);
        let s3 = s2 + codec::be32(self.edge.0);
        codec::lemma_be_bytes_len(self.rel.0 as nat, 4);
        let s4 = s3 + codec::be32(self.rel.0);
        codec::lemma_be_bytes_len(self.b.0 as nat, 4);
        let s5 = s4 + codec::be32(self.b.0);
        codec::lemma_be_bytes_len(self.fact.0 as nat, 4);
        let s6 = s5 + codec::be32(self.fact.0);
        codec::lemma_be_bytes_len(self.flags as nat, 2);
        let s7 = s6 + codec::be16(self.flags);
        codec::lemma_be_bytes_len(self.kind as nat, 2);
        let s8 = s7 + codec::be16(self.kind);
        codec::lemma_be_bytes_len(self.recorded_at as nat, 8);
        let s9 = s8 + codec::be64(self.recorded_at);
        codec::lemma_be_bytes_len(self.valid_to as nat, 8);
        let s10 = s9 + codec::be64(self.valid_to);
        codec::lemma_has_split(b, 0, s9, codec::be64(self.valid_to));
        codec::lemma_has_split(b, 0, s8, codec::be64(self.recorded_at));
        codec::lemma_has_split(b, 0, s7, codec::be16(self.kind));
        codec::lemma_has_split(b, 0, s6, codec::be16(self.flags));
        codec::lemma_has_split(b, 0, s5, codec::be32(self.fact.0));
        codec::lemma_has_split(b, 0, s4, codec::be32(self.b.0));
        codec::lemma_has_split(b, 0, s3, codec::be32(self.rel.0));
        codec::lemma_has_split(b, 0, s2, codec::be32(self.edge.0));
        codec::lemma_has_split(b, 0, s1, codec::be64(self.valid_from));
        codec::lemma_be_at(b, 0, self.a.0 as nat, 4);
        codec::lemma_be_at(b, 4, self.valid_from as nat, 8);
        codec::lemma_be_at(b, 12, self.edge.0 as nat, 4);
        codec::lemma_be_at(b, 16, self.rel.0 as nat, 4);
        codec::lemma_be_at(b, 20, self.b.0 as nat, 4);
        codec::lemma_be_at(b, 24, self.fact.0 as nat, 4);
        codec::lemma_be_at(b, 28, self.flags as nat, 2);
        codec::lemma_be_at(b, 30, self.kind as nat, 2);
        codec::lemma_be_at(b, 32, self.recorded_at as nat, 8);
        codec::lemma_be_at(b, 40, self.valid_to as nat, 8);
    }

    proof fn lemma_key(self) {
        let b = self.bytes();
        codec::lemma_pow256();
        codec::lemma_be_round_trip(self.a.0 as nat, 4);
        codec::lemma_be_round_trip(self.valid_from as nat, 8);
        codec::lemma_be_round_trip(self.edge.0 as nat, 4);
        codec::lemma_be_round_trip(self.rel.0 as nat, 4);
        codec::lemma_be_round_trip(self.b.0 as nat, 4);
        codec::lemma_be_round_trip(self.fact.0 as nat, 4);
        codec::lemma_be_round_trip(self.flags as nat, 2);
        codec::lemma_be_round_trip(self.kind as nat, 2);
        codec::lemma_be_round_trip(self.recorded_at as nat, 8);
        codec::lemma_be_round_trip(self.valid_to as nat, 8);
        let k1 = codec::be32(self.a.0);
        let k2 = k1 + codec::be64(self.valid_from);
        codec::lemma_be_concat(k1, codec::be64(self.valid_from));
        assert(codec::be_nat(k2) == 0x1_0000_0000_0000_0000 * (self.a.0 as int) + self.valid_from);
        let k3 = k2 + codec::be32(self.edge.0);
        codec::lemma_be_concat(k2, codec::be32(self.edge.0));
        assert(codec::be_nat(k3) == 0x1_0000_0000 * codec::be_nat(k2) + self.edge.0);
        assert(b.take(16) =~= k3);
    }
}

/// Temporal index record (12-byte slot, the whole slot is the key:
/// `[recorded_at | fact]`).
#[derive(Clone, Copy, Debug, PartialEq, Eq, Structural)]
pub struct TemporalSlot {
    /// When the fact was recorded (knowledge axis).
    pub recorded_at: u64,
    /// The fact recorded at that moment.
    pub fact: FactId,
}

impl Slot for TemporalSlot {
    open spec fn slot_size() -> nat {
        12
    }

    open spec fn bytes(self) -> Seq<u8> {
        codec::be64(self.recorded_at) + codec::be32(self.fact.0)
    }

    open spec fn of_bytes(b: Seq<u8>) -> TemporalSlot {
        TemporalSlot {
            recorded_at: codec::be_at(b, 0, 8) as u64,
            fact: FactId(codec::be_at(b, 8, 4) as u32),
        }
    }

    open spec fn key(self) -> int {
        0x100000000 * (self.recorded_at as int) + self.fact.0 as int
    }

    open spec fn key_len() -> nat {
        12
    }

    fn size() -> (r: usize) {
        12
    }

    fn key_of(&self) -> (r: u128) {
        0x100000000 * (self.recorded_at as u128) + self.fact.0 as u128
    }

    fn write(&self, out: &mut Vec<u8>) {
        put_be64(out, self.recorded_at);
        put_be32(out, self.fact.0);
        assert(out@ =~= old(out)@ + self.bytes());
    }

    fn read(bytes: &[u8]) -> (r: TemporalSlot) {
        TemporalSlot {
            recorded_at: get_be64(bytes, 0),
            fact: FactId(get_be32(bytes, 8)),
        }
    }

    proof fn lemma_round_trip(self) {
        let b = self.bytes();
        codec::lemma_pow256();
        lemma_whole(b);
        codec::lemma_be_bytes_len(self.recorded_at as nat, 8);
        let s1 = codec::be64(self.recorded_at);
        codec::lemma_be_bytes_len(self.fact.0 as nat, 4);
        let s2 = s1 + codec::be32(self.fact.0);
        codec::lemma_has_split(b, 0, s1, codec::be32(self.fact.0));
        codec::lemma_be_at(b, 0, self.recorded_at as nat, 8);
        codec::lemma_be_at(b, 8, self.fact.0 as nat, 4);
    }

    proof fn lemma_key(self) {
        let b = self.bytes();
        codec::lemma_pow256();
        codec::lemma_be_round_trip(self.recorded_at as nat, 8);
        codec::lemma_be_round_trip(self.fact.0 as nat, 4);
        let k1 = codec::be64(self.recorded_at);
        let k2 = k1 + codec::be32(self.fact.0);
        codec::lemma_be_concat(k1, codec::be32(self.fact.0));
        assert(b.take(12) =~= k2);
    }
}

/// Per-key slot of a posting store: `[key 4 | ListHandle 12 | count 4 | last 4]`,
/// 24 bytes. `count` doubles as the document frequency for BM25; `last` is the
/// highest id in the list (the delta base).
#[derive(Clone, Copy, Debug, PartialEq, Eq, Structural)]
pub struct IdListSlot {
    /// The indexed key (a term id, a tag's term id, an entity id).
    pub key: u32,
    /// The list in the pool.
    pub handle: ListHandle,
    /// Number of entries in the list.
    pub count: u32,
    /// Highest id appended so far (delta base for the next append).
    pub last: u32,
}

impl Slot for IdListSlot {
    open spec fn slot_size() -> nat {
        24
    }

    open spec fn bytes(self) -> Seq<u8> {
        codec::be32(self.key) + codec::be32(self.handle.list) + codec::be32(self.handle.bytes) + codec::be32(self.handle.reserved) + codec::be32(self.count) + codec::be32(self.last)
    }

    open spec fn of_bytes(b: Seq<u8>) -> IdListSlot {
        IdListSlot {
            key: codec::be_at(b, 0, 4) as u32,
            handle: ListHandle { list: codec::be_at(b, 4, 4) as u32, bytes: codec::be_at(b, 8, 4) as u32, reserved: codec::be_at(b, 12, 4) as u32 },
            count: codec::be_at(b, 16, 4) as u32,
            last: codec::be_at(b, 20, 4) as u32,
        }
    }

    open spec fn key(self) -> int {
        self.key as int
    }

    open spec fn key_len() -> nat {
        4
    }

    fn size() -> (r: usize) {
        24
    }

    fn key_of(&self) -> (r: u128) {
        self.key as u128
    }

    fn write(&self, out: &mut Vec<u8>) {
        put_be32(out, self.key);
        put_be32(out, self.handle.list);
        put_be32(out, self.handle.bytes);
        put_be32(out, self.handle.reserved);
        put_be32(out, self.count);
        put_be32(out, self.last);
        assert(out@ =~= old(out)@ + self.bytes());
    }

    fn read(bytes: &[u8]) -> (r: IdListSlot) {
        IdListSlot {
            key: get_be32(bytes, 0),
            handle: ListHandle { list: get_be32(bytes, 4), bytes: get_be32(bytes, 8), reserved: get_be32(bytes, 12) },
            count: get_be32(bytes, 16),
            last: get_be32(bytes, 20),
        }
    }

    proof fn lemma_round_trip(self) {
        let b = self.bytes();
        codec::lemma_pow256();
        lemma_whole(b);
        codec::lemma_be_bytes_len(self.key as nat, 4);
        let s1 = codec::be32(self.key);
        codec::lemma_be_bytes_len(self.handle.list as nat, 4);
        let s2 = s1 + codec::be32(self.handle.list);
        codec::lemma_be_bytes_len(self.handle.bytes as nat, 4);
        let s3 = s2 + codec::be32(self.handle.bytes);
        codec::lemma_be_bytes_len(self.handle.reserved as nat, 4);
        let s4 = s3 + codec::be32(self.handle.reserved);
        codec::lemma_be_bytes_len(self.count as nat, 4);
        let s5 = s4 + codec::be32(self.count);
        codec::lemma_be_bytes_len(self.last as nat, 4);
        let s6 = s5 + codec::be32(self.last);
        codec::lemma_has_split(b, 0, s5, codec::be32(self.last));
        codec::lemma_has_split(b, 0, s4, codec::be32(self.count));
        codec::lemma_has_split(b, 0, s3, codec::be32(self.handle.reserved));
        codec::lemma_has_split(b, 0, s2, codec::be32(self.handle.bytes));
        codec::lemma_has_split(b, 0, s1, codec::be32(self.handle.list));
        codec::lemma_be_at(b, 0, self.key as nat, 4);
        codec::lemma_be_at(b, 4, self.handle.list as nat, 4);
        codec::lemma_be_at(b, 8, self.handle.bytes as nat, 4);
        codec::lemma_be_at(b, 12, self.handle.reserved as nat, 4);
        codec::lemma_be_at(b, 16, self.count as nat, 4);
        codec::lemma_be_at(b, 20, self.last as nat, 4);
    }

    proof fn lemma_key(self) {
        let b = self.bytes();
        codec::lemma_pow256();
        codec::lemma_be_round_trip(self.key as nat, 4);
        codec::lemma_be_round_trip(self.handle.list as nat, 4);
        codec::lemma_be_round_trip(self.handle.bytes as nat, 4);
        codec::lemma_be_round_trip(self.handle.reserved as nat, 4);
        codec::lemma_be_round_trip(self.count as nat, 4);
        codec::lemma_be_round_trip(self.last as nat, 4);
        let k1 = codec::be32(self.key);
        assert(b.take(4) =~= k1);
    }
}

/// Per-document length record (16-byte slot,
/// `[fact 4 | len 2 | distinct 2 | sig 8]`).
#[derive(Clone, Copy, Debug, PartialEq, Eq, Structural)]
pub struct DocLenSlot {
    /// The document (fact) id, the key.
    pub fact: FactId,
    /// Token count of the document, saturated at `u16::MAX`.
    pub len: u16,
    /// Distinct terms of the document, `0` when unknown.
    pub distinct: u16,
    /// Term-set signature of the document, `0` when unknown.
    pub sig: u64,
}

impl Slot for DocLenSlot {
    open spec fn slot_size() -> nat {
        16
    }

    open spec fn bytes(self) -> Seq<u8> {
        codec::be32(self.fact.0) + codec::be16(self.len) + codec::be16(self.distinct) + codec::be64(self.sig)
    }

    open spec fn of_bytes(b: Seq<u8>) -> DocLenSlot {
        DocLenSlot {
            fact: FactId(codec::be_at(b, 0, 4) as u32),
            len: codec::be_at(b, 4, 2) as u16,
            distinct: codec::be_at(b, 6, 2) as u16,
            sig: codec::be_at(b, 8, 8) as u64,
        }
    }

    open spec fn key(self) -> int {
        self.fact.0 as int
    }

    open spec fn key_len() -> nat {
        4
    }

    fn size() -> (r: usize) {
        16
    }

    fn key_of(&self) -> (r: u128) {
        self.fact.0 as u128
    }

    fn write(&self, out: &mut Vec<u8>) {
        put_be32(out, self.fact.0);
        put_be16(out, self.len);
        put_be16(out, self.distinct);
        put_be64(out, self.sig);
        assert(out@ =~= old(out)@ + self.bytes());
    }

    fn read(bytes: &[u8]) -> (r: DocLenSlot) {
        DocLenSlot {
            fact: FactId(get_be32(bytes, 0)),
            len: get_be16(bytes, 4),
            distinct: get_be16(bytes, 6),
            sig: get_be64(bytes, 8),
        }
    }

    proof fn lemma_round_trip(self) {
        let b = self.bytes();
        codec::lemma_pow256();
        lemma_whole(b);
        codec::lemma_be_bytes_len(self.fact.0 as nat, 4);
        let s1 = codec::be32(self.fact.0);
        codec::lemma_be_bytes_len(self.len as nat, 2);
        let s2 = s1 + codec::be16(self.len);
        codec::lemma_be_bytes_len(self.distinct as nat, 2);
        let s3 = s2 + codec::be16(self.distinct);
        codec::lemma_be_bytes_len(self.sig as nat, 8);
        let s4 = s3 + codec::be64(self.sig);
        codec::lemma_has_split(b, 0, s3, codec::be64(self.sig));
        codec::lemma_has_split(b, 0, s2, codec::be16(self.distinct));
        codec::lemma_has_split(b, 0, s1, codec::be16(self.len));
        codec::lemma_be_at(b, 0, self.fact.0 as nat, 4);
        codec::lemma_be_at(b, 4, self.len as nat, 2);
        codec::lemma_be_at(b, 6, self.distinct as nat, 2);
        codec::lemma_be_at(b, 8, self.sig as nat, 8);
    }

    proof fn lemma_key(self) {
        let b = self.bytes();
        codec::lemma_pow256();
        codec::lemma_be_round_trip(self.fact.0 as nat, 4);
        codec::lemma_be_round_trip(self.len as nat, 2);
        codec::lemma_be_round_trip(self.distinct as nat, 2);
        codec::lemma_be_round_trip(self.sig as nat, 8);
        let k1 = codec::be32(self.fact.0);
        assert(b.take(4) =~= k1);
    }
}

/// A current edge as written before the slot carried its open version's
/// identity: key `[a | rel | b]`, payload `fact`.
#[derive(Clone, Copy, Debug, PartialEq, Eq, Structural)]
pub struct LegacyEdgeSlot {
    /// First key component.
    pub a: EntityId,
    /// Interned relation term.
    pub rel: TermId,
    /// Second key component.
    pub b: EntityId,
    /// Provenance fact, or the sentinel.
    pub fact: FactId,
}

impl Slot for LegacyEdgeSlot {
    open spec fn slot_size() -> nat {
        16
    }

    open spec fn bytes(self) -> Seq<u8> {
        codec::be32(self.a.0) + codec::be32(self.rel.0) + codec::be32(self.b.0) + codec::be32(self.fact.0)
    }

    open spec fn of_bytes(b: Seq<u8>) -> LegacyEdgeSlot {
        LegacyEdgeSlot {
            a: EntityId(codec::be_at(b, 0, 4) as u32),
            rel: TermId(codec::be_at(b, 4, 4) as u32),
            b: EntityId(codec::be_at(b, 8, 4) as u32),
            fact: FactId(codec::be_at(b, 12, 4) as u32),
        }
    }

    open spec fn key(self) -> int {
        0x10000000000000000 * (self.a.0 as int) + 0x100000000 * (self.rel.0 as int) + self.b.0 as int
    }

    open spec fn key_len() -> nat {
        12
    }

    fn size() -> (r: usize) {
        16
    }

    fn key_of(&self) -> (r: u128) {
        0x10000000000000000 * (self.a.0 as u128) + 0x100000000 * (self.rel.0 as u128) + self.b.0 as u128
    }

    fn write(&self, out: &mut Vec<u8>) {
        put_be32(out, self.a.0);
        put_be32(out, self.rel.0);
        put_be32(out, self.b.0);
        put_be32(out, self.fact.0);
        assert(out@ =~= old(out)@ + self.bytes());
    }

    fn read(bytes: &[u8]) -> (r: LegacyEdgeSlot) {
        LegacyEdgeSlot {
            a: EntityId(get_be32(bytes, 0)),
            rel: TermId(get_be32(bytes, 4)),
            b: EntityId(get_be32(bytes, 8)),
            fact: FactId(get_be32(bytes, 12)),
        }
    }

    proof fn lemma_round_trip(self) {
        let b = self.bytes();
        codec::lemma_pow256();
        lemma_whole(b);
        codec::lemma_be_bytes_len(self.a.0 as nat, 4);
        let s1 = codec::be32(self.a.0);
        codec::lemma_be_bytes_len(self.rel.0 as nat, 4);
        let s2 = s1 + codec::be32(self.rel.0);
        codec::lemma_be_bytes_len(self.b.0 as nat, 4);
        let s3 = s2 + codec::be32(self.b.0);
        codec::lemma_be_bytes_len(self.fact.0 as nat, 4);
        let s4 = s3 + codec::be32(self.fact.0);
        codec::lemma_has_split(b, 0, s3, codec::be32(self.fact.0));
        codec::lemma_has_split(b, 0, s2, codec::be32(self.b.0));
        codec::lemma_has_split(b, 0, s1, codec::be32(self.rel.0));
        codec::lemma_be_at(b, 0, self.a.0 as nat, 4);
        codec::lemma_be_at(b, 4, self.rel.0 as nat, 4);
        codec::lemma_be_at(b, 8, self.b.0 as nat, 4);
        codec::lemma_be_at(b, 12, self.fact.0 as nat, 4);
    }

    proof fn lemma_key(self) {
        let b = self.bytes();
        codec::lemma_pow256();
        codec::lemma_be_round_trip(self.a.0 as nat, 4);
        codec::lemma_be_round_trip(self.rel.0 as nat, 4);
        codec::lemma_be_round_trip(self.b.0 as nat, 4);
        codec::lemma_be_round_trip(self.fact.0 as nat, 4);
        let k1 = codec::be32(self.a.0);
        let k2 = k1 + codec::be32(self.rel.0);
        codec::lemma_be_concat(k1, codec::be32(self.rel.0));
        assert(codec::be_nat(k2) == 0x1_0000_0000 * (self.a.0 as int) + self.rel.0);
        let k3 = k2 + codec::be32(self.b.0);
        codec::lemma_be_concat(k2, codec::be32(self.b.0));
        assert(codec::be_nat(k3) == 0x1_0000_0000 * codec::be_nat(k2) + self.b.0);
        assert(b.take(12) =~= k3);
    }
}

/// An edge version as written before history was time-ordered: key
/// `[a | rel | b | edge]`, so an entity's versions were grouped by triple.
#[derive(Clone, Copy, Debug, PartialEq, Eq, Structural)]
pub struct LegacyEdgeHistorySlot {
    /// First key component.
    pub a: EntityId,
    /// Interned relation term.
    pub rel: TermId,
    /// Second key component.
    pub b: EntityId,
    /// Edge-version id.
    pub edge: EdgeId,
    /// Provenance fact, or the sentinel.
    pub fact: FactId,
    /// Edge flags.
    pub flags: u16,
    /// Reserved.
    pub kind: u16,
    /// When the version was recorded.
    pub recorded_at: u64,
    /// Start of the validity interval.
    pub valid_from: u64,
    /// End of the validity interval.
    pub valid_to: u64,
}

impl Slot for LegacyEdgeHistorySlot {
    open spec fn slot_size() -> nat {
        48
    }

    open spec fn bytes(self) -> Seq<u8> {
        codec::be32(self.a.0) + codec::be32(self.rel.0) + codec::be32(self.b.0) + codec::be32(self.edge.0) + codec::be32(self.fact.0) + codec::be16(self.flags) + codec::be16(self.kind) + codec::be64(self.recorded_at) + codec::be64(self.valid_from) + codec::be64(self.valid_to)
    }

    open spec fn of_bytes(b: Seq<u8>) -> LegacyEdgeHistorySlot {
        LegacyEdgeHistorySlot {
            a: EntityId(codec::be_at(b, 0, 4) as u32),
            rel: TermId(codec::be_at(b, 4, 4) as u32),
            b: EntityId(codec::be_at(b, 8, 4) as u32),
            edge: EdgeId(codec::be_at(b, 12, 4) as u32),
            fact: FactId(codec::be_at(b, 16, 4) as u32),
            flags: codec::be_at(b, 20, 2) as u16,
            kind: codec::be_at(b, 22, 2) as u16,
            recorded_at: codec::be_at(b, 24, 8) as u64,
            valid_from: codec::be_at(b, 32, 8) as u64,
            valid_to: codec::be_at(b, 40, 8) as u64,
        }
    }

    open spec fn key(self) -> int {
        0x1000000000000000000000000 * (self.a.0 as int) + 0x10000000000000000 * (self.rel.0 as int) + 0x100000000 * (self.b.0 as int) + self.edge.0 as int
    }

    open spec fn key_len() -> nat {
        16
    }

    fn size() -> (r: usize) {
        48
    }

    fn key_of(&self) -> (r: u128) {
        0x1000000000000000000000000 * (self.a.0 as u128) + 0x10000000000000000 * (self.rel.0 as u128) + 0x100000000 * (self.b.0 as u128) + self.edge.0 as u128
    }

    fn write(&self, out: &mut Vec<u8>) {
        put_be32(out, self.a.0);
        put_be32(out, self.rel.0);
        put_be32(out, self.b.0);
        put_be32(out, self.edge.0);
        put_be32(out, self.fact.0);
        put_be16(out, self.flags);
        put_be16(out, self.kind);
        put_be64(out, self.recorded_at);
        put_be64(out, self.valid_from);
        put_be64(out, self.valid_to);
        assert(out@ =~= old(out)@ + self.bytes());
    }

    fn read(bytes: &[u8]) -> (r: LegacyEdgeHistorySlot) {
        LegacyEdgeHistorySlot {
            a: EntityId(get_be32(bytes, 0)),
            rel: TermId(get_be32(bytes, 4)),
            b: EntityId(get_be32(bytes, 8)),
            edge: EdgeId(get_be32(bytes, 12)),
            fact: FactId(get_be32(bytes, 16)),
            flags: get_be16(bytes, 20),
            kind: get_be16(bytes, 22),
            recorded_at: get_be64(bytes, 24),
            valid_from: get_be64(bytes, 32),
            valid_to: get_be64(bytes, 40),
        }
    }

    proof fn lemma_round_trip(self) {
        let b = self.bytes();
        codec::lemma_pow256();
        lemma_whole(b);
        codec::lemma_be_bytes_len(self.a.0 as nat, 4);
        let s1 = codec::be32(self.a.0);
        codec::lemma_be_bytes_len(self.rel.0 as nat, 4);
        let s2 = s1 + codec::be32(self.rel.0);
        codec::lemma_be_bytes_len(self.b.0 as nat, 4);
        let s3 = s2 + codec::be32(self.b.0);
        codec::lemma_be_bytes_len(self.edge.0 as nat, 4);
        let s4 = s3 + codec::be32(self.edge.0);
        codec::lemma_be_bytes_len(self.fact.0 as nat, 4);
        let s5 = s4 + codec::be32(self.fact.0);
        codec::lemma_be_bytes_len(self.flags as nat, 2);
        let s6 = s5 + codec::be16(self.flags);
        codec::lemma_be_bytes_len(self.kind as nat, 2);
        let s7 = s6 + codec::be16(self.kind);
        codec::lemma_be_bytes_len(self.recorded_at as nat, 8);
        let s8 = s7 + codec::be64(self.recorded_at);
        codec::lemma_be_bytes_len(self.valid_from as nat, 8);
        let s9 = s8 + codec::be64(self.valid_from);
        codec::lemma_be_bytes_len(self.valid_to as nat, 8);
        let s10 = s9 + codec::be64(self.valid_to);
        codec::lemma_has_split(b, 0, s9, codec::be64(self.valid_to));
        codec::lemma_has_split(b, 0, s8, codec::be64(self.valid_from));
        codec::lemma_has_split(b, 0, s7, codec::be64(self.recorded_at));
        codec::lemma_has_split(b, 0, s6, codec::be16(self.kind));
        codec::lemma_has_split(b, 0, s5, codec::be16(self.flags));
        codec::lemma_has_split(b, 0, s4, codec::be32(self.fact.0));
        codec::lemma_has_split(b, 0, s3, codec::be32(self.edge.0));
        codec::lemma_has_split(b, 0, s2, codec::be32(self.b.0));
        codec::lemma_has_split(b, 0, s1, codec::be32(self.rel.0));
        codec::lemma_be_at(b, 0, self.a.0 as nat, 4);
        codec::lemma_be_at(b, 4, self.rel.0 as nat, 4);
        codec::lemma_be_at(b, 8, self.b.0 as nat, 4);
        codec::lemma_be_at(b, 12, self.edge.0 as nat, 4);
        codec::lemma_be_at(b, 16, self.fact.0 as nat, 4);
        codec::lemma_be_at(b, 20, self.flags as nat, 2);
        codec::lemma_be_at(b, 22, self.kind as nat, 2);
        codec::lemma_be_at(b, 24, self.recorded_at as nat, 8);
        codec::lemma_be_at(b, 32, self.valid_from as nat, 8);
        codec::lemma_be_at(b, 40, self.valid_to as nat, 8);
    }

    proof fn lemma_key(self) {
        let b = self.bytes();
        codec::lemma_pow256();
        codec::lemma_be_round_trip(self.a.0 as nat, 4);
        codec::lemma_be_round_trip(self.rel.0 as nat, 4);
        codec::lemma_be_round_trip(self.b.0 as nat, 4);
        codec::lemma_be_round_trip(self.edge.0 as nat, 4);
        codec::lemma_be_round_trip(self.fact.0 as nat, 4);
        codec::lemma_be_round_trip(self.flags as nat, 2);
        codec::lemma_be_round_trip(self.kind as nat, 2);
        codec::lemma_be_round_trip(self.recorded_at as nat, 8);
        codec::lemma_be_round_trip(self.valid_from as nat, 8);
        codec::lemma_be_round_trip(self.valid_to as nat, 8);
        let k1 = codec::be32(self.a.0);
        let k2 = k1 + codec::be32(self.rel.0);
        codec::lemma_be_concat(k1, codec::be32(self.rel.0));
        assert(codec::be_nat(k2) == 0x1_0000_0000 * (self.a.0 as int) + self.rel.0);
        let k3 = k2 + codec::be32(self.b.0);
        codec::lemma_be_concat(k2, codec::be32(self.b.0));
        assert(codec::be_nat(k3) == 0x1_0000_0000 * codec::be_nat(k2) + self.b.0);
        let k4 = k3 + codec::be32(self.edge.0);
        codec::lemma_be_concat(k3, codec::be32(self.edge.0));
        assert(codec::be_nat(k4) == 0x1_0000_0000 * codec::be_nat(k3) + self.edge.0);
        assert(b.take(16) =~= k4);
    }
}

/// A per-document record as written before it carried the term-set summary:
/// key `[fact]`, payload `len` and two reserved bytes.
#[derive(Clone, Copy, Debug, PartialEq, Eq, Structural)]
pub struct LegacyDocLenSlot {
    /// The document (fact) id, the key.
    pub fact: FactId,
    /// Token count of the document, saturated at `u16::MAX`.
    pub len: u16,
    /// Reserved.
    pub reserved: u16,
}

impl Slot for LegacyDocLenSlot {
    open spec fn slot_size() -> nat {
        8
    }

    open spec fn bytes(self) -> Seq<u8> {
        codec::be32(self.fact.0) + codec::be16(self.len) + codec::be16(self.reserved)
    }

    open spec fn of_bytes(b: Seq<u8>) -> LegacyDocLenSlot {
        LegacyDocLenSlot {
            fact: FactId(codec::be_at(b, 0, 4) as u32),
            len: codec::be_at(b, 4, 2) as u16,
            reserved: codec::be_at(b, 6, 2) as u16,
        }
    }

    open spec fn key(self) -> int {
        self.fact.0 as int
    }

    open spec fn key_len() -> nat {
        4
    }

    fn size() -> (r: usize) {
        8
    }

    fn key_of(&self) -> (r: u128) {
        self.fact.0 as u128
    }

    fn write(&self, out: &mut Vec<u8>) {
        put_be32(out, self.fact.0);
        put_be16(out, self.len);
        put_be16(out, self.reserved);
        assert(out@ =~= old(out)@ + self.bytes());
    }

    fn read(bytes: &[u8]) -> (r: LegacyDocLenSlot) {
        LegacyDocLenSlot {
            fact: FactId(get_be32(bytes, 0)),
            len: get_be16(bytes, 4),
            reserved: get_be16(bytes, 6),
        }
    }

    proof fn lemma_round_trip(self) {
        let b = self.bytes();
        codec::lemma_pow256();
        lemma_whole(b);
        codec::lemma_be_bytes_len(self.fact.0 as nat, 4);
        let s1 = codec::be32(self.fact.0);
        codec::lemma_be_bytes_len(self.len as nat, 2);
        let s2 = s1 + codec::be16(self.len);
        codec::lemma_be_bytes_len(self.reserved as nat, 2);
        let s3 = s2 + codec::be16(self.reserved);
        codec::lemma_has_split(b, 0, s2, codec::be16(self.reserved));
        codec::lemma_has_split(b, 0, s1, codec::be16(self.len));
        codec::lemma_be_at(b, 0, self.fact.0 as nat, 4);
        codec::lemma_be_at(b, 4, self.len as nat, 2);
        codec::lemma_be_at(b, 6, self.reserved as nat, 2);
    }

    proof fn lemma_key(self) {
        let b = self.bytes();
        codec::lemma_pow256();
        codec::lemma_be_round_trip(self.fact.0 as nat, 4);
        codec::lemma_be_round_trip(self.len as nat, 2);
        codec::lemma_be_round_trip(self.reserved as nat, 2);
        let k1 = codec::be32(self.fact.0);
        assert(b.take(4) =~= k1);
    }
}

/// Upper-level adjacency of the vector graph (12-byte slot, key
/// `[slot | level]`, payload the number of neighbors).
#[derive(Clone, Copy, Debug, PartialEq, Eq, Structural)]
pub struct UpperSlot {
    /// Graph node (vector-slot id).
    pub slot: u32,
    /// Level, from 1 on.
    pub level: u32,
    /// Number of neighbors at that level.
    pub count: u32,
}

impl Slot for UpperSlot {
    open spec fn slot_size() -> nat {
        12
    }

    open spec fn bytes(self) -> Seq<u8> {
        codec::be32(self.slot) + codec::be32(self.level) + codec::be32(self.count)
    }

    open spec fn of_bytes(b: Seq<u8>) -> UpperSlot {
        UpperSlot {
            slot: codec::be_at(b, 0, 4) as u32,
            level: codec::be_at(b, 4, 4) as u32,
            count: codec::be_at(b, 8, 4) as u32,
        }
    }

    open spec fn key(self) -> int {
        0x100000000 * (self.slot as int) + self.level as int
    }

    open spec fn key_len() -> nat {
        8
    }

    fn size() -> (r: usize) {
        12
    }

    fn key_of(&self) -> (r: u128) {
        0x100000000 * (self.slot as u128) + self.level as u128
    }

    fn write(&self, out: &mut Vec<u8>) {
        put_be32(out, self.slot);
        put_be32(out, self.level);
        put_be32(out, self.count);
        assert(out@ =~= old(out)@ + self.bytes());
    }

    fn read(bytes: &[u8]) -> (r: UpperSlot) {
        UpperSlot {
            slot: get_be32(bytes, 0),
            level: get_be32(bytes, 4),
            count: get_be32(bytes, 8),
        }
    }

    proof fn lemma_round_trip(self) {
        let b = self.bytes();
        codec::lemma_pow256();
        lemma_whole(b);
        codec::lemma_be_bytes_len(self.slot as nat, 4);
        let s1 = codec::be32(self.slot);
        codec::lemma_be_bytes_len(self.level as nat, 4);
        let s2 = s1 + codec::be32(self.level);
        codec::lemma_be_bytes_len(self.count as nat, 4);
        let s3 = s2 + codec::be32(self.count);
        codec::lemma_has_split(b, 0, s2, codec::be32(self.count));
        codec::lemma_has_split(b, 0, s1, codec::be32(self.level));
        codec::lemma_be_at(b, 0, self.slot as nat, 4);
        codec::lemma_be_at(b, 4, self.level as nat, 4);
        codec::lemma_be_at(b, 8, self.count as nat, 4);
    }

    proof fn lemma_key(self) {
        let b = self.bytes();
        codec::lemma_pow256();
        codec::lemma_be_round_trip(self.slot as nat, 4);
        codec::lemma_be_round_trip(self.level as nat, 4);
        codec::lemma_be_round_trip(self.count as nat, 4);
        let k1 = codec::be32(self.slot);
        let k2 = k1 + codec::be32(self.level);
        codec::lemma_be_concat(k1, codec::be32(self.level));
        assert(b.take(8) =~= k2);
    }
}


/// `true` when `flag` is set in `flags`.
pub open spec fn has_flag(flags: u16, flag: u16) -> bool {
    flags & flag != 0
}

impl FactRecord {
    pub open spec fn tombstone(self) -> bool {
        has_flag(self.flags, fact_flags::TOMBSTONE)
    }

    pub open spec fn closed(self) -> bool {
        has_flag(self.flags, fact_flags::CLOSED)
    }

    pub open spec fn vectored(self) -> bool {
        has_flag(self.flags, fact_flags::HAS_VECTOR)
    }

    /// The subject, where there is one.
    pub open spec fn subject(self) -> Option<EntityId> {
        if self.entity.0 == NONE_U32 {
            None
        } else {
            Some(self.entity)
        }
    }

    /// Live at `t`: not a tombstone, already recorded at `t`, and `t` inside
    /// `[valid_from, valid_to)`.
    pub open spec fn live_at(self, t: u64) -> bool {
        !self.tombstone() && self.recorded_at <= t && self.valid_from <= t < self.valid_to
    }

    /// `true` when the tombstone flag is set.
    pub fn is_tombstone(&self) -> (r: bool)
        ensures
            r == self.tombstone(),
    {
        self.flags & fact_flags::TOMBSTONE != 0
    }

    /// `true` when the validity interval is closed.
    pub fn is_closed(&self) -> (r: bool)
        ensures
            r == self.closed(),
    {
        self.flags & fact_flags::CLOSED != 0
    }

    /// `true` when a vector slot is attached.
    pub fn has_vector(&self) -> (r: bool)
        ensures
            r == self.vectored(),
    {
        self.flags & fact_flags::HAS_VECTOR != 0
    }

    /// The `as_of(t)` liveness rule.
    pub fn is_live_at(&self, t: u64) -> (r: bool)
        ensures
            r == self.live_at(t),
    {
        !self.is_tombstone() && self.recorded_at <= t && self.valid_from <= t && t < self.valid_to
    }
}

impl EdgeHistorySlot {
    pub open spec fn active(self, t: u64) -> bool {
        self.valid_from <= t < self.valid_to
    }

    /// `true` when the edge version is active at `t`.
    pub fn active_at(&self, t: u64) -> (r: bool)
        ensures
            r == self.active(t),
    {
        self.valid_from <= t && t < self.valid_to
    }

    /// `true` when this version is the current open edge.
    pub fn is_open(&self) -> (r: bool)
        ensures
            r == (self.valid_to == VALID_TO_OPEN),
    {
        self.valid_to == VALID_TO_OPEN
    }
}

/// The key of a current edge: `[a | rel | b]`.
pub open spec fn edge_key_of(a: EntityId, rel: TermId, b: EntityId) -> int {
    0x1_0000_0000_0000_0000 * (a.0 as int) + 0x1_0000_0000 * (rel.0 as int) + b.0
}

/// The key of one edge version: `[a | valid_from | edge]`.
pub open spec fn edge_history_key_of(a: EntityId, valid_from: u64, edge: EdgeId) -> int {
    0x1_0000_0000_0000_0000_0000_0000 * (a.0 as int) + 0x1_0000_0000 * (valid_from as int) + edge.0
}

/// The key of a current edge.
pub fn edge_key(a: EntityId, rel: TermId, b: EntityId) -> (r: u128)
    ensures
        r == edge_key_of(a, rel, b),
{
    0x1_0000_0000_0000_0000 * (a.0 as u128) + 0x1_0000_0000 * (rel.0 as u128) + b.0 as u128
}

/// The lowest key of `a`'s current-edge run, the inclusive lower bound of a
/// neighbor scan.
pub fn edge_floor(a: EntityId) -> (r: u128)
    ensures
        r == edge_key_of(a, TermId(0), EntityId(0)),
        forall|e: EdgeSlot| e.a.0 >= a.0 <==> r <= #[trigger] e.key(),
{
    edge_key(a, TermId(0), EntityId(0))
}

/// The exclusive upper bound of `a`'s current-edge run. Saturating leaves the
/// range empty for the sentinel, which never names a stored entity.
pub fn edge_end(a: EntityId) -> (r: u128)
    ensures
        a.0 < NONE_U32 ==> r == edge_key_of(EntityId((a.0 + 1) as u32), TermId(0), EntityId(0)),
        a.0 == NONE_U32 ==> r == edge_key_of(a, TermId(0), EntityId(0)),
        a.0 < NONE_U32 ==> forall|e: EdgeSlot| e.a.0 <= a.0 <==> #[trigger] e.key() < r,
{
    edge_key(EntityId(a.0.saturating_add(1)), TermId(0), EntityId(0))
}

/// The key of one edge version.
pub fn edge_history_key(a: EntityId, valid_from: u64, edge: EdgeId) -> (r: u128)
    ensures
        r == edge_history_key_of(a, valid_from, edge),
{
    0x1_0000_0000_0000_0000_0000_0000 * (a.0 as u128) + 0x1_0000_0000 * (valid_from as u128)
        + edge.0 as u128
}

/// The lowest key of `a`'s version run, the inclusive lower bound of a
/// per-entity history scan.
pub fn edge_history_floor(a: EntityId) -> (r: u128)
    ensures
        r == edge_history_key_of(a, 0, EdgeId(0)),
        forall|e: EdgeHistorySlot| e.a.0 >= a.0 <==> r <= #[trigger] e.key(),
{
    edge_history_key(a, 0, EdgeId(0))
}

/// The exclusive upper bound of `a`'s versions that had already become true at
/// `as_of`: everything with `valid_from <= as_of`.
///
/// Saturating past `u64::MAX` excludes only a version with
/// `valid_from == u64::MAX`, which can never be valid at any instant.
pub fn edge_history_ceiling(a: EntityId, as_of: u64) -> (r: u128)
    ensures
        as_of < u64::MAX ==> r == edge_history_key_of(a, (as_of + 1) as u64, EdgeId(0)),
        as_of == u64::MAX ==> r == edge_history_key_of(a, as_of, EdgeId(0)),
        as_of < u64::MAX ==> forall|e: EdgeHistorySlot|
            e.a == a ==> (e.valid_from <= as_of <==> #[trigger] e.key() < r),
{
    edge_history_key(a, as_of.saturating_add(1), EdgeId(0))
}

/// Closing an edge version sets [`edge_flags::CLOSED`] and `valid_to`.
pub open spec fn closed_edge(e: EdgeHistorySlot, valid_to: u64) -> EdgeHistorySlot {
    EdgeHistorySlot { flags: e.flags | edge_flags::CLOSED, valid_to, ..e }
}

/// Closes an edge version.
pub fn close_edge_history(e: EdgeHistorySlot, valid_to: u64) -> (r: EdgeHistorySlot)
    ensures
        r == closed_edge(e, valid_to),
        r.key() == e.key(),
{
    EdgeHistorySlot { flags: e.flags | edge_flags::CLOSED, valid_to, ..e }
}

/// At most one version of a revision chain is live at any instant: a fact
/// closed where its successor starts is not live when the successor is.
pub proof fn one_live_version(closed: FactRecord, successor: FactRecord, t: u64)
    requires
        closed.valid_to == successor.valid_from,
    ensures
        !(closed.live_at(t) && successor.live_at(t)),
{
}

} // verus!
