//! Snapshot container: the file format's header, section table and checksums.
//!
//! A snapshot is the engine's memory image: a 64-byte header, the binary
//! [`Config`](crate::config::Config) block, a section table, then the
//! sections, everything 64-byte aligned:
//!
//! ```text
//! [header 64][config][pad][table: n × 32][pad][section][pad]...
//! ```
//!
//! All container fields are little-endian. Byte layout of the header:
//!
//! | off | size | field |
//! |---|---|---|
//! | 0 | 4 | magic `0x504C_474D` ("PLGM") |
//! | 4 | 2 | format version (this module: 1) |
//! | 6 | 2 | flags (bit 0: vector section present; rest reserved zero) |
//! | 8 | 2 | section count |
//! | 10 | 6 | reserved, zero |
//! | 16 | 4 | config block length |
//! | 20 | 8 | file xxh3 |
//! | 28 | 8 | created_at (informational, unix ms) |
//! | 36 | 24 | engine version, UTF-8, zero-padded (informational) |
//! | 60 | 4 | reserved, zero |
//!
//! and of one section-table entry:
//!
//! | off | size | field |
//! |---|---|---|
//! | 0 | 2 | kind |
//! | 2 | 2 | alignment (always 64) |
//! | 4 | 4 | reserved, zero |
//! | 8 | 8 | offset from file start |
//! | 16 | 8 | length |
//! | 24 | 8 | section xxh3 |
//!
//! The file hash covers the **whole file with the hash field zeroed**.
//!
//! # Trust model
//!
//! [`Snapshot::parse`] treats its input as untrusted: every offset and length
//! is bounds-checked before any access, and the layout must be *canonical*
//! (sections contiguous in table order, all padding zero, no trailing bytes).
//! The checksums are **not** verified at parse; that runs on demand, in
//! slices, via [`Snapshot::scrub`].

use crate::codec;
use crate::codec::{
    get_u16, get_u32, get_u64, is_zero_range, put_slice, put_u16, put_u32, put_u64,
};
use crate::error::Error;
use crate::hash;
use crate::hash::{digest, feed, hash64, hasher};
use crate::parse;
use crate::text::str_from_utf8;
use vstd::prelude::*;
use vstd::string::*;
use vstd::utf8::*;
use xxhash_rust::xxh3::Xxh3;

verus! {

/// `"PLGM"` interpreted as a little-endian u32.
pub const MAGIC: u32 = 0x504C_474D;

/// Snapshot format version written and accepted by this build.
pub const FORMAT_VERSION: u16 = 1;

/// Flag bit: the image carries vector-layer sections.
pub const FLAG_VECTORS: u16 = 1;

/// Header size in bytes.
pub const HEADER: usize = 64;

/// Section-table entry size in bytes.
pub const ENTRY: usize = 32;

/// Section alignment (also the padding unit of every block).
pub const ALIGN: usize = 64;

/// Offset of the file-hash field inside the header.
pub const FILE_HASH_AT: usize = 20;

/// Absolute offset of the header file-hash field, the one location the
/// streaming writer patches after the running hash is known.
pub const FILE_HASH_OFFSET: u64 = 20;

/// One section's size and checksum, computed in the streaming writer's first
/// pass (see [`build_prefix`]).
#[derive(Debug, Clone, Copy)]
pub struct SectionMeta {
    /// Section kind tag (unique per file).
    pub kind: u16,
    /// Section body length in bytes (before alignment padding).
    pub len: u64,
    /// xxh3 of the section body.
    pub hash: u64,
}

/// The next multiple of the alignment.
pub open spec fn aligned(v: int) -> int {
    (v + 63) / 64 * 64
}

/// `s` padded with zeros to the alignment.
pub open spec fn padded(s: Seq<u8>) -> Seq<u8> {
    s + codec::zeros((aligned(s.len() as int) - s.len()) as nat)
}

/// The engine-version field: the first 24 bytes of the text, zero-padded.
pub open spec fn version_field(ver: Seq<u8>) -> Seq<u8> {
    if ver.len() >= 24 {
        ver.take(24)
    } else {
        ver + codec::zeros((24 - ver.len()) as nat)
    }
}

/// The 64 header bytes.
pub open spec fn header(
    flags: u16,
    count: u16,
    config_len: u32,
    file_hash: u64,
    created_at: u64,
    ver: Seq<u8>,
) -> Seq<u8> {
    codec::le32(MAGIC) + codec::le16(FORMAT_VERSION) + codec::le16(flags) + codec::le16(count)
        + codec::zeros(6) + codec::le32(config_len) + codec::le64(file_hash) + codec::le64(
        created_at,
    ) + version_field(ver) + codec::zeros(4)
}

/// One section-table entry.
pub open spec fn entry(m: SectionMeta, offset: int) -> Seq<u8> {
    codec::le16(m.kind) + codec::le16(64) + codec::zeros(4) + codec::le64(offset as u64)
        + codec::le64(m.len) + codec::le64(m.hash)
}

/// The offset of section `i` when the first one stands at `base`.
pub open spec fn section_start(base: int, metas: Seq<SectionMeta>, i: int) -> int
    decreases i,
{
    if i <= 0 {
        base
    } else {
        aligned(section_start(base, metas, i - 1) + metas[i - 1].len)
    }
}

/// The first `n` entries of the section table.
pub open spec fn table(base: int, metas: Seq<SectionMeta>, n: int) -> Seq<u8>
    decreases n,
{
    if n <= 0 {
        Seq::empty()
    } else {
        table(base, metas, n - 1) + entry(metas[n - 1], section_start(base, metas, n - 1))
    }
}

/// Where the section table ends up: behind the padded config block.
pub open spec fn table_start(config_len: int) -> int {
    aligned(64 + config_len)
}

/// Where the first section body starts: behind the padded table.
pub open spec fn bodies_start(config_len: int, count: int) -> int {
    aligned(table_start(config_len) + 32 * count)
}

/// Everything before the first section body.
pub open spec fn prefix(
    config: Seq<u8>,
    flags: u16,
    created_at: u64,
    ver: Seq<u8>,
    metas: Seq<SectionMeta>,
    file_hash: u64,
) -> Seq<u8> {
    header(flags, metas.len() as u16, config.len() as u32, file_hash, created_at, ver) + padded(
        config,
    ) + padded(
        table(bodies_start(config.len() as int, metas.len() as int), metas, metas.len() as int),
    )
}

/// The table row of a section.
pub open spec fn meta_of(s: (u16, Seq<u8>)) -> SectionMeta {
    SectionMeta { kind: s.0, len: s.1.len() as u64, hash: hash::xxh3(s.1) }
}

pub open spec fn metas_of(sections: Seq<(u16, Seq<u8>)>) -> Seq<SectionMeta> {
    sections.map_values(|s: (u16, Seq<u8>)| meta_of(s))
}

/// The section bodies, each padded, in order.
pub open spec fn bodies(sections: Seq<(u16, Seq<u8>)>) -> Seq<u8> {
    parse::flat(|s: (u16, Seq<u8>)| padded(s.1), sections)
}

/// A whole snapshot file with the given file hash.
pub open spec fn image(
    config: Seq<u8>,
    flags: u16,
    created_at: u64,
    ver: Seq<u8>,
    sections: Seq<(u16, Seq<u8>)>,
    file_hash: u64,
) -> Seq<u8> {
    prefix(config, flags, created_at, ver, metas_of(sections), file_hash) + bodies(sections)
}

/// A whole snapshot file, sealed with the hash of itself with the hash field
/// zeroed.
pub open spec fn sealed(
    config: Seq<u8>,
    flags: u16,
    created_at: u64,
    ver: Seq<u8>,
    sections: Seq<(u16, Seq<u8>)>,
) -> Seq<u8> {
    image(
        config,
        flags,
        created_at,
        ver,
        sections,
        hash::xxh3(image(config, flags, created_at, ver, sections, 0)),
    )
}

/// The file length that the table describes.
pub open spec fn layout_end(config_len: int, metas: Seq<SectionMeta>) -> int {
    section_start(bodies_start(config_len, metas.len() as int), metas, metas.len() as int)
}

pub proof fn lemma_aligned(v: int)
    requires
        0 <= v,
    ensures
        v <= aligned(v) < v + 64,
        aligned(v) % 64 == 0,
        v % 64 == 0 ==> aligned(v) == v,
        forall|w: int| v <= w && #[trigger] (w % 64) == 0 ==> aligned(v) <= w,
{
}

/// The padding of two blocks one behind the other.
pub proof fn lemma_aligned_sum(a: int, v: int)
    requires
        a % 64 == 0,
    ensures
        aligned(a + v) == a + aligned(v),
{
}

pub proof fn lemma_section_start(base: int, metas: Seq<SectionMeta>, i: int, n: int)
    requires
        0 <= base,
        base % 64 == 0,
        0 <= i <= n <= metas.len(),
    ensures
        section_start(base, metas, i) % 64 == 0,
        base <= section_start(base, metas, i) <= section_start(base, metas, n),
        i < n ==> section_start(base, metas, i) + metas[i].len <= section_start(base, metas, n),
    decreases n,
{
    if i < n {
        lemma_section_start(base, metas, i, n - 1);
        lemma_section_start(base, metas, n - 1, n - 1);
    } else if n > 0 {
        lemma_section_start(base, metas, n - 1, n - 1);
    }
}

pub proof fn lemma_table_len(base: int, metas: Seq<SectionMeta>, n: int)
    requires
        0 <= n,
    ensures
        table(base, metas, n).len() == 32 * n,
    decreases n,
{
    if n > 0 {
        lemma_table_len(base, metas, n - 1);
        lemma_entry_len(metas[n - 1], section_start(base, metas, n - 1));
    }
}

pub proof fn lemma_entry_len(m: SectionMeta, offset: int)
    ensures
        entry(m, offset).len() == 32,
{
    codec::lemma_le_bytes_len(m.kind as nat, 2);
    codec::lemma_le_bytes_len(64, 2);
    codec::lemma_le_bytes_len(offset as u64 as nat, 8);
    codec::lemma_le_bytes_len(m.len as nat, 8);
    codec::lemma_le_bytes_len(m.hash as nat, 8);
}

pub proof fn lemma_header_len(
    flags: u16,
    count: u16,
    config_len: u32,
    file_hash: u64,
    created_at: u64,
    ver: Seq<u8>,
)
    ensures
        header(flags, count, config_len, file_hash, created_at, ver).len() == 64,
{
    codec::lemma_le_bytes_len(MAGIC as nat, 4);
    codec::lemma_le_bytes_len(FORMAT_VERSION as nat, 2);
    codec::lemma_le_bytes_len(flags as nat, 2);
    codec::lemma_le_bytes_len(count as nat, 2);
    codec::lemma_le_bytes_len(config_len as nat, 4);
    codec::lemma_le_bytes_len(file_hash as nat, 8);
    codec::lemma_le_bytes_len(created_at as nat, 8);
}

/// A padded block fills its alignment exactly.
pub proof fn lemma_padded_len(s: Seq<u8>)
    ensures
        padded(s).len() == aligned(s.len() as int),
{
    lemma_aligned(s.len() as int);
}

/// Rounds up to the next multiple of the alignment.
fn align_up(v: u64) -> (r: u64)
    requires
        aligned(v as int) <= u64::MAX,
    ensures
        r == aligned(v as int),
{
    let rem: u64 = v % 64;
    if rem == 0 { v } else { v + (64 - rem) }
}

/// Alignment-padding length that follows a section body of `len` starting at
/// `offset` (zero bytes up to the next 64-byte boundary).
pub fn pad_len(offset: u64, len: u64) -> (r: usize)
    requires
        aligned(offset + len) <= u64::MAX,
    ensures
        r == aligned(offset + len) - (offset + len),
        r < 64,
{
    (align_up(offset + len) - (offset + len)) as usize
}

fn put_zeros(out: &mut Vec<u8>, n: usize)
    ensures
        final(out)@ == old(out)@ + codec::zeros(n as nat),
{
    let mut i: usize = 0;
    assert(out@ + codec::zeros(0) =~= out@);
    while i < n
        invariant
            i <= n,
            out@ == old(out)@ + codec::zeros(i as nat),
        decreases n - i,
    {
        out.push(0);
        i = i + 1;
        assert(out@ =~= old(out)@ + codec::zeros(i as nat));
    }
}

/// Appends `s`, padded to the alignment.
pub(crate) fn put_padded(out: &mut Vec<u8>, s: &[u8])
    ensures
        final(out)@ == old(out)@ + padded(s@),
{
    put_slice(out, s);
    let rem: usize = s.len() % 64;
    if rem != 0 {
        put_zeros(out, 64 - rem);
    }
    assert(out@ =~= old(out)@ + padded(s@));
}

fn put_header(
    out: &mut Vec<u8>,
    flags: u16,
    count: u16,
    config_len: u32,
    created_at: u64,
    engine_ver: &str,
)
    ensures
        final(out)@ == old(out)@ + header(
            flags,
            count,
            config_len,
            0,
            created_at,
            encode_utf8(engine_ver@),
        ),
{
    put_u32(out, MAGIC);
    put_u16(out, FORMAT_VERSION);
    put_u16(out, flags);
    put_u16(out, count);
    put_zeros(out, 6);
    put_u32(out, config_len);
    put_u64(out, 0);
    put_u64(out, created_at);
    let ver = engine_ver.as_bytes();
    if ver.len() >= 24 {
        put_slice(out, &ver[0..24]);
    } else {
        put_slice(out, ver);
        put_zeros(out, 24 - ver.len());
    }
    put_zeros(out, 4);
    assert(out@ =~= old(out)@ + header(
        flags,
        count,
        config_len,
        0,
        created_at,
        encode_utf8(engine_ver@),
    ));
}

fn put_entry(out: &mut Vec<u8>, m: &SectionMeta, offset: u64)
    ensures
        final(out)@ == old(out)@ + entry(*m, offset as int),
{
    put_u16(out, m.kind);
    put_u16(out, 64);
    put_zeros(out, 4);
    put_u64(out, offset);
    put_u64(out, m.len);
    put_u64(out, m.hash);
    assert(out@ =~= old(out)@ + entry(*m, offset as int));
}

/// The header, config and section-table region of a snapshot: everything
/// before the first section body.
#[derive(Debug)]
pub struct Prefix {
    /// The prefix bytes, ready to write. The file-hash field is left zero;
    /// the caller patches it once the whole body has streamed through the
    /// running hash.
    pub bytes: Vec<u8>,
    /// Absolute byte offset of each section body, in `metas` order.
    pub offsets: Vec<u64>,
    /// Total file length (aligned end of the last section).
    pub file_len: u64,
}

/// Lays out the header, config block and section table from per-section
/// metadata (the streaming writer's first pass): the leading region of the
/// whole image, with the hash field still zero.
pub fn build_prefix(
    config: &[u8],
    flags: u16,
    created_at: u64,
    engine_ver: &str,
    metas: &[SectionMeta],
) -> (r: Prefix)
    requires
        layout_end(config@.len() as int, metas@) <= u64::MAX,
    ensures
        r.bytes@ == prefix(config@, flags, created_at, encode_utf8(engine_ver@), metas@, 0),
        r.file_len == layout_end(config@.len() as int, metas@),
        r.offsets@.len() == metas@.len(),
        forall|i: int|
            0 <= i < metas@.len() ==> #[trigger] r.offsets@[i] == section_start(
                bodies_start(config@.len() as int, metas@.len() as int),
                metas@,
                i,
            ),
{
    let ghost n = metas@.len() as int;
    let ghost base = bodies_start(config@.len() as int, n);
    proof {
        lemma_aligned(64 + config@.len() as int);
        lemma_aligned(table_start(config@.len() as int) + 32 * n);
        lemma_section_start(base, metas@, 0, n);
    }
    let config_end: u64 = 64 + config.len() as u64;
    let table_at: u64 = align_up(config_end);
    let table_end: u64 = table_at + 32 * metas.len() as u64;
    let mut cursor: u64 = align_up(table_end);
    let mut offsets: Vec<u64> = Vec::new();
    let mut rows: Vec<u8> = Vec::new();
    let mut i: usize = 0;
    while i < metas.len()
        invariant
            i <= metas@.len(),
            n == metas@.len(),
            0 <= base,
            base % 64 == 0,
            section_start(base, metas@, n) <= u64::MAX,
            cursor == section_start(base, metas@, i as int),
            rows@ == table(base, metas@, i as int),
            offsets@.len() == i,
            forall|k: int|
                0 <= k < i ==> #[trigger] offsets@[k] == section_start(base, metas@, k),
        decreases metas@.len() - i,
    {
        proof {
            lemma_section_start(base, metas@, i + 1, n);
            lemma_aligned(cursor + metas@[i as int].len);
        }
        offsets.push(cursor);
        put_entry(&mut rows, &metas[i], cursor);
        cursor = align_up(cursor + metas[i].len);
        i = i + 1;
    }
    let mut out: Vec<u8> = Vec::new();
    put_header(
        &mut out,
        flags,
        metas.len() as u16,
        config.len() as u32,
        created_at,
        engine_ver,
    );
    put_padded(&mut out, config);
    put_padded(&mut out, rows.as_slice());
    assert(out@ =~= prefix(config@, flags, created_at, encode_utf8(engine_ver@), metas@, 0));
    Prefix { bytes: out, offsets, file_len: cursor }
}

/// `s` with `piece` written over it at `at`.
pub open spec fn patched(s: Seq<u8>, at: int, piece: Seq<u8>) -> Seq<u8> {
    Seq::new(
        s.len(),
        |i: int|
            if at <= i < at + piece.len() {
                piece[i - at]
            } else {
                s[i]
            },
    )
}

/// A byte sink for streaming a snapshot without materializing the whole
/// image: `write` appends in file order, `patch` overwrites a short run at an
/// absolute offset (used once, for the header file-hash field, after the body
/// has streamed).
pub trait SnapshotSink {
    /// The bytes the sink holds.
    spec fn written(&self) -> Seq<u8>;

    /// The errors the sink reports: none for a buffer in memory, those of the
    /// device for a file.
    spec fn reports(&self) -> Set<Error>;

    /// Appends `bytes` at the current position. The error is whatever the
    /// underlying sink reports.
    fn write(&mut self, bytes: &[u8]) -> (r: Result<(), Error>)
        ensures
            match r {
                Ok(()) => final(self).written() == old(self).written() + bytes@
                    && final(self).reports() == old(self).reports(),
                Err(e) => old(self).reports().contains(e),
            },
    ;

    /// Overwrites `bytes` at absolute offset `at` (already-written region).
    fn patch(&mut self, at: u64, bytes: &[u8]) -> (r: Result<(), Error>)
        requires
            at + bytes@.len() <= old(self).written().len(),
        ensures
            match r {
                Ok(()) => final(self).written() == patched(
                    old(self).written(),
                    at as int,
                    bytes@,
                ) && final(self).reports() == old(self).reports(),
                Err(e) => old(self).reports().contains(e),
            },
    ;
}

impl SnapshotSink for Vec<u8> {
    open spec fn written(&self) -> Seq<u8> {
        self@
    }

    open spec fn reports(&self) -> Set<Error> {
        Set::empty()
    }

    fn write(&mut self, bytes: &[u8]) -> (r: Result<(), Error>)
        ensures
            r is Ok,
    {
        put_slice(self, bytes);
        Ok(())
    }

    fn patch(&mut self, at: u64, bytes: &[u8]) -> (r: Result<(), Error>)
        ensures
            r is Ok,
    {
        let total: usize = self.len();
        assert(at + bytes@.len() <= total);
        overwrite(self, at as usize, bytes);
        Ok(())
    }
}

/// Writes `bytes` over `out` at `at`.
fn overwrite(out: &mut Vec<u8>, at: usize, bytes: &[u8])
    requires
        at + bytes@.len() <= old(out)@.len(),
    ensures
        final(out)@ == patched(old(out)@, at as int, bytes@),
{
    let mut i: usize = 0;
    let total: usize = out.len();
    assert(out@ =~= patched(old(out)@, at as int, bytes@.take(0)));
    while i < bytes.len()
        invariant
            i <= bytes@.len(),
            at + bytes@.len() <= total,
            total == out@.len(),
            out@ == patched(old(out)@, at as int, bytes@.take(i as int)),
        decreases bytes@.len() - i,
    {
        out[at + i] = bytes[i];
        i = i + 1;
        assert(out@ =~= patched(old(out)@, at as int, bytes@.take(i as int)));
    }
    assert(bytes@.take(i as int) =~= bytes@);
}

/// Sealing an image is writing its hash over the zeroed field.
pub proof fn lemma_patch_hash(
    config: Seq<u8>,
    flags: u16,
    created_at: u64,
    ver: Seq<u8>,
    sections: Seq<(u16, Seq<u8>)>,
    h: u64,
)
    ensures
        patched(image(config, flags, created_at, ver, sections, 0), 20, codec::le64(h)) == image(
            config,
            flags,
            created_at,
            ver,
            sections,
            h,
        ),
        image(config, flags, created_at, ver, sections, 0).len() >= 64,
{
    let count = metas_of(sections).len() as u16;
    let clen = config.len() as u32;
    let a = header(flags, count, clen, 0, created_at, ver);
    let b = header(flags, count, clen, h, created_at, ver);
    lemma_header_len(flags, count, clen, 0, created_at, ver);
    lemma_header_len(flags, count, clen, h, created_at, ver);
    let front = codec::le32(MAGIC) + codec::le16(FORMAT_VERSION) + codec::le16(flags)
        + codec::le16(count) + codec::zeros(6) + codec::le32(clen);
    let back = codec::le64(created_at) + version_field(ver) + codec::zeros(4);
    codec::lemma_le_bytes_len(MAGIC as nat, 4);
    codec::lemma_le_bytes_len(FORMAT_VERSION as nat, 2);
    codec::lemma_le_bytes_len(flags as nat, 2);
    codec::lemma_le_bytes_len(count as nat, 2);
    codec::lemma_le_bytes_len(clen as nat, 4);
    codec::lemma_le_bytes_len(0, 8);
    codec::lemma_le_bytes_len(h as nat, 8);
    assert(a =~= front + codec::le64(0) + back);
    assert(b =~= front + codec::le64(h) + back);
    let x = image(config, flags, created_at, ver, sections, 0);
    let y = image(config, flags, created_at, ver, sections, h);
    let base = bodies_start(config.len() as int, metas_of(sections).len() as int);
    let rest = padded(config) + padded(
        table(base, metas_of(sections), metas_of(sections).len() as int),
    ) + bodies(sections);
    assert(x =~= a + rest);
    assert(y =~= b + rest);
    assert(patched(x, 20, codec::le64(h)) =~= y);
}

/// Builds a snapshot file from section dumps.
#[derive(Debug)]
pub struct SnapshotWriter {
    sections: Vec<(u16, Vec<u8>)>,
}

pub open spec fn section_views(sections: Seq<(u16, Vec<u8>)>) -> Seq<(u16, Seq<u8>)> {
    sections.map_values(|s: (u16, Vec<u8>)| (s.0, s.1@))
}

/// No kind occurs twice.
pub open spec fn kinds_unique(sections: Seq<(u16, Seq<u8>)>) -> bool {
    forall|i: int, j: int|
        0 <= i < j < sections.len() ==> (#[trigger] sections[i]).0 != (#[trigger] sections[j]).0
}

impl View for SnapshotWriter {
    type V = Seq<(u16, Seq<u8>)>;

    closed spec fn view(&self) -> Seq<(u16, Seq<u8>)> {
        section_views(self.sections@)
    }
}

impl SnapshotWriter {
    /// An empty writer.
    pub fn new() -> (r: SnapshotWriter)
        ensures
            r@ == Seq::<(u16, Seq<u8>)>::empty(),
    {
        let r = SnapshotWriter { sections: Vec::new() };
        assert(r@ =~= Seq::empty());
        r
    }

    /// Adds one section. Kinds must be unique within a file: a kind that was
    /// already added is [`Error::Corrupt`].
    pub fn section(&mut self, kind: u16, bytes: Vec<u8>) -> (r: Result<(), Error>)
        ensures
            r == (if exists|i: int| 0 <= i < old(self)@.len() && (#[trigger] old(self)@[i]).0
                == kind {
                Err(Error::Corrupt("duplicate section kind"))
            } else {
                Ok(())
            }),
            final(self)@ == (if r is Ok {
                old(self)@.push((kind, bytes@))
            } else {
                old(self)@
            }),
            kinds_unique(old(self)@) ==> kinds_unique(final(self)@),
    {
        let mut i: usize = 0;
        while i < self.sections.len()
            invariant
                i <= self.sections@.len(),
                *self == *old(self),
                forall|k: int| 0 <= k < i ==> (#[trigger] self@[k]).0 != kind,
            decreases self.sections@.len() - i,
        {
            if self.sections[i].0 == kind {
                assert(self@[i as int].0 == kind);
                return Err(Error::Corrupt("duplicate section kind"));
            }
            i = i + 1;
        }
        self.sections.push((kind, bytes));
        assert(self@ =~= old(self)@.push((kind, bytes@)));
        Ok(())
    }

    /// Assembles the final file: header, config block, table, aligned
    /// sections, checksums.
    ///
    /// `engine_ver` is informational; its first 24 UTF-8 bytes are stored.
    pub fn finish(self, config: &[u8], flags: u16, created_at: u64, engine_ver: &str) -> (r: Vec<
        u8,
    >)
        requires
            layout_end(config@.len() as int, metas_of(self@)) <= u64::MAX,
        ensures
            r@ == sealed(config@, flags, created_at, encode_utf8(engine_ver@), self@),
    {
        let mut metas: Vec<SectionMeta> = Vec::new();
        let ghost secs = self@;
        let mut i: usize = 0;
        while i < self.sections.len()
            invariant
                i <= self.sections@.len(),
                secs == section_views(self.sections@),
                metas@ == metas_of(secs).take(i as int),
            decreases self.sections@.len() - i,
        {
            let body = self.sections[i].1.as_slice();
            metas.push(
                SectionMeta {
                    kind: self.sections[i].0,
                    len: body.len() as u64,
                    hash: hash64(body),
                },
            );
            assert(metas@ =~= metas_of(secs).take(i + 1));
            i = i + 1;
        }
        assert(metas@ =~= metas_of(secs));
        let front = build_prefix(config, flags, created_at, engine_ver, metas.as_slice());
        let mut out: Vec<u8> = front.bytes;
        let ghost start = out@;
        let ghost pad = |s: (u16, Seq<u8>)| padded(s.1);
        let mut j: usize = 0;
        assert(out@ + Seq::<u8>::empty() =~= out@);
        assert(secs.take(0) =~= Seq::empty());
        while j < self.sections.len()
            invariant
                j <= self.sections@.len(),
                secs == section_views(self.sections@),
                pad == (|s: (u16, Seq<u8>)| padded(s.1)),
                out@ == start + parse::flat(pad, secs.take(j as int)),
            decreases self.sections@.len() - j,
        {
            put_padded(&mut out, self.sections[j].1.as_slice());
            proof {
                assert(secs.take(j + 1) =~= secs.take(j as int).push(secs[j as int]));
                parse::lemma_flat_push(pad, secs.take(j as int), secs[j as int]);
                assert(out@ =~= start + parse::flat(pad, secs.take(j + 1)));
            }
            j = j + 1;
        }
        assert(secs.take(j as int) =~= secs);
        let ghost ver = encode_utf8(engine_ver@);
        assert(out@ == image(config@, flags, created_at, ver, secs, 0));
        let h: u64 = hash64(out.as_slice());
        let mut field: Vec<u8> = Vec::new();
        put_u64(&mut field, h);
        proof {
            assert(field@ =~= codec::le64(h));
            codec::lemma_le_bytes_len(h as nat, 8);
            lemma_patch_hash(config@, flags, created_at, ver, secs, h);
        }
        overwrite(&mut out, FILE_HASH_AT, field.as_slice());
        out
    }
}

impl Default for SnapshotWriter {
    fn default() -> (r: SnapshotWriter)
        ensures
            r@ == Seq::<(u16, Seq<u8>)>::empty(),
    {
        SnapshotWriter::new()
    }
}

/// One row of a parsed section table: kind, start, length, stored hash.
pub type Row = (u16, int, int, u64);

/// A parsed snapshot as a mathematical value.
pub struct SnapshotView {
    /// The whole file.
    pub bytes: Seq<u8>,
    pub flags: u16,
    pub created_at: u64,
    pub config: Seq<u8>,
    pub engine_ver: Seq<char>,
    /// The section table, in file order.
    pub rows: Seq<Row>,
}

/// The length of the engine version: up to the first zero byte.
pub open spec fn version_len(b: Seq<u8>, i: int) -> int
    decreases 60 - i,
{
    if i >= 60 || b[i] == 0 {
        i - 36
    } else {
        version_len(b, i + 1)
    }
}

/// Reads row `rows.len()` of the table at `ts`; `expected` is where the
/// section must start.
pub open spec fn parse_row(b: Seq<u8>, ts: int, rows: Seq<Row>, expected: int) -> Result<
    (Seq<Row>, int),
    Error,
> {
    let at = ts + 32 * rows.len();
    let kind = codec::num_at(b, at, 2) as u16;
    let offset = codec::num_at(b, at + 8, 8) as int;
    let len = codec::num_at(b, at + 16, 8) as int;
    let end = offset + len;
    if codec::num_at(b, at + 2, 2) != 64 {
        Err(Error::Corrupt("section alignment must be 64"))
    } else if !codec::all_zero(b, at + 4, at + 8) {
        Err(Error::Corrupt("reserved section bytes must be zero"))
    } else if offset != expected {
        Err(Error::Corrupt("sections must be contiguous in table order"))
    } else if end > u64::MAX {
        Err(Error::Corrupt("section length overflow"))
    } else if end > b.len() {
        Err(Error::Corrupt("section out of bounds"))
    } else if has_kind(rows, kind) {
        Err(Error::Corrupt("duplicate section kind"))
    } else if !codec::all_zero(b, end, aligned(end)) {
        Err(Error::Corrupt("nonzero padding after a section"))
    } else {
        Ok((rows.push((kind, offset, len, codec::num_at(b, at + 24, 8) as u64)), aligned(end)))
    }
}

pub open spec fn has_kind(rows: Seq<Row>, kind: u16) -> bool {
    exists|i: int| 0 <= i < rows.len() && (#[trigger] rows[i]).0 == kind
}

/// Reads the first `n` rows of the table at `ts`, and where the next section
/// would start.
pub open spec fn parse_rows(b: Seq<u8>, ts: int, first: int, n: int) -> Result<
    (Seq<Row>, int),
    Error,
>
    decreases n,
{
    if n <= 0 {
        Ok((Seq::empty(), first))
    } else {
        match parse_rows(b, ts, first, n - 1) {
            Err(e) => Err(e),
            Ok((rows, expected)) => parse_row(b, ts, rows, expected),
        }
    }
}

/// The header checks, in order.
pub open spec fn header_error(b: Seq<u8>) -> Option<Error> {
    let vlen = version_len(b, 36);
    if b.len() < 64 {
        Some(Error::Corrupt("snapshot shorter than its header"))
    } else if b.len() % 64 != 0 {
        Some(Error::Corrupt("snapshot length is not 64-byte aligned"))
    } else if codec::num_at(b, 0, 4) != MAGIC {
        Some(Error::Corrupt("bad magic"))
    } else if codec::num_at(b, 4, 2) != FORMAT_VERSION {
        Some(Error::UnsupportedVersion(codec::num_at(b, 4, 2) as u16))
    } else if codec::num_at(b, 6, 2) > FLAG_VECTORS {
        Some(Error::Corrupt("unknown flag bits set"))
    } else if !(codec::all_zero(b, 10, 16) && codec::all_zero(b, 60, 64)) {
        Some(Error::Corrupt("reserved header bytes must be zero"))
    } else if !codec::all_zero(b, 36 + vlen, 60) {
        Some(Error::Corrupt("engine version is not zero-terminated"))
    } else if !valid_utf8(b.subrange(36, 36 + vlen)) {
        Some(Error::Corrupt("engine version is not UTF-8"))
    } else {
        None
    }
}

/// What a snapshot file holds, or why it is refused.
pub open spec fn parsed(b: Seq<u8>) -> Result<SnapshotView, Error> {
    match header_error(b) {
        Some(e) => Err(e),
        None => {
            let config_end = 64 + codec::num_at(b, 16, 4);
            let ts = aligned(config_end as int);
            let n = codec::num_at(b, 8, 2) as int;
            let table_end = ts + 32 * n;
            if table_end > b.len() {
                Err(Error::Corrupt("section table out of bounds"))
            } else if !codec::all_zero(b, config_end as int, ts) {
                Err(Error::Corrupt("nonzero padding after the config block"))
            } else if !codec::all_zero(b, table_end, aligned(table_end)) {
                Err(Error::Corrupt("nonzero padding after the section table"))
            } else {
                match parse_rows(b, ts, aligned(table_end), n) {
                    Err(e) => Err(e),
                    Ok((rows, end)) => if end != b.len() {
                        Err(Error::Corrupt("trailing bytes after the last section"))
                    } else {
                        Ok(
                            SnapshotView {
                                bytes: b,
                                flags: codec::num_at(b, 6, 2) as u16,
                                created_at: codec::num_at(b, 28, 8) as u64,
                                config: b.subrange(64, config_end as int),
                                engine_ver: decode_utf8(b.subrange(36, 36 + version_len(b, 36))),
                                rows,
                            },
                        )
                    },
                }
            }
        },
    }
}

proof fn lemma_rows_err(b: Seq<u8>, ts: int, first: int, k: int, n: int)
    requires
        0 <= k <= n,
        parse_rows(b, ts, first, k) is Err,
    ensures
        parse_rows(b, ts, first, n) == parse_rows(b, ts, first, k),
    decreases n,
{
    if k < n {
        lemma_rows_err(b, ts, first, k, n - 1);
    }
}

/// The rows of a file that parses: inside the file, one behind the other.
pub open spec fn rows_ok(rows: Seq<Row>, file_len: int) -> bool {
    &&& forall|i: int|
        0 <= i < rows.len() ==> 0 <= (#[trigger] rows[i]).1 && 0 <= rows[i].2 && rows[i].1
            + rows[i].2 <= file_len
    &&& forall|i: int, j: int|
        0 <= i < j < rows.len() ==> (#[trigger] rows[i]).1 + rows[i].2 <= (#[trigger] rows[j]).1
}

/// A parsed, validated snapshot borrowing the input buffer.
#[derive(Debug)]
pub struct Snapshot<'a> {
    bytes: &'a [u8],
    /// Header flags (see [`FLAG_VECTORS`]).
    pub flags: u16,
    /// Creation timestamp as written (informational).
    pub created_at: u64,
    config_len: usize,
    /// Kind, start, length and stored hash per section, in file order.
    sections: Vec<(u16, usize, usize, u64)>,
    engine_ver_len: usize,
}

pub open spec fn row_views(sections: Seq<(u16, usize, usize, u64)>) -> Seq<Row> {
    sections.map_values(|s: (u16, usize, usize, u64)| (s.0, s.1 as int, s.2 as int, s.3))
}

impl<'a> View for Snapshot<'a> {
    type V = SnapshotView;

    closed spec fn view(&self) -> SnapshotView {
        SnapshotView {
            bytes: self.bytes@,
            flags: self.flags,
            created_at: self.created_at,
            config: self.bytes@.subrange(64, 64 + self.config_len),
            engine_ver: decode_utf8(self.bytes@.subrange(36, 36 + self.engine_ver_len)),
            rows: row_views(self.sections@),
        }
    }
}

/// The section bytes of kind `kind` in a parsed file.
pub open spec fn section_of(v: SnapshotView, kind: u16) -> Option<Seq<u8>> {
    if has_kind(v.rows, kind) {
        let i = choose|i: int| 0 <= i < v.rows.len() && (#[trigger] v.rows[i]).0 == kind;
        Some(row_bytes(v, i))
    } else {
        None
    }
}

/// The body of row `i`.
pub open spec fn row_bytes(v: SnapshotView, i: int) -> Seq<u8> {
    v.bytes.subrange(v.rows[i].1, v.rows[i].1 + v.rows[i].2)
}

/// No kind occurs twice among the rows.
pub open spec fn rows_unique(rows: Seq<Row>) -> bool {
    forall|i: int, j: int|
        0 <= i < j < rows.len() ==> (#[trigger] rows[i]).0 != (#[trigger] rows[j]).0
}

impl<'a> Snapshot<'a> {
    /// What [`Snapshot::parse`] established.
    pub closed spec fn wf(&self) -> bool {
        &&& self@.rows == row_views(self.sections@)
        &&& 64 + self.config_len <= self.bytes@.len()
        &&& 64 <= self.bytes@.len()
        &&& self.bytes@.len() % 64 == 0
        &&& self.engine_ver_len <= 24
        &&& valid_utf8(self.bytes@.subrange(36, 36 + self.engine_ver_len))
        &&& rows_unique(self@.rows)
        &&& rows_ok(self@.rows, self.bytes@.len() as int)
    }
}

fn version_end(bytes: &[u8]) -> (r: usize)
    requires
        bytes@.len() >= 64,
    ensures
        r == version_len(bytes@, 36),
        r <= 24,
{
    let mut i: usize = 36;
    while i < 60 && bytes[i] != 0
        invariant
            36 <= i <= 60,
            bytes@.len() >= 64,
            version_len(bytes@, i as int) == version_len(bytes@, 36),
        decreases 60 - i,
    {
        i = i + 1;
    }
    i - 36
}

fn check_header(bytes: &[u8]) -> (r: Result<(), Error>)
    ensures
        r == (match header_error(bytes@) {
            Some(e) => Err(e),
            None => Ok(()),
        }),
{
    if bytes.len() < HEADER {
        return Err(Error::Corrupt("snapshot shorter than its header"));
    }
    if bytes.len() % ALIGN != 0 {
        return Err(Error::Corrupt("snapshot length is not 64-byte aligned"));
    }
    if get_u32(bytes, 0) != MAGIC {
        return Err(Error::Corrupt("bad magic"));
    }
    let version: u16 = get_u16(bytes, 4);
    if version != FORMAT_VERSION {
        return Err(Error::UnsupportedVersion(version));
    }
    let flags: u16 = get_u16(bytes, 6);
    assert((flags & 0xFFFEu16 != 0) == (flags > 1)) by (bit_vector);
    if flags & 0xFFFE != 0 {
        return Err(Error::Corrupt("unknown flag bits set"));
    }
    if !is_zero_range(bytes, 10, 16) || !is_zero_range(bytes, 60, 64) {
        return Err(Error::Corrupt("reserved header bytes must be zero"));
    }
    let vlen: usize = version_end(bytes);
    if !is_zero_range(bytes, 36 + vlen, 60) {
        return Err(Error::Corrupt("engine version is not zero-terminated"));
    }
    let ver: &[u8] = &bytes[36..36 + vlen];
    assert(ver@ =~= bytes@.subrange(36, 36 + vlen));
    if str_from_utf8(ver).is_none() {
        return Err(Error::Corrupt("engine version is not UTF-8"));
    }
    Ok(())
}

fn rows_have_kind(rows: &Vec<(u16, usize, usize, u64)>, kind: u16) -> (r: bool)
    ensures
        r == has_kind(row_views(rows@), kind),
{
    let mut i: usize = 0;
    while i < rows.len()
        invariant
            i <= rows@.len(),
            forall|k: int| 0 <= k < i ==> (#[trigger] row_views(rows@)[k]).0 != kind,
        decreases rows@.len() - i,
    {
        if rows[i].0 == kind {
            assert(row_views(rows@)[i as int].0 == kind);
            return true;
        }
        i = i + 1;
    }
    false
}

/// Reads the next row of the table at `ts`.
fn read_row(
    bytes: &[u8],
    ts: usize,
    rows: &Vec<(u16, usize, usize, u64)>,
    expected: usize,
) -> (r: Result<((u16, usize, usize, u64), usize), Error>)
    requires
        ts + 32 * (rows@.len() + 1) <= bytes@.len(),
        bytes@.len() % 64 == 0,
    ensures
        match r {
            Ok((row, next)) => parse_row(
                bytes@,
                ts as int,
                row_views(rows@),
                expected as int,
            ) == Ok::<_, Error>((row_views(rows@.push(row)), next as int)) && row.1 == expected
                && row.1 + row.2 <= bytes@.len() && next == aligned(row.1 + row.2)
                && next <= bytes@.len() && !has_kind(row_views(rows@), row.0),
            Err(e) => parse_row(bytes@, ts as int, row_views(rows@), expected as int) == Err::<
                (Seq<Row>, int),
                _,
            >(e),
        },
{
    let total: usize = bytes.len();
    let at: usize = ts + 32 * rows.len();
    let kind: u16 = get_u16(bytes, at);
    if get_u16(bytes, at + 2) != 64 {
        return Err(Error::Corrupt("section alignment must be 64"));
    }
    if !is_zero_range(bytes, at + 4, at + 8) {
        return Err(Error::Corrupt("reserved section bytes must be zero"));
    }
    let offset: u64 = get_u64(bytes, at + 8);
    let len: u64 = get_u64(bytes, at + 16);
    let want: u64 = get_u64(bytes, at + 24);
    if offset != expected as u64 {
        return Err(Error::Corrupt("sections must be contiguous in table order"));
    }
    let end: u64 = match offset.checked_add(len) {
        Some(end) => end,
        None => return Err(Error::Corrupt("section length overflow")),
    };
    if end > total as u64 {
        return Err(Error::Corrupt("section out of bounds"));
    }
    if rows_have_kind(rows, kind) {
        return Err(Error::Corrupt("duplicate section kind"));
    }
    proof {
        lemma_aligned(end as int);
        assert((total as int) % 64 == 0);
        assert(aligned(end as int) <= total);
    }
    let next: u64 = align_up(end);
    if !is_zero_range(bytes, end as usize, next as usize) {
        return Err(Error::Corrupt("nonzero padding after a section"));
    }
    let row: (u16, usize, usize, u64) = (kind, offset as usize, len as usize, want);
    proof {
        assert(row_views(rows@.push(row)) =~= row_views(rows@).push(
            (kind, offset as int, len as int, want),
        ));
    }
    Ok((row, next as usize))
}

/// Reads the `n` rows of the table at `ts`, and where the next section would
/// start.
fn read_rows(bytes: &[u8], ts: usize, first: usize, section_cnt: usize) -> (r: Result<
    (Vec<(u16, usize, usize, u64)>, usize),
    Error,
>)
    requires
        ts + 32 * section_cnt <= bytes@.len(),
        bytes@.len() % 64 == 0,
        first <= bytes@.len(),
    ensures
        match r {
            Ok((rows, end)) => parse_rows(
                bytes@,
                ts as int,
                first as int,
                section_cnt as int,
            ) == Ok::<_, Error>((row_views(rows@), end as int)) && rows_ok(
                row_views(rows@),
                bytes@.len() as int,
            ) && rows_unique(row_views(rows@)),
            Err(e) => parse_rows(bytes@, ts as int, first as int, section_cnt as int) == Err::<
                (Seq<Row>, int),
                _,
            >(e),
        },
{
    let total: usize = bytes.len();
    let mut sections: Vec<(u16, usize, usize, u64)> = Vec::new();
    let mut expected: usize = first;
    let mut i: usize = 0;
    assert(row_views(sections@) =~= Seq::empty());
    while i < section_cnt
        invariant
            i <= section_cnt,
            sections@.len() == i,
            total == bytes@.len(),
            ts + 32 * section_cnt <= total,
            total as int % 64 == 0,
            expected <= total,
            parse_rows(bytes@, ts as int, first as int, i as int) == Ok::<_, Error>(
                (row_views(sections@), expected as int),
            ),
            rows_ok(row_views(sections@), total as int),
            rows_unique(row_views(sections@)),
            forall|k: int|
                0 <= k < i ==> (#[trigger] row_views(sections@)[k]).1 + row_views(
                    sections@,
                )[k].2 <= expected,
        decreases section_cnt - i,
    {
        match read_row(bytes, ts, &sections, expected) {
            Err(e) => {
                proof {
                    assert(parse_rows(bytes@, ts as int, first as int, i + 1) == Err::<
                        (Seq<Row>, int),
                        _,
                    >(e));
                    lemma_rows_err(
                        bytes@,
                        ts as int,
                        first as int,
                        i + 1,
                        section_cnt as int,
                    );
                }
                return Err(e);
            },
            Ok((row, next)) => {
                let ghost before = row_views(sections@);
                sections.push(row);
                expected = next;
                assert(row_views(sections@) =~= before.push(
                    (row.0, row.1 as int, row.2 as int, row.3),
                ));
            },
        }
        i = i + 1;
    }
    Ok((sections, expected))
}

impl<'a> Snapshot<'a> {
    /// Parses and structurally validates a snapshot file: framing, canonical
    /// layout and bounds only.
    pub fn parse(bytes: &'a [u8]) -> (r: Result<Snapshot<'a>, Error>)
        ensures
            parse::agrees(r, parsed(bytes@)),
            r matches Ok(s) ==> s.wf(),
    {
        check_header(bytes)?;
        let total: usize = bytes.len();
        let flags: u16 = get_u16(bytes, 6);
        let section_cnt: usize = get_u16(bytes, 8) as usize;
        let config_len: u32 = get_u32(bytes, 16);
        let created_at: u64 = get_u64(bytes, 28);
        let engine_ver_len: usize = version_end(bytes);
        let config_end: u64 = 64 + config_len as u64;
        proof {
            lemma_aligned(config_end as int);
            lemma_aligned(aligned(config_end as int) + 32 * section_cnt);
        }
        let table_at: u64 = align_up(config_end);
        let table_end: u64 = table_at + 32 * section_cnt as u64;
        if table_end > total as u64 {
            return Err(Error::Corrupt("section table out of bounds"));
        }
        assert((total as int) % 64 == 0);
        let first: u64 = align_up(table_end);
        if !is_zero_range(bytes, config_end as usize, table_at as usize) {
            return Err(Error::Corrupt("nonzero padding after the config block"));
        }
        if !is_zero_range(bytes, table_end as usize, first as usize) {
            return Err(Error::Corrupt("nonzero padding after the section table"));
        }
        let ts: usize = table_at as usize;
        let (sections, expected) = read_rows(bytes, ts, first as usize, section_cnt)?;
        if expected != total {
            return Err(Error::Corrupt("trailing bytes after the last section"));
        }
        let s = Snapshot {
            bytes,
            flags,
            created_at,
            config_len: config_len as usize,
            sections,
            engine_ver_len,
        };
        Ok(s)
    }

    /// The header flags.
    pub fn flags(&self) -> (r: u16)
        requires
            self.wf(),
        ensures
            r == self@.flags,
    {
        self.flags
    }

    /// The creation time as written.
    pub fn created_at(&self) -> (r: u64)
        requires
            self.wf(),
        ensures
            r == self@.created_at,
    {
        self.created_at
    }

    /// The binary config block.
    pub fn config(&self) -> (r: &'a [u8])
        requires
            self.wf(),
        ensures
            r@ == self@.config,
    {
        let total: usize = self.bytes.len();
        assert(64 + self.config_len <= total);
        &self.bytes[HEADER..HEADER + self.config_len]
    }

    /// The bytes of one section, or `None` when the file has no section of
    /// that kind.
    pub fn section(&self, kind: u16) -> (r: Option<&'a [u8]>)
        requires
            self.wf(),
        ensures
            match r {
                Some(bytes) => section_of(self@, kind) == Some(bytes@),
                None => section_of(self@, kind) is None,
            },
    {
        let mut i: usize = 0;
        while i < self.sections.len()
            invariant
                i <= self.sections@.len(),
                self.wf(),
                forall|k: int| 0 <= k < i ==> (#[trigger] self@.rows[k]).0 != kind,
            decreases self.sections@.len() - i,
        {
            let (k, start, len, want) = self.sections[i];
            assert(self@.rows[i as int] == (k, start as int, len as int, want));
            if k == kind {
                let total: usize = self.bytes.len();
                assert(start + len <= total);
                let r: &'a [u8] = &self.bytes[start..start + len];
                assert(r@ =~= row_bytes(self@, i as int));
                return Some(r);
            }
            i = i + 1;
        }
        None
    }

    /// The engine version string the file was written by (informational).
    pub fn engine_ver(&self) -> (r: &'a str)
        requires
            self.wf(),
        ensures
            r@ == self@.engine_ver,
    {
        let ver: &'a [u8] = &self.bytes[36..36 + self.engine_ver_len];
        assert(ver@ =~= self.bytes@.subrange(36, 36 + self.engine_ver_len));
        str_from_utf8(ver).unwrap()
    }
}

/// Default number of bytes a [`ScrubCursor`] hashes per slice: a pacing
/// quantum, fine-grained enough to pause, cancel or report progress smoothly.
pub const DEFAULT_SCRUB_BUDGET: usize = 0x10_0000;

/// Progress of an in-flight [`ScrubCursor`] scan.
#[derive(Debug, Clone, Copy, PartialEq, Eq, Structural)]
pub struct ScrubProgress {
    /// Bytes checksummed so far (equals `total_bytes` on the final item).
    pub done_bytes: u64,
    /// The file length, the total to checksum.
    pub total_bytes: u64,
}

/// A resumable, budget-bounded container-checksum scan over a parsed
/// snapshot.
///
/// Each [`ScrubCursor::next`] hashes up to the slice budget, verifying each
/// section's stored xxh3 as its body completes and the whole-file hash at the
/// end. It yields `Ok(ScrubProgress)` per slice, then `None`; the first
/// mismatch yields `Err(Error::Corrupt)` and then `None`. It is one-shot:
/// build a new cursor to scan again.
pub struct ScrubCursor<'a> {
    bytes: &'a [u8],
    /// `(start, len, stored_hash)` per section, in file order.
    sections: Vec<(usize, usize, u64)>,
    budget: usize,
    pos: usize,
    /// Index of the section currently being hashed / next to complete.
    sec: usize,
    /// Streaming hash of the current section body.
    sec_hash: Xxh3,
    /// Streaming whole-file hash (with the file-hash field fed as zero).
    file: Xxh3,
    done: bool,
}

/// One section as a scrub sees it: start, length, stored hash.
pub type Extent = (int, int, u64);

/// A scrub in progress as a mathematical value.
pub struct ScrubView {
    pub bytes: Seq<u8>,
    pub extents: Seq<Extent>,
    pub budget: int,
    pub pos: int,
    pub done: bool,
}

pub open spec fn extent_views(sections: Seq<(usize, usize, u64)>) -> Seq<Extent> {
    sections.map_values(|s: (usize, usize, u64)| (s.0 as int, s.1 as int, s.2))
}

pub open spec fn extents_of(rows: Seq<Row>) -> Seq<Extent> {
    rows.map_values(|r: Row| (r.1, r.2, r.3))
}

/// The file with its hash field zeroed: what the file hash covers.
pub open spec fn unsealed(b: Seq<u8>) -> Seq<u8> {
    patched(b, 20, codec::zeros(8))
}

/// A scan that has hashed everything before `p` has seen all of `x`.
pub open spec fn complete_at(x: Extent, p: int, total: int) -> bool {
    if x.1 > 0 {
        x.0 + x.1 <= p
    } else {
        x.0 < p || p == total
    }
}

/// The stored hash of `x` is the hash of its bytes.
pub open spec fn intact(b: Seq<u8>, x: Extent) -> bool {
    hash::xxh3(b.subrange(x.0, x.0 + x.1)) == x.2
}

/// The stored file hash matches; zero means that none was stored.
pub open spec fn file_intact(b: Seq<u8>) -> bool {
    codec::num_at(b, 20, 8) == 0 || hash::xxh3(unsealed(b)) == codec::num_at(b, 20, 8)
}

/// Sections inside the file, one behind the other.
pub open spec fn extents_ok(xs: Seq<Extent>, total: int) -> bool {
    &&& forall|i: int|
        0 <= i < xs.len() ==> 0 <= (#[trigger] xs[i]).0 && 0 <= xs[i].1 && xs[i].0 + xs[i].1
            <= total
    &&& forall|i: int, j: int|
        0 <= i < j < xs.len() ==> (#[trigger] xs[i]).0 + xs[i].1 <= (#[trigger] xs[j]).0
}

/// Some section that completes when a scan moves from `p` to `q` does not
/// match its stored hash.
pub open spec fn breaks_between(v: ScrubView, p: int, q: int) -> bool {
    exists|j: int|
        0 <= j < v.extents.len() && !complete_at(#[trigger] v.extents[j], p, v.bytes.len() as int)
            && complete_at(v.extents[j], q, v.bytes.len() as int) && !intact(v.bytes, v.extents[j])
}

/// Where the next slice ends.
pub open spec fn slice_end(v: ScrubView) -> int {
    if v.pos + v.budget <= v.bytes.len() {
        v.pos + v.budget
    } else {
        v.bytes.len() as int
    }
}

/// What the next slice yields.
pub open spec fn scrub_step(v: ScrubView) -> Option<Result<ScrubProgress, Error>> {
    if v.done {
        None
    } else if breaks_between(v, v.pos, slice_end(v)) {
        Some(Err(Error::Corrupt("section checksum mismatch")))
    } else if slice_end(v) == v.bytes.len() && !file_intact(v.bytes) {
        Some(Err(Error::Corrupt("file checksum mismatch")))
    } else {
        Some(
            Ok(
                ScrubProgress {
                    done_bytes: slice_end(v) as u64,
                    total_bytes: v.bytes.len() as u64,
                },
            ),
        )
    }
}

impl<'a> ScrubCursor<'a> {
    pub closed spec fn view(&self) -> ScrubView {
        ScrubView {
            bytes: self.bytes@,
            extents: extent_views(self.sections@),
            budget: self.budget as int,
            pos: self.pos as int,
            done: self.done,
        }
    }

    spec fn extents(&self) -> Seq<Extent> {
        extent_views(self.sections@)
    }

    /// The cursor stands at `pos` with everything before it hashed.
    spec fn scanning(&self) -> bool {
        let total = self.bytes@.len() as int;
        let xs = self.extents();
        &&& 64 <= total
        &&& extents_ok(xs, total)
        &&& self.pos <= total
        &&& self.sec <= xs.len()
        &&& forall|j: int|
            0 <= j < self.sec ==> (#[trigger] xs[j]).0 + xs[j].1 <= self.pos && (xs[j].1 == 0
                ==> xs[j].0 < self.pos) && intact(self.bytes@, xs[j])
        &&& forall|j: int|
            self.sec <= j < xs.len() ==> if (#[trigger] xs[j]).1 > 0 {
                xs[j].0 + xs[j].1 > self.pos
            } else {
                xs[j].0 >= self.pos
            }
        &&& hash::fed(self.sec_hash) == if self.sec < xs.len() && xs[self.sec as int].0
            < self.pos {
            self.bytes@.subrange(xs[self.sec as int].0, self.pos as int)
        } else {
            Seq::<u8>::empty()
        }
        &&& hash::fed(self.file) == unsealed(self.bytes@).take(self.pos as int)
    }

    /// What every call keeps.
    pub closed spec fn wf(&self) -> bool {
        &&& self.budget >= 1
        &&& 64 <= self.bytes@.len()
        &&& extents_ok(self.extents(), self.bytes@.len() as int)
        &&& !self.done ==> self.scanning() && self.pos < self.bytes@.len()
    }

    /// Feeds `bytes[from..to]` into the whole-file hash, substituting zeros
    /// for the file-hash field.
    fn feed_file(&mut self, from: usize, to: usize)
        requires
            64 <= old(self).bytes@.len(),
            from <= to <= old(self).bytes@.len(),
            hash::fed(old(self).file) == unsealed(old(self).bytes@).take(from as int),
        ensures
            hash::fed(final(self).file) == unsealed(old(self).bytes@).take(to as int),
            final(self).bytes == old(self).bytes,
            final(self).sections == old(self).sections,
            final(self).budget == old(self).budget,
            final(self).pos == old(self).pos,
            final(self).sec == old(self).sec,
            final(self).sec_hash == old(self).sec_hash,
            final(self).done == old(self).done,
    {
        let ghost all = unsealed(self.bytes@);
        let mut at: usize = from;
        if at < FILE_HASH_AT {
            let end: usize = if to < FILE_HASH_AT { to } else { FILE_HASH_AT };
            feed(&mut self.file, &self.bytes[at..end]);
            assert(hash::fed(self.file) =~= all.take(end as int));
            at = end;
        }
        if FILE_HASH_AT <= at && at < FILE_HASH_AT + 8 {
            let end: usize = if to < FILE_HASH_AT + 8 { to } else { FILE_HASH_AT + 8 };
            let zeros: [u8; 8] = [0u8; 8];
            let z: &[u8] = &zeros[0..end - at];
            feed(&mut self.file, z);
            assert(hash::fed(self.file) =~= all.take(end as int));
            at = end;
        }
        if FILE_HASH_AT + 8 <= at {
            feed(&mut self.file, &self.bytes[at..to]);
            assert(hash::fed(self.file) =~= all.take(to as int));
        }
    }

    /// Compares the current section's streamed digest to its stored hash and
    /// advances to the next section.
    fn complete_section(&mut self, want: u64) -> (r: Result<(), Error>)
        requires
            old(self).sec < usize::MAX,
        ensures
            r == (if hash::xxh3(hash::fed(old(self).sec_hash)) == want {
                Ok(())
            } else {
                Err(Error::Corrupt("section checksum mismatch"))
            }),
            r is Ok ==> final(self).sec == old(self).sec + 1 && hash::fed(final(self).sec_hash)
                == Seq::<u8>::empty() && final(self).done == old(self).done,
            r is Err ==> final(self).done && final(self).sec == old(self).sec,
            final(self).bytes == old(self).bytes,
            final(self).sections == old(self).sections,
            final(self).budget == old(self).budget,
            final(self).pos == old(self).pos,
            final(self).file == old(self).file,
    {
        if digest(&self.sec_hash) != want {
            self.done = true;
            return Err(Error::Corrupt("section checksum mismatch"));
        }
        self.sec = self.sec + 1;
        self.sec_hash = hasher();
        Ok(())
    }

    /// Passes over the empty sections that start at the cursor.
    fn flush_empty(&mut self) -> (r: Result<(), Error>)
        requires
            old(self).scanning(),
            old(self).pos < old(self).bytes@.len(),
            !old(self).done,
        ensures
            final(self).bytes == old(self).bytes,
            final(self).sections == old(self).sections,
            final(self).budget == old(self).budget,
            final(self).pos == old(self).pos,
            final(self).file == old(self).file,
            final(self).done == (r is Err),
            old(self).sec <= final(self).sec <= final(self).extents().len(),
            forall|j: int|
                old(self).sec <= j < final(self).sec ==> (#[trigger] final(self).extents()[j]).0 == old(self).pos && final(self).extents()[j].1 == 0 && intact(
                    old(self).bytes@,
                    final(self).extents()[j],
                ),
            match r {
                Ok(()) => {
                    &&& final(self).sec < final(self).extents().len() ==> !(final(self).extents()[final(self).sec as int].0 == old(self).pos && final(self).extents()[final(self).sec as int].1 == 0)
                    &&& hash::fed(final(self).sec_hash) == if final(self).sec < final(self).extents().len() && final(self).extents()[final(self).sec as int].0
                        < old(self).pos {
                        old(self).bytes@.subrange(
                            final(self).extents()[final(self).sec as int].0,
                            old(self).pos as int,
                        )
                    } else {
                        Seq::<u8>::empty()
                    }
                },
                Err(e) => e == Error::Corrupt("section checksum mismatch") && final(self).sec
                    < final(self).extents().len() && final(self).extents()[final(self).sec as int].0 == old(self).pos && final(self).extents()[final(self).sec as int].1 == 0 && !intact(
                    old(self).bytes@,
                    final(self).extents()[final(self).sec as int],
                ),
            },
    {
        let n: usize = self.sections.len();
        let ghost xs = self.extents();
        while self.sec < n
            invariant
                n == self.sections@.len(),
                xs == self.extents(),
                extents_ok(xs, self.bytes@.len() as int),
                self.bytes == old(self).bytes,
                self.sections == old(self).sections,
                self.budget == old(self).budget,
                self.pos == old(self).pos,
                self.file == old(self).file,
                !self.done,
                old(self).sec <= self.sec <= n,
                forall|j: int|
                    old(self).sec <= j < self.sec ==> (#[trigger] xs[j]).0 == old(self).pos
                        && xs[j].1 == 0 && intact(old(self).bytes@, xs[j]),
                hash::fed(self.sec_hash) == if self.sec < n && xs[self.sec as int].0 < self.pos {
                    self.bytes@.subrange(xs[self.sec as int].0, self.pos as int)
                } else {
                    Seq::<u8>::empty()
                },
            ensures
                self.sec < n ==> !(xs[self.sec as int].0 == old(self).pos && xs[self.sec as int].1
                    == 0),
            decreases n - self.sec,
        {
            let (start, len, want) = self.sections[self.sec];
            assert(xs[self.sec as int] == (start as int, len as int, want));
            if self.pos == start && len == 0 {
                assert(self.bytes@.subrange(start as int, start + len) =~= Seq::empty());
                self.complete_section(want)?;
            } else {
                break;
            }
        }
        Ok(())
    }

    /// Yields the next slice's outcome.
    pub fn next(&mut self) -> (r: Option<Result<ScrubProgress, Error>>)
        requires
            old(self).wf(),
        ensures
            final(self).wf(),
            r == scrub_step(old(self).view()),
            final(self).view().bytes == old(self).view().bytes,
            final(self).view().extents == old(self).view().extents,
            final(self).view().budget == old(self).view().budget,
            final(self).view().done == (r is None || r->0 is Err || slice_end(old(self).view())
                == old(self).view().bytes.len()),
            r is None ==> final(self).view() == old(self).view(),
            r matches Some(Ok(_)) ==> final(self).view().pos == slice_end(old(self).view()),
    {
        if self.done {
            return None;
        }
        let n: usize = self.sections.len();
        let file_len: usize = self.bytes.len();
        let left: usize = file_len - self.pos;
        let goal: usize = if self.budget < left { self.pos + self.budget } else { file_len };
        let ghost xs = self.extents();
        let ghost was = self.view();
        while self.pos < goal
            invariant
                self.scanning(),
                !self.done,
                xs == self.extents(),
                n == xs.len(),
                n == self.sections@.len(),
                file_len == self.bytes@.len(),
                self.bytes == old(self).bytes,
                self.sections == old(self).sections,
                self.budget == old(self).budget,
                was == old(self).view(),
                old(self).wf(),
                !old(self).done,
                old(self).pos <= self.pos <= goal <= file_len,
                goal == slice_end(was),
                old(self).sec <= self.sec,
            decreases goal - self.pos,
        {
            let ghost from = self.sec;
            let flushed = self.flush_empty();
            if let Err(e) = flushed {
                proof {
                    let j = self.sec as int;
                    assert(!complete_at(was.extents[j], was.pos, was.bytes.len() as int));
                    assert(complete_at(was.extents[j], goal as int, was.bytes.len() as int));
                }
                return Some(Err(e));
            }
            let mut in_body: bool = false;
            let mut boundary: usize = file_len;
            let mut want: u64 = 0;
            if self.sec < n {
                let (start, len, w) = self.sections[self.sec];
                assert(xs[self.sec as int] == (start as int, len as int, w));
                want = w;
                if self.pos >= start {
                    in_body = true;
                    boundary = start + len;
                } else {
                    boundary = start;
                }
            }
            let end: usize = if goal < boundary { goal } else { boundary };
            let at: usize = self.pos;
            self.feed_file(at, end);
            if in_body {
                let ghost body = hash::fed(self.sec_hash);
                feed(&mut self.sec_hash, &self.bytes[at..end]);
                assert(hash::fed(self.sec_hash) =~= self.bytes@.subrange(
                    xs[self.sec as int].0,
                    end as int,
                ));
            }
            self.pos = end;
            if in_body && end == boundary {
                let ghost j = self.sec as int;
                if let Err(e) = self.complete_section(want) {
                    proof {
                        assert(!complete_at(was.extents[j], was.pos, was.bytes.len() as int));
                        assert(complete_at(was.extents[j], goal as int, was.bytes.len() as int));
                    }
                    return Some(Err(e));
                }
            }
        }
        if self.pos == file_len {
            while self.sec < n
                invariant
                    !self.done,
                    xs == self.extents(),
                    n == xs.len(),
                    n == self.sections@.len(),
                    file_len == self.bytes@.len(),
                    self.bytes == old(self).bytes,
                    self.sections == old(self).sections,
                    self.budget == old(self).budget,
                    self.pos == file_len,
                    was == old(self).view(),
                    old(self).wf(),
                    !old(self).done,
                    goal == file_len,
                    goal == slice_end(was),
                    64 <= file_len,
                    extents_ok(xs, file_len as int),
                    old(self).sec <= self.sec <= n,
                    forall|j: int| 0 <= j < self.sec ==> intact(self.bytes@, #[trigger] xs[j]),
                    forall|j: int|
                        self.sec <= j < n ==> (#[trigger] xs[j]).1 == 0 && xs[j].0 == file_len,
                    hash::fed(self.sec_hash) == Seq::<u8>::empty(),
                    hash::fed(self.file) == unsealed(self.bytes@).take(file_len as int),
                decreases n - self.sec,
            {
                let want: u64 = self.sections[self.sec].2;
                let ghost j = self.sec as int;
                assert(xs[j] == (self.sections@[j].0 as int, self.sections@[j].1 as int, want));
                assert(self.bytes@.subrange(xs[j].0, xs[j].0 + xs[j].1) =~= Seq::empty());
                if let Err(e) = self.complete_section(want) {
                    proof {
                        assert(!complete_at(was.extents[j], was.pos, was.bytes.len() as int));
                        assert(complete_at(was.extents[j], goal as int, was.bytes.len() as int));
                    }
                    return Some(Err(e));
                }
            }
            self.done = true;
            let stored: u64 = get_u64(self.bytes, FILE_HASH_AT);
            assert(unsealed(self.bytes@).take(file_len as int) =~= unsealed(self.bytes@));
            if stored != 0 && digest(&self.file) != stored {
                return Some(Err(Error::Corrupt("file checksum mismatch")));
            }
        }
        Some(Ok(ScrubProgress { done_bytes: self.pos as u64, total_bytes: file_len as u64 }))
    }
}

impl<'a> Snapshot<'a> {
    /// A resumable container-checksum scan of this snapshot with the default
    /// slice budget ([`DEFAULT_SCRUB_BUDGET`]).
    pub fn scrub(&self) -> (r: ScrubCursor<'a>)
        requires
            self.wf(),
        ensures
            r.wf(),
            r.view() == (ScrubView {
                bytes: self@.bytes,
                extents: extents_of(self@.rows),
                budget: DEFAULT_SCRUB_BUDGET as int,
                pos: 0,
                done: false,
            }),
    {
        self.scrub_with_budget(DEFAULT_SCRUB_BUDGET)
    }

    /// A resumable container-checksum scan hashing at most `budget` bytes per
    /// slice (at least one).
    pub fn scrub_with_budget(&self, budget: usize) -> (r: ScrubCursor<'a>)
        requires
            self.wf(),
        ensures
            r.wf(),
            r.view() == (ScrubView {
                bytes: self@.bytes,
                extents: extents_of(self@.rows),
                budget: if budget == 0 { 1 } else { budget as int },
                pos: 0,
                done: false,
            }),
    {
        let mut sections: Vec<(usize, usize, u64)> = Vec::new();
        let mut i: usize = 0;
        while i < self.sections.len()
            invariant
                i <= self.sections@.len(),
                sections@.len() == i,
                forall|k: int|
                    0 <= k < i ==> #[trigger] sections@[k] == (
                        self.sections@[k].1,
                        self.sections@[k].2,
                        self.sections@[k].3,
                    ),
            decreases self.sections@.len() - i,
        {
            sections.push((self.sections[i].1, self.sections[i].2, self.sections[i].3));
            i = i + 1;
        }
        let r = ScrubCursor {
            bytes: self.bytes,
            sections,
            budget: if budget == 0 { 1 } else { budget },
            pos: 0,
            sec: 0,
            sec_hash: hasher(),
            file: hasher(),
            done: false,
        };
        proof {
            assert(extent_views(r.sections@) =~= extents_of(self@.rows));
            assert forall|k: int| 0 <= k < r.extents().len() implies (#[trigger] r.extents()[k])
                == (self@.rows[k].1, self@.rows[k].2, self@.rows[k].3) by {}
            assert(unsealed(r.bytes@).take(0) =~= Seq::empty());
        }
        r
    }
}

/// The first 24 bytes of a version text, the ones a header keeps.
pub open spec fn kept_version(ver: Seq<u8>) -> Seq<u8> {
    if ver.len() >= 24 {
        ver.take(24)
    } else {
        ver
    }
}

/// The part of the version that the header keeps is UTF-8 without zero bytes.
pub open spec fn version_ok(ver: Seq<u8>) -> bool {
    &&& valid_utf8(kept_version(ver))
    &&& forall|i: int| 0 <= i < kept_version(ver).len() ==> #[trigger] kept_version(ver)[i] != 0
}

/// A snapshot whose every field fits the container.
pub open spec fn image_fits(
    config: Seq<u8>,
    flags: u16,
    ver: Seq<u8>,
    sections: Seq<(u16, Seq<u8>)>,
) -> bool {
    &&& flags <= FLAG_VECTORS
    &&& config.len() <= u32::MAX
    &&& sections.len() <= u16::MAX
    &&& kinds_unique(sections)
    &&& version_ok(ver)
    &&& layout_end(config.len() as int, metas_of(sections)) <= u64::MAX
}

/// The section table of an image.
pub open spec fn rows_of(config_len: int, sections: Seq<(u16, Seq<u8>)>) -> Seq<Row> {
    let base = bodies_start(config_len, sections.len() as int);
    Seq::new(
        sections.len(),
        |i: int|
            (
                sections[i].0,
                section_start(base, metas_of(sections), i),
                sections[i].1.len() as int,
                hash::xxh3(sections[i].1),
            ),
    )
}

proof fn lemma_zeros_at(b: Seq<u8>, at: int, n: nat)
    requires
        codec::has_at(b, at, codec::zeros(n)),
    ensures
        codec::all_zero(b, at, at + n),
{
    reveal(codec::has_at);
    assert forall|i: int| at <= i < at + n implies #[trigger] b[i] == 0u8 by {
        assert(b.subrange(at, at + n)[i - at] == codec::zeros(n)[i - at]);
    }
}

/// The pieces of an image, by offset.
proof fn lemma_image_pieces(
    config: Seq<u8>,
    flags: u16,
    created_at: u64,
    ver: Seq<u8>,
    sections: Seq<(u16, Seq<u8>)>,
    h: u64,
)
    ensures
        ({
            let b = image(config, flags, created_at, ver, sections, h);
            let n = sections.len() as int;
            let base = bodies_start(config.len() as int, n);
            &&& codec::has_at(
                b,
                0,
                header(flags, n as u16, config.len() as u32, h, created_at, ver),
            )
            &&& codec::has_at(b, 64, padded(config))
            &&& codec::has_at(
                b,
                table_start(config.len() as int),
                padded(table(base, metas_of(sections), n)),
            )
            &&& codec::has_at(b, base, bodies(sections))
            &&& b.len() == base + bodies(sections).len()
        }),
{
    let b = image(config, flags, created_at, ver, sections, h);
    let n = sections.len() as int;
    let clen = config.len() as int;
    let base = bodies_start(clen, n);
    let metas = metas_of(sections);
    let s1 = header(flags, n as u16, config.len() as u32, h, created_at, ver);
    let c = padded(config);
    let t = padded(table(base, metas, n));
    let rest = bodies(sections);
    assert(metas.len() == n);
    assert(b == s1 + c + t + rest);
    lemma_header_len(flags, n as u16, config.len() as u32, h, created_at, ver);
    lemma_table_len(base, metas, n);
    lemma_padded_len(config);
    lemma_padded_len(table(base, metas, n));
    lemma_aligned_sum(64, clen);
    lemma_aligned(64 + clen);
    lemma_aligned_sum(table_start(clen), 32 * n);
    lemma_four_pieces(s1, c, t, rest);
}

proof fn lemma_four_pieces(w: Seq<u8>, x: Seq<u8>, y: Seq<u8>, z: Seq<u8>)
    ensures
        ({
            let b = w + x + y + z;
            &&& codec::has_at(b, 0, w)
            &&& codec::has_at(b, w.len() as int, x)
            &&& codec::has_at(b, (w.len() + x.len()) as int, y)
            &&& codec::has_at(b, (w.len() + x.len() + y.len()) as int, z)
            &&& b.len() == w.len() + x.len() + y.len() + z.len()
        }),
{
    let b = w + x + y + z;
    assert(codec::has_at(b, 0, b)) by {
        reveal(codec::has_at);
        assert(b.subrange(0, b.len() as int) =~= b);
    }
    codec::lemma_has_split(b, 0, w + x + y, z);
    codec::lemma_has_split(b, 0, w + x, y);
    codec::lemma_has_split(b, 0, w, x);
}

proof fn lemma_table_row(b: Seq<u8>, ts: int, base: int, metas: Seq<SectionMeta>, i: int, n: int)
    requires
        0 <= i < n,
        codec::has_at(b, ts, table(base, metas, n)),
    ensures
        codec::has_at(b, ts + 32 * i, entry(metas[i], section_start(base, metas, i))),
    decreases n,
{
    let last = entry(metas[n - 1], section_start(base, metas, n - 1));
    codec::lemma_has_split(b, ts, table(base, metas, n - 1), last);
    lemma_table_len(base, metas, n - 1);
    if i < n - 1 {
        lemma_table_row(b, ts, base, metas, i, n - 1);
    }
}

proof fn lemma_entry_fields(b: Seq<u8>, at: int, m: SectionMeta, offset: int)
    requires
        0 <= offset <= u64::MAX,
        codec::has_at(b, at, entry(m, offset)),
    ensures
        codec::num_at(b, at, 2) == m.kind,
        codec::num_at(b, at + 2, 2) == 64,
        codec::all_zero(b, at + 4, at + 8),
        codec::num_at(b, at + 8, 8) == offset,
        codec::num_at(b, at + 16, 8) == m.len,
        codec::num_at(b, at + 24, 8) == m.hash,
{
    codec::lemma_pow256();
    codec::lemma_le_bytes_len(m.kind as nat, 2);
    codec::lemma_le_bytes_len(64, 2);
    codec::lemma_le_bytes_len(offset as u64 as nat, 8);
    codec::lemma_le_bytes_len(m.len as nat, 8);
    let s1 = codec::le16(m.kind);
    let s2 = s1 + codec::le16(64);
    let s3 = s2 + codec::zeros(4);
    let s4 = s3 + codec::le64(offset as u64);
    let s5 = s4 + codec::le64(m.len);
    codec::lemma_has_split(b, at, s5, codec::le64(m.hash));
    codec::lemma_has_split(b, at, s4, codec::le64(m.len));
    codec::lemma_has_split(b, at, s3, codec::le64(offset as u64));
    codec::lemma_has_split(b, at, s2, codec::zeros(4));
    codec::lemma_has_split(b, at, s1, codec::le16(64));
    codec::lemma_num_at(b, at, m.kind as nat, 2);
    codec::lemma_num_at(b, at + 2, 64, 2);
    lemma_zeros_at(b, at + 4, 4);
    codec::lemma_num_at(b, at + 8, offset as nat, 8);
    codec::lemma_num_at(b, at + 16, m.len as nat, 8);
    codec::lemma_num_at(b, at + 24, m.hash as nat, 8);
}

/// Each body stands, padded, where its row says.
proof fn lemma_body_at(b: Seq<u8>, base: int, sections: Seq<(u16, Seq<u8>)>, k: int, i: int)
    requires
        0 <= base,
        base % 64 == 0,
        0 <= k <= sections.len(),
        forall|j: int| 0 <= j < sections.len() ==> (#[trigger] sections[j]).1.len() <= u64::MAX,
        codec::has_at(b, base, bodies(sections.take(k))),
    ensures
        bodies(sections.take(k)).len() == section_start(base, metas_of(sections), k) - base,
        0 <= i < k ==> codec::has_at(
            b,
            section_start(base, metas_of(sections), i),
            padded(sections[i].1),
        ),
    decreases k,
{
    let metas = metas_of(sections);
    if k > 0 {
        let front = sections.take(k - 1);
        let pad = |s: (u16, Seq<u8>)| padded(s.1);
        assert(sections.take(k) =~= front.push(sections[k - 1]));
        parse::lemma_flat_push(pad, front, sections[k - 1]);
        codec::lemma_has_split(b, base, bodies(front), padded(sections[k - 1].1));
        lemma_body_at(b, base, sections, k - 1, i);
        lemma_section_start(base, metas, k - 1, k - 1);
        let at = section_start(base, metas, k - 1);
        let len = sections[k - 1].1.len() as int;
        lemma_aligned_sum(at, len);
        assert(metas[k - 1].len == len);
        assert(padded(sections[k - 1].1).len() == aligned(len));
    }
}

/// The table of an image reads back row by row.
proof fn lemma_rows_read(
    b: Seq<u8>,
    config_len: int,
    sections: Seq<(u16, Seq<u8>)>,
    i: int,
)
    requires
        0 <= config_len,
        0 <= i <= sections.len(),
        kinds_unique(sections),
        layout_end(config_len, metas_of(sections)) <= u64::MAX,
        layout_end(config_len, metas_of(sections)) <= b.len(),
        forall|j: int|
            0 <= j < sections.len() ==> codec::has_at(
                b,
                table_start(config_len) + 32 * j,
                #[trigger] entry(
                    metas_of(sections)[j],
                    section_start(
                        bodies_start(config_len, sections.len() as int),
                        metas_of(sections),
                        j,
                    ),
                ),
            ),
        forall|j: int|
            0 <= j < sections.len() ==> codec::has_at(
                b,
                section_start(
                    bodies_start(config_len, sections.len() as int),
                    metas_of(sections),
                    j,
                ),
                padded((#[trigger] sections[j]).1),
            ),
        forall|j: int| 0 <= j < sections.len() ==> (#[trigger] sections[j]).1.len() <= u64::MAX,
    ensures
        parse_rows(
            b,
            table_start(config_len),
            bodies_start(config_len, sections.len() as int),
            i,
        ) == Ok::<_, Error>(
            (
                rows_of(config_len, sections).take(i),
                section_start(
                    bodies_start(config_len, sections.len() as int),
                    metas_of(sections),
                    i,
                ),
            ),
        ),
    decreases i,
{
    let n = sections.len() as int;
    let ts = table_start(config_len);
    let base = bodies_start(config_len, n);
    let metas = metas_of(sections);
    let rows = rows_of(config_len, sections);
    assert(metas.len() == n);
    if i > 0 {
        lemma_rows_read(b, config_len, sections, i - 1);
        lemma_aligned(64 + config_len);
        lemma_aligned(ts + 32 * n);
        let start = section_start(base, metas, i - 1);
        lemma_section_start(base, metas, i - 1, n);
        lemma_section_start(base, metas, i, n);
        lemma_aligned(start + metas[i - 1].len);
        assert(codec::has_at(b, ts + 32 * (i - 1), entry(metas[i - 1], start)));
        lemma_entry_fields(b, ts + 32 * (i - 1), metas[i - 1], start);
        let body = sections[i - 1].1;
        let len = body.len() as int;
        lemma_aligned_sum(start, len);
        codec::lemma_has_split(b, start, body, codec::zeros((aligned(len) - len) as nat));
        lemma_zeros_at(b, start + len, (aligned(len) - len) as nat);
        let seen = rows.take(i - 1);
        if has_kind(seen, sections[i - 1].0) {
            let k = choose|k: int|
                0 <= k < seen.len() && (#[trigger] seen[k]).0 == sections[i - 1].0;
            assert(sections[k].0 == sections[i - 1].0);
        }
        assert(rows.take(i) =~= seen.push(rows[i - 1]));
    } else {
        assert(rows.take(0) =~= Seq::empty());
    }
}

proof fn lemma_version_len(b: Seq<u8>, kept: Seq<u8>, i: int)
    requires
        60 <= b.len(),
        kept.len() <= 24,
        36 <= i <= 36 + kept.len(),
        forall|k: int| 0 <= k < kept.len() ==> #[trigger] kept[k] != 0,
        forall|k: int| 36 <= k < 36 + kept.len() ==> #[trigger] b[k] == kept[k - 36],
        forall|k: int| 36 + kept.len() <= k < 60 ==> #[trigger] b[k] == 0,
    ensures
        version_len(b, i) == kept.len(),
    decreases 60 - i,
{
    if i < 36 + kept.len() {
        assert(kept[i - 36] != 0);
        lemma_version_len(b, kept, i + 1);
    }
}

proof fn lemma_header_fields(
    b: Seq<u8>,
    flags: u16,
    count: u16,
    config_len: u32,
    h: u64,
    created_at: u64,
    ver: Seq<u8>,
)
    requires
        b.len() >= 64,
        codec::has_at(b, 0, header(flags, count, config_len, h, created_at, ver)),
        version_ok(ver),
    ensures
        codec::num_at(b, 0, 4) == MAGIC,
        codec::num_at(b, 4, 2) == FORMAT_VERSION,
        codec::num_at(b, 6, 2) == flags,
        codec::num_at(b, 8, 2) == count,
        codec::all_zero(b, 10, 16),
        codec::num_at(b, 16, 4) == config_len,
        codec::num_at(b, 20, 8) == h,
        codec::num_at(b, 28, 8) == created_at,
        version_len(b, 36) == kept_version(ver).len(),
        b.subrange(36, 36 + kept_version(ver).len() as int) == kept_version(ver),
        codec::all_zero(b, 36 + kept_version(ver).len() as int, 60),
        codec::all_zero(b, 60, 64),
{
    codec::lemma_pow256();
    codec::lemma_le_bytes_len(MAGIC as nat, 4);
    codec::lemma_le_bytes_len(FORMAT_VERSION as nat, 2);
    codec::lemma_le_bytes_len(flags as nat, 2);
    codec::lemma_le_bytes_len(count as nat, 2);
    codec::lemma_le_bytes_len(config_len as nat, 4);
    codec::lemma_le_bytes_len(h as nat, 8);
    codec::lemma_le_bytes_len(created_at as nat, 8);
    let s1 = codec::le32(MAGIC);
    let s2 = s1 + codec::le16(FORMAT_VERSION);
    let s3 = s2 + codec::le16(flags);
    let s4 = s3 + codec::le16(count);
    let s5 = s4 + codec::zeros(6);
    let s6 = s5 + codec::le32(config_len);
    let s7 = s6 + codec::le64(h);
    let s8 = s7 + codec::le64(created_at);
    let s9 = s8 + version_field(ver);
    codec::lemma_has_split(b, 0, s9, codec::zeros(4));
    codec::lemma_has_split(b, 0, s8, version_field(ver));
    codec::lemma_has_split(b, 0, s7, codec::le64(created_at));
    codec::lemma_has_split(b, 0, s6, codec::le64(h));
    codec::lemma_has_split(b, 0, s5, codec::le32(config_len));
    codec::lemma_has_split(b, 0, s4, codec::zeros(6));
    codec::lemma_has_split(b, 0, s3, codec::le16(count));
    codec::lemma_has_split(b, 0, s2, codec::le16(flags));
    codec::lemma_has_split(b, 0, s1, codec::le16(FORMAT_VERSION));
    codec::lemma_num_at(b, 0, MAGIC as nat, 4);
    codec::lemma_num_at(b, 4, FORMAT_VERSION as nat, 2);
    codec::lemma_num_at(b, 6, flags as nat, 2);
    codec::lemma_num_at(b, 8, count as nat, 2);
    lemma_zeros_at(b, 10, 6);
    codec::lemma_num_at(b, 16, config_len as nat, 4);
    codec::lemma_num_at(b, 20, h as nat, 8);
    codec::lemma_num_at(b, 28, created_at as nat, 8);
    lemma_zeros_at(b, 60, 4);
    let kept = kept_version(ver);
    let f = version_field(ver);
    reveal(codec::has_at);
    assert(b.subrange(36, 60) == f);
    assert forall|k: int| 36 <= k < 36 + kept.len() implies #[trigger] b[k] == kept[k - 36] by {
        assert(b.subrange(36, 60)[k - 36] == f[k - 36]);
    }
    assert forall|k: int| 36 + kept.len() <= k < 60 implies #[trigger] b[k] == 0 by {
        assert(b.subrange(36, 60)[k - 36] == f[k - 36]);
    }
    lemma_version_len(b, kept, 36);
    assert(b.subrange(36, 36 + kept.len() as int) =~= kept);
}

/// The snapshot that the container carries.
pub open spec fn carried(
    config: Seq<u8>,
    flags: u16,
    created_at: u64,
    ver: Seq<u8>,
    sections: Seq<(u16, Seq<u8>)>,
    h: u64,
) -> SnapshotView {
    SnapshotView {
        bytes: image(config, flags, created_at, ver, sections, h),
        flags,
        created_at,
        config,
        engine_ver: decode_utf8(kept_version(ver)),
        rows: rows_of(config.len() as int, sections),
    }
}

proof fn lemma_bodies_len(config: Seq<u8>, sections: Seq<(u16, Seq<u8>)>)
    requires
        layout_end(config.len() as int, metas_of(sections)) <= u64::MAX,
        forall|j: int| 0 <= j < sections.len() ==> (#[trigger] sections[j]).1.len() <= u64::MAX,
    ensures
        bodies(sections).len() == layout_end(config.len() as int, metas_of(sections))
            - bodies_start(config.len() as int, sections.len() as int),
{
    let n = sections.len() as int;
    let base = bodies_start(config.len() as int, n);
    let all = codec::zeros(base as nat) + bodies(sections);
    lemma_aligned(64 + config.len() as int);
    lemma_aligned(table_start(config.len() as int) + 32 * n);
    assert(sections.take(n) =~= sections);
    reveal(codec::has_at);
    assert(all.subrange(base, base + bodies(sections).len()) =~= bodies(sections));
    lemma_body_at(all, base, sections, n, 0);
    assert(metas_of(sections).len() == n);
}

/// Whatever hash an image is sealed with, it parses to what was put in, and
/// every section is found again under its kind.
pub proof fn image_round_trip(
    config: Seq<u8>,
    flags: u16,
    created_at: u64,
    ver: Seq<u8>,
    sections: Seq<(u16, Seq<u8>)>,
    h: u64,
)
    requires
        image_fits(config, flags, ver, sections),
        forall|j: int| 0 <= j < sections.len() ==> (#[trigger] sections[j]).1.len() <= u64::MAX,
    ensures
        ({
            let v = carried(config, flags, created_at, ver, sections, h);
            &&& parsed(v.bytes) == Ok::<_, Error>(v)
            &&& codec::num_at(v.bytes, 20, 8) == h
            &&& forall|i: int|
                0 <= i < sections.len() ==> row_bytes(v, i) == (#[trigger] sections[i]).1
            &&& forall|i: int|
                0 <= i < sections.len() ==> section_of(v, (#[trigger] sections[i]).0) == Some(
                    sections[i].1,
                )
            &&& forall|kind: u16|
                (forall|i: int| 0 <= i < sections.len() ==> (#[trigger] sections[i]).0 != kind)
                    ==> section_of(v, kind) is None
        }),
{
    let b = image(config, flags, created_at, ver, sections, h);
    let v = carried(config, flags, created_at, ver, sections, h);
    let clen = config.len() as int;
    let n = sections.len() as int;
    let ts = table_start(clen);
    let base = bodies_start(clen, n);
    let metas = metas_of(sections);
    assert(metas.len() == n);
    lemma_image_pieces(config, flags, created_at, ver, sections, h);
    lemma_bodies_len(config, sections);
    lemma_aligned(64 + clen);
    lemma_aligned(ts + 32 * n);
    lemma_section_start(base, metas, n, n);
    assert(b.len() == layout_end(clen, metas));
    lemma_header_fields(b, flags, n as u16, config.len() as u32, h, created_at, ver);
    // The config block and its padding.
    codec::lemma_has_split(b, 64, config, codec::zeros((aligned(clen) - clen) as nat));
    lemma_aligned_sum(64, clen);
    lemma_zeros_at(b, 64 + clen, (aligned(clen) - clen) as nat);
    assert(b.subrange(64, 64 + clen) == config) by {
        reveal(codec::has_at);
    }
    // The table and its padding.
    let t = table(base, metas, n);
    lemma_table_len(base, metas, n);
    lemma_aligned_sum(ts, 32 * n);
    codec::lemma_has_split(b, ts, t, codec::zeros((aligned(32 * n) - 32 * n) as nat));
    lemma_zeros_at(b, ts + 32 * n, (aligned(32 * n) - 32 * n) as nat);
    assert forall|j: int| 0 <= j < n implies codec::has_at(
        b,
        ts + 32 * j,
        #[trigger] entry(metas[j], section_start(base, metas, j)),
    ) by {
        lemma_table_row(b, ts, base, metas, j, n);
    }
    assert(sections.take(n) =~= sections);
    assert forall|j: int| 0 <= j < n implies codec::has_at(
        b,
        section_start(base, metas, j),
        padded((#[trigger] sections[j]).1),
    ) by {
        lemma_body_at(b, base, sections, n, j);
    }
    lemma_rows_read(b, clen, sections, n);
    assert(v.rows.take(n) =~= v.rows);
    assert forall|i: int| 0 <= i < n implies row_bytes(v, i) == (#[trigger] sections[i]).1 by {
        let body = sections[i].1;
        let len = body.len() as int;
        codec::lemma_has_split(
            b,
            section_start(base, metas, i),
            body,
            codec::zeros((aligned(len) - len) as nat),
        );
        reveal(codec::has_at);
    }
    assert forall|i: int| 0 <= i < n implies section_of(v, (#[trigger] sections[i]).0) == Some(
        sections[i].1,
    ) by {
        let kind = sections[i].0;
        assert(v.rows[i].0 == kind);
        let k = choose|k: int| 0 <= k < v.rows.len() && (#[trigger] v.rows[k]).0 == kind;
        assert(sections[k].0 == sections[i].0);
    }
    assert forall|kind: u16|
        (forall|i: int| 0 <= i < n ==> (#[trigger] sections[i]).0 != kind) implies section_of(
        v,
        kind,
    ) is None by {
        if has_kind(v.rows, kind) {
            let k = choose|k: int| 0 <= k < v.rows.len() && (#[trigger] v.rows[k]).0 == kind;
            assert(sections[k].0 == kind);
        }
    }
}

/// A finished snapshot file parses to the config, flags, timestamp, version
/// and sections it was made from, and a scrub of it finds every section and
/// the whole file intact.
pub proof fn snapshot_round_trip(
    config: Seq<u8>,
    flags: u16,
    created_at: u64,
    ver: Seq<u8>,
    sections: Seq<(u16, Seq<u8>)>,
)
    requires
        image_fits(config, flags, ver, sections),
        forall|j: int| 0 <= j < sections.len() ==> (#[trigger] sections[j]).1.len() <= u64::MAX,
    ensures
        ({
            let h = hash::xxh3(image(config, flags, created_at, ver, sections, 0));
            let v = carried(config, flags, created_at, ver, sections, h);
            let file = sealed(config, flags, created_at, ver, sections);
            &&& parsed(file) == Ok::<_, Error>(v)
            &&& forall|i: int|
                0 <= i < sections.len() ==> section_of(v, (#[trigger] sections[i]).0) == Some(
                    sections[i].1,
                )
            &&& forall|i: int|
                0 <= i < sections.len() ==> intact(file, #[trigger] extents_of(v.rows)[i])
            &&& file_intact(file)
        }),
{
    let blank = image(config, flags, created_at, ver, sections, 0);
    let h = hash::xxh3(blank);
    let v = carried(config, flags, created_at, ver, sections, h);
    let file = v.bytes;
    image_round_trip(config, flags, created_at, ver, sections, h);
    assert forall|i: int| 0 <= i < sections.len() implies intact(
        file,
        #[trigger] extents_of(v.rows)[i],
    ) by {
        assert(row_bytes(v, i) == sections[i].1);
    }
    lemma_unsealed(config, flags, created_at, ver, sections, h);
}

/// Zeroing the hash field of a sealed image undoes the seal.
proof fn lemma_unsealed(
    config: Seq<u8>,
    flags: u16,
    created_at: u64,
    ver: Seq<u8>,
    sections: Seq<(u16, Seq<u8>)>,
    h: u64,
)
    ensures
        unsealed(image(config, flags, created_at, ver, sections, h)) == image(
            config,
            flags,
            created_at,
            ver,
            sections,
            0,
        ),
{
    let blank = image(config, flags, created_at, ver, sections, 0);
    lemma_patch_hash(config, flags, created_at, ver, sections, h);
    lemma_patch_hash(config, flags, created_at, ver, sections, 0);
    codec::lemma_le_bytes_len(h as nat, 8);
    assert(codec::le64(0) =~= codec::zeros(8)) by {
        reveal_with_fuel(codec::le_bytes, 9);
    }
    lemma_patched_twice(blank, 20, codec::le64(h), codec::zeros(8));
}

proof fn lemma_patched_twice(s: Seq<u8>, at: int, x: Seq<u8>, y: Seq<u8>)
    requires
        x.len() == y.len(),
    ensures
        patched(patched(s, at, x), at, y) == patched(s, at, y),
{
    assert(patched(patched(s, at, x), at, y) =~= patched(s, at, y));
}

/// An intact file never fails a scrub: no slice yields an error.
pub proof fn intact_file_scrubs_clean(v: ScrubView)
    requires
        forall|i: int| 0 <= i < v.extents.len() ==> intact(v.bytes, #[trigger] v.extents[i]),
        file_intact(v.bytes),
    ensures
        !(scrub_step(v) matches Some(Err(_))),
{
}

/// A damaged file does not pass: the slice in which a damaged section
/// completes, or the last slice, yields an error.
pub proof fn damage_is_found(v: ScrubView, i: int)
    requires
        !v.done,
        0 <= i < v.extents.len(),
        !intact(v.bytes, v.extents[i]),
        !complete_at(v.extents[i], v.pos, v.bytes.len() as int),
        complete_at(v.extents[i], slice_end(v), v.bytes.len() as int),
    ensures
        scrub_step(v) == Some(
            Err::<ScrubProgress, Error>(Error::Corrupt("section checksum mismatch")),
        ),
{
    assert(breaks_between(v, v.pos, slice_end(v)));
}

/// The front of a finished file is the prefix that a streaming writer lays out
/// before it knows the file hash, but for the hash field; each body stands at
/// the offset that the layout gives it.
pub proof fn the_prefix_heads_the_file(
    config: Seq<u8>,
    flags: u16,
    created_at: u64,
    ver: Seq<u8>,
    sections: Seq<(u16, Seq<u8>)>,
)
    requires
        layout_end(config.len() as int, metas_of(sections)) <= u64::MAX,
        forall|j: int| 0 <= j < sections.len() ==> (#[trigger] sections[j]).1.len() <= u64::MAX,
    ensures
        ({
            let file = sealed(config, flags, created_at, ver, sections);
            let front = prefix(config, flags, created_at, ver, metas_of(sections), 0);
            let base = bodies_start(config.len() as int, sections.len() as int);
            &&& file.len() == layout_end(config.len() as int, metas_of(sections))
            &&& front.len() == base <= file.len()
            &&& forall|k: int|
                0 <= k < front.len() && !(20 <= k < 28) ==> #[trigger] file[k] == front[k]
            &&& forall|i: int|
                0 <= i < sections.len() ==> codec::has_at(
                    file,
                    section_start(base, metas_of(sections), i),
                    (#[trigger] sections[i]).1,
                )
        }),
{
    let blank = image(config, flags, created_at, ver, sections, 0);
    let h = hash::xxh3(blank);
    let file = image(config, flags, created_at, ver, sections, h);
    let front = prefix(config, flags, created_at, ver, metas_of(sections), 0);
    let n = sections.len() as int;
    let base = bodies_start(config.len() as int, n);
    let metas = metas_of(sections);
    assert(metas.len() == n);
    lemma_patch_hash(config, flags, created_at, ver, sections, h);
    codec::lemma_le_bytes_len(h as nat, 8);
    lemma_image_pieces(config, flags, created_at, ver, sections, h);
    lemma_image_pieces(config, flags, created_at, ver, sections, 0);
    lemma_bodies_len(config, sections);
    lemma_aligned(64 + config.len() as int);
    lemma_aligned(table_start(config.len() as int) + 32 * n);
    assert(front.len() == base);
    assert forall|k: int| 0 <= k < front.len() && !(20 <= k < 28) implies #[trigger] file[k]
        == front[k] by {
        assert(file[k] == blank[k]);
    }
    assert(sections.take(n) =~= sections);
    assert forall|i: int| 0 <= i < n implies codec::has_at(
        file,
        section_start(base, metas, i),
        (#[trigger] sections[i]).1,
    ) by {
        let body = sections[i].1;
        lemma_body_at(file, base, sections, n, i);
        codec::lemma_has_split(
            file,
            section_start(base, metas, i),
            body,
            codec::zeros((aligned(body.len() as int) - body.len()) as nat),
        );
    }
}

/// The outcomes of up to `n` slices of a scan, in order; an error or the last
/// byte ends it.
pub open spec fn scrubbed(v: ScrubView, n: nat) -> Seq<Result<ScrubProgress, Error>>
    decreases n,
{
    if n == 0 {
        Seq::empty()
    } else {
        match scrub_step(v) {
            None => Seq::empty(),
            Some(Err(e)) => seq![Err(e)],
            Some(Ok(p)) => if slice_end(v) == v.bytes.len() {
                seq![Ok(p)]
            } else {
                seq![Ok(p)] + scrubbed(ScrubView { pos: slice_end(v), ..v }, (n - 1) as nat)
            },
        }
    }
}

/// How many slices are left.
pub open spec fn slices(v: ScrubView) -> int {
    (v.bytes.len() - v.pos + v.budget - 1) / v.budget
}

/// The progress that slice `k` from here reports.
pub open spec fn progress_at(v: ScrubView, k: int) -> ScrubProgress {
    let end = v.pos + (k + 1) * v.budget;
    ScrubProgress {
        done_bytes: if end <= v.bytes.len() {
            end as u64
        } else {
            v.bytes.len() as u64
        },
        total_bytes: v.bytes.len() as u64,
    }
}

/// Every section that is not behind the scan yet is intact, and so is the
/// file.
pub open spec fn sound_from(v: ScrubView) -> bool {
    &&& forall|i: int|
        0 <= i < v.extents.len() ==> intact(v.bytes, #[trigger] v.extents[i]) || complete_at(
            v.extents[i],
            v.pos,
            v.bytes.len() as int,
        )
    &&& file_intact(v.bytes)
}

proof fn lemma_slices(v: ScrubView)
    requires
        0 <= v.pos < v.bytes.len(),
        1 <= v.budget,
    ensures
        v.bytes.len() - v.pos <= v.budget ==> slices(v) == 1,
        v.bytes.len() - v.pos > v.budget ==> slices(v) == 1 + slices(
            (ScrubView { pos: v.pos + v.budget, ..v }),
        ),
        slices(v) >= 1,
{
    let left = v.bytes.len() - v.pos;
    let b = v.budget;
    if left <= b {
        assert((left + b - 1) / b == 1) by (nonlinear_arith)
            requires
                1 <= left <= b,
        ;
    } else {
        assert((left - b + b - 1) / b + 1 == (left + b - 1) / b) by (nonlinear_arith)
            requires
                b >= 1,
        ;
        assert((left - b + b - 1) / b >= 0) by (nonlinear_arith)
            requires
                b >= 1,
                left > b,
        ;
    }
}

/// A scan in slices: an intact file yields one progress report per slice, in
/// order, and nothing more. A damaged one yields progress reports up to one
/// error, and nothing behind it.
pub proof fn a_scan_covers_the_file(v: ScrubView, n: nat)
    requires
        !v.done,
        0 <= v.pos < v.bytes.len(),
        1 <= v.budget,
        extents_ok(v.extents, v.bytes.len() as int),
        slices(v) <= n,
    ensures
        ({
            let items = scrubbed(v, n);
            &&& 1 <= items.len() <= slices(v)
            &&& forall|k: int|
                0 <= k < items.len() - 1 ==> #[trigger] items[k] == Ok::<_, Error>(
                    progress_at(v, k),
                )
            &&& sound_from(v) ==> items.len() == slices(v) && items.last() == Ok::<_, Error>(
                progress_at(v, slices(v) - 1),
            )
            &&& !sound_from(v) ==> items.last() is Err
        }),
    decreases n,
{
    lemma_slices(v);
    let total = v.bytes.len() as int;
    let end = slice_end(v);
    let next = ScrubView { pos: end, ..v };
    let items = scrubbed(v, n);
    assert(1 * v.budget == v.budget);
    if scrub_step(v)->0 is Ok {
        assert(scrub_step(v)->0->Ok_0 == progress_at(v, 0));
        if end == total {
            assert forall|i: int| 0 <= i < v.extents.len() implies complete_at(
                #[trigger] v.extents[i],
                total,
                total,
            ) by {}
            assert(v.bytes.len() - v.pos <= v.budget);
        } else {
            a_scan_covers_the_file(next, (n - 1) as nat);
            let rest = scrubbed(next, (n - 1) as nat);
            assert forall|k: int| 0 <= k < slices(next) implies progress_at(v, k + 1)
                == #[trigger] progress_at(next, k) by {
                assert(v.pos + (k + 1 + 1) * v.budget == v.pos + v.budget + (k + 1) * v.budget)
                    by (nonlinear_arith);
            }
            assert forall|k: int| 0 <= k < items.len() - 1 implies #[trigger] items[k]
                == Ok::<_, Error>(progress_at(v, k)) by {
                if k > 0 {
                    assert(items[k] == rest[k - 1]);
                    assert(progress_at(v, k) == progress_at(next, k - 1));
                }
            }
            assert(items.last() == rest.last());
            assert(progress_at(v, slices(v) - 1) == progress_at(next, slices(next) - 1));
            assert(sound_from(v) == sound_from(next)) by {
                assert forall|i: int| 0 <= i < v.extents.len() implies complete_at(
                    #[trigger] v.extents[i],
                    v.pos,
                    total,
                ) ==> complete_at(v.extents[i], end, total) by {}
            }
        }
    } else {
        assert(!sound_from(v));
    }
}

/// The sections of a parsed file.
pub open spec fn sections_of(v: SnapshotView) -> Seq<(u16, Seq<u8>)> {
    Seq::new(v.rows.len(), |i: int| (v.rows[i].0, row_bytes(v, i)))
}

/// The section table of a parsed file, with the hashes it stores.
pub open spec fn stored_metas(rows: Seq<Row>) -> Seq<SectionMeta> {
    rows.map_values(|r: Row| SectionMeta { kind: r.0, len: r.2 as u64, hash: r.3 })
}

proof fn lemma_num_back(b: Seq<u8>, at: int, n: int)
    requires
        0 <= at,
        0 <= n,
        at + n <= b.len(),
    ensures
        codec::has_at(b, at, codec::le_bytes(codec::num_at(b, at, n), n as nat)),
        codec::le_bytes(codec::num_at(b, at, n), n as nat).len() == n,
        codec::num_at(b, at, n) < codec::pow256(n as nat),
{
    reveal(codec::has_at);
    codec::lemma_le_nat_bound(b.subrange(at, at + n));
}

proof fn lemma_zeros_back(b: Seq<u8>, from: int, to: int)
    requires
        0 <= from <= to <= b.len(),
        codec::all_zero(b, from, to),
    ensures
        codec::has_at(b, from, codec::zeros((to - from) as nat)),
{
    reveal(codec::has_at);
    assert(b.subrange(from, to) =~= codec::zeros((to - from) as nat));
}

proof fn lemma_same_metas(base: int, xs: Seq<SectionMeta>, ys: Seq<SectionMeta>, n: int)
    requires
        0 <= n,
        forall|i: int| 0 <= i < n ==> #[trigger] xs[i] == ys[i],
    ensures
        section_start(base, xs, n) == section_start(base, ys, n),
        table(base, xs, n) == table(base, ys, n),
    decreases n,
{
    if n > 0 {
        lemma_same_metas(base, xs, ys, n - 1);
        assert(xs[n - 1] == ys[n - 1]);
    }
}

/// The bodies behind the first rows of a table, each with its padding.
spec fn row_bodies(b: Seq<u8>, rows: Seq<Row>) -> Seq<(u16, Seq<u8>)> {
    rows.map_values(|r: Row| (r.0, b.subrange(r.1, r.1 + r.2)))
}

/// An entry that was read is the encoding of its row.
proof fn lemma_entry_back(b: Seq<u8>, at: int, m: SectionMeta, offset: int)
    requires
        0 <= at,
        at + 32 <= b.len(),
        codec::num_at(b, at, 2) == m.kind,
        codec::num_at(b, at + 2, 2) == 64,
        codec::all_zero(b, at + 4, at + 8),
        codec::num_at(b, at + 8, 8) == offset,
        codec::num_at(b, at + 16, 8) == m.len,
        codec::num_at(b, at + 24, 8) == m.hash,
    ensures
        codec::has_at(b, at, entry(m, offset)),
{
    codec::lemma_pow256();
    lemma_num_back(b, at, 2);
    lemma_num_back(b, at + 2, 2);
    lemma_zeros_back(b, at + 4, at + 8);
    lemma_num_back(b, at + 8, 8);
    lemma_num_back(b, at + 16, 8);
    lemma_num_back(b, at + 24, 8);
    let s1 = codec::le16(m.kind);
    let s2 = s1 + codec::le16(64);
    let s3 = s2 + codec::zeros(4);
    let s4 = s3 + codec::le64(offset as u64);
    let s5 = s4 + codec::le64(m.len);
    codec::lemma_has_split(b, at, s1, codec::le16(64));
    codec::lemma_has_split(b, at, s2, codec::zeros(4));
    codec::lemma_has_split(b, at, s3, codec::le64(offset as u64));
    codec::lemma_has_split(b, at, s4, codec::le64(m.len));
    codec::lemma_has_split(b, at, s5, codec::le64(m.hash));
}

proof fn lemma_rows_back(b: Seq<u8>, ts: int, base: int, n: int)
    requires
        0 <= n,
        0 <= ts,
        ts + 32 * n <= b.len(),
        0 <= base <= b.len(),
        base % 64 == 0,
        b.len() % 64 == 0,
        parse_rows(b, ts, base, n) is Ok,
    ensures
        ({
            let (rows, end) = parse_rows(b, ts, base, n)->Ok_0;
            let metas = stored_metas(rows);
            &&& rows.len() == n
            &&& end == section_start(base, metas, n)
            &&& end % 64 == 0
            &&& codec::has_at(b, ts, table(base, metas, n))
            &&& codec::has_at(b, base, bodies(row_bodies(b, rows)))
            &&& end == base + bodies(row_bodies(b, rows)).len()
            &&& end <= b.len()
        }),
    decreases n,
{
    if n == 0 {
        reveal(codec::has_at);
        assert(b.subrange(ts, ts) =~= Seq::<u8>::empty());
        assert(b.subrange(base, base) =~= Seq::<u8>::empty());
    } else {
        lemma_rows_back(b, ts, base, n - 1);
        let (rows, start) = parse_rows(b, ts, base, n - 1)->Ok_0;
        let (all, end) = parse_rows(b, ts, base, n)->Ok_0;
        let row = all[n - 1];
        let at = ts + 32 * (n - 1);
        let old = stored_metas(rows);
        let metas = stored_metas(all);
        let m = metas[n - 1];
        let close = start + row.2;
        let body = b.subrange(start, close);
        codec::lemma_pow256();
        lemma_num_back(b, at, 2);
        lemma_num_back(b, at + 8, 8);
        lemma_num_back(b, at + 16, 8);
        lemma_num_back(b, at + 24, 8);
        lemma_entry_back(b, at, m, start);
        assert forall|i: int| 0 <= i < n - 1 implies #[trigger] metas[i] == old[i] by {
            assert(all[i] == rows[i]);
        }
        lemma_same_metas(base, metas, old, n - 1);
        lemma_table_len(base, metas, n - 1);
        codec::lemma_has_split(b, ts, table(base, metas, n - 1), entry(m, start));
        // The body and its padding.
        lemma_aligned(close);
        lemma_zeros_back(b, close, aligned(close));
        lemma_aligned_sum(start, row.2);
        assert(codec::has_at(b, start, body)) by {
            reveal(codec::has_at);
        }
        codec::lemma_has_split(b, start, body, codec::zeros((aligned(row.2) - row.2) as nat));
        assert(codec::has_at(b, start, padded(body)));
        lemma_padded_len(body);
        let pad = |s: (u16, Seq<u8>)| padded(s.1);
        assert(row_bodies(b, all) =~= row_bodies(b, rows).push((row.0, body)));
        parse::lemma_flat_push(pad, row_bodies(b, rows), (row.0, body));
        codec::lemma_has_split(b, base, bodies(row_bodies(b, rows)), padded(body));
    }
}

proof fn lemma_version_back(b: Seq<u8>, i: int)
    requires
        36 <= i <= 60,
    ensures
        i - 36 <= version_len(b, i) <= 24,
        forall|k: int| i <= k < 36 + version_len(b, i) ==> #[trigger] b[k] != 0,
    decreases 60 - i,
{
    if i < 60 && b[i] != 0 {
        lemma_version_back(b, i + 1);
    }
}

proof fn lemma_header_back(b: Seq<u8>)
    requires
        header_error(b) is None,
    ensures
        ({
            let ver = b.subrange(36, 36 + version_len(b, 36));
            &&& codec::has_at(
                b,
                0,
                header(
                    codec::num_at(b, 6, 2) as u16,
                    codec::num_at(b, 8, 2) as u16,
                    codec::num_at(b, 16, 4) as u32,
                    codec::num_at(b, 20, 8) as u64,
                    codec::num_at(b, 28, 8) as u64,
                    ver,
                ),
            )
            &&& codec::num_at(b, 8, 2) <= u16::MAX
            &&& codec::num_at(b, 16, 4) <= u32::MAX
        }),
{
    let ver = b.subrange(36, 36 + version_len(b, 36));
    lemma_version_back(b, 36);
    codec::lemma_pow256();
    lemma_num_back(b, 0, 4);
    lemma_num_back(b, 4, 2);
    lemma_num_back(b, 6, 2);
    lemma_num_back(b, 8, 2);
    lemma_zeros_back(b, 10, 16);
    lemma_num_back(b, 16, 4);
    lemma_num_back(b, 20, 8);
    lemma_num_back(b, 28, 8);
    lemma_zeros_back(b, 60, 64);
    assert(codec::has_at(b, 36, version_field(ver))) by {
        reveal(codec::has_at);
        assert(b.subrange(36, 60) =~= version_field(ver));
    }
    let s1 = codec::le32(MAGIC);
    let s2 = s1 + codec::le16(FORMAT_VERSION);
    let s3 = s2 + codec::le16(codec::num_at(b, 6, 2) as u16);
    let s4 = s3 + codec::le16(codec::num_at(b, 8, 2) as u16);
    let s5 = s4 + codec::zeros(6);
    let s6 = s5 + codec::le32(codec::num_at(b, 16, 4) as u32);
    let s7 = s6 + codec::le64(codec::num_at(b, 20, 8) as u64);
    let s8 = s7 + codec::le64(codec::num_at(b, 28, 8) as u64);
    let s9 = s8 + version_field(ver);
    codec::lemma_has_split(b, 0, s1, codec::le16(FORMAT_VERSION));
    codec::lemma_has_split(b, 0, s2, codec::le16(codec::num_at(b, 6, 2) as u16));
    codec::lemma_has_split(b, 0, s3, codec::le16(codec::num_at(b, 8, 2) as u16));
    codec::lemma_has_split(b, 0, s4, codec::zeros(6));
    codec::lemma_has_split(b, 0, s5, codec::le32(codec::num_at(b, 16, 4) as u32));
    codec::lemma_has_split(b, 0, s6, codec::le64(codec::num_at(b, 20, 8) as u64));
    codec::lemma_has_split(b, 0, s7, codec::le64(codec::num_at(b, 28, 8) as u64));
    codec::lemma_has_split(b, 0, s8, version_field(ver));
    codec::lemma_has_split(b, 0, s9, codec::zeros(4));
}

/// Whatever parses is what the writer lays out for what was read, checksums
/// apart: the prefix over the stored table and the stored file hash, and then
/// the bodies.
pub proof fn a_parsed_file_is_canonical(b: Seq<u8>)
    requires
        parsed(b) is Ok,
    ensures
        ({
            let v = parsed(b)->Ok_0;
            b == prefix(
                v.config,
                v.flags,
                v.created_at,
                encode_utf8(v.engine_ver),
                stored_metas(v.rows),
                codec::num_at(b, 20, 8) as u64,
            ) + bodies(sections_of(v))
        }),
{
    let v = parsed(b)->Ok_0;
    let ver = b.subrange(36, 36 + version_len(b, 36));
    let clen = codec::num_at(b, 16, 4) as int;
    let n = codec::num_at(b, 8, 2) as int;
    let ts = aligned(64 + clen);
    let base = aligned(ts + 32 * n);
    let metas = stored_metas(v.rows);
    lemma_header_back(b);
    lemma_version_back(b, 36);
    decode_utf8_encode_utf8(ver);
    lemma_aligned(64 + clen);
    lemma_aligned(ts + 32 * n);
    lemma_rows_back(b, ts, base, n);
    lemma_table_len(base, metas, n);
    // The config block and its padding.
    lemma_zeros_back(b, 64 + clen, ts);
    lemma_aligned_sum(64, clen);
    assert(codec::has_at(b, 64, v.config)) by {
        reveal(codec::has_at);
    }
    codec::lemma_has_split(b, 64, v.config, codec::zeros((aligned(clen) - clen) as nat));
    lemma_padded_len(v.config);
    // The table and its padding.
    lemma_zeros_back(b, ts + 32 * n, base);
    lemma_aligned_sum(ts, 32 * n);
    let t = table(base, metas, n);
    codec::lemma_has_split(b, ts, t, codec::zeros((aligned(32 * n) - 32 * n) as nat));
    lemma_padded_len(t);
    assert(row_bodies(b, v.rows) =~= sections_of(v));
    let h = header(
        v.flags,
        n as u16,
        clen as u32,
        codec::num_at(b, 20, 8) as u64,
        v.created_at,
        ver,
    );
    lemma_header_len(
        v.flags,
        n as u16,
        clen as u32,
        codec::num_at(b, 20, 8) as u64,
        v.created_at,
        ver,
    );
    codec::lemma_has_split(b, 0, h, padded(v.config));
    codec::lemma_has_split(b, 0, h + padded(v.config), padded(t));
    codec::lemma_has_split(b, 0, h + padded(v.config) + padded(t), bodies(sections_of(v)));
    reveal(codec::has_at);
    assert(b.subrange(0, b.len() as int) =~= b);
}

/// A parsed file whose section hashes hold is the image of what was read,
/// under the file hash it stores.
pub proof fn an_intact_file_is_rewritten(b: Seq<u8>)
    requires
        parsed(b) is Ok,
        forall|i: int|
            0 <= i < parsed(b)->Ok_0.rows.len() ==> intact(
                b,
                #[trigger] extents_of(parsed(b)->Ok_0.rows)[i],
            ),
    ensures
        ({
            let v = parsed(b)->Ok_0;
            b == image(
                v.config,
                v.flags,
                v.created_at,
                encode_utf8(v.engine_ver),
                sections_of(v),
                codec::num_at(b, 20, 8) as u64,
            )
        }),
{
    a_parsed_file_is_canonical(b);
    let v = parsed(b)->Ok_0;
    let clen = codec::num_at(b, 16, 4) as int;
    let n = codec::num_at(b, 8, 2) as int;
    let ts = aligned(64 + clen);
    lemma_header_back(b);
    lemma_aligned(64 + clen);
    lemma_aligned(ts + 32 * n);
    lemma_rows_shape(b, ts, aligned(ts + 32 * n), n);
    assert(stored_metas(v.rows) =~= metas_of(sections_of(v))) by {
        assert forall|i: int| 0 <= i < v.rows.len() implies stored_metas(v.rows)[i]
            == #[trigger] metas_of(sections_of(v))[i] by {
            assert(intact(b, extents_of(v.rows)[i]));
            assert(0 <= v.rows[i].2 && 0 <= v.rows[i].1);
        }
    }
}

/// A position that holds part of a checksum: the file hash, or the hash of a
/// section at the end of its table entry.
pub open spec fn in_checksum(config_len: int, count: int, i: int) -> bool {
    let ts = table_start(config_len);
    20 <= i < 28 || (ts <= i < ts + 32 * count && (i - ts) % 32 >= 24)
}

/// Section tables that differ in their hashes alone.
pub open spec fn alike(a: Seq<SectionMeta>, b: Seq<SectionMeta>) -> bool {
    &&& a.len() == b.len()
    &&& forall|i: int|
        0 <= i < a.len() ==> (#[trigger] a[i]).kind == b[i].kind && a[i].len == b[i].len
}

proof fn lemma_entries_alike(a: SectionMeta, b: SectionMeta, offset: int)
    requires
        a.kind == b.kind,
        a.len == b.len,
    ensures
        forall|i: int| 0 <= i < 24 ==> (#[trigger] entry(a, offset)[i]) == entry(b, offset)[i],
{
    let front = codec::le16(a.kind) + codec::le16(64) + codec::zeros(4) + codec::le64(
        offset as u64,
    ) + codec::le64(a.len);
    lemma_entry_len(a, offset);
    lemma_entry_len(b, offset);
    codec::lemma_le_bytes_len(a.hash as nat, 8);
    codec::lemma_le_bytes_len(b.hash as nat, 8);
    assert(entry(a, offset) == front + codec::le64(a.hash));
    assert(entry(b, offset) == front + codec::le64(b.hash));
}

proof fn lemma_tables_alike(base: int, a: Seq<SectionMeta>, b: Seq<SectionMeta>, n: int)
    requires
        alike(a, b),
        0 <= n <= a.len(),
    ensures
        section_start(base, a, n) == section_start(base, b, n),
        forall|i: int|
            0 <= i < 32 * n && i % 32 < 24 ==> (#[trigger] table(base, a, n)[i]) == table(
                base,
                b,
                n,
            )[i],
    decreases n,
{
    if n > 0 {
        lemma_tables_alike(base, a, b, n - 1);
        lemma_table_len(base, a, n - 1);
        lemma_table_len(base, b, n - 1);
        let at = section_start(base, a, n - 1);
        assert(a[n - 1].kind == b[n - 1].kind && a[n - 1].len == b[n - 1].len);
        lemma_entries_alike(a[n - 1], b[n - 1], at);
        lemma_entry_len(a[n - 1], at);
        lemma_entry_len(b[n - 1], at);
        assert forall|i: int| 0 <= i < 32 * n && i % 32 < 24 implies (#[trigger] table(
            base,
            a,
            n,
        )[i]) == table(base, b, n)[i] by {
            if i < 32 * (n - 1) {
                assert(table(base, a, n)[i] == table(base, a, n - 1)[i]);
                assert(table(base, b, n)[i] == table(base, b, n - 1)[i]);
            } else {
                let k = i - 32 * (n - 1);
                assert(table(base, a, n)[i] == entry(a[n - 1], at)[k]);
                assert(table(base, b, n)[i] == entry(b[n - 1], at)[k]);
            }
        }
    }
}

proof fn lemma_headers_alike(
    flags: u16,
    count: u16,
    config_len: u32,
    x: u64,
    y: u64,
    created_at: u64,
    ver: Seq<u8>,
)
    ensures
        forall|i: int|
            0 <= i < 64 && !(20 <= i < 28) ==> (#[trigger] header(
                flags,
                count,
                config_len,
                x,
                created_at,
                ver,
            )[i]) == header(flags, count, config_len, y, created_at, ver)[i],
{
    lemma_header_len(flags, count, config_len, x, created_at, ver);
    lemma_header_len(flags, count, config_len, y, created_at, ver);
    codec::lemma_le_bytes_len(MAGIC as nat, 4);
    codec::lemma_le_bytes_len(FORMAT_VERSION as nat, 2);
    codec::lemma_le_bytes_len(flags as nat, 2);
    codec::lemma_le_bytes_len(count as nat, 2);
    codec::lemma_le_bytes_len(config_len as nat, 4);
    codec::lemma_le_bytes_len(x as nat, 8);
    codec::lemma_le_bytes_len(y as nat, 8);
    let front = codec::le32(MAGIC) + codec::le16(FORMAT_VERSION) + codec::le16(flags)
        + codec::le16(count) + codec::zeros(6) + codec::le32(config_len);
    let back = codec::le64(created_at) + version_field(ver) + codec::zeros(4);
    assert(front.len() == 20);
    assert(header(flags, count, config_len, x, created_at, ver) =~= front + codec::le64(x) + back);
    assert(header(flags, count, config_len, y, created_at, ver) =~= front + codec::le64(y) + back);
}

/// Writing what was parsed gives back the file, byte for byte, but for its
/// checksums, which are those of what it holds.
pub proof fn only_checksums_are_rewritten(b: Seq<u8>)
    requires
        parsed(b) is Ok,
    ensures
        ({
            let v = parsed(b)->Ok_0;
            let w = sealed(
                v.config,
                v.flags,
                v.created_at,
                encode_utf8(v.engine_ver),
                sections_of(v),
            );
            &&& w.len() == b.len()
            &&& forall|i: int|
                0 <= i < b.len() && !in_checksum(
                    v.config.len() as int,
                    v.rows.len() as int,
                    i,
                ) ==> (#[trigger] w[i]) == b[i]
        }),
{
    a_parsed_file_is_canonical(b);
    let v = parsed(b)->Ok_0;
    let ver = encode_utf8(v.engine_ver);
    let clen = v.config.len() as int;
    let n = v.rows.len() as int;
    let ts = table_start(clen);
    let base = bodies_start(clen, n);
    let a = metas_of(sections_of(v));
    let m = stored_metas(v.rows);
    lemma_header_back(b);
    let count = codec::num_at(b, 8, 2) as int;
    let rows_at = aligned(64 + codec::num_at(b, 16, 4) as int);
    lemma_aligned(64 + codec::num_at(b, 16, 4) as int);
    lemma_aligned(rows_at + 32 * count);
    lemma_rows_shape(b, rows_at, aligned(rows_at + 32 * count), count);
    assert(alike(a, m)) by {
        assert forall|i: int| 0 <= i < a.len() implies (#[trigger] a[i]).kind == m[i].kind
            && a[i].len == m[i].len by {
            assert(0 <= v.rows[i].2 && 0 <= v.rows[i].1);
        }
    }
    let x = hash::xxh3(image(v.config, v.flags, v.created_at, ver, sections_of(v), 0));
    let y = codec::num_at(b, 20, 8) as u64;
    let w = sealed(v.config, v.flags, v.created_at, ver, sections_of(v));
    let h = header(v.flags, n as u16, clen as u32, x, v.created_at, ver);
    let k = header(v.flags, n as u16, clen as u32, y, v.created_at, ver);
    lemma_header_len(v.flags, n as u16, clen as u32, x, v.created_at, ver);
    lemma_header_len(v.flags, n as u16, clen as u32, y, v.created_at, ver);
    lemma_headers_alike(v.flags, n as u16, clen as u32, x, y, v.created_at, ver);
    lemma_table_len(base, a, n);
    lemma_table_len(base, m, n);
    lemma_tables_alike(base, a, m, n);
    lemma_padded_len(v.config);
    lemma_padded_len(table(base, a, n));
    lemma_padded_len(table(base, m, n));
    lemma_aligned_sum(64, clen);
    let t = padded(table(base, a, n));
    let u = padded(table(base, m, n));
    let tail = bodies(sections_of(v));
    assert(w == h + padded(v.config) + t + tail);
    assert(b == k + padded(v.config) + u + tail);
    assert(ts == 64 + padded(v.config).len());
    assert forall|i: int| 0 <= i < b.len() && !in_checksum(clen, n, i) implies (#[trigger] w[i])
        == b[i] by {
        if i < 64 {
            assert(w[i] == h[i] && b[i] == k[i]);
        } else if ts <= i < ts + 32 * n {
            assert(w[i] == table(base, a, n)[i - ts]);
            assert(b[i] == table(base, m, n)[i - ts]);
        }
    }
}

proof fn lemma_rows_shape(b: Seq<u8>, ts: int, first: int, n: int)
    requires
        parse_rows(b, ts, first, n) is Ok,
        0 <= first,
    ensures
        forall|i: int|
            0 <= i < parse_rows(b, ts, first, n)->Ok_0.0.len() ==> {
                let row = #[trigger] parse_rows(b, ts, first, n)->Ok_0.0[i];
                0 <= row.1 && 0 <= row.2 && row.1 + row.2 <= b.len()
            },
    decreases n,
{
    if n > 0 {
        lemma_rows_shape(b, ts, first, n - 1);
        let rows = parse_rows(b, ts, first, n - 1)->Ok_0.0;
        let all = parse_rows(b, ts, first, n)->Ok_0.0;
        assert forall|i: int| 0 <= i < all.len() implies {
            let row = #[trigger] all[i];
            0 <= row.1 && 0 <= row.2 && row.1 + row.2 <= b.len()
        } by {
            if i < rows.len() {
                assert(all[i] == rows[i]);
            }
        }
    }
}

} // verus!
