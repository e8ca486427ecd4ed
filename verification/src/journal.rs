//! Journal record framing.
//!
//! The journal is an append-only sequence of framed records:
//!
//! ```text
//! [len u32 LE][check u32 LE][op u8][payload ...]     len = 1 + payload
//! ```
//!
//! `check` is the low 32 bits of xxh3-64 over `[op][payload]`. Framing is
//! op-agnostic: the op byte's meaning belongs to the engine's replay layer.
//!
//! # Torn tails and corruption
//!
//! There is exactly one writer and appends are sequential, so a crash can
//! only leave a *prefix* of the last record. That yields the rule of [`scan`]:
//!
//! - a record whose frame extends past the end of the buffer is the torn
//!   tail: the scan succeeds, drops it, and reports `truncated_tail`;
//! - a complete frame with a bad checksum that ends exactly at the buffer end
//!   is also a torn tail;
//! - any other inconsistency (a bad checksum mid-stream, a `len` of 0) is
//!   [`Error::Corrupt`].

use crate::codec;
use crate::codec::{get_u32, get_u64, put_slice, put_u32, put_u64};
use crate::error::Error;
use crate::hash;
use crate::hash::hash64;
use crate::id;
use crate::id::FactId;
use crate::parse;
use crate::text::str_from_utf8;
use vstd::prelude::*;
use vstd::string::*;
use vstd::utf8::*;

verus! {

/// Frame header size: `len` and `check`.
pub const HEADER: usize = 8;

/// One decoded journal record, borrowing the scanned buffer.
#[derive(Clone, Copy, Debug, PartialEq, Eq)]
pub struct JournalEntry<'a> {
    /// Operation tag.
    pub op: u8,
    /// The operation's binary payload.
    pub payload: &'a [u8],
}

impl<'a> View for JournalEntry<'a> {
    type V = (u8, Seq<u8>);

    open spec fn view(&self) -> (u8, Seq<u8>) {
        (self.op, self.payload@)
    }
}

/// Result of scanning a journal buffer.
#[derive(Clone, Debug, PartialEq, Eq)]
pub struct JournalScan<'a> {
    /// All valid records, in append order.
    pub entries: Vec<JournalEntry<'a>>,
    /// `true` when a torn tail record was dropped.
    pub truncated_tail: bool,
}

impl<'a> View for JournalScan<'a> {
    type V = (Seq<(u8, Seq<u8>)>, bool);

    open spec fn view(&self) -> (Seq<(u8, Seq<u8>)>, bool) {
        (entry_views(self.entries@), self.truncated_tail)
    }
}

pub open spec fn entry_views(entries: Seq<JournalEntry<'_>>) -> Seq<(u8, Seq<u8>)> {
    entries.map_values(|e: JournalEntry<'_>| e@)
}

/// The bytes a record's checksum covers.
pub open spec fn record_body(op: u8, payload: Seq<u8>) -> Seq<u8> {
    seq![op] + payload
}

/// One framed record.
pub open spec fn frame(op: u8, payload: Seq<u8>) -> Seq<u8> {
    codec::le32((1 + payload.len()) as u32) + codec::le32(
        hash::xxh3(record_body(op, payload)) as u32,
    ) + record_body(op, payload)
}

/// A journal that holds exactly the records of `entries`.
pub open spec fn journal_of(entries: Seq<(u8, Seq<u8>)>) -> Seq<u8> {
    parse::flat(|e: (u8, Seq<u8>)| frame(e.0, e.1), entries)
}

/// The length field of the record at the front of `rest`.
pub open spec fn record_len(rest: Seq<u8>) -> int {
    codec::le_nat(rest.subrange(0, 4)) as int
}

/// The records of a journal buffer and whether a torn tail was dropped.
pub open spec fn scanned(rest: Seq<u8>) -> Result<(Seq<(u8, Seq<u8>)>, bool), Error>
    decreases rest.len(),
{
    if rest.len() == 0 {
        Ok((Seq::empty(), false))
    } else if rest.len() < HEADER {
        Ok((Seq::empty(), true))
    } else if record_len(rest) == 0 {
        Err(Error::Corrupt("journal record with zero length"))
    } else if HEADER + record_len(rest) > rest.len() {
        Ok((Seq::empty(), true))
    } else {
        let end = HEADER + record_len(rest);
        let body = rest.subrange(8, end);
        if hash::xxh3(body) as u32 as nat != codec::le_nat(rest.subrange(4, 8)) {
            if end == rest.len() {
                Ok((Seq::empty(), true))
            } else {
                Err(Error::Corrupt("journal checksum mismatch mid-stream"))
            }
        } else {
            after(seq![(body[0], body.skip(1))], scanned(rest.skip(end)))
        }
    }
}

/// The outcome of a scan with `entries` read before it.
pub open spec fn after(
    entries: Seq<(u8, Seq<u8>)>,
    rest: Result<(Seq<(u8, Seq<u8>)>, bool), Error>,
) -> Result<(Seq<(u8, Seq<u8>)>, bool), Error> {
    match rest {
        Ok((more, torn)) => Ok((entries + more, torn)),
        Err(e) => Err(e),
    }
}

/// Checksum over the contiguous `[op][payload]` body: low 32 bits of xxh3-64.
fn body_checksum(body: &[u8]) -> (r: u32)
    ensures
        r == hash::xxh3(body@) as u32,
{
    hash64(body) as u32
}

/// Appends one framed record to `out`.
pub fn encode_entry(out: &mut Vec<u8>, op: u8, payload: &[u8])
    requires
        payload@.len() < u32::MAX,
    ensures
        final(out)@ == old(out)@ + frame(op, payload@),
{
    let mut body: Vec<u8> = Vec::new();
    body.push(op);
    put_slice(&mut body, payload);
    assert(body@ =~= record_body(op, payload@));
    let check: u32 = body_checksum(body.as_slice());
    let len: u32 = (1 + payload.len() as u64) as u32;
    put_u32(out, len);
    put_u32(out, check);
    put_slice(out, body.as_slice());
    assert(out@ =~= old(out)@ + frame(op, payload@));
}

/// Scans a whole journal buffer into records.
pub fn scan<'a>(journal: &'a [u8]) -> (r: Result<JournalScan<'a>, Error>)
    ensures
        parse::agrees(r, scanned(journal@)),
{
    let mut entries: Vec<JournalEntry<'a>> = Vec::new();
    let mut pos: usize = 0;
    proof {
        assert(journal@.skip(0) =~= journal@);
        assert(entry_views(entries@) =~= Seq::empty());
        if scanned(journal@) is Ok {
            let (more, torn) = scanned(journal@)->Ok_0;
            assert(Seq::<(u8, Seq<u8>)>::empty() + more =~= more);
        }
    }
    while pos < journal.len()
        invariant
            pos <= journal@.len(),
            scanned(journal@) == after(
                entry_views(entries@),
                scanned(journal@.skip(pos as int)),
            ),
        decreases journal@.len() - pos,
    {
        let ghost rest = journal@.skip(pos as int);
        let ghost seen = entry_views(entries@);
        assert(seen + Seq::<(u8, Seq<u8>)>::empty() =~= seen);
        let left: usize = journal.len() - pos;
        if left < HEADER {
            return Ok(JournalScan { entries, truncated_tail: true });
        }
        let len: u32 = get_u32(journal, pos);
        assert(journal@.subrange(pos as int, pos + 4) =~= rest.subrange(0, 4));
        if len == 0 {
            return Err(Error::Corrupt("journal record with zero length"));
        }
        if len as u64 > (left - HEADER) as u64 {
            return Ok(JournalScan { entries, truncated_tail: true });
        }
        let end: usize = pos + HEADER + len as usize;
        let body: &'a [u8] = &journal[pos + HEADER..end];
        let want: u32 = get_u32(journal, pos + 4);
        assert(journal@.subrange(pos + 4, pos + 8) =~= rest.subrange(4, 8));
        assert(body@ =~= rest.subrange(8, 8 + len as int));
        assert(journal@.skip(end as int) =~= rest.skip(8 + len as int));
        if body_checksum(body) != want {
            if end == journal.len() {
                return Ok(JournalScan { entries, truncated_tail: true });
            }
            return Err(Error::Corrupt("journal checksum mismatch mid-stream"));
        }
        let entry: JournalEntry<'a> = JournalEntry { op: body[0], payload: &body[1..body.len()] };
        assert(entry.payload@ =~= body@.skip(1));
        entries.push(entry);
        proof {
            assert(entry_views(entries@) =~= seen + seq![entry@]);
            if scanned(rest.skip(8 + len as int)) is Ok {
                let (more, torn) = scanned(rest.skip(8 + len as int))->Ok_0;
                assert(seen + (seq![entry@] + more) =~= (seen + seq![entry@]) + more);
            }
        }
        pos = end;
    }
    assert(journal@.skip(pos as int) =~= Seq::empty());
    assert(entry_views(entries@) + Seq::<(u8, Seq<u8>)>::empty() =~= entry_views(entries@));
    Ok(JournalScan { entries, truncated_tail: false })
}

/// The record at the front of `frame(op, payload) + rest` is read first.
proof fn lemma_scan_frame(op: u8, payload: Seq<u8>, rest: Seq<u8>)
    requires
        payload.len() < u32::MAX,
    ensures
        scanned(frame(op, payload) + rest) == after(seq![(op, payload)], scanned(rest)),
        frame(op, payload).len() == HEADER + 1 + payload.len(),
        record_len(frame(op, payload)) == 1 + payload.len(),
{
    let body = record_body(op, payload);
    let len = (1 + payload.len()) as u32;
    let check = hash::xxh3(body) as u32;
    let whole = frame(op, payload) + rest;
    codec::lemma_pow256();
    codec::lemma_le_round_trip(len as nat, 4);
    codec::lemma_le_round_trip(check as nat, 4);
    assert(whole.subrange(0, 4) =~= codec::le32(len));
    assert(frame(op, payload).subrange(0, 4) =~= codec::le32(len));
    assert(whole.subrange(4, 8) =~= codec::le32(check));
    assert(whole.subrange(8, 8 + len as int) =~= body);
    assert(whole.skip(8 + len as int) =~= rest);
    assert(body.skip(1) =~= payload);
}

/// Every record of `entries` has a payload that a frame can carry.
pub open spec fn frameable(entries: Seq<(u8, Seq<u8>)>) -> bool {
    forall|i: int| 0 <= i < entries.len() ==> (#[trigger] entries[i]).1.len() < u32::MAX
}

proof fn lemma_scan_journal(entries: Seq<(u8, Seq<u8>)>, tail: Seq<u8>)
    requires
        frameable(entries),
    ensures
        scanned(journal_of(entries) + tail) == after(entries, scanned(tail)),
    decreases entries.len(),
{
    if entries.len() == 0 {
        assert(journal_of(entries) + tail =~= tail);
        if scanned(tail) is Ok {
            assert(entries + scanned(tail)->Ok_0.0 =~= scanned(tail)->Ok_0.0);
        }
    } else {
        let init = entries.drop_last();
        let (op, payload) = entries.last();
        let piece = frame(op, payload);
        assert(journal_of(entries) == journal_of(init) + piece);
        assert((journal_of(init) + piece) + tail =~= journal_of(init) + (piece + tail));
        assert forall|i: int| 0 <= i < init.len() implies (#[trigger] init[i]).1.len()
            < u32::MAX by {
            assert(init[i] == entries[i]);
        }
        lemma_scan_journal(init, piece + tail);
        lemma_scan_frame(op, payload, tail);
        if scanned(tail) is Ok {
            let more = scanned(tail)->Ok_0.0;
            assert(init + (seq![(op, payload)] + more) =~= entries + more);
        }
    }
}

/// A journal reads back as exactly the records appended to it, in order, with
/// no torn tail.
pub proof fn journal_round_trip(entries: Seq<(u8, Seq<u8>)>)
    requires
        frameable(entries),
    ensures
        scanned(journal_of(entries)) == Ok::<_, Error>((entries, false)),
{
    lemma_scan_journal(entries, Seq::empty());
    assert(journal_of(entries) + Seq::<u8>::empty() =~= journal_of(entries));
    assert(entries + Seq::<(u8, Seq<u8>)>::empty() =~= entries);
}

/// A crash that leaves a proper prefix of the last record loses that record
/// and no other: the scan succeeds with everything before it.
pub proof fn torn_tail_is_dropped(
    entries: Seq<(u8, Seq<u8>)>,
    op: u8,
    payload: Seq<u8>,
    kept: int,
)
    requires
        frameable(entries),
        payload.len() < u32::MAX,
        0 < kept < frame(op, payload).len(),
    ensures
        scanned(journal_of(entries) + frame(op, payload).take(kept)) == Ok::<_, Error>(
            (entries, true),
        ),
{
    let whole = frame(op, payload);
    let tail = whole.take(kept);
    lemma_scan_frame(op, payload, Seq::empty());
    if kept >= HEADER {
        assert(tail.subrange(0, 4) =~= whole.subrange(0, 4));
    }
    lemma_scan_journal(entries, tail);
    assert(entries + Seq::<(u8, Seq<u8>)>::empty() =~= entries);
}

/// A complete last record whose checksum does not match is a torn tail too.
pub proof fn torn_payload_is_dropped(entries: Seq<(u8, Seq<u8>)>, last: Seq<u8>)
    requires
        frameable(entries),
        last.len() >= HEADER + 1,
        record_len(last) == last.len() - HEADER,
        hash::xxh3(last.skip(8)) as u32 as nat != codec::le_nat(last.subrange(4, 8)),
    ensures
        scanned(journal_of(entries) + last) == Ok::<_, Error>((entries, true)),
{
    lemma_scan_journal(entries, last);
    assert(last.subrange(8, last.len() as int) =~= last.skip(8));
    assert(entries + Seq::<(u8, Seq<u8>)>::empty() =~= entries);
}

/// One decoded engine operation. `Revise` is `Remember` with `revises` set:
/// the two share a payload, only the op byte differs.
#[derive(Clone, Debug, PartialEq, Eq)]
pub enum Op<'a> {
    /// Op 1/2: a new fact (op 2 additionally closes `revises`).
    Remember {
        /// Host timestamp of the operation.
        now: u64,
        /// Resolved validity start.
        valid_from: u64,
        /// Subject entity name, if any.
        entity: Option<&'a str>,
        /// Fact text.
        text: &'a str,
        /// Tags, verbatim.
        tags: Vec<&'a str>,
        /// `(rel, target_entity)` link pairs.
        links: Vec<(&'a str, &'a str)>,
        /// The raw embedding as remembered, one IEEE 754 bit pattern per
        /// component (empty = none).
        vector: Vec<u32>,
        /// Metadata key-value pairs as remembered (empty = none).
        metadata: Vec<(&'a str, &'a str)>,
        /// Predecessor being revised (the sentinel for op 1).
        revises: FactId,
        /// The fact id assigned at execution time, authoritative on replay.
        assigned: FactId,
    },
    /// Op 3: tombstone a fact.
    Forget {
        /// Host timestamp of the operation.
        now: u64,
        /// The fact being forgotten.
        fact: FactId,
    },
    /// Op 4: upsert a typed edge between two entities.
    Link {
        /// Host timestamp of the operation.
        now: u64,
        /// Source entity name.
        src: &'a str,
        /// Relation term, verbatim.
        rel: &'a str,
        /// Destination entity name.
        dst: &'a str,
        /// Provenance fact, or the sentinel.
        provenance: FactId,
    },
    /// Op 5: marker that a maintenance pass ran at this point.
    Maintain {
        /// Host timestamp of the operation.
        now: u64,
        /// Maintenance mode encoded by the engine.
        mode: u8,
        /// HNSW insertion budget, or `u32::MAX` for unlimited.
        max_hnsw_inserts: u32,
    },
    /// Op 6: close the current typed edge between two entities.
    Unlink {
        /// Host timestamp of the operation.
        now: u64,
        /// Source entity name.
        src: &'a str,
        /// Relation term, verbatim.
        rel: &'a str,
        /// Destination entity name.
        dst: &'a str,
    },
    /// Op 7: remove one tag from every current fact by creating revisions.
    RemoveTag {
        /// Host timestamp used as every successor's validity start.
        now: u64,
        /// Verbatim tag name.
        tag: &'a str,
    },
}

/// An operation as a mathematical value: strings as character sequences.
pub enum OpView {
    Remember {
        now: u64,
        valid_from: u64,
        entity: Option<Seq<char>>,
        text: Seq<char>,
        tags: Seq<Seq<char>>,
        links: Seq<(Seq<char>, Seq<char>)>,
        vector: Seq<u32>,
        metadata: Seq<(Seq<char>, Seq<char>)>,
        revises: FactId,
        assigned: FactId,
    },
    Forget { now: u64, fact: FactId },
    Link { now: u64, src: Seq<char>, rel: Seq<char>, dst: Seq<char>, provenance: FactId },
    Maintain { now: u64, mode: u8, max_hnsw_inserts: u32 },
    Unlink { now: u64, src: Seq<char>, rel: Seq<char>, dst: Seq<char> },
    RemoveTag { now: u64, tag: Seq<char> },
}

pub open spec fn str_views(xs: Seq<&str>) -> Seq<Seq<char>> {
    xs.map_values(|x: &str| x@)
}

pub open spec fn pair_views(xs: Seq<(&str, &str)>) -> Seq<(Seq<char>, Seq<char>)> {
    xs.map_values(|x: (&str, &str)| (x.0@, x.1@))
}

pub open spec fn opt_view(x: Option<&str>) -> Option<Seq<char>> {
    match x {
        Some(s) => Some(s@),
        None => None,
    }
}

impl<'a> View for Op<'a> {
    type V = OpView;

    open spec fn view(&self) -> OpView {
        match self {
            Op::Remember {
                now,
                valid_from,
                entity,
                text,
                tags,
                links,
                vector,
                metadata,
                revises,
                assigned,
            } => OpView::Remember {
                now: *now,
                valid_from: *valid_from,
                entity: opt_view(*entity),
                text: text@,
                tags: str_views(tags@),
                links: pair_views(links@),
                vector: vector@,
                metadata: pair_views(metadata@),
                revises: *revises,
                assigned: *assigned,
            },
            Op::Forget { now, fact } => OpView::Forget { now: *now, fact: *fact },
            Op::Link { now, src, rel, dst, provenance } => OpView::Link {
                now: *now,
                src: src@,
                rel: rel@,
                dst: dst@,
                provenance: *provenance,
            },
            Op::Maintain { now, mode, max_hnsw_inserts } => OpView::Maintain {
                now: *now,
                mode: *mode,
                max_hnsw_inserts: *max_hnsw_inserts,
            },
            Op::Unlink { now, src, rel, dst } => OpView::Unlink {
                now: *now,
                src: src@,
                rel: rel@,
                dst: dst@,
            },
            Op::RemoveTag { now, tag } => OpView::RemoveTag { now: *now, tag: tag@ },
        }
    }
}

/// A length-prefixed string.
pub open spec fn enc_str(s: Seq<char>) -> Seq<u8> {
    codec::le32(encode_utf8(s).len() as u32) + encode_utf8(s)
}

pub open spec fn enc_pair(p: (Seq<char>, Seq<char>)) -> Seq<u8> {
    enc_str(p.0) + enc_str(p.1)
}

pub open spec fn enc_strs(xs: Seq<Seq<char>>) -> Seq<u8> {
    parse::flat(|s: Seq<char>| enc_str(s), xs)
}

pub open spec fn enc_pairs(xs: Seq<(Seq<char>, Seq<char>)>) -> Seq<u8> {
    parse::flat(|p: (Seq<char>, Seq<char>)| enc_pair(p), xs)
}

pub open spec fn enc_u32s(xs: Seq<u32>) -> Seq<u8> {
    parse::flat(|x: u32| codec::le32(x), xs)
}

pub open spec fn enc_opt_str(s: Option<Seq<char>>) -> Seq<u8> {
    match s {
        Some(name) => seq![1u8] + enc_str(name),
        None => seq![0u8],
    }
}

/// The op byte of an operation.
pub open spec fn op_tag(op: OpView) -> u8 {
    match op {
        OpView::Remember { revises, .. } => if revises.0 == id::NONE_U32 { 1 } else { 2 },
        OpView::Forget { .. } => 3,
        OpView::Link { .. } => 4,
        OpView::Maintain { .. } => 5,
        OpView::Unlink { .. } => 6,
        OpView::RemoveTag { .. } => 7,
    }
}

/// The payload bytes of an operation.
pub open spec fn op_payload(op: OpView) -> Seq<u8> {
    match op {
        OpView::Remember {
            now,
            valid_from,
            entity,
            text,
            tags,
            links,
            vector,
            metadata,
            revises,
            assigned,
        } => codec::le64(now) + codec::le64(valid_from) + codec::le32(revises.0) + codec::le32(
            assigned.0,
        ) + enc_opt_str(entity) + enc_str(text) + seq![tags.len() as u8] + enc_strs(tags)
            + seq![links.len() as u8] + enc_pairs(links) + codec::le32(vector.len() as u32)
            + enc_u32s(vector) + codec::le32(metadata.len() as u32) + enc_pairs(metadata),
        OpView::Forget { now, fact } => codec::le64(now) + codec::le32(fact.0),
        OpView::Link { now, src, rel, dst, provenance } => codec::le64(now) + codec::le32(
            provenance.0,
        ) + enc_str(src) + enc_str(rel) + enc_str(dst),
        OpView::Maintain { now, mode, max_hnsw_inserts } => codec::le64(now) + seq![mode]
            + codec::le32(max_hnsw_inserts),
        OpView::Unlink { now, src, rel, dst } => codec::le64(now) + enc_str(src) + enc_str(rel)
            + enc_str(dst),
        OpView::RemoveTag { now, tag } => codec::le64(now) + enc_str(tag),
    }
}

/// Appends a length-prefixed string.
fn put_str(out: &mut Vec<u8>, s: &str)
    ensures
        final(out)@ == old(out)@ + enc_str(s@),
{
    let bytes = s.as_bytes();
    put_u32(out, bytes.len() as u32);
    put_slice(out, bytes);
    assert(out@ =~= old(out)@ + enc_str(s@));
}

fn put_strs(out: &mut Vec<u8>, xs: &Vec<&str>)
    ensures
        final(out)@ == old(out)@ + enc_strs(str_views(xs@)),
{
    let mut i: usize = 0;
    let ghost enc = |s: Seq<char>| enc_str(s);
    assert(out@ + Seq::<u8>::empty() =~= out@);
    assert(str_views(xs@).take(0) =~= Seq::empty());
    while i < xs.len()
        invariant
            i <= xs@.len(),
            enc == (|s: Seq<char>| enc_str(s)),
            out@ == old(out)@ + parse::flat(enc, str_views(xs@).take(i as int)),
        decreases xs@.len() - i,
    {
        put_str(out, xs[i]);
        proof {
            let views = str_views(xs@);
            assert(views.take(i + 1) =~= views.take(i as int).push(views[i as int]));
            parse::lemma_flat_push(enc, views.take(i as int), views[i as int]);
            assert(out@ =~= old(out)@ + parse::flat(enc, views.take(i + 1)));
        }
        i = i + 1;
    }
    assert(str_views(xs@).take(i as int) =~= str_views(xs@));
}

fn put_pairs(out: &mut Vec<u8>, xs: &Vec<(&str, &str)>)
    ensures
        final(out)@ == old(out)@ + enc_pairs(pair_views(xs@)),
{
    let mut i: usize = 0;
    let ghost enc = |p: (Seq<char>, Seq<char>)| enc_pair(p);
    assert(out@ + Seq::<u8>::empty() =~= out@);
    assert(pair_views(xs@).take(0) =~= Seq::empty());
    while i < xs.len()
        invariant
            i <= xs@.len(),
            enc == (|p: (Seq<char>, Seq<char>)| enc_pair(p)),
            out@ == old(out)@ + parse::flat(enc, pair_views(xs@).take(i as int)),
        decreases xs@.len() - i,
    {
        put_str(out, xs[i].0);
        put_str(out, xs[i].1);
        proof {
            let views = pair_views(xs@);
            assert(views.take(i + 1) =~= views.take(i as int).push(views[i as int]));
            parse::lemma_flat_push(enc, views.take(i as int), views[i as int]);
            assert(out@ =~= old(out)@ + parse::flat(enc, views.take(i + 1)));
        }
        i = i + 1;
    }
    assert(pair_views(xs@).take(i as int) =~= pair_views(xs@));
}

impl<'a> Op<'a> {
    /// Encodes the operation as one framed journal entry appended to `out`.
    pub fn encode(&self, out: &mut Vec<u8>)
        requires
            op_payload(self@).len() < u32::MAX,
        ensures
            final(out)@ == old(out)@ + frame(op_tag(self@), op_payload(self@)),
    {
        let mut payload: Vec<u8> = Vec::new();
        let op: u8 = match self {
            Op::Remember {
                now,
                valid_from,
                entity,
                text,
                tags,
                links,
                vector,
                metadata,
                revises,
                assigned,
            } => {
                put_u64(&mut payload, *now);
                put_u64(&mut payload, *valid_from);
                put_u32(&mut payload, revises.0);
                put_u32(&mut payload, assigned.0);
                match entity {
                    Some(name) => {
                        payload.push(1);
                        put_str(&mut payload, name);
                    },
                    None => payload.push(0),
                }
                put_str(&mut payload, text);
                payload.push(tags.len() as u8);
                put_strs(&mut payload, tags);
                payload.push(links.len() as u8);
                put_pairs(&mut payload, links);
                put_u32(&mut payload, vector.len() as u32);
                parse::put_u32s(&mut payload, vector);
                put_u32(&mut payload, metadata.len() as u32);
                put_pairs(&mut payload, metadata);
                if revises.is_none() { 1 } else { 2 }
            },
            Op::Forget { now, fact } => {
                put_u64(&mut payload, *now);
                put_u32(&mut payload, fact.0);
                3
            },
            Op::Link { now, src, rel, dst, provenance } => {
                put_u64(&mut payload, *now);
                put_u32(&mut payload, provenance.0);
                put_str(&mut payload, src);
                put_str(&mut payload, rel);
                put_str(&mut payload, dst);
                4
            },
            Op::Maintain { now, mode, max_hnsw_inserts } => {
                put_u64(&mut payload, *now);
                payload.push(*mode);
                put_u32(&mut payload, *max_hnsw_inserts);
                5
            },
            Op::Unlink { now, src, rel, dst } => {
                put_u64(&mut payload, *now);
                put_str(&mut payload, src);
                put_str(&mut payload, rel);
                put_str(&mut payload, dst);
                6
            },
            Op::RemoveTag { now, tag } => {
                put_u64(&mut payload, *now);
                put_str(&mut payload, tag);
                7
            },
        };
        assert(payload@ =~= op_payload(self@));
        encode_entry(out, op, payload.as_slice());
    }
}

/// Reads a `u32`.
pub open spec fn rd_u32(b: Seq<u8>, at: int) -> Result<(u32, int), Error> {
    if at + 4 > b.len() {
        Err(Error::Corrupt("journal record truncated inside a field"))
    } else {
        Ok((codec::le_nat(b.subrange(at, at + 4)) as u32, at + 4))
    }
}

/// Reads a `u64`.
pub open spec fn rd_u64(b: Seq<u8>, at: int) -> Result<(u64, int), Error> {
    if at + 8 > b.len() {
        Err(Error::Corrupt("journal record truncated inside a field"))
    } else {
        Ok((codec::le_nat(b.subrange(at, at + 8)) as u64, at + 8))
    }
}

/// Reads one byte.
pub open spec fn rd_u8(b: Seq<u8>, at: int) -> Result<(u8, int), Error> {
    if at >= b.len() {
        Err(Error::Corrupt("journal record truncated inside a field"))
    } else {
        Ok((b[at], at + 1))
    }
}

/// Reads a length-prefixed string.
pub open spec fn rd_str(b: Seq<u8>, at: int) -> Result<(Seq<char>, int), Error> {
    match rd_u32(b, at) {
        Err(e) => Err(e),
        Ok((len, p)) => if p + len > b.len() {
            Err(Error::Corrupt("journal string overruns its record"))
        } else if !valid_utf8(b.subrange(p, p + len)) {
            Err(Error::Corrupt("journal string is not UTF-8"))
        } else {
            Ok((decode_utf8(b.subrange(p, p + len)), p + len))
        },
    }
}

/// Reads two strings.
pub open spec fn rd_pair(b: Seq<u8>, at: int) -> Result<((Seq<char>, Seq<char>), int), Error> {
    match rd_str(b, at) {
        Err(e) => Err(e),
        Ok((x, p)) => match rd_str(b, p) {
            Err(e) => Err(e),
            Ok((y, q)) => Ok(((x, y), q)),
        },
    }
}

/// Reads a counted vector of 32-bit patterns.
pub open spec fn rd_vector(b: Seq<u8>, at: int) -> Result<(Seq<u32>, int), Error> {
    match rd_u32(b, at) {
        Err(e) => Err(e),
        Ok((count, p)) => if p + 4 * count > b.len() {
            Err(Error::Corrupt("journal vector overruns its record"))
        } else {
            parse::rd_list(|q: int| rd_u32(b, q), p, count as nat)
        },
    }
}

/// Reads the optional entity name: a flag byte, then the name if it is 1.
pub open spec fn rd_opt_str(b: Seq<u8>, at: int) -> Result<(Option<Seq<char>>, int), Error> {
    if at < b.len() && b[at] == 0 {
        Ok((None, at + 1))
    } else if at < b.len() && b[at] == 1 {
        match rd_str(b, at + 1) {
            Err(e) => Err(e),
            Ok((s, p)) => Ok((Some(s), p)),
        }
    } else {
        Err(Error::Corrupt("journal entity flag is invalid"))
    }
}

/// Reads a counted list of strings, the count in one byte.
pub open spec fn rd_strs(b: Seq<u8>, at: int) -> Result<(Seq<Seq<char>>, int), Error> {
    match rd_u8(b, at) {
        Err(e) => Err(e),
        Ok((n, p)) => parse::rd_list(|q: int| rd_str(b, q), p, n as nat),
    }
}

/// Reads a counted list of string pairs, the count in one byte.
pub open spec fn rd_links(b: Seq<u8>, at: int) -> Result<
    (Seq<(Seq<char>, Seq<char>)>, int),
    Error,
> {
    match rd_u8(b, at) {
        Err(e) => Err(e),
        Ok((n, p)) => parse::rd_list(|q: int| rd_pair(b, q), p, n as nat),
    }
}

/// Reads a counted list of string pairs, the count in four bytes.
pub open spec fn rd_meta(b: Seq<u8>, at: int) -> Result<
    (Seq<(Seq<char>, Seq<char>)>, int),
    Error,
> {
    match rd_u32(b, at) {
        Err(e) => Err(e),
        Ok((n, p)) => parse::rd_list(|q: int| rd_pair(b, q), p, n as nat),
    }
}

/// Reads the variable part of a remember payload.
pub open spec fn rd_remember_tail(
    b: Seq<u8>,
    at: int,
    now: u64,
    valid_from: u64,
    revises: FactId,
    assigned: FactId,
) -> Result<(OpView, int), Error> {
    match rd_opt_str(b, at) {
        Err(e) => Err(e),
        Ok((entity, p1)) => match rd_str(b, p1) {
            Err(e) => Err(e),
            Ok((text, p2)) => match rd_strs(b, p2) {
                Err(e) => Err(e),
                Ok((tags, p3)) => match rd_links(b, p3) {
                    Err(e) => Err(e),
                    Ok((links, p4)) => match rd_vector(b, p4) {
                        Err(e) => Err(e),
                        Ok((vector, p5)) => match rd_meta(b, p5) {
                            Err(e) => Err(e),
                            Ok((metadata, p6)) => Ok(
                                (
                                    OpView::Remember {
                                        now,
                                        valid_from,
                                        entity,
                                        text,
                                        tags,
                                        links,
                                        vector,
                                        metadata,
                                        revises,
                                        assigned,
                                    },
                                    p6,
                                ),
                            ),
                        },
                    },
                },
            },
        },
    }
}

/// Reads a remember payload; `op` tells a plain one from a revision.
pub open spec fn rd_remember(op: u8, b: Seq<u8>) -> Result<(OpView, int), Error> {
    match rd_u64(b, 0) {
        Err(e) => Err(e),
        Ok((now, p1)) => match rd_u64(b, p1) {
            Err(e) => Err(e),
            Ok((valid_from, p2)) => match rd_u32(b, p2) {
                Err(e) => Err(e),
                Ok((revises, p3)) => match rd_u32(b, p3) {
                    Err(e) => Err(e),
                    Ok((assigned, p4)) => if (op == 2) == (revises == id::NONE_U32) {
                        Err(Error::Corrupt("journal revises field disagrees with op"))
                    } else {
                        rd_remember_tail(b, p4, now, valid_from, FactId(revises), FactId(assigned))
                    },
                },
            },
        },
    }
}

/// Reads three strings.
pub open spec fn rd_triple(b: Seq<u8>, at: int) -> Result<
    ((Seq<char>, Seq<char>, Seq<char>), int),
    Error,
> {
    match rd_str(b, at) {
        Err(e) => Err(e),
        Ok((x, p)) => match rd_str(b, p) {
            Err(e) => Err(e),
            Ok((y, q)) => match rd_str(b, q) {
                Err(e) => Err(e),
                Ok((z, r)) => Ok(((x, y, z), r)),
            },
        },
    }
}

/// Reads the payload of any operation, up to the end of its last field.
pub open spec fn rd_op(op: u8, b: Seq<u8>) -> Result<(OpView, int), Error> {
    if op == 1 || op == 2 {
        rd_remember(op, b)
    } else if op == 0 || op > 7 {
        Err(Error::Corrupt("unknown journal op"))
    } else {
        match rd_u64(b, 0) {
            Err(e) => Err(e),
            Ok((now, p)) => if op == 3 {
                match rd_u32(b, p) {
                    Err(e) => Err(e),
                    Ok((fact, q)) => Ok((OpView::Forget { now, fact: FactId(fact) }, q)),
                }
            } else if op == 4 {
                match rd_u32(b, p) {
                    Err(e) => Err(e),
                    Ok((prov, q)) => match rd_triple(b, q) {
                        Err(e) => Err(e),
                        Ok(((src, rel, dst), r)) => Ok(
                            (OpView::Link { now, src, rel, dst, provenance: FactId(prov) }, r),
                        ),
                    },
                }
            } else if op == 5 {
                if p == b.len() {
                    Ok((OpView::Maintain { now, mode: 0, max_hnsw_inserts: u32::MAX }, p))
                } else {
                    match rd_u8(b, p) {
                        Err(e) => Err(e),
                        Ok((mode, q)) => match rd_u32(b, q) {
                            Err(e) => Err(e),
                            Ok((max, r)) => Ok(
                                (OpView::Maintain { now, mode, max_hnsw_inserts: max }, r),
                            ),
                        },
                    }
                }
            } else if op == 6 {
                match rd_triple(b, p) {
                    Err(e) => Err(e),
                    Ok(((src, rel, dst), r)) => Ok((OpView::Unlink { now, src, rel, dst }, r)),
                }
            } else {
                match rd_str(b, p) {
                    Err(e) => Err(e),
                    Ok((tag, q)) => Ok((OpView::RemoveTag { now, tag }, q)),
                }
            },
        }
    }
}

/// The operation a payload denotes: its fields fill the payload exactly.
pub open spec fn decoded(op: u8, b: Seq<u8>) -> Result<OpView, Error> {
    match rd_op(op, b) {
        Err(e) => Err(e),
        Ok((v, end)) => if end != b.len() {
            Err(Error::Corrupt("journal record has trailing bytes"))
        } else {
            Ok(v)
        },
    }
}

fn take_u8(bytes: &[u8], at: usize) -> (r: Result<(u8, usize), Error>)
    ensures
        r == (match rd_u8(bytes@, at as int) {
            Ok((v, p)) => Ok((v, p as usize)),
            Err(e) => Err(e),
        }),
        r matches Ok((v, p)) ==> p == at + 1 <= bytes@.len(),
{
    if at >= bytes.len() {
        return Err(Error::Corrupt("journal record truncated inside a field"));
    }
    Ok((bytes[at], at + 1))
}

/// Reads a `u32`.
fn take_u32(bytes: &[u8], at: usize) -> (r: Result<(u32, usize), Error>)
    requires
        at <= bytes@.len(),
    ensures
        match r {
            Ok((v, p)) => rd_u32(bytes@, at as int) == Ok::<_, Error>((v, p as int)) && p == at + 4
                && p <= bytes@.len(),
            Err(e) => rd_u32(bytes@, at as int) == Err::<(u32, int), _>(e),
        },
{
    if bytes.len() - at < 4 {
        return Err(Error::Corrupt("journal record truncated inside a field"));
    }
    Ok((get_u32(bytes, at), at + 4))
}

/// Reads a `u64`.
fn take_u64(bytes: &[u8], at: usize) -> (r: Result<(u64, usize), Error>)
    requires
        at <= bytes@.len(),
    ensures
        match r {
            Ok((v, p)) => rd_u64(bytes@, at as int) == Ok::<_, Error>((v, p as int)) && p == at + 8
                && p <= bytes@.len(),
            Err(e) => rd_u64(bytes@, at as int) == Err::<(u64, int), _>(e),
        },
{
    if bytes.len() - at < 8 {
        return Err(Error::Corrupt("journal record truncated inside a field"));
    }
    Ok((get_u64(bytes, at), at + 8))
}

/// Reads a length-prefixed string.
fn take_str<'a>(bytes: &'a [u8], at: usize) -> (r: Result<(&'a str, usize), Error>)
    requires
        at <= bytes@.len(),
    ensures
        parse::agrees_at(r, rd_str(bytes@, at as int)),
        r matches Ok((v, p)) ==> p <= bytes@.len(),
{
    let (len, p) = take_u32(bytes, at)?;
    if len as u64 > (bytes.len() - p) as u64 {
        return Err(Error::Corrupt("journal string overruns its record"));
    }
    let end: usize = p + len as usize;
    let piece: &'a [u8] = &bytes[p..end];
    assert(piece@ =~= bytes@.subrange(p as int, end as int));
    match str_from_utf8(piece) {
        None => Err(Error::Corrupt("journal string is not UTF-8")),
        Some(s) => Ok((s, end)),
    }
}

/// Reads `n` strings.
fn take_str_list<'a>(bytes: &'a [u8], at: usize, n: usize) -> (r: Result<
    (Vec<&'a str>, usize),
    Error,
>)
    requires
        at <= bytes@.len(),
    ensures
        match r {
            Ok((v, p)) => parse::rd_list(|q: int| rd_str(bytes@, q), at as int, n as nat) == Ok::<
                _,
                Error,
            >((str_views(v@), p as int)) && p <= bytes@.len(),
            Err(e) => parse::rd_list(|q: int| rd_str(bytes@, q), at as int, n as nat) == Err::<
                (Seq<Seq<char>>, int),
                _,
            >(e),
        },
{
    let ghost f = |q: int| rd_str(bytes@, q);
    let mut out: Vec<&'a str> = Vec::new();
    let mut p: usize = at;
    let mut i: usize = 0;
    assert(str_views(out@) =~= Seq::empty());
    while i < n
        invariant
            i <= n,
            p <= bytes@.len(),
            f == (|q: int| rd_str(bytes@, q)),
            parse::rd_list(f, at as int, i as nat) == Ok::<_, Error>(
                (str_views(out@), p as int),
            ),
        decreases n - i,
    {
        match take_str(bytes, p) {
            Err(e) => {
                proof {
                    assert(parse::rd_list(f, at as int, (i + 1) as nat) == Err::<
                        (Seq<Seq<char>>, int),
                        _,
                    >(e));
                    parse::lemma_list_err(f, at as int, (i + 1) as nat, n as nat);
                }
                return Err(e);
            },
            Ok((s, q)) => {
                let ghost before = str_views(out@);
                out.push(s);
                assert(str_views(out@) =~= before.push(s@));
                p = q;
            },
        }
        i = i + 1;
    }
    Ok((out, p))
}

/// Reads `n` pairs of strings.
fn take_pair_list<'a>(bytes: &'a [u8], at: usize, n: usize) -> (r: Result<
    (Vec<(&'a str, &'a str)>, usize),
    Error,
>)
    requires
        at <= bytes@.len(),
    ensures
        match r {
            Ok((v, p)) => parse::rd_list(|q: int| rd_pair(bytes@, q), at as int, n as nat)
                == Ok::<_, Error>((pair_views(v@), p as int)) && p <= bytes@.len(),
            Err(e) => parse::rd_list(|q: int| rd_pair(bytes@, q), at as int, n as nat) == Err::<
                (Seq<(Seq<char>, Seq<char>)>, int),
                _,
            >(e),
        },
{
    let ghost f = |q: int| rd_pair(bytes@, q);
    let mut out: Vec<(&'a str, &'a str)> = Vec::new();
    let mut p: usize = at;
    let mut i: usize = 0;
    assert(pair_views(out@) =~= Seq::empty());
    while i < n
        invariant
            i <= n,
            p <= bytes@.len(),
            f == (|q: int| rd_pair(bytes@, q)),
            parse::rd_list(f, at as int, i as nat) == Ok::<_, Error>(
                (pair_views(out@), p as int),
            ),
        decreases n - i,
    {
        match take_pair(bytes, p) {
            Err(e) => {
                proof {
                    assert(parse::rd_list(f, at as int, (i + 1) as nat) == Err::<
                        (Seq<(Seq<char>, Seq<char>)>, int),
                        _,
                    >(e));
                    parse::lemma_list_err(f, at as int, (i + 1) as nat, n as nat);
                }
                return Err(e);
            },
            Ok((x, y, q)) => {
                let ghost before = pair_views(out@);
                out.push((x, y));
                assert(pair_views(out@) =~= before.push((x@, y@)));
                p = q;
            },
        }
        i = i + 1;
    }
    Ok((out, p))
}

fn take_pair<'a>(bytes: &'a [u8], at: usize) -> (r: Result<(&'a str, &'a str, usize), Error>)
    requires
        at <= bytes@.len(),
    ensures
        match r {
            Ok((x, y, p)) => rd_pair(bytes@, at as int) == Ok::<_, Error>(((x@, y@), p as int))
                && p <= bytes@.len(),
            Err(e) => rd_pair(bytes@, at as int) == Err::<((Seq<char>, Seq<char>), int), _>(e),
        },
{
    let (x, p) = take_str(bytes, at)?;
    let (y, q) = take_str(bytes, p)?;
    Ok((x, y, q))
}

/// Reads a counted vector of 32-bit patterns.
fn take_vector(bytes: &[u8], at: usize) -> (r: Result<(Vec<u32>, usize), Error>)
    requires
        at <= bytes@.len(),
    ensures
        parse::agrees_at(r, rd_vector(bytes@, at as int)),
        r matches Ok((v, p)) ==> p <= bytes@.len(),
{
    let (count, p0) = take_u32(bytes, at)?;
    let left: u64 = (bytes.len() - p0) as u64;
    if count as u64 * 4 > left {
        return Err(Error::Corrupt("journal vector overruns its record"));
    }
    let ghost f = |q: int| rd_u32(bytes@, q);
    let n: usize = count as usize;
    let total: usize = bytes.len();
    let mut out: Vec<u32> = Vec::new();
    let mut p: usize = p0;
    let mut i: usize = 0;
    while i < n
        invariant
            i <= n,
            p == p0 + 4 * i,
            p0 + 4 * n <= total,
            total == bytes@.len(),
            f == (|q: int| rd_u32(bytes@, q)),
            parse::rd_list(f, p0 as int, i as nat) == Ok::<_, Error>((out@, p as int)),
        decreases n - i,
    {
        let v: u32 = get_u32(bytes, p);
        out.push(v);
        p = p + 4;
        i = i + 1;
    }
    Ok((out, p))
}

fn take_triple<'a>(bytes: &'a [u8], at: usize) -> (r: Result<
    (&'a str, &'a str, &'a str, usize),
    Error,
>)
    requires
        at <= bytes@.len(),
    ensures
        match r {
            Ok((x, y, z, p)) => rd_triple(bytes@, at as int) == Ok::<_, Error>(
                ((x@, y@, z@), p as int),
            ) && p <= bytes@.len(),
            Err(e) => rd_triple(bytes@, at as int) == Err::<
                ((Seq<char>, Seq<char>, Seq<char>), int),
                _,
            >(e),
        },
{
    let (x, p) = take_str(bytes, at)?;
    let (y, q) = take_str(bytes, p)?;
    let (z, t) = take_str(bytes, q)?;
    Ok((x, y, z, t))
}

fn take_entity<'a>(bytes: &'a [u8], at: usize) -> (r: Result<(Option<&'a str>, usize), Error>)
    requires
        at <= bytes@.len(),
    ensures
        match r {
            Ok((x, p)) => rd_opt_str(bytes@, at as int) == Ok::<_, Error>(
                (opt_view(x), p as int),
            ) && p <= bytes@.len(),
            Err(e) => rd_opt_str(bytes@, at as int) == Err::<(Option<Seq<char>>, int), _>(e),
        },
{
    if at < bytes.len() && bytes[at] == 0 {
        Ok((None, at + 1))
    } else if at < bytes.len() && bytes[at] == 1 {
        let (s, p) = take_str(bytes, at + 1)?;
        Ok((Some(s), p))
    } else {
        Err(Error::Corrupt("journal entity flag is invalid"))
    }
}

/// Reads a remember payload.
fn take_remember<'a>(op: u8, payload: &'a [u8]) -> (r: Result<(Op<'a>, usize), Error>)
    ensures
        parse::agrees_at(r, rd_remember(op, payload@)),
{
    let (now, p1) = take_u64(payload, 0)?;
    let (valid_from, p2) = take_u64(payload, p1)?;
    let (revises, p3) = take_u32(payload, p2)?;
    let (assigned, p4) = take_u32(payload, p3)?;
    if (op == 2) == (revises == id::NONE_U32) {
        return Err(Error::Corrupt("journal revises field disagrees with op"));
    }
    let (entity, p5) = take_entity(payload, p4)?;
    let (text, p6) = take_str(payload, p5)?;
    let (tag_cnt, p7) = take_u8(payload, p6)?;
    let (tags, p8) = take_str_list(payload, p7, tag_cnt as usize)?;
    let (link_cnt, p9) = take_u8(payload, p8)?;
    let (links, p10) = take_pair_list(payload, p9, link_cnt as usize)?;
    let (vector, p11) = take_vector(payload, p10)?;
    let (meta_cnt, p12) = take_u32(payload, p11)?;
    let (metadata, p13) = take_pair_list(payload, p12, meta_cnt as usize)?;
    Ok(
        (
            Op::Remember {
                now,
                valid_from,
                entity,
                text,
                tags,
                links,
                vector,
                metadata,
                revises: FactId(revises),
                assigned: FactId(assigned),
            },
            p13,
        ),
    )
}

/// Reads the payload of any operation, up to the end of its last field.
fn take_op<'a>(op: u8, payload: &'a [u8]) -> (r: Result<(Op<'a>, usize), Error>)
    ensures
        parse::agrees_at(r, rd_op(op, payload@)),
{
    if op == 1 || op == 2 {
        return take_remember(op, payload);
    }
    if op == 0 || op > 7 {
        return Err(Error::Corrupt("unknown journal op"));
    }
    let (now, p) = take_u64(payload, 0)?;
    if op == 3 {
        let (fact, q) = take_u32(payload, p)?;
        Ok((Op::Forget { now, fact: FactId(fact) }, q))
    } else if op == 4 {
        let (prov, q) = take_u32(payload, p)?;
        let (src, rel, dst, t) = take_triple(payload, q)?;
        Ok((Op::Link { now, src, rel, dst, provenance: FactId(prov) }, t))
    } else if op == 5 {
        if p == payload.len() {
            Ok((Op::Maintain { now, mode: 0, max_hnsw_inserts: u32::MAX }, p))
        } else {
            let (mode, q) = take_u8(payload, p)?;
            let (max, t) = take_u32(payload, q)?;
            Ok((Op::Maintain { now, mode, max_hnsw_inserts: max }, t))
        }
    } else if op == 6 {
        let (src, rel, dst, t) = take_triple(payload, p)?;
        Ok((Op::Unlink { now, src, rel, dst }, t))
    } else {
        let (tag, q) = take_str(payload, p)?;
        Ok((Op::RemoveTag { now, tag }, q))
    }
}

impl<'a> Op<'a> {
    /// Decodes one operation from a scanned entry. The payload is untrusted
    /// (the checksum guards transport integrity, not origin): every read is
    /// bounds-checked, and malformed input is [`Error::Corrupt`].
    pub fn decode(op: u8, payload: &'a [u8]) -> (r: Result<Op<'a>, Error>)
        ensures
            parse::agrees(r, decoded(op, payload@)),
    {
        let (v, end) = take_op(op, payload)?;
        if end != payload.len() {
            return Err(Error::Corrupt("journal record has trailing bytes"));
        }
        Ok(v)
    }
}

/// A string whose encoding a length prefix can describe.
pub open spec fn str_fits(s: Seq<char>) -> bool {
    encode_utf8(s).len() <= u32::MAX
}

/// Every count and length of `op` fits the field that carries it.
pub open spec fn op_fits(op: OpView) -> bool {
    match op {
        OpView::Remember { entity, text, tags, links, vector, metadata, .. } => {
            &&& entity matches Some(s) ==> str_fits(s)
            &&& str_fits(text)
            &&& tags.len() <= 255
            &&& forall|i: int| 0 <= i < tags.len() ==> str_fits(#[trigger] tags[i])
            &&& links.len() <= 255
            &&& pairs_fit(links)
            &&& vector.len() <= u32::MAX
            &&& metadata.len() <= u32::MAX
            &&& pairs_fit(metadata)
        },
        OpView::Forget { .. } => true,
        OpView::Link { src, rel, dst, .. } => str_fits(src) && str_fits(rel) && str_fits(dst),
        OpView::Maintain { .. } => true,
        OpView::Unlink { src, rel, dst, .. } => str_fits(src) && str_fits(rel) && str_fits(dst),
        OpView::RemoveTag { tag, .. } => str_fits(tag),
    }
}

pub open spec fn pairs_fit(xs: Seq<(Seq<char>, Seq<char>)>) -> bool {
    forall|i: int|
        0 <= i < xs.len() ==> str_fits((#[trigger] xs[i]).0) && str_fits(xs[i].1)
}

proof fn lemma_u32_at(b: Seq<u8>, at: int, v: u32)
    requires
        codec::has_at(b, at, codec::le32(v)),
    ensures
        rd_u32(b, at) == Ok::<_, Error>((v, at + 4)),
        codec::le32(v).len() == 4,
{
    codec::lemma_pow256();
    codec::lemma_le_round_trip(v as nat, 4);
    codec::lemma_le_at(b, at, v as nat, 4);
}

proof fn lemma_u64_at(b: Seq<u8>, at: int, v: u64)
    requires
        codec::has_at(b, at, codec::le64(v)),
    ensures
        rd_u64(b, at) == Ok::<_, Error>((v, at + 8)),
        codec::le64(v).len() == 8,
{
    codec::lemma_pow256();
    codec::lemma_le_round_trip(v as nat, 8);
    codec::lemma_le_at(b, at, v as nat, 8);
}

proof fn lemma_u8_at(b: Seq<u8>, at: int, v: u8)
    requires
        codec::has_at(b, at, seq![v]),
    ensures
        rd_u8(b, at) == Ok::<_, Error>((v, at + 1)),
{
    reveal(codec::has_at);
    assert(b.subrange(at, at + 1)[0] == b[at]);
}

proof fn lemma_str_at(b: Seq<u8>, at: int, s: Seq<char>)
    requires
        str_fits(s),
        codec::has_at(b, at, enc_str(s)),
    ensures
        rd_str(b, at) == Ok::<_, Error>((s, at + enc_str(s).len())),
{
    reveal(codec::has_at);
    let bytes = encode_utf8(s);
    codec::lemma_has_split(b, at, codec::le32(bytes.len() as u32), bytes);
    lemma_u32_at(b, at, bytes.len() as u32);
    encode_utf8_valid_utf8(s);
    encode_utf8_decode_utf8(s);
}

proof fn lemma_pair_at(b: Seq<u8>, at: int, x: (Seq<char>, Seq<char>))
    requires
        str_fits(x.0),
        str_fits(x.1),
        codec::has_at(b, at, enc_pair(x)),
    ensures
        rd_pair(b, at) == Ok::<_, Error>((x, at + enc_pair(x).len())),
{
    codec::lemma_has_split(b, at, enc_str(x.0), enc_str(x.1));
    lemma_str_at(b, at, x.0);
    lemma_str_at(b, at + enc_str(x.0).len(), x.1);
}

proof fn lemma_pairs_at(b: Seq<u8>, at: int, xs: Seq<(Seq<char>, Seq<char>)>)
    requires
        pairs_fit(xs),
        codec::has_at(b, at, enc_pairs(xs)),
    ensures
        parse::rd_list(|q: int| rd_pair(b, q), at, xs.len()) == Ok::<_, Error>(
            (xs, at + enc_pairs(xs).len()),
        ),
{
    let enc = |p: (Seq<char>, Seq<char>)| enc_pair(p);
    let f = |q: int| rd_pair(b, q);
    assert forall|i: int, p: int|
        0 <= i < xs.len() && #[trigger] codec::has_at(b, p, enc(#[trigger] xs[i])) implies f(p)
        == Ok::<((Seq<char>, Seq<char>), int), Error>((xs[i], p + enc(xs[i]).len())) by {
        lemma_pair_at(b, p, xs[i]);
    }
    parse::lemma_list_round_trip(b, at, xs, enc, f);
}

proof fn lemma_strs_at(b: Seq<u8>, at: int, xs: Seq<Seq<char>>)
    requires
        forall|i: int| 0 <= i < xs.len() ==> str_fits(#[trigger] xs[i]),
        codec::has_at(b, at, enc_strs(xs)),
    ensures
        parse::rd_list(|q: int| rd_str(b, q), at, xs.len()) == Ok::<_, Error>(
            (xs, at + enc_strs(xs).len()),
        ),
{
    let enc = |s: Seq<char>| enc_str(s);
    let f = |q: int| rd_str(b, q);
    assert forall|i: int, p: int|
        0 <= i < xs.len() && #[trigger] codec::has_at(b, p, enc(#[trigger] xs[i])) implies f(p)
        == Ok::<(Seq<char>, int), Error>((xs[i], p + enc(xs[i]).len())) by {
        lemma_str_at(b, p, xs[i]);
    }
    parse::lemma_list_round_trip(b, at, xs, enc, f);
}

proof fn lemma_u32s_len(xs: Seq<u32>)
    ensures
        enc_u32s(xs).len() == 4 * xs.len(),
    decreases xs.len(),
{
    if xs.len() > 0 {
        lemma_u32s_len(xs.drop_last());
        codec::lemma_le_bytes_len(xs.last() as nat, 4);
    }
}

proof fn lemma_vector_at(b: Seq<u8>, at: int, xs: Seq<u32>)
    requires
        xs.len() <= u32::MAX,
        codec::has_at(b, at, codec::le32(xs.len() as u32)),
        codec::has_at(b, at + 4, enc_u32s(xs)),
    ensures
        rd_vector(b, at) == Ok::<_, Error>((xs, at + 4 + enc_u32s(xs).len())),
{
    lemma_u32_at(b, at, xs.len() as u32);
    lemma_u32s_len(xs);
    let enc = |x: u32| codec::le32(x);
    let f = |q: int| rd_u32(b, q);
    assert forall|i: int, p: int|
        0 <= i < xs.len() && #[trigger] codec::has_at(b, p, enc(#[trigger] xs[i])) implies f(p)
        == Ok::<(u32, int), Error>((xs[i], p + enc(xs[i]).len())) by {
        lemma_u32_at(b, p, xs[i]);
    }
    parse::lemma_list_round_trip(b, at + 4, xs, enc, f);
}

proof fn lemma_triple_at(b: Seq<u8>, at: int, x: Seq<char>, y: Seq<char>, z: Seq<char>)
    requires
        str_fits(x),
        str_fits(y),
        str_fits(z),
        codec::has_at(b, at, enc_str(x)),
        codec::has_at(b, at + enc_str(x).len(), enc_str(y)),
        codec::has_at(b, at + enc_str(x).len() + enc_str(y).len(), enc_str(z)),
    ensures
        rd_triple(b, at) == Ok::<_, Error>(
            ((x, y, z), at + enc_str(x).len() + enc_str(y).len() + enc_str(z).len()),
        ),
{
    lemma_str_at(b, at, x);
    lemma_str_at(b, at + enc_str(x).len(), y);
    lemma_str_at(b, at + enc_str(x).len() + enc_str(y).len(), z);
}

proof fn lemma_whole(b: Seq<u8>)
    ensures
        codec::has_at(b, 0, b),
{
    reveal(codec::has_at);
    assert(b.subrange(0, b.len() as int) =~= b);
}

proof fn lemma_remember_at(b: Seq<u8>, op: OpView)
    requires
        op is Remember,
        codec::has_at(b, 0, op_payload(op)),
        op_fits(op),
    ensures
        rd_op(op_tag(op), b) == Ok::<_, Error>((op, op_payload(op).len() as int)),
{
    if let OpView::Remember {
        now,
        valid_from,
        entity,
        text,
        tags,
        links,
        vector,
        metadata,
        revises,
        assigned,
    } = op {
        let s1 = codec::le64(now);
        let s2 = s1 + codec::le64(valid_from);
        let s3 = s2 + codec::le32(revises.0);
        let s4 = s3 + codec::le32(assigned.0);
        let s5 = s4 + enc_opt_str(entity);
        let s6 = s5 + enc_str(text);
        let s7 = s6 + seq![tags.len() as u8];
        let s8 = s7 + enc_strs(tags);
        let s9 = s8 + seq![links.len() as u8];
        let s10 = s9 + enc_pairs(links);
        let s11 = s10 + codec::le32(vector.len() as u32);
        let s12 = s11 + enc_u32s(vector);
        let s13 = s12 + codec::le32(metadata.len() as u32);
        let s14 = s13 + enc_pairs(metadata);
        assert(op_payload(op) == s14);
        codec::lemma_has_split(b, 0, s13, enc_pairs(metadata));
        codec::lemma_has_split(b, 0, s12, codec::le32(metadata.len() as u32));
        codec::lemma_has_split(b, 0, s11, enc_u32s(vector));
        codec::lemma_has_split(b, 0, s10, codec::le32(vector.len() as u32));
        codec::lemma_has_split(b, 0, s9, enc_pairs(links));
        codec::lemma_has_split(b, 0, s8, seq![links.len() as u8]);
        codec::lemma_has_split(b, 0, s7, enc_strs(tags));
        codec::lemma_has_split(b, 0, s6, seq![tags.len() as u8]);
        codec::lemma_has_split(b, 0, s5, enc_str(text));
        codec::lemma_has_split(b, 0, s4, enc_opt_str(entity));
        codec::lemma_has_split(b, 0, s3, codec::le32(assigned.0));
        codec::lemma_has_split(b, 0, s2, codec::le32(revises.0));
        codec::lemma_has_split(b, 0, s1, codec::le64(valid_from));
        lemma_u64_at(b, 0, now);
        lemma_u64_at(b, 8, valid_from);
        lemma_u32_at(b, 16, revises.0);
        lemma_u32_at(b, 20, assigned.0);
        let p = s4.len() as int;
        match entity {
            None => {
                lemma_u8_at(b, p, 0);
            },
            Some(name) => {
                codec::lemma_has_split(b, p, seq![1u8], enc_str(name));
                lemma_u8_at(b, p, 1);
                lemma_str_at(b, p + 1, name);
            },
        }
        assert(rd_opt_str(b, p) == Ok::<_, Error>((entity, s5.len() as int)));
        lemma_str_at(b, s5.len() as int, text);
        lemma_u8_at(b, s6.len() as int, tags.len() as u8);
        lemma_strs_at(b, s7.len() as int, tags);
        lemma_u8_at(b, s8.len() as int, links.len() as u8);
        lemma_pairs_at(b, s9.len() as int, links);
        codec::lemma_le_bytes_len(vector.len() as u32 as nat, 4);
        lemma_vector_at(b, s10.len() as int, vector);
        lemma_u32_at(b, s12.len() as int, metadata.len() as u32);
        lemma_pairs_at(b, s13.len() as int, metadata);
    }
}

/// An operation reads back from the front of a payload that starts with its
/// encoding.
proof fn lemma_op_at(b: Seq<u8>, op: OpView)
    requires
        op_fits(op),
        codec::has_at(b, 0, op_payload(op)),
    ensures
        rd_op(op_tag(op), b) == Ok::<_, Error>((op, op_payload(op).len() as int)),
{
    match op {
        OpView::Remember { .. } => {
            lemma_remember_at(b, op);
        },
        OpView::Forget { now, fact } => {
            codec::lemma_has_split(b, 0, codec::le64(now), codec::le32(fact.0));
            lemma_u64_at(b, 0, now);
            lemma_u32_at(b, 8, fact.0);
        },
        OpView::Link { now, src, rel, dst, provenance } => {
            let s1 = codec::le64(now);
            let s2 = s1 + codec::le32(provenance.0);
            let s3 = s2 + enc_str(src);
            let s4 = s3 + enc_str(rel);
            codec::lemma_has_split(b, 0, s4, enc_str(dst));
            codec::lemma_has_split(b, 0, s3, enc_str(rel));
            codec::lemma_has_split(b, 0, s2, enc_str(src));
            codec::lemma_has_split(b, 0, s1, codec::le32(provenance.0));
            lemma_u64_at(b, 0, now);
            lemma_u32_at(b, 8, provenance.0);
            lemma_triple_at(b, 12, src, rel, dst);
        },
        OpView::Maintain { now, mode, max_hnsw_inserts } => {
            let s1 = codec::le64(now);
            let s2 = s1 + seq![mode];
            codec::lemma_has_split(b, 0, s2, codec::le32(max_hnsw_inserts));
            codec::lemma_has_split(b, 0, s1, seq![mode]);
            lemma_u64_at(b, 0, now);
            lemma_u8_at(b, 8, mode);
            lemma_u32_at(b, 9, max_hnsw_inserts);
            assert(b.len() != 8);
        },
        OpView::Unlink { now, src, rel, dst } => {
            let s1 = codec::le64(now);
            let s2 = s1 + enc_str(src);
            let s3 = s2 + enc_str(rel);
            codec::lemma_has_split(b, 0, s3, enc_str(dst));
            codec::lemma_has_split(b, 0, s2, enc_str(rel));
            codec::lemma_has_split(b, 0, s1, enc_str(src));
            lemma_u64_at(b, 0, now);
            lemma_triple_at(b, 8, src, rel, dst);
        },
        OpView::RemoveTag { now, tag } => {
            codec::lemma_has_split(b, 0, codec::le64(now), enc_str(tag));
            lemma_u64_at(b, 0, now);
            lemma_str_at(b, 8, tag);
        },
    }
}

/// An operation survives its encoding: the payload written for it decodes,
/// under the op byte written for it, to the same operation.
pub proof fn op_round_trip(op: OpView)
    requires
        op_fits(op),
    ensures
        decoded(op_tag(op), op_payload(op)) == Ok::<_, Error>(op),
{
    lemma_whole(op_payload(op));
    lemma_op_at(op_payload(op), op);
}

proof fn lemma_u32_back(b: Seq<u8>, at: int)
    requires
        0 <= at,
        rd_u32(b, at) is Ok,
    ensures
        codec::has_at(b, at, codec::le32(rd_u32(b, at)->Ok_0.0)),
        codec::le32(rd_u32(b, at)->Ok_0.0).len() == 4,
{
    reveal(codec::has_at);
    codec::lemma_pow256();
    codec::lemma_le_nat_bound(b.subrange(at, at + 4));
}

proof fn lemma_u64_back(b: Seq<u8>, at: int)
    requires
        0 <= at,
        rd_u64(b, at) is Ok,
    ensures
        codec::has_at(b, at, codec::le64(rd_u64(b, at)->Ok_0.0)),
        codec::le64(rd_u64(b, at)->Ok_0.0).len() == 8,
{
    reveal(codec::has_at);
    codec::lemma_pow256();
    codec::lemma_le_nat_bound(b.subrange(at, at + 8));
}

proof fn lemma_u8_back(b: Seq<u8>, at: int)
    requires
        0 <= at < b.len(),
    ensures
        codec::has_at(b, at, seq![b[at]]),
{
    reveal(codec::has_at);
    assert(b.subrange(at, at + 1) =~= seq![b[at]]);
}

proof fn lemma_str_back(b: Seq<u8>, at: int)
    requires
        0 <= at,
        rd_str(b, at) is Ok,
    ensures
        codec::has_at(b, at, enc_str(rd_str(b, at)->Ok_0.0)),
        rd_str(b, at)->Ok_0.1 == at + enc_str(rd_str(b, at)->Ok_0.0).len(),
        rd_str(b, at)->Ok_0.1 <= b.len(),
        str_fits(rd_str(b, at)->Ok_0.0),
{
    lemma_u32_back(b, at);
    let len = rd_u32(b, at)->Ok_0.0;
    let piece = b.subrange(at + 4, at + 4 + len);
    decode_utf8_encode_utf8(piece);
    assert(codec::has_at(b, at + 4, piece)) by {
        reveal(codec::has_at);
    }
    codec::lemma_has_split(b, at, codec::le32(len), piece);
}

proof fn lemma_pair_back(b: Seq<u8>, at: int)
    requires
        0 <= at,
        rd_pair(b, at) is Ok,
    ensures
        codec::has_at(b, at, enc_pair(rd_pair(b, at)->Ok_0.0)),
        rd_pair(b, at)->Ok_0.1 == at + enc_pair(rd_pair(b, at)->Ok_0.0).len(),
        rd_pair(b, at)->Ok_0.1 <= b.len(),
        str_fits(rd_pair(b, at)->Ok_0.0.0),
        str_fits(rd_pair(b, at)->Ok_0.0.1),
{
    lemma_str_back(b, at);
    let (x, p) = rd_str(b, at)->Ok_0;
    lemma_str_back(b, p);
    codec::lemma_has_split(b, at, enc_str(x), enc_str(rd_str(b, p)->Ok_0.0));
}

proof fn lemma_triple_back(b: Seq<u8>, at: int)
    requires
        0 <= at,
        rd_triple(b, at) is Ok,
    ensures
        ({
            let ((x, y, z), p) = rd_triple(b, at)->Ok_0;
            &&& codec::has_at(b, at, enc_str(x))
            &&& codec::has_at(b, at + enc_str(x).len(), enc_str(y))
            &&& codec::has_at(b, at + enc_str(x).len() + enc_str(y).len(), enc_str(z))
            &&& p == at + enc_str(x).len() + enc_str(y).len() + enc_str(z).len()
            &&& str_fits(x)
            &&& str_fits(y)
            &&& str_fits(z)
        }),
{
    lemma_str_back(b, at);
    let p = rd_str(b, at)->Ok_0.1;
    lemma_str_back(b, p);
    lemma_str_back(b, rd_str(b, p)->Ok_0.1);
}

proof fn lemma_pairs_back(b: Seq<u8>, at: int, n: nat)
    requires
        0 <= at <= b.len(),
        parse::rd_list(|q: int| rd_pair(b, q), at, n) is Ok,
    ensures
        ({
            let (xs, p) = parse::rd_list(|q: int| rd_pair(b, q), at, n)->Ok_0;
            &&& codec::has_at(b, at, enc_pairs(xs))
            &&& p == at + enc_pairs(xs).len()
            &&& p <= b.len()
            &&& xs.len() == n
            &&& pairs_fit(xs)
        }),
{
    let enc = |p: (Seq<char>, Seq<char>)| enc_pair(p);
    let f = |q: int| rd_pair(b, q);
    assert forall|p: int| 0 <= p <= b.len() && (#[trigger] f(p)) is Ok implies codec::has_at(
        b,
        p,
        enc(f(p)->Ok_0.0),
    ) && f(p)->Ok_0.1 == p + enc(f(p)->Ok_0.0).len() && str_fits(f(p)->Ok_0.0.0) && str_fits(
        f(p)->Ok_0.0.1,
    ) by {
        lemma_pair_back(b, p);
    }
    parse::lemma_list_back(b, at, n, enc, f);
    let xs = parse::rd_list(f, at, n)->Ok_0.0;
    assert forall|i: int| 0 <= i < xs.len() implies str_fits((#[trigger] xs[i]).0) && str_fits(
        xs[i].1,
    ) by {
        let p = choose|p: int|
            0 <= p <= b.len() && (#[trigger] f(p)) is Ok && f(p)->Ok_0.0 == xs[i];
        assert(f(p) is Ok);
    }
    reveal(codec::has_at);
}

proof fn lemma_strs_back(b: Seq<u8>, at: int, n: nat)
    requires
        0 <= at <= b.len(),
        parse::rd_list(|q: int| rd_str(b, q), at, n) is Ok,
    ensures
        ({
            let (xs, p) = parse::rd_list(|q: int| rd_str(b, q), at, n)->Ok_0;
            &&& codec::has_at(b, at, enc_strs(xs))
            &&& p == at + enc_strs(xs).len()
            &&& p <= b.len()
            &&& xs.len() == n
            &&& forall|i: int| 0 <= i < xs.len() ==> str_fits(#[trigger] xs[i])
        }),
{
    let enc = |s: Seq<char>| enc_str(s);
    let f = |q: int| rd_str(b, q);
    assert forall|p: int| 0 <= p <= b.len() && (#[trigger] f(p)) is Ok implies codec::has_at(
        b,
        p,
        enc(f(p)->Ok_0.0),
    ) && f(p)->Ok_0.1 == p + enc(f(p)->Ok_0.0).len() && str_fits(f(p)->Ok_0.0) by {
        lemma_str_back(b, p);
    }
    parse::lemma_list_back(b, at, n, enc, f);
    let xs = parse::rd_list(f, at, n)->Ok_0.0;
    assert forall|i: int| 0 <= i < xs.len() implies str_fits(#[trigger] xs[i]) by {
        let p = choose|p: int|
            0 <= p <= b.len() && (#[trigger] f(p)) is Ok && f(p)->Ok_0.0 == xs[i];
        assert(f(p) is Ok);
    }
    reveal(codec::has_at);
}

proof fn lemma_vector_back(b: Seq<u8>, at: int)
    requires
        0 <= at <= b.len(),
        rd_vector(b, at) is Ok,
    ensures
        ({
            let (xs, p) = rd_vector(b, at)->Ok_0;
            &&& codec::has_at(b, at, codec::le32(xs.len() as u32))
            &&& codec::has_at(b, at + 4, enc_u32s(xs))
            &&& codec::le32(xs.len() as u32).len() == 4
            &&& p == at + 4 + enc_u32s(xs).len()
            &&& p <= b.len()
            &&& xs.len() <= u32::MAX
        }),
{
    lemma_u32_back(b, at);
    let n = rd_u32(b, at)->Ok_0.0;
    let enc = |x: u32| codec::le32(x);
    let f = |q: int| rd_u32(b, q);
    assert forall|p: int| 0 <= p <= b.len() && (#[trigger] f(p)) is Ok implies codec::has_at(
        b,
        p,
        enc(f(p)->Ok_0.0),
    ) && f(p)->Ok_0.1 == p + enc(f(p)->Ok_0.0).len() by {
        lemma_u32_back(b, p);
    }
    parse::lemma_list_back(b, at + 4, n as nat, enc, f);
    reveal(codec::has_at);
}

#[verifier::spinoff_prover]
#[verifier::rlimit(60)]
proof fn lemma_remember_back(op: u8, b: Seq<u8>)
    requires
        op == 1 || op == 2,
        rd_op(op, b) is Ok,
    ensures
        ({
            let (v, end) = rd_op(op, b)->Ok_0;
            &&& op_fits(v)
            &&& op_tag(v) == op
            &&& codec::has_at(b, 0, op_payload(v))
            &&& end == op_payload(v).len()
        }),
{
    let v = rd_op(op, b)->Ok_0.0;
    if let OpView::Remember {
        now,
        valid_from,
        entity,
        text,
        tags,
        links,
        vector,
        metadata,
        revises,
        assigned,
    } = v {
        lemma_u64_back(b, 0);
        lemma_u64_back(b, 8);
        lemma_u32_back(b, 16);
        lemma_u32_back(b, 20);
        let p1 = rd_opt_str(b, 24)->Ok_0.1;
        lemma_u8_back(b, 24);
        if entity is Some {
            lemma_str_back(b, 25);
            codec::lemma_has_split(b, 24, seq![1u8], enc_str(entity->0));
        }
        assert(p1 == 24 + enc_opt_str(entity).len());
        lemma_str_back(b, p1);
        let p2 = rd_str(b, p1)->Ok_0.1;
        lemma_u8_back(b, p2);
        lemma_strs_back(b, p2 + 1, b[p2] as nat);
        let p3 = rd_strs(b, p2)->Ok_0.1;
        lemma_u8_back(b, p3);
        lemma_pairs_back(b, p3 + 1, b[p3] as nat);
        let p4 = rd_links(b, p3)->Ok_0.1;
        lemma_vector_back(b, p4);
        let p5 = rd_vector(b, p4)->Ok_0.1;
        lemma_u32_back(b, p5);
        lemma_pairs_back(b, p5 + 4, rd_u32(b, p5)->Ok_0.0 as nat);
        let s1 = codec::le64(now);
        let s2 = s1 + codec::le64(valid_from);
        let s3 = s2 + codec::le32(revises.0);
        let s4 = s3 + codec::le32(assigned.0);
        let s5 = s4 + enc_opt_str(entity);
        let s6 = s5 + enc_str(text);
        let s7 = s6 + seq![tags.len() as u8];
        let s8 = s7 + enc_strs(tags);
        let s9 = s8 + seq![links.len() as u8];
        let s10 = s9 + enc_pairs(links);
        let s11 = s10 + codec::le32(vector.len() as u32);
        let s12 = s11 + enc_u32s(vector);
        let s13 = s12 + codec::le32(metadata.len() as u32);
        let s14 = s13 + enc_pairs(metadata);
        assert(op_payload(v) == s14);
        codec::lemma_has_split(b, 0, s1, codec::le64(valid_from));
        codec::lemma_has_split(b, 0, s2, codec::le32(revises.0));
        codec::lemma_has_split(b, 0, s3, codec::le32(assigned.0));
        codec::lemma_has_split(b, 0, s4, enc_opt_str(entity));
        codec::lemma_has_split(b, 0, s5, enc_str(text));
        codec::lemma_has_split(b, 0, s6, seq![tags.len() as u8]);
        codec::lemma_has_split(b, 0, s7, enc_strs(tags));
        codec::lemma_has_split(b, 0, s8, seq![links.len() as u8]);
        codec::lemma_has_split(b, 0, s9, enc_pairs(links));
        codec::lemma_has_split(b, 0, s10, codec::le32(vector.len() as u32));
        codec::lemma_has_split(b, 0, s11, enc_u32s(vector));
        codec::lemma_has_split(b, 0, s12, codec::le32(metadata.len() as u32));
        codec::lemma_has_split(b, 0, s13, enc_pairs(metadata));
    }
}

/// Whatever reads as an operation starts with the encoding of that
/// operation, but for the short form of a maintenance record.
proof fn lemma_op_back(op: u8, b: Seq<u8>)
    requires
        rd_op(op, b) is Ok,
        !(op == 5 && b.len() == 8),
    ensures
        ({
            let (v, end) = rd_op(op, b)->Ok_0;
            &&& op_fits(v)
            &&& op_tag(v) == op
            &&& codec::has_at(b, 0, op_payload(v))
            &&& end == op_payload(v).len()
        }),
{
    let v = rd_op(op, b)->Ok_0.0;
    if op == 1 || op == 2 {
        lemma_remember_back(op, b);
    } else {
        lemma_u64_back(b, 0);
        match v {
            OpView::Remember { .. } => {},
            OpView::Forget { now, fact } => {
                lemma_u32_back(b, 8);
                codec::lemma_has_split(b, 0, codec::le64(now), codec::le32(fact.0));
            },
            OpView::Link { now, src, rel, dst, provenance } => {
                lemma_u32_back(b, 8);
                lemma_triple_back(b, 12);
                let s1 = codec::le64(now);
                let s2 = s1 + codec::le32(provenance.0);
                let s3 = s2 + enc_str(src);
                let s4 = s3 + enc_str(rel);
                codec::lemma_has_split(b, 0, s1, codec::le32(provenance.0));
                codec::lemma_has_split(b, 0, s2, enc_str(src));
                codec::lemma_has_split(b, 0, s3, enc_str(rel));
                codec::lemma_has_split(b, 0, s4, enc_str(dst));
            },
            OpView::Maintain { now, mode, max_hnsw_inserts } => {
                lemma_u8_back(b, 8);
                lemma_u32_back(b, 9);
                let s1 = codec::le64(now);
                let s2 = s1 + seq![mode];
                codec::lemma_has_split(b, 0, s1, seq![mode]);
                codec::lemma_has_split(b, 0, s2, codec::le32(max_hnsw_inserts));
            },
            OpView::Unlink { now, src, rel, dst } => {
                lemma_triple_back(b, 8);
                let s1 = codec::le64(now);
                let s2 = s1 + enc_str(src);
                let s3 = s2 + enc_str(rel);
                codec::lemma_has_split(b, 0, s1, enc_str(src));
                codec::lemma_has_split(b, 0, s2, enc_str(rel));
                codec::lemma_has_split(b, 0, s3, enc_str(dst));
            },
            OpView::RemoveTag { now, tag } => {
                lemma_str_back(b, 8);
                codec::lemma_has_split(b, 0, codec::le64(now), enc_str(tag));
            },
        }
    }
}

/// Whatever decodes encodes back to the same record: the op byte and the
/// payload of the operation are those it was decoded from. The one exception
/// is the short form of a maintenance record, which holds the time alone.
pub proof fn a_decoded_op_encodes_back(op: u8, payload: Seq<u8>)
    requires
        decoded(op, payload) is Ok,
        !(op == 5 && payload.len() == 8),
    ensures
        op_fits(decoded(op, payload)->Ok_0),
        op_tag(decoded(op, payload)->Ok_0) == op,
        op_payload(decoded(op, payload)->Ok_0) == payload,
{
    lemma_op_back(op, payload);
    reveal(codec::has_at);
    assert(payload.subrange(0, payload.len() as int) =~= payload);
}

/// Bytes behind a record that decodes are refused.
pub proof fn a_longer_payload_is_refused(op: u8, payload: Seq<u8>, more: Seq<u8>)
    requires
        decoded(op, payload) is Ok,
        !(op == 5 && payload.len() == 8),
        more.len() > 0,
    ensures
        decoded(op, payload + more) matches Err(Error::Corrupt(_)),
{
    a_decoded_op_encodes_back(op, payload);
    let v = decoded(op, payload)->Ok_0;
    let b = payload + more;
    assert(codec::has_at(b, 0, payload)) by {
        reveal(codec::has_at);
        assert(b.subrange(0, payload.len() as int) =~= payload);
    }
    lemma_op_at(b, v);
}

/// A short maintenance record with one byte behind it is refused.
pub proof fn a_longer_short_form_is_refused(payload: Seq<u8>, byte: u8)
    requires
        payload.len() == 8,
    ensures
        decoded(5, payload.push(byte)) matches Err(Error::Corrupt(_)),
{
}

/// The front of a record that decodes is refused, unless it is the short form
/// of a maintenance record.
pub proof fn a_shorter_payload_is_refused(op: u8, payload: Seq<u8>, n: int)
    requires
        decoded(op, payload) is Ok,
        0 <= n < payload.len(),
        !(op == 5 && n == 8),
    ensures
        decoded(op, payload.take(n)) matches Err(Error::Corrupt(_)),
{
    let front = payload.take(n);
    assert(front + payload.skip(n) =~= payload);
    if decoded(op, front) is Ok {
        a_longer_payload_is_refused(op, front, payload.skip(n));
    }
    lemma_op_err(op, front);
}

proof fn lemma_list_err_corrupt<T>(f: spec_fn(int) -> Result<(T, int), Error>, at: int, n: nat)
    requires
        parse::rd_list(f, at, n) is Err,
        forall|p: int| (#[trigger] f(p)) is Err ==> f(p)->Err_0 is Corrupt,
    ensures
        parse::rd_list(f, at, n)->Err_0 is Corrupt,
    decreases n,
{
    if n > 0 && parse::rd_list(f, at, (n - 1) as nat) is Err {
        lemma_list_err_corrupt(f, at, (n - 1) as nat);
    }
}

/// Every refusal of a payload is `Corrupt`.
proof fn lemma_op_err(op: u8, b: Seq<u8>)
    requires
        decoded(op, b) is Err,
    ensures
        decoded(op, b)->Err_0 is Corrupt,
{
    let strs = |q: int| rd_str(b, q);
    let pairs = |q: int| rd_pair(b, q);
    let nums = |q: int| rd_u32(b, q);
    assert forall|p: int| (#[trigger] strs(p)) is Err implies strs(p)->Err_0 is Corrupt by {}
    assert forall|p: int| (#[trigger] pairs(p)) is Err implies pairs(p)->Err_0 is Corrupt by {}
    assert forall|p: int| (#[trigger] nums(p)) is Err implies nums(p)->Err_0 is Corrupt by {}
    assert forall|p: int, n: nat|
        (#[trigger] parse::rd_list(strs, p, n)) is Err implies parse::rd_list(strs, p, n)->Err_0
        is Corrupt by {
        lemma_list_err_corrupt(strs, p, n);
    }
    assert forall|p: int, n: nat|
        (#[trigger] parse::rd_list(pairs, p, n)) is Err implies parse::rd_list(pairs, p, n)->Err_0
        is Corrupt by {
        lemma_list_err_corrupt(pairs, p, n);
    }
    assert forall|p: int, n: nat|
        (#[trigger] parse::rd_list(nums, p, n)) is Err implies parse::rd_list(nums, p, n)->Err_0
        is Corrupt by {
        lemma_list_err_corrupt(nums, p, n);
    }
}

proof fn lemma_short_str(s: Seq<char>)
    ensures
        enc_str(s).len() == 4 + encode_utf8(s).len(),
{
    codec::lemma_le_bytes_len(encode_utf8(s).len() as u32 as nat, 4);
}

proof fn lemma_short_strs(xs: Seq<Seq<char>>)
    requires
        enc_strs(xs).len() <= u32::MAX,
    ensures
        forall|i: int| 0 <= i < xs.len() ==> str_fits(#[trigger] xs[i]),
{
    let enc = |s: Seq<char>| enc_str(s);
    assert forall|i: int| 0 <= i < xs.len() implies enc(#[trigger] xs[i]).len() > 0 by {
        lemma_short_str(xs[i]);
    }
    parse::lemma_flat_bounds(enc, xs);
    assert forall|i: int| 0 <= i < xs.len() implies str_fits(#[trigger] xs[i]) by {
        lemma_short_str(xs[i]);
        assert(enc(xs[i]).len() <= parse::flat(enc, xs).len());
    }
}

proof fn lemma_short_pairs(xs: Seq<(Seq<char>, Seq<char>)>)
    requires
        enc_pairs(xs).len() <= u32::MAX,
    ensures
        pairs_fit(xs),
        xs.len() <= u32::MAX,
{
    let enc = |p: (Seq<char>, Seq<char>)| enc_pair(p);
    assert forall|i: int| 0 <= i < xs.len() implies enc(#[trigger] xs[i]).len() > 0 by {
        lemma_short_str(xs[i].0);
    }
    parse::lemma_flat_bounds(enc, xs);
    assert forall|i: int| 0 <= i < xs.len() implies str_fits((#[trigger] xs[i]).0) && str_fits(
        xs[i].1,
    ) by {
        lemma_short_str(xs[i].0);
        lemma_short_str(xs[i].1);
        assert(enc(xs[i]).len() <= parse::flat(enc, xs).len());
    }
}

/// An operation whose payload a record can hold fits, as long as its counts
/// fit the bytes that carry them.
pub proof fn a_short_op_fits(op: OpView)
    requires
        op_payload(op).len() <= u32::MAX,
        op matches OpView::Remember { tags, links, vector, .. } ==> tags.len() <= 255
            && links.len() <= 255 && vector.len() == 0,
    ensures
        op_fits(op),
{
    match op {
        OpView::Remember { entity, text, tags, links, metadata, .. } => {
            if entity is Some {
                lemma_short_str(entity->0);
            }
            lemma_short_str(text);
            lemma_short_strs(tags);
            lemma_short_pairs(links);
            lemma_short_pairs(metadata);
        },
        OpView::Link { src, rel, dst, .. } => {
            lemma_short_str(src);
            lemma_short_str(rel);
            lemma_short_str(dst);
        },
        OpView::Unlink { src, rel, dst, .. } => {
            lemma_short_str(src);
            lemma_short_str(rel);
            lemma_short_str(dst);
        },
        OpView::RemoveTag { tag, .. } => {
            lemma_short_str(tag);
        },
        _ => {},
    }
}

} // verus!
