//! The [`Storage`] and [`Scratch`] traits and their in-memory reference
//! implementations.
//!
//! The core never touches files or the network: every byte entering or
//! leaving the engine goes through these traits. Native wrappers implement
//! them over files; [`MemStorage`] and [`MemScratch`] back tests and ephemeral
//! databases.

use crate::codec::put_slice;
use core::convert::Infallible;
use vstd::prelude::*;

verus! {

/// Where snapshot and journal bytes live.
///
/// The engine calls `append_journal` synchronously at the end of every
/// mutating operation: that call is the durability point. Fsync policy,
/// atomicity of `write_snapshot` and locking are the implementation's
/// business.
pub trait Storage: Sized {
    /// Implementation-specific failure.
    type Error: core::fmt::Debug;

    /// The stored snapshot image.
    spec fn snapshot(&self) -> Option<Seq<u8>>;

    /// The stored journal bytes.
    spec fn journal(&self) -> Seq<u8>;

    /// The full snapshot image, or `None` when no database exists yet.
    fn read_snapshot(&mut self) -> (r: Result<Option<Vec<u8>>, Self::Error>)
        ensures
            r matches Ok(got) ==> {
                &&& final(self).snapshot() == old(self).snapshot()
                &&& final(self).journal() == old(self).journal()
                &&& match got {
                    Some(bytes) => old(self).snapshot() == Some(bytes@),
                    None => old(self).snapshot() is None,
                }
            },
    ;

    /// Atomically replaces the snapshot image.
    fn write_snapshot(&mut self, bytes: &[u8]) -> (r: Result<(), Self::Error>)
        ensures
            r is Ok ==> final(self).snapshot() == Some(bytes@) && final(self).journal() == old(self).journal(),
    ;

    /// All journal bytes accumulated since the last snapshot.
    fn read_journal(&mut self) -> (r: Result<Vec<u8>, Self::Error>)
        ensures
            r matches Ok(got) ==> {
                &&& final(self).snapshot() == old(self).snapshot()
                &&& final(self).journal() == old(self).journal()
                &&& got@ == old(self).journal()
            },
    ;

    /// Appends one framed journal entry (see [`crate::journal`]).
    fn append_journal(&mut self, entry: &[u8]) -> (r: Result<(), Self::Error>)
        ensures
            r is Ok ==> final(self).snapshot() == old(self).snapshot() && final(self).journal()
                == old(self).journal() + entry@,
    ;

    /// Discards the journal (called after a successful snapshot).
    fn clear_journal(&mut self) -> (r: Result<(), Self::Error>)
        ensures
            r is Ok ==> final(self).snapshot() == old(self).snapshot() && final(self).journal()
                == Seq::<u8>::empty(),
    ;
}

/// An append-only staging area: build it sequentially with
/// [`write`](Scratch::write), then [`freeze`](Scratch::freeze) it into a
/// readable byte view.
pub trait Scratch: Sized {
    /// Implementation-specific failure.
    type Error: core::fmt::Debug;

    /// Everything written so far.
    spec fn staged(&self) -> Seq<u8>;

    /// Appends `bytes` to the staging area.
    fn write(&mut self, bytes: &[u8]) -> (r: Result<(), Self::Error>)
        ensures
            r is Ok ==> final(self).staged() == old(self).staged() + bytes@,
    ;

    /// Bytes appended so far.
    fn len(&self) -> (r: u64)
        ensures
            r == self.staged().len(),
    ;

    /// Whether nothing has been written yet.
    fn is_empty(&self) -> (r: bool)
        ensures
            r == (self.staged().len() == 0),
    {
        self.len() == 0
    }

    /// Ends the build and borrows everything written as one contiguous slice,
    /// equal to the concatenation of every `write`.
    fn freeze(&mut self) -> (r: Result<&[u8], Self::Error>)
        ensures
            r matches Ok(bytes) ==> bytes@ == old(self).staged() && final(self).staged() == old(self).staged(),
    ;
}

/// In-memory [`Scratch`]: a growable buffer that "freezes" to a borrow of
/// itself.
#[derive(Debug, Clone)]
pub struct MemScratch {
    buf: Vec<u8>,
}

impl MemScratch {
    /// An empty staging buffer.
    pub fn new() -> (r: MemScratch)
        ensures
            r.staged() == Seq::<u8>::empty(),
    {
        MemScratch { buf: Vec::new() }
    }
}

impl Default for MemScratch {
    fn default() -> (r: MemScratch)
        ensures
            r.staged() == Seq::<u8>::empty(),
    {
        MemScratch::new()
    }
}

impl Scratch for MemScratch {
    type Error = Infallible;

    closed spec fn staged(&self) -> Seq<u8> {
        self.buf@
    }

    fn write(&mut self, bytes: &[u8]) -> (r: Result<(), Infallible>)
        ensures
            r is Ok,
    {
        put_slice(&mut self.buf, bytes);
        Ok(())
    }

    fn len(&self) -> (r: u64) {
        self.buf.len() as u64
    }

    fn freeze(&mut self) -> (r: Result<&[u8], Infallible>)
        ensures
            r is Ok,
    {
        Ok(self.buf.as_slice())
    }
}

/// In-memory [`Storage`]: two byte buffers, no failure modes.
#[derive(Debug, Clone, PartialEq, Eq)]
pub struct MemStorage {
    snapshot: Option<Vec<u8>>,
    journal: Vec<u8>,
}

impl MemStorage {
    /// A storage with no snapshot and an empty journal (first run).
    pub fn new() -> (r: MemStorage)
        ensures
            r.snapshot() is None,
            r.journal() == Seq::<u8>::empty(),
    {
        MemStorage { snapshot: None, journal: Vec::new() }
    }
}

impl Default for MemStorage {
    fn default() -> (r: MemStorage)
        ensures
            r.snapshot() is None,
            r.journal() == Seq::<u8>::empty(),
    {
        MemStorage::new()
    }
}

fn copy_of(bytes: &[u8]) -> (r: Vec<u8>)
    ensures
        r@ == bytes@,
{
    let mut out: Vec<u8> = Vec::new();
    put_slice(&mut out, bytes);
    assert(out@ =~= bytes@);
    out
}

impl Storage for MemStorage {
    type Error = Infallible;

    closed spec fn snapshot(&self) -> Option<Seq<u8>> {
        match self.snapshot {
            Some(bytes) => Some(bytes@),
            None => None,
        }
    }

    closed spec fn journal(&self) -> Seq<u8> {
        self.journal@
    }

    fn read_snapshot(&mut self) -> (r: Result<Option<Vec<u8>>, Infallible>)
        ensures
            r is Ok,
    {
        match &self.snapshot {
            Some(bytes) => Ok(Some(copy_of(bytes.as_slice()))),
            None => Ok(None),
        }
    }

    fn write_snapshot(&mut self, bytes: &[u8]) -> (r: Result<(), Infallible>)
        ensures
            r is Ok,
    {
        self.snapshot = Some(copy_of(bytes));
        Ok(())
    }

    fn read_journal(&mut self) -> (r: Result<Vec<u8>, Infallible>)
        ensures
            r is Ok,
    {
        Ok(copy_of(self.journal.as_slice()))
    }

    fn append_journal(&mut self, entry: &[u8]) -> (r: Result<(), Infallible>)
        ensures
            r is Ok,
    {
        put_slice(&mut self.journal, entry);
        Ok(())
    }

    fn clear_journal(&mut self) -> (r: Result<(), Infallible>)
        ensures
            r is Ok,
    {
        self.journal = Vec::new();
        Ok(())
    }
}

} // verus!
