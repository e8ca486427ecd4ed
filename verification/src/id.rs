//! Typed identifiers.
//!
//! All ids are `u32`, allocated monotonically and never reused. `0` is a
//! valid id; "no value" is encoded as [`NONE_U32`], which every id type
//! exposes through `none()`.

use vstd::prelude::*;

verus! {

/// The raw "no value" sentinel shared by every id kind.
pub const NONE_U32: u32 = 0xFFFF_FFFF;

/// Identifier of a fact, the unit of memory.
#[derive(Clone, Copy, Debug, PartialEq, Eq, Structural, PartialOrd, Ord, Hash)]
pub struct FactId(pub u32);

/// Identifier of an entity, a graph node created lazily on first mention.
#[derive(Clone, Copy, Debug, PartialEq, Eq, Structural, PartialOrd, Ord, Hash)]
pub struct EntityId(pub u32);

/// Identifier of one version of a typed edge.
#[derive(Clone, Copy, Debug, PartialEq, Eq, Structural, PartialOrd, Ord, Hash)]
pub struct EdgeId(pub u32);

/// Identifier of an interned term.
#[derive(Clone, Copy, Debug, PartialEq, Eq, Structural, PartialOrd, Ord, Hash)]
pub struct TermId(pub u32);

/// Identifier of a stored blob.
#[derive(Clone, Copy, Debug, PartialEq, Eq, Structural, PartialOrd, Ord, Hash)]
pub struct BlobId(pub u32);

impl FactId {
    /// The "no value" sentinel.
    pub fn none() -> (r: FactId)
        ensures
            r == FactId(NONE_U32),
    {
        FactId(NONE_U32)
    }

    /// `true` when this is the sentinel.
    pub fn is_none(self) -> (r: bool)
        ensures
            r == (self.0 == NONE_U32),
    {
        self.0 == NONE_U32
    }

    /// `Some(self)` for a real id, `None` for the sentinel.
    pub fn some(self) -> (r: Option<FactId>)
        ensures
            r == (if self.0 == NONE_U32 { None } else { Some(self) }),
    {
        if self.is_none() { None } else { Some(self) }
    }

    /// Collapses an optional id back into the sentinel encoding.
    pub fn from_opt(opt: Option<FactId>) -> (r: FactId)
        ensures
            r == (match opt { Some(id) => id, None => FactId(NONE_U32) }),
    {
        match opt {
            Some(id) => id,
            None => FactId(NONE_U32),
        }
    }
}

impl EntityId {
    /// The "no value" sentinel.
    pub fn none() -> (r: EntityId)
        ensures
            r == EntityId(NONE_U32),
    {
        EntityId(NONE_U32)
    }

    /// `true` when this is the sentinel.
    pub fn is_none(self) -> (r: bool)
        ensures
            r == (self.0 == NONE_U32),
    {
        self.0 == NONE_U32
    }

    /// `Some(self)` for a real id, `None` for the sentinel.
    pub fn some(self) -> (r: Option<EntityId>)
        ensures
            r == (if self.0 == NONE_U32 { None } else { Some(self) }),
    {
        if self.is_none() { None } else { Some(self) }
    }

    /// Collapses an optional id back into the sentinel encoding.
    pub fn from_opt(opt: Option<EntityId>) -> (r: EntityId)
        ensures
            r == (match opt { Some(id) => id, None => EntityId(NONE_U32) }),
    {
        match opt {
            Some(id) => id,
            None => EntityId(NONE_U32),
        }
    }
}

/// Collapsing and reopening an optional id gives it back, unless the id is
/// the sentinel itself.
pub proof fn fact_id_option_round_trip(opt: Option<FactId>)
    requires
        opt matches Some(id) ==> id.0 != NONE_U32,
    ensures
        ({
            let raw = match opt { Some(id) => id, None => FactId(NONE_U32) };
            (if raw.0 == NONE_U32 { None } else { Some(raw) }) == opt
        }),
{
}

} // verus!
