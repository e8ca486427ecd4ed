//! Bit flags of [`FactRecord::flags`](crate::model::FactRecord).

use vstd::prelude::*;

verus! {

/// The fact is deleted; recall never returns it, `maintain` purges it.
pub const TOMBSTONE: u16 = 1;

/// The validity interval is closed (`valid_to < u64::MAX`): the fact was
/// revised.
pub const CLOSED: u16 = 2;

/// A vector slot is attached.
pub const HAS_VECTOR: u16 = 4;

} // verus!
