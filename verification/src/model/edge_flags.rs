//! Bit flags of [`EdgeHistorySlot::flags`](crate::model::EdgeHistorySlot).

use vstd::prelude::*;

verus! {

/// The edge validity interval is closed (`valid_to < u64::MAX`).
pub const CLOSED: u16 = 1;

} // verus!
