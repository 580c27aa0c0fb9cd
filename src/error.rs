//! The errors of the store.

use vstd::prelude::*;

verus! {

/// Why an operation on the store failed.
#[derive(Debug)]
pub enum StoreError {
    /// The engine failed (opening, reading or committing).
    Storage(fjall::Error),
    /// An event carries more than 255 tags.
    TooManyTags,
    /// An event's data value or reference value exceeds the engine's limit.
    TooLarge,
    /// The positions of the events would not fit in 64 bits.
    PositionOverflow,
    /// A key or value read from the engine does not have the layout of this
    /// store.
    Corrupt,
}

} // verus!
