//! An embedded key/value store built on fixed-size storage blocks.
//!
//! Each 4096-byte block starts with a directory of 256 slot entries that point
//! at serialized records in the block's payload region. A linear hash table
//! maps keys to (block, slot) addresses and grows one block at a time.

mod bytes;

pub mod codec;
pub mod entry;
pub mod hash;
pub mod helpers;
pub mod layout;
pub mod record;

use vstd::prelude::*;

verus! {

/// Why an operation on the store did not succeed.
#[derive(Clone, Copy, Debug, PartialEq, Eq, Structural)]
pub enum StoreError {
    /// An input is outside the range the operation accepts.
    Validation,
    /// No free range is large enough for the payload.
    StorageFull,
    /// A stored record is truncated or corrupt.
    Decode,
}

} // verus!
