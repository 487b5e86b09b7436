use vstd::prelude::*;

verus! {

/// Size of one storage block, in bytes.
pub const BLOCK_SIZE: usize = 4096;

/// Width of one directory entry: a 16-bit offset and a 16-bit size.
pub const ENTRY_SIZE: usize = 4;

/// The directory occupies the bytes before this offset.
pub const SUB_BUCKET_HEADER_SIZE: u32 = 1024;

/// Number of slots in one block's directory.
pub const MAX_SUB_BUCKETS: usize = 256;

/// Bytes at the end of a block set aside for table metadata.
pub const BLOCK_FOOTER_SIZE: u32 = 16;

/// Upper bound (exclusive) for the end of any reserved payload range.
pub const MAX_DATA_SIZE: u32 = 4096 - 1024 - 16;

} // verus!
