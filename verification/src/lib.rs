//! A read-only FAT32 filesystem driver over an abstract block-addressable
//! storage device.
//!
//! The driver mounts a volume by decoding and validating its boot sector,
//! follows cluster chains through the file allocation table, enumerates
//! short (8.3) directory entries, and reconstructs file contents, all into
//! caller-supplied buffers.  Every decode is an explicit, offset-precise
//! little-endian read over byte slices, and every cluster walk is bounded,
//! so corrupt on-disk data can at worst end an operation early.

pub mod device;
pub mod fat32;
pub mod mock;

use vstd::prelude::*;

verus! {

/// The driver's version string.
pub fn version() -> (r: &'static str)
    ensures
        r@ == "0.0.1"@,
{
    "0.0.1"
}

} // verus!
