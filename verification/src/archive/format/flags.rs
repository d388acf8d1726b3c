//! Flags in a file header.
use vstd::prelude::*;

verus! {

/// The file is an archive.
pub const IS_ARCHIVE: u8 = 0x01;

/// All files are compressed as one stream.
pub const SOLID_MODE: u8 = 0x02;

/// Transforms were used.
pub const TRANSFORM_USED: u8 = 0x04;

} // verus!
