//! Namespace of a `$FILE_NAME` attribute (byte 65 of its content).

use vstd::prelude::*;

verus! {

/// Any Unicode characters, case-sensitive.
pub const POSIX: u8 = 0;
/// The long Windows name.
pub const WIN32: u8 = 1;
/// The short 8.3 name.
pub const DOS: u8 = 2;
/// Short and long name are the same.
pub const WIN32_AND_DOS: u8 = 3;

} // verus!
