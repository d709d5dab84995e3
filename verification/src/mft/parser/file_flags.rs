//! DOS flags of `$STANDARD_INFORMATION` and the directory bit.

use vstd::prelude::*;

verus! {

pub const READ_ONLY: u32 = 0x0001;
pub const HIDDEN: u32 = 0x0002;
pub const SYSTEM: u32 = 0x0004;
pub const DIRECTORY: u32 = 0x10000000;

} // verus!
