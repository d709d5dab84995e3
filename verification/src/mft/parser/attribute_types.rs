//! Attribute type codes of a record.

use vstd::prelude::*;

verus! {

pub const STANDARD_INFORMATION: u32 = 0x10;
pub const ATTRIBUTE_LIST: u32 = 0x20;
pub const FILE_NAME: u32 = 0x30;
pub const OBJECT_ID: u32 = 0x40;
pub const VOLUME_NAME: u32 = 0x60;
pub const VOLUME_INFORMATION: u32 = 0x70;
pub const DATA: u32 = 0x80;
pub const INDEX_ROOT: u32 = 0x90;
pub const INDEX_ALLOCATION: u32 = 0xA0;
pub const BITMAP: u32 = 0xB0;
pub const END_MARKER: u32 = 0xFFFFFFFF;

} // verus!
