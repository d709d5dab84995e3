//! Parsing raw table records.
//!
//! A record (usually 1024 bytes) starts with a `FILE` header; the attributes
//! follow from the offset at byte 20 until the end marker `0xFFFFFFFF`. Before
//! parsing, the last two bytes of every sector must be restored from the update
//! sequence array ([`MftParser::apply_fixups`]).

use vstd::prelude::*;
use crate::bytes::{le_int, le_uint, read_int_le, read_u16, read_u32, read_u64, read_uint_le, u16_at, u32_at, u64_at};
use crate::mft::types::{FileEntry, FileEntryView};
use crate::text::{char_from_u32, push_char};
use crate::mft::parser::attribute_types::END_MARKER;

pub mod attribute_types;
pub mod file_flags;
pub mod file_name_namespace;

verus! {

/// A fragment of a non-resident attribute on the volume.
#[derive(Debug, Clone, Copy, PartialEq, Eq, Structural)]
pub struct DataRun {
    /// First cluster; `None` for a sparse run (no clusters, reads as zeros).
    pub lcn: Option<u64>,
    /// Length in clusters.
    pub length: u64,
}

/// Attributes of an extension record that its base record needs.
#[derive(Debug, Clone)]
pub struct ExtensionRecord {
    /// Record number of the base record (without sequence number).
    pub base_reference: u64,
    /// Size of the unnamed `$DATA` stream, if its first piece is here.
    pub data_size: Option<u64>,
    /// The best `$FILE_NAME` of this record.
    pub file_name: Option<ExtensionName>,
}

/// A name found in an extension record.
#[derive(Debug, Clone)]
pub struct ExtensionName {
    pub rank: u8,
    pub parent_reference: u64,
    pub name: String,
}

/// What [`MftParser::parse`] makes of a record.
#[derive(Debug, Clone)]
pub enum ParsedRecord {
    /// A base record: a file or a directory.
    Entry {
        entry: FileEntry,
        /// Rank of the name found (see [`name_rank`]); 0 = none yet.
        name_rank: u8,
    },
    /// An extension record whose attributes belong to another record.
    Extension(ExtensionRecord),
}

/// The value of an [`ExtensionName`].
pub struct ExtensionNameView {
    pub rank: u8,
    pub parent_reference: u64,
    pub name: Seq<char>,
}

/// The value of an [`ExtensionRecord`].
pub struct ExtensionRecordView {
    pub base_reference: u64,
    pub data_size: Option<u64>,
    pub file_name: Option<ExtensionNameView>,
}

/// The value of a [`ParsedRecord`].
pub enum ParsedRecordView {
    Entry { entry: FileEntryView, name_rank: u8 },
    Extension(ExtensionRecordView),
}

impl View for ExtensionName {
    type V = ExtensionNameView;

    open spec fn view(&self) -> ExtensionNameView {
        ExtensionNameView { rank: self.rank, parent_reference: self.parent_reference, name: self.name@ }
    }
}

impl View for ExtensionRecord {
    type V = ExtensionRecordView;

    open spec fn view(&self) -> ExtensionRecordView {
        ExtensionRecordView {
            base_reference: self.base_reference,
            data_size: self.data_size,
            file_name: match self.file_name {
                Some(n) => Some(n@),
                None => None,
            },
        }
    }
}

impl View for ParsedRecord {
    type V = ParsedRecordView;

    open spec fn view(&self) -> ParsedRecordView {
        match self {
            ParsedRecord::Entry { entry, name_rank } => ParsedRecordView::Entry {
                entry: entry@,
                name_rank: *name_rank,
            },
            ParsedRecord::Extension(e) => ParsedRecordView::Extension(e@),
        }
    }
}

/// The value of an optional parse result.
pub open spec fn parsed_view(r: Option<ParsedRecord>) -> Option<ParsedRecordView> {
    match r {
        Some(p) => Some(p@),
        None => None,
    }
}

/// The value of an optional file entry.
pub open spec fn entry_view(r: Option<FileEntry>) -> Option<FileEntryView> {
    match r {
        Some(e) => Some(e@),
        None => None,
    }
}

// ---------------------------------------------------------------------------
// Record layout
// ---------------------------------------------------------------------------

/// The record starts with the signature `FILE`.
pub open spec fn has_file_signature(r: Seq<u8>) -> bool {
    &&& r.len() >= 4
    &&& r[0] == 0x46u8
    &&& r[1] == 0x49u8
    &&& r[2] == 0x4Cu8
    &&& r[3] == 0x45u8
}

/// Where the first attribute starts (the whole length when there is no header).
pub open spec fn first_attribute_offset(r: Seq<u8>) -> int {
    if r.len() >= 24 && has_file_signature(r) {
        u16_at(r, 20) as int
    } else {
        r.len() as int
    }
}

/// The attributes from byte `off` on, each as its type and its bytes (header
/// included): the list ends at the end marker, at a length below 16 or one that
/// leaves the record, and where fewer than 8 bytes remain.
pub open spec fn attributes_from(r: Seq<u8>, off: int) -> Seq<(u32, Seq<u8>)>
    decreases r.len() - off,
{
    if off < 0 || off + 8 > r.len() {
        seq![]
    } else if u32_at(r, off) == END_MARKER as nat {
        seq![]
    } else {
        let len = u32_at(r, off + 4) as int;
        if len < 16 || off + len > r.len() {
            seq![]
        } else {
            seq![(u32_at(r, off) as u32, r.subrange(off, off + len))] + attributes_from(
                r,
                off + len,
            )
        }
    }
}

/// The attributes of a record.
pub open spec fn record_attributes(r: Seq<u8>) -> Seq<(u32, Seq<u8>)> {
    attributes_from(r, first_attribute_offset(r))
}

/// The value of an attribute list as returned by [`MftParser::attributes`].
pub open spec fn attribute_values(v: Seq<(u32, &[u8])>) -> Seq<(u32, Seq<u8>)> {
    Seq::new(v.len(), |i: int| (v[i].0, v[i].1@))
}

// ---------------------------------------------------------------------------
// Fixups
// ---------------------------------------------------------------------------

/// The header fields that the fixups need are present and plausible: offset and
/// count of the update sequence array, a whole number of sectors of at least two
/// bytes each.
pub open spec fn fixup_header_ok(r: Seq<u8>) -> bool {
    &&& r.len() >= 8
    &&& has_file_signature(r)
    &&& u16_at(r, 6) >= 2
    &&& u16_at(r, 4) + u16_at(r, 6) * 2 <= r.len()
    &&& (r.len() as int) % (u16_at(r, 6) - 1) == 0
    &&& (r.len() as int) / (u16_at(r, 6) - 1) >= 2
}

/// Number of sectors of a record with a plausible header.
pub open spec fn fixup_sectors(r: Seq<u8>) -> int {
    u16_at(r, 6) - 1
}

/// Size of each sector.
pub open spec fn fixup_sector_size(r: Seq<u8>) -> int {
    (r.len() as int) / fixup_sectors(r)
}

/// The record after the first `k` sectors were checked and restored, one after
/// the other, and whether all of them carried the update sequence number `usn`
/// (the walk stops at the first one that does not).
pub open spec fn fixup_walk(r: Seq<u8>, usa: int, size: int, usn: (u8, u8), k: nat) -> (
    Seq<u8>,
    bool,
)
    decreases k,
{
    if k == 0 {
        (r, true)
    } else {
        let (prev, ok) = fixup_walk(r, usa, size, usn, (k - 1) as nat);
        let end = k * size;
        let saved = usa + 2 + (k - 1) * 2;
        if !ok {
            (prev, false)
        } else if prev[end - 2] == usn.0 && prev[end - 1] == usn.1 {
            (prev.update(end - 2, prev[saved]).update(end - 1, prev[saved + 1]), true)
        } else {
            (prev, false)
        }
    }
}

/// The full walk over all sectors of a record with a plausible header.
pub open spec fn fixup_result(r: Seq<u8>) -> (Seq<u8>, bool) {
    let usa = u16_at(r, 4) as int;
    fixup_walk(r, usa, fixup_sector_size(r), (r[usa], r[usa + 1]), fixup_sectors(r) as nat)
}

/// The parser of raw records.
pub struct MftParser;

impl MftParser {
    /// Restores the last two bytes of every sector from the update sequence array.
    ///
    /// Returns `false` for an inconsistent record: a wrong signature, an
    /// implausible header, or a sector end that does not carry the update sequence
    /// number (a torn write). Sectors before the failing one stay restored.
    pub fn apply_fixups(record: &mut [u8]) -> (ok: bool)
        ensures
            ok == (fixup_header_ok(old(record)@) && fixup_result(old(record)@).1),
            fixup_header_ok(old(record)@) ==> final(record)@ == fixup_result(old(record)@).0,
            !fixup_header_ok(old(record)@) ==> final(record)@ == old(record)@,
    {
        let len: usize = record.len();
        if len < 8 || record[0] != 0x46 || record[1] != 0x49 || record[2] != 0x4C || record[3]
            != 0x45 {
            return false;
        }
        let usa_offset: usize = read_u16(record, 4) as usize;
        let usa_count: usize = read_u16(record, 6) as usize;
        if usa_count < 2 || usa_offset + usa_count * 2 > len {
            return false;
        }
        let sectors: usize = usa_count - 1;
        if len % sectors != 0 {
            return false;
        }
        let sector_size: usize = len / sectors;
        if sector_size < 2 {
            return false;
        }
        let ghost r0 = record@;
        let usn0: u8 = record[usa_offset];
        let usn1: u8 = record[usa_offset + 1];
        proof {
            assert(sectors * sector_size == len) by (nonlinear_arith)
                requires
                    len % sectors == 0,
                    sector_size == len / sectors,
                    sectors > 0,
            ;
        }
        let mut sector: usize = 0;
        while sector < sectors
            invariant
                sector <= sectors,
                sectors * sector_size == len,
                sector_size >= 2,
                len == record@.len(),
                len == r0.len(),
                usa_offset + (sectors + 1) * 2 <= len,
                fixup_header_ok(r0),
                r0 == old(record)@,
                usa_offset == u16_at(r0, 4),
                sectors == fixup_sectors(r0),
                sector_size == fixup_sector_size(r0),
                usn0 == r0[usa_offset as int],
                usn1 == r0[usa_offset + 1],
                (record@, true) == fixup_walk(
                    r0,
                    usa_offset as int,
                    sector_size as int,
                    (usn0, usn1),
                    sector as nat,
                ),
            decreases sectors - sector,
        {
            proof {
                assert((sector + 1) * sector_size <= sectors * sector_size) by (nonlinear_arith)
                    requires
                        sector < sectors,
                ;
                assert((sector + 1) * sector_size == sector * sector_size + sector_size)
                    by (nonlinear_arith);
            }
            let end: usize = (sector + 1) * sector_size;
            if record[end - 2] != usn0 || record[end - 1] != usn1 {
                proof {
                    assert(fixup_walk(r0, usa_offset as int, sector_size as int, (usn0, usn1), (sector + 1) as nat).1 == false);
                    lemma_fixup_walk_stays_failed(r0, usa_offset as int, sector_size as int, (usn0, usn1), (sector + 1) as nat, sectors as nat);
                    assert(fixup_result(r0) == fixup_walk(r0, usa_offset as int, sector_size as int, (usn0, usn1), sectors as nat));
                }
                return false;
            }
            let saved: usize = usa_offset + 2 + sector * 2;
            let lo: u8 = record[saved];
            let hi: u8 = record[saved + 1];
            record[end - 2] = lo;
            record[end - 1] = hi;
            sector = sector + 1;
        }
        true
    }
}

/// A failed walk stays failed, with the record as it was when it failed.
pub proof fn lemma_fixup_walk_stays_failed(
    r: Seq<u8>,
    usa: int,
    size: int,
    usn: (u8, u8),
    k: nat,
    n: nat,
)
    requires
        k <= n,
        fixup_walk(r, usa, size, usn, k).1 == false,
    ensures
        fixup_walk(r, usa, size, usn, n) == fixup_walk(r, usa, size, usn, k),
    decreases n,
{
    if n > k {
        lemma_fixup_walk_stays_failed(r, usa, size, usn, k, (n - 1) as nat);
    }
}


/// The record with the last two bytes of each of its first `k` sectors of `size`
/// bytes replaced by that sector's saved pair from the update sequence array at
/// `usa` (the pair of sector `j` at `usa + 2 + 2 * j`).
pub open spec fn restored(r: Seq<u8>, usa: int, size: int, k: int) -> Seq<u8> {
    Seq::new(
        r.len(),
        |i: int|
            if i < k * size && i % size >= size - 2 {
                r[usa + 2 + 2 * (i / size) + (i % size - (size - 2))]
            } else {
                r[i]
            },
    )
}

/// The update sequence array (the number and the pairs of the first `k` sectors)
/// lies apart from the last two bytes of those sectors.
pub open spec fn usa_apart(usa: int, size: int, k: int) -> bool {
    forall|t: int| usa <= t < usa + 2 + 2 * k && t < k * size ==> #[trigger] (t % size) < size - 2
}

/// The last two bytes of each of the first `k` sectors carry the number `usn`.
pub open spec fn ends_carry(r: Seq<u8>, size: int, k: int, usn: (u8, u8)) -> bool {
    forall|j: int| 1 <= j <= k ==> r[#[trigger] (j * size) - 2] == usn.0 && r[j * size - 1] == usn.1
}

/// Where byte `i` lies among sectors of `size` bytes: in sector `q` at `i - q * size`.
proof fn lemma_sector_of(i: int, size: int, q: int)
    requires
        size > 0,
        q * size <= i < q * size + size,
    ensures
        i / size == q,
        i % size == i - q * size,
{
    vstd::arithmetic::div_mod::lemma_fundamental_div_mod_converse(i, size, q, i - q * size);
}

/// The walk over the first `k` sectors succeeds exactly when they all end with
/// the number, and then restores their ends from the array, when the array lies
/// apart from the ends.
proof fn lemma_fixup_walk_restores(r: Seq<u8>, usa: int, size: int, usn: (u8, u8), k: nat)
    requires
        size >= 2,
        k * size <= r.len(),
        0 <= usa,
        usa + 2 + 2 * k <= r.len(),
        usa_apart(usa, size, k as int),
    ensures
        fixup_walk(r, usa, size, usn, k).1 == ends_carry(r, size, k as int, usn),
        fixup_walk(r, usa, size, usn, k).1 ==> fixup_walk(r, usa, size, usn, k).0 == restored(
            r,
            usa,
            size,
            k as int,
        ),
    decreases k,
{
    if k == 0 {
        assert(restored(r, usa, size, 0) =~= r) by {
            assert forall|i: int| 0 <= i < r.len() implies restored(r, usa, size, 0)[i] == r[i] by {
                assert(0 * size == 0);
            }
        }
    } else {
        let k1 = (k - 1) as nat;
        assert((k1 * size) <= k * size) by (nonlinear_arith)
            requires
                k1 == k - 1,
                size >= 2,
        ;
        assert(usa_apart(usa, size, k1 as int)) by {
            assert forall|t: int| usa <= t < usa + 2 + 2 * k1 && t < k1 * size implies #[trigger] (t
                % size) < size - 2 by {
                assert(t < k * size);
            }
        }
        lemma_fixup_walk_restores(r, usa, size, usn, k1);
        let (prev, ok) = fixup_walk(r, usa, size, usn, k1);
        let end = k * size;
        assert(end == k1 * size + size) by (nonlinear_arith)
            requires
                k1 == k - 1,
                end == k * size,
        ;
        if ok {
            lemma_sector_of(end - 2, size, k1 as int);
            lemma_sector_of(end - 1, size, k1 as int);
            assert(prev[end - 2] == r[end - 2]);
            assert(prev[end - 1] == r[end - 1]);
            let saved = usa + 2 + (k - 1) * 2;
            assert(prev[saved] == r[saved]) by {
                if saved < k1 * size {
                    assert(saved < k * size);
                    assert(saved % size < size - 2);
                }
            }
            assert(prev[saved + 1] == r[saved + 1]) by {
                if saved + 1 < k1 * size {
                    assert(saved + 1 < k * size);
                    assert((saved + 1) % size < size - 2);
                }
            }
            if r[end - 2] == usn.0 && r[end - 1] == usn.1 {
                assert(ends_carry(r, size, k as int, usn)) by {
                    assert forall|j: int| 1 <= j <= k implies r[#[trigger] (j * size) - 2] == usn.0
                        && r[j * size - 1] == usn.1 by {
                        if j == k {
                        } else {
                            assert(1 <= j <= k1);
                        }
                    }
                }
                let next = prev.update(end - 2, prev[saved]).update(end - 1, prev[saved + 1]);
                assert(next =~= restored(r, usa, size, k as int)) by {
                    assert forall|i: int| 0 <= i < r.len() implies next[i] == restored(
                        r,
                        usa,
                        size,
                        k as int,
                    )[i] by {
                        if i == end - 2 || i == end - 1 {
                        } else if i < k1 * size {
                            assert(i < k * size);
                        } else if i < end {
                            lemma_sector_of(i, size, k1 as int);
                        } else {
                        }
                    }
                }
            } else {
                assert(!ends_carry(r, size, k as int, usn)) by {
                    assert(r[(k as int * size) - 2] == r[end - 2]);
                }
            }
        } else {
            assert(!ends_carry(r, size, k as int, usn)) by {
                if ends_carry(r, size, k as int, usn) {
                    assert forall|j: int| 1 <= j <= k1 implies r[#[trigger] (j * size) - 2] == usn.0
                        && r[j * size - 1] == usn.1 by {
                        assert(1 <= j <= k);
                    }
                    assert(ends_carry(r, size, k1 as int, usn));
                }
            }
        }
    }
}

/// Law of the fixups: for a record whose update sequence array lies apart from
/// the sector ends, [`MftParser::apply_fixups`] succeeds exactly when every
/// sector ends with the update sequence number, and then it puts back each
/// sector's saved pair of bytes and changes nothing else.
pub proof fn lemma_fixups_restore_sector_ends(r: Seq<u8>)
    requires
        fixup_header_ok(r),
        usa_apart(u16_at(r, 4) as int, fixup_sector_size(r), fixup_sectors(r)),
    ensures
        fixup_result(r).1 == ends_carry(
            r,
            fixup_sector_size(r),
            fixup_sectors(r),
            (r[u16_at(r, 4) as int], r[u16_at(r, 4) as int + 1]),
        ),
        fixup_result(r).1 ==> fixup_result(r).0 == restored(
            r,
            u16_at(r, 4) as int,
            fixup_sector_size(r),
            fixup_sectors(r),
        ),
{
    let size = fixup_sector_size(r);
    let k = fixup_sectors(r);
    assert(k * size == r.len()) by (nonlinear_arith)
        requires
            k > 0,
            (r.len() as int) % k == 0,
            size == (r.len() as int) / k,
    ;
    assert(size * k == r.len()) by (nonlinear_arith)
        requires
            k * size == r.len(),
    ;
    lemma_fixup_walk_restores(
        r,
        u16_at(r, 4) as int,
        size,
        (r[u16_at(r, 4) as int], r[u16_at(r, 4) as int + 1]),
        k as nat,
    );
}

// ---------------------------------------------------------------------------
// Attribute contents
// ---------------------------------------------------------------------------

/// Length of an attribute's name in characters (byte 9); 0 means unnamed.
pub open spec fn spec_attribute_name_length(attr: Seq<u8>) -> nat {
    if attr.len() > 9 { attr[9] as nat } else { 0 }
}

/// Flags of `$STANDARD_INFORMATION`.
pub struct StandardInfo {
    pub is_hidden: bool,
    pub is_system: bool,
}

/// `$STANDARD_INFORMATION`: resident, its DOS flags at byte 32 of the content,
/// with the whole 48 bytes of the basic content present.
pub open spec fn spec_standard_information(attr: Seq<u8>) -> Option<StandardInfo> {
    if attr.len() <= 8 || attr[8] != 0 || attr.len() < 22 {
        None
    } else {
        let content = u16_at(attr, 20) as int;
        if content + 48 > attr.len() {
            None
        } else {
            let flags = u32_at(attr, content + 32) as u32;
            Some(
                StandardInfo {
                    is_hidden: flags & file_flags::HIDDEN != 0,
                    is_system: flags & file_flags::SYSTEM != 0,
                },
            )
        }
    }
}

/// The DOS flags of `$STANDARD_INFORMATION`: bit `0x0002` marks a hidden file, bit
/// `0x0004` a system file, and each flag follows its own bit alone: flags of only
/// `0x0002` give a hidden file that is no system file, flags of only `0x0004` a
/// system file that is not hidden.
pub proof fn lemma_hidden_and_system_bits(attr: Seq<u8>)
    requires
        spec_standard_information(attr) is Some,
    ensures
        ({
            let info = spec_standard_information(attr).unwrap();
            let flags = u32_at(attr, u16_at(attr, 20) as int + 32) as u32;
            &&& info.is_hidden == (flags & 0x0002 != 0)
            &&& info.is_system == (flags & 0x0004 != 0)
            &&& flags == 0x0002 ==> info.is_hidden && !info.is_system
            &&& flags == 0x0004 ==> info.is_system && !info.is_hidden
        }),
{
    let flags = u32_at(attr, u16_at(attr, 20) as int + 32) as u32;
    assert(0x0002u32 & 0x0004u32 == 0) by (bit_vector);
    assert(0x0002u32 & 0x0002u32 != 0) by (bit_vector);
    assert(0x0004u32 & 0x0004u32 != 0) by (bit_vector);
    assert(0x0004u32 & 0x0002u32 == 0) by (bit_vector);
    let info = spec_standard_information(attr).unwrap();
    assert(info.is_hidden == (flags & 0x0002 != 0));
    assert(info.is_system == (flags & 0x0004 != 0));
}

/// The contents of a `$FILE_NAME` attribute.
pub struct FileNameAttr {
    pub parent_reference: u64,
    pub name: String,
    pub namespace: u8,
}

/// The value of a [`FileNameAttr`].
pub struct FileNameView {
    pub parent_reference: u64,
    pub name: Seq<char>,
    pub namespace: u8,
}

impl View for FileNameAttr {
    type V = FileNameView;

    open spec fn view(&self) -> FileNameView {
        FileNameView {
            parent_reference: self.parent_reference,
            name: self.name@,
            namespace: self.namespace,
        }
    }
}

/// The character that stands for an invalid UTF-16 sequence.
pub const REPLACEMENT: char = '\u{FFFD}';

/// UTF-16 decoding as `char::decode_utf16` does it, each unpaired surrogate
/// becoming [`REPLACEMENT`].
pub open spec fn decode_utf16(units: Seq<u16>) -> Seq<char>
    decreases units.len(),
{
    if units.len() == 0 {
        seq![]
    } else {
        let u = units[0];
        if u < 0xD800 || u >= 0xE000 {
            seq![(u as u32) as char] + decode_utf16(units.drop_first())
        } else if u < 0xDC00 && units.len() >= 2 && 0xDC00 <= units[1] && units[1] < 0xE000 {
            let scalar = 0x10000 + (u - 0xD800) * 0x400 + (units[1] - 0xDC00);
            seq![(scalar as u32) as char] + decode_utf16(units.skip(2))
        } else {
            seq![REPLACEMENT] + decode_utf16(units.drop_first())
        }
    }
}

/// The UTF-16 code units of one character: itself below `0x10000`, else a high
/// surrogate with the upper ten bits of `c - 0x10000` and a low one with the lower ten.
pub open spec fn utf16_of_char(c: char) -> Seq<u16> {
    let v = c as u32;
    if v < 0x10000 {
        seq![v as u16]
    } else {
        let w = v - 0x10000;
        seq![(0xD800 + w / 0x400) as u16, (0xDC00 + w % 0x400) as u16]
    }
}

/// The UTF-16 encoding of a string.
pub open spec fn encode_utf16(s: Seq<char>) -> Seq<u16>
    decreases s.len(),
{
    if s.len() == 0 {
        seq![]
    } else {
        utf16_of_char(s[0]) + encode_utf16(s.drop_first())
    }
}

/// Decoding undoes UTF-16 encoding: every string comes back from its code units,
/// characters outside the Basic Multilingual Plane from their surrogate pairs.
pub proof fn lemma_decode_inverts_encode(s: Seq<char>)
    ensures
        decode_utf16(encode_utf16(s)) == s,
    decreases s.len(),
{
    if s.len() > 0 {
        let c = s[0];
        let rest = encode_utf16(s.drop_first());
        lemma_decode_inverts_encode(s.drop_first());
        let units = utf16_of_char(c) + rest;
        let v = c as u32;
        vstd::utf8::char_is_scalar(c);
        assert(v <= 0x10FFFF && !(0xD800 <= v && v < 0xE000));
        if v < 0x10000 {
            assert(units.drop_first() =~= rest);
            assert((v as u16) as u32 == v);
            vstd::utf8::char_u32_cast(c, (v as u16) as u32);
            assert(((v as u16) as u32) as char == c);
        } else {
            let w = (v - 0x10000) as u32;
            let hi = (0xD800 + w / 0x400) as u16;
            let lo = (0xDC00 + w % 0x400) as u16;
            assert(units.skip(2) =~= rest);
            assert(w / 0x400 < 0x400 && w % 0x400 < 0x400 && w == (w / 0x400) * 0x400 + w % 0x400)
                by (nonlinear_arith)
                requires
                    w < 0x100000,
            ;
            assert(units[0] == hi && units[1] == lo);
            let scalar = 0x10000 + (hi - 0xD800) * 0x400 + (lo - 0xDC00);
            assert(scalar == v);
            vstd::utf8::char_u32_cast(c, scalar as u32);
            assert((scalar as u32) as char == c);
        }
        assert(s =~= seq![c] + s.drop_first());
    }
}

/// The UTF-16 code units of little-endian byte pairs.
pub open spec fn utf16_units(b: Seq<u8>) -> Seq<u16> {
    Seq::new(b.len() / 2, |i: int| u16_at(b, 2 * i) as u16)
}

/// The little-endian bytes of UTF-16 code units, two per unit.
pub open spec fn utf16_bytes(units: Seq<u16>) -> Seq<u8> {
    Seq::new(
        units.len() * 2,
        |i: int|
            if i % 2 == 0 {
                (units[i / 2] % 256) as u8
            } else {
                (units[i / 2] / 256) as u8
            },
    )
}

/// A name stored as UTF-16LE bytes, as `$FILE_NAME` holds it, is read back as
/// that name.
pub proof fn lemma_name_bytes_read_back(s: Seq<char>)
    ensures
        decode_utf16(utf16_units(utf16_bytes(encode_utf16(s)))) == s,
{
    let u = encode_utf16(s);
    let b = utf16_bytes(u);
    assert forall|i: int| 0 <= i < u.len() implies #[trigger] utf16_units(b)[i] == u[i] by {
        assert((2 * i) / 2 == i && (2 * i) % 2 == 0 && (2 * i + 1) / 2 == i && (2 * i + 1) % 2 == 1)
            by (nonlinear_arith);
        assert(b[2 * i] == (u[i] % 256) as u8 && b[2 * i + 1] == (u[i] / 256) as u8);
        assert((u[i] % 256) + 256 * (u[i] / 256) == u[i]) by (nonlinear_arith);
    }
    assert(utf16_units(b) =~= u);
    lemma_decode_inverts_encode(s);
}

/// `$FILE_NAME`: resident; in the content the parent's record number (its lower
/// six bytes), the name length at byte 64, the namespace at 65 and the UTF-16
/// name from 66.
pub open spec fn spec_file_name(attr: Seq<u8>) -> Option<FileNameView> {
    if attr.len() <= 8 || attr[8] != 0 || attr.len() < 22 {
        None
    } else {
        let offset = u16_at(attr, 20) as int;
        if offset + 66 > attr.len() {
            None
        } else {
            let content = attr.skip(offset);
            let name_length = content[64] as int;
            if 66 + name_length * 2 > content.len() {
                None
            } else {
                Some(
                    FileNameView {
                        parent_reference: le_uint(content.take(6)) as u64,
                        name: decode_utf16(utf16_units(content.subrange(66, 66 + name_length * 2))),
                        namespace: content[65],
                    },
                )
            }
        }
    }
}

/// The value of the lower six bytes of an eight-byte little-endian number is that
/// number modulo 2^48.
proof fn lemma_six_bytes(c: Seq<u8>)
    requires
        c.len() >= 8,
    ensures
        le_uint(c.take(6)) < 0x1_0000_0000_0000,
        le_uint(c.take(6)) == u64_at(c, 0) % 0x1_0000_0000_0000,
{
    let t = c.take(6);
    reveal_with_fuel(le_uint, 7);
    assert(t.drop_first() =~= c.subrange(1, 6));
    assert(t.drop_first().drop_first() =~= c.subrange(2, 6));
    assert(t.drop_first().drop_first().drop_first() =~= c.subrange(3, 6));
    assert(c.subrange(3, 6).drop_first() =~= c.subrange(4, 6));
    assert(c.subrange(4, 6).drop_first() =~= c.subrange(5, 6));
    assert(c.subrange(5, 6).drop_first() =~= c.subrange(6, 6));
    let low = c[0] as nat + 256 * (c[1] as nat + 256 * (c[2] as nat + 256 * (c[3] as nat + 256 * (
    c[4] as nat + 256 * c[5] as nat))));
    assert(le_uint(t) == low);
    let high = c[6] as nat + 256 * c[7] as nat;
    assert(low < 0x1_0000_0000_0000 && u64_at(c, 0) == 0x1_0000_0000_0000 * high + low)
        by (nonlinear_arith)
        requires
            low == c[0] as nat + 256 * (c[1] as nat + 256 * (c[2] as nat + 256 * (c[3] as nat + 256
                * (c[4] as nat + 256 * c[5] as nat)))),
            high == c[6] as nat + 256 * c[7] as nat,
            u64_at(c, 0) == (c[0] as nat + 256 * c[1] as nat) + 65536 * (c[2] as nat + 256
                * c[3] as nat) + 4294967296 * ((c[4] as nat + 256 * c[5] as nat) + 65536 * (
            c[6] as nat + 256 * c[7] as nat)),
            c[0] < 256,
            c[1] < 256,
            c[2] < 256,
            c[3] < 256,
            c[4] < 256,
            c[5] < 256,
    ;
    vstd::arithmetic::div_mod::lemma_mod_multiples_vanish(
        high as int,
        low as int,
        0x1_0000_0000_0000,
    );
    vstd::arithmetic::div_mod::lemma_small_mod(low, 0x1_0000_0000_0000);
}

/// The parent of a `$FILE_NAME` is a record number: the eight-byte reference at
/// the start of the content without its sequence number (the upper two bytes), so
/// below 2^48; two attributes that differ only in the sequence number give the
/// same result (the content lying after the 24-byte resident header).
pub proof fn lemma_parent_is_record_number(a: Seq<u8>, b: Seq<u8>)
    requires
        spec_file_name(a) is Some,
    ensures
        ({
            let n = spec_file_name(a).unwrap();
            let content = a.skip(u16_at(a, 20) as int);
            &&& n.parent_reference < 0x1_0000_0000_0000
            &&& n.parent_reference == u64_at(content, 0) % 0x1_0000_0000_0000
        }),
        ({
            let off = u16_at(a, 20) as int;
            (off >= 24 && b.len() == a.len() && u16_at(b, 20) == off && forall|i: int|
                0 <= i < a.len() && i != off + 6 && i != off + 7 ==> a[i] == b[i])
                ==> spec_file_name(b) == spec_file_name(a)
        }),
{
    let off = u16_at(a, 20) as int;
    let content = a.skip(off);
    lemma_six_bytes(content);
    if off >= 24 && b.len() == a.len() && u16_at(b, 20) == off && forall|i: int|
        0 <= i < a.len() && i != off + 6 && i != off + 7 ==> a[i] == b[i] {
        let cb = b.skip(off);
        let name_length = content[64] as int;
        assert(cb[64] == content[64]);
        assert(cb[65] == content[65]);
        assert(cb.take(6) =~= content.take(6));
        assert(cb.subrange(66, 66 + name_length * 2) =~= content.subrange(66, 66 + name_length * 2));
        assert(b[8] == a[8]);
    }
}

/// Real size of a non-resident attribute (byte 48).
pub open spec fn spec_nonresident_real_size(attr: Seq<u8>) -> Option<u64> {
    if attr.len() <= 8 || attr[8] == 0 || attr.len() < 56 {
        None
    } else {
        Some(u64_at(attr, 48) as u64)
    }
}

/// The file size that a `$DATA` attribute gives: the content length (byte 16) of
/// a resident one; the real size of a non-resident one that starts at virtual
/// cluster 0 (byte 16), since only the first piece of a split run list counts.
pub open spec fn spec_data_size(attr: Seq<u8>) -> Option<u64> {
    if attr.len() <= 8 {
        None
    } else if attr[8] != 0 {
        if attr.len() < 24 || u64_at(attr, 16) != 0 {
            None
        } else {
            spec_nonresident_real_size(attr)
        }
    } else if attr.len() < 20 {
        None
    } else {
        Some(u32_at(attr, 16) as u64)
    }
}

/// Ranking of name variants: long name before POSIX before the 8.3 name.
pub open spec fn spec_name_rank(namespace: u8) -> u8 {
    if namespace == file_name_namespace::WIN32 || namespace == file_name_namespace::WIN32_AND_DOS {
        3
    } else if namespace == file_name_namespace::POSIX {
        2
    } else if namespace == file_name_namespace::DOS {
        1
    } else {
        0
    }
}

/// Ranking of name variants: long name before POSIX before the 8.3 name.
pub fn name_rank(namespace: u8) -> (r: u8)
    ensures
        r == spec_name_rank(namespace),
{
    if namespace == file_name_namespace::WIN32 || namespace == file_name_namespace::WIN32_AND_DOS {
        3
    } else if namespace == file_name_namespace::POSIX {
        2
    } else if namespace == file_name_namespace::DOS {
        1
    } else {
        0
    }
}

// ---------------------------------------------------------------------------
// The walk over a record's attributes
// ---------------------------------------------------------------------------

/// What the walk over the attributes of a record has collected.
pub struct RecordScan {
    /// The best name so far, with its rank.
    pub best_name: Option<(u8, FileNameView)>,
    /// Size of the unnamed data stream.
    pub size: Option<u64>,
    pub is_hidden: bool,
    pub is_system: bool,
    pub has_attribute_list: bool,
}

pub open spec fn empty_scan() -> RecordScan {
    RecordScan { best_name: None, size: None, is_hidden: false, is_system: false, has_attribute_list: false }
}

/// One attribute of the walk: flags from `$STANDARD_INFORMATION`, the attribute
/// list's presence, a name that ranks above the one so far (the first one wins
/// among equals), the size of the unnamed `$DATA` stream (the last one wins).
pub open spec fn scan_step(s: RecordScan, attr: (u32, Seq<u8>)) -> RecordScan {
    let (t, a) = attr;
    if t == attribute_types::STANDARD_INFORMATION {
        match spec_standard_information(a) {
            Some(info) => RecordScan { is_hidden: info.is_hidden, is_system: info.is_system, ..s },
            None => s,
        }
    } else if t == attribute_types::ATTRIBUTE_LIST {
        RecordScan { has_attribute_list: true, ..s }
    } else if t == attribute_types::FILE_NAME {
        match spec_file_name(a) {
            Some(name) => {
                let rank = spec_name_rank(name.namespace);
                match s.best_name {
                    Some(best) if rank <= best.0 => s,
                    _ => RecordScan { best_name: Some((rank, name)), ..s },
                }
            },
            None => s,
        }
    } else if t == attribute_types::DATA {
        if spec_attribute_name_length(a) == 0 && spec_data_size(a) is Some {
            RecordScan { size: spec_data_size(a), ..s }
        } else {
            s
        }
    } else {
        s
    }
}

/// The walk over a list of attributes.
pub open spec fn scan_attributes(attrs: Seq<(u32, Seq<u8>)>) -> RecordScan
    decreases attrs.len(),
{
    if attrs.len() == 0 {
        empty_scan()
    } else {
        scan_step(scan_attributes(attrs.drop_last()), attrs.last())
    }
}

/// Record number of the base record (byte 32, without the sequence number in the
/// upper 16 bits); 0 for a base record itself.
pub open spec fn base_reference(r: Seq<u8>) -> u64 {
    (u64_at(r, 32) as u64) & 0x0000_FFFF_FFFF_FFFF
}

/// What a record holds: nothing for a record that is too short, lacks the
/// signature, or is not in use (bit 0 of the flags at byte 22); an extension
/// record when byte 32 names a base record; else a file or directory (bit 1)
/// with its best name, or with an empty name of rank 0 where there is none but an
/// attribute list (the name is in an extension record); nothing where there is
/// neither. A file's size is that of its unnamed data stream, a directory's 0.
pub open spec fn spec_parse(r: Seq<u8>, mft_reference: u64) -> Option<ParsedRecordView> {
    if r.len() < 48 || !has_file_signature(r) {
        None
    } else {
        let flags = u16_at(r, 22) as u16;
        if flags & 0x01 == 0 {
            None
        } else {
            let scan = scan_attributes(record_attributes(r));
            let base = base_reference(r);
            if base != 0 {
                Some(
                    ParsedRecordView::Extension(
                        ExtensionRecordView {
                            base_reference: base,
                            data_size: scan.size,
                            file_name: match scan.best_name {
                                Some((rank, name)) => Some(
                                    ExtensionNameView {
                                        rank,
                                        parent_reference: name.parent_reference,
                                        name: name.name,
                                    },
                                ),
                                None => None,
                            },
                        },
                    ),
                )
            } else {
                let entry = |rank: u8, parent: u64, name: Seq<char>|
                    ParsedRecordView::Entry {
                        entry: FileEntryView {
                            mft_reference,
                            parent_reference: parent,
                            name,
                            size: if flags & 0x02 != 0 {
                                0
                            } else {
                                match scan.size {
                                    Some(s) => s,
                                    None => 0,
                                }
                            },
                            is_directory: flags & 0x02 != 0,
                            is_hidden: scan.is_hidden,
                            is_system: scan.is_system,
                        },
                        name_rank: rank,
                    };
                match scan.best_name {
                    Some((rank, name)) => Some(entry(rank, name.parent_reference, name.name)),
                    None => if scan.has_attribute_list {
                        Some(entry(0, 0, seq![]))
                    } else {
                        None
                    },
                }
            }
        }
    }
}

/// The best name found in a walk over attributes has a record number as parent.
proof fn lemma_scan_parents(attrs: Seq<(u32, Seq<u8>)>)
    ensures
        scan_attributes(attrs).best_name matches Some((rank, n)) ==> n.parent_reference
            < 0x1_0000_0000_0000,
    decreases attrs.len(),
{
    if attrs.len() > 0 {
        lemma_scan_parents(attrs.drop_last());
        let a = attrs.last().1;
        if spec_file_name(a) is Some {
            lemma_parent_is_record_number(a, a);
        }
    }
}

/// Every parent that a parsed record names is a record number, below 2^48: the
/// sequence number in the upper two bytes of the reference is not part of it.
pub proof fn lemma_parsed_parents_are_record_numbers(r: Seq<u8>, mft_reference: u64)
    ensures
        spec_parse(r, mft_reference) matches Some(ParsedRecordView::Entry { entry, .. })
            ==> entry.parent_reference < 0x1_0000_0000_0000,
        spec_parse(r, mft_reference) matches Some(ParsedRecordView::Extension(e)) ==> (
        e.file_name matches Some(n) ==> n.parent_reference < 0x1_0000_0000_0000),
{
    lemma_scan_parents(record_attributes(r));
}

/// A named base record: what [`MftParser::parse_record`] returns.
pub open spec fn spec_parse_record(r: Seq<u8>, mft_reference: u64) -> Option<FileEntryView> {
    match spec_parse(r, mft_reference) {
        Some(ParsedRecordView::Entry { entry, .. }) => if entry.name.len() > 0 {
            Some(entry)
        } else {
            None
        },
        _ => None,
    }
}


impl MftParser {
    /// The attributes of a (fixed-up) record, each as its type and its bytes
    /// including the header. The list stops at the end marker or at an
    /// implausible length.
    pub fn attributes(record: &[u8]) -> (r: Vec<(u32, &[u8])>)
        ensures
            attribute_values(r@) == record_attributes(record@),
    {
        let len: usize = record.len();
        let mut offset: usize = if len >= 24 && record[0] == 0x46 && record[1] == 0x49
            && record[2] == 0x4C && record[3] == 0x45 {
            read_u16(record, 20) as usize
        } else {
            len
        };
        let mut out: Vec<(u32, &[u8])> = Vec::new();
        proof {
            assert(attribute_values(out@) =~= Seq::<(u32, Seq<u8>)>::empty());
            assert(record_attributes(record@) =~= attribute_values(out@) + attributes_from(
                record@,
                offset as int,
            ));
        }
        loop
            invariant
                len == record@.len(),
                record_attributes(record@) == attribute_values(out@) + attributes_from(
                    record@,
                    offset as int,
                ),
            ensures
                record_attributes(record@) == attribute_values(out@),
            decreases len - offset,
        {
            if len < 8 || offset > len - 8 {
                proof {
                    assert(attributes_from(record@, offset as int) =~= Seq::<(u32, Seq<u8>)>::empty());
                    assert(record_attributes(record@) =~= attribute_values(out@));
                }
                break;
            }
            let attr_type: u32 = read_u32(record, offset);
            if attr_type == attribute_types::END_MARKER {
                proof {
                    assert(attributes_from(record@, offset as int) =~= Seq::<(u32, Seq<u8>)>::empty());
                    assert(record_attributes(record@) =~= attribute_values(out@));
                }
                break;
            }
            let attr_length: usize = read_u32(record, offset + 4) as usize;
            if attr_length < 16 || attr_length > len - offset {
                proof {
                    assert(attributes_from(record@, offset as int) =~= Seq::<(u32, Seq<u8>)>::empty());
                    assert(record_attributes(record@) =~= attribute_values(out@));
                }
                break;
            }
            let attr: &[u8] = &record[offset..offset + attr_length];
            let ghost before = attribute_values(out@);
            out.push((attr_type, attr));
            proof {
                assert(attribute_values(out@) =~= before.push((attr_type, attr@)));
                assert(attributes_from(record@, offset as int) =~= seq![(attr_type, attr@)]
                    + attributes_from(record@, offset + attr_length));
                assert(record_attributes(record@) =~= attribute_values(out@) + attributes_from(
                    record@,
                    offset + attr_length,
                ));
            }
            offset = offset + attr_length;
        }
        out
    }

    /// Length of the attribute's name in characters (byte 9); 0 means unnamed.
    pub fn attribute_name_length(attr: &[u8]) -> (r: usize)
        ensures
            r == spec_attribute_name_length(attr@),
    {
        if attr.len() > 9 {
            attr[9] as usize
        } else {
            0
        }
    }

    /// Parses `$STANDARD_INFORMATION`.
    fn parse_standard_information(attr: &[u8]) -> (r: Option<StandardInfo>)
        ensures
            r == spec_standard_information(attr@),
    {
        if attr.len() <= 8 || attr[8] != 0 || attr.len() < 22 {
            return None;
        }
        let content: usize = read_u16(attr, 20) as usize;
        if content + 48 > attr.len() {
            return None;
        }
        let flags: u32 = read_u32(attr, content + 32);
        Some(
            StandardInfo {
                is_hidden: flags & file_flags::HIDDEN != 0,
                is_system: flags & file_flags::SYSTEM != 0,
            },
        )
    }

    /// Decodes the UTF-16LE name in `bytes` (of even length).
    fn decode_name(bytes: &[u8]) -> (r: String)
        ensures
            r@ == decode_utf16(utf16_units(bytes@)),
    {
        let n: usize = bytes.len() / 2;
        let ghost units = utf16_units(bytes@);
        let mut name: String = String::new();
        let mut i: usize = 0;
        proof {
            assert(units.skip(0) =~= units);
        }
        while i < n
            invariant
                n == bytes@.len() / 2,
                n == bytes.len() / 2,
                units == utf16_units(bytes@),
                i <= n,
                decode_utf16(units) == name@ + decode_utf16(units.skip(i as int)),
            decreases n - i,
        {
            let u: u16 = read_u16(bytes, 2 * i);
            let ghost rest = units.skip(i as int);
            assert(u == rest[0]);
            if u < 0xD800 || u >= 0xE000 {
                let c: Option<char> = char_from_u32(u as u32);
                let c: char = c.unwrap();
                proof {
                    assert(c == (u as u32) as char);
                    assert(rest.drop_first() =~= units.skip(i + 1));
                    assert(decode_utf16(rest) =~= seq![c] + decode_utf16(units.skip(i + 1)));
                }
                let ghost before = name@;
                push_char(&mut name, c);
                proof {
                    assert(before + decode_utf16(rest) =~= name@ + decode_utf16(units.skip(i + 1)));
                }
                i = i + 1;
            } else if u < 0xDC00 && i + 1 < n && {
                let v: u16 = read_u16(bytes, 2 * i + 2);
                0xDC00 <= v && v < 0xE000
            } {
                let v: u16 = read_u16(bytes, 2 * i + 2);
                assert(v == rest[1]);
                let scalar: u32 = 0x10000 + (u as u32 - 0xD800) * 0x400 + (v as u32 - 0xDC00);
                let c: Option<char> = char_from_u32(scalar);
                let c: char = c.unwrap();
                proof {
                    assert(c == scalar as char);
                    assert(rest.skip(2) =~= units.skip(i + 2));
                    assert(decode_utf16(rest) =~= seq![c] + decode_utf16(units.skip(i + 2)));
                }
                let ghost before = name@;
                push_char(&mut name, c);
                proof {
                    assert(before + decode_utf16(rest) =~= name@ + decode_utf16(units.skip(i + 2)));
                }
                i = i + 2;
            } else {
                proof {
                    assert(rest.drop_first() =~= units.skip(i + 1));
                    assert(decode_utf16(rest) =~= seq![REPLACEMENT] + decode_utf16(units.skip(i + 1)));
                }
                let ghost before = name@;
                push_char(&mut name, REPLACEMENT);
                proof {
                    assert(before + decode_utf16(rest) =~= name@ + decode_utf16(units.skip(i + 1)));
                }
                i = i + 1;
            }
        }
        proof {
            assert(units.skip(n as int) =~= Seq::<u16>::empty());
            assert(name@ + decode_utf16(units.skip(n as int)) =~= name@);
        }
        name
    }

    /// Parses `$FILE_NAME`.
    fn parse_file_name(attr: &[u8]) -> (r: Option<FileNameAttr>)
        ensures
            match r {
                Some(f) => spec_file_name(attr@) == Some(f@),
                None => spec_file_name(attr@) is None,
            },
    {
        if attr.len() <= 8 || attr[8] != 0 || attr.len() < 22 {
            return None;
        }
        let offset: usize = read_u16(attr, 20) as usize;
        if offset + 66 > attr.len() {
            return None;
        }
        let content: &[u8] = &attr[offset..attr.len()];
        assert(content@ =~= attr@.skip(offset as int));
        let name_length: usize = content[64] as usize;
        if 66 + name_length * 2 > content.len() {
            return None;
        }
        let parent_reference: u64 = read_uint_le(&content[0..6]);
        assert(content@.subrange(0, 6) =~= content@.take(6));
        let name: String = Self::decode_name(&content[66..66 + name_length * 2]);
        Some(FileNameAttr { parent_reference, name, namespace: content[65] })
    }

    /// Real size of a non-resident attribute (byte 48).
    pub fn nonresident_real_size(attr: &[u8]) -> (r: Option<u64>)
        ensures
            r == spec_nonresident_real_size(attr@),
    {
        if attr.len() <= 8 || attr[8] == 0 || attr.len() < 56 {
            None
        } else {
            Some(read_u64(attr, 48))
        }
    }

    /// The file size that a `$DATA` attribute gives.
    fn parse_data_attribute(attr: &[u8]) -> (r: Option<u64>)
        ensures
            r == spec_data_size(attr@),
    {
        if attr.len() <= 8 {
            None
        } else if attr[8] != 0 {
            if attr.len() < 24 || read_u64(attr, 16) != 0 {
                None
            } else {
                Self::nonresident_real_size(attr)
            }
        } else if attr.len() < 20 {
            None
        } else {
            Some(read_u32(attr, 16) as u64)
        }
    }
}

/// The value of the state of the attribute walk in [`MftParser::parse`].
pub open spec fn scan_view(
    best_name: Option<(u8, FileNameAttr)>,
    size: Option<u64>,
    is_hidden: bool,
    is_system: bool,
    has_attribute_list: bool,
) -> RecordScan {
    RecordScan {
        best_name: match best_name {
            Some((rank, name)) => Some((rank, name@)),
            None => None,
        },
        size,
        is_hidden,
        is_system,
        has_attribute_list,
    }
}

impl MftParser {
    /// Parses a raw record after [`MftParser::apply_fixups`]: a file or directory,
    /// an extension record that belongs to another record, or nothing for unused,
    /// deleted and nameless system records (see [`spec_parse`]).
    pub fn parse(record: &[u8], mft_reference: u64) -> (r: Option<ParsedRecord>)
        ensures
            parsed_view(r) == spec_parse(record@, mft_reference),
    {
        if record.len() < 48 || record[0] != 0x46 || record[1] != 0x49 || record[2] != 0x4C
            || record[3] != 0x45 {
            return None;
        }
        let flags: u16 = read_u16(record, 22);
        if flags & 0x01 == 0 {
            return None;
        }
        let is_directory: bool = flags & 0x02 != 0;
        let base_record: u64 = read_u64(record, 32) & 0x0000_FFFF_FFFF_FFFF;

        let attrs: Vec<(u32, &[u8])> = Self::attributes(record);
        let ghost list = attribute_values(attrs@);
        let mut best_name: Option<(u8, FileNameAttr)> = None;
        let mut size: Option<u64> = None;
        let mut is_hidden: bool = false;
        let mut is_system: bool = false;
        let mut has_attribute_list: bool = false;
        let mut i: usize = 0;
        proof {
            assert(list.take(0) =~= Seq::<(u32, Seq<u8>)>::empty());
        }
        while i < attrs.len()
            invariant
                i <= attrs@.len(),
                list == attribute_values(attrs@),
                list == record_attributes(record@),
                scan_view(best_name, size, is_hidden, is_system, has_attribute_list)
                    == scan_attributes(list.take(i as int)),
            decreases attrs@.len() - i,
        {
            let attr_type: u32 = attrs[i].0;
            let attr: &[u8] = attrs[i].1;
            let ghost before = scan_view(best_name, size, is_hidden, is_system, has_attribute_list);
            proof {
                assert(list.take(i + 1).drop_last() =~= list.take(i as int));
                assert(list.take(i + 1).last() == (attr_type, attr@));
            }
            if attr_type == attribute_types::STANDARD_INFORMATION {
                match Self::parse_standard_information(attr) {
                    Some(info) => {
                        is_hidden = info.is_hidden;
                        is_system = info.is_system;
                    },
                    None => {},
                }
            } else if attr_type == attribute_types::ATTRIBUTE_LIST {
                has_attribute_list = true;
            } else if attr_type == attribute_types::FILE_NAME {
                match Self::parse_file_name(attr) {
                    Some(file_name) => {
                        let rank: u8 = name_rank(file_name.namespace);
                        let better: bool = match &best_name {
                            Some(best) => rank > best.0,
                            None => true,
                        };
                        if better {
                            best_name = Some((rank, file_name));
                        }
                    },
                    None => {},
                }
            } else if attr_type == attribute_types::DATA {
                if Self::attribute_name_length(attr) == 0 {
                    match Self::parse_data_attribute(attr) {
                        Some(data_size) => {
                            size = Some(data_size);
                        },
                        None => {},
                    }
                }
            }
            proof {
                assert(scan_view(best_name, size, is_hidden, is_system, has_attribute_list)
                    == scan_step(before, (attr_type, attr@)));
            }
            i = i + 1;
        }
        proof {
            assert(list.take(attrs@.len() as int) =~= list);
            assert(base_record == base_reference(record@));
        }

        if base_record != 0 {
            let file_name: Option<ExtensionName> = match best_name {
                Some((rank, name)) => Some(
                    ExtensionName {
                        rank,
                        parent_reference: name.parent_reference,
                        name: name.name,
                    },
                ),
                None => None,
            };
            return Some(
                ParsedRecord::Extension(
                    ExtensionRecord { base_reference: base_record, data_size: size, file_name },
                ),
            );
        }

        let (name_rank, parent_reference, name): (u8, u64, String) = match best_name {
            Some((rank, file_name)) => (rank, file_name.parent_reference, file_name.name),
            None => {
                if has_attribute_list {
                    (0, 0, String::new())
                } else {
                    return None;
                }
            },
        };
        let size: u64 = if is_directory {
            0
        } else {
            match size {
                Some(s) => s,
                None => 0,
            }
        };
        Some(
            ParsedRecord::Entry {
                entry: FileEntry {
                    mft_reference,
                    parent_reference,
                    name,
                    size,
                    is_directory,
                    is_hidden,
                    is_system,
                },
                name_rank,
            },
        )
    }

    /// A named file or directory from a base record: [`MftParser::parse`] without
    /// extension records, placeholders and nameless records.
    pub fn parse_record(record: &[u8], mft_reference: u64) -> (r: Option<FileEntry>)
        ensures
            entry_view(r) == spec_parse_record(record@, mft_reference),
    {
        match Self::parse(record, mft_reference) {
            Some(ParsedRecord::Entry { entry, .. }) => {
                if entry.name.as_str().unicode_len() > 0 {
                    Some(entry)
                } else {
                    None
                }
            },
            _ => None,
        }
    }
}

// ---------------------------------------------------------------------------
// Data runs
// ---------------------------------------------------------------------------

/// `prefix` in front of the runs of `rest`, if there are any.
pub open spec fn runs_after(prefix: Seq<DataRun>, rest: Option<Seq<DataRun>>) -> Option<Seq<DataRun>> {
    match rest {
        Some(r) => Some(prefix + r),
        None => None,
    }
}

/// The run list from byte `pos` on, the previous run starting at cluster `lcn`.
///
/// Each run starts with a header byte: its low four bits give the size of the
/// length field (1 to 8 bytes), its high four bits that of the offset field (up to
/// 8). The length (in clusters, not 0) follows, unsigned, then the offset of the
/// first cluster relative to the previous run, signed. A header of 0 ends the
/// list; a run without offset field is sparse. The list is rejected where a field
/// leaves the attribute or a cluster number falls below 0 or above `i64::MAX`.
pub open spec fn runs_from(attr: Seq<u8>, pos: int, lcn: int) -> Option<Seq<DataRun>>
    decreases attr.len() - pos,
{
    if pos < 0 || pos >= attr.len() {
        None
    } else {
        let header = attr[pos];
        if header == 0 {
            Some(seq![])
        } else {
            let length_size = (header & 0x0F) as int;
            let offset_size = (header >> 4) as int;
            let p1 = pos + 1;
            if length_size == 0 || length_size > 8 || offset_size > 8 || p1 + length_size
                > attr.len() {
                None
            } else {
                let length = le_uint(attr.subrange(p1, p1 + length_size));
                let p2 = p1 + length_size;
                if length == 0 {
                    None
                } else if offset_size == 0 {
                    runs_after(seq![DataRun { lcn: None, length: length as u64 }], runs_from(attr, p2, lcn))
                } else if p2 + offset_size > attr.len() {
                    None
                } else {
                    let next = lcn + le_int(attr.subrange(p2, p2 + offset_size));
                    if next < 0 || next > i64::MAX {
                        None
                    } else {
                        runs_after(
                            seq![DataRun { lcn: Some(next as u64), length: length as u64 }],
                            runs_from(attr, p2 + offset_size, next),
                        )
                    }
                }
            }
        }
    }
}

/// The run list of a non-resident attribute; it starts at the offset in bytes 32-33.
pub open spec fn spec_data_runs(attr: Seq<u8>) -> Option<Seq<DataRun>> {
    if attr.len() <= 8 || attr[8] == 0 || attr.len() < 34 {
        None
    } else {
        runs_from(attr, u16_at(attr, 32) as int, 0)
    }
}

/// The offset fields of the run list from byte `pos` on, one per run as far as the
/// headers can be read: the signed offset of a run's first cluster, `None` for a
/// sparse run.
pub open spec fn run_offsets(attr: Seq<u8>, pos: int) -> Seq<Option<int>>
    decreases attr.len() - pos,
{
    if pos < 0 || pos >= attr.len() || attr[pos] == 0 {
        seq![]
    } else {
        let length_size = (attr[pos] & 0x0F) as int;
        let offset_size = (attr[pos] >> 4) as int;
        let p2 = pos + 1 + length_size;
        if length_size == 0 || length_size > 8 || offset_size > 8 || p2 > attr.len() {
            seq![]
        } else if offset_size == 0 {
            seq![None] + run_offsets(attr, p2)
        } else if p2 + offset_size > attr.len() {
            seq![]
        } else {
            seq![Some(le_int(attr.subrange(p2, p2 + offset_size)))] + run_offsets(
                attr,
                p2 + offset_size,
            )
        }
    }
}

/// The sum of the offsets among the first `i` fields; sparse runs add nothing.
pub open spec fn offsets_before(f: Seq<Option<int>>, i: int) -> int
    decreases i,
{
    if i <= 0 || i > f.len() {
        0
    } else {
        offsets_before(f, i - 1) + match f[i - 1] {
            Some(o) => o,
            None => 0,
        }
    }
}

/// The offsets before field `i + 1` of a list with `x` in front: `x`'s offset and
/// those before field `i` of the rest.
proof fn lemma_offsets_front(x: Option<int>, g: Seq<Option<int>>, i: int)
    requires
        0 <= i <= g.len(),
    ensures
        offsets_before(seq![x] + g, i + 1) == (match x {
            Some(o) => o,
            None => 0,
        }) + offsets_before(g, i),
    decreases i,
{
    let f = seq![x] + g;
    if i > 0 {
        lemma_offsets_front(x, g, i - 1);
        assert(f[i] == g[i - 1]);
    } else {
        assert(offsets_before(f, 0) == 0);
    }
}

/// Run offsets are relative: the first cluster of each run that is not sparse is
/// the cluster `lcn` the list starts from plus the offsets of all runs up to and
/// including it, so each run lies at the first cluster of the run before it (of
/// the last one that is not sparse) plus its own offset. Sparse runs are exactly
/// those without an offset field.
pub proof fn lemma_runs_are_relative(attr: Seq<u8>, pos: int, lcn: int)
    requires
        runs_from(attr, pos, lcn) is Some,
    ensures
        ({
            let runs = runs_from(attr, pos, lcn).unwrap();
            let f = run_offsets(attr, pos);
            &&& runs.len() == f.len()
            &&& forall|i: int|
                0 <= i < runs.len() ==> ((#[trigger] runs[i]).lcn is None <==> f[i] is None)
                    && (f[i] is Some ==> runs[i].lcn == Some(
                    (lcn + offsets_before(f, i + 1)) as u64,
                ))
        }),
    decreases attr.len() - pos,
{
    let header = attr[pos];
    if header != 0 {
        let length_size = (header & 0x0F) as int;
        let offset_size = (header >> 4) as int;
        let p2 = pos + 1 + length_size;
        let (next_pos, base) = if offset_size == 0 {
            (p2, lcn)
        } else {
            (p2 + offset_size, lcn + le_int(attr.subrange(p2, p2 + offset_size)))
        };
        lemma_runs_are_relative(attr, next_pos, base);
        let runs = runs_from(attr, pos, lcn).unwrap();
        let rest = runs_from(attr, next_pos, base).unwrap();
        let f = run_offsets(attr, pos);
        let g = run_offsets(attr, next_pos);
        assert(f =~= seq![f[0]] + g);
        assert forall|i: int| 0 <= i < runs.len() implies ((#[trigger] runs[i]).lcn is None
            <==> f[i] is None) && (f[i] is Some ==> runs[i].lcn == Some(
            (lcn + offsets_before(f, i + 1)) as u64,
        )) by {
            lemma_offsets_front(f[0], g, i);
            if i > 0 {
                assert(runs[i] == rest[i - 1]);
                assert(f[i] == g[i - 1]);
                lemma_offsets_front(f[0], g, i - 1);
            }
        }
    }
}

/// The run list of a non-resident attribute (see [`lemma_runs_are_relative`]): the
/// first cluster of each run that is not sparse is the sum of the offsets of all
/// runs up to and including it.
pub proof fn lemma_data_runs_are_relative(attr: Seq<u8>)
    requires
        spec_data_runs(attr) is Some,
    ensures
        ({
            let runs = spec_data_runs(attr).unwrap();
            let f = run_offsets(attr, u16_at(attr, 32) as int);
            &&& runs.len() == f.len()
            &&& forall|i: int|
                0 <= i < runs.len() ==> ((#[trigger] runs[i]).lcn is None <==> f[i] is None)
                    && (f[i] is Some ==> runs[i].lcn == Some(offsets_before(f, i + 1) as u64))
        }),
{
    lemma_runs_are_relative(attr, u16_at(attr, 32) as int, 0);
}

impl MftParser {
    /// Decodes the data runs of a non-resident attribute (see [`runs_from`]).
    pub fn parse_data_runs(attr: &[u8]) -> (r: Option<Vec<DataRun>>)
        ensures
            match r {
                Some(v) => spec_data_runs(attr@) == Some(v@),
                None => spec_data_runs(attr@) is None,
            },
    {
        let len: usize = attr.len();
        if len <= 8 || attr[8] == 0 || len < 34 {
            return None;
        }
        let mut pos: usize = read_u16(attr, 32) as usize;
        let mut runs: Vec<DataRun> = Vec::new();
        let mut lcn: i64 = 0;
        proof {
            assert(runs@ + Seq::<DataRun>::empty() =~= runs@);
            assert(runs_after(runs@, runs_from(attr@, pos as int, 0)) == runs_from(attr@, pos as int, 0)) by {
                match runs_from(attr@, pos as int, 0) {
                    Some(rest) => assert(runs@ + rest =~= rest),
                    None => {},
                }
            }
        }
        loop
            invariant
                len == attr@.len(),
                len >= 34,
                attr@[8] != 0,
                0 <= lcn,
                spec_data_runs(attr@) == runs_after(runs@, runs_from(attr@, pos as int, lcn as int)),
            decreases len - pos,
        {
            if pos >= len {
                return None;
            }
            let header: u8 = attr[pos];
            if header == 0 {
                proof {
                    assert(runs@ + Seq::<DataRun>::empty() =~= runs@);
                }
                return Some(runs);
            }
            let length_size: usize = (header & 0x0F) as usize;
            let offset_size: usize = (header >> 4) as usize;
            if length_size == 0 || length_size > 8 || offset_size > 8 {
                return None;
            }
            let p1: usize = pos + 1;
            if length_size > len - p1 {
                return None;
            }
            let length: u64 = read_uint_le(&attr[p1..p1 + length_size]);
            let p2: usize = p1 + length_size;
            if length == 0 {
                return None;
            }
            let ghost before = runs@;
            if offset_size == 0 {
                let run = DataRun { lcn: None, length };
                runs.push(run);
                proof {
                    match runs_from(attr@, p2 as int, lcn as int) {
                        Some(rest) => assert(before + (seq![run] + rest) =~= runs@ + rest),
                        None => {},
                    }
                }
                pos = p2;
            } else {
                if offset_size > len - p2 {
                    return None;
                }
                let delta: i64 = read_int_le(&attr[p2..p2 + offset_size]);
                let next: Option<i64> = lcn.checked_add(delta);
                match next {
                    None => {
                        return None;
                    },
                    Some(next) => {
                        if next < 0 {
                            return None;
                        }
                        lcn = next;
                    },
                }
                let run = DataRun { lcn: Some(lcn as u64), length };
                runs.push(run);
                proof {
                    match runs_from(attr@, (p2 + offset_size) as int, lcn as int) {
                        Some(rest) => assert(before + (seq![run] + rest) =~= runs@ + rest),
                        None => {},
                    }
                }
                pos = p2 + offset_size;
            }
        }
    }
}
} // verus!
