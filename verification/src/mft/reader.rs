//! The boot sector and the walk over the fragments of the table.
//!
//! Reading the volume is left to the caller: [`MftReader::new`] takes the first
//! sector as bytes, [`MftReader::mft_layout`] the table's record 0, and
//! [`MftScan`] says which block to read next and takes each block as it comes.

use vstd::prelude::*;
use vstd::arithmetic::power2::pow2;
use crate::bytes::{read_u16, read_u64, u16_at, u64_at};
use crate::mft::types::{FileEntry, FileEntryView, MftError};
use crate::mft::parser::{
    DataRun, MftParser, attribute_values, fixup_header_ok, fixup_result, record_attributes,
    spec_attribute_name_length, spec_data_runs, spec_nonresident_real_size, spec_parse_record,
};
use crate::mft::parser::attribute_types::DATA;
use std::collections::HashMap;
use crate::text::{decimal, push_decimal, push_str, to_uppercase, uppercase_of};

verus! {

/// The geometry of an NTFS volume, from its boot sector.
#[derive(Debug, Clone, Copy, PartialEq, Eq, Structural)]
pub struct BootSectorInfo {
    pub bytes_per_sector: u32,
    pub sectors_per_cluster: u32,
    pub bytes_per_mft_record: u32,
    pub mft_start_cluster: u64,
    pub total_clusters: u64,
}

/// Bytes 3 to 6 of the boot sector read `NTFS`.
pub open spec fn ntfs_signature(b: Seq<u8>) -> bool {
    &&& b.len() >= 7
    &&& b[3] == 0x4E
    &&& b[4] == 0x54
    &&& b[5] == 0x46
    &&& b[6] == 0x53
}

/// Sectors per cluster from byte 13: values above 128 stand for 2 to the power
/// 256 - n (clusters of 128 KiB and more).
pub open spec fn spec_sectors_per_cluster(n: u8) -> nat {
    if n > 128 {
        pow2((256 - n) as nat)
    } else {
        n as nat
    }
}

/// Bytes per record from byte 64, a signed byte: a negative value -k stands for
/// 2 to the power k bytes, a positive one for that many clusters.
pub open spec fn spec_record_bytes(c: u8, sectors_per_cluster: nat, bytes_per_sector: nat) -> nat {
    if c >= 128 {
        pow2((256 - c) as nat)
    } else {
        c as nat * sectors_per_cluster * bytes_per_sector
    }
}

/// The boot sector is long enough, carries the signature and a cluster size.
pub open spec fn boot_sector_usable(b: Seq<u8>) -> bool {
    b.len() >= 512 && ntfs_signature(b) && b[13] != 0
}

/// The geometry of a usable boot sector can be computed in 32 bits: a power of two
/// below 2^32 for the cluster and record sizes, and a record size in clusters whose
/// products fit. Other values overflow the computation.
pub open spec fn boot_geometry_fits(b: Seq<u8>) -> bool {
    boot_sector_usable(b) ==> {
        let spc = spec_sectors_per_cluster(b[13]);
        &&& (b[13] <= 128 || b[13] >= 225)
        &&& (b[64] >= 128 ==> b[64] >= 225)
        &&& (b[64] < 128 ==> b[64] as nat * spc <= u32::MAX && b[64] as nat * spc * u16_at(b, 11)
            <= u32::MAX)
    }
}

/// The geometry that a usable boot sector describes.
pub open spec fn spec_boot_info(b: Seq<u8>) -> BootSectorInfo {
    let bps = u16_at(b, 11);
    let spc = spec_sectors_per_cluster(b[13]);
    BootSectorInfo {
        bytes_per_sector: bps as u32,
        sectors_per_cluster: spc as u32,
        bytes_per_mft_record: spec_record_bytes(b[64], spc, bps) as u32,
        mft_start_cluster: u64_at(b, 48) as u64,
        total_clusters: (u64_at(b, 40) / spc) as u64,
    }
}

/// Whether [`parse_boot_sector`] can compute the geometry of `buffer` without
/// overflowing (see [`boot_geometry_fits`]).
pub fn boot_geometry_supported(buffer: &[u8]) -> (r: bool)
    ensures
        r == boot_geometry_fits(buffer@),
{
    if buffer.len() < 512 || buffer[3] != 0x4E || buffer[4] != 0x54 || buffer[5] != 0x46
        || buffer[6] != 0x53 || buffer[13] == 0 {
        return true;
    }
    let n: u8 = buffer[13];
    if n > 128 && n < 225 {
        return false;
    }
    let c: u8 = buffer[64];
    if c >= 128 {
        return c >= 225;
    }
    let bps: u64 = read_u16(buffer, 11) as u64;
    let spc: u64 = if n > 128 {
        proof {
            vstd::bits::lemma_u64_pow2_no_overflow((256 - n) as nat);
        }
        shift_one((256 - n as u32) as u32) as u64
    } else {
        n as u64
    };
    proof {
        assert(c as u64 * spc <= 128u64 * 0xFFFF_FFFFu64) by (nonlinear_arith)
            requires
                c < 128,
                spc <= 0xFFFF_FFFF,
        ;
    }
    let cs: u64 = c as u64 * spc;
    if cs > 0xFFFF_FFFF {
        return false;
    }
    proof {
        assert(cs * bps <= 0xFFFF_FFFFu64 * 0xFFFFu64) by (nonlinear_arith)
            requires
                cs <= 0xFFFF_FFFF,
                bps <= 0xFFFF,
        ;
    }
    cs * bps <= 0xFFFF_FFFF
}

/// `1 << k` for a shift below 32.
fn shift_one(k: u32) -> (r: u32)
    requires
        k < 32,
    ensures
        r == pow2(k as nat),
        r > 0,
{
    proof {
        vstd::bits::lemma_u32_pow2_no_overflow(k as nat);
        vstd::bits::lemma_u32_shl_is_mul(1, k);
    }
    1u32 << k
}

/// Reads the geometry from the first sector of the volume (`buffer`, as many
/// bytes as were read). `drive` names the volume in the error for a volume
/// that is not NTFS.
pub fn parse_boot_sector(drive: &str, buffer: &[u8]) -> (r: Result<BootSectorInfo, MftError>)
    requires
        boot_geometry_fits(buffer@),
    ensures
        buffer@.len() < 512 ==> (r matches Err(MftError::ReadError(m)) && m@
            == "Boot-Sektor unvollständig"@),
        buffer@.len() >= 512 && !ntfs_signature(buffer@) ==> (r matches Err(MftError::NotNtfs(d))
            && d@ == drive@),
        buffer@.len() >= 512 && ntfs_signature(buffer@) && buffer@[13] == 0 ==> (r matches Err(
            MftError::ReadError(m),
        ) && m@ == "Cluster-Größe 0"@),
        boot_sector_usable(buffer@) ==> r == Ok::<BootSectorInfo, MftError>(
            spec_boot_info(buffer@),
        ),
{
    if buffer.len() < 512 {
        return Err(MftError::ReadError(String::from_str("Boot-Sektor unvollständig")));
    }
    if buffer[3] != 0x4E || buffer[4] != 0x54 || buffer[5] != 0x46 || buffer[6] != 0x53 {
        return Err(MftError::NotNtfs(String::from_str(drive)));
    }
    let bytes_per_sector: u32 = read_u16(buffer, 11) as u32;
    let n: u8 = buffer[13];
    if n == 0 {
        return Err(MftError::ReadError(String::from_str("Cluster-Größe 0")));
    }
    let sectors_per_cluster: u32 = if n > 128 {
        shift_one((256 - n as u32) as u32)
    } else {
        n as u32
    };
    let mft_start_cluster: u64 = read_u64(buffer, 48);
    let total_sectors: u64 = read_u64(buffer, 40);
    let c: u8 = buffer[64];
    let bytes_per_mft_record: u32 = if c >= 128 {
        shift_one((256 - c as u32) as u32)
    } else {
        let cs: u32 = c as u32 * sectors_per_cluster;
        cs * bytes_per_sector
    };
    Ok(
        BootSectorInfo {
            bytes_per_sector,
            sectors_per_cluster,
            bytes_per_mft_record,
            mft_start_cluster,
            total_clusters: total_sectors / sectors_per_cluster as u64,
        },
    )
}

/// The drive name without trailing backslashes.
pub open spec fn trim_backslashes(s: Seq<char>) -> Seq<char>
    decreases s.len(),
{
    if s.len() > 0 && s.last() == '\\' {
        trim_backslashes(s.drop_last())
    } else {
        s
    }
}

/// The drive name as the reader keeps it: without trailing backslashes, in
/// upper case (`c:\` becomes `C:`).
pub open spec fn normalized_drive(drive: Seq<char>) -> Seq<char> {
    uppercase_of(trim_backslashes(drive))
}

fn trim_trailing_backslashes(drive: &str) -> (r: &str)
    ensures
        r@ == trim_backslashes(drive@),
{
    let mut n: usize = drive.unicode_len();
    proof {
        assert(drive@.subrange(0, n as int) =~= drive@);
    }
    while n > 0 && drive.get_char(n - 1) == '\\'
        invariant
            n <= drive@.len(),
            trim_backslashes(drive@) == trim_backslashes(drive@.subrange(0, n as int)),
        decreases n,
    {
        proof {
            assert(drive@.subrange(0, n as int).drop_last() =~= drive@.subrange(0, n - 1));
        }
        n = n - 1;
    }
    drive.substring_char(0, n)
}

/// Reads the master file table of one volume.
pub struct MftReader {
    /// The drive, such as `C:`.
    pub drive_letter: String,
    /// Bytes per sector (usually 512).
    pub bytes_per_sector: u32,
    /// Sectors per cluster.
    pub sectors_per_cluster: u32,
    /// Bytes per record of the table (usually 1024).
    pub bytes_per_mft_record: u32,
    /// First cluster of the table.
    pub mft_start_cluster: u64,
    /// Number of clusters of the volume.
    pub total_clusters: u64,
    /// Bytes per cluster.
    pub bytes_per_cluster: u64,
}

/// The drive name as the reader keeps it (see [`normalized_drive`]).
pub fn normalize_drive(drive: &str) -> (r: String)
    ensures
        r@ == normalized_drive(drive@),
{
    to_uppercase(trim_trailing_backslashes(drive))
}

impl MftReader {
    /// A reader for the volume `drive_letter` with the geometry `info`.
    pub fn from_boot_info(drive_letter: String, info: BootSectorInfo) -> (r: Self)
        ensures
            r.drive_letter@ == drive_letter@,
            r.bytes_per_sector == info.bytes_per_sector,
            r.sectors_per_cluster == info.sectors_per_cluster,
            r.bytes_per_mft_record == info.bytes_per_mft_record,
            r.mft_start_cluster == info.mft_start_cluster,
            r.total_clusters == info.total_clusters,
            r.bytes_per_cluster == info.bytes_per_sector as nat * info.sectors_per_cluster as nat,
    {
        proof {
            assert(info.bytes_per_sector as nat * info.sectors_per_cluster as nat <= 0xFFFF_FFFFnat
                * 0xFFFF_FFFFnat) by (nonlinear_arith)
                requires
                    info.bytes_per_sector <= 0xFFFF_FFFFu32,
                    info.sectors_per_cluster <= 0xFFFF_FFFFu32,
            ;
        }
        let bytes_per_cluster: u64 = info.bytes_per_sector as u64 * info.sectors_per_cluster as u64;
        MftReader {
            drive_letter,
            bytes_per_sector: info.bytes_per_sector,
            sectors_per_cluster: info.sectors_per_cluster,
            bytes_per_mft_record: info.bytes_per_mft_record,
            mft_start_cluster: info.mft_start_cluster,
            total_clusters: info.total_clusters,
            bytes_per_cluster,
        }
    }

    /// A reader for `drive` (such as `c:` or `C:\`), whose first sector is
    /// `boot_sector`. The drive is kept in upper case, without trailing
    /// backslashes; errors are those of [`parse_boot_sector`] for that name.
    pub fn new(drive: &str, boot_sector: &[u8]) -> (r: Result<Self, MftError>)
        requires
            boot_geometry_fits(boot_sector@),
        ensures
            boot_sector@.len() < 512 ==> (r matches Err(MftError::ReadError(m)) && m@
                == "Boot-Sektor unvollständig"@),
            boot_sector@.len() >= 512 && !ntfs_signature(boot_sector@) ==> (r matches Err(
                MftError::NotNtfs(d),
            ) && d@ == normalized_drive(drive@)),
            boot_sector@.len() >= 512 && ntfs_signature(boot_sector@) && boot_sector@[13] == 0
                ==> (r matches Err(MftError::ReadError(m)) && m@ == "Cluster-Größe 0"@),
            boot_sector_usable(boot_sector@) ==> (r matches Ok(reader) && {
                let info = spec_boot_info(boot_sector@);
                &&& reader.drive_letter@ == normalized_drive(drive@)
                &&& reader.bytes_per_sector == info.bytes_per_sector
                &&& reader.sectors_per_cluster == info.sectors_per_cluster
                &&& reader.bytes_per_mft_record == info.bytes_per_mft_record
                &&& reader.mft_start_cluster == info.mft_start_cluster
                &&& reader.total_clusters == info.total_clusters
                &&& reader.bytes_per_cluster == info.bytes_per_sector as nat
                    * info.sectors_per_cluster as nat
            }),
    {
        let drive_letter = normalize_drive(drive);
        let info = parse_boot_sector(drive_letter.as_str(), boot_sector)?;
        Ok(MftReader::from_boot_info(drive_letter, info))
    }

    /// The geometry as text, one `name: value` line each.
    pub fn info(&self) -> (r: String)
        ensures
            r@ == reader_info(*self),
    {
        let mut s: String = String::new();
        push_str(&mut s, "Drive: ");
        push_str(&mut s, self.drive_letter.as_str());
        push_str(&mut s, "\nBytes/Sector: ");
        push_decimal(&mut s, self.bytes_per_sector as u128);
        push_str(&mut s, "\nSectors/Cluster: ");
        push_decimal(&mut s, self.sectors_per_cluster as u128);
        push_str(&mut s, "\nBytes/Cluster: ");
        push_decimal(&mut s, self.bytes_per_cluster as u128);
        push_str(&mut s, "\nBytes/MFT Record: ");
        push_decimal(&mut s, self.bytes_per_mft_record as u128);
        push_str(&mut s, "\nMFT Start Cluster: ");
        push_decimal(&mut s, self.mft_start_cluster as u128);
        s
    }
}

/// The text of [`MftReader::info`].
pub open spec fn reader_info(r: MftReader) -> Seq<char> {
    "Drive: "@ + r.drive_letter@ + "\nBytes/Sector: "@ + decimal(r.bytes_per_sector as nat)
        + "\nSectors/Cluster: "@ + decimal(r.sectors_per_cluster as nat) + "\nBytes/Cluster: "@
        + decimal(r.bytes_per_cluster as nat) + "\nBytes/MFT Record: "@ + decimal(
        r.bytes_per_mft_record as nat,
    ) + "\nMFT Start Cluster: "@ + decimal(r.mft_start_cluster as nat)
}

/// The error for a failed attempt to open a volume, from the HRESULT `code`:
/// access denied (`0x80070005`), a missing drive or path (`0x80070002`,
/// `0x80070003`), or else the code itself.
pub fn open_error(code: u32, drive: &str) -> (r: MftError)
    ensures
        code == 0x8007_0005 ==> r is AccessDenied,
        (code == 0x8007_0002 || code == 0x8007_0003) ==> (r matches MftError::DriveNotFound(d)
            && d@ == drive@),
        code != 0x8007_0005 && code != 0x8007_0002 && code != 0x8007_0003 ==> r
            == MftError::WindowsError(code as i32),
{
    if code == 0x8007_0005 {
        MftError::AccessDenied
    } else if code == 0x8007_0002 || code == 0x8007_0003 {
        MftError::DriveNotFound(String::from_str(drive))
    } else {
        MftError::WindowsError(code as i32)
    }
}

/// Where the table lies: its fragments and its number of records.
#[derive(Debug, Clone)]
pub struct MftLayout {
    pub runs: Vec<DataRun>,
    pub total_records: u64,
}

/// The first attribute of type `$DATA` without a name.
pub open spec fn first_unnamed_data(attrs: Seq<(u32, Seq<u8>)>) -> Option<Seq<u8>>
    decreases attrs.len(),
{
    if attrs.len() == 0 {
        None
    } else if attrs[0].0 == DATA && spec_attribute_name_length(attrs[0].1) == 0 {
        Some(attrs[0].1)
    } else {
        first_unnamed_data(attrs.drop_first())
    }
}

/// The layout that record 0 describes, if it was read whole (`read` bytes of a
/// record of `record_size`), its fixups hold and its unnamed `$DATA` attribute
/// lists the runs and a size of at least one record.
pub open spec fn spec_layout(record: Seq<u8>, read: nat, record_size: nat) -> Option<(Seq<DataRun>, u64)> {
    if read != record_size || !(fixup_header_ok(record) && fixup_result(record).1) {
        None
    } else {
        match first_unnamed_data(record_attributes(fixup_result(record).0)) {
            None => None,
            Some(a) => match (spec_data_runs(a), spec_nonresident_real_size(a)) {
                (Some(runs), Some(size)) => if size as nat / record_size == 0 {
                    None
                } else {
                    Some((runs, (size as nat / record_size) as u64))
                },
                _ => None,
            },
        }
    }
}

fn find_unnamed_data<'a>(attrs: &Vec<(u32, &'a [u8])>) -> (r: Option<&'a [u8]>)
    ensures
        match r {
            Some(a) => first_unnamed_data(attribute_values(attrs@)) == Some(a@),
            None => first_unnamed_data(attribute_values(attrs@)) is None,
        },
{
    let ghost all = attribute_values(attrs@);
    let mut i: usize = 0;
    proof {
        assert(all.subrange(0, all.len() as int) =~= all);
    }
    while i < attrs.len()
        invariant
            i <= attrs@.len(),
            all == attribute_values(attrs@),
            first_unnamed_data(all) == first_unnamed_data(all.subrange(i as int, all.len() as int)),
        decreases attrs@.len() - i,
    {
        let (kind, attr) = attrs[i];
        let ghost rest = all.subrange(i as int, all.len() as int);
        assert(rest[0] == (kind, attr@));
        if kind == DATA && MftParser::attribute_name_length(attr) == 0 {
            return Some(attr);
        }
        assert(rest.drop_first() =~= all.subrange(i + 1, all.len() as int));
        i = i + 1;
    }
    None
}

impl MftReader {
    /// Fails for a geometry without a record or cluster size.
    pub fn check_geometry(&self) -> (r: Result<(), MftError>)
        ensures
            (self.bytes_per_mft_record == 0 || self.bytes_per_cluster == 0) ==> (r matches Err(
                MftError::ReadError(m),
            ) && m@ == "Boot-Sektor liefert keine Record- oder Cluster-Größe"@),
            (self.bytes_per_mft_record != 0 && self.bytes_per_cluster != 0) ==> r is Ok,
    {
        if self.bytes_per_mft_record == 0 || self.bytes_per_cluster == 0 {
            Err(
                MftError::ReadError(
                    String::from_str("Boot-Sektor liefert keine Record- oder Cluster-Größe"),
                ),
            )
        } else {
            Ok(())
        }
    }

    /// The byte offset of the table's record 0 on the volume.
    pub fn record_zero_offset(&self) -> (r: u64)
        requires
            self.mft_start_cluster * self.bytes_per_cluster <= u64::MAX,
        ensures
            r == self.mft_start_cluster * self.bytes_per_cluster,
    {
        self.mft_start_cluster * self.bytes_per_cluster
    }

    /// The layout of the table from its record 0: `record` holds the record's
    /// bytes, of which `read` were read. The record is fixed up in place.
    /// Fails with [`MftError::InvalidRecord`] where [`spec_layout`] has none.
    pub fn mft_layout(&self, record: &mut [u8], read: usize) -> (r: Result<MftLayout, MftError>)
        requires
            old(record)@.len() == self.bytes_per_mft_record,
        ensures
            match spec_layout(old(record)@, read as nat, self.bytes_per_mft_record as nat) {
                Some((runs, total)) => r matches Ok(l) && l.runs@ == runs && l.total_records
                    == total,
                None => r matches Err(MftError::InvalidRecord),
            },
            read == self.bytes_per_mft_record && fixup_header_ok(old(record)@) ==> final(record)@
                == fixup_result(old(record)@).0,
            !(read == self.bytes_per_mft_record && fixup_header_ok(old(record)@))
                ==> final(record)@ == old(record)@,
            r is Ok ==> self.bytes_per_mft_record >= 8,
    {
        let record_size: usize = self.bytes_per_mft_record as usize;
        if read != record_size || !MftParser::apply_fixups(record) {
            return Err(MftError::InvalidRecord);
        }
        let attrs = MftParser::attributes(record);
        let data_attr = match find_unnamed_data(&attrs) {
            Some(a) => a,
            None => {
                return Err(MftError::InvalidRecord);
            },
        };
        let runs = match MftParser::parse_data_runs(data_attr) {
            Some(runs) => runs,
            None => {
                return Err(MftError::InvalidRecord);
            },
        };
        let mft_size = match MftParser::nonresident_real_size(data_attr) {
            Some(size) => size,
            None => {
                return Err(MftError::InvalidRecord);
            },
        };
        let total_records: u64 = mft_size / record_size as u64;
        if total_records == 0 {
            return Err(MftError::InvalidRecord);
        }
        Ok(MftLayout { runs, total_records })
    }
}

} // verus!
