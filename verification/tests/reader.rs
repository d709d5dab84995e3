use rustree::mft::parser::{attribute_types, file_name_namespace, DataRun};
use rustree::mft::reader::{boot_geometry_supported, open_error, parse_boot_sector, MftLayout};
use rustree::mft::scan::{final_status, progress_status, MftScan, PROGRESS_INTERVAL, READ_CHUNK_SIZE};
use rustree::mft::{MftError, MftReader};

const USN: [u8; 2] = [0x34, 0x12];

fn boot_sector(bytes_per_sector: u16, sectors_per_cluster: u8, record_byte: u8) -> Vec<u8> {
    let mut b = vec![0u8; 512];
    b[3..7].copy_from_slice(b"NTFS");
    b[11..13].copy_from_slice(&bytes_per_sector.to_le_bytes());
    b[13] = sectors_per_cluster;
    b[40..48].copy_from_slice(&1_000_000u64.to_le_bytes());
    b[48..56].copy_from_slice(&786_432u64.to_le_bytes());
    b[64] = record_byte;
    b
}

fn build_record(flags: u16, attrs: &[Vec<u8>]) -> Vec<u8> {
    let mut record = vec![0u8; 1024];
    record[0..4].copy_from_slice(b"FILE");
    record[4..6].copy_from_slice(&48u16.to_le_bytes());
    record[6..8].copy_from_slice(&3u16.to_le_bytes());
    record[20..22].copy_from_slice(&56u16.to_le_bytes());
    record[22..24].copy_from_slice(&flags.to_le_bytes());
    record[48..50].copy_from_slice(&USN);
    let mut pos = 56;
    for attr in attrs {
        record[pos..pos + attr.len()].copy_from_slice(attr);
        pos += attr.len();
    }
    record[pos..pos + 4].copy_from_slice(&0xFFFF_FFFFu32.to_le_bytes());
    let first_sector_end = [record[510], record[511]];
    let second_sector_end = [record[1022], record[1023]];
    record[50..52].copy_from_slice(&first_sector_end);
    record[52..54].copy_from_slice(&second_sector_end);
    record[510..512].copy_from_slice(&USN);
    record[1022..1024].copy_from_slice(&USN);
    record
}

fn resident_attr(attr_type: u32, name_length: u8, content: &[u8]) -> Vec<u8> {
    let total = (24 + content.len()).div_ceil(8) * 8;
    let mut attr = vec![0u8; total];
    attr[0..4].copy_from_slice(&attr_type.to_le_bytes());
    attr[4..8].copy_from_slice(&(total as u32).to_le_bytes());
    attr[9] = name_length;
    attr[16..20].copy_from_slice(&(content.len() as u32).to_le_bytes());
    attr[20..22].copy_from_slice(&24u16.to_le_bytes());
    attr[24..24 + content.len()].copy_from_slice(content);
    attr
}

fn nonresident_attr(attr_type: u32, name_length: u8, real_size: u64, runs: &[u8]) -> Vec<u8> {
    let total = (64 + runs.len()).div_ceil(8) * 8;
    let mut attr = vec![0u8; total];
    attr[0..4].copy_from_slice(&attr_type.to_le_bytes());
    attr[4..8].copy_from_slice(&(total as u32).to_le_bytes());
    attr[8] = 1;
    attr[9] = name_length;
    attr[32..34].copy_from_slice(&64u16.to_le_bytes());
    attr[48..56].copy_from_slice(&real_size.to_le_bytes());
    attr[64..64 + runs.len()].copy_from_slice(runs);
    attr
}

fn file_name_attr(parent: u64, name: &str) -> Vec<u8> {
    file_name_attr_in(parent, name, file_name_namespace::WIN32)
}

fn file_name_attr_in(parent: u64, name: &str, namespace: u8) -> Vec<u8> {
    let utf16: Vec<u16> = name.encode_utf16().collect();
    let mut content = vec![0u8; 66 + utf16.len() * 2];
    content[0..8].copy_from_slice(&parent.to_le_bytes());
    content[64] = utf16.len() as u8;
    content[65] = namespace;
    for (i, unit) in utf16.iter().enumerate() {
        content[66 + i * 2..68 + i * 2].copy_from_slice(&unit.to_le_bytes());
    }
    resident_attr(attribute_types::FILE_NAME, 0, &content)
}

fn file_record(name: &str, size: u8) -> Vec<u8> {
    build_record(0x01, &[file_name_attr(5, name), resident_attr(attribute_types::DATA, 0, &vec![0u8; size as usize])])
}

fn reader_with(bytes_per_sector: u16, sectors_per_cluster: u8) -> MftReader {
    let boot = boot_sector(bytes_per_sector, sectors_per_cluster, 0xF6);
    MftReader::new("C:", &boot).unwrap()
}

#[test]
fn boot_sector_geometry_is_read() {
    let reader = MftReader::new("c:\\", &boot_sector(512, 8, 0xF6)).unwrap();
    assert_eq!(reader.drive_letter, "C:");
    assert_eq!(reader.bytes_per_sector, 512);
    assert_eq!(reader.sectors_per_cluster, 8);
    assert_eq!(reader.bytes_per_cluster, 4096);
    assert_eq!(reader.bytes_per_mft_record, 1024);
    assert_eq!(reader.mft_start_cluster, 786_432);
    assert_eq!(reader.total_clusters, 125_000);
}

#[test]
fn large_clusters_and_records_in_clusters() {
    // 0xF4 = -12: 2^12 sectors per cluster; record size 2 clusters.
    let info = parse_boot_sector("D:", &boot_sector(512, 0xF4, 2)).unwrap();
    assert_eq!(info.sectors_per_cluster, 4096);
    assert_eq!(info.bytes_per_mft_record, 2 * 4096 * 512);
    assert_eq!(info.total_clusters, 1_000_000 / 4096);
    let info = parse_boot_sector("D:", &boot_sector(4096, 1, 0xF4)).unwrap();
    assert_eq!(info.bytes_per_mft_record, 4096);
}

#[test]
fn boot_sector_errors() {
    match MftReader::new("e:", &[0u8; 100]) {
        Err(MftError::ReadError(m)) => assert_eq!(m, "Boot-Sektor unvollständig"),
        _ => panic!("short boot sector"),
    }
    let mut fat = boot_sector(512, 8, 0xF6);
    fat[3..7].copy_from_slice(b"FAT3");
    match MftReader::new("e:\\\\", &fat) {
        Err(MftError::NotNtfs(d)) => assert_eq!(d, "E:"),
        _ => panic!("not NTFS"),
    }
    match MftReader::new("E:", &boot_sector(512, 0, 0xF6)) {
        Err(MftError::ReadError(m)) => assert_eq!(m, "Cluster-Größe 0"),
        _ => panic!("cluster size 0"),
    }
}

#[test]
fn geometry_that_would_overflow_is_recognised() {
    assert!(boot_geometry_supported(&boot_sector(512, 8, 0xF6)));
    assert!(boot_geometry_supported(&[0u8; 10]));
    assert!(!boot_geometry_supported(&boot_sector(512, 200, 0xF6)));
    assert!(!boot_geometry_supported(&boot_sector(512, 8, 0x80)));
    assert!(!boot_geometry_supported(&boot_sector(65535, 0xE1, 100)));
}

#[test]
fn info_lists_the_geometry() {
    let reader = reader_with(512, 8);
    assert_eq!(
        reader.info(),
        "Drive: C:\nBytes/Sector: 512\nSectors/Cluster: 8\nBytes/Cluster: 4096\nBytes/MFT Record: 1024\nMFT Start Cluster: 786432"
    );
}

#[test]
fn open_errors_by_code() {
    assert!(matches!(open_error(0x8007_0005, "C:"), MftError::AccessDenied));
    match open_error(0x8007_0003, "Q:") {
        MftError::DriveNotFound(d) => assert_eq!(d, "Q:"),
        _ => panic!("drive not found"),
    }
    assert!(matches!(open_error(0x8000_4005, "C:"), MftError::WindowsError(c) if c == 0x8000_4005u32 as i32));
}

#[test]
fn geometry_check_and_record_zero() {
    let reader = reader_with(512, 2);
    assert!(reader.check_geometry().is_ok());
    assert_eq!(reader.record_zero_offset(), 786_432 * 1024);
    let mut broken = reader_with(512, 2);
    broken.bytes_per_mft_record = 0;
    match broken.check_geometry() {
        Err(MftError::ReadError(m)) => assert_eq!(m, "Boot-Sektor liefert keine Record- oder Cluster-Größe"),
        _ => panic!("missing record size"),
    }
}

#[test]
fn layout_comes_from_the_unnamed_data_attribute() {
    let reader = reader_with(512, 2);
    let mut record = build_record(
        0x01,
        &[
            file_name_attr(5, "$MFT"),
            nonresident_attr(attribute_types::DATA, 3, 99 * 1024, &[0x11, 0x01, 0x07, 0x00]),
            nonresident_attr(attribute_types::DATA, 0, 6 * 1024 + 100, &[0x11, 0x02, 0x0A, 0x01, 0x03, 0x00]),
        ],
    );
    let layout = reader.mft_layout(&mut record, 1024).unwrap();
    assert_eq!(layout.total_records, 6);
    assert_eq!(layout.runs, vec![DataRun { lcn: Some(10), length: 2 }, DataRun { lcn: None, length: 3 }]);

    let mut short_read = build_record(0x01, &[]);
    assert!(matches!(reader.mft_layout(&mut short_read, 1000), Err(MftError::InvalidRecord)));
    let mut no_data = build_record(0x01, &[file_name_attr(5, "$MFT")]);
    assert!(matches!(reader.mft_layout(&mut no_data, 1024), Err(MftError::InvalidRecord)));
    let mut too_small = build_record(
        0x01,
        &[nonresident_attr(attribute_types::DATA, 0, 1000, &[0x11, 0x01, 0x07, 0x00])],
    );
    assert!(matches!(reader.mft_layout(&mut too_small, 1024), Err(MftError::InvalidRecord)));
}

#[test]
fn scan_walks_runs_and_keeps_named_records() {
    let reader = reader_with(512, 2);
    let layout = MftLayout {
        runs: vec![
            DataRun { lcn: Some(10), length: 2 },
            DataRun { lcn: None, length: 3 },
            DataRun { lcn: Some(100), length: 2 },
        ],
        total_records: 6,
    };
    assert!(MftScan::fits(&reader, &layout));
    let mut scan = MftScan::new(&reader, layout, 1024 * 1024);
    assert_eq!(scan.total_records(), 6);
    assert_eq!(scan.block_len(), 1024 * 1024);
    assert_eq!(READ_CHUNK_SIZE, 8 * 1024 * 1024);

    assert_eq!(scan.next_read(), Some((10 * 1024, 2048)));
    let mut block = file_record("a.txt", 7);
    block.extend(file_record("$Secure", 1));
    assert!(scan.feed(&block).is_empty());
    assert_eq!(scan.found(), 1);

    assert_eq!(scan.next_read(), Some((100 * 1024, 2048)));
    let mut block = file_record("b.txt", 3);
    block.extend(vec![0u8; 500]);
    assert!(scan.feed(&block).is_empty());
    assert_eq!(scan.next_read(), None);
    assert_eq!(scan.next_read(), None);

    let entries = scan.finish();
    assert_eq!(entries.len(), 2);
    assert_eq!(entries[&0].name, "a.txt");
    assert_eq!(entries[&0].size, 7);
    assert_eq!(entries[&5].name, "b.txt");
    assert_eq!(entries[&5].mft_reference, 5);
}

#[test]
fn recycle_bin_is_kept_and_torn_records_are_skipped() {
    let reader = reader_with(512, 2);
    let layout = MftLayout { runs: vec![DataRun { lcn: Some(1), length: 3 }], total_records: 3 };
    let mut scan = MftScan::new(&reader, layout, 1024 * 1024);
    assert_eq!(scan.next_read(), Some((1024, 3072)));
    let mut torn = file_record("torn.txt", 1);
    torn[1023] ^= 0xFF;
    let mut block = file_record("$Recycle.Bin", 0);
    block.extend(torn);
    block.extend(file_record("$LogFile", 0));
    scan.feed(&block);
    assert_eq!(scan.next_read(), None);
    let entries = scan.finish();
    assert_eq!(entries.len(), 1);
    assert_eq!(entries[&0].name, "$Recycle.Bin");
}

#[test]
fn a_block_without_a_whole_record_ends_the_scan() {
    let reader = reader_with(512, 2);
    let layout = MftLayout { runs: vec![DataRun { lcn: Some(1), length: 4 }], total_records: 4 };
    let mut scan = MftScan::new(&reader, layout, 1024 * 1024);
    assert!(scan.next_read().is_some());
    scan.feed(&[0u8; 1000]);
    assert_eq!(scan.next_read(), None);
    assert_eq!(scan.found(), 0);
}

#[test]
fn records_past_the_table_end_are_not_read() {
    let reader = reader_with(512, 2);
    let layout = MftLayout { runs: vec![DataRun { lcn: Some(0), length: 4 }], total_records: 1 };
    let mut scan = MftScan::new(&reader, layout, 1024 * 1024);
    assert_eq!(scan.next_read(), Some((0, 4096)));
    let mut block = file_record("first", 0);
    block.extend(file_record("second", 0));
    scan.feed(&block);
    assert_eq!(scan.next_read(), None);
    let entries = scan.finish();
    assert_eq!(entries.len(), 1);
    assert!(entries.contains_key(&0));
}

#[test]
fn progress_is_reported_every_interval() {
    let reader = reader_with(512, 2);
    let layout = MftLayout { runs: vec![DataRun { lcn: Some(0), length: 20_000 }], total_records: 20_000 };
    let mut scan = MftScan::new(&reader, layout, 1024 * 1024);
    let mut reports = Vec::new();
    let mut reads = 0;
    while let Some((position, wanted)) = scan.next_read() {
        assert_eq!(position, reads * 1024 * 1024);
        reads += 1;
        reports.extend(scan.feed(&vec![0u8; wanted]));
    }
    assert_eq!(reads, 20);
    assert_eq!(reports, vec![(PROGRESS_INTERVAL, 0)]);
}

#[test]
fn walks_that_overflow_are_recognised() {
    let reader = reader_with(512, 2);
    let huge = MftLayout { runs: vec![DataRun { lcn: Some(1), length: u64::MAX / 2 }], total_records: 1 };
    assert!(!MftScan::fits(&reader, &huge));
    let far = MftLayout { runs: vec![DataRun { lcn: Some(u64::MAX / 1024), length: 2 }], total_records: 1 };
    assert!(!MftScan::fits(&reader, &far));
    let sparse = MftLayout { runs: vec![DataRun { lcn: None, length: u64::MAX / 1024 }; 2000], total_records: 1 };
    assert!(!MftScan::fits(&reader, &sparse));
    let one_sparse = MftLayout { runs: vec![DataRun { lcn: None, length: u64::MAX / 1024 }], total_records: 1 };
    assert!(MftScan::fits(&reader, &one_sparse));
}

#[test]
fn status_texts() {
    assert_eq!(progress_status(16384, 20000, 12), "16384 von 20000 Records, 12 Dateien/Ordner...");
    assert_eq!(final_status(2), "2 Dateien/Ordner gefunden");
}

fn make_extension(record: &mut [u8], base: u64) {
    record[32..40].copy_from_slice(&(base | (3u64 << 48)).to_le_bytes());
}

#[test]
fn extension_records_are_merged_into_their_base() {
    let reader = reader_with(512, 2);
    let layout = MftLayout { runs: vec![DataRun { lcn: Some(0), length: 7 }], total_records: 7 };
    let mut scan = MftScan::new(&reader, layout, 1024 * 1024);
    assert_eq!(scan.next_read(), Some((0, 7 * 1024)));

    let mut block = file_record("keep.txt", 1);
    // 1: extension of 2 with the long name and the size
    let mut ext = build_record(
        0x01,
        &[
            file_name_attr(5, "Long Name.txt"),
            nonresident_attr(attribute_types::DATA, 0, 5000, &[0x11, 0x01, 0x20, 0x00]),
        ],
    );
    make_extension(&mut ext, 2);
    block.extend(ext);
    // 2: base record whose name lies in its extension
    block.extend(build_record(0x01, &[resident_attr(attribute_types::ATTRIBUTE_LIST, 0, &[0u8; 32])]));
    // 3: base with the 8.3 name, 4: its extension with the long name
    block.extend(build_record(0x01, &[file_name_attr_in(5, "LONGNA~1.TXT", file_name_namespace::DOS)]));
    let mut ext = build_record(0x01, &[file_name_attr(5, "Long Name Too.txt")]);
    make_extension(&mut ext, 3);
    block.extend(ext);
    // 5: base with the long name, 6: its extension with the 8.3 name and the size
    block.extend(build_record(0x01, &[file_name_attr(5, "short.txt")]));
    let mut ext = build_record(
        0x01,
        &[
            file_name_attr_in(5, "SHORT~1.TXT", file_name_namespace::DOS),
            nonresident_attr(attribute_types::DATA, 0, 777, &[0x11, 0x01, 0x20, 0x00]),
        ],
    );
    make_extension(&mut ext, 5);
    block.extend(ext);

    scan.feed(&block);
    assert_eq!(scan.found(), 3);
    assert_eq!(scan.next_read(), None);
    let entries = scan.finish();
    assert_eq!(entries.len(), 4);
    assert_eq!(entries[&0].name, "keep.txt");
    assert_eq!(entries[&2].name, "Long Name.txt");
    assert_eq!(entries[&2].size, 5000);
    assert_eq!(entries[&2].parent_reference, 5);
    assert_eq!(entries[&2].mft_reference, 2);
    assert_eq!(entries[&3].name, "Long Name Too.txt");
    assert_eq!(entries[&5].name, "short.txt");
    assert_eq!(entries[&5].size, 777);
    assert!(!entries.contains_key(&1));
}

#[test]
fn nameless_records_without_extension_are_dropped() {
    let reader = reader_with(512, 2);
    let layout = MftLayout { runs: vec![DataRun { lcn: Some(0), length: 2 }], total_records: 2 };
    let mut scan = MftScan::new(&reader, layout, 1024 * 1024);
    assert!(scan.next_read().is_some());
    let mut block = build_record(0x01, &[resident_attr(attribute_types::ATTRIBUTE_LIST, 0, &[0u8; 32])]);
    let mut ext = build_record(0x01, &[file_name_attr(5, "lost.txt")]);
    make_extension(&mut ext, 9);
    block.extend(ext);
    scan.feed(&block);
    assert_eq!(scan.next_read(), None);
    assert!(scan.finish().is_empty());
}

#[test]
fn extension_sizes_do_not_reach_directories() {
    let reader = reader_with(512, 2);
    let layout = MftLayout { runs: vec![DataRun { lcn: Some(0), length: 3 }], total_records: 3 };
    let mut scan = MftScan::new(&reader, layout, 1024 * 1024);
    assert!(scan.next_read().is_some());
    // 0: a file, 1: a directory, 2: an extension of the directory with a data size
    let mut block = file_record("keep.txt", 1);
    block.extend(build_record(0x03, &[file_name_attr(5, "Folder")]));
    let mut ext = build_record(
        0x01,
        &[nonresident_attr(attribute_types::DATA, 0, 4242, &[0x11, 0x01, 0x20, 0x00])],
    );
    make_extension(&mut ext, 1);
    block.extend(ext);
    scan.feed(&block);
    let entries = scan.finish();
    assert_eq!(entries.len(), 2);
    assert!(entries[&1].is_directory);
    assert_eq!(entries[&1].name, "Folder");
    assert_eq!(entries[&1].size, 0);
}

#[test]
fn a_whole_walk_reads_the_table_in_order() {
    let reader = reader_with(512, 2);
    let layout = MftLayout {
        runs: vec![
            DataRun { lcn: Some(2), length: 2 },
            DataRun { lcn: None, length: 2 },
            DataRun { lcn: Some(6), length: 4 },
        ],
        total_records: 7,
    };
    let mut disk = vec![0u8; 16 * 1024];
    let mut put = |cluster: usize, record: Vec<u8>| {
        disk[cluster * 1024..cluster * 1024 + 1024].copy_from_slice(&record);
    };
    // table records 0, 1 in the first run; 2, 3 sparse; 4..7 in the last run,
    // of which only 4, 5, 6 belong to the table.
    put(2, file_record("first.txt", 11));
    put(3, file_record("second.txt", 22));
    let mut ext = build_record(
        0x01,
        &[nonresident_attr(attribute_types::DATA, 0, 3333, &[0x11, 0x01, 0x20, 0x00])],
    );
    make_extension(&mut ext, 1);
    put(6, ext);
    put(7, file_record("$MFTMirr", 1));
    put(8, file_record("sixth.txt", 66));
    put(9, file_record("beyond.txt", 99));

    let mut scan = MftScan::new(&reader, layout, 1024);
    let mut reads = 0;
    while let Some((position, len)) = scan.next_read() {
        let start = position as usize;
        scan.feed(&disk[start..start + len]);
        reads += 1;
    }
    assert_eq!(reads, 5);
    let entries = scan.finish();
    let mut keys: Vec<u64> = entries.keys().copied().collect();
    keys.sort();
    assert_eq!(keys, vec![0, 1, 6]);
    assert_eq!(entries[&0].name, "first.txt");
    assert_eq!(entries[&1].name, "second.txt");
    assert_eq!(entries[&1].size, 3333);
    assert_eq!(entries[&6].name, "sixth.txt");
    assert_eq!(entries[&6].mft_reference, 6);
}
