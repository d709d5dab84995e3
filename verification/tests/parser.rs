use rustree::bytes::{read_int_le, read_uint_le};
use rustree::mft::parser::{attribute_types, file_name_namespace, name_rank, DataRun, MftParser, ParsedRecord};

const USN: [u8; 2] = [0x34, 0x12];

/// A 1024-byte record: FILE header, update sequence array at offset 48 (USN and
/// two sectors), attributes from offset 56, end marker. The sector ends carry the
/// USN already, as on the volume.
fn build_record(flags: u16, attrs: &[Vec<u8>]) -> Vec<u8> {
    let mut record = vec![0u8; 1024];
    record[0..4].copy_from_slice(b"FILE");
    record[4..6].copy_from_slice(&48u16.to_le_bytes());
    record[6..8].copy_from_slice(&3u16.to_le_bytes());
    record[20..22].copy_from_slice(&56u16.to_le_bytes());
    record[22..24].copy_from_slice(&flags.to_le_bytes());
    record[48..50].copy_from_slice(&USN);

    let mut pos = 56;
    for attr in attrs {
        record[pos..pos + attr.len()].copy_from_slice(attr);
        pos += attr.len();
    }
    record[pos..pos + 4].copy_from_slice(&0xFFFF_FFFFu32.to_le_bytes());

    let first_sector_end = [record[510], record[511]];
    let second_sector_end = [record[1022], record[1023]];
    record[50..52].copy_from_slice(&first_sector_end);
    record[52..54].copy_from_slice(&second_sector_end);
    record[510..512].copy_from_slice(&USN);
    record[1022..1024].copy_from_slice(&USN);
    record
}

/// A resident attribute with a 24-byte header and its content, padded to 8 bytes.
fn resident_attr(attr_type: u32, name_length: u8, content: &[u8]) -> Vec<u8> {
    let total = (24 + content.len()).div_ceil(8) * 8;
    let mut attr = vec![0u8; total];
    attr[0..4].copy_from_slice(&attr_type.to_le_bytes());
    attr[4..8].copy_from_slice(&(total as u32).to_le_bytes());
    attr[9] = name_length;
    attr[16..20].copy_from_slice(&(content.len() as u32).to_le_bytes());
    attr[20..22].copy_from_slice(&24u16.to_le_bytes());
    attr[24..24 + content.len()].copy_from_slice(content);
    attr
}

/// A non-resident attribute with a 64-byte header, data runs from offset 64.
fn nonresident_attr(attr_type: u32, real_size: u64, runs: &[u8]) -> Vec<u8> {
    let total = (64 + runs.len()).div_ceil(8) * 8;
    let mut attr = vec![0u8; total];
    attr[0..4].copy_from_slice(&attr_type.to_le_bytes());
    attr[4..8].copy_from_slice(&(total as u32).to_le_bytes());
    attr[8] = 1;
    attr[32..34].copy_from_slice(&64u16.to_le_bytes());
    attr[48..56].copy_from_slice(&real_size.to_le_bytes());
    attr[64..64 + runs.len()].copy_from_slice(runs);
    attr
}

/// The content of a `$FILE_NAME` attribute.
fn file_name_content(parent: u64, name: &str, namespace: u8) -> Vec<u8> {
    let utf16: Vec<u16> = name.encode_utf16().collect();
    let mut content = vec![0u8; 66 + utf16.len() * 2];
    content[0..8].copy_from_slice(&parent.to_le_bytes());
    content[64] = utf16.len() as u8;
    content[65] = namespace;
    for (i, unit) in utf16.iter().enumerate() {
        content[66 + i * 2..68 + i * 2].copy_from_slice(&unit.to_le_bytes());
    }
    content
}

fn file_name_attr(parent: u64, name: &str, namespace: u8) -> Vec<u8> {
    resident_attr(attribute_types::FILE_NAME, 0, &file_name_content(parent, name, namespace))
}

/// Turns a record into an extension record of `base` (with sequence number 3
/// in the upper word, which must be ignored).
fn make_extension(record: &mut [u8], base: u64) {
    record[32..40].copy_from_slice(&(base | (3u64 << 48)).to_le_bytes());
}

#[test]
fn fixups_restore_sector_ends() {
    let mut record = build_record(0x01, &[]);
    record[50..52].copy_from_slice(&[0xBB, 0xAA]);
    record[52..54].copy_from_slice(&[0xDD, 0xCC]);

    assert!(MftParser::apply_fixups(&mut record));
    assert_eq!(&record[510..512], &[0xBB, 0xAA]);
    assert_eq!(&record[1022..1024], &[0xDD, 0xCC]);
}

#[test]
fn fixups_reject_torn_record() {
    let mut record = build_record(0x01, &[]);
    record[1022] ^= 0xFF;
    assert!(!MftParser::apply_fixups(&mut record));
    assert!(!MftParser::apply_fixups(&mut vec![0u8; 1024]));
}

#[test]
fn prefers_long_name_over_dos_name() {
    let mut record = build_record(
        0x03,
        &[
            file_name_attr(5, "PROGRA~1", file_name_namespace::DOS),
            file_name_attr(5, "Program Files", file_name_namespace::WIN32),
        ],
    );
    assert!(MftParser::apply_fixups(&mut record));

    let entry = MftParser::parse_record(&record, 100).unwrap();
    assert_eq!(entry.name, "Program Files");
    assert_eq!(entry.parent_reference, 5);
    assert_eq!(entry.mft_reference, 100);
    assert!(entry.is_directory);
}

#[test]
fn only_unnamed_data_stream_counts() {
    let mut record = build_record(
        0x01,
        &[
            file_name_attr(5, "test.txt", file_name_namespace::WIN32_AND_DOS),
            resident_attr(attribute_types::DATA, 0, &[0u8; 10]),
            resident_attr(attribute_types::DATA, 15, &[0u8; 500]),
        ],
    );
    assert!(MftParser::apply_fixups(&mut record));

    let entry = MftParser::parse_record(&record, 7).unwrap();
    assert_eq!(entry.size, 10);
    assert!(!entry.is_directory);
}

#[test]
fn nonresident_data_reports_real_size() {
    let mut record = build_record(
        0x01,
        &[
            file_name_attr(5, "big.bin", file_name_namespace::WIN32),
            nonresident_attr(attribute_types::DATA, 123_456_789, &[0x11, 0x08, 0x20, 0x00]),
        ],
    );
    assert!(MftParser::apply_fixups(&mut record));
    assert_eq!(MftParser::parse_record(&record, 8).unwrap().size, 123_456_789);
}

#[test]
fn skips_unused_extension_and_nameless_records() {
    let name = file_name_attr(5, "x", file_name_namespace::WIN32);

    let mut unused = build_record(0x00, &[name.clone()]);
    assert!(MftParser::apply_fixups(&mut unused));
    assert!(MftParser::parse_record(&unused, 1).is_none());

    let mut extension = build_record(0x01, &[name]);
    make_extension(&mut extension, 42);
    assert!(MftParser::apply_fixups(&mut extension));
    assert!(MftParser::parse_record(&extension, 2).is_none());

    let mut nameless = build_record(0x01, &[resident_attr(attribute_types::DATA, 0, &[0u8; 4])]);
    assert!(MftParser::apply_fixups(&mut nameless));
    assert!(MftParser::parse_record(&nameless, 3).is_none());
}

#[test]
fn extension_record_yields_its_attributes() {
    let mut extension = build_record(
        0x01,
        &[
            file_name_attr(5, "OneDrive.kg", file_name_namespace::WIN32),
            nonresident_attr(attribute_types::DATA, 5_000, &[0x11, 0x01, 0x20, 0x00]),
        ],
    );
    make_extension(&mut extension, 42);
    assert!(MftParser::apply_fixups(&mut extension));

    let Some(ParsedRecord::Extension(ext)) = MftParser::parse(&extension, 99) else {
        panic!("Erweiterungs-Record erwartet");
    };
    assert_eq!(ext.base_reference, 42);
    assert_eq!(ext.data_size, Some(5_000));
    let name = ext.file_name.unwrap();
    assert_eq!((name.name.as_str(), name.parent_reference, name.rank), ("OneDrive.kg", 5, 3));
}

#[test]
fn only_first_data_piece_carries_size() {
    let mut piece = nonresident_attr(attribute_types::DATA, 9_999, &[0x11, 0x01, 0x20, 0x00]);
    piece[16..24].copy_from_slice(&8u64.to_le_bytes());
    let mut record = build_record(
        0x01,
        &[
            resident_attr(attribute_types::ATTRIBUTE_LIST, 0, &[0u8; 32]),
            file_name_attr(5, "frag.bin", file_name_namespace::WIN32),
            piece,
        ],
    );
    assert!(MftParser::apply_fixups(&mut record));
    assert_eq!(MftParser::parse_record(&record, 8).unwrap().size, 0);
}

#[test]
fn nameless_base_with_attribute_list_is_placeholder() {
    let mut record = build_record(0x01, &[resident_attr(attribute_types::ATTRIBUTE_LIST, 0, &[0u8; 32])]);
    assert!(MftParser::apply_fixups(&mut record));

    let Some(ParsedRecord::Entry { entry, name_rank }) = MftParser::parse(&record, 8) else {
        panic!("Platzhalter erwartet");
    };
    assert_eq!(name_rank, 0);
    assert!(entry.name.is_empty());
    assert!(MftParser::parse_record(&record, 8).is_none());
}

#[test]
fn decodes_data_runs() {
    let attr = nonresident_attr(
        attribute_types::DATA,
        0,
        &[0x31, 0x38, 0x73, 0x25, 0x34, 0x32, 0x14, 0x01, 0xE5, 0x11, 0x02, 0x00],
    );
    assert_eq!(
        MftParser::parse_data_runs(&attr).unwrap(),
        vec![
            DataRun { lcn: Some(0x342573), length: 0x38 },
            DataRun { lcn: Some(0x342573 + 0x0211E5), length: 0x0114 },
        ]
    );

    let attr = nonresident_attr(attribute_types::DATA, 0, &[0x11, 0x10, 0x20, 0x11, 0x02, 0xF8, 0x00]);
    assert_eq!(
        MftParser::parse_data_runs(&attr).unwrap(),
        vec![DataRun { lcn: Some(32), length: 16 }, DataRun { lcn: Some(24), length: 2 }]
    );

    let attr = nonresident_attr(attribute_types::DATA, 0, &[0x11, 0x04, 0x10, 0x01, 0x03, 0x00]);
    assert_eq!(
        MftParser::parse_data_runs(&attr).unwrap(),
        vec![DataRun { lcn: Some(16), length: 4 }, DataRun { lcn: None, length: 3 }]
    );

    assert!(MftParser::parse_data_runs(&resident_attr(attribute_types::DATA, 0, &[1, 2, 3])).is_none());
}

#[test]
fn attribute_iterator_stops_at_end_marker_and_bad_lengths() {
    let mut record = build_record(
        0x01,
        &[
            resident_attr(attribute_types::STANDARD_INFORMATION, 0, &[0u8; 48]),
            file_name_attr(5, "a", file_name_namespace::WIN32),
        ],
    );
    assert!(MftParser::apply_fixups(&mut record));

    let types: Vec<u32> = MftParser::attributes(&record).iter().map(|(t, _)| *t).collect();
    assert_eq!(types, vec![attribute_types::STANDARD_INFORMATION, attribute_types::FILE_NAME]);

    record[56 + 4..56 + 8].copy_from_slice(&5000u32.to_le_bytes());
    assert_eq!(MftParser::attributes(&record).len(), 0);
}

// Further cases.

#[test]
fn fixups_reject_short_and_unsigned_records() {
    let mut short = vec![0x46, 0x49, 0x4C, 0x45, 0x30, 0x00];
    assert!(!MftParser::apply_fixups(&mut short));
    assert_eq!(short, vec![0x46, 0x49, 0x4C, 0x45, 0x30, 0x00]);

    let mut record = build_record(0x01, &[]);
    record[0] = b'X';
    let before = record.clone();
    assert!(!MftParser::apply_fixups(&mut record));
    assert_eq!(record, before);
}

#[test]
fn fixups_keep_first_sector_when_second_is_torn() {
    let mut record = build_record(0x01, &[]);
    record[50..52].copy_from_slice(&[0x11, 0x22]);
    record[1023] ^= 0x01;
    assert!(!MftParser::apply_fixups(&mut record));
    assert_eq!(&record[510..512], &[0x11, 0x22]);
}

#[test]
fn hidden_and_system_flags_come_from_standard_information() {
    let mut info = vec![0u8; 48];
    info[32..36].copy_from_slice(&0x06u32.to_le_bytes());
    let mut record = build_record(
        0x01,
        &[
            resident_attr(attribute_types::STANDARD_INFORMATION, 0, &info),
            file_name_attr(5, "pagefile.sys", file_name_namespace::WIN32),
        ],
    );
    assert!(MftParser::apply_fixups(&mut record));
    let entry = MftParser::parse_record(&record, 12).unwrap();
    assert!(entry.is_hidden);
    assert!(entry.is_system);
    assert_eq!(entry.name, "pagefile.sys");
}

#[test]
fn non_ascii_names_are_decoded_from_utf16() {
    let mut record = build_record(0x01, &[file_name_attr(5, "Übersicht €.txt", file_name_namespace::WIN32)]);
    assert!(MftParser::apply_fixups(&mut record));
    assert_eq!(MftParser::parse_record(&record, 9).unwrap().name, "Übersicht €.txt");
}

#[test]
fn name_rank_prefers_win32_names() {
    assert!(name_rank(file_name_namespace::WIN32) > name_rank(file_name_namespace::DOS));
    assert!(name_rank(file_name_namespace::WIN32_AND_DOS) > name_rank(file_name_namespace::DOS));
    assert!(name_rank(file_name_namespace::POSIX) > name_rank(file_name_namespace::DOS));
}

#[test]
fn nonresident_real_size_needs_a_nonresident_header() {
    let attr = nonresident_attr(attribute_types::DATA, 77, &[0x00]);
    assert_eq!(MftParser::nonresident_real_size(&attr), Some(77));
    assert_eq!(MftParser::nonresident_real_size(&resident_attr(attribute_types::DATA, 0, &[1])), None);
    assert_eq!(MftParser::attribute_name_length(&resident_attr(attribute_types::DATA, 4, &[1])), 4);
}

#[test]
fn little_endian_readers() {
    assert_eq!(read_uint_le(&[0x34, 0x12]), 0x1234);
    assert_eq!(read_uint_le(&[]), 0);
    assert_eq!(read_int_le(&[0xF8]), -8);
    assert_eq!(read_int_le(&[0xE5, 0x11, 0x02]), 0x0211E5);
    assert_eq!(read_int_le(&[0x00, 0x80]), -32768);
}

#[test]
fn directories_have_size_zero_even_with_a_data_stream() {
    let mut record = build_record(
        0x03,
        &[
            file_name_attr(5, "Folder", file_name_namespace::WIN32),
            resident_attr(attribute_types::DATA, 0, &[1u8; 40]),
        ],
    );
    assert!(MftParser::apply_fixups(&mut record));
    let entry = MftParser::parse_record(&record, 64).unwrap();
    assert!(entry.is_directory);
    assert_eq!(entry.size, 0);

    let mut record = build_record(
        0x01,
        &[
            file_name_attr(5, "file.bin", file_name_namespace::WIN32),
            resident_attr(attribute_types::DATA, 0, &[1u8; 40]),
        ],
    );
    assert!(MftParser::apply_fixups(&mut record));
    assert_eq!(MftParser::parse_record(&record, 65).unwrap().size, 40);
}
