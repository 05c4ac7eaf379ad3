use deepcut::mft::attributes::Attribute;
use deepcut::mft::structure::{MftAttributeHeader, MftHeader};
use deepcut::mft_parser::{
    fix_usn, parse_record, parse_record_attributes, parse_records, parse_resident_attribute,
    RecordOutcome,
};
use deepcut::tree::{build_tree, get_ref_to_parent};

fn utf16_bytes(s: &str) -> Vec<u8> {
    s.encode_utf16().flat_map(|u| u.to_le_bytes()).collect()
}

fn si_content(seed: u64) -> Vec<u8> {
    let mut b = vec![0u8; 72];
    b[0..8].copy_from_slice(&seed.to_le_bytes());
    b[64..72].copy_from_slice(&(seed + 1).to_le_bytes());
    b
}

fn fn_content(parent: u64, space: u8, name: &str) -> Vec<u8> {
    let mut b = vec![0u8; 66];
    b[0..8].copy_from_slice(&parent.to_le_bytes());
    b[64] = name.encode_utf16().count() as u8;
    b[65] = space;
    b.extend(utf16_bytes(name));
    b
}

const USA: usize = 0x30;
const FIRST_ATTR: usize = 0x38;

/// A record with the given resident attributes, protected by an update
/// sequence whose number is 0x0001 and whose saved values are AA BB / CC DD.
fn record(record_number: u32, attrs: &[(u32, Vec<u8>)]) -> Vec<u8> {
    let mut r = vec![0u8; 1024];
    r[0..4].copy_from_slice(b"FILE");
    r[4..6].copy_from_slice(&(USA as u16).to_le_bytes());
    r[6..8].copy_from_slice(&3u16.to_le_bytes());
    r[20..22].copy_from_slice(&(FIRST_ATTR as u16).to_le_bytes());
    r[44..48].copy_from_slice(&record_number.to_le_bytes());
    r[USA..USA + 6].copy_from_slice(&[0x01, 0x00, 0xAA, 0xBB, 0xCC, 0xDD]);
    let mut p = FIRST_ATTR;
    for (t, content) in attrs {
        let len = (24 + content.len() + 7) / 8 * 8;
        r[p..p + 4].copy_from_slice(&t.to_le_bytes());
        r[p + 4..p + 8].copy_from_slice(&(len as u32).to_le_bytes());
        r[p + 16..p + 20].copy_from_slice(&(content.len() as u32).to_le_bytes());
        r[p + 20..p + 22].copy_from_slice(&24u16.to_le_bytes());
        r[p + 24..p + 24 + content.len()].copy_from_slice(content);
        p += len;
    }
    r[p..p + 4].copy_from_slice(&0xFFFF_FFFFu32.to_le_bytes());
    r[510..512].copy_from_slice(&[0x01, 0x00]);
    r[1022..1024].copy_from_slice(&[0x01, 0x00]);
    r
}

fn entry_of(outcome: Option<RecordOutcome>) -> deepcut::mft_parser::MftEntry {
    match outcome {
        Some(RecordOutcome::Entry(e)) => e,
        _ => panic!("expected an entry"),
    }
}

#[test]
fn fix_usn_repairs_both_sectors() {
    let mut r = record(1, &[]);
    assert!(fix_usn(&mut r, USA));
    assert_eq!(&r[510..512], &[0xAA, 0xBB]);
    assert_eq!(&r[1022..1024], &[0xCC, 0xDD]);
    assert_eq!(&r[USA..USA + 2], &[0x01, 0x00]);
}

#[test]
fn fix_usn_leaves_a_record_with_a_bad_first_sector_unchanged() {
    let mut r = record(1, &[]);
    r[511] = 0x07;
    let before = r.clone();
    assert!(!fix_usn(&mut r, USA));
    assert_eq!(r, before);
}

#[test]
fn fix_usn_keeps_the_first_repair_when_the_second_sector_fails() {
    let mut r = record(1, &[]);
    r[1022] = 0x07;
    assert!(!fix_usn(&mut r, USA));
    assert_eq!(&r[510..512], &[0xAA, 0xBB]);
    assert_eq!(&r[1022..1024], &[0x07, 0x00]);
}

#[test]
fn parse_record_attributes_lists_headers_in_order() {
    let r = record(1, &[(0x10, si_content(1)), (0x30, fn_content(5, 1, "a"))]);
    let attrs = parse_record_attributes(&r, FIRST_ATTR);
    assert_eq!(attrs.len(), 2);
    assert_eq!(attrs[0].0, FIRST_ATTR);
    assert_eq!(attrs[0].1.attr_type, 0x10);
    assert_eq!(attrs[0].1.attr_len, 96);
    assert_eq!(attrs[1].0, FIRST_ATTR + 96);
    assert_eq!(attrs[1].1.attr_type, 0x30);
    assert!(parse_record_attributes(&r, 1000).is_empty());
}

#[test]
fn parse_record_attributes_stops_at_zero_length() {
    let mut r = record(1, &[(0x10, si_content(1)), (0x30, fn_content(5, 1, "a"))]);
    r[FIRST_ATTR + 96 + 4..FIRST_ATTR + 96 + 8].copy_from_slice(&0u32.to_le_bytes());
    assert_eq!(parse_record_attributes(&r, FIRST_ATTR).len(), 1);
}

#[test]
fn parse_record_attributes_stops_past_the_record() {
    let mut r = record(1, &[(0x10, si_content(1))]);
    r[FIRST_ATTR + 4..FIRST_ATTR + 8].copy_from_slice(&2000u32.to_le_bytes());
    let attrs = parse_record_attributes(&r, FIRST_ATTR);
    assert_eq!(attrs.len(), 1);
    assert_eq!(attrs[0].1.attr_len, 2000);
}

fn resident_header(attr_type: u32) -> MftAttributeHeader {
    let mut b = vec![0u8; 64];
    b[0..4].copy_from_slice(&attr_type.to_le_bytes());
    b[4..8].copy_from_slice(&0x60u32.to_le_bytes());
    MftAttributeHeader::parse(&b).unwrap()
}

#[test]
fn parse_resident_attribute_by_type() {
    match parse_resident_attribute(&resident_header(0x10), &si_content(9)) {
        Some(Attribute::StandardInformation(si)) => assert_eq!(si.file_creation, 9),
        _ => panic!("expected standard information"),
    }
    match parse_resident_attribute(&resident_header(0x30), &fn_content(5, 1, "n")) {
        Some(Attribute::FileName(f)) => assert_eq!(f.name, Some("n".to_string())),
        _ => panic!("expected a file name"),
    }
    assert!(parse_resident_attribute(&resident_header(0x10), &[0u8; 10]).is_none());
    assert!(parse_resident_attribute(&resident_header(0x30), &[0u8; 4]).is_none());
    assert!(parse_resident_attribute(&resident_header(0x80), &si_content(9)).is_none());
}

#[test]
fn parse_record_classifies_signatures() {
    let mut r = record(1, &[]);
    r[0..4].copy_from_slice(b"BAAD");
    assert!(matches!(parse_record(r), Some(RecordOutcome::Corrupted)));
    let mut r = record(1, &[]);
    r[0..4].copy_from_slice(b"FILF");
    assert!(matches!(parse_record(r), Some(RecordOutcome::Invalid)));
    assert!(matches!(parse_record(vec![0u8; 1024]), Some(RecordOutcome::Invalid)));
}

#[test]
fn parse_record_reports_usn_mismatch_with_header() {
    let mut r = record(77, &[]);
    r[1023] = 9;
    match parse_record(r) {
        Some(RecordOutcome::UsnMismatch(h)) => assert_eq!(h.record_number, 77),
        _ => panic!("expected an update sequence mismatch"),
    }
}

#[test]
fn parse_record_gives_nothing_when_reads_run_past_the_record() {
    let mut r = record(1, &[]);
    r[4..6].copy_from_slice(&1020u16.to_le_bytes());
    assert!(parse_record(r).is_none());
    // a standard information content of 0x42 bytes: refused by its check,
    // but too short for its last field
    let short = vec![0u8; 0x42];
    assert!(parse_record(record(1, &[(0x10, short)])).is_none());
    // a file name content of 8 bytes
    assert!(parse_record(record(1, &[(0x30, vec![0u8; 8])])).is_none());
}

#[test]
fn parse_record_reads_entry() {
    let r = record(12, &[(0x10, si_content(3)), (0x30, fn_content(5, 2, "DOS~1")), (0x30, fn_content(5, 1, "long name"))]);
    let e = entry_of(parse_record(r));
    assert_eq!(e.header.record_number, 12);
    assert_eq!(e.attributes.len(), 3);
    assert_eq!(e.file_names.len(), 2);
    assert_eq!(e.file_names[0].name, Some("DOS~1".to_string()));
    assert_eq!(e.file_names[1].name, Some("long name".to_string()));
    assert!(e.standard_information.is_none());
    assert_eq!(e.file_name.unwrap().name, Some("long name".to_string()));
}

#[test]
fn parse_record_last_attribute_decides() {
    let r = record(12, &[(0x30, fn_content(5, 1, "a")), (0x10, si_content(3))]);
    let e = entry_of(parse_record(r));
    assert!(e.file_name.is_none());
    assert_eq!(e.file_names.len(), 1);
    assert_eq!(e.standard_information.unwrap().file_creation, 3);
    let r = record(12, &[(0x10, si_content(3)), (0x80, vec![1, 2, 3])]);
    let e = entry_of(parse_record(r));
    assert_eq!(e.standard_information.unwrap().update_sequence_number, 4);
    assert!(e.file_name.is_none());
}

#[test]
fn parse_record_skips_small_and_non_resident_contents() {
    let mut r = record(3, &[(0x10, vec![0u8; 0x20]), (0x30, vec![0u8; 4]), (0x30, fn_content(5, 1, "x"))]);
    // make the last attribute non-resident
    let third = FIRST_ATTR + 56 + 32;
    r[third + 8] = 1;
    let e = entry_of(parse_record(r));
    assert_eq!(e.attributes.len(), 3);
    assert!(e.standard_information.is_none());
    assert!(e.file_name.is_none());
    assert!(e.file_names.is_empty());
}

#[test]
fn parse_record_reads_repaired_bytes() {
    // a standard information content that spans the end of the first sector
    let mut r = record(4, &[]);
    let p = 440;
    r[20..22].copy_from_slice(&(p as u16).to_le_bytes());
    r[p..p + 4].copy_from_slice(&0x10u32.to_le_bytes());
    r[p + 4..p + 8].copy_from_slice(&96u32.to_le_bytes());
    r[p + 16..p + 20].copy_from_slice(&72u32.to_le_bytes());
    r[p + 20..p + 22].copy_from_slice(&24u16.to_le_bytes());
    r[p + 96..p + 100].copy_from_slice(&0xFFFF_FFFFu32.to_le_bytes());
    // the content lies at 464..536, so its class_id field (content bytes
    // 44..48) covers record bytes 508..512, the last two of them repaired
    let e = entry_of(parse_record(r));
    let si = e.standard_information.unwrap();
    assert_eq!(si.class_id, 0xBBAA_0000);
}

#[test]
fn parse_records_counts_and_keeps_entries() {
    let mut data = Vec::new();
    data.extend(record(0, &[(0x30, fn_content(5, 1, "$MFT"))]));
    let mut bad = record(1, &[]);
    bad[0..4].copy_from_slice(b"BAAD");
    data.extend(bad);
    data.extend(vec![0u8; 1024]);
    let mut mismatch = record(3, &[]);
    mismatch[511] = 2;
    data.extend(mismatch);
    data.extend(record(4, &[(0x30, fn_content(5, 1, "x"))]));
    data.extend(vec![0x46u8; 100]);
    let scan = parse_records(&data).unwrap();
    assert_eq!(scan.good_records, 3);
    assert_eq!(scan.corrupted_records, 1);
    assert_eq!(scan.invalid_records, 1);
    assert_eq!(scan.entries.len(), 2);
    assert_eq!(scan.entries[0].0, 0);
    assert_eq!(scan.entries[1].0, 4096);
    assert_eq!(scan.entries[1].1.header.record_number, 4);
}

#[test]
fn parse_records_of_empty_data() {
    let scan = parse_records(&[]).unwrap();
    assert_eq!(scan.good_records + scan.corrupted_records + scan.invalid_records, 0);
    assert!(scan.entries.is_empty());
}

#[test]
fn parse_records_gives_nothing_for_an_unreadable_record() {
    let mut data = record(0, &[]);
    let mut r = record(1, &[]);
    r[4..6].copy_from_slice(&1019u16.to_le_bytes());
    data.extend(r);
    assert!(parse_records(&data).is_none());
}

#[test]
fn build_tree_links_children_and_names() {
    let mut data = Vec::new();
    data.extend(record(5, &[(0x30, fn_content(5, 3, "."))]));
    data.extend(record(30, &[(0x30, fn_content(0x0003_0000_0000_0005, 1, "dir"))]));
    data.extend(record(40, &[(0x30, fn_content(30, 2, "FILE~1.TXT")), (0x30, fn_content(30, 1, "file.txt"))]));
    data.extend(record(41, &[(0x30, fn_content(0x0001_0000_0000_001E, 0, "posix"))]));
    data.extend(record(50, &[(0x10, si_content(1))]));
    data.extend(record(60, &[(0x30, fn_content(30, 2, "A"))]));
    let scan = parse_records(&data).unwrap();
    assert_eq!(scan.entries.len(), 6);
    let nodes = build_tree(&scan.entries);
    assert_eq!(nodes.len(), 6);
    let root = &nodes[&5];
    assert_eq!(root.name, ".");
    assert_eq!(root.parent, 5);
    assert_eq!(root.children, vec![5, 30, 50]);
    let dir = &nodes[&30];
    assert_eq!(dir.name, "dir");
    assert_eq!(dir.parent, 5);
    assert_eq!(dir.children, vec![40, 41, 60]);
    let file = &nodes[&40];
    assert_eq!(file.name, "file.txt");
    assert_eq!(file.parent, 30);
    assert!(file.children.is_empty());
    assert_eq!(nodes[&41].name, "posix");
    assert_eq!(nodes[&50].name, "unknown");
    assert_eq!(nodes[&50].parent, 5);
    assert_eq!(nodes[&60].name, "A");
    assert_eq!(get_ref_to_parent(&scan.entries[1].1), 5);
}

#[test]
fn build_tree_later_entry_wins_a_record_number() {
    let mut data = Vec::new();
    data.extend(record(7, &[(0x30, fn_content(5, 1, "first"))]));
    data.extend(record(7, &[(0x30, fn_content(5, 1, "second"))]));
    let scan = parse_records(&data).unwrap();
    let nodes = build_tree(&scan.entries);
    assert_eq!(nodes.len(), 1);
    assert_eq!(nodes[&7].name, "second");
    assert!(nodes[&7].children.is_empty());
}

#[test]
fn build_tree_of_nothing_is_empty() {
    assert!(build_tree(&Vec::new()).is_empty());
}

#[test]
fn headers_of_entries_match_their_records() {
    let r = record(99, &[]);
    let h = MftHeader::parse(&r).unwrap();
    let e = entry_of(parse_record(r));
    assert_eq!(e.header, h);
}
