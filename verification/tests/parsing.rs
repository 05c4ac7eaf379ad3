use deepcut::errors::{CoreError, DeepcutError};
use deepcut::mft::attributes::{Attribute, FileName, StandardInformation};
use deepcut::mft::errors::MftError;
use deepcut::mft::structure::{
    AttributeData, MftAttributeHeader, MftHeader, MftNonResidentAttribute, MftResidentAttribute,
};
use deepcut::utils::{extract_string, read_bytes};

fn utf16_bytes(s: &str) -> Vec<u8> {
    s.encode_utf16().flat_map(|u| u.to_le_bytes()).collect()
}

fn header_bytes(sig: &[u8; 4]) -> Vec<u8> {
    let mut b = vec![0u8; 48];
    b[0..4].copy_from_slice(sig);
    b[4..6].copy_from_slice(&0x30u16.to_le_bytes());
    b[6..8].copy_from_slice(&3u16.to_le_bytes());
    b[8..16].copy_from_slice(&0x1122_3344_5566_7788u64.to_le_bytes());
    b[16..18].copy_from_slice(&7u16.to_le_bytes());
    b[18..20].copy_from_slice(&2u16.to_le_bytes());
    b[20..22].copy_from_slice(&0x38u16.to_le_bytes());
    b[22..24].copy_from_slice(&1u16.to_le_bytes());
    b[24..28].copy_from_slice(&0x1A0u32.to_le_bytes());
    b[28..32].copy_from_slice(&0x400u32.to_le_bytes());
    b[32..40].copy_from_slice(&0u64.to_le_bytes());
    b[40..42].copy_from_slice(&5u16.to_le_bytes());
    b[42..44].copy_from_slice(&0xFFFFu16.to_le_bytes());
    b[44..48].copy_from_slice(&42u32.to_le_bytes());
    b
}

#[test]
fn read_bytes_reads_little_endian_values() {
    assert_eq!(read_bytes::<u8>(&[0xAB]), Ok(0xAB));
    assert_eq!(read_bytes::<u16>(&[0x34, 0x12]), Ok(0x1234));
    assert_eq!(read_bytes::<u32>(&[0x78, 0x56, 0x34, 0x12]), Ok(0x1234_5678));
    assert_eq!(
        read_bytes::<u64>(&[0xEF, 0xCD, 0xAB, 0x89, 0x67, 0x45, 0x23, 0x01]),
        Ok(0x0123_4567_89AB_CDEF)
    );
    assert_eq!(read_bytes::<u64>(&[0xFF; 8]), Ok(u64::MAX));
}

#[test]
fn read_bytes_refuses_wrong_lengths() {
    assert_eq!(read_bytes::<u8>(&[]), Err(CoreError::CoreFailedToReadLeU8));
    assert_eq!(read_bytes::<u16>(&[1, 2, 3]), Err(CoreError::CoreFailedToReadLeU16));
    assert_eq!(read_bytes::<u32>(&[1, 2]), Err(CoreError::CoreFailedToReadLeU32));
    assert_eq!(read_bytes::<u64>(&[1, 2, 3, 4]), Err(CoreError::CoreFailedToReadLeU64));
}

#[test]
fn extract_string_decodes_utf16_names() {
    let bytes = utf16_bytes("AB");
    assert_eq!(extract_string(&bytes, 2), Some("AB".to_string()));
    let mut longer = utf16_bytes("$MFT");
    longer.extend_from_slice(&[0x41, 0x00, 0x42]);
    assert_eq!(extract_string(&longer, 4), Some("$MFT".to_string()));
    assert_eq!(extract_string(&longer, 1), Some("$".to_string()));
    let accented = utf16_bytes("é€");
    assert_eq!(extract_string(&accented, 2), Some("é€".to_string()));
}

#[test]
fn extract_string_gives_nothing_for_empty_short_or_invalid_names() {
    let bytes = utf16_bytes("AB");
    assert_eq!(extract_string(&bytes, 0), None);
    assert_eq!(extract_string(&bytes, 3), None);
    // an unpaired high surrogate
    assert_eq!(extract_string(&[0x00, 0xD8], 1), None);
}

#[test]
fn mft_header_parse_reads_fields() {
    let b = header_bytes(b"FILE");
    let h = MftHeader::parse(&b).unwrap();
    assert_eq!(h.usa_offset, 0x30);
    assert_eq!(h.usa_count, 3);
    assert_eq!(h.lsn, 0x1122_3344_5566_7788);
    assert_eq!(h.seq_num, 7);
    assert_eq!(h.hard_link_count, 2);
    assert_eq!(h.attr_offset, 0x38);
    assert_eq!(h.flags, 1);
    assert_eq!(h.used_size, 0x1A0);
    assert_eq!(h.alloc_size, 0x400);
    assert_eq!(h.base_ref, 0);
    assert_eq!(h.next_attr_id, 5);
    assert_eq!(h.record_number, 42);
}

#[test]
fn mft_header_parse_refuses_bad_records() {
    assert_eq!(
        MftHeader::parse(&header_bytes(b"BAAD")).err(),
        Some(DeepcutError::Mft(MftError::MftHeaderSignatureBad))
    );
    assert_eq!(
        MftHeader::parse(&header_bytes(b"ELIF")).err(),
        Some(DeepcutError::Mft(MftError::MftHeaderSignatureInvalid))
    );
    assert_eq!(
        MftHeader::parse(&header_bytes(b"FILE")[..47]).err(),
        Some(DeepcutError::Mft(MftError::MftRecordTooSmall))
    );
    assert_eq!(
        MftHeader::parse(&[]).err(),
        Some(DeepcutError::Mft(MftError::MftRecordTooSmall))
    );
}

#[test]
fn resident_and_non_resident_parts_are_read() {
    let r = MftResidentAttribute::parse(&[0x48, 0, 0, 0, 0x18, 0, 1, 0]).unwrap();
    assert_eq!(r, MftResidentAttribute { content_len: 0x48, attr_offset: 0x18, index_flags: 1 });
    let mut b = vec![0u8; 48];
    b[0..8].copy_from_slice(&1u64.to_le_bytes());
    b[8..16].copy_from_slice(&9u64.to_le_bytes());
    b[16..18].copy_from_slice(&0x40u16.to_le_bytes());
    b[18..20].copy_from_slice(&4u16.to_le_bytes());
    b[20..24].copy_from_slice(&[0xEE; 4]);
    b[24..32].copy_from_slice(&0x2000u64.to_le_bytes());
    b[32..40].copy_from_slice(&0x1F00u64.to_le_bytes());
    b[40..48].copy_from_slice(&0x1E00u64.to_le_bytes());
    let n = MftNonResidentAttribute::parse(&b).unwrap();
    assert_eq!(
        n,
        MftNonResidentAttribute {
            start_vcn: 1,
            last_vcn: 9,
            data_runs_offset: 0x40,
            cus: 4,
            alloc_size: 0x2000,
            actual_attr: 0x1F00,
            init_data_size: 0x1E00,
        }
    );
}

fn attribute_header(attr_type: u32, attr_len: u32, non_resident: u8, name: Option<(&str, u16)>) -> Vec<u8> {
    let mut b = vec![0u8; 64];
    b[0..4].copy_from_slice(&attr_type.to_le_bytes());
    b[4..8].copy_from_slice(&attr_len.to_le_bytes());
    b[8] = non_resident;
    if let Some((n, off)) = name {
        b[9] = n.encode_utf16().count() as u8;
        b[10..12].copy_from_slice(&off.to_le_bytes());
        let bytes = utf16_bytes(n);
        b[off as usize..off as usize + bytes.len()].copy_from_slice(&bytes);
    }
    b[12..14].copy_from_slice(&0x0001u16.to_le_bytes());
    b[14..16].copy_from_slice(&3u16.to_le_bytes());
    b[16..20].copy_from_slice(&0x20u32.to_le_bytes());
    b[20..22].copy_from_slice(&0x18u16.to_le_bytes());
    b[22] = 0;
    b
}

#[test]
fn attribute_header_parse_reads_resident_header() {
    let b = attribute_header(0x80, 0x40, 0, Some(("$I30", 0x30)));
    let h = MftAttributeHeader::parse(&b).unwrap();
    assert_eq!(h.attr_type, 0x80);
    assert_eq!(h.attr_len, 0x40);
    assert_eq!(h.non_resident, 0);
    assert_eq!(h.name_len, 4);
    assert_eq!(h.name_offset, 0x30);
    assert_eq!(h.flags, 1);
    assert_eq!(h.attr_id, 3);
    assert_eq!(h.name, Some("$I30".to_string()));
    assert_eq!(
        h.data,
        Some(AttributeData::Resident(MftResidentAttribute {
            content_len: 0x20,
            attr_offset: 0x18,
            index_flags: 0,
        }))
    );
}

#[test]
fn attribute_header_parse_reads_non_resident_header() {
    let mut b = attribute_header(0x80, 0x48, 1, None);
    b[16..24].copy_from_slice(&0u64.to_le_bytes());
    b[24..32].copy_from_slice(&0x10u64.to_le_bytes());
    let h = MftAttributeHeader::parse(&b).unwrap();
    assert_eq!(h.name, None);
    match h.data {
        Some(AttributeData::NonResident(n)) => {
            assert_eq!(n.start_vcn, 0);
            assert_eq!(n.last_vcn, 0x10);
        }
        _ => panic!("expected a non-resident part"),
    }
}

#[test]
fn attribute_header_name_outside_buffer_is_none() {
    let mut b = attribute_header(0x30, 0x68, 0, None);
    b[9] = 4;
    b[10..12].copy_from_slice(&60u16.to_le_bytes());
    let h = MftAttributeHeader::parse(&b).unwrap();
    assert_eq!(h.name_len, 4);
    assert_eq!(h.name, None);
    b[10..12].copy_from_slice(&64u16.to_le_bytes());
    assert_eq!(MftAttributeHeader::parse(&b).unwrap().name, None);
}

pub fn standard_information_content() -> Vec<u8> {
    let mut b = vec![0u8; 72];
    for (i, v) in [1u64, 2, 3, 4].iter().enumerate() {
        b[i * 8..i * 8 + 8].copy_from_slice(&v.to_le_bytes());
    }
    for (i, v) in [0x20u32, 0, 0, 0, 0x100, 0x200].iter().enumerate() {
        b[32 + i * 4..36 + i * 4].copy_from_slice(&v.to_le_bytes());
    }
    b[56..64].copy_from_slice(&77u64.to_le_bytes());
    b[64..72].copy_from_slice(&0x9999u64.to_le_bytes());
    b
}

#[test]
fn standard_information_parse_reads_fields() {
    let si = StandardInformation::parse(&standard_information_content()).unwrap();
    assert_eq!(
        si,
        StandardInformation {
            file_creation: 1,
            file_altered: 2,
            mft_changed: 3,
            file_read: 4,
            file_permissions: 0x20,
            max_num_of_versions: 0,
            version_number: 0,
            class_id: 0,
            owner_id: 0x100,
            security_id: 0x200,
            quota_charged: 77,
            update_sequence_number: 0x9999,
        }
    );
}

#[test]
fn standard_information_parse_refuses_small_buffers() {
    assert_eq!(
        StandardInformation::parse(&[0u8; 0x41]).err(),
        Some(DeepcutError::Mft(MftError::MftAttributeStandardInformationSmallBuffer))
    );
    assert_eq!(
        StandardInformation::parse(&[]).err(),
        Some(DeepcutError::Mft(MftError::MftAttributeStandardInformationSmallBuffer))
    );
}

pub fn file_name_content(parent: u64, space: u8, name: &str) -> Vec<u8> {
    let mut b = vec![0u8; 66];
    b[0..8].copy_from_slice(&parent.to_le_bytes());
    b[8..16].copy_from_slice(&10u64.to_le_bytes());
    b[16..24].copy_from_slice(&11u64.to_le_bytes());
    b[24..32].copy_from_slice(&12u64.to_le_bytes());
    b[32..40].copy_from_slice(&13u64.to_le_bytes());
    b[40..48].copy_from_slice(&4096u64.to_le_bytes());
    b[48..56].copy_from_slice(&100u64.to_le_bytes());
    b[56..60].copy_from_slice(&0x20u32.to_le_bytes());
    b[60..64].copy_from_slice(&0u32.to_le_bytes());
    b[64] = name.encode_utf16().count() as u8;
    b[65] = space;
    b.extend(utf16_bytes(name));
    b
}

#[test]
fn file_name_parse_reads_fields_and_name() {
    let f = FileName::parse(&file_name_content(0x0001_0000_0000_0005, 1, "hello.txt")).unwrap();
    assert_eq!(f.ref_to_parent, 0x0001_0000_0000_0005);
    assert_eq!(f.ctime, 10);
    assert_eq!(f.atime, 11);
    assert_eq!(f.mtime, 12);
    assert_eq!(f.rtime, 13);
    assert_eq!(f.allocated_size, 4096);
    assert_eq!(f.real_size, 100);
    assert_eq!(f.flags, 0x20);
    assert_eq!(f.eas_and_reparse, 0);
    assert_eq!(f.filename_len_in_chars, 9);
    assert_eq!(f.filename_space, 1);
    assert_eq!(f.name, Some("hello.txt".to_string()));
}

#[test]
fn file_name_parse_without_room_for_name_has_no_name() {
    let mut c = file_name_content(5, 3, "abc");
    c.truncate(70);
    let f = FileName::parse(&c).unwrap();
    assert_eq!(f.filename_len_in_chars, 3);
    assert_eq!(f.name, None);
}

#[test]
fn file_name_parse_refuses_small_buffers() {
    assert_eq!(
        FileName::parse(&[0u8; 7]).err(),
        Some(DeepcutError::Mft(MftError::MftAttributeStandardInformationSmallBuffer))
    );
}

#[test]
fn get_picks_the_matching_attribute() {
    let si = StandardInformation::parse(&standard_information_content()).unwrap();
    let f = FileName::parse(&file_name_content(5, 1, "x")).unwrap();
    assert_eq!(StandardInformation::get(Attribute::StandardInformation(si)), Some(si));
    assert!(StandardInformation::get(Attribute::FileName(f.clone())).is_none());
    assert_eq!(FileName::get(Attribute::FileName(f)).unwrap().name, Some("x".to_string()));
    assert!(FileName::get(Attribute::StandardInformation(si)).is_none());
}

#[test]
fn error_messages() {
    assert_eq!(CoreError::CoreFailedToReadLeU16.message(), "Failed to read LE U16 bytes");
    assert_eq!(MftError::MftHeaderSignatureBad.message(), "Corrupted MFT Object");
    assert_eq!(
        DeepcutError::from(MftError::MftRecordTooSmall).message(),
        "MFT Record Too Small"
    );
    assert_eq!(
        DeepcutError::from(CoreError::CoreFailedToParseUtf16),
        DeepcutError::Core(CoreError::CoreFailedToParseUtf16)
    );
}
