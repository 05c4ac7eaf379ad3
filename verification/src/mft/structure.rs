use vstd::prelude::*;
use crate::errors::DeepcutError;
use crate::mft::errors::MftError;
use crate::utils::{self, le_value, le_units, lemma_le_value_fits, opt_text, utf16_text};

verus! {

/// "FILE" read as a big-endian number: the signature of a record in use.
pub const MFT_SIGNATURE: u32 = 0x46494C45;

/// "BAAD" read as a big-endian number: the signature of a record that the
/// file system marked as corrupted.
pub const MFT_BAD: u32 = 0x42414144;

/// The number of bytes of the fixed part of a record header.
pub const MFT_HEADER_SIZE: usize = 0x30;

/// The size in bytes of one record of the master file table.
pub const MFT_RECORD_SIZE: usize = 0x400;

/// The number of bytes of a record that one attribute header is read from.
pub const MFT_ATTRIBUTE_MAX_SIZE: usize = 0x40;

/// The fixed header of a record of the master file table.
/// The update sequence array (USA) holds the values that protect the ends of
/// the record's sectors; the LSN is the log file sequence number.
#[derive(PartialEq, Eq, Structural, Debug, Clone, Copy)]
pub struct MftHeader {
    pub usa_offset: u16,
    pub usa_count: u16,
    pub lsn: u64,
    pub seq_num: u16,
    pub hard_link_count: u16,
    pub attr_offset: u16,
    pub flags: u16,
    pub used_size: u32,
    pub alloc_size: u32,
    pub base_ref: u64,
    pub next_attr_id: u16,
    pub record_number: u32,
}

/// The common header of an attribute of a record.
#[derive(Debug)]
pub struct MftAttributeHeader {
    pub attr_type: u32,
    pub attr_len: u32,
    pub non_resident: u8,
    pub name_len: u8,
    pub name_offset: u16,
    pub flags: u16,
    pub attr_id: u16,
    pub name: Option<String>,
    pub data: Option<AttributeData>,
}

/// The part of an attribute header that depends on where its content lives.
#[derive(PartialEq, Eq, Structural, Debug, Clone, Copy)]
pub enum AttributeData {
    Resident(MftResidentAttribute),
    NonResident(MftNonResidentAttribute),
}

/// An attribute whose content is stored inside the record.
#[derive(PartialEq, Eq, Structural, Debug, Clone, Copy)]
pub struct MftResidentAttribute {
    pub content_len: u32,
    pub attr_offset: u16,
    pub index_flags: u8,
}

/// An attribute whose content is stored in runs outside the record.
/// `cus` is the compression unit size.
#[derive(PartialEq, Eq, Structural, Debug, Clone, Copy)]
pub struct MftNonResidentAttribute {
    pub start_vcn: u64,
    pub last_vcn: u64,
    pub data_runs_offset: u16,
    pub cus: u16,
    pub alloc_size: u64,
    pub actual_attr: u64,
    pub init_data_size: u64,
}

/// The little-endian number in bytes `lo .. hi` of `b`.
pub open spec fn field(b: Seq<u8>, lo: int, hi: int) -> nat {
    le_value(b.subrange(lo, hi))
}

/// The first four bytes of `b` read as a big-endian number.
pub open spec fn spec_signature(b: Seq<u8>) -> nat {
    (b[0] * 0x100_0000 + b[1] * 0x1_0000 + b[2] * 0x100 + b[3]) as nat
}

/// The header fields that a record of at least 48 bytes holds.
pub open spec fn spec_mft_header(b: Seq<u8>) -> MftHeader {
    MftHeader {
        usa_offset: field(b, 4, 6) as u16,
        usa_count: field(b, 6, 8) as u16,
        lsn: field(b, 8, 16) as u64,
        seq_num: field(b, 16, 18) as u16,
        hard_link_count: field(b, 18, 20) as u16,
        attr_offset: field(b, 20, 22) as u16,
        flags: field(b, 22, 24) as u16,
        used_size: field(b, 24, 28) as u32,
        alloc_size: field(b, 28, 32) as u32,
        base_ref: field(b, 32, 40) as u64,
        next_attr_id: field(b, 40, 42) as u16,
        record_number: field(b, 44, 48) as u32,
    }
}

/// What `MftHeader::parse` returns: a record shorter than the header is too
/// small; one whose signature is not "FILE" is refused as corrupted when it
/// is "BAAD" and as invalid otherwise; any other record gives its header.
pub open spec fn spec_parse_mft_header(b: Seq<u8>) -> Result<MftHeader, DeepcutError> {
    if b.len() < MFT_HEADER_SIZE {
        Err(DeepcutError::Mft(MftError::MftRecordTooSmall))
    } else if spec_signature(b) != MFT_SIGNATURE {
        if spec_signature(b) == MFT_BAD {
            Err(DeepcutError::Mft(MftError::MftHeaderSignatureBad))
        } else {
            Err(DeepcutError::Mft(MftError::MftHeaderSignatureInvalid))
        }
    } else {
        Ok(spec_mft_header(b))
    }
}

/// The resident part read from the first seven bytes of `b`.
pub open spec fn spec_resident(b: Seq<u8>) -> MftResidentAttribute {
    MftResidentAttribute {
        content_len: field(b, 0, 4) as u32,
        attr_offset: field(b, 4, 6) as u16,
        index_flags: field(b, 6, 7) as u8,
    }
}

/// The non-resident part read from the first 48 bytes of `b`.
pub open spec fn spec_non_resident(b: Seq<u8>) -> MftNonResidentAttribute {
    MftNonResidentAttribute {
        start_vcn: field(b, 0, 8) as u64,
        last_vcn: field(b, 8, 16) as u64,
        data_runs_offset: field(b, 16, 18) as u16,
        cus: field(b, 18, 20) as u16,
        alloc_size: field(b, 24, 32) as u64,
        actual_attr: field(b, 32, 40) as u64,
        init_data_size: field(b, 40, 48) as u64,
    }
}

/// The name of the attribute whose header is `b`: none when its length is
/// zero or its `2 * name_len` bytes at `name_offset` do not lie inside `b`,
/// else the UTF-16 text of those bytes when it is valid.
pub open spec fn spec_attr_name(b: Seq<u8>) -> Option<Seq<char>> {
    let name_len = field(b, 9, 10);
    let start = field(b, 10, 12);
    let end = start + 2 * name_len;
    if name_len == 0 || start >= b.len() || end > b.len() {
        None
    } else {
        utf16_text(le_units(b.subrange(start as int, end as int)))
    }
}

/// The resident or non-resident part of the attribute whose header is `b`,
/// chosen by the byte at offset 8.
pub open spec fn spec_attr_data(b: Seq<u8>) -> AttributeData {
    if b[8] == 0 {
        AttributeData::Resident(spec_resident(b.subrange(16, 24)))
    } else {
        AttributeData::NonResident(spec_non_resident(b.subrange(16, 64)))
    }
}

/// `h` is the attribute header that the bytes `b` hold.
pub open spec fn attr_header_of(h: MftAttributeHeader, b: Seq<u8>) -> bool {
    &&& h.attr_type == field(b, 0, 4)
    &&& h.attr_len == field(b, 4, 8)
    &&& h.non_resident == b[8]
    &&& h.name_len == b[9]
    &&& h.name_offset == field(b, 10, 12)
    &&& h.flags == field(b, 12, 14)
    &&& h.attr_id == field(b, 14, 16)
    &&& opt_text(h.name) == spec_attr_name(b)
    &&& h.data == Some(spec_attr_data(b))
}

/// The update sequence number and the two values after it, six bytes at
/// `usa_offset`, lie inside a record of 1024 bytes.
pub open spec fn header_usa_fits(h: MftHeader) -> bool {
    h.usa_offset + 6 <= MFT_RECORD_SIZE
}

/// The bytes of an attribute header can be read: its resident part needs 24
/// bytes, its non-resident part 64.
pub open spec fn attr_header_readable(b: Seq<u8>) -> bool {
    b.len() >= 24 && (b[8] != 0 ==> b.len() >= 64)
}

/// The fields of `h` are the little-endian numbers at their on-disk offsets
/// in the record `b`: bytes 4..6 the update sequence array offset, 6..8 its
/// size, 8..16 the log sequence number, 16..18 the sequence number, 18..20
/// the hard link count, 20..22 the offset of the first attribute, 22..24 the
/// flags, 24..28 the used size, 28..32 the allocated size, 32..40 the base
/// record reference, 40..42 the next attribute id and 44..48 the record
/// number, each read in full.
pub open spec fn header_layout(h: MftHeader, b: Seq<u8>) -> bool {
    &&& h.usa_offset as nat == le_value(b.subrange(4, 6))
    &&& h.usa_count as nat == le_value(b.subrange(6, 8))
    &&& h.lsn as nat == le_value(b.subrange(8, 16))
    &&& h.seq_num as nat == le_value(b.subrange(16, 18))
    &&& h.hard_link_count as nat == le_value(b.subrange(18, 20))
    &&& h.attr_offset as nat == le_value(b.subrange(20, 22))
    &&& h.flags as nat == le_value(b.subrange(22, 24))
    &&& h.used_size as nat == le_value(b.subrange(24, 28))
    &&& h.alloc_size as nat == le_value(b.subrange(28, 32))
    &&& h.base_ref as nat == le_value(b.subrange(32, 40))
    &&& h.next_attr_id as nat == le_value(b.subrange(40, 42))
    &&& h.record_number as nat == le_value(b.subrange(44, 48))
}

/// The resident part `r` holds the numbers at bytes 0..4 (content length),
/// 4..6 (content offset) and 6 (indexed flag) of `b`.
pub open spec fn resident_layout(r: MftResidentAttribute, b: Seq<u8>) -> bool {
    &&& r.content_len as nat == le_value(b.subrange(0, 4))
    &&& r.attr_offset as nat == le_value(b.subrange(4, 6))
    &&& r.index_flags == b[6]
}

/// The non-resident part `n` holds the numbers at bytes 0..8 (first VCN),
/// 8..16 (last VCN), 16..18 (data runs offset), 18..20 (compression unit),
/// 24..32 (allocated size), 32..40 (actual size) and 40..48 (initialized
/// size) of `b`.
pub open spec fn non_resident_layout(n: MftNonResidentAttribute, b: Seq<u8>) -> bool {
    &&& n.start_vcn as nat == le_value(b.subrange(0, 8))
    &&& n.last_vcn as nat == le_value(b.subrange(8, 16))
    &&& n.data_runs_offset as nat == le_value(b.subrange(16, 18))
    &&& n.cus as nat == le_value(b.subrange(18, 20))
    &&& n.alloc_size as nat == le_value(b.subrange(24, 32))
    &&& n.actual_attr as nat == le_value(b.subrange(32, 40))
    &&& n.init_data_size as nat == le_value(b.subrange(40, 48))
}

/// The attribute header `h` holds the numbers of its 64 bytes `b` at their
/// on-disk offsets: type 0..4, length 4..8, non-resident flag 8, name length
/// 9, name offset 10..12, flags 12..14, id 14..16; the resident part from byte
/// 16 when byte 8 is zero, the non-resident part from byte 16 otherwise; and
/// a name of `b[9]` UTF-16 units at the name offset, when they lie in `b`.
pub open spec fn attr_header_layout(h: MftAttributeHeader, b: Seq<u8>) -> bool {
    let start = le_value(b.subrange(10, 12));
    let end = start + 2 * b[9];
    &&& h.attr_type as nat == le_value(b.subrange(0, 4))
    &&& h.attr_len as nat == le_value(b.subrange(4, 8))
    &&& h.non_resident == b[8]
    &&& h.name_len == b[9]
    &&& h.name_offset as nat == start
    &&& h.flags as nat == le_value(b.subrange(12, 14))
    &&& h.attr_id as nat == le_value(b.subrange(14, 16))
    &&& (b[9] == 0 || start >= b.len() || end > b.len() ==> h.name is None)
    &&& (b[9] != 0 && start < b.len() && end <= b.len() ==> opt_text(h.name) == utf16_text(
        le_units(b.subrange(start as int, end as int)),
    ))
    &&& (b[8] == 0 ==> (h.data matches Some(AttributeData::Resident(r)) && resident_layout(
        r,
        b.subrange(16, b.len() as int),
    )))
    &&& (b[8] != 0 ==> (h.data matches Some(AttributeData::NonResident(n))
        && non_resident_layout(n, b.subrange(16, b.len() as int))))
}

/// Every field of a parsed record header is the full little-endian number at
/// its on-disk offset, and a header is given exactly for records of at least
/// 48 bytes that start with "FILE".
pub proof fn lemma_header_layout(b: Seq<u8>)
    ensures
        spec_parse_mft_header(b) matches Ok(h) ==> header_layout(h, b),
        spec_parse_mft_header(b) is Ok <==> (b.len() >= MFT_HEADER_SIZE && b[0] == 0x46 && b[1]
            == 0x49 && b[2] == 0x4C && b[3] == 0x45),
{
    if b.len() >= MFT_HEADER_SIZE {
        lemma_signature_spelling(b);
        lemma_le_value_fits(b.subrange(4, 6));
        lemma_le_value_fits(b.subrange(6, 8));
        lemma_le_value_fits(b.subrange(8, 16));
        lemma_le_value_fits(b.subrange(16, 18));
        lemma_le_value_fits(b.subrange(18, 20));
        lemma_le_value_fits(b.subrange(20, 22));
        lemma_le_value_fits(b.subrange(22, 24));
        lemma_le_value_fits(b.subrange(24, 28));
        lemma_le_value_fits(b.subrange(28, 32));
        lemma_le_value_fits(b.subrange(32, 40));
        lemma_le_value_fits(b.subrange(40, 42));
        lemma_le_value_fits(b.subrange(44, 48));
    }
}

/// The resident and non-resident parts hold the full numbers at their
/// on-disk offsets.
pub proof fn lemma_part_layouts(b: Seq<u8>)
    ensures
        b.len() >= 7 ==> resident_layout(spec_resident(b), b),
        b.len() >= 48 ==> non_resident_layout(spec_non_resident(b), b),
{
    if b.len() >= 7 {
        lemma_le_value_fits(b.subrange(0, 4));
        lemma_le_value_fits(b.subrange(4, 6));
        lemma_single_byte(b, 6);
    }
    if b.len() >= 48 {
        lemma_le_value_fits(b.subrange(0, 8));
        lemma_le_value_fits(b.subrange(8, 16));
        lemma_le_value_fits(b.subrange(16, 18));
        lemma_le_value_fits(b.subrange(18, 20));
        lemma_le_value_fits(b.subrange(24, 32));
        lemma_le_value_fits(b.subrange(32, 40));
        lemma_le_value_fits(b.subrange(40, 48));
    }
}

/// A parsed attribute header holds the numbers of its bytes at their
/// on-disk offsets.
pub proof fn lemma_attr_header_layout(h: MftAttributeHeader, b: Seq<u8>)
    requires
        attr_header_readable(b),
        attr_header_of(h, b),
    ensures
        attr_header_layout(h, b),
{
    lemma_single_byte(b, 9);
    let r = b.subrange(16, 24);
    let n = b.subrange(16, 64);
    let tail = b.subrange(16, b.len() as int);
    lemma_part_layouts(r);
    lemma_part_layouts(n);
    assert(r.subrange(0, 4) =~= tail.subrange(0, 4));
    assert(r.subrange(4, 6) =~= tail.subrange(4, 6));
    assert(r[6] == tail[6]);
    if b[8] != 0 {
        assert(n.subrange(0, 8) =~= tail.subrange(0, 8));
        assert(n.subrange(8, 16) =~= tail.subrange(8, 16));
        assert(n.subrange(16, 18) =~= tail.subrange(16, 18));
        assert(n.subrange(18, 20) =~= tail.subrange(18, 20));
        assert(n.subrange(24, 32) =~= tail.subrange(24, 32));
        assert(n.subrange(32, 40) =~= tail.subrange(32, 40));
        assert(n.subrange(40, 48) =~= tail.subrange(40, 48));
    }
}

/// Reads the first four bytes of `buf` as a big-endian number.
fn read_signature(buf: &[u8]) -> (v: u32)
    requires
        buf@.len() >= 4,
    ensures
        v == spec_signature(buf@),
{
    (buf[0] as u32) * 0x100_0000 + (buf[1] as u32) * 0x1_0000 + (buf[2] as u32) * 0x100
        + buf[3] as u32
}

/// A one-byte field is the byte itself.
pub proof fn lemma_single_byte(b: Seq<u8>, i: int)
    requires
        0 <= i < b.len(),
    ensures
        field(b, i, i + 1) == b[i],
{
    reveal_with_fuel(le_value, 2);
    assert(b.subrange(i, i + 1).drop_first() =~= Seq::<u8>::empty());
    assert(b.subrange(i, i + 1)[0] == b[i]);
}

impl MftHeader {
    /// Reads the fixed header at the start of a record.
    pub fn parse(buf: &[u8]) -> (r: Result<Self, DeepcutError>)
        ensures
            r == spec_parse_mft_header(buf@),
            r matches Ok(h) ==> header_layout(h, buf@),
            r is Ok <==> (buf@.len() >= MFT_HEADER_SIZE && buf@[0] == 0x46 && buf@[1] == 0x49
                && buf@[2] == 0x4C && buf@[3] == 0x45),
    {
        proof {
            lemma_header_layout(buf@);
        }
        if buf.len() < MFT_HEADER_SIZE {
            return Err(DeepcutError::from(MftError::MftRecordTooSmall));
        }
        let signature = read_signature(buf);
        if signature != MFT_SIGNATURE {
            if signature == MFT_BAD {
                return Err(DeepcutError::from(MftError::MftHeaderSignatureBad));
            }
            return Err(DeepcutError::from(MftError::MftHeaderSignatureInvalid));
        }
        let usa_offset: u16 = match utils::read_bytes(&buf[4..6]) {
            Ok(usa_offset) => usa_offset,
            Err(e) => return Err(DeepcutError::from(e)),
        };
        let usa_count: u16 = match utils::read_bytes(&buf[6..8]) {
            Ok(usa_count) => usa_count,
            Err(e) => return Err(DeepcutError::from(e)),
        };
        Ok(Self {
            usa_offset,
            usa_count,
            lsn: utils::read_bytes(&buf[8..16])?,
            seq_num: utils::read_bytes(&buf[16..18])?,
            hard_link_count: utils::read_bytes(&buf[18..20])?,
            attr_offset: utils::read_bytes(&buf[20..22])?,
            flags: utils::read_bytes(&buf[22..24])?,
            used_size: utils::read_bytes(&buf[24..28])?,
            alloc_size: utils::read_bytes(&buf[28..32])?,
            base_ref: utils::read_bytes(&buf[32..40])?,
            next_attr_id: utils::read_bytes(&buf[40..42])?,
            record_number: utils::read_bytes(&buf[44..48])?,
        })
    }
}

impl MftResidentAttribute {
    /// Reads the resident part of an attribute header.
    pub fn parse(buf: &[u8]) -> (r: Result<Self, DeepcutError>)
        requires
            buf@.len() >= 7,
        ensures
            r == Ok::<Self, DeepcutError>(spec_resident(buf@)),
            r matches Ok(p) && resident_layout(p, buf@),
    {
        proof {
            lemma_part_layouts(buf@);
        }
        Ok(Self {
            content_len: utils::read_bytes(&buf[0..4])?,
            attr_offset: utils::read_bytes(&buf[4..6])?,
            index_flags: utils::read_bytes(&buf[6..7])?,
        })
    }
}

impl MftNonResidentAttribute {
    /// Reads the non-resident part of an attribute header.
    pub fn parse(buf: &[u8]) -> (r: Result<Self, DeepcutError>)
        requires
            buf@.len() >= 48,
        ensures
            r == Ok::<Self, DeepcutError>(spec_non_resident(buf@)),
            r matches Ok(p) && non_resident_layout(p, buf@),
    {
        proof {
            lemma_part_layouts(buf@);
        }
        Ok(Self {
            start_vcn: utils::read_bytes(&buf[0..8])?,
            last_vcn: utils::read_bytes(&buf[8..16])?,
            data_runs_offset: utils::read_bytes(&buf[16..18])?,
            cus: utils::read_bytes(&buf[18..20])?,
            alloc_size: utils::read_bytes(&buf[24..32])?,
            actual_attr: utils::read_bytes(&buf[32..40])?,
            init_data_size: utils::read_bytes(&buf[40..48])?,
        })
    }
}

impl MftAttributeHeader {
    /// Reads an attribute header, its name and its resident or non-resident part.
    pub fn parse(buf: &[u8]) -> (r: Result<Self, DeepcutError>)
        requires
            attr_header_readable(buf@),
        ensures
            r matches Ok(h) && attr_header_of(h, buf@),
            r matches Ok(h) && attr_header_layout(h, buf@),
    {
        let name_len: u8 = utils::read_bytes(&buf[9..10])?;
        proof {
            lemma_single_byte(buf@, 9);
            lemma_single_byte(buf@, 8);
            utils::lemma_read_value_exact(buf@.subrange(10, 12));
            utils::lemma_read_value_exact(buf@.subrange(0, 4));
            utils::lemma_read_value_exact(buf@.subrange(4, 8));
            utils::lemma_read_value_exact(buf@.subrange(12, 14));
            utils::lemma_read_value_exact(buf@.subrange(14, 16));
        }
        let name = if name_len == 0 {
            None
        } else {
            let start_u16: u16 = utils::read_bytes(&buf[10..12])?;
            let start: usize = start_u16 as usize;
            let end = start + (name_len as usize * 2);
            if start >= buf.len() || end > buf.len() {
                None
            } else {
                let name_bytes = &buf[start..end];
                let utf16 = utils::units_from_le_bytes(name_bytes);
                utils::text_from_utf16(utf16.as_slice())
            }
        };
        let non_resident: u8 = utils::read_bytes(&buf[8..9])?;
        let attr_data = if non_resident == 0 {
            AttributeData::Resident(MftResidentAttribute::parse(&buf[16..24])?)
        } else {
            AttributeData::NonResident(MftNonResidentAttribute::parse(&buf[16..64])?)
        };
        let header = Self {
            attr_type: utils::read_bytes(&buf[0..4])?,
            attr_len: utils::read_bytes(&buf[4..8])?,
            non_resident,
            name_len,
            name_offset: utils::read_bytes(&buf[10..12])?,
            flags: utils::read_bytes(&buf[12..14])?,
            attr_id: utils::read_bytes(&buf[14..16])?,
            name,
            data: Some(attr_data),
        };
        proof {
            lemma_attr_header_layout(header, buf@);
        }
        Ok(header)
    }
}

/// The signature of a record spells "FILE" exactly when it equals
/// `MFT_SIGNATURE`, and "BAAD" exactly when it equals `MFT_BAD`; so a header
/// is read exactly from records of at least 48 bytes that start with "FILE".
pub proof fn lemma_signature_spelling(b: Seq<u8>)
    requires
        b.len() >= 4,
    ensures
        (spec_signature(b) == MFT_SIGNATURE) <==> (b[0] == 0x46 && b[1] == 0x49 && b[2] == 0x4C
            && b[3] == 0x45),
        (spec_signature(b) == MFT_BAD) <==> (b[0] == 0x42 && b[1] == 0x41 && b[2] == 0x41 && b[3]
            == 0x44),
        spec_parse_mft_header(b) is Ok <==> (b.len() >= MFT_HEADER_SIZE && b[0] == 0x46 && b[1]
            == 0x49 && b[2] == 0x4C && b[3] == 0x45),
{
}

} // verus!
