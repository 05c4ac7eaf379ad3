use vstd::prelude::*;
use crate::utils::le_value;
use crate::mft::attributes::{Attribute, FileName, StandardInformation};
use crate::mft::attributes::file_name::{
    file_name_of, file_name_readable, FILE_NAME_MIN_SIZE, FILE_NAME_NAME_OFFSET,
};
use crate::mft::attributes::standard_information::{
    spec_standard_information, standard_information_layout, standard_information_readable,
    STANDARD_INFORMATION_MIN_SIZE, STANDARD_INFORMATION_SIZE,
};
use crate::errors::DeepcutError;
use crate::mft::errors::MftError;
use crate::mft::structure::{
    attr_header_of, field, header_usa_fits, spec_attr_data, spec_mft_header, spec_resident,
    spec_parse_mft_header, AttributeData, MftAttributeHeader, MftHeader, MFT_ATTRIBUTE_MAX_SIZE,
    MFT_RECORD_SIZE,
};

verus! {

/// The bytes of a record after the update sequence check: the last two bytes
/// of both sectors are replaced by the two values that the update sequence
/// array at `usa` stores after its sequence number.
#[verifier::opaque]
pub open spec fn spec_fixed_record(b: Seq<u8>, usa: int) -> Seq<u8> {
    b.update(510, b[usa + 2]).update(511, b[usa + 3]).update(1022, b[usa + 4]).update(
        1023,
        b[usa + 5],
    )
}

/// The end of the first sector carries the update sequence number at `usa`.
pub open spec fn spec_first_sector_ok(b: Seq<u8>, usa: int) -> bool {
    b[510] == b[usa] && b[511] == b[usa + 1]
}

/// The end of the second sector carries the update sequence number at `usa`.
pub open spec fn spec_second_sector_ok(b: Seq<u8>, usa: int) -> bool {
    b[1022] == b[usa] && b[1023] == b[usa + 1]
}

/// Checks the update sequence of a record and puts back the bytes it
/// protects. The first sector is repaired before the second is checked, so a
/// record whose second sector fails keeps the repair of the first.
pub fn fix_usn(buf: &mut [u8], usa: usize) -> (ok: bool)
    requires
        old(buf)@.len() >= MFT_RECORD_SIZE,
        usa + 6 <= old(buf)@.len(),
    ensures
        ok == (spec_first_sector_ok(old(buf)@, usa as int) && spec_second_sector_ok(
            old(buf)@,
            usa as int,
        )),
        ok <==> (old(buf)@[510] == old(buf)@[usa as int] && old(buf)@[511] == old(buf)@[usa + 1]
            && old(buf)@[1022] == old(buf)@[usa as int] && old(buf)@[1023] == old(buf)@[usa
            + 1]),
        ok ==> final(buf)@[510] == old(buf)@[usa + 2] && final(buf)@[511] == old(buf)@[usa + 3]
            && final(buf)@[1022] == old(buf)@[usa + 4] && final(buf)@[1023] == old(buf)@[usa
            + 5],
        forall|i: int|
            0 <= i < old(buf)@.len() && i != 510 && i != 511 && i != 1022 && i != 1023
                ==> #[trigger] final(buf)@[i] == old(buf)@[i],
        old(buf)@[510] != old(buf)@[usa as int] || old(buf)@[511] != old(buf)@[usa + 1]
            ==> final(buf)@ == old(buf)@,
        final(buf)@.len() == old(buf)@.len(),
        ok ==> final(buf)@ == spec_fixed_record(old(buf)@, usa as int),
        !spec_first_sector_ok(old(buf)@, usa as int) ==> final(buf)@ == old(buf)@,
        spec_first_sector_ok(old(buf)@, usa as int) && !spec_second_sector_ok(
            old(buf)@,
            usa as int,
        ) ==> final(buf)@ == old(buf)@.update(510, old(buf)@[usa + 2]).update(
            511,
            old(buf)@[usa + 3],
        ),
{
    proof {
        reveal(spec_fixed_record);
    }
    let usn: [u8; 2] = [buf[usa], buf[usa + 1]];
    let usn_1: [u8; 2] = [buf[usa + 2], buf[usa + 3]];
    let usn_2: [u8; 2] = [buf[usa + 4], buf[usa + 5]];
    if usn[0] == buf[510] && usn[1] == buf[511] {
        buf[510] = usn_1[0];
        buf[511] = usn_1[1];
    } else {
        return false;
    }
    if usn[0] == buf[1022] && usn[1] == buf[1023] {
        buf[1022] = usn_2[0];
        buf[1023] = usn_2[1];
    } else {
        return false;
    }
    true
}

/// The offsets at which the attribute headers of record `r` lie, read from
/// offset `p` on: a header is read while its 64 bytes fit in the record, and
/// the list ends at the end marker (type `0xFFFFFFFF`), at a header of length
/// zero, or when the next header would start past the record.
pub open spec fn spec_attr_offsets(r: Seq<u8>, p: nat) -> Seq<nat>
    decreases MFT_RECORD_SIZE - p,
{
    if p + MFT_ATTRIBUTE_MAX_SIZE > MFT_RECORD_SIZE {
        seq![]
    } else {
        let attr_type = field(r, p as int, p as int + 4);
        let attr_len = field(r, p as int + 4, p as int + 8);
        if attr_type == 0xFFFF_FFFF || attr_len == 0 {
            seq![]
        } else if p + attr_len > MFT_RECORD_SIZE {
            seq![p]
        } else {
            seq![p] + spec_attr_offsets(r, p + attr_len)
        }
    }
}

/// The 64 bytes of record `r` that the attribute header at `p` is read from.
pub open spec fn header_bytes(r: Seq<u8>, p: nat) -> Seq<u8> {
    r.subrange(p as int, p + MFT_ATTRIBUTE_MAX_SIZE)
}

/// `attrs` are the attribute headers of record `r` at the offsets `offs`,
/// paired with their offsets, in the same order.
pub open spec fn attributes_of(
    attrs: Seq<(usize, MftAttributeHeader)>,
    r: Seq<u8>,
    offs: Seq<nat>,
) -> bool {
    &&& attrs.len() == offs.len()
    &&& forall|i: int|
        0 <= i < offs.len() ==> {
            &&& (#[trigger] attrs[i]).0 == offs[i]
            &&& attr_header_of(attrs[i].1, header_bytes(r, offs[i]))
        }
}

/// Every attribute header lies inside the record, and the offsets strictly
/// increase, so that no offset occurs twice.
pub proof fn lemma_attr_offsets_ordered(r: Seq<u8>, p: nat)
    ensures
        forall|i: int|
            0 <= i < spec_attr_offsets(r, p).len() ==> p <= #[trigger] spec_attr_offsets(r, p)[i]
                && spec_attr_offsets(r, p)[i] + MFT_ATTRIBUTE_MAX_SIZE <= MFT_RECORD_SIZE,
        forall|i: int, j: int|
            0 <= i < j < spec_attr_offsets(r, p).len() ==> #[trigger] spec_attr_offsets(r, p)[i]
                < #[trigger] spec_attr_offsets(r, p)[j],
    decreases MFT_RECORD_SIZE - p,
{
    if p + MFT_ATTRIBUTE_MAX_SIZE <= MFT_RECORD_SIZE {
        let attr_len = field(r, p as int + 4, p as int + 8);
        if field(r, p as int, p as int + 4) != 0xFFFF_FFFF && attr_len != 0 && p + attr_len
            <= MFT_RECORD_SIZE {
            lemma_attr_offsets_ordered(r, p + attr_len);
            let rest = spec_attr_offsets(r, p + attr_len);
            assert(spec_attr_offsets(r, p) == seq![p] + rest);
            assert forall|i: int, j: int|
                0 <= i < j < spec_attr_offsets(r, p).len() implies #[trigger] spec_attr_offsets(
                r,
                p,
            )[i] < #[trigger] spec_attr_offsets(r, p)[j] by {
                if i > 0 {
                    assert(spec_attr_offsets(r, p)[i] == rest[i - 1]);
                }
                assert(spec_attr_offsets(r, p)[j] == rest[j - 1]);
            }
        }
    }
}

/// Reads the attribute headers of a record, starting at `offset`.
pub fn parse_record_attributes(buf: &[u8], offset: usize) -> (attrs: Vec<
    (usize, MftAttributeHeader),
>)
    requires
        buf@.len() >= MFT_RECORD_SIZE,
    ensures
        attributes_of(attrs@, buf@, spec_attr_offsets(buf@, offset as nat)),
{
    let mut attributes: Vec<(usize, MftAttributeHeader)> = Vec::new();
    let mut pointer = offset;
    loop
        invariant_except_break
            buf@.len() >= MFT_RECORD_SIZE,
            spec_attr_offsets(buf@, offset as nat) == attributes@.map_values(
                |a: (usize, MftAttributeHeader)| a.0 as nat,
            ) + spec_attr_offsets(buf@, pointer as nat),
            forall|i: int|
                0 <= i < attributes@.len() ==> attr_header_of(
                    (#[trigger] attributes@[i]).1,
                    header_bytes(buf@, attributes@[i].0 as nat),
                ),
        ensures
            attributes_of(attributes@, buf@, spec_attr_offsets(buf@, offset as nat)),
        decreases MFT_RECORD_SIZE - pointer,
    {
        let ghost listed = attributes@.map_values(|a: (usize, MftAttributeHeader)| a.0 as nat);
        if pointer > MFT_RECORD_SIZE - MFT_ATTRIBUTE_MAX_SIZE {
            assert(listed + spec_attr_offsets(buf@, pointer as nat) =~= listed);
            break;
        }
        let attr = match MftAttributeHeader::parse(
            &buf[pointer..pointer + MFT_ATTRIBUTE_MAX_SIZE],
        ) {
            Ok(header) => header,
            Err(_) => continue,
        };
        proof {
            let h = header_bytes(buf@, pointer as nat);
            assert(h.subrange(0, 4) =~= buf@.subrange(pointer as int, pointer + 4));
            assert(h.subrange(4, 8) =~= buf@.subrange(pointer + 4, pointer + 8));
        }
        if attr.attr_type == 0xFFFF_FFFF || attr.attr_len == 0 {
            assert(listed + spec_attr_offsets(buf@, pointer as nat) =~= listed);
            break;
        }
        let attr_len = attr.attr_len as usize;
        let ghost before = attributes@;
        attributes.push((pointer, attr));
        proof {
            assert(attributes@.map_values(|a: (usize, MftAttributeHeader)| a.0 as nat)
                =~= before.map_values(|a: (usize, MftAttributeHeader)| a.0 as nat).push(
                pointer as nat,
            ));
        }
        if attr_len > MFT_RECORD_SIZE - pointer {
            assert(listed + spec_attr_offsets(buf@, pointer as nat) =~= listed.push(
                pointer as nat,
            ));
            break;
        }
        assert(listed + spec_attr_offsets(buf@, pointer as nat) =~= listed.push(pointer as nat)
            + spec_attr_offsets(buf@, (pointer + attr_len) as nat));
        pointer = pointer + attr_len;
    }
    attributes
}

/// The attribute type of $STANDARD_INFORMATION.
pub const ATTR_TYPE_STANDARD_INFORMATION: u32 = 0x10;

/// The attribute type of $FILE_NAME.
pub const ATTR_TYPE_FILE_NAME: u32 = 0x30;

/// `r` is what reading the resident content `c` of an attribute of type `t`
/// gives: the standard information or the file name it holds, and nothing for
/// content refused as too small or for any other type.
pub open spec fn resident_attribute_of(r: Option<Attribute>, t: u32, c: Seq<u8>) -> bool {
    if t == ATTR_TYPE_STANDARD_INFORMATION {
        if c.len() < STANDARD_INFORMATION_MIN_SIZE {
            r is None
        } else {
            r == Some(Attribute::StandardInformation(spec_standard_information(c)))
        }
    } else if t == ATTR_TYPE_FILE_NAME {
        if c.len() < FILE_NAME_MIN_SIZE {
            r is None
        } else {
            r matches Some(Attribute::FileName(f)) && file_name_of(f, c)
        }
    } else {
        r is None
    }
}

/// The content of a resident attribute of type `t` can be read.
pub open spec fn resident_content_readable(t: u32, c: Seq<u8>) -> bool {
    &&& t == ATTR_TYPE_STANDARD_INFORMATION ==> standard_information_readable(c)
    &&& t == ATTR_TYPE_FILE_NAME ==> file_name_readable(c)
}

/// Reads the resident content `buf` of an attribute by the attribute's type.
pub fn parse_resident_attribute(attribute: &MftAttributeHeader, buf: &[u8]) -> (r: Option<
    Attribute,
>)
    requires
        resident_content_readable(attribute.attr_type, buf@),
    ensures
        resident_attribute_of(r, attribute.attr_type, buf@),
{
    if attribute.attr_type == ATTR_TYPE_STANDARD_INFORMATION {
        match StandardInformation::parse(buf) {
            Ok(si) => Some(Attribute::StandardInformation(si)),
            Err(_) => None,
        }
    } else if attribute.attr_type == ATTR_TYPE_FILE_NAME {
        match FileName::parse(buf) {
            Ok(file_name) => Some(Attribute::FileName(file_name)),
            Err(_) => None,
        }
    } else {
        None
    }
}

/// What becomes of the attribute whose header lies at offset `p` of a
/// repaired record.
pub enum AttrSlot {
    /// Non-resident, its content outside the record, refused as too small,
    /// or of a type that is not read.
    Skipped,
    /// A $STANDARD_INFORMATION or $FILE_NAME content too short for the fields
    /// it is read for, while not short enough to be refused.
    Unreadable,
    /// A $STANDARD_INFORMATION content at bytes `start .. end` of the record.
    Standard(nat, nat),
    /// A $FILE_NAME content at bytes `start .. end` of the record.
    Named(nat, nat),
}

/// The slot of the attribute whose header lies at `p` in the repaired record `r`.
#[verifier::opaque]
pub open spec fn spec_slot(r: Seq<u8>, p: nat) -> AttrSlot {
    let h = header_bytes(r, p);
    match spec_attr_data(h) {
        AttributeData::NonResident(_) => AttrSlot::Skipped,
        AttributeData::Resident(res) => {
            let start = (p + res.attr_offset) as nat;
            let end = (start + res.content_len) as nat;
            if start > MFT_RECORD_SIZE || end > MFT_RECORD_SIZE {
                AttrSlot::Skipped
            } else {
                let t = field(h, 0, 4) as u32;
                let c = r.subrange(start as int, end as int);
                if !resident_content_readable(t, c) {
                    AttrSlot::Unreadable
                } else if t == ATTR_TYPE_STANDARD_INFORMATION && c.len()
                    >= STANDARD_INFORMATION_MIN_SIZE {
                    AttrSlot::Standard(start, end)
                } else if t == ATTR_TYPE_FILE_NAME && c.len() >= FILE_NAME_MIN_SIZE {
                    AttrSlot::Named(start, end)
                } else {
                    AttrSlot::Skipped
                }
            }
        },
    }
}

/// The slot of an attribute at offset `p` of the repaired record `r`, from
/// its header `attr`.
pub open spec fn slot_of_header(attr: MftAttributeHeader, p: nat, r: Seq<u8>) -> AttrSlot {
    match attr.data {
        Some(AttributeData::Resident(res)) => {
            let start = (p + res.attr_offset) as nat;
            let end = (start + res.content_len) as nat;
            if start > MFT_RECORD_SIZE || end > MFT_RECORD_SIZE {
                AttrSlot::Skipped
            } else {
                let t = attr.attr_type;
                let c = r.subrange(start as int, end as int);
                if !resident_content_readable(t, c) {
                    AttrSlot::Unreadable
                } else if t == ATTR_TYPE_STANDARD_INFORMATION && c.len()
                    >= STANDARD_INFORMATION_MIN_SIZE {
                    AttrSlot::Standard(start, end)
                } else if t == ATTR_TYPE_FILE_NAME && c.len() >= FILE_NAME_MIN_SIZE {
                    AttrSlot::Named(start, end)
                } else {
                    AttrSlot::Skipped
                }
            }
        },
        _ => AttrSlot::Skipped,
    }
}

/// The slot that the header read at `p` gives is the slot at `p`.
proof fn lemma_slot_of_header(attr: MftAttributeHeader, p: nat, r: Seq<u8>)
    requires
        p + MFT_ATTRIBUTE_MAX_SIZE <= r.len(),
        attr_header_of(attr, header_bytes(r, p)),
    ensures
        spec_slot(r, p) == slot_of_header(attr, p, r),
{
    reveal(spec_slot);
}

/// The slots of the attributes at the offsets `offs` of the repaired record `r`.
pub open spec fn spec_slots(r: Seq<u8>, offs: Seq<nat>) -> Seq<AttrSlot> {
    offs.map_values(|p: nat| spec_slot(r, p))
}

/// The bytes of the record that a read slot holds.
pub open spec fn slot_content(r: Seq<u8>, s: AttrSlot) -> Seq<u8> {
    match s {
        AttrSlot::Standard(start, end) => r.subrange(start as int, end as int),
        AttrSlot::Named(start, end) => r.subrange(start as int, end as int),
        _ => Seq::empty(),
    }
}

/// The slots that give an attribute, in order.
pub open spec fn found_slots(slots: Seq<AttrSlot>) -> Seq<AttrSlot>
    decreases slots.len(),
{
    if slots.len() == 0 {
        Seq::empty()
    } else {
        let rest = found_slots(slots.drop_last());
        if slots.last() is Standard || slots.last() is Named {
            rest.push(slots.last())
        } else {
            rest
        }
    }
}

/// The slots that give a file name, in order.
pub open spec fn named_slots(slots: Seq<AttrSlot>) -> Seq<AttrSlot>
    decreases slots.len(),
{
    if slots.len() == 0 {
        Seq::empty()
    } else {
        let rest = named_slots(slots.drop_last());
        if slots.last() is Named {
            rest.push(slots.last())
        } else {
            rest
        }
    }
}

/// Some slot cannot be read.
pub open spec fn any_unreadable(slots: Seq<AttrSlot>) -> bool {
    exists|i: int| 0 <= i < slots.len() && #[trigger] slots[i] is Unreadable
}

/// An entry of the master file table: a record that passed the signature and
/// update sequence checks, its attribute headers, and the attributes read.
pub struct MftEntry {
    pub header: MftHeader,
    /// The attribute headers with their offsets in the record, in increasing
    /// order of offset.
    pub attributes: Vec<(usize, MftAttributeHeader)>,
    /// The standard information, when the last attribute read holds one.
    pub standard_information: Option<StandardInformation>,
    /// The file name, when the last attribute read holds one.
    pub file_name: Option<FileName>,
    /// All the file names read, in increasing order of offset.
    pub file_names: Vec<FileName>,
}

/// `si`, `file_name` and `file_names` are what the slots `slots` of the
/// repaired record `r` give: the last slot read decides between the standard
/// information and the file name, and every file name is kept.
#[verifier::opaque]
pub open spec fn read_attributes_of(
    si: Option<StandardInformation>,
    file_name: Option<FileName>,
    file_names: Seq<FileName>,
    r: Seq<u8>,
    slots: Seq<AttrSlot>,
) -> bool {
    let found = found_slots(slots);
    let named = named_slots(slots);
    &&& file_names.len() == named.len()
    &&& forall|j: int|
        0 <= j < named.len() ==> file_name_of(
            #[trigger] file_names[j],
            slot_content(r, named[j]),
        )
    &&& if found.len() > 0 && found.last() is Standard {
        si == Some(spec_standard_information(slot_content(r, found.last())))
    } else {
        si is None
    }
    &&& if found.len() > 0 && found.last() is Named {
        file_name matches Some(f) && file_name_of(f, slot_content(r, found.last()))
    } else {
        file_name is None
    }
}

/// `e` is the entry that the repaired record `r` with header `h` gives.
pub open spec fn entry_of(e: MftEntry, r: Seq<u8>, h: MftHeader) -> bool {
    let offs = spec_attr_offsets(r, h.attr_offset as nat);
    &&& e.header == h
    &&& attributes_of(e.attributes@, r, offs)
    &&& read_attributes_of(
        e.standard_information,
        e.file_name,
        e.file_names@,
        r,
        spec_slots(r, offs),
    )
}

/// How a record of the master file table is classified.
pub enum RecordKind {
    /// Its signature is "BAAD".
    Corrupted,
    /// Its signature is neither "FILE" nor "BAAD".
    Invalid,
    /// Reading it runs past its end: the update sequence array or a content.
    OutOfBounds,
    /// Its header was read, but the update sequence check failed.
    UsnMismatch,
    /// It gives an entry.
    Accepted,
}

/// The classification of the record `rec` of 1024 bytes.
pub open spec fn spec_record_kind(rec: Seq<u8>) -> RecordKind {
    match spec_parse_mft_header(rec) {
        Err(e) => if e == DeepcutError::Mft(MftError::MftHeaderSignatureBad) {
            RecordKind::Corrupted
        } else {
            RecordKind::Invalid
        },
        Ok(h) => {
            let usa = h.usa_offset as int;
            if !header_usa_fits(h) {
                RecordKind::OutOfBounds
            } else if !(spec_first_sector_ok(rec, usa) && spec_second_sector_ok(rec, usa)) {
                RecordKind::UsnMismatch
            } else {
                let r = spec_fixed_record(rec, usa);
                if any_unreadable(spec_slots(r, spec_attr_offsets(r, h.attr_offset as nat))) {
                    RecordKind::OutOfBounds
                } else {
                    RecordKind::Accepted
                }
            }
        },
    }
}

/// What reading one record gives.
pub enum RecordOutcome {
    Corrupted,
    Invalid,
    /// The header of a record whose update sequence check failed.
    UsnMismatch(MftHeader),
    Entry(MftEntry),
}

/// `o` is what reading the record `rec` of 1024 bytes gives: nothing for a
/// record that reading runs past the end of.
pub open spec fn record_outcome_of(o: Option<RecordOutcome>, rec: Seq<u8>) -> bool {
    let h = spec_mft_header(rec);
    match spec_record_kind(rec) {
        RecordKind::Corrupted => o == Some(RecordOutcome::Corrupted),
        RecordKind::Invalid => o == Some(RecordOutcome::Invalid),
        RecordKind::OutOfBounds => o is None,
        RecordKind::UsnMismatch => o == Some(RecordOutcome::UsnMismatch(h)),
        RecordKind::Accepted => o matches Some(RecordOutcome::Entry(e)) && entry_of(
            e,
            spec_fixed_record(rec, h.usa_offset as int),
            h,
        ),
    }
}

/// A copy of a file name.
fn copy_file_name(f: &FileName) -> (c: FileName)
    ensures
        c == *f,
{
    FileName {
        ref_to_parent: f.ref_to_parent,
        ctime: f.ctime,
        atime: f.atime,
        mtime: f.mtime,
        rtime: f.rtime,
        allocated_size: f.allocated_size,
        real_size: f.real_size,
        flags: f.flags,
        eas_and_reparse: f.eas_and_reparse,
        filename_len_in_chars: f.filename_len_in_chars,
        filename_space: f.filename_space,
        name: match &f.name {
            Some(s) => Some(s.clone()),
            None => None,
        },
    }
}

proof fn lemma_read_skipped(
    si: Option<StandardInformation>,
    file_name: Option<FileName>,
    file_names: Seq<FileName>,
    r: Seq<u8>,
    slots: Seq<AttrSlot>,
    i: int,
)
    requires
        0 <= i < slots.len(),
        !(slots[i] is Standard || slots[i] is Named),
        read_attributes_of(si, file_name, file_names, r, slots.take(i)),
    ensures
        read_attributes_of(si, file_name, file_names, r, slots.take(i + 1)),
{
    reveal(read_attributes_of);
    lemma_slots_step(slots, i);
}

proof fn lemma_read_standard(
    si: Option<StandardInformation>,
    file_name: Option<FileName>,
    file_names: Seq<FileName>,
    r: Seq<u8>,
    slots: Seq<AttrSlot>,
    i: int,
)
    requires
        0 <= i < slots.len(),
        slots[i] is Standard,
        read_attributes_of(si, file_name, file_names, r, slots.take(i)),
    ensures
        read_attributes_of(
            Some(spec_standard_information(slot_content(r, slots[i]))),
            None,
            file_names,
            r,
            slots.take(i + 1),
        ),
{
    reveal(read_attributes_of);
    lemma_slots_step(slots, i);
}

proof fn lemma_read_named(
    si: Option<StandardInformation>,
    file_name: Option<FileName>,
    file_names: Seq<FileName>,
    f: FileName,
    r: Seq<u8>,
    slots: Seq<AttrSlot>,
    i: int,
)
    requires
        0 <= i < slots.len(),
        slots[i] is Named,
        file_name_of(f, slot_content(r, slots[i])),
        read_attributes_of(si, file_name, file_names, r, slots.take(i)),
    ensures
        read_attributes_of(None, Some(f), file_names.push(f), r, slots.take(i + 1)),
{
    reveal(read_attributes_of);
    lemma_slots_step(slots, i);
    let named = named_slots(slots.take(i + 1));
    assert forall|j: int| 0 <= j < named.len() implies file_name_of(
        #[trigger] file_names.push(f)[j],
        slot_content(r, named[j]),
    ) by {
        if j < named.len() - 1 {
            assert(named[j] == named_slots(slots.take(i))[j]);
        }
    }
}

proof fn lemma_slots_step(slots: Seq<AttrSlot>, i: int)
    requires
        0 <= i < slots.len(),
    ensures
        found_slots(slots.take(i + 1)) == if slots[i] is Standard || slots[i] is Named {
            found_slots(slots.take(i)).push(slots[i])
        } else {
            found_slots(slots.take(i))
        },
        named_slots(slots.take(i + 1)) == if slots[i] is Named {
            named_slots(slots.take(i)).push(slots[i])
        } else {
            named_slots(slots.take(i))
        },
{
    assert(slots.take(i + 1).drop_last() =~= slots.take(i));
}

/// The slots of the attributes `attrs` of the repaired record `r`.
pub open spec fn slots_of(r: Seq<u8>, attrs: Seq<(usize, MftAttributeHeader)>) -> Seq<AttrSlot> {
    spec_slots(r, attrs.map_values(|a: (usize, MftAttributeHeader)| a.0 as nat))
}

/// Reads the resident contents of the attributes `attributes` of a repaired
/// record: the standard information and file name of the last attribute read,
/// and all the file names. Gives nothing where a content is too short for the
/// fields it is read for.
fn read_attributes(record: &[u8], attributes: &Vec<(usize, MftAttributeHeader)>) -> (res: Option<
    (Option<StandardInformation>, Option<FileName>, Vec<FileName>),
>)
    requires
        record@.len() == MFT_RECORD_SIZE,
        forall|i: int|
            0 <= i < attributes@.len() ==> (#[trigger] attributes@[i]).0 + MFT_ATTRIBUTE_MAX_SIZE
                <= MFT_RECORD_SIZE && attr_header_of(
                attributes@[i].1,
                header_bytes(record@, attributes@[i].0 as nat),
            ),
    ensures
        res is None <==> any_unreadable(slots_of(record@, attributes@)),
        res matches Some(read) ==> read_attributes_of(
            read.0,
            read.1,
            read.2@,
            record@,
            slots_of(record@, attributes@),
        ),
{
    let ghost r = record@;
    let ghost slots = slots_of(r, attributes@);
    let mut si: Option<StandardInformation> = None;
    let mut file_name: Option<FileName> = None;
    let mut file_names: Vec<FileName> = Vec::new();
    let n = attributes.len();
    proof {
        assert(slots.take(0) =~= Seq::<AttrSlot>::empty());
        reveal(read_attributes_of);
    }
    for i in 0..n
        invariant
            n == attributes@.len(),
            r == record@,
            r.len() == MFT_RECORD_SIZE,
            slots == slots_of(r, attributes@),
            forall|k: int|
                0 <= k < attributes@.len() ==> (#[trigger] attributes@[k]).0
                    + MFT_ATTRIBUTE_MAX_SIZE <= MFT_RECORD_SIZE && attr_header_of(
                    attributes@[k].1,
                    header_bytes(r, attributes@[k].0 as nat),
                ),
            forall|k: int| 0 <= k < i ==> !(#[trigger] slots[k] is Unreadable),
            read_attributes_of(si, file_name, file_names@, r, slots.take(i as int)),
    {
        let offset = attributes[i].0;
        let mft_attribute = &attributes[i].1;
        let ghost slot = slots[i as int];
        proof {
            assert(slot == spec_slot(r, offset as nat));
            lemma_slot_of_header(*mft_attribute, offset as nat, r);
        }
        let mut read = false;
        match &mft_attribute.data {
            Some(AttributeData::Resident(resident)) => {
                let start = offset as u64 + resident.attr_offset as u64;
                let end = start + resident.content_len as u64;
                if start <= MFT_RECORD_SIZE as u64 && end <= MFT_RECORD_SIZE as u64 {
                    let content = &record[start as usize..end as usize];
                    let t = mft_attribute.attr_type;
                    let len = content.len();
                    if (t == ATTR_TYPE_STANDARD_INFORMATION && STANDARD_INFORMATION_MIN_SIZE <= len
                        && len < STANDARD_INFORMATION_SIZE) || (t == ATTR_TYPE_FILE_NAME
                        && FILE_NAME_MIN_SIZE <= len && len < FILE_NAME_NAME_OFFSET) {
                        assert(slot is Unreadable);
                        assert(any_unreadable(slots));
                        return None;
                    }
                    match parse_resident_attribute(mft_attribute, content) {
                        Some(Attribute::StandardInformation(s)) => {
                            proof {
                                lemma_read_standard(si, file_name, file_names@, r, slots, i as int);
                            }
                            si = Some(s);
                            file_name = None;
                            read = true;
                        },
                        Some(Attribute::FileName(f)) => {
                            proof {
                                lemma_read_named(
                                    si,
                                    file_name,
                                    file_names@,
                                    f,
                                    r,
                                    slots,
                                    i as int,
                                );
                            }
                            si = None;
                            file_name = Some(copy_file_name(&f));
                            file_names.push(f);
                            read = true;
                        },
                        None => {},
                    }
                }
            },
            _ => {},
        }
        if !read {
            proof {
                lemma_read_skipped(si, file_name, file_names@, r, slots, i as int);
            }
        }
    }
    proof {
        assert(slots.take(n as int) =~= slots);
    }
    Some((si, file_name, file_names))
}

/// Reads one record of 1024 bytes: checks its signature, repairs it by its
/// update sequence, reads its attribute headers and the resident contents of
/// its $STANDARD_INFORMATION and $FILE_NAME attributes. Gives nothing where
/// reading would run past the end of the record.
pub fn parse_record(record: Vec<u8>) -> (r: Option<RecordOutcome>)
    requires
        record@.len() == MFT_RECORD_SIZE,
    ensures
        record_outcome_of(r, record@),
{
    let mut record = record;
    let ghost rec = record@;
    let mft_header = match MftHeader::parse(record.as_slice()) {
        Ok(header) => header,
        Err(e) => {
            if e == DeepcutError::from(MftError::MftHeaderSignatureBad) {
                return Some(RecordOutcome::Corrupted);
            }
            return Some(RecordOutcome::Invalid);
        },
    };
    let usa = mft_header.usa_offset as usize;
    if usa > MFT_RECORD_SIZE - 6 {
        assert(spec_record_kind(rec) is OutOfBounds);
        return None;
    }
    if !fix_usn(record.as_mut_slice(), usa) {
        return Some(RecordOutcome::UsnMismatch(mft_header));
    }
    let ghost r = record@;
    let attributes_map = parse_record_attributes(
        record.as_slice(),
        mft_header.attr_offset as usize,
    );
    proof {
        let offs = spec_attr_offsets(r, mft_header.attr_offset as nat);
        lemma_attr_offsets_ordered(r, mft_header.attr_offset as nat);
        assert(attributes_map@.map_values(|a: (usize, MftAttributeHeader)| a.0 as nat) =~= offs);
    }
    let (si, file_name, file_names) = match read_attributes(
        record.as_slice(),
        &attributes_map,
    ) {
        Some(read) => read,
        None => return None,
    };
    Some(
        RecordOutcome::Entry(
            MftEntry {
                header: mft_header,
                attributes: attributes_map,
                standard_information: si,
                file_name,
                file_names,
            },
        ),
    )
}

/// The `k`-th record of 1024 bytes of `data`.
pub open spec fn record_at(data: Seq<u8>, k: int) -> Seq<u8> {
    data.subrange(MFT_RECORD_SIZE * k, MFT_RECORD_SIZE * k + MFT_RECORD_SIZE)
}

/// The number of whole records of 1024 bytes in `data`; a shorter tail is not
/// read.
pub open spec fn record_count(data: Seq<u8>) -> nat {
    data.len() / MFT_RECORD_SIZE as nat
}

/// The classification of the `k`-th record of `data`.
pub open spec fn kind_at(data: Seq<u8>, k: int) -> RecordKind {
    spec_record_kind(record_at(data, k))
}

/// The number of records among the first `n` of `data` classified as `kind`.
pub open spec fn count_of(data: Seq<u8>, n: nat, kind: RecordKind) -> nat
    decreases n,
{
    if n == 0 {
        0
    } else {
        count_of(data, (n - 1) as nat, kind) + if kind_at(data, n - 1) == kind {
            1nat
        } else {
            0nat
        }
    }
}

/// The indices of the records among the first `n` of `data` that give an
/// entry, in increasing order.
pub open spec fn accepted_records(data: Seq<u8>, n: nat) -> Seq<nat>
    decreases n,
{
    if n == 0 {
        Seq::empty()
    } else {
        let rest = accepted_records(data, (n - 1) as nat);
        if kind_at(data, n - 1) is Accepted {
            rest.push((n - 1) as nat)
        } else {
            rest
        }
    }
}

/// `e` is the entry that the `k`-th record of `data` gives.
pub open spec fn entry_at(e: MftEntry, data: Seq<u8>, k: int) -> bool {
    let rec = record_at(data, k);
    let h = spec_mft_header(rec);
    entry_of(e, spec_fixed_record(rec, h.usa_offset as int), h)
}

/// Some record among the first `n` of `data` runs past its end when read.
pub open spec fn any_out_of_bounds(data: Seq<u8>, n: nat) -> bool {
    exists|k: int| 0 <= k < n && #[trigger] kind_at(data, k) is OutOfBounds
}

/// What reading a master file table gives: the entries with the offsets of
/// their records, and how many records had a valid header, a corrupted
/// signature, or an invalid one.
pub struct MftScan {
    pub entries: Vec<(u64, MftEntry)>,
    pub good_records: usize,
    pub corrupted_records: usize,
    pub invalid_records: usize,
}

/// Every record is counted under exactly one kind.
pub proof fn lemma_counts_total(data: Seq<u8>, n: nat)
    ensures
        count_of(data, n, RecordKind::Corrupted) + count_of(data, n, RecordKind::Invalid)
            + count_of(data, n, RecordKind::OutOfBounds) + count_of(
            data,
            n,
            RecordKind::UsnMismatch,
        ) + count_of(data, n, RecordKind::Accepted) == n,
        count_of(data, n, RecordKind::Accepted) == accepted_records(data, n).len(),
        !any_out_of_bounds(data, n) ==> count_of(data, n, RecordKind::OutOfBounds) == 0,
    decreases n,
{
    if n > 0 {
        lemma_counts_total(data, (n - 1) as nat);
        if !any_out_of_bounds(data, n) {
            assert(!any_out_of_bounds(data, (n - 1) as nat)) by {
                if any_out_of_bounds(data, (n - 1) as nat) {
                    let k = choose|k: int| 0 <= k < n - 1 && #[trigger] kind_at(data, k) is OutOfBounds;
                    assert(kind_at(data, k) is OutOfBounds);
                }
            }
            assert(!(kind_at(data, n - 1) is OutOfBounds));
        }
    }
}

/// The records that give an entry are listed in increasing order, each once,
/// and each among the first `n`.
pub proof fn lemma_accepted_records_ordered(data: Seq<u8>, n: nat)
    ensures
        forall|i: int|
            0 <= i < accepted_records(data, n).len() ==> #[trigger] accepted_records(data, n)[i]
                < n,
        forall|i: int, j: int|
            0 <= i < j < accepted_records(data, n).len() ==> #[trigger] accepted_records(
                data,
                n,
            )[i] < #[trigger] accepted_records(data, n)[j],
    decreases n,
{
    if n > 0 {
        lemma_accepted_records_ordered(data, (n - 1) as nat);
        let rest = accepted_records(data, (n - 1) as nat);
        let all = accepted_records(data, n);
        assert forall|i: int| 0 <= i < all.len() implies #[trigger] all[i] < n by {
            if i < rest.len() {
                assert(all[i] == rest[i]);
            }
        }
        assert forall|i: int, j: int| 0 <= i < j < all.len() implies #[trigger] all[i]
            < #[trigger] all[j] by {
            assert(all[i] == rest[i]);
            if j < rest.len() {
                assert(all[j] == rest[j]);
            }
        }
    }
}

/// Reads every whole record of 1024 bytes of `data`, a master file table,
/// counting the records by their header and keeping the entries. Gives
/// nothing where reading some record would run past its end.
pub fn parse_records(data: &[u8]) -> (r: Option<MftScan>)
    ensures
        r is None <==> any_out_of_bounds(data@, record_count(data@)),
        r matches Some(scan) ==> {
            let n = record_count(data@);
            let accepted = accepted_records(data@, n);
            &&& scan.corrupted_records == count_of(data@, n, RecordKind::Corrupted)
            &&& scan.invalid_records == count_of(data@, n, RecordKind::Invalid)
            &&& scan.good_records == count_of(data@, n, RecordKind::UsnMismatch) + count_of(
                data@,
                n,
                RecordKind::Accepted,
            )
            &&& scan.good_records + scan.corrupted_records + scan.invalid_records == n
            &&& scan.entries@.len() == accepted.len()
            &&& forall|j: int|
                0 <= j < accepted.len() ==> {
                    &&& (#[trigger] scan.entries@[j]).0 == MFT_RECORD_SIZE * accepted[j]
                    &&& entry_at(scan.entries@[j].1, data@, accepted[j] as int)
                }
            &&& forall|i: int, j: int|
                0 <= i < j < accepted.len() ==> (#[trigger] scan.entries@[i]).0
                    < (#[trigger] scan.entries@[j]).0
        },
{
    let mut good_records: usize = 0;
    let mut corrupted_records: usize = 0;
    let mut invalid_records: usize = 0;
    let mut results: Vec<(u64, MftEntry)> = Vec::new();
    let mut pointer: usize = 0;
    let ghost mut k: nat = 0;
    while pointer <= data.len() && MFT_RECORD_SIZE <= data.len() - pointer
        invariant
            pointer == MFT_RECORD_SIZE * k,
            pointer <= data@.len(),
            k <= record_count(data@),
            !any_out_of_bounds(data@, k),
            corrupted_records == count_of(data@, k, RecordKind::Corrupted),
            invalid_records == count_of(data@, k, RecordKind::Invalid),
            good_records == count_of(data@, k, RecordKind::UsnMismatch) + count_of(
                data@,
                k,
                RecordKind::Accepted,
            ),
            good_records + corrupted_records + invalid_records == k,
            results@.len() == accepted_records(data@, k).len(),
            forall|j: int|
                0 <= j < results@.len() ==> {
                    &&& (#[trigger] results@[j]).0 == MFT_RECORD_SIZE * accepted_records(
                        data@,
                        k,
                    )[j]
                    &&& entry_at(results@[j].1, data@, accepted_records(data@, k)[j] as int)
                },
        decreases data@.len() - pointer,
    {
        let start = pointer;
        let record = vstd::slice::slice_to_vec(&data[pointer..pointer + MFT_RECORD_SIZE]);
        pointer = pointer + MFT_RECORD_SIZE;
        proof {
            assert(record@ == record_at(data@, k as int));
            lemma_counts_total(data@, k);
        }
        match parse_record(record) {
            None => {
                assert(kind_at(data@, k as int) is OutOfBounds);
                assert(any_out_of_bounds(data@, record_count(data@)));
                return None;
            },
            Some(RecordOutcome::Corrupted) => {
                corrupted_records = corrupted_records + 1;
            },
            Some(RecordOutcome::Invalid) => {
                invalid_records = invalid_records + 1;
            },
            Some(RecordOutcome::UsnMismatch(_)) => {
                good_records = good_records + 1;
            },
            Some(RecordOutcome::Entry(entry)) => {
                good_records = good_records + 1;
                results.push((start as u64, entry));
            },
        }
        proof {
            assert forall|j: int| 0 <= j < k + 1 implies !(#[trigger] kind_at(data@, j) is OutOfBounds) by {
                if j < k {
                    if kind_at(data@, j) is OutOfBounds {
                        assert(any_out_of_bounds(data@, k));
                    }
                }
            }
            k = k + 1;
        }
    }
    proof {
        assert(k == record_count(data@));
        lemma_accepted_records_ordered(data@, k);
    }
    Some(
        MftScan {
            entries: results,
            good_records,
            corrupted_records,
            invalid_records,
        },
    )
}

/// Repairing a record changes only the last two bytes of each sector, and
/// puts there the two values that the update sequence array stores.
pub proof fn lemma_fixed_record_sector_ends(b: Seq<u8>, usa: int)
    requires
        b.len() == MFT_RECORD_SIZE,
        0 <= usa && usa + 6 <= MFT_RECORD_SIZE,
    ensures
        spec_fixed_record(b, usa).len() == b.len(),
        forall|i: int|
            0 <= i < b.len() && i != 510 && i != 511 && i != 1022 && i != 1023 ==> #[trigger] spec_fixed_record(
                b,
                usa,
            )[i] == b[i],
        spec_fixed_record(b, usa)[510] == b[usa + 2] && spec_fixed_record(b, usa)[511] == b[usa
            + 3],
        spec_fixed_record(b, usa)[1022] == b[usa + 4] && spec_fixed_record(b, usa)[1023] == b[usa
            + 5],
{
    reveal(spec_fixed_record);
}

/// The update sequence check compares both bytes of the end of each sector
/// with both bytes of the update sequence number: a record passes it exactly
/// when bytes 510, 511, 1022 and 1023 equal the number's low, high, low and
/// high byte.
pub proof fn lemma_usn_check_bytes(b: Seq<u8>, usa: int)
    ensures
        (spec_first_sector_ok(b, usa) && spec_second_sector_ok(b, usa)) <==> (b[510] == b[usa]
            && b[511] == b[usa + 1] && b[1022] == b[usa] && b[1023] == b[usa + 1]),
        spec_first_sector_ok(b, usa) <==> (b[510] == b[usa] && b[511] == b[usa + 1]),
{
}

/// How a record of 1024 bytes is classified, stated on its bytes: "BAAD"
/// records are corrupted, records that start with neither "BAAD" nor "FILE"
/// invalid; a "FILE" record whose update sequence array would end past the
/// record runs out of bounds, one whose sector ends do not both carry the
/// update sequence number fails the check; the others give an entry unless a
/// content is too short for its fields.
pub proof fn lemma_record_kind_bytes(rec: Seq<u8>)
    requires
        rec.len() == MFT_RECORD_SIZE,
    ensures
        spec_record_kind(rec) is Corrupted <==> (rec[0] == 0x42 && rec[1] == 0x41 && rec[2]
            == 0x41 && rec[3] == 0x44),
        spec_record_kind(rec) is Invalid <==> !(rec[0] == 0x42 && rec[1] == 0x41 && rec[2]
            == 0x41 && rec[3] == 0x44) && !(rec[0] == 0x46 && rec[1] == 0x49 && rec[2] == 0x4C
            && rec[3] == 0x45),
        ({
            let usa = le_value(rec.subrange(4, 6)) as int;
            (rec[0] == 0x46 && rec[1] == 0x49 && rec[2] == 0x4C && rec[3] == 0x45) ==> {
                &&& usa + 6 > MFT_RECORD_SIZE ==> spec_record_kind(rec) is OutOfBounds
                &&& usa + 6 <= MFT_RECORD_SIZE ==> (spec_record_kind(rec) is UsnMismatch <==> !(
                rec[510] == rec[usa] && rec[511] == rec[usa + 1] && rec[1022] == rec[usa]
                    && rec[1023] == rec[usa + 1]))
            }
        }),
{
    crate::mft::structure::lemma_signature_spelling(rec);
    crate::mft::structure::lemma_header_layout(rec);
}

/// The attribute headers form a chain through the record: the first lies at
/// the starting offset, each next one `attr_len` bytes (bytes 4..8 of a
/// header) after the one before; every header listed lies in the record, is
/// not the end marker `0xFFFFFFFF` (bytes 0..4) and has a length other than
/// zero; and the chain stops exactly at the end marker, at a length of zero,
/// or where the next header would not fit in the record.
pub proof fn lemma_attr_offsets_chain(r: Seq<u8>, p: nat)
    ensures
        ({
            let offs = spec_attr_offsets(r, p);
            &&& offs.len() > 0 ==> offs[0] == p
            &&& forall|i: int|
                0 <= i < offs.len() ==> {
                    &&& #[trigger] offs[i] + MFT_ATTRIBUTE_MAX_SIZE <= MFT_RECORD_SIZE
                    &&& le_value(r.subrange(offs[i] as int, offs[i] as int + 4)) != 0xFFFF_FFFF
                    &&& le_value(r.subrange(offs[i] as int + 4, offs[i] as int + 8)) != 0
                }
            &&& forall|i: int, j: int|
                0 <= i && j == i + 1 && j < offs.len() ==> #[trigger] offs[j] == #[trigger] offs[i]
                    + le_value(r.subrange(offs[i] as int + 4, offs[i] as int + 8))
            &&& ({
                let next: int = if offs.len() == 0 {
                    p as int
                } else {
                    offs.last() as int + le_value(r.subrange(offs.last() as int + 4, offs.last() as int + 8))
                };
                next + MFT_ATTRIBUTE_MAX_SIZE > MFT_RECORD_SIZE || le_value(
                    r.subrange(next, next + 4),
                ) == 0xFFFF_FFFF || le_value(r.subrange(next + 4, next + 8)) == 0
            })
        }),
    decreases MFT_RECORD_SIZE - p,
{
    if p + MFT_ATTRIBUTE_MAX_SIZE <= MFT_RECORD_SIZE {
        let attr_len = field(r, p as int + 4, p as int + 8);
        if field(r, p as int, p as int + 4) != 0xFFFF_FFFF && attr_len != 0 {
            if p + attr_len <= MFT_RECORD_SIZE {
                lemma_attr_offsets_chain(r, p + attr_len);
                let rest = spec_attr_offsets(r, p + attr_len);
                let offs = spec_attr_offsets(r, p);
                assert(offs == seq![p] + rest);
                assert forall|i: int| 0 <= i < offs.len() implies {
                    &&& #[trigger] offs[i] + MFT_ATTRIBUTE_MAX_SIZE <= MFT_RECORD_SIZE
                    &&& le_value(r.subrange(offs[i] as int, offs[i] as int + 4)) != 0xFFFF_FFFF
                    &&& le_value(r.subrange(offs[i] as int + 4, offs[i] as int + 8)) != 0
                } by {
                    if i > 0 {
                        assert(offs[i] == rest[i - 1]);
                    }
                }
                assert forall|i: int, j: int|
                    0 <= i && j == i + 1 && j < offs.len() implies #[trigger] offs[j]
                    == #[trigger] offs[i] + le_value(r.subrange(offs[i] as int + 4, offs[i] as int + 8)) by {
                    assert(offs[j] == rest[j - 1]);
                    if i > 0 {
                        assert(offs[i] == rest[i - 1]);
                    }
                }
                if rest.len() > 0 {
                    assert(offs.last() == rest.last());
                }
            }
        }
    }
}

/// What becomes of the attribute whose header lies at `p`, stated on the
/// bytes of the header `h` at `p`: a non-resident one (byte 8 not zero), or
/// one whose content (at `p` plus bytes 20..22, of the length in bytes
/// 16..20) does not end inside the record, is skipped; otherwise a content of
/// type 0x10 (bytes 0..4) is read as standard information when it holds at
/// least 72 bytes and cannot be read when it holds 0x42 to 71, and one of type
/// 0x30 is read as a file name when it holds at least 66 bytes and cannot be
/// read when it holds 8 to 65; anything else is skipped.
pub proof fn lemma_slot_bytes(r: Seq<u8>, p: nat)
    requires
        r.len() == MFT_RECORD_SIZE,
        p + MFT_ATTRIBUTE_MAX_SIZE <= r.len(),
    ensures
        ({
            let h = header_bytes(r, p);
            let t = le_value(h.subrange(0, 4));
            let start = p + le_value(h.subrange(20, 22));
            let end = start + le_value(h.subrange(16, 20));
            let len = end - start;
            spec_slot(r, p) == if h[8] != 0 || start > MFT_RECORD_SIZE || end
                > MFT_RECORD_SIZE {
                AttrSlot::Skipped
            } else if t == 0x10 && len >= 72 {
                AttrSlot::Standard(start, end)
            } else if t == 0x10 && len >= 0x42 {
                AttrSlot::Unreadable
            } else if t == 0x30 && len >= 66 {
                AttrSlot::Named(start, end)
            } else if t == 0x30 && len >= 8 {
                AttrSlot::Unreadable
            } else {
                AttrSlot::Skipped
            }
        }),
{
    reveal(spec_slot);
    let h = header_bytes(r, p);
    crate::mft::structure::lemma_part_layouts(h.subrange(16, 24));
    crate::mft::structure::lemma_part_layouts(h.subrange(16, 64));
    assert(h.subrange(16, 24).subrange(0, 4) =~= h.subrange(16, 20));
    assert(h.subrange(16, 24).subrange(4, 6) =~= h.subrange(20, 22));
    crate::utils::lemma_le_value_fits(h.subrange(0, 4));
    if h[8] == 0 {
        let res = spec_resident(h.subrange(16, 24));
        assert(spec_attr_data(h) == AttributeData::Resident(res));
        assert(res.attr_offset as nat == le_value(h.subrange(20, 22)));
        assert(res.content_len as nat == le_value(h.subrange(16, 20)));
        assert(field(h, 0, 4) as u32 as nat == le_value(h.subrange(0, 4)));
    }
}

/// The slots read, in order, are the read ones among all the slots: none is
/// read exactly when no slot is, and the last one read is a slot after which
/// no slot is read.
pub proof fn lemma_found_slots_last(slots: Seq<AttrSlot>)
    ensures
        found_slots(slots).len() == 0 <==> forall|i: int|
            0 <= i < slots.len() ==> !(#[trigger] slots[i] is Standard || slots[i] is Named),
        found_slots(slots).len() > 0 ==> exists|i: int|
            0 <= i < slots.len() && #[trigger] slots[i] == found_slots(slots).last() && (slots[i] is Standard
                || slots[i] is Named) && forall|j: int|
                i < j < slots.len() ==> !(#[trigger] slots[j] is Standard || slots[j] is Named),
    decreases slots.len(),
{
    if slots.len() > 0 {
        let init = slots.drop_last();
        lemma_found_slots_last(init);
        let n = slots.len() - 1;
        if !(slots[n] is Standard || slots[n] is Named) {
            if found_slots(init).len() > 0 {
                let i = choose|i: int|
                    0 <= i < init.len() && #[trigger] init[i] == found_slots(init).last() && (
                    init[i] is Standard || init[i] is Named) && forall|j: int|
                        i < j < init.len() ==> !(#[trigger] init[j] is Standard || init[j] is Named);
                assert(slots[i] == init[i]);
                assert forall|j: int| i < j < slots.len() implies !(#[trigger] slots[j] is Standard
                    || slots[j] is Named) by {
                    if j < n {
                        assert(slots[j] == init[j]);
                    }
                }
            } else {
                assert forall|i: int| 0 <= i < slots.len() implies !(#[trigger] slots[i] is Standard
                    || slots[i] is Named) by {
                    if i < n {
                        assert(slots[i] == init[i]);
                    }
                }
            }
        }
        if forall|i: int|
            0 <= i < slots.len() ==> !(#[trigger] slots[i] is Standard || slots[i] is Named) {
            assert(!(slots[n] is Standard || slots[n] is Named));
            assert forall|i: int| 0 <= i < init.len() implies !(#[trigger] init[i] is Standard
                || init[i] is Named) by {
                assert(init[i] == slots[i]);
            }
        }
    }
}

/// The standard information of an entry is read from the last attribute read
/// when that one is a $STANDARD_INFORMATION, with its fields at their on-disk
/// offsets; its file name likewise; and no attribute after that one is read.
pub proof fn lemma_entry_from_last_read(e: MftEntry, r: Seq<u8>, h: MftHeader)
    requires
        entry_of(e, r, h),
    ensures
        ({
            let slots = spec_slots(r, spec_attr_offsets(r, h.attr_offset as nat));
            &&& e.standard_information matches Some(si) ==> exists|i: int|
                0 <= i < slots.len() && #[trigger] slots[i] is Standard
                    && standard_information_layout(si, slot_content(r, slots[i])) && forall|j: int|
                    i < j < slots.len() ==> !(#[trigger] slots[j] is Standard || slots[j] is Named)
            &&& e.file_name matches Some(f) ==> exists|i: int|
                0 <= i < slots.len() && #[trigger] slots[i] is Named && file_name_of(
                    f,
                    slot_content(r, slots[i]),
                ) && forall|j: int|
                    i < j < slots.len() ==> !(#[trigger] slots[j] is Standard || slots[j] is Named)
            &&& (forall|i: int|
                0 <= i < slots.len() ==> !(#[trigger] slots[i] is Standard || slots[i] is Named))
                ==> e.standard_information is None && e.file_name is None
        }),
{
    reveal(read_attributes_of);
    let slots = spec_slots(r, spec_attr_offsets(r, h.attr_offset as nat));
    lemma_found_slots_last(slots);
    let found = found_slots(slots);
    if found.len() > 0 {
        let i = choose|i: int|
            0 <= i < slots.len() && #[trigger] slots[i] == found.last() && (slots[i] is Standard
                || slots[i] is Named) && forall|j: int|
                i < j < slots.len() ==> !(#[trigger] slots[j] is Standard || slots[j] is Named);
        if let Some(si) = e.standard_information {
            let c = slot_content(r, slots[i]);
            crate::mft::attributes::standard_information::lemma_standard_information_layout(c);
            assert(c.len() >= STANDARD_INFORMATION_SIZE) by {
                reveal(spec_slot);
            }
        }
    }
}

/// A last read slot that gives a file name is the last slot that gives one.
proof fn lemma_last_found_named(slots: Seq<AttrSlot>)
    requires
        found_slots(slots).len() > 0,
        found_slots(slots).last() is Named,
    ensures
        named_slots(slots).len() > 0,
        named_slots(slots).last() == found_slots(slots).last(),
    decreases slots.len(),
{
    if !(slots.last() is Standard || slots.last() is Named) {
        lemma_last_found_named(slots.drop_last());
    }
}

/// The standard information and the file name of an entry come from its last
/// attribute read, so an entry never has both; and its file name, when it has
/// one, is read from the same content as the last of its file names.
pub proof fn lemma_entry_last_attribute(e: MftEntry, r: Seq<u8>, h: MftHeader)
    requires
        entry_of(e, r, h),
    ensures
        !(e.standard_information is Some && e.file_name is Some),
        e.file_name is Some ==> e.file_names@.len() > 0,
        e.file_name matches Some(f) ==> {
            let slots = spec_slots(r, spec_attr_offsets(r, h.attr_offset as nat));
            let content = slot_content(r, found_slots(slots).last());
            &&& file_name_of(f, content)
            &&& file_name_of(e.file_names@.last(), content)
        },
{
    reveal(read_attributes_of);
    let slots = spec_slots(r, spec_attr_offsets(r, h.attr_offset as nat));
    if e.file_name is Some {
        lemma_last_found_named(slots);
        let named = named_slots(slots);
        assert(file_name_of(e.file_names@[named.len() - 1], slot_content(r, named[named.len() - 1])));
    }
}

/// A record gives an entry only when it starts with "FILE", passes the update
/// sequence check, and no content of it is too short for its fields.
pub proof fn lemma_accepted_record(rec: Seq<u8>)
    requires
        rec.len() == MFT_RECORD_SIZE,
        spec_record_kind(rec) is Accepted,
    ensures
        rec[0] == 0x46 && rec[1] == 0x49 && rec[2] == 0x4C && rec[3] == 0x45,
        spec_first_sector_ok(rec, spec_mft_header(rec).usa_offset as int),
        spec_second_sector_ok(rec, spec_mft_header(rec).usa_offset as int),
        ({
            let usa = le_value(rec.subrange(4, 6)) as int;
            &&& usa + 6 <= MFT_RECORD_SIZE
            &&& rec[510] == rec[usa] && rec[511] == rec[usa + 1]
            &&& rec[1022] == rec[usa] && rec[1023] == rec[usa + 1]
        }),
{
    crate::mft::structure::lemma_header_layout(rec);
    crate::mft::structure::lemma_signature_spelling(rec);
}

} // verus!
