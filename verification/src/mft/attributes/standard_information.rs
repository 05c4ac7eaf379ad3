use vstd::prelude::*;
use crate::errors::DeepcutError;
use crate::mft::attributes::Attribute;
use crate::mft::errors::MftError;
use crate::mft::structure::field;
use crate::utils::{self, le_value, lemma_le_value_fits};

verus! {

/// The $STANDARD_INFORMATION attribute: time stamps, permissions and owner.
#[derive(PartialEq, Eq, Structural, Debug, Clone, Copy)]
pub struct StandardInformation {
    pub file_creation: u64,
    pub file_altered: u64,
    pub mft_changed: u64,
    pub file_read: u64,
    pub file_permissions: u32,
    pub max_num_of_versions: u32,
    pub version_number: u32,
    pub class_id: u32,
    pub owner_id: u32,
    pub security_id: u32,
    pub quota_charged: u64,
    pub update_sequence_number: u64,
}

/// The number of bytes below which the content is refused as too small.
pub const STANDARD_INFORMATION_MIN_SIZE: usize = 0x42;

/// The number of bytes that the fields occupy.
pub const STANDARD_INFORMATION_SIZE: usize = 72;

/// The fields that the first 72 bytes of `b` hold.
pub open spec fn spec_standard_information(b: Seq<u8>) -> StandardInformation {
    StandardInformation {
        file_creation: field(b, 0, 8) as u64,
        file_altered: field(b, 8, 16) as u64,
        mft_changed: field(b, 16, 24) as u64,
        file_read: field(b, 24, 32) as u64,
        file_permissions: field(b, 32, 36) as u32,
        max_num_of_versions: field(b, 36, 40) as u32,
        version_number: field(b, 40, 44) as u32,
        class_id: field(b, 44, 48) as u32,
        owner_id: field(b, 48, 52) as u32,
        security_id: field(b, 52, 56) as u32,
        quota_charged: field(b, 56, 64) as u64,
        update_sequence_number: field(b, 64, 72) as u64,
    }
}

/// What `StandardInformation::parse` returns: content shorter than `0x42`
/// bytes is refused as too small, any longer one gives its fields.
pub open spec fn spec_parse_standard_information(b: Seq<u8>) -> Result<
    StandardInformation,
    DeepcutError,
> {
    if b.len() < STANDARD_INFORMATION_MIN_SIZE {
        Err(DeepcutError::Mft(MftError::MftAttributeStandardInformationSmallBuffer))
    } else {
        Ok(spec_standard_information(b))
    }
}

/// The content can be read: it is refused as too small, or it holds all 72
/// bytes of fields.
pub open spec fn standard_information_readable(b: Seq<u8>) -> bool {
    b.len() < STANDARD_INFORMATION_MIN_SIZE || b.len() >= STANDARD_INFORMATION_SIZE
}

/// The standard information `si` holds the full little-endian numbers of the
/// content `b` at their on-disk offsets: bytes 0..8 creation time, 8..16
/// alteration time, 16..24 record change time, 24..32 read time, 32..36
/// permissions, 36..40 maximum number of versions, 40..44 version number,
/// 44..48 class id, 48..52 owner id, 52..56 security id, 56..64 quota charged
/// and 64..72 update sequence number.
pub open spec fn standard_information_layout(si: StandardInformation, b: Seq<u8>) -> bool {
    &&& si.file_creation as nat == le_value(b.subrange(0, 8))
    &&& si.file_altered as nat == le_value(b.subrange(8, 16))
    &&& si.mft_changed as nat == le_value(b.subrange(16, 24))
    &&& si.file_read as nat == le_value(b.subrange(24, 32))
    &&& si.file_permissions as nat == le_value(b.subrange(32, 36))
    &&& si.max_num_of_versions as nat == le_value(b.subrange(36, 40))
    &&& si.version_number as nat == le_value(b.subrange(40, 44))
    &&& si.class_id as nat == le_value(b.subrange(44, 48))
    &&& si.owner_id as nat == le_value(b.subrange(48, 52))
    &&& si.security_id as nat == le_value(b.subrange(52, 56))
    &&& si.quota_charged as nat == le_value(b.subrange(56, 64))
    &&& si.update_sequence_number as nat == le_value(b.subrange(64, 72))
}

/// Content shorter than `0x42` bytes is refused as too small; any content of
/// 72 bytes or more gives the fields at their on-disk offsets.
pub proof fn lemma_standard_information_layout(b: Seq<u8>)
    ensures
        b.len() < STANDARD_INFORMATION_MIN_SIZE ==> spec_parse_standard_information(b) == Err::<
            StandardInformation,
            DeepcutError,
        >(DeepcutError::Mft(MftError::MftAttributeStandardInformationSmallBuffer)),
        b.len() >= STANDARD_INFORMATION_SIZE ==> (spec_parse_standard_information(b) matches Ok(
            si,
        ) && standard_information_layout(si, b)),
{
    if b.len() >= STANDARD_INFORMATION_SIZE {
        lemma_le_value_fits(b.subrange(0, 8));
        lemma_le_value_fits(b.subrange(8, 16));
        lemma_le_value_fits(b.subrange(16, 24));
        lemma_le_value_fits(b.subrange(24, 32));
        lemma_le_value_fits(b.subrange(32, 36));
        lemma_le_value_fits(b.subrange(36, 40));
        lemma_le_value_fits(b.subrange(40, 44));
        lemma_le_value_fits(b.subrange(44, 48));
        lemma_le_value_fits(b.subrange(48, 52));
        lemma_le_value_fits(b.subrange(52, 56));
        lemma_le_value_fits(b.subrange(56, 64));
        lemma_le_value_fits(b.subrange(64, 72));
    }
}

impl StandardInformation {
    /// Reads the content of a $STANDARD_INFORMATION attribute.
    pub fn parse(buf: &[u8]) -> (r: Result<Self, DeepcutError>)
        requires
            standard_information_readable(buf@),
        ensures
            r == spec_parse_standard_information(buf@),
            buf@.len() < STANDARD_INFORMATION_MIN_SIZE ==> r == Err::<Self, DeepcutError>(
                DeepcutError::Mft(MftError::MftAttributeStandardInformationSmallBuffer),
            ),
            buf@.len() >= STANDARD_INFORMATION_MIN_SIZE ==> (r matches Ok(si)
                && standard_information_layout(si, buf@)),
    {
        proof {
            lemma_standard_information_layout(buf@);
        }
        if buf.len() < STANDARD_INFORMATION_MIN_SIZE {
            return Err(
                DeepcutError::from(MftError::MftAttributeStandardInformationSmallBuffer),
            );
        }
        Ok(Self {
            file_creation: utils::read_bytes(&buf[0..8])?,
            file_altered: utils::read_bytes(&buf[8..16])?,
            mft_changed: utils::read_bytes(&buf[16..24])?,
            file_read: utils::read_bytes(&buf[24..32])?,
            file_permissions: utils::read_bytes(&buf[32..36])?,
            max_num_of_versions: utils::read_bytes(&buf[36..40])?,
            version_number: utils::read_bytes(&buf[40..44])?,
            class_id: utils::read_bytes(&buf[44..48])?,
            owner_id: utils::read_bytes(&buf[48..52])?,
            security_id: utils::read_bytes(&buf[52..56])?,
            quota_charged: utils::read_bytes(&buf[56..64])?,
            update_sequence_number: utils::read_bytes(&buf[64..72])?,
        })
    }

    /// The standard information that `attribute` holds, if it holds one.
    pub fn get(attribute: Attribute) -> (r: Option<StandardInformation>)
        ensures
            r == (match attribute {
                Attribute::StandardInformation(si) => Some(si),
                _ => None,
            }),
    {
        match attribute {
            Attribute::StandardInformation(si) => Some(si),
            _ => None,
        }
    }
}

} // verus!
