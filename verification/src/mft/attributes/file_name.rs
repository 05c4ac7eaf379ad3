use vstd::prelude::*;
use crate::errors::DeepcutError;
use crate::mft::attributes::Attribute;
use crate::mft::errors::MftError;
use crate::mft::structure::field;
use crate::utils::{self, le_value, le_units, lemma_le_value_fits, opt_text, spec_extract_string, utf16_text};

verus! {

/// The $FILE_NAME attribute: the parent directory, time stamps, sizes and the
/// name of a file in one of its name spaces.
#[derive(Clone, Debug)]
pub struct FileName {
    pub ref_to_parent: u64,
    pub ctime: u64,
    pub atime: u64,
    pub mtime: u64,
    pub rtime: u64,
    pub allocated_size: u64,
    pub real_size: u64,
    pub flags: u32,
    pub eas_and_reparse: u32,
    pub filename_len_in_chars: u8,
    pub filename_space: u8,
    pub name: Option<String>,
}

/// The number of bytes below which the content is refused as too small.
pub const FILE_NAME_MIN_SIZE: usize = 8;

/// The offset of the name in the content.
pub const FILE_NAME_NAME_OFFSET: usize = 66;

/// `f` is the file name that the content `b` (of at least 66 bytes) holds.
pub open spec fn file_name_of(f: FileName, b: Seq<u8>) -> bool {
    &&& f.ref_to_parent == field(b, 0, 8)
    &&& f.ctime == field(b, 8, 16)
    &&& f.atime == field(b, 16, 24)
    &&& f.mtime == field(b, 24, 32)
    &&& f.rtime == field(b, 32, 40)
    &&& f.allocated_size == field(b, 40, 48)
    &&& f.real_size == field(b, 48, 56)
    &&& f.flags == field(b, 56, 60)
    &&& f.eas_and_reparse == field(b, 60, 64)
    &&& f.filename_len_in_chars == b[64]
    &&& f.filename_space == b[65]
    &&& opt_text(f.name) == spec_extract_string(b.subrange(66, b.len() as int), b[64] as nat)
}

/// The content can be read: it is refused as too small, or it holds all the
/// fixed fields in front of the name.
pub open spec fn file_name_readable(b: Seq<u8>) -> bool {
    b.len() < FILE_NAME_MIN_SIZE || b.len() >= FILE_NAME_NAME_OFFSET
}

/// The file name `f` holds the full little-endian numbers of the content `b`
/// at their on-disk offsets: bytes 0..8 parent reference, 8..16 creation
/// time, 16..24 alteration time, 24..32 record change time, 32..40 read time,
/// 40..48 allocated size, 48..56 real size, 56..60 flags, 60..64 extended
/// attributes and reparse value, byte 64 the name length in characters, byte
/// 65 the name space; and a name of `b[64]` UTF-16 units from byte 66, when
/// the content holds them all.
pub open spec fn file_name_layout(f: FileName, b: Seq<u8>) -> bool {
    let n = b[64] as int;
    &&& f.ref_to_parent as nat == le_value(b.subrange(0, 8))
    &&& f.ctime as nat == le_value(b.subrange(8, 16))
    &&& f.atime as nat == le_value(b.subrange(16, 24))
    &&& f.mtime as nat == le_value(b.subrange(24, 32))
    &&& f.rtime as nat == le_value(b.subrange(32, 40))
    &&& f.allocated_size as nat == le_value(b.subrange(40, 48))
    &&& f.real_size as nat == le_value(b.subrange(48, 56))
    &&& f.flags as nat == le_value(b.subrange(56, 60))
    &&& f.eas_and_reparse as nat == le_value(b.subrange(60, 64))
    &&& f.filename_len_in_chars == b[64]
    &&& f.filename_space == b[65]
    &&& (n == 0 || b.len() < 66 + 2 * n ==> f.name is None)
    &&& (n > 0 && b.len() >= 66 + 2 * n ==> opt_text(f.name) == utf16_text(
        le_units(b.subrange(66, 66 + 2 * n)),
    ))
}

/// A file name read from a content holds its fields at their on-disk offsets.
pub proof fn lemma_file_name_layout(f: FileName, b: Seq<u8>)
    requires
        b.len() >= FILE_NAME_NAME_OFFSET,
        file_name_of(f, b),
    ensures
        file_name_layout(f, b),
{
    lemma_le_value_fits(b.subrange(0, 8));
    lemma_le_value_fits(b.subrange(8, 16));
    lemma_le_value_fits(b.subrange(16, 24));
    lemma_le_value_fits(b.subrange(24, 32));
    lemma_le_value_fits(b.subrange(32, 40));
    lemma_le_value_fits(b.subrange(40, 48));
    lemma_le_value_fits(b.subrange(48, 56));
    lemma_le_value_fits(b.subrange(56, 60));
    lemma_le_value_fits(b.subrange(60, 64));
    let n = b[64] as int;
    let tail = b.subrange(66, b.len() as int);
    if n > 0 && b.len() >= 66 + 2 * n {
        assert(tail.subrange(0, 2 * n) =~= b.subrange(66, 66 + 2 * n));
    }
}

impl FileName {
    /// Reads the content of a $FILE_NAME attribute.
    pub fn parse(buf: &[u8]) -> (r: Result<Self, DeepcutError>)
        requires
            file_name_readable(buf@),
        ensures
            buf@.len() < FILE_NAME_MIN_SIZE ==> r == Err::<Self, DeepcutError>(
                DeepcutError::Mft(MftError::MftAttributeStandardInformationSmallBuffer),
            ),
            buf@.len() >= FILE_NAME_MIN_SIZE ==> (r matches Ok(f) && file_name_of(f, buf@)),
            buf@.len() >= FILE_NAME_MIN_SIZE ==> (r matches Ok(f) && file_name_layout(f, buf@)),
    {
        if buf.len() < FILE_NAME_MIN_SIZE {
            return Err(
                DeepcutError::from(MftError::MftAttributeStandardInformationSmallBuffer),
            );
        }
        let filename_len_in_chars: u8 = utils::read_bytes(&buf[64..65])?;
        let name = utils::extract_string(
            &buf[66..buf.len()],
            filename_len_in_chars as usize,
        );
        proof {
            let b = buf@;
            utils::lemma_read_value_exact(b.subrange(0, 8));
            utils::lemma_read_value_exact(b.subrange(8, 16));
            utils::lemma_read_value_exact(b.subrange(16, 24));
            utils::lemma_read_value_exact(b.subrange(24, 32));
            utils::lemma_read_value_exact(b.subrange(32, 40));
            utils::lemma_read_value_exact(b.subrange(40, 48));
            utils::lemma_read_value_exact(b.subrange(48, 56));
            utils::lemma_read_value_exact(b.subrange(56, 60));
            utils::lemma_read_value_exact(b.subrange(60, 64));
            crate::mft::structure::lemma_single_byte(b, 64);
            crate::mft::structure::lemma_single_byte(b, 65);
        }
        let file_name = Self {
            ref_to_parent: utils::read_bytes(&buf[0..8])?,
            ctime: utils::read_bytes(&buf[8..16])?,
            atime: utils::read_bytes(&buf[16..24])?,
            mtime: utils::read_bytes(&buf[24..32])?,
            rtime: utils::read_bytes(&buf[32..40])?,
            allocated_size: utils::read_bytes(&buf[40..48])?,
            real_size: utils::read_bytes(&buf[48..56])?,
            flags: utils::read_bytes(&buf[56..60])?,
            eas_and_reparse: utils::read_bytes(&buf[60..64])?,
            filename_len_in_chars,
            filename_space: utils::read_bytes(&buf[65..66])?,
            name,
        };
        proof {
            lemma_file_name_layout(file_name, buf@);
        }
        Ok(file_name)
    }

    /// The file name that `attribute` holds, if it holds one.
    pub fn get(attribute: Attribute) -> (r: Option<FileName>)
        ensures
            r == (match attribute {
                Attribute::FileName(file_name) => Some(file_name),
                _ => None,
            }),
    {
        match attribute {
            Attribute::FileName(file_name) => Some(file_name),
            _ => None,
        }
    }
}

} // verus!
