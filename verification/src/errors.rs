use vstd::prelude::*;
use crate::mft::errors::MftError;

verus! {

/// The error of every parser of the library: a failure of a low-level read,
/// or a record of the master file table that cannot be accepted.
#[derive(PartialEq, Eq, Structural, Debug, Clone, Copy)]
pub enum DeepcutError {
    Core(CoreError),
    Mft(MftError),
}

impl From<MftError> for DeepcutError {
    fn from(e: MftError) -> (r: Self) {
        DeepcutError::Mft(e)
    }
}

impl vstd::std_specs::convert::FromSpecImpl<MftError> for DeepcutError {
    open spec fn obeys_from_spec() -> bool {
        true
    }

    open spec fn from_spec(e: MftError) -> Self {
        DeepcutError::Mft(e)
    }
}

impl From<CoreError> for DeepcutError {
    fn from(e: CoreError) -> (r: Self) {
        DeepcutError::Core(e)
    }
}

impl vstd::std_specs::convert::FromSpecImpl<CoreError> for DeepcutError {
    open spec fn obeys_from_spec() -> bool {
        true
    }

    open spec fn from_spec(e: CoreError) -> Self {
        DeepcutError::Core(e)
    }
}

/// Failures of the little-endian readers and of text decoding.
#[derive(PartialEq, Eq, Structural, Debug, Clone, Copy)]
pub enum CoreError {
    CoreFailedToReadLeU8,
    CoreFailedToReadLeU16,
    CoreFailedToReadLeU32,
    CoreFailedToReadLeU64,
    CoreFailedToParseUtf16,
}

impl CoreError {
    /// The human-readable description of the error.
    pub fn message(&self) -> (r: &'static str)
        ensures
            r@ == self.spec_message(),
    {
        match self {
            CoreError::CoreFailedToReadLeU8 => "Failed to read LE U8 bytes",
            CoreError::CoreFailedToReadLeU16 => "Failed to read LE U16 bytes",
            CoreError::CoreFailedToReadLeU32 => "Failed to read LE U32 bytes",
            CoreError::CoreFailedToReadLeU64 => "Failed to read LE U64 bytes",
            CoreError::CoreFailedToParseUtf16 => "Failed to parse UTF16",
        }
    }
}

impl DeepcutError {
    /// The description of the wrapped error, which this error passes through unchanged.
    pub fn message(&self) -> (r: &'static str)
        ensures
            r@ == (match *self {
                DeepcutError::Core(e) => e.spec_message(),
                DeepcutError::Mft(e) => e.spec_message(),
            }),
    {
        match self {
            DeepcutError::Core(e) => e.message(),
            DeepcutError::Mft(e) => e.message(),
        }
    }
}

impl CoreError {
    /// What `message` returns.
    pub open spec fn spec_message(self) -> Seq<char> {
        match self {
            CoreError::CoreFailedToReadLeU8 => "Failed to read LE U8 bytes"@,
            CoreError::CoreFailedToReadLeU16 => "Failed to read LE U16 bytes"@,
            CoreError::CoreFailedToReadLeU32 => "Failed to read LE U32 bytes"@,
            CoreError::CoreFailedToReadLeU64 => "Failed to read LE U64 bytes"@,
            CoreError::CoreFailedToParseUtf16 => "Failed to parse UTF16"@,
        }
    }
}

} // verus!
