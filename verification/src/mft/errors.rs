use vstd::prelude::*;

verus! {

/// Reasons for which a record of the master file table is refused.
#[derive(PartialEq, Eq, Structural, Debug, Clone, Copy)]
pub enum MftError {
    MftHeaderSignatureBad,
    MftHeaderSignatureInvalid,
    MftRecordTooSmall,
    MftRecordFailedToGetBytesFromRecord,
    MftAttributeStandardInformationSmallBuffer,
    MftFileOpenError,
}

impl MftError {
    /// What `message` returns.
    pub open spec fn spec_message(self) -> Seq<char> {
        match self {
            MftError::MftHeaderSignatureBad => "Corrupted MFT Object"@,
            MftError::MftHeaderSignatureInvalid => "Invalid MFT Object"@,
            MftError::MftRecordTooSmall => "MFT Record Too Small"@,
            MftError::MftRecordFailedToGetBytesFromRecord => "Failed to get Bytes from MFT Record"@,
            MftError::MftAttributeStandardInformationSmallBuffer =>
                "Failed to read Standard Information, buffer too small"@,
            MftError::MftFileOpenError => "Failed to open MFT file"@,
        }
    }

    /// The human-readable description of the error.
    pub fn message(&self) -> (r: &'static str)
        ensures
            r@ == self.spec_message(),
    {
        match self {
            MftError::MftHeaderSignatureBad => "Corrupted MFT Object",
            MftError::MftHeaderSignatureInvalid => "Invalid MFT Object",
            MftError::MftRecordTooSmall => "MFT Record Too Small",
            MftError::MftRecordFailedToGetBytesFromRecord => "Failed to get Bytes from MFT Record",
            MftError::MftAttributeStandardInformationSmallBuffer =>
                "Failed to read Standard Information, buffer too small",
            MftError::MftFileOpenError => "Failed to open MFT file",
        }
    }
}

} // verus!
