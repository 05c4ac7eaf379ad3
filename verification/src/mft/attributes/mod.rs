pub mod file_name;
pub mod standard_information;

pub use crate::mft::attributes::file_name::FileName;
pub use crate::mft::attributes::standard_information::StandardInformation;

use vstd::prelude::*;

verus! {

/// A resident attribute whose content the library reads.
#[derive(Clone, Debug)]
pub enum Attribute {
    StandardInformation(StandardInformation),
    FileName(FileName),
}

} // verus!
