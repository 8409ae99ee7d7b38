//! What can go wrong.

use prost_reflect::DescriptorError;
use vstd::prelude::*;

verus! {

/// Why a pool did not take a file.
#[verifier::external_type_specification]
#[verifier::external_body]
pub struct ExDescriptorError(DescriptorError);

/// Why a set of descriptors, or a part of one, could not be had.
pub enum Error {
    /// The reason in words.
    GenericError(String),
    /// The bytes are not those of the message that was expected.
    DecodeError(prost::DecodeError),
    /// The descriptors do not fit together.
    DescriptorError(DescriptorError),
    /// The descriptors are none that a pool can look at: one is of a syntax that is not known, has
    /// defaults or options that cannot be read, or is one for which the search for the files that it
    /// sees has no end.
    Unreadable,
}

} // verus!
