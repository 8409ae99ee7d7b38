//! What a reflection service is asked, and what it replies.

use vstd::prelude::*;

verus! {

/// A question to a reflection service.
#[derive(Debug)]
pub enum ReflectionRequest {
    /// Which services there are.
    ListServices,
    /// The file that declares a symbol, by the symbol's full name.
    FileContainingSymbol(String),
    /// A file, by its name.
    FileByFilename(String),
}

/// The reply of a reflection service.
#[derive(Debug)]
pub enum ReflectionReply {
    /// Encoded files.
    FileDescriptors(Vec<Vec<u8>>),
    /// The names of services.
    Services(Vec<String>),
    Error { message: String, code: i32 },
    /// Any other reply.
    Other,
}

/// The views of a sequence of encoded files.
pub open spec fn file_views(files: Seq<Vec<u8>>) -> Seq<Seq<u8>> {
    Seq::new(files.len(), |i: int| files[i]@)
}

/// The encoded files of a reply, if it brings some.
pub open spec fn files_of(reply: Option<ReflectionReply>) -> Option<Seq<Seq<u8>>> {
    match reply {
        Some(ReflectionReply::FileDescriptors(files)) => Some(file_views(files@)),
        _ => None,
    }
}

/// A reply that brings encoded files brings all of them, in their order, however many there are.
pub proof fn law_a_reply_brings_all_of_its_files(files: Vec<Vec<u8>>)
    ensures
        files_of(Some(ReflectionReply::FileDescriptors(files))) is Some,
        files_of(Some(ReflectionReply::FileDescriptors(files)))->0.len() == files@.len(),
        forall|i: int|
            0 <= i < files@.len() ==> files_of(
                Some(ReflectionReply::FileDescriptors(files)),
            )->0[i] == #[trigger] files@[i]@,
{
}

/// Any other reply, and none, brings no files.
pub proof fn law_other_replies_bring_no_files(reply: Option<ReflectionReply>)
    requires
        reply matches Some(reply) ==> !(reply is FileDescriptors),
    ensures
        files_of(reply) is None,
{
}

} // verus!
