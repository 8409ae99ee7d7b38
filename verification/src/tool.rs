//! The programs that compile `.proto` files: where their output goes, and how they fail.

use crate::error::Error;
use crate::text::{append_decimal, decimal};
use std::path::Path;
use vstd::prelude::*;

verus! {

/// A program that compiles `.proto` files.
#[derive(Clone, Copy, Debug, PartialEq, Eq, Structural)]
pub enum Tool {
    Protoc,
    Buf,
}

/// Whether a text is an identifier of thirty-two hexadecimal digits, in five groups with hyphens
/// between them, of which the first of the third group says that it is random and the first of the
/// fourth how it is laid out.
pub open spec fn is_identifier(text: Seq<char>) -> bool {
    &&& text.len() == 36
    &&& forall|i: int|
        0 <= i < 36 ==> if i == 8 || i == 13 || i == 18 || i == 23 {
            #[trigger] text[i] == '-'
        } else {
            '0' <= text[i] <= '9' || 'a' <= text[i] <= 'f'
        }
    &&& text[14] == '4'
    &&& text[19] == '8' || text[19] == '9' || text[19] == 'a' || text[19] == 'b'
}

/// Calls `Uuid::new_v4` for a random identifier, and writes it in lower case with hyphens. Its
/// version is four, and its variant that of RFC 4122. Beyond that form nothing is known of it.
#[verifier::external_body]
fn random_identifier() -> (r: String)
    ensures
        is_identifier(r@),
{
    uuid::Uuid::new_v4().to_string()
}

/// The name of the file of descriptors that is told apart by an identifier.
pub fn descriptor_file_name_of(identifier: &str) -> (r: String)
    ensures
        r@ == identifier@ + ".desc"@,
{
    let mut name: String = identifier.to_owned();
    name.append(".desc");
    name
}

/// A name for a file of descriptors that no other file is likely to have.
pub fn descriptor_file_name() -> (r: String)
    ensures
        exists|id: Seq<char>| is_identifier(id) && r@ == id + ".desc"@,
{
    let identifier: String = random_identifier();
    descriptor_file_name_of(identifier.as_str())
}

/// Whether a path is a verbatim one on a disk: `\\?\`, the letter of a drive and a colon come first.
pub open spec fn is_verbatim_disk(path: Seq<char>) -> bool {
    &&& "\\\\?\\"@.is_prefix_of(path)
    &&& path.len() >= 6
    &&& 'a' <= path[4] <= 'z' || 'A' <= path[4] <= 'Z'
    &&& path[5] == ':'
}

/// Whether a path is another one, or that without the prefix of a verbatim path on a disk.
pub open spec fn is_simplified(path: Seq<char>, simplified: Seq<char>) -> bool {
    simplified == path || is_verbatim_disk(path) && simplified == path.skip(4)
}

/// Calls `dunce::simplified`, which drops the prefix of a verbatim path on a disk where other
/// programs understand the path without it, and leaves all other paths as they are. Whether it
/// drops it depends on the machine.
#[verifier::external_body]
fn simplified(path: &str) -> (r: String)
    ensures
        is_simplified(path@, r@),
{
    dunce::simplified(Path::new(path)).to_string_lossy().into_owned()
}

/// A path as a text.
#[derive(Debug)]
pub enum PathText {
    /// The path, which is Unicode.
    Exact(String),
    /// A path that is not Unicode, with what is not replaced.
    Lossy(String),
}

/// Whether a text is that of a path, or of one that is Unicode without the prefix of a verbatim
/// path.
pub open spec fn is_plain(path: PathText, text: Seq<char>) -> bool {
    match path {
        PathText::Exact(path) => is_simplified(path@, text),
        PathText::Lossy(path) => text == path@,
    }
}

/// The text of a path, without the prefix of a verbatim path where other programs understand it so.
/// A path that is not Unicode keeps the prefix.
pub fn plain(path: &PathText) -> (r: String)
    ensures
        is_plain(*path, r@),
{
    match path {
        PathText::Exact(path) => simplified(path.as_str()),
        PathText::Lossy(path) => path.clone(),
    }
}

/// The error where a program could not be run.
pub fn not_run(tool: Tool, cause: &str) -> (r: Error)
    ensures
        r is GenericError,
        r->GenericError_0@ == (match tool {
            Tool::Protoc => "Failed to run protoc: "@,
            Tool::Buf => "Failed to run buf: "@,
        }) + cause@,
{
    let mut text: String = match tool {
        Tool::Protoc => "Failed to run protoc: ".to_owned(),
        Tool::Buf => "Failed to run buf: ".to_owned(),
    };
    text.append(cause);
    Error::GenericError(text)
}

/// Why a program failed: the status that it ended with, or -1 where there is none, and what it
/// wrote to its error stream.
pub open spec fn failure_text(tool: Tool, code: Option<i32>, stderr: Seq<char>) -> Seq<char> {
    (match tool {
        Tool::Protoc => "protoc failed with status "@,
        Tool::Buf => "buf build failed with status "@,
    }) + decimal(
        match code {
            Some(code) => code as int,
            None => -1,
        },
    ) + ": "@ + stderr
}

/// Whether a program succeeded.
pub fn check_exit(tool: Tool, success: bool, code: Option<i32>, stderr: &str) -> (r: Result<
    (),
    Error,
>)
    ensures
        r is Ok <==> success,
        r is Err ==> r->Err_0 is GenericError && r->Err_0->GenericError_0@ == failure_text(
            tool,
            code,
            stderr@,
        ),
        r is Err && code is Some ==> r->Err_0->GenericError_0@ == (match tool {
            Tool::Protoc => "protoc failed with status "@,
            Tool::Buf => "buf build failed with status "@,
        }) + decimal(code->0 as int) + ": "@ + stderr@,
{
    if success {
        return Ok(());
    }
    let mut text: String = match tool {
        Tool::Protoc => "protoc failed with status ".to_owned(),
        Tool::Buf => "buf build failed with status ".to_owned(),
    };
    let status: i32 = match code {
        Some(code) => code,
        None => -1,
    };
    append_decimal(&mut text, status);
    text.append(": ");
    text.append(stderr);
    Err(Error::GenericError(text))
}

/// A failure is told by the program, the status that it ended with, and all that it wrote to its
/// error stream.
pub proof fn law_a_failure_is_told_with_its_status_and_its_cause(code: i32, stderr: Seq<char>)
    ensures
        failure_text(Tool::Protoc, Some(code), stderr) == "protoc failed with status "@ + decimal(
            code as int,
        ) + ": "@ + stderr,
        failure_text(Tool::Buf, Some(code), stderr) == "buf build failed with status "@ + decimal(
            code as int,
        ) + ": "@ + stderr,
{
}

/// A program that ended without a status is told of as one that ended with -1.
pub proof fn law_a_failure_without_a_status_is_told_with_minus_one(tool: Tool, stderr: Seq<char>)
    ensures
        failure_text(tool, None, stderr) == failure_text(tool, Some(-1i32), stderr),
{
}

/// A path that does not start as a verbatim one on a disk is passed on as it is, and so is one that
/// is not Unicode.
pub proof fn law_other_paths_are_passed_on_as_they_are(path: PathText, text: Seq<char>)
    requires
        is_plain(path, text),
        path matches PathText::Exact(exact) ==> exact@.len() < 6 || exact@[0] != '\\' || exact@[1]
            != '\\' || exact@[2] != '?' || exact@[3] != '\\' || exact@[5] != ':',
    ensures
        text == match path {
            PathText::Exact(exact) => exact@,
            PathText::Lossy(lossy) => lossy@,
        },
{
    reveal_strlit("\\\\?\\");
    let prefix = "\\\\?\\"@;
    assert(prefix.len() == 4);
    if let PathText::Exact(exact) = path {
        if prefix.is_prefix_of(exact@) {
            assert(exact@.subrange(0, 4)[0] == exact@[0] && exact@.subrange(0, 4)[1] == exact@[1]);
            assert(exact@.subrange(0, 4)[2] == exact@[2] && exact@.subrange(0, 4)[3] == exact@[3]);
        }
    }
}

/// A path that is Unicode is passed on with all of its characters, but for the first four where it is
/// a verbatim one on a disk.
pub proof fn law_no_more_than_the_prefix_is_dropped(path: String, text: Seq<char>)
    requires
        is_plain(PathText::Exact(path), text),
    ensures
        text == path@ || path@.len() >= 6 && text == path@.skip(4),
{
}

} // verus!
