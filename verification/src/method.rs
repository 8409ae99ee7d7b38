//! The path under which a method is called.

use crate::text::{
    law_split_last_joins, law_split_last_leaves_other_texts,
    law_split_last_takes_apart_what_was_joined, rsplit_once, split_last,
};
use prost_reflect::MethodDescriptor;
use std::str::FromStr;
use tonic::codegen::http::uri::PathAndQuery;
use vstd::prelude::*;

verus! {

/// The descriptor of a method.
#[verifier::external_type_specification]
#[verifier::external_body]
pub struct ExMethodDescriptor(MethodDescriptor);

/// The path of a request.
#[verifier::external_type_specification]
#[verifier::external_body]
pub struct ExPathAndQuery(PathAndQuery);

/// The full name of a method, as `MethodDescriptor::full_name` gives it.
pub uninterp spec fn full_name_of(method: MethodDescriptor) -> Seq<char>;

/// The text of a path, as `PathAndQuery::as_str` gives it.
pub uninterp spec fn path_text(path: PathAndQuery) -> Seq<char>;

/// The text of the path that `PathAndQuery::from_str` reads from a text, if it reads one.
pub uninterp spec fn parsed_path(text: Seq<char>) -> Option<Seq<char>>;

/// Whether a character may stand in the full name of a method.
pub open spec fn is_name_char(c: char) -> bool {
    'a' <= c <= 'z' || 'A' <= c <= 'Z' || '0' <= c <= '9' || c == '_' || c == '.'
}

/// Whether a text is a path made of names, and of a length that paths can have.
pub open spec fn is_plain_path(text: Seq<char>) -> bool {
    &&& 0 < text.len() < 0xffff
    &&& text[0] == '/'
    &&& forall|i: int| 0 <= i < text.len() ==> #[trigger] text[i] == '/' || is_name_char(text[i])
}

/// `MethodDescriptor::full_name` gives the full name of a method.
pub assume_specification<'a>[ MethodDescriptor::full_name ](method: &'a MethodDescriptor) -> (r:
    &'a str)
    ensures
        r@ == full_name_of(*method),
;

/// Calls `PathAndQuery::from_str`. It reads a path that is made of names as it stands.
#[verifier::external_body]
fn parse_path(text: &str) -> (r: Option<PathAndQuery>)
    ensures
        match r {
            Some(path) => parsed_path(text@) == Some(path_text(path)),
            None => parsed_path(text@) is None,
        },
        is_plain_path(text@) ==> r is Some && path_text(r->0) == text@,
{
    PathAndQuery::from_str(text).ok()
}

/// The text of the path of a method: the service and the method, which the last dot of the full
/// name divides, each behind a slash.
pub open spec fn method_path(full_name: Seq<char>) -> Option<Seq<char>> {
    match split_last(full_name, '.') {
        Some((service, method)) => Some("/"@ + service + "/"@ + method),
        None => None,
    }
}

/// The text of the path of a method, by the method's full name.
pub fn path_for(full_name: &str) -> (r: Option<String>)
    ensures
        match r {
            Some(path) => method_path(full_name@) == Some(path@),
            None => method_path(full_name@) is None,
        },
{
    match rsplit_once(full_name, '.') {
        Some((service, method)) => {
            let mut path: String = "/".to_owned();
            path.append(service.as_str());
            path.append("/");
            path.append(method.as_str());
            Some(path)
        },
        None => None,
    }
}

/// The path of a method whose full name makes one. For a full name that is made of names with dots
/// between them, the text of the path is the service and the method, each behind a slash.
pub fn method_desc_to_path(md: &MethodDescriptor) -> (r: PathAndQuery)
    requires
        method_path(full_name_of(*md)) is Some,
        parsed_path(method_path(full_name_of(*md))->0) is Some,
    ensures
        parsed_path(method_path(full_name_of(*md))->0) == Some(path_text(r)),
        is_full_name(full_name_of(*md)) ==> method_path(full_name_of(*md)) == Some(path_text(r)),
{
    proof {
        if is_full_name(full_name_of(*md)) {
            law_full_names_make_paths(full_name_of(*md));
        }
    }
    let path: Option<String> = path_for(md.full_name());
    let parsed: Option<PathAndQuery> = parse_path(path.unwrap().as_str());
    parsed.unwrap()
}

/// The path of a method, if its full name makes one. A full name that is made of names with dots
/// between them always does.
pub fn try_method_desc_to_path(md: &MethodDescriptor) -> (r: Option<PathAndQuery>)
    ensures
        match (r, method_path(full_name_of(*md))) {
            (Some(path), Some(text)) => parsed_path(text) == Some(path_text(path)),
            (None, Some(text)) => parsed_path(text) is None,
            (None, None) => true,
            _ => false,
        },
        is_full_name(full_name_of(*md)) ==> r is Some && method_path(full_name_of(*md)) == Some(
            path_text(r->0),
        ),
{
    match path_for(md.full_name()) {
        None => {
            proof {
                law_split_last_joins(full_name_of(*md), '.');
            }
            None
        },
        Some(path) => {
            proof {
                if is_full_name(full_name_of(*md)) {
                    law_full_names_make_paths(full_name_of(*md));
                }
            }
            match parse_path(path.as_str()) {
                Some(_) => Some(method_desc_to_path(md)),
                None => None,
            }
        },
    }
}

/// Whether a text is made of names with dots between them, and of a length that paths can have.
pub open spec fn is_full_name(text: Seq<char>) -> bool {
    &&& text.len() < 0xfffe
    &&& text.contains('.')
    &&& forall|i: int| 0 <= i < text.len() ==> is_name_char(#[trigger] text[i])
}

/// A full name makes a path that is made of names, one character longer.
pub proof fn law_full_names_make_paths(full_name: Seq<char>)
    requires
        is_full_name(full_name),
    ensures
        method_path(full_name) is Some,
        is_plain_path(method_path(full_name)->0),
        method_path(full_name)->0.len() == full_name.len() + 1,
{
    reveal_strlit("/");
    law_split_last_joins(full_name, '.');
    let (service, method) = split_last(full_name, '.')->0;
    let path = "/"@ + service + "/"@ + method;
    assert("/"@ =~= seq!['/']);
    assert forall|i: int| 0 <= i < path.len() implies #[trigger] path[i] == '/' || is_name_char(
        path[i],
    ) by {
        if 0 < i <= service.len() {
            assert(path[i] == full_name[i - 1]);
        } else if i > service.len() + 1 {
            assert(path[i] == full_name[i - 1]);
        }
    }
}

/// The path of a method is its service and itself, each behind a slash, where the full name is the
/// service's, a dot, and a name without one.
pub proof fn law_the_path_of_a_method_is_its_service_and_itself(
    service: Seq<char>,
    method: Seq<char>,
)
    requires
        !method.contains('.'),
    ensures
        method_path(service + seq!['.'] + method) == Some(seq!['/'] + service + seq!['/'] + method),
{
    law_split_last_takes_apart_what_was_joined(service, '.', method);
    reveal_strlit("/");
    assert("/"@ =~= seq!['/']);
}

/// A name without a dot is the full name of no method.
pub proof fn law_a_name_without_a_dot_makes_no_path(full_name: Seq<char>)
    requires
        !full_name.contains('.'),
    ensures
        method_path(full_name) is None,
{
    law_split_last_leaves_other_texts(full_name, '.');
}

} // verus!
