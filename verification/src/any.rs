//! The types that the `google.protobuf.Any` messages in a message name.

use crate::adjacency::position;
use crate::text::{
    law_split_last_joins, law_split_last_takes_apart_what_was_joined, rsplit_once, split_last,
};
use crate::topology::views;
use vstd::prelude::*;

verus! {

/// What matters here of a message.
#[derive(Debug)]
pub struct MessageTree {
    /// The full name of the message's type.
    pub full_name: String,
    /// The text that the field `type_url` holds, if there is such a field of that type.
    pub type_url: Option<String>,
    /// The values of the fields that are set.
    pub fields: Vec<ValueTree>,
}

/// What matters here of a value.
#[derive(Debug)]
pub enum ValueTree {
    Message(MessageTree),
    List(Vec<ValueTree>),
    /// The values of a map, in any order.
    Entries(Vec<ValueTree>),
    /// Any other value.
    Scalar,
}

/// The full name of a type in a type URL: what follows the last slash.
pub open spec fn name_in_url(url: Seq<char>) -> Option<Seq<char>> {
    match split_last(url, '/') {
        Some((_, name)) => Some(name),
        None => None,
    }
}

impl MessageTree {
    /// The type that the message itself names, where it is an `Any`.
    pub open spec fn own_type(self) -> Option<Seq<char>> {
        if self.full_name@ == "google.protobuf.Any"@ {
            match self.type_url {
                Some(url) => name_in_url(url@),
                None => None,
            }
        } else {
            None
        }
    }

    /// Whether the message, or one inside it, names a type.
    pub open spec fn names(self, name: Seq<char>) -> bool
        decreases self,
    {
        self.own_type() == Some(name) || exists|i: int|
            0 <= i < self.fields@.len() && (#[trigger] self.fields@[i]).names(name)
    }
}

impl ValueTree {
    /// Whether a message inside the value names a type.
    pub open spec fn names(self, name: Seq<char>) -> bool
        decreases self,
    {
        match self {
            ValueTree::Message(message) => message.names(name),
            ValueTree::List(values) => exists|i: int|
                0 <= i < values@.len() && (#[trigger] values@[i]).names(name),
            ValueTree::Entries(values) => exists|i: int|
                0 <= i < values@.len() && (#[trigger] values@[i]).names(name),
            ValueTree::Scalar => false,
        }
    }
}

/// Whether one of the values names a type.
pub open spec fn any_names(values: Seq<ValueTree>, name: Seq<char>) -> bool {
    exists|i: int| 0 <= i < values.len() && (#[trigger] values[i]).names(name)
}

/// Whether `after` lists each name of `before` and each one that `names` says, once.
pub open spec fn collected(
    before: Seq<Seq<char>>,
    names: spec_fn(Seq<char>) -> bool,
    after: Seq<Seq<char>>,
) -> bool {
    &&& after.no_duplicates()
    &&& forall|name: Seq<char>| #[trigger]
        after.contains(name) <==> before.contains(name) || names(name)
}

/// Adds a name to a list, unless it is there.
fn insert(out: &mut Vec<String>, name: String)
    requires
        views(old(out)@).no_duplicates(),
    ensures
        collected(views(old(out)@), |n: Seq<char>| n == name@, views(final(out)@)),
{
    let ghost before = views(out@);
    if position(out, &name).is_none() {
        out.push(name);
        proof {
            let after = views(out@);
            assert(after =~= before.push(name@));
            assert(!before.contains(name@)) by {
                if before.contains(name@) {
                    let k = choose|k: int| 0 <= k < before.len() && before[k] == name@;
                    assert(before[k] == old(out)@[k]@);
                }
            }
            assert(after[before.len() as int] == name@);
            assert forall|n: Seq<char>| #[trigger] after.contains(n) <==> before.contains(n) || n
                == name@ by {
                if before.contains(n) {
                    let k = choose|k: int| 0 <= k < before.len() && before[k] == n;
                    assert(after[k] == n);
                }
            }
        }
    } else {
        proof {
            let k = choose|k: int| 0 <= k < out@.len() && out@[k]@ == name@;
            assert(before[k] == name@);
        }
    }
}

/// Adds the types that a message, and those inside it, name.
pub fn collect_any_types_from_dynamic_message(message: &MessageTree, out: &mut Vec<String>)
    requires
        views(old(out)@).no_duplicates(),
    ensures
        collected(views(old(out)@), |name: Seq<char>| message.names(name), views(final(out)@)),
        message.full_name@ == "google.protobuf.Any"@ ==> forall|prefix: Seq<char>, name: Seq<char>|
            message.type_url is Some && message.type_url->0@ == #[trigger] (prefix + seq!['/']
                + name) && !name.contains('/') ==> views(final(out)@).contains(name),
        forall|name: Seq<char>| #[trigger]
            views(final(out)@).contains(name) <==> views(old(out)@).contains(name) || exists|
                inner: MessageTree,
            | #[trigger]
                is_in_message(inner, *message) && is_any_of(inner, name),
        views(final(out)@).no_duplicates(),
    decreases message,
{
    let ghost before = views(out@);
    if message.full_name == "google.protobuf.Any".to_owned() {
        if let Some(url) = &message.type_url {
            if let Some((_, name)) = rsplit_once(url.as_str(), '/') {
                insert(out, name);
            }
        }
    }
    let ghost own = views(out@);
    collect_any_types_from_values(&message.fields, out);
    proof {
        let after = views(out@);
        assert forall|name: Seq<char>| #[trigger] after.contains(name) <==> before.contains(name)
            || message.names(name) by {
            assert(own.contains(name) <==> before.contains(name) || message.own_type() == Some(
                name,
            ));
            assert(message.names(name) <==> message.own_type() == Some(name) || any_names(
                message.fields@,
                name,
            ));
        }
        assert forall|name: Seq<char>| #[trigger] views(out@).contains(name) <==> before.contains(
            name,
        ) || exists|inner: MessageTree| #[trigger]
            is_in_message(inner, *message) && is_any_of(inner, name) by {
            law_a_message_names_the_types_of_the_anys_in_it(*message, name);
        }
        if message.full_name@ == "google.protobuf.Any"@ {
            assert forall|prefix: Seq<char>, name: Seq<char>|
                message.type_url is Some && message.type_url->0@ == #[trigger] (prefix + seq!['/']
                    + name) && !name.contains('/') implies views(out@).contains(name) by {
                law_an_any_names_the_type_in_its_url(*message, prefix, name);
            }
        }
    }
}

/// Adds the types that the messages inside values name.
fn collect_any_types_from_values(values: &Vec<ValueTree>, out: &mut Vec<String>)
    requires
        views(old(out)@).no_duplicates(),
    ensures
        collected(views(old(out)@), |name: Seq<char>| any_names(values@, name), views(final(out)@)),
    decreases values,
{
    let ghost before = views(out@);
    let mut i: usize = 0;
    while i < values.len()
        invariant
            i <= values@.len(),
            collected(
                before,
                |name: Seq<char>| any_names(values@.take(i as int), name),
                views(out@),
            ),
        decreases values@.len() - i,
    {
        let ghost so_far = views(out@);
        collect_any_types_from_value(&values[i], out);
        proof {
            let head = values@.take(i as int);
            let more = values@.take(i + 1);
            assert forall|name: Seq<char>| #[trigger] any_names(more, name) <==> any_names(
                head,
                name,
            ) || values@[i as int].names(name) by {
                if any_names(more, name) {
                    let k = choose|k: int| 0 <= k < more.len() && (#[trigger] more[k]).names(name);
                    assert(k == i || head[k].names(name));
                }
                if any_names(head, name) {
                    let k = choose|k: int| 0 <= k < head.len() && (#[trigger] head[k]).names(name);
                    assert(more[k].names(name));
                }
                if values@[i as int].names(name) {
                    assert(more[i as int].names(name));
                }
            }
            assert forall|name: Seq<char>| #[trigger]
                views(out@).contains(name) <==> before.contains(name) || any_names(more, name) by {
                assert(so_far.contains(name) <==> before.contains(name) || any_names(head, name));
            }
        }
        i += 1;
    }
    assert(values@.take(i as int) =~= values@);
}

/// Adds the types that the messages inside a value name.
pub fn collect_any_types_from_value(value: &ValueTree, out: &mut Vec<String>)
    requires
        views(old(out)@).no_duplicates(),
    ensures
        forall|name: Seq<char>| #[trigger]
            views(final(out)@).contains(name) <==> views(old(out)@).contains(name) || exists|
                inner: MessageTree,
            | #[trigger]
                is_in_value(inner, *value) && is_any_of(inner, name),
        views(final(out)@).no_duplicates(),
        collected(views(old(out)@), |name: Seq<char>| value.names(name), views(final(out)@)),
    decreases value,
{
    let ghost before = views(out@);
    match value {
        ValueTree::Message(message) => collect_any_types_from_dynamic_message(message, out),
        ValueTree::List(values) => collect_any_types_from_values(values, out),
        ValueTree::Entries(values) => collect_any_types_from_values(values, out),
        ValueTree::Scalar => {},
    }
    proof {
        assert forall|name: Seq<char>| #[trigger] views(out@).contains(name) <==> before.contains(
            name,
        ) || exists|inner: MessageTree| #[trigger]
            is_in_value(inner, *value) && is_any_of(inner, name) by {
            law_a_value_names_the_types_of_the_anys_in_it(*value, name);
            assert(views(out@).contains(name) <==> before.contains(name) || value.names(name));
        }
    }
}

/// An `Any` names the type that its type URL ends with, behind the last slash, whatever else is set
/// in it.
pub proof fn law_an_any_names_the_type_in_its_url(
    message: MessageTree,
    prefix: Seq<char>,
    name: Seq<char>,
)
    requires
        message.full_name@ == "google.protobuf.Any"@,
        message.type_url is Some,
        message.type_url->0@ == prefix + seq!['/'] + name,
        !name.contains('/'),
    ensures
        message.names(name),
{
    law_split_last_takes_apart_what_was_joined(prefix, '/', name);
}

/// Whether a message is another, or one inside it, at any depth: in a field, in a list or among the
/// entries of a map.
pub open spec fn is_in_message(inner: MessageTree, outer: MessageTree) -> bool
    decreases outer,
{
    inner == outer || exists|i: int|
        0 <= i < outer.fields@.len() && is_in_value(inner, #[trigger] outer.fields@[i])
}

/// Whether a message is in a value, at any depth.
pub open spec fn is_in_value(inner: MessageTree, value: ValueTree) -> bool
    decreases value,
{
    match value {
        ValueTree::Message(message) => is_in_message(inner, message),
        ValueTree::List(values) => exists|i: int|
            0 <= i < values@.len() && is_in_value(inner, #[trigger] values@[i]),
        ValueTree::Entries(values) => exists|i: int|
            0 <= i < values@.len() && is_in_value(inner, #[trigger] values@[i]),
        ValueTree::Scalar => false,
    }
}

/// Whether a message is an `Any` whose type URL is a name behind a slash.
pub open spec fn is_any_of(message: MessageTree, name: Seq<char>) -> bool {
    &&& message.full_name@ == "google.protobuf.Any"@
    &&& message.type_url is Some
    &&& exists|prefix: Seq<char>|
        message.type_url->0@ == #[trigger] (prefix + seq!['/'] + name)
    &&& !name.contains('/')
}

/// A message names a type of its own exactly if it is an `Any` of it.
proof fn lemma_own_type(message: MessageTree, name: Seq<char>)
    ensures
        message.own_type() == Some(name) <==> is_any_of(message, name),
{
    if is_any_of(message, name) {
        let prefix = choose|prefix: Seq<char>|
            message.type_url->0@ == #[trigger] (prefix + seq!['/'] + name);
        law_split_last_takes_apart_what_was_joined(prefix, '/', name);
    }
    if message.own_type() == Some(name) {
        let url = message.type_url->0@;
        law_split_last_joins(url, '/');
        let (prefix, _) = split_last(url, '/')->0;
        assert(url =~= prefix + seq!['/'] + name);
    }
}

/// The types that a message names are those of the `Any` messages in it, at any depth, and no others.
pub proof fn law_a_message_names_the_types_of_the_anys_in_it(message: MessageTree, name: Seq<char>)
    ensures
        message.names(name) <==> exists|inner: MessageTree| #[trigger]
            is_in_message(inner, message) && is_any_of(inner, name),
    decreases message,
{
    lemma_own_type(message, name);
    assert forall|i: int| 0 <= i < message.fields@.len() implies ((
    #[trigger] message.fields@[i]).names(name) <==> exists|inner: MessageTree| #[trigger]
        is_in_value(inner, message.fields@[i]) && is_any_of(inner, name)) by {
        law_a_value_names_the_types_of_the_anys_in_it(message.fields@[i], name);
    }
    if message.own_type() == Some(name) {
        assert(is_in_message(message, message));
    } else if message.names(name) {
        let i = choose|i: int|
            0 <= i < message.fields@.len() && (#[trigger] message.fields@[i]).names(name);
        let inner = choose|inner: MessageTree| #[trigger]
            is_in_value(inner, message.fields@[i]) && is_any_of(inner, name);
        assert(is_in_message(inner, message));
    }
    if exists|inner: MessageTree| #[trigger]
        is_in_message(inner, message) && is_any_of(inner, name) {
        let inner = choose|inner: MessageTree| #[trigger]
            is_in_message(inner, message) && is_any_of(inner, name);
        if inner != message {
            let i = choose|i: int|
                0 <= i < message.fields@.len() && is_in_value(inner, #[trigger] message.fields@[i]);
            assert(message.fields@[i].names(name));
        }
    }
}

/// The types that a value names are those of the `Any` messages in it, at any depth, and no others.
pub proof fn law_a_value_names_the_types_of_the_anys_in_it(value: ValueTree, name: Seq<char>)
    ensures
        value.names(name) <==> exists|inner: MessageTree| #[trigger]
            is_in_value(inner, value) && is_any_of(inner, name),
    decreases value,
{
    match value {
        ValueTree::Message(message) => {
            law_a_message_names_the_types_of_the_anys_in_it(message, name);
            if message.names(name) {
                let inner = choose|inner: MessageTree| #[trigger]
                    is_in_message(inner, message) && is_any_of(inner, name);
                assert(is_in_value(inner, value));
            }
            if exists|inner: MessageTree| #[trigger]
                is_in_value(inner, value) && is_any_of(inner, name) {
                let inner = choose|inner: MessageTree| #[trigger]
                    is_in_value(inner, value) && is_any_of(inner, name);
                assert(is_in_message(inner, message));
            }
        },
        ValueTree::List(values) => {
            assert forall|i: int| 0 <= i < values@.len() implies ((
            #[trigger] values@[i]).names(name) <==> exists|inner: MessageTree| #[trigger]
                is_in_value(inner, values@[i]) && is_any_of(inner, name)) by {
                law_a_value_names_the_types_of_the_anys_in_it(values@[i], name);
            }
            if value.names(name) {
                let i = choose|i: int|
                    0 <= i < values@.len() && (#[trigger] values@[i]).names(name);
                let inner = choose|inner: MessageTree| #[trigger]
                    is_in_value(inner, values@[i]) && is_any_of(inner, name);
                assert(is_in_value(inner, value));
            }
            if exists|inner: MessageTree| #[trigger]
                is_in_value(inner, value) && is_any_of(inner, name) {
                let inner = choose|inner: MessageTree| #[trigger]
                    is_in_value(inner, value) && is_any_of(inner, name);
                let i = choose|i: int|
                    0 <= i < values@.len() && is_in_value(inner, #[trigger] values@[i]);
                assert(values@[i].names(name));
            }
        },
        ValueTree::Entries(values) => {
            assert forall|i: int| 0 <= i < values@.len() implies ((
            #[trigger] values@[i]).names(name) <==> exists|inner: MessageTree| #[trigger]
                is_in_value(inner, values@[i]) && is_any_of(inner, name)) by {
                law_a_value_names_the_types_of_the_anys_in_it(values@[i], name);
            }
            if value.names(name) {
                let i = choose|i: int|
                    0 <= i < values@.len() && (#[trigger] values@[i]).names(name);
                let inner = choose|inner: MessageTree| #[trigger]
                    is_in_value(inner, values@[i]) && is_any_of(inner, name);
                assert(is_in_value(inner, value));
            }
            if exists|inner: MessageTree| #[trigger]
                is_in_value(inner, value) && is_any_of(inner, name) {
                let inner = choose|inner: MessageTree| #[trigger]
                    is_in_value(inner, value) && is_any_of(inner, name);
                let i = choose|i: int|
                    0 <= i < values@.len() && is_in_value(inner, #[trigger] values@[i]);
                assert(values@[i].names(name));
            }
        },
        ValueTree::Scalar => {},
    }
}

/// A message names what its own URL names, if it is an `Any`, and what a value of a field in it
/// names, whatever else it holds; and nothing else. The values of lists and of maps are gone through
/// one by one.
pub proof fn law_naming_goes_down_to_all_that_is_inside(
    message: MessageTree,
    value: ValueTree,
    name: Seq<char>,
)
    ensures
        message.names(name) <==> {
            ||| message.full_name@ == "google.protobuf.Any"@ && message.type_url is Some
                && !name.contains('/') && exists|prefix: Seq<char>|
                message.type_url->0@ == #[trigger] (prefix + seq!['/'] + name)
            ||| exists|i: int|
                0 <= i < message.fields@.len() && (#[trigger] message.fields@[i]).names(name)
        },
        value.names(name) <==> match value {
            ValueTree::Message(inner) => inner.names(name),
            ValueTree::List(values) => exists|i: int|
                0 <= i < values@.len() && (#[trigger] values@[i]).names(name),
            ValueTree::Entries(values) => exists|i: int|
                0 <= i < values@.len() && (#[trigger] values@[i]).names(name),
            ValueTree::Scalar => false,
        },
{
    if let Some(url) = message.type_url {
        law_split_last_joins(url@, '/');
        if let Some((before, after)) = split_last(url@, '/') {
            assert(before.push('/') + after =~= before + seq!['/'] + after);
        }
        if !name.contains('/') && exists|prefix: Seq<char>|
            url@ == #[trigger] (prefix + seq!['/'] + name) {
            let prefix = choose|prefix: Seq<char>|
                url@ == #[trigger] (prefix + seq!['/'] + name);
            law_split_last_takes_apart_what_was_joined(prefix, '/', name);
        }
    }
}

} // verus!
