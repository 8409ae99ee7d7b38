//! Which files a pool can look at, in the terms of what the files hold.

use crate::declarations::{
    declares_options, has_enum, is_broken, is_key, is_value, joined,
    law_options_are_read_by_messages_of_these_names, marks_map_entry, option_fits, options_of,
    Optional,
};
use crate::dynamic::{decoded, lemma_kinds, lemma_names_differ, Contents, Item, Schema};
use crate::editions::lowered;
use crate::error::Error;
use crate::escape::{law_other_characters_are_read_as_they_are, unescapes};
use crate::imports::{
    imports_of, law_imports_without_circles_come_to_an_end, name_in, passes_on,
};
use crate::notes::{
    all_field_notes, all_notes, field_notes, file_notes, item_notes, link_notes, list_notes,
    message_notes, own_notes, NoteModel,
};
use crate::pool::{
    declares, file_declares, is_added, item_declares, law_additions_are_what_they_say,
    message_declares,
};
use crate::reach::{is_harmless, is_sealed, uses};
use crate::readable::{has_readable_options, law_files_without_options_reach_nothing, readable};
use crate::reading::{integer_in, lemma_get_is_of, messages_in, text_in, texts_in};
use crate::rules::{file_keeps, fits, is_plain_option, item_keeps, keeps, Rule};
use vstd::prelude::*;

verus! {

/// Whether something holds of a declaration, and of all that is declared in it at any depth.
pub open spec fn everywhere(c: Contents, holds: spec_fn(Contents) -> bool) -> bool
    decreases c,
{
    &&& holds(c)
    &&& forall|name: Seq<char>| #[trigger]
        c.fields.contains_key(name) ==> everywhere_in(c.fields[name], holds)
}

/// Whether something holds of the messages of a value, and of all that is declared in them at any
/// depth.
pub open spec fn everywhere_in(item: Item, holds: spec_fn(Contents) -> bool) -> bool
    decreases item,
{
    match item {
        Item::Message(message) => everywhere(message, holds),
        Item::List(list) => forall|i: int|
            0 <= i < list.len() ==> match #[trigger] list[i] {
                Item::Message(message) => everywhere(message, holds),
                _ => true,
            },
        _ => true,
    }
}

/// Whether a file names no syntax, or one of the two that pools know.
pub open spec fn is_of_known_syntax(file: Contents) -> bool {
    !file.has("syntax"@) || file.get("syntax"@) == Item::Text("proto2"@) || file.get("syntax"@)
        == Item::Text("proto3"@)
}

/// Whether a declaration is that of a field for bytes.
pub open spec fn is_for_bytes(d: Contents) -> bool {
    d.schema == Schema::Field && d.get("type"@) == Item::Number(12) && match d.get("type_name"@) {
        Item::Text(name) => name.len() == 0,
        _ => true,
    }
}

/// Whether the default of a declaration has no escapes, if it is that of a field for bytes.
pub open spec fn has_plain_default(d: Contents) -> bool {
    is_for_bytes(d) ==> match d.get("default_value"@) {
        Item::Text(text) => forall|i: int| 0 <= i < text.len() ==> #[trigger] text[i] != '\\',
        _ => true,
    }
}

/// Whether a full name is that of a message by which options are read.
pub open spec fn is_name_of_options(full: Seq<char>) -> bool {
    ||| full == "google.protobuf.FileOptions"@
    ||| full == "google.protobuf.MessageOptions"@
    ||| full == "google.protobuf.FieldOptions"@
    ||| full == "google.protobuf.OneofOptions"@
    ||| full == "google.protobuf.EnumOptions"@
    ||| full == "google.protobuf.EnumValueOptions"@
    ||| full == "google.protobuf.ServiceOptions"@
    ||| full == "google.protobuf.MethodOptions"@
    ||| full == "google.protobuf.ExtensionRangeOptions"@
}

/// A rule is kept exactly if each declaration, at any depth, keeps it by itself.
proof fn lemma_keeps(c: Contents, rule: Rule, holds: spec_fn(Contents) -> bool)
    requires
        forall|d: Contents| holds(d) <==> #[trigger] fits(d, rule),
    ensures
        keeps(c, rule) <==> everywhere(c, holds),
    decreases c,
{
    assert(holds(c) <==> fits(c, rule));
    assert forall|name: Seq<char>| #[trigger] c.fields.contains_key(name) implies item_keeps(
        c.fields[name],
        rule,
    ) == everywhere_in(c.fields[name], holds) by {
        let item = c.fields[name];
        assert(decreases_to!(c => c.fields[name]));
        match item {
            Item::Message(message) => lemma_keeps(message, rule, holds),
            Item::List(list) => {
                assert forall|i: int| 0 <= i < list.len() implies match #[trigger] list[i] {
                    Item::Message(message) => keeps(message, rule) == everywhere(message, holds),
                    _ => true,
                } by {
                    if let Item::Message(message) = list[i] {
                        assert(decreases_to!(list => list[i]));
                        lemma_keeps(message, rule, holds);
                    }
                }
                if item_keeps(item, rule) {
                    assert forall|i: int| 0 <= i < list.len() implies match #[trigger] list[i] {
                        Item::Message(message) => everywhere(message, holds),
                        _ => true,
                    } by {}
                }
                if everywhere_in(item, holds) {
                    assert forall|i: int| 0 <= i < list.len() implies match #[trigger] list[i] {
                        Item::Message(message) => keeps(message, rule),
                        _ => true,
                    } by {}
                }
            },
            _ => {},
        }
    }
}

/// What holds everywhere does so where less is asked.
proof fn lemma_everywhere(
    c: Contents,
    holds: spec_fn(Contents) -> bool,
    less: spec_fn(Contents) -> bool,
)
    requires
        everywhere(c, holds),
        forall|d: Contents| #[trigger] holds(d) ==> less(d),
    ensures
        everywhere(c, less),
    decreases c,
{
    assert(holds(c));
    assert forall|name: Seq<char>| #[trigger] c.fields.contains_key(name) implies everywhere_in(
        c.fields[name],
        less,
    ) by {
        assert(decreases_to!(c => c.fields[name]));
        assert(everywhere_in(c.fields[name], holds));
        match c.fields[name] {
            Item::Message(message) => lemma_everywhere(message, holds, less),
            Item::List(list) => {
                assert forall|i: int| 0 <= i < list.len() implies match #[trigger] list[i] {
                    Item::Message(message) => everywhere(message, less),
                    _ => true,
                } by {
                    if let Item::Message(message) = list[i] {
                        assert(decreases_to!(list => list[i]));
                        lemma_everywhere(message, holds, less);
                    }
                }
            },
            _ => {},
        }
    }
}

/// Nothing in a file has options of a kind exactly if no declaration of that kind, at any depth, sets
/// its options.
pub proof fn law_options_are_what_declarations_set(c: Contents, of: Optional)
    ensures
        file_keeps(c, Rule::Without(of)) <==> everywhere(
            c,
            |d: Contents|
                d.schema == match of {
                    Optional::File => Schema::File,
                    Optional::Message => Schema::Message,
                    Optional::Field => Schema::Field,
                    Optional::Oneof => Schema::Oneof,
                    Optional::Enumeration => Schema::Enumeration,
                    Optional::EnumValue => Schema::EnumValue,
                    Optional::Service => Schema::Service,
                    Optional::Method => Schema::Method,
                    Optional::ExtensionRange => Schema::ExtensionRange,
                } ==> !d.has("options"@),
        ),
        everywhere(c, |d: Contents| !d.has("options"@)) ==> file_keeps(c, Rule::Without(of)),
{
    let rule = Rule::Without(of);
    let without = |d: Contents|
        d.schema == match of {
            Optional::File => Schema::File,
            Optional::Message => Schema::Message,
            Optional::Field => Schema::Field,
            Optional::Oneof => Schema::Oneof,
            Optional::Enumeration => Schema::Enumeration,
            Optional::EnumValue => Schema::EnumValue,
            Optional::Service => Schema::Service,
            Optional::Method => Schema::Method,
            Optional::ExtensionRange => Schema::ExtensionRange,
        } ==> !d.has("options"@);
    assert forall|d: Contents| without(d) <==> #[trigger] fits(d, rule) by {}
    lemma_keeps(c, rule, without);
    let none = |d: Contents| !d.has("options"@);
    if everywhere(c, none) {
        assert forall|d: Contents| #[trigger] none(d) implies without(d) by {}
        lemma_everywhere(c, none, without);
    }
}

/// The defaults of a file can be read exactly if, at any depth, the escapes in that of each field for
/// bytes can.
pub proof fn law_defaults_for_bytes_are_read(c: Contents)
    requires
        c.typed(),
    ensures
        everywhere(c, |d: Contents| has_plain_default(d)) ==> file_keeps(c, Rule::Defaults),
        file_keeps(c, Rule::Defaults) ==> everywhere(
            c,
            |d: Contents|
                is_for_bytes(d) ==> match d.get("default_value"@) {
                    Item::Text(text) => unescapes(text),
                    _ => true,
                },
        ),
{
    let holds = |d: Contents| fits(d, Rule::Defaults);
    assert forall|d: Contents| holds(d) <==> #[trigger] fits(d, Rule::Defaults) by {}
    lemma_keeps(c, Rule::Defaults, holds);
    let plain = |d: Contents| has_plain_default(d);
    if everywhere(c, plain) {
        assert forall|d: Contents| #[trigger] plain(d) implies holds(d) by {
            let text = text_in(d, "default_value"@);
            if is_for_bytes(d) {
                law_other_characters_are_read_as_they_are(text, Seq::empty());
            }
        }
        lemma_everywhere(c, plain, holds);
    }
    let read = |d: Contents|
        is_for_bytes(d) ==> match d.get("default_value"@) {
            Item::Text(text) => unescapes(text),
            _ => true,
        };
    if file_keeps(c, Rule::Defaults) {
        assert forall|d: Contents| #[trigger] holds(d) implies read(d) by {}
        lemma_everywhere(c, holds, read);
    }
}

/// A message for options is one of those that go by the names.
proof fn lemma_names_of_options(of: Optional, full: Seq<char>)
    ensures
        is_name_of_options(of.message()),
        options_of(full) == Some(of) ==> full == of.message(),
{
}

/// Nothing that is noted of fields is noted of a message for options.
proof fn lemma_notes_of_fields(fields: Seq<Contents>, within: Option<Seq<char>>)
    ensures
        forall|i: int|
            0 <= i < all_field_notes(fields, within).len() ==> !(#[trigger] all_field_notes(
                fields,
                within,
            )[i] is Options),
    decreases fields.len(),
{
    if fields.len() > 0 {
        lemma_notes_of_fields(fields.drop_last(), within);
        let field = fields.last();
        let notes = field_notes(field, within);
        assert forall|i: int| 0 <= i < notes.len() implies !(#[trigger] notes[i] is Options) by {
            if let Some(full) = within {
                assert(link_notes(full, field).len() <= 1);
            }
        }
    }
}

/// What is noted of a message for options is noted where that is declared.
proof fn lemma_notes_of_message(c: Contents, scope: Seq<char>, i: int)
    requires
        0 <= i < message_notes(c, scope).len(),
    ensures
        match message_notes(c, scope)[i] {
            NoteModel::Options(of, _, _) => message_declares(c, scope, of.message()),
            _ => true,
        },
    decreases c,
{
    let full = joined(scope, text_in(c, "name"@));
    let own = own_notes(c, full);
    let fields = all_field_notes(messages_in(c, "field"@), Some(full));
    let extensions = all_field_notes(messages_in(c, "extension"@), None);
    lemma_notes_of_fields(messages_in(c, "field"@), Some(full));
    lemma_notes_of_fields(messages_in(c, "extension"@), None);
    let at = i - own.len() - fields.len() - extensions.len();
    if i < own.len() {
        if let NoteModel::Options(of, _, _) = own[i] {
            lemma_names_of_options(of, full);
        }
    } else if i < own.len() + fields.len() {
        assert(message_notes(c, scope)[i] == fields[i - own.len()]);
    } else if at < 0 {
        assert(message_notes(c, scope)[i] == extensions[i - own.len() - fields.len()]);
    } else if c.fields.contains_key("nested_type"@) {
        assert(decreases_to!(c => c.fields["nested_type"@]));
        let nested = c.fields["nested_type"@];
        assert(message_notes(c, scope)[i] == item_notes(nested, full)[at]);
        if let Item::List(list) = nested {
            lemma_notes_of_list(list, full, at);
        }
    }
}

/// What is noted of a message for options is noted where that is declared.
proof fn lemma_notes_of_list(list: Seq<Item>, scope: Seq<char>, i: int)
    requires
        0 <= i < list_notes(list, scope).len(),
    ensures
        match list_notes(list, scope)[i] {
            NoteModel::Options(of, _, _) => item_declares(Item::List(list), scope, of.message()),
            _ => true,
        },
    decreases list,
{
    let head = list.drop_last();
    let before = list_notes(head, scope);
    if i < before.len() {
        lemma_notes_of_list(head, scope, i);
        if let NoteModel::Options(of, _, _) = before[i] {
            let j = choose|j: int|
                0 <= j < head.len() && match #[trigger] head[j] {
                    Item::Message(message) => message_declares(message, scope, of.message()),
                    _ => false,
                };
            assert(list[j] == head[j]);
        }
    } else {
        let end = list.len() - 1;
        if let Item::Message(message) = list[end] {
            assert(decreases_to!(list => list[end]));
            lemma_notes_of_message(message, scope, i - before.len());
            assert(list_notes(list, scope)[i] == message_notes(message, scope)[i - before.len()]);
        }
    }
}

/// What is noted of a message for options is noted where one of the files declares that.
proof fn lemma_notes_of_files(files: Seq<Contents>, i: int)
    requires
        0 <= i < all_notes(files).len(),
    ensures
        match all_notes(files)[i] {
            NoteModel::Options(of, _, _) => declares(files, of.message()),
            _ => true,
        },
    decreases files.len(),
{
    if files.len() > 0 {
        let head = files.drop_last();
        let before = all_notes(head);
        if i < before.len() {
            lemma_notes_of_files(head, i);
            if let NoteModel::Options(of, _, _) = before[i] {
                let j = choose|j: int|
                    0 <= j < head.len() && file_declares(#[trigger] head[j], of.message());
                assert(file_declares(files[j], of.message()));
            }
        } else {
            let c = files.last();
            let extensions = all_field_notes(messages_in(c, "extension"@), None);
            lemma_notes_of_fields(messages_in(c, "extension"@), None);
            let at = i - before.len() - extensions.len();
            assert(all_notes(files)[i] == file_notes(c)[i - before.len()]);
            if at < 0 {
                assert(file_notes(c)[i - before.len()] == extensions[i - before.len()]);
            } else if let Item::List(list) = c.get("message_type"@) {
                lemma_notes_of_list(list, text_in(c, "package"@), at);
                assert(file_notes(c)[i - before.len()] == list_notes(
                    list,
                    text_in(c, "package"@),
                )[at]);
                assert(files[files.len() - 1] == c);
            }
        }
    }
}

/// Options can be looked at where no file declares a message by which options are read.
proof fn lemma_options_are_looked_at(files: Seq<Contents>, at: int)
    requires
        forall|full: Seq<char>| is_name_of_options(full) ==> !#[trigger] declares(files, full),
    ensures
        has_readable_options(files, at),
{
    let notes = all_notes(files);
    assert forall|i: int| 0 <= i < notes.len() implies !(#[trigger] notes[i] is Options) by {
        lemma_notes_of_files(files, i);
        if let NoteModel::Options(of, _, _) = notes[i] {
            lemma_names_of_options(of, of.message());
        }
    }
    let none = Set::<Seq<char>>::empty();
    assert(is_sealed(notes, files[at], none));
    assert(is_harmless(notes, none, file_keeps(files[at], Rule::Plain)));
}

/// Whether something holds of each message of a value and of each that is declared in them at any
/// depth, and of its full name.
pub open spec fn all_declared(
    item: Item,
    scope: Seq<char>,
    holds: spec_fn(Contents, Seq<char>) -> bool,
) -> bool
    decreases item,
{
    match item {
        Item::List(list) => forall|i: int|
            0 <= i < list.len() ==> match #[trigger] list[i] {
                Item::Message(message) => all_declared_in(message, scope, holds),
                _ => true,
            },
        _ => true,
    }
}

/// Whether something holds of a message within a scope and of each that is declared in it at any
/// depth, and of its full name.
pub open spec fn all_declared_in(
    message: Contents,
    scope: Seq<char>,
    holds: spec_fn(Contents, Seq<char>) -> bool,
) -> bool
    decreases message,
{
    let name = match message.get("name"@) {
        Item::Text(name) => name,
        _ => Seq::empty(),
    };
    let full = if scope.len() == 0 {
        name
    } else {
        scope + "."@ + name
    };
    &&& holds(message, full)
    &&& message.fields.contains_key("nested_type"@) ==> all_declared(
        message.fields["nested_type"@],
        full,
        holds,
    )
}

/// What `descriptor.proto` has as the option of a number.
pub enum Expected {
    Text,
    Flag,
    /// A value of an enum that is declared in the message for the options.
    Enum(Seq<char>),
    /// Something that pools do not know.
    Any,
}

/// What `descriptor.proto` has as the option of a number, in the message of a full name.
pub open spec fn expected(full: Seq<char>, n: int) -> Expected {
    if full == "google.protobuf.FileOptions"@ {
        if n == 1 || n == 8 || n == 11 || 36 <= n <= 37 || 39 <= n <= 41 || 44 <= n <= 45 {
            Expected::Text
        } else if n == 10 || 16 <= n <= 18 || n == 20 || n == 23 || n == 27 || n == 31 || n == 42 {
            Expected::Flag
        } else if n == 9 {
            Expected::Enum("OptimizeMode"@)
        } else {
            Expected::Any
        }
    } else if full == "google.protobuf.FieldOptions"@ {
        if n == 1 {
            Expected::Enum("CType"@)
        } else if n == 6 {
            Expected::Enum("JSType"@)
        } else if 2 <= n <= 3 || n == 5 || n == 10 {
            Expected::Flag
        } else {
            Expected::Any
        }
    } else if full == "google.protobuf.MethodOptions"@ && n == 34 {
        Expected::Enum("IdempotencyLevel"@)
    } else if full == "google.protobuf.MessageOptions"@ && (1 <= n <= 3 || n == 7) || full
        == "google.protobuf.EnumOptions"@ && 2 <= n <= 3 || full
        == "google.protobuf.EnumValueOptions"@ && n == 1 || full
        == "google.protobuf.ServiceOptions"@ && n == 33 || full == "google.protobuf.MethodOptions"@
        && n == 33 {
        Expected::Flag
    } else {
        Expected::Any
    }
}

/// Whether the type of a field goes by no name.
pub open spec fn has_unnamed_type(field: Contents, ty: i32) -> bool {
    field.get("type"@) == Item::Number(ty) && match field.get("type_name"@) {
        Item::Text(name) => name.len() == 0,
        _ => true,
    }
}

/// Whether a message declares an enum of a name.
pub open spec fn declares_enum(message: Contents, name: Seq<char>) -> bool {
    match message.get("enum_type"@) {
        Item::List(list) => exists|i: int|
            0 <= i < list.len() && match #[trigger] list[i] {
                Item::Message(declared) => declared.get("name"@) == Item::Text(name),
                _ => false,
            },
        _ => false,
    }
}

/// Whether a field of the message for options of a full name is as `descriptor.proto` has the option
/// of its number.
pub open spec fn is_as_expected(message: Contents, full: Seq<char>, field: Contents) -> bool {
    let n: int = match field.get("number"@) {
        Item::Integer(n) => n as int,
        _ => 0,
    };
    &&& match expected(full, n) {
        Expected::Text => field.get("label"@) != Item::Number(3) && has_unnamed_type(field, 9),
        Expected::Flag => field.get("label"@) != Item::Number(3) && has_unnamed_type(field, 8),
        Expected::Enum(name) => field.get("label"@) != Item::Number(3) && field.get("type_name"@)
            == Item::Text("."@ + full + "."@ + name) && declares_enum(message, name),
        Expected::Any => true,
    }
    &&& full == "google.protobuf.MessageOptions"@ && n == 7 ==> field.get("name"@) == Item::Text(
        "map_entry"@,
    )
}

/// Whether a message that may be the entry of a map has a key and a value: a field of the number 1
/// that is an integer, a flag or a text, and a field of the number 2.
pub open spec fn is_whole(message: Contents) -> bool {
    match message.get("options"@) {
        Item::Message(options) => options.get("map_entry"@) == Item::Flag(true) || options.get(
            "uninterpreted_option"@,
        ) != Item::List(Seq::empty()) ==> match message.get("field"@) {
            Item::List(list) => {
                &&& exists|i: int|
                    0 <= i < list.len() && match #[trigger] list[i] {
                        Item::Message(field) => field.get("number"@) == Item::Integer(1) && exists|
                            ty: i32,
                        | #[trigger]
                            has_unnamed_type(field, ty) && 3 <= ty <= 18 && ty != 10 && ty != 11
                                && ty != 12 && ty != 14,
                        _ => false,
                    }
                &&& exists|i: int|
                    0 <= i < list.len() && match #[trigger] list[i] {
                        Item::Message(field) => field.get("number"@) == Item::Integer(2),
                        _ => false,
                    }
            },
            _ => false,
        },
        _ => true,
    }
}

/// Whether a message of a full name is declared as it must be: the entry of a map is whole, and a
/// message for options is as `descriptor.proto` has it, with numbers from 1000 on for extensions.
pub open spec fn is_well_declared(message: Contents, full: Seq<char>) -> bool {
    &&& is_whole(message)
    &&& is_name_of_options(full) ==> {
        &&& match message.get("field"@) {
            Item::List(list) => forall|i: int|
                0 <= i < list.len() ==> match #[trigger] list[i] {
                    Item::Message(field) => is_as_expected(message, full, field),
                    _ => true,
                },
            _ => true,
        }
        &&& match message.get("extension_range"@) {
            Item::List(list) => forall|i: int|
                0 <= i < list.len() ==> match #[trigger] list[i] {
                    Item::Message(range) => match range.get("start"@) {
                        Item::Integer(start) => start >= 1000,
                        _ => false,
                    },
                    _ => false,
                },
            _ => true,
        }
    }
}

/// Whether all messages of a file are declared as they must be.
pub open spec fn is_well_declared_file(file: Contents) -> bool {
    all_declared(
        file.get("message_type"@),
        match file.get("package"@) {
            Item::Text(package) => package,
            _ => Seq::empty(),
        },
        |message: Contents, full: Seq<char>| is_well_declared(message, full),
    )
}

/// A field that is as it is expected is one that a pool can read.
proof fn lemma_as_expected(message: Contents, of: Optional, field: Contents)
    requires
        is_as_expected(message, of.message(), field),
    ensures
        option_fits(field, of, of.message(), messages_in(message, "enum_type"@)),
{
    reveal_strlit(".");
    let full = of.message();
    lemma_lengths_of_names();
    law_options_are_read_by_messages_of_these_names(full);
    assert(options_of(full) == Some(of));
    if let Expected::Enum(name) = expected(full, integer_in(field, "number"@) as int) {
        assert("."@ + full + "."@ + name =~= seq!['.'] + joined(full, name));
        let list = message.get("enum_type"@)->List_0;
        let i = choose|i: int|
            0 <= i < list.len() && match #[trigger] list[i] {
                Item::Message(declared) => declared.get("name"@) == Item::Text(name),
                _ => false,
            };
        assert(text_in(messages_in(message, "enum_type"@)[i], "name"@) == name);
        assert(has_enum(messages_in(message, "enum_type"@), name));
    }
}

/// The names of messages for options are not empty.
proof fn lemma_lengths_of_names()
    ensures
        forall|of: Optional| (#[trigger] of.message()).len() > 0,
{
    reveal_strlit("google.protobuf.FileOptions");
    reveal_strlit("google.protobuf.MessageOptions");
    reveal_strlit("google.protobuf.FieldOptions");
    reveal_strlit("google.protobuf.OneofOptions");
    reveal_strlit("google.protobuf.EnumOptions");
    reveal_strlit("google.protobuf.EnumValueOptions");
    reveal_strlit("google.protobuf.ServiceOptions");
    reveal_strlit("google.protobuf.MethodOptions");
    reveal_strlit("google.protobuf.ExtensionRangeOptions");
}

/// What is noted of a message that is declared as it must be does no harm.
proof fn lemma_well_declared(c: Contents, full: Seq<char>)
    requires
        is_well_declared(c, full),
    ensures
        !is_broken(c),
        options_of(full) matches Some(of) ==> declares_options(c, of, full),
{
    if let Item::Message(options) = c.get("options"@) {
        if marks_map_entry(options) {
            let list = c.get("field"@)->List_0;
            let fields = messages_in(c, "field"@);
            let i = choose|i: int|
                0 <= i < list.len() && match #[trigger] list[i] {
                    Item::Message(field) => field.get("number"@) == Item::Integer(1) && exists|
                        ty: i32,
                    | #[trigger]
                        has_unnamed_type(field, ty) && 3 <= ty <= 18 && ty != 10 && ty != 11 && ty
                            != 12 && ty != 14,
                    _ => false,
                };
            assert(is_key(fields[i]));
            let j = choose|i: int|
                0 <= i < list.len() && match #[trigger] list[i] {
                    Item::Message(field) => field.get("number"@) == Item::Integer(2),
                    _ => false,
                };
            assert(is_value(fields[j]));
        }
    }
    if let Some(of) = options_of(full) {
        lemma_names_of_options(of, full);
        let fields = messages_in(c, "field"@);
        assert forall|i: int| 0 <= i < fields.len() implies option_fits(
            #[trigger] fields[i],
            of,
            full,
            messages_in(c, "enum_type"@),
        ) by {
            let list = c.get("field"@)->List_0;
            if let Item::Message(field) = list[i] {
                lemma_as_expected(c, of, field);
            }
        }
        let ranges = messages_in(c, "extension_range"@);
        assert forall|i: int| 0 <= i < ranges.len() implies integer_in(
            #[trigger] ranges[i],
            "start"@,
        ) >= 1000 by {
            let list = c.get("extension_range"@)->List_0;
            assert(list[i] is Message);
        }
    }
}

/// Whether a note is of nothing that is not declared as it must be.
spec fn is_good(note: NoteModel) -> bool {
    match note {
        NoteModel::Options(_, _, fits) => fits,
        NoteModel::Broken(_) => false,
        _ => true,
    }
}

/// What is noted of fields is good.
proof fn lemma_good_fields(fields: Seq<Contents>, within: Option<Seq<char>>)
    ensures
        forall|i: int|
            0 <= i < all_field_notes(fields, within).len() ==> is_good(
                #[trigger] all_field_notes(fields, within)[i],
            ),
    decreases fields.len(),
{
    if fields.len() > 0 {
        lemma_good_fields(fields.drop_last(), within);
        let field = fields.last();
        let notes = field_notes(field, within);
        assert forall|i: int| 0 <= i < notes.len() implies is_good(#[trigger] notes[i]) by {
            if let Some(full) = within {
                assert(link_notes(full, field).len() <= 1);
            }
        }
        let before = all_field_notes(fields.drop_last(), within);
        let all = all_field_notes(fields, within);
        assert forall|i: int| 0 <= i < all.len() implies is_good(#[trigger] all[i]) by {
            if i < before.len() {
                assert(is_good(before[i]));
            } else {
                assert(is_good(notes[i - before.len()]));
            }
        }
    }
}

/// What is noted of a message is good, if that is declared as it must be.
proof fn lemma_good_message(c: Contents, scope: Seq<char>, i: int)
    requires
        0 <= i < message_notes(c, scope).len(),
        all_declared_in(
            c,
            scope,
            |message: Contents, full: Seq<char>| is_well_declared(message, full),
        ),
    ensures
        is_good(message_notes(c, scope)[i]),
    decreases c,
{
    reveal_strlit(".");
    let full = joined(scope, text_in(c, "name"@));
    assert(scope + "."@ + text_in(c, "name"@) =~= scope + seq!['.'] + text_in(c, "name"@));
    lemma_well_declared(c, full);
    let own = own_notes(c, full);
    let fields = all_field_notes(messages_in(c, "field"@), Some(full));
    let extensions = all_field_notes(messages_in(c, "extension"@), None);
    lemma_good_fields(messages_in(c, "field"@), Some(full));
    lemma_good_fields(messages_in(c, "extension"@), None);
    let at = i - own.len() - fields.len() - extensions.len();
    if i < own.len() {
        assert(message_notes(c, scope)[i] == own[i]);
    } else if i < own.len() + fields.len() {
        assert(message_notes(c, scope)[i] == fields[i - own.len()]);
    } else if at < 0 {
        assert(message_notes(c, scope)[i] == extensions[i - own.len() - fields.len()]);
    } else if c.fields.contains_key("nested_type"@) {
        assert(decreases_to!(c => c.fields["nested_type"@]));
        let nested = c.fields["nested_type"@];
        assert(message_notes(c, scope)[i] == item_notes(nested, full)[at]);
        if let Item::List(list) = nested {
            lemma_good_list(list, full, at);
        }
    }
}

/// What is noted of messages is good, if they are declared as they must be.
proof fn lemma_good_list(list: Seq<Item>, scope: Seq<char>, i: int)
    requires
        0 <= i < list_notes(list, scope).len(),
        all_declared(
            Item::List(list),
            scope,
            |message: Contents, full: Seq<char>| is_well_declared(message, full),
        ),
    ensures
        is_good(list_notes(list, scope)[i]),
    decreases list,
{
    let head = list.drop_last();
    let before = list_notes(head, scope);
    if i < before.len() {
        assert forall|j: int| 0 <= j < head.len() implies match #[trigger] head[j] {
            Item::Message(message) => all_declared_in(
                message,
                scope,
                |message: Contents, full: Seq<char>| is_well_declared(message, full),
            ),
            _ => true,
        } by {
            assert(list[j] == head[j]);
        }
        lemma_good_list(head, scope, i);
    } else {
        let end = list.len() - 1;
        if let Item::Message(message) = list[end] {
            assert(decreases_to!(list => list[end]));
            lemma_good_message(message, scope, i - before.len());
            assert(list_notes(list, scope)[i] == message_notes(message, scope)[i - before.len()]);
        }
    }
}

/// What is noted of files is good, if all in them is declared as it must be.
proof fn lemma_good_files(files: Seq<Contents>, i: int)
    requires
        0 <= i < all_notes(files).len(),
        forall|k: int| 0 <= k < files.len() ==> is_well_declared_file(#[trigger] files[k]),
    ensures
        is_good(all_notes(files)[i]),
    decreases files.len(),
{
    if files.len() > 0 {
        let head = files.drop_last();
        let before = all_notes(head);
        if i < before.len() {
            assert forall|k: int| 0 <= k < head.len() implies is_well_declared_file(
                #[trigger] head[k],
            ) by {
                assert(is_well_declared_file(files[k]));
            }
            lemma_good_files(head, i);
        } else {
            let c = files.last();
            assert(is_well_declared_file(files[files.len() - 1]));
            let extensions = all_field_notes(messages_in(c, "extension"@), None);
            lemma_good_fields(messages_in(c, "extension"@), None);
            let at = i - before.len() - extensions.len();
            assert(all_notes(files)[i] == file_notes(c)[i - before.len()]);
            if at < 0 {
                assert(file_notes(c)[i - before.len()] == extensions[i - before.len()]);
            } else if let Item::List(list) = c.get("message_type"@) {
                lemma_good_list(list, text_in(c, "package"@), at);
                assert(file_notes(c)[i - before.len()] == list_notes(
                    list,
                    text_in(c, "package"@),
                )[at]);
            }
        }
    }
}

/// Whether a declaration is no option that is still to be read, or one that sets no extension, and
/// nothing that is nested more than a hundred levels deep.
pub open spec fn sets_no_extension(d: Contents) -> bool {
    d.schema == Schema::UninterpretedOption ==> match d.get("name"@) {
        Item::List(list) => list.len() <= 100 && forall|i: int|
            0 <= i < list.len() ==> match #[trigger] list[i] {
                Item::Message(part) => part.get("is_extension"@) == Item::Flag(false),
                _ => true,
            },
        _ => true,
    }
}

/// Options that set no extensions can be looked at where all is declared as it must be.
proof fn lemma_well_declared_options_are_looked_at(files: Seq<Contents>, at: int)
    requires
        everywhere(files[at], |d: Contents| sets_no_extension(d)),
        forall|i: int| 0 <= i < files.len() ==> is_well_declared_file(#[trigger] files[i]),
    ensures
        has_readable_options(files, at),
{
    let file = files[at];
    let notes = all_notes(files);
    assert forall|i: int| 0 <= i < notes.len() implies is_good(#[trigger] notes[i]) by {
        lemma_good_files(files, i);
    }
    let none = |d: Contents| sets_no_extension(d);
    let shallow = |d: Contents| fits(d, Rule::Shallow);
    let plain = |d: Contents| fits(d, Rule::Plain);
    assert forall|d: Contents| #[trigger] none(d) implies plain(d) by {
        if d.schema == Schema::UninterpretedOption {
            assert(is_plain_option(d));
        }
    }
    lemma_everywhere(file, none, shallow);
    lemma_everywhere(file, none, plain);
    assert forall|d: Contents| shallow(d) <==> #[trigger] fits(d, Rule::Shallow) by {}
    assert forall|d: Contents| plain(d) <==> #[trigger] fits(d, Rule::Plain) by {}
    lemma_keeps(file, Rule::Shallow, shallow);
    lemma_keeps(file, Rule::Plain, plain);
    let all = Set::<Seq<char>>::full();
    assert(is_sealed(notes, file, all));
    assert forall|i: int| 0 <= i < notes.len() implies match #[trigger] notes[i] {
        NoteModel::Broken(name) => !all.contains(name),
        _ => true,
    } by {
        assert(is_good(notes[i]));
    }
    assert(is_harmless(notes, all, file_keeps(file, Rule::Plain)));
    assert forall|i: int| 0 <= i < notes.len() implies match #[trigger] notes[i] {
        NoteModel::Options(of, _, fits) => uses(file, of) ==> fits && file_keeps(
            file,
            Rule::Shallow,
        ),
        _ => true,
    } by {
        assert(is_good(notes[i]));
    }
}

/// Whether the files that files pass on to those that import them are ranked below them, by no more
/// ranks than there are files: so it is where no file is passed on in a circle.
pub open spec fn is_ranked(files: Seq<Contents>, rank: spec_fn(Seq<char>) -> nat) -> bool {
    &&& forall|i: int| 0 <= i < files.len() ==> rank(name_in(#[trigger] files[i])) <= files.len()
    &&& forall|i: int, j: int, k: int| #[trigger]
        passes_on_at(files, i, j, k) ==> rank(texts_in(files[i], "dependency"@)[k]) < rank(
            name_in(files[i]),
        )
}

/// Whether the `j`th of the positions that a file passes on is that of its `k`th import.
pub open spec fn passes_on_at(files: Seq<Contents>, i: int, j: int, k: int) -> bool {
    &&& 0 <= i < files.len()
    &&& 0 <= k < texts_in(files[i], "dependency"@).len()
    &&& match files[i].get("public_dependency"@) {
        Item::List(list) => 0 <= j < list.len() && list[j] is Integer && list[j]->Integer_0 == k,
        _ => false,
    }
}

/// A pool can look at each file of a syntax that it knows, as long as the defaults for bytes in it
/// have no escapes, no file is passed on in a circle, and one of these holds: the file sets no
/// options; no file declares a message by which options are read; or those of its options that are
/// still to be read set no extensions, and the messages by which options are read and the entries of
/// maps are declared as they must be. Whatever else the file declares, it can look at it.
pub proof fn law_ordinary_files_are_looked_at(
    files: Seq<Contents>,
    at: int,
    rank: spec_fn(Seq<char>) -> nat,
)
    requires
        0 <= at < files.len(),
        forall|i: int|
            0 <= i < files.len() ==> (#[trigger] files[i]).typed() && files[i].schema
                == Schema::File,
        is_of_known_syntax(files[at]),
        everywhere(files[at], |d: Contents| has_plain_default(d)),
        is_ranked(files, rank),
        ({
            ||| everywhere(files[at], |d: Contents| !d.has("options"@))
            ||| forall|full: Seq<char>|
                is_name_of_options(full) ==> !#[trigger] declares(files, full)
            ||| {
                &&& everywhere(files[at], |d: Contents| sets_no_extension(d))
                &&& forall|i: int|
                    0 <= i < files.len() ==> is_well_declared_file(#[trigger] files[i])
            }
        }),
    ensures
        readable(files, at),
{
    let file = files[at];
    law_defaults_for_bytes_are_read(file);
    let imports = imports_of(files);
    assert forall|i: int| 0 <= i < imports.len() implies rank((#[trigger] imports[i]).name)
        <= imports.len() by {
        assert(rank(name_in(files[i])) <= files.len());
    }
    assert forall|i: int, k: int|
        0 <= i < imports.len() && 0 <= k < imports[i].dependencies.len() && #[trigger] passes_on(
            imports[i],
            k,
        ) implies rank(imports[i].dependencies[k]) < rank(imports[i].name) by {
        let j = choose|j: int|
            0 <= j < imports[i].public_dependencies.len()
                && #[trigger] imports[i].public_dependencies[j] == k;
        assert(files[i].typed());
        lemma_kinds();
        lemma_names_differ();
        lemma_get_is_of(files[i], "public_dependency"@);
        let list = files[i].get("public_dependency"@)->List_0;
        assert(list[j] is Integer);
        assert(passes_on_at(files, i, j, k));
    }
    law_imports_without_circles_come_to_an_end(imports, at, rank);
    if everywhere(file, |d: Contents| !d.has("options"@)) {
        assert forall|of: Optional| #[trigger] file_keeps(file, Rule::Without(of)) by {
            law_options_are_what_declarations_set(file, of);
        }
        law_files_without_options_reach_nothing(files, at);
    } else if forall|full: Seq<char>| is_name_of_options(full) ==> !#[trigger] declares(
        files,
        full,
    ) {
        lemma_options_are_looked_at(files, at);
    } else {
        lemma_well_declared_options_are_looked_at(files, at);
    }
}

/// A pool looks only at files of a syntax that it knows, whose defaults for bytes can be read.
pub proof fn law_other_files_are_not_looked_at(files: Seq<Contents>, at: int)
    requires
        0 <= at < files.len(),
        files[at].typed(),
        files[at].schema == Schema::File,
        readable(files, at),
    ensures
        is_of_known_syntax(files[at]),
        everywhere(
            files[at],
            |d: Contents|
                is_for_bytes(d) ==> match d.get("default_value"@) {
                    Item::Text(text) => unescapes(text),
                    _ => true,
                },
        ),
{
    law_defaults_for_bytes_are_read(files[at]);
    reveal_strlit("proto2");
    reveal_strlit("proto3");
    assert(text_in(files[at], "syntax"@).len() > 0 || !files[at].has("syntax"@));
}

/// An addition never fails for want of looking at an ordinary file.
pub proof fn law_additions_look_at_ordinary_files(
    before: Seq<Contents>,
    bytes: Seq<u8>,
    after: Seq<Contents>,
    r: Result<(), Error>,
    file: Contents,
    rank: spec_fn(Seq<char>) -> nat,
)
    requires
        is_added(before, bytes, after, r),
        decoded(Schema::File, bytes) == Some(file),
        forall|i: int|
            0 <= i < before.len() ==> (#[trigger] before[i]).typed() && before[i].schema
                == Schema::File,
        lowered(file).typed(),
        lowered(file).schema == Schema::File,
        is_of_known_syntax(lowered(file)),
        everywhere(lowered(file), |d: Contents| has_plain_default(d)),
        is_ranked(before.push(lowered(file)), rank),
        everywhere(lowered(file), |d: Contents| !d.has("options"@)) || forall|full: Seq<char>|
            is_name_of_options(full) ==> !#[trigger] declares(before.push(lowered(file)), full),
    ensures
        r is Ok || r->Err_0 is DescriptorError,
{
    let files = before.push(lowered(file));
    assert forall|i: int| 0 <= i < files.len() implies (#[trigger] files[i]).typed()
        && files[i].schema == Schema::File by {
        if i < before.len() {
            assert(files[i] == before[i]);
        }
    }
    law_ordinary_files_are_looked_at(files, before.len() as int, rank);
    law_additions_are_what_they_say(before, bytes, after, r);
}

} // verus!
