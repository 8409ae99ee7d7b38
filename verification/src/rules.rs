//! What a file must be like for a pool to look at it.
//!
//! A pool takes most mistakes in a file as a reason not to take the file. There are a few that it
//! does not see coming, and on which it would not return. Each [`Rule`] leaves some of them out.

use crate::declarations::{Optional, BYTES};
use crate::dynamic::{
    contents, get_field, items, kind_of, lemma_kinds, lemma_names_differ, value_item, Contents,
    Item, Kind, Schema, LEVELS,
};
use crate::escape::{check_escapes, unescapes};
use crate::reading::{
    flag_in, lemma_lists, lemma_smaller, lemma_typed_message, lists, messages_in, number_in,
    read_flag, read_number, read_text, text_in,
};
use prost_reflect::{DynamicMessage, Value};
use vstd::prelude::*;
use vstd::string::*;

verus! {

/// Whether a field is declared as it must be: the default of one for bytes can be read.
pub open spec fn field_fits(c: Contents) -> bool {
    number_in(c, "type"@) == BYTES && text_in(c, "type_name"@).len() == 0 ==> unescapes(
        text_in(c, "default_value"@),
    )
}

/// Whether an option that is still to be read sets nothing that is nested too deeply.
pub open spec fn is_shallow(c: Contents) -> bool {
    messages_in(c, "name"@).len() <= LEVELS
}

/// Whether an option that is still to be read sets no extension.
pub open spec fn is_plain_option(c: Contents) -> bool {
    forall|i: int|
        0 <= i < messages_in(c, "name"@).len() ==> !flag_in(
            #[trigger] messages_in(c, "name"@)[i],
            "is_extension"@,
        )
}

/// A rule for all that is declared in a file.
#[derive(Clone, Copy, Debug, PartialEq, Eq, Structural)]
pub enum Rule {
    /// The default of each field for bytes can be read.
    Defaults,
    /// Nothing has options of a kind.
    Without(Optional),
    /// No option that is still to be read sets something that is nested too deeply.
    Shallow,
    /// No option that is still to be read sets an extension.
    Plain,
}

/// Whether a declaration keeps a rule by itself.
pub open spec fn fits(c: Contents, rule: Rule) -> bool {
    match rule {
        Rule::Defaults => c.schema == Schema::Field ==> field_fits(c),
        Rule::Without(of) => c.schema == of.schema() ==> !c.has("options"@),
        Rule::Shallow => c.schema == Schema::UninterpretedOption ==> is_shallow(c),
        Rule::Plain => c.schema == Schema::UninterpretedOption ==> is_plain_option(c),
    }
}

/// Whether a declaration keeps a rule, with all that is declared in it at any depth.
pub open spec fn keeps(c: Contents, rule: Rule) -> bool
    decreases c,
{
    &&& fits(c, rule)
    &&& forall|name: Seq<char>| #[trigger]
        c.fields.contains_key(name) ==> item_keeps(c.fields[name], rule)
}

/// Whether the messages that a value holds keep a rule.
pub open spec fn item_keeps(item: Item, rule: Rule) -> bool
    decreases item,
{
    match item {
        Item::Message(message) => keeps(message, rule),
        Item::List(list) => forall|i: int|
            0 <= i < list.len() ==> match #[trigger] list[i] {
                Item::Message(message) => keeps(message, rule),
                _ => true,
            },
        _ => true,
    }
}

/// Whether a file keeps a rule.
pub open spec fn file_keeps(c: Contents, rule: Rule) -> bool {
    keeps(c, rule)
}

/// Whether nothing in a file has options of any kind.
pub open spec fn has_no_options(c: Contents) -> bool {
    forall|of: Optional| #[trigger] file_keeps(c, Rule::Without(of))
}

/// Whether all files keep a rule.
pub open spec fn all_keep(files: Seq<Contents>, rule: Rule) -> bool {
    forall|i: int| 0 <= i < files.len() ==> file_keeps(#[trigger] files[i], rule)
}

/// Whether the options of a declaration hold nothing that `descriptor.proto` has no field for.
pub open spec fn has_foreseen_options(c: Contents) -> bool {
    match c.get("options"@) {
        Item::Message(options) => !options.foreign && match options.get("features"@) {
            Item::Message(features) => !features.foreign,
            _ => true,
        },
        _ => true,
    }
}

/// Whether the options of a kind, in a declaration and in all that is declared in it at any depth,
/// hold nothing that `descriptor.proto` has no field for.
pub open spec fn is_foreseen(c: Contents, of: Optional) -> bool
    decreases c,
{
    &&& c.schema == of.schema() ==> has_foreseen_options(c)
    &&& forall|name: Seq<char>| #[trigger]
        c.fields.contains_key(name) ==> item_is_foreseen(c.fields[name], of)
}

/// Whether the options of a kind, in the messages that a value holds, hold nothing that
/// `descriptor.proto` has no field for.
pub open spec fn item_is_foreseen(item: Item, of: Optional) -> bool
    decreases item,
{
    match item {
        Item::Message(message) => is_foreseen(message, of),
        Item::List(list) => forall|i: int|
            0 <= i < list.len() ==> match #[trigger] list[i] {
                Item::Message(message) => is_foreseen(message, of),
                _ => true,
            },
        _ => true,
    }
}

/// Whether the options of a kind in all files hold nothing that `descriptor.proto` has no field for.
pub open spec fn all_foreseen(files: Seq<Contents>, of: Optional) -> bool {
    forall|i: int| 0 <= i < files.len() ==> is_foreseen(#[trigger] files[i], of)
}

/// Whether the default of a field can be read.
fn check_field(field: &DynamicMessage) -> (r: bool)
    requires
        contents(*field).schema == Schema::Field,
    ensures
        r == field_fits(contents(*field)),
{
    proof {
        lemma_names_differ();
        lemma_kinds();
    }
    if read_number(field, "type") != BYTES {
        return true;
    }
    if read_text(field, "type_name").as_str().unicode_len() != 0 {
        return true;
    }
    check_escapes(read_text(field, "default_value").as_str())
}

/// Whether an option that is still to be read sets nothing that is nested too deeply.
fn check_shallow(option: &DynamicMessage) -> (r: bool)
    requires
        contents(*option).typed(),
        contents(*option).schema == Schema::UninterpretedOption,
    ensures
        r == is_shallow(contents(*option)),
{
    proof {
        lemma_lists(contents(*option), "name"@, Schema::NamePart);
    }
    let value: Value = get_field(option, "name");
    match value.as_list() {
        Some(parts) => parts.len() <= LEVELS,
        None => true,
    }
}

/// Whether an option that is still to be read sets no extension.
fn check_plain(option: &DynamicMessage) -> (r: bool)
    requires
        contents(*option).typed(),
        contents(*option).schema == Schema::UninterpretedOption,
    ensures
        r == is_plain_option(contents(*option)),
{
    let ghost c = contents(*option);
    proof {
        lemma_lists(c, "name"@, Schema::NamePart);
    }
    let value: Value = get_field(option, "name");
    if let Some(parts) = value.as_list() {
        let mut i: usize = 0;
        while i < parts.len()
            invariant
                c == contents(*option),
                i <= parts@.len(),
                lists(c, "name"@, Schema::NamePart, parts@),
                forall|j: int|
                    0 <= j < i ==> !flag_in(
                        #[trigger] messages_in(c, "name"@)[j],
                        "is_extension"@,
                    ),
            decreases parts@.len() - i,
        {
            proof {
                lemma_kinds();
            }
            if let Some(part) = parts[i].as_message() {
                if read_flag(part, "is_extension") {
                    assert(flag_in(messages_in(c, "name"@)[i as int], "is_extension"@));
                    return false;
                }
            }
            i += 1;
        }
    }
    true
}

/// Whether the messages that a field holds keep a rule.
fn check_list(message: &DynamicMessage, name: &str, schema: Schema, rule: Rule) -> (r: bool)
    requires
        contents(*message).typed(),
        kind_of(contents(*message).schema, name@) == Some(Kind::Messages(schema)),
    ensures
        r == (contents(*message).fields.contains_key(name@) ==> item_keeps(
            contents(*message).fields[name@],
            rule,
        )),
    decreases contents(*message), 0nat,
{
    let ghost c = contents(*message);
    proof {
        lemma_lists(c, name@, schema);
    }
    let value: Value = get_field(message, name);
    if let Some(list) = value.as_list() {
        let mut i: usize = 0;
        while i < list.len()
            invariant
                c == contents(*message),
                i <= list@.len(),
                lists(c, name@, schema, list@),
                forall|j: int| 0 <= j < i ==> keeps(#[trigger] messages_in(c, name@)[j], rule),
            decreases list@.len() - i,
        {
            assert(items(list@)[i as int] == Item::Message(messages_in(c, name@)[i as int]));
            if let Some(inner) = list[i].as_message() {
                proof {
                    lemma_smaller(c, name@, i as int);
                }
                if !check(inner, schema, rule) {
                    assert(c.fields[name@]->List_0[i as int] == Item::Message(
                        messages_in(c, name@)[i as int],
                    ));
                    return false;
                }
            }
            i += 1;
        }
        proof {
            if c.has(name@) {
                let held = c.fields[name@]->List_0;
                assert forall|j: int| 0 <= j < held.len() implies match #[trigger] held[j] {
                    Item::Message(inner) => keeps(inner, rule),
                    _ => true,
                } by {
                    assert(held[j] == value_item(list@[j]));
                    assert(keeps(messages_in(c, name@)[j], rule));
                }
            }
        }
    }
    true
}

/// Whether the message that a field holds keeps a rule.
fn check_one(message: &DynamicMessage, name: &str, schema: Schema, rule: Rule) -> (r: bool)
    requires
        contents(*message).typed(),
        schema != Schema::Other,
        kind_of(contents(*message).schema, name@) == Some(Kind::Message(schema)),
    ensures
        r == (contents(*message).fields.contains_key(name@) ==> item_keeps(
            contents(*message).fields[name@],
            rule,
        )),
    decreases contents(*message), 0nat,
{
    let ghost c = contents(*message);
    if !message.has_field_by_name(name) {
        return true;
    }
    proof {
        lemma_typed_message(c, name@, schema);
        assert(decreases_to!(c => c.fields[name@]));
    }
    let value: Value = get_field(message, name);
    match value.as_message() {
        Some(inner) => check(inner, schema, rule),
        None => true,
    }
}

/// Whether a declaration keeps a rule by itself.
fn check_itself(message: &DynamicMessage, schema: Schema, rule: Rule) -> (r: bool)
    requires
        contents(*message).typed(),
        contents(*message).schema == schema,
    ensures
        r == fits(contents(*message), rule),
{
    proof {
        lemma_names_differ();
        lemma_kinds();
    }
    match rule {
        Rule::Defaults => schema != Schema::Field || check_field(message),
        Rule::Without(of) => schema != of.schema_of() || !message.has_field_by_name("options"),
        Rule::Shallow => schema != Schema::UninterpretedOption || check_shallow(message),
        Rule::Plain => schema != Schema::UninterpretedOption || check_plain(message),
    }
}

/// Whether a declaration keeps a rule, with all that is declared in it at any depth.
fn check(message: &DynamicMessage, schema: Schema, rule: Rule) -> (r: bool)
    requires
        contents(*message).typed(),
        contents(*message).schema == schema,
    ensures
        r == keeps(contents(*message), rule),
    decreases contents(*message), 1nat,
{
    let ghost c = contents(*message);
    proof {
        lemma_names_differ();
        lemma_kinds();
    }
    if !check_itself(message, schema, rule) {
        return false;
    }
    let r: bool = match schema {
        Schema::FileSet => check_list(message, "file", Schema::File, rule),
        Schema::File => check_list(message, "message_type", Schema::Message, rule)
            && check_list(message, "extension", Schema::Field, rule)
            && check_list(message, "enum_type", Schema::Enumeration, rule)
            && check_list(message, "service", Schema::Service, rule)
            && check_one(message, "options", Schema::FileOptions, rule),
        Schema::Message => check_list(message, "field", Schema::Field, rule)
            && check_list(message, "extension", Schema::Field, rule)
            && check_list(message, "nested_type", Schema::Message, rule)
            && check_list(message, "oneof_decl", Schema::Oneof, rule)
            && check_list(message, "enum_type", Schema::Enumeration, rule)
            && check_list(message, "extension_range", Schema::ExtensionRange, rule)
            && check_one(message, "options", Schema::MessageOptions, rule),
        Schema::Field => check_one(message, "options", Schema::FieldOptions, rule),
        Schema::Oneof => check_one(message, "options", Schema::OneofOptions, rule),
        Schema::Enumeration => check_list(message, "value", Schema::EnumValue, rule)
            && check_one(message, "options", Schema::EnumOptions, rule),
        Schema::EnumValue => check_one(message, "options", Schema::EnumValueOptions, rule),
        Schema::Service => check_list(message, "method", Schema::Method, rule)
            && check_one(message, "options", Schema::ServiceOptions, rule),
        Schema::Method => check_one(message, "options", Schema::MethodOptions, rule),
        Schema::ExtensionRange => check_one(
            message, "options", Schema::ExtensionRangeOptions, rule,
        ),
        Schema::FileOptions | Schema::MessageOptions | Schema::FieldOptions
        | Schema::OneofOptions => check_list(
            message,
            "uninterpreted_option",
            Schema::UninterpretedOption,
            rule,
        ) && check_one(message, "features", Schema::Features, rule),
        Schema::EnumOptions
        | Schema::EnumValueOptions
        | Schema::ServiceOptions
        | Schema::MethodOptions
        | Schema::ExtensionRangeOptions => check_list(
            message,
            "uninterpreted_option",
            Schema::UninterpretedOption,
            rule,
        ),
        Schema::UninterpretedOption => check_list(message, "name", Schema::NamePart, rule),
        Schema::Features | Schema::NamePart | Schema::Other => true,
    };
    proof {
        if r {
            assert forall|name: Seq<char>| #[trigger]
                c.fields.contains_key(name) implies item_keeps(c.fields[name], rule) by {
                assert(c.fields[name].is_of(kind_of(c.schema, name)));
            }
        }
    }
    r
}

/// Whether a file keeps a rule.
pub(crate) fn check_file(file: &DynamicMessage, rule: Rule) -> (r: bool)
    requires
        contents(*file).typed(),
        contents(*file).schema == Schema::File,
    ensures
        r == file_keeps(contents(*file), rule),
{
    check(file, Schema::File, rule)
}

} // verus!