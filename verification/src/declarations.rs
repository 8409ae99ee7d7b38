//! Messages for options and entries of maps, and how they must be declared for options to be read.

use crate::adjacency::Node;
use crate::dynamic::{
    contents, get_field, lemma_kinds, lemma_names_differ, value_item, Contents, Item, Schema,
};
use crate::reading::{
    flag_in, integer_in, lemma_lists, lemma_typed_message, lists, messages_in, number_in, read_flag,
    read_integer, read_number, read_text, text_in,
};
use prost_reflect::{DynamicMessage, Value};
use vstd::prelude::*;
use vstd::string::*;

verus! {

/// The full name of what is declared under a name within a scope.
pub open spec fn joined(scope: Seq<char>, name: Seq<char>) -> Seq<char> {
    if scope.len() == 0 {
        name
    } else {
        scope + seq!['.'] + name
    }
}

/// The full name of what is declared under a name within a scope.
pub(crate) fn join(scope: &String, name: &String) -> (r: String)
    ensures
        r@ == joined(scope@, name@),
{
    if scope.as_str().unicode_len() == 0 {
        return name.duplicate();
    }
    proof {
        reveal_strlit(".");
    }
    let mut full: String = scope.duplicate();
    full.append(".");
    full.append(name.as_str());
    assert(full@ =~= joined(scope@, name@));
    full
}

/// The kinds of options, by what they are the options of. Those of a field are those of an
/// extension too.
#[derive(Clone, Copy, Debug, PartialEq, Eq, Structural)]
pub enum Optional {
    File,
    Message,
    Field,
    Oneof,
    Enumeration,
    EnumValue,
    Service,
    Method,
    ExtensionRange,
}

impl Optional {
    /// The schema of what has the options.
    pub open spec fn schema(self) -> Schema {
        match self {
            Optional::File => Schema::File,
            Optional::Message => Schema::Message,
            Optional::Field => Schema::Field,
            Optional::Oneof => Schema::Oneof,
            Optional::Enumeration => Schema::Enumeration,
            Optional::EnumValue => Schema::EnumValue,
            Optional::Service => Schema::Service,
            Optional::Method => Schema::Method,
            Optional::ExtensionRange => Schema::ExtensionRange,
        }
    }

    /// The schema of what has the options.
    pub(crate) fn schema_of(self) -> (r: Schema)
        ensures
            r == self.schema(),
    {
        match self {
            Optional::File => Schema::File,
            Optional::Message => Schema::Message,
            Optional::Field => Schema::Field,
            Optional::Oneof => Schema::Oneof,
            Optional::Enumeration => Schema::Enumeration,
            Optional::EnumValue => Schema::EnumValue,
            Optional::Service => Schema::Service,
            Optional::Method => Schema::Method,
            Optional::ExtensionRange => Schema::ExtensionRange,
        }
    }

    /// The full name of the message for the options.
    pub open spec fn message(self) -> Seq<char> {
        match self {
            Optional::File => "google.protobuf.FileOptions"@,
            Optional::Message => "google.protobuf.MessageOptions"@,
            Optional::Field => "google.protobuf.FieldOptions"@,
            Optional::Oneof => "google.protobuf.OneofOptions"@,
            Optional::Enumeration => "google.protobuf.EnumOptions"@,
            Optional::EnumValue => "google.protobuf.EnumValueOptions"@,
            Optional::Service => "google.protobuf.ServiceOptions"@,
            Optional::Method => "google.protobuf.MethodOptions"@,
            Optional::ExtensionRange => "google.protobuf.ExtensionRangeOptions"@,
        }
    }
}

/// What the message of a full name holds the options of.
pub open spec fn options_of(full: Seq<char>) -> Option<Optional> {
    if full == Optional::File.message() {
        Some(Optional::File)
    } else if full == Optional::Message.message() {
        Some(Optional::Message)
    } else if full == Optional::Field.message() {
        Some(Optional::Field)
    } else if full == Optional::Oneof.message() {
        Some(Optional::Oneof)
    } else if full == Optional::Enumeration.message() {
        Some(Optional::Enumeration)
    } else if full == Optional::EnumValue.message() {
        Some(Optional::EnumValue)
    } else if full == Optional::Service.message() {
        Some(Optional::Service)
    } else if full == Optional::Method.message() {
        Some(Optional::Method)
    } else if full == Optional::ExtensionRange.message() {
        Some(Optional::ExtensionRange)
    } else {
        None
    }
}

/// What the message of a full name holds the options of.
pub(crate) fn find_options(full: &String) -> (r: Option<Optional>)
    ensures
        r == options_of(full@),
{
    if full.same(&"google.protobuf.FileOptions".to_owned()) {
        Some(Optional::File)
    } else if full.same(&"google.protobuf.MessageOptions".to_owned()) {
        Some(Optional::Message)
    } else if full.same(&"google.protobuf.FieldOptions".to_owned()) {
        Some(Optional::Field)
    } else if full.same(&"google.protobuf.OneofOptions".to_owned()) {
        Some(Optional::Oneof)
    } else if full.same(&"google.protobuf.EnumOptions".to_owned()) {
        Some(Optional::Enumeration)
    } else if full.same(&"google.protobuf.EnumValueOptions".to_owned()) {
        Some(Optional::EnumValue)
    } else if full.same(&"google.protobuf.ServiceOptions".to_owned()) {
        Some(Optional::Service)
    } else if full.same(&"google.protobuf.MethodOptions".to_owned()) {
        Some(Optional::Method)
    } else if full.same(&"google.protobuf.ExtensionRangeOptions".to_owned()) {
        Some(Optional::ExtensionRange)
    } else {
        None
    }
}

/// The types of the options that a pool knows.
#[derive(Clone, Copy, Debug, PartialEq, Eq, Structural)]
pub enum OptionType {
    Text,
    Flag,
    OptimizeMode,
    CType,
    JsType,
    IdempotencyLevel,
}

impl OptionType {
    /// The name of the enum that an option is of, within the message for the options.
    pub open spec fn name(self) -> Seq<char> {
        match self {
            OptionType::OptimizeMode => "OptimizeMode"@,
            OptionType::CType => "CType"@,
            OptionType::JsType => "JSType"@,
            OptionType::IdempotencyLevel => "IdempotencyLevel"@,
            _ => Seq::empty(),
        }
    }

    /// The name of the enum that an option is of.
    fn enum_name(self) -> (r: String)
        ensures
            r@ == self.name(),
    {
        match self {
            OptionType::OptimizeMode => "OptimizeMode".to_owned(),
            OptionType::CType => "CType".to_owned(),
            OptionType::JsType => "JSType".to_owned(),
            OptionType::IdempotencyLevel => "IdempotencyLevel".to_owned(),
            _ => String::new(),
        }
    }
}

/// The type that a pool knows the option of a number to have, if it knows it.
pub open spec fn known_option(of: Optional, number: i32) -> Option<OptionType> {
    match of {
        Optional::File => if number == 1 || number == 8 || number == 11 || number == 36 || number
            == 37 || number == 39 || number == 40 || number == 41 || number == 44 || number == 45 {
            Some(OptionType::Text)
        } else if number == 10 || number == 16 || number == 17 || number == 18 || number == 20
            || number == 23 || number == 27 || number == 31 || number == 42 {
            Some(OptionType::Flag)
        } else if number == 9 {
            Some(OptionType::OptimizeMode)
        } else {
            None
        },
        Optional::Message => if number == 1 || number == 2 || number == 3 || number == 7 {
            Some(OptionType::Flag)
        } else {
            None
        },
        Optional::Field => if number == 2 || number == 3 || number == 5 || number == 10 {
            Some(OptionType::Flag)
        } else if number == 1 {
            Some(OptionType::CType)
        } else if number == 6 {
            Some(OptionType::JsType)
        } else {
            None
        },
        Optional::Enumeration => if number == 2 || number == 3 {
            Some(OptionType::Flag)
        } else {
            None
        },
        Optional::EnumValue => if number == 1 {
            Some(OptionType::Flag)
        } else {
            None
        },
        Optional::Service => if number == 33 {
            Some(OptionType::Flag)
        } else {
            None
        },
        Optional::Method => if number == 33 {
            Some(OptionType::Flag)
        } else if number == 34 {
            Some(OptionType::IdempotencyLevel)
        } else {
            None
        },
        Optional::Oneof | Optional::ExtensionRange => None,
    }
}

/// The type that a pool knows the option of a number to have, if it knows it.
fn find_option(of: Optional, number: i32) -> (r: Option<OptionType>)
    ensures
        r == known_option(of, number),
{
    match of {
        Optional::File => match number {
            1 | 8 | 11 | 36 | 37 | 39 | 40 | 41 | 44 | 45 => Some(OptionType::Text),
            10 | 16 | 17 | 18 | 20 | 23 | 27 | 31 | 42 => Some(OptionType::Flag),
            9 => Some(OptionType::OptimizeMode),
            _ => None,
        },
        Optional::Message => match number {
            1 | 2 | 3 | 7 => Some(OptionType::Flag),
            _ => None,
        },
        Optional::Field => match number {
            2 | 3 | 5 | 10 => Some(OptionType::Flag),
            1 => Some(OptionType::CType),
            6 => Some(OptionType::JsType),
            _ => None,
        },
        Optional::Enumeration => match number {
            2 | 3 => Some(OptionType::Flag),
            _ => None,
        },
        Optional::EnumValue => match number {
            1 => Some(OptionType::Flag),
            _ => None,
        },
        Optional::Service => match number {
            33 => Some(OptionType::Flag),
            _ => None,
        },
        Optional::Method => match number {
            33 => Some(OptionType::Flag),
            34 => Some(OptionType::IdempotencyLevel),
            _ => None,
        },
        Optional::Oneof | Optional::ExtensionRange => None,
    }
}

/// The number of the label of a field that can be there any number of times.
pub const REPEATED: i32 = 3;

/// The number of the type of flags.
pub const BOOL: i32 = 8;

/// The number of the type of texts.
pub const STRING: i32 = 9;

/// The number of the type of bytes.
pub const BYTES: i32 = 12;

/// The number of the option that says whether a message is the entry of a map.
pub const MAP_ENTRY: i32 = 7;

/// The first of the numbers that are left to extensions of the messages for options.
pub const FIRST_EXTENSION: i32 = 1000;

/// The enums of a list have one of a name.
pub open spec fn has_enum(enums: Seq<Contents>, name: Seq<char>) -> bool {
    exists|i: int| 0 <= i < enums.len() && text_in(#[trigger] enums[i], "name"@) == name
}

/// Whether a field of a message for options is declared as the pool knows it, where it knows the
/// option of that number.
pub open spec fn option_fits(
    field: Contents,
    of: Optional,
    full: Seq<char>,
    enums: Seq<Contents>,
) -> bool {
    match known_option(of, integer_in(field, "number"@)) {
        None => true,
        Some(option) => {
            &&& number_in(field, "label"@) != REPEATED
            &&& match option {
                OptionType::Text => number_in(field, "type"@) == STRING && text_in(
                    field,
                    "type_name"@,
                ).len() == 0,
                OptionType::Flag => number_in(field, "type"@) == BOOL && text_in(
                    field,
                    "type_name"@,
                ).len() == 0,
                _ => text_in(field, "type_name"@) == seq!['.'] + joined(full, option.name())
                    && has_enum(enums, option.name()),
            }
            &&& of == Optional::Message && integer_in(field, "number"@) == MAP_ENTRY ==> text_in(
                field,
                "name"@,
            ) == "map_entry"@
        },
    }
}

/// Whether a message for options is declared as the pool knows it, as far as it knows it.
pub open spec fn declares_options(c: Contents, of: Optional, full: Seq<char>) -> bool {
    &&& forall|i: int|
        0 <= i < messages_in(c, "field"@).len() ==> option_fits(
            #[trigger] messages_in(c, "field"@)[i],
            of,
            full,
            messages_in(c, "enum_type"@),
        )
    &&& forall|i: int|
        0 <= i < messages_in(c, "extension_range"@).len() ==> integer_in(
            #[trigger] messages_in(c, "extension_range"@)[i],
            "start"@,
        ) >= FIRST_EXTENSION
}

/// Whether an option that is still to be read is the one for the entries of maps.
pub open spec fn names_map_entry(option: Contents) -> bool {
    messages_in(option, "name"@).len() == 1 && text_in(
        messages_in(option, "name"@)[0],
        "name_part"@,
    ) == "map_entry"@
}

/// Whether the options say, or may say once they are read, that a message is the entry of a map.
pub open spec fn marks_map_entry(options: Contents) -> bool {
    flag_in(options, "map_entry"@) || exists|i: int|
        0 <= i < messages_in(options, "uninterpreted_option"@).len() && names_map_entry(
            #[trigger] messages_in(options, "uninterpreted_option"@)[i],
        )
}

/// Whether a type is one that the keys of a map can be of.
pub open spec fn is_key_type(ty: i32) -> bool {
    3 <= ty <= 9 || ty == 13 || 15 <= ty <= 18
}

/// Whether a field is the key of a map.
pub open spec fn is_key(field: Contents) -> bool {
    integer_in(field, "number"@) == 1 && is_key_type(number_in(field, "type"@)) && text_in(
        field,
        "type_name"@,
    ).len() == 0
}

/// Whether a field is the value of a map.
pub open spec fn is_value(field: Contents) -> bool {
    integer_in(field, "number"@) == 2
}

/// Whether a message has a key and a value.
pub open spec fn has_entry(c: Contents) -> bool {
    &&& exists|i: int|
        0 <= i < messages_in(c, "field"@).len() && is_key(#[trigger] messages_in(c, "field"@)[i])
    &&& exists|i: int|
        0 <= i < messages_in(c, "field"@).len() && is_value(#[trigger] messages_in(c, "field"@)[i])
}

/// Whether a message is the entry of a map, or may be one once its options are read, and has no key
/// or no value.
pub open spec fn is_broken(c: Contents) -> bool {
    match c.get("options"@) {
        Item::Message(options) => marks_map_entry(options) && !has_entry(c),
        _ => false,
    }
}

/// Whether an option that is still to be read is the one for the entries of maps.
fn check_names_map_entry(option: &DynamicMessage) -> (r: bool)
    requires
        contents(*option).typed(),
        contents(*option).schema == Schema::UninterpretedOption,
    ensures
        r == names_map_entry(contents(*option)),
{
    let ghost c = contents(*option);
    proof {
        lemma_kinds();
        lemma_lists(c, "name"@, Schema::NamePart);
    }
    let value: Value = get_field(option, "name");
    if let Some(parts) = value.as_list() {
        if parts.len() == 1 {
            assert(lists(c, "name"@, Schema::NamePart, parts@));
            assert(value_item(parts@[0]) == Item::Message(messages_in(c, "name"@)[0]));
            if let Some(part) = parts[0].as_message() {
                return read_text(part, "name_part").same(&"map_entry".to_owned());
            }
        }
    }
    false
}

/// Whether the options of a message may say that it is the entry of a map.
fn check_marks_map_entry(options: &DynamicMessage) -> (r: bool)
    requires
        contents(*options).typed(),
        contents(*options).schema == Schema::MessageOptions,
    ensures
        r == marks_map_entry(contents(*options)),
{
    let ghost c = contents(*options);
    proof {
        lemma_kinds();
        lemma_lists(c, "uninterpreted_option"@, Schema::UninterpretedOption);
    }
    if read_flag(options, "map_entry") {
        return true;
    }
    let value: Value = get_field(options, "uninterpreted_option");
    if let Some(list) = value.as_list() {
        let mut i: usize = 0;
        while i < list.len()
            invariant
                c == contents(*options),
                i <= list@.len(),
                lists(c, "uninterpreted_option"@, Schema::UninterpretedOption, list@),
                forall|j: int|
                    0 <= j < i ==> !names_map_entry(
                        #[trigger] messages_in(c, "uninterpreted_option"@)[j],
                    ),
            decreases list@.len() - i,
        {
            if let Some(option) = list[i].as_message() {
                if check_names_map_entry(option) {
                    assert(names_map_entry(messages_in(c, "uninterpreted_option"@)[i as int]));
                    return true;
                }
            }
            i += 1;
        }
    }
    false
}

/// Whether a message has a key and a value.
fn check_entry(message: &DynamicMessage) -> (r: bool)
    requires
        contents(*message).typed(),
        contents(*message).schema == Schema::Message,
    ensures
        r == has_entry(contents(*message)),
{
    let ghost c = contents(*message);
    proof {
        lemma_names_differ();
        lemma_lists(c, "field"@, Schema::Field);
    }
    let mut key: bool = false;
    let mut entry: bool = false;
    let value: Value = get_field(message, "field");
    if let Some(list) = value.as_list() {
        let mut i: usize = 0;
        while i < list.len()
            invariant
                i <= list@.len(),
                lists(c, "field"@, Schema::Field, list@),
                key <==> exists|j: int|
                    0 <= j < i && is_key(#[trigger] messages_in(c, "field"@)[j]),
                entry <==> exists|j: int|
                    0 <= j < i && is_value(#[trigger] messages_in(c, "field"@)[j]),
            decreases list@.len() - i,
        {
            proof {
                lemma_names_differ();
                lemma_kinds();
            }
            let ghost f = messages_in(c, "field"@)[i as int];
            if let Some(field) = list[i].as_message() {
                let number: i32 = read_integer(field, "number");
                let ty: i32 = read_number(field, "type");
                let typed: bool = (3 <= ty && ty <= 9) || ty == 13 || (15 <= ty && ty <= 18);
                if number == 1 && typed && read_text(field, "type_name").as_str().unicode_len()
                    == 0 {
                    assert(is_key(f));
                    key = true;
                }
                if number == 2 {
                    assert(is_value(f));
                    entry = true;
                }
            }
            i += 1;
        }
    }
    key && entry
}

/// Whether the enums of a message have one of a name.
fn check_enums(message: &DynamicMessage, name: &String) -> (r: bool)
    requires
        contents(*message).typed(),
        contents(*message).schema == Schema::Message,
    ensures
        r == has_enum(messages_in(contents(*message), "enum_type"@), name@),
{
    let ghost c = contents(*message);
    proof {
        lemma_kinds();
        lemma_lists(c, "enum_type"@, Schema::Enumeration);
    }
    let value: Value = get_field(message, "enum_type");
    if let Some(list) = value.as_list() {
        let mut i: usize = 0;
        while i < list.len()
            invariant
                c == contents(*message),
                i <= list@.len(),
                lists(c, "enum_type"@, Schema::Enumeration, list@),
                forall|j: int|
                    0 <= j < i ==> text_in(#[trigger] messages_in(c, "enum_type"@)[j], "name"@)
                        != name@,
            decreases list@.len() - i,
        {
            if let Some(declared) = list[i].as_message() {
                if read_text(declared, "name").same(name) {
                    assert(text_in(messages_in(c, "enum_type"@)[i as int], "name"@) == name@);
                    return true;
                }
            }
            i += 1;
        }
    }
    false
}

/// Whether a field of a message for options is declared as the pool knows it.
fn check_fits(message: &DynamicMessage, field: &DynamicMessage, of: Optional, full: &String) -> (r:
    bool)
    requires
        contents(*message).typed(),
        contents(*message).schema == Schema::Message,
        contents(*field).schema == Schema::Field,
    ensures
        r == option_fits(
            contents(*field),
            of,
            full@,
            messages_in(contents(*message), "enum_type"@),
        ),
{
    proof {
        lemma_names_differ();
        lemma_kinds();
        reveal_strlit(".");
    }
    let number: i32 = read_integer(field, "number");
    let option: OptionType = match find_option(of, number) {
        Some(option) => option,
        None => return true,
    };
    if read_number(field, "label") == REPEATED {
        return false;
    }
    let ty: i32 = read_number(field, "type");
    let named: String = read_text(field, "type_name");
    let typed: bool = match option {
        OptionType::Text => ty == STRING && named.as_str().unicode_len() == 0,
        OptionType::Flag => ty == BOOL && named.as_str().unicode_len() == 0,
        _ => {
            let name: String = option.enum_name();
            let mut expected: String = ".".to_owned();
            expected.append(join(full, &name).as_str());
            assert(expected@ =~= seq!['.'] + joined(full@, option.name()));
            named.same(&expected) && check_enums(message, &name)
        },
    };
    if !typed {
        return false;
    }
    if of == Optional::Message && number == MAP_ENTRY {
        return read_text(field, "name").same(&"map_entry".to_owned());
    }
    true
}

/// Whether a message for options is declared as the pool knows it, as far as it knows it.
pub(crate) fn check_options(message: &DynamicMessage, of: Optional, full: &String) -> (r: bool)
    requires
        contents(*message).typed(),
        contents(*message).schema == Schema::Message,
    ensures
        r == declares_options(contents(*message), of, full@),
{
    let ghost c = contents(*message);
    proof {
        lemma_names_differ();
        lemma_kinds();
        lemma_lists(c, "field"@, Schema::Field);
        lemma_lists(c, "extension_range"@, Schema::ExtensionRange);
    }
    let value: Value = get_field(message, "field");
    if let Some(list) = value.as_list() {
        let mut i: usize = 0;
        while i < list.len()
            invariant
                c == contents(*message),
                c.typed(),
                c.schema == Schema::Message,
                i <= list@.len(),
                lists(c, "field"@, Schema::Field, list@),
                forall|j: int|
                    0 <= j < i ==> option_fits(
                        #[trigger] messages_in(c, "field"@)[j],
                        of,
                        full@,
                        messages_in(c, "enum_type"@),
                    ),
            decreases list@.len() - i,
        {
            let ghost f = messages_in(c, "field"@)[i as int];
            if let Some(field) = list[i].as_message() {
                if !check_fits(message, field, of, full) {
                    assert(!option_fits(f, of, full@, messages_in(c, "enum_type"@)));
                    return false;
                }
            }
            i += 1;
        }
    }
    let value: Value = get_field(message, "extension_range");
    if let Some(list) = value.as_list() {
        let mut i: usize = 0;
        while i < list.len()
            invariant
                c == contents(*message),
                i <= list@.len(),
                lists(c, "extension_range"@, Schema::ExtensionRange, list@),
                forall|j: int|
                    0 <= j < i ==> integer_in(
                        #[trigger] messages_in(c, "extension_range"@)[j],
                        "start"@,
                    ) >= FIRST_EXTENSION,
            decreases list@.len() - i,
        {
            let ghost bounds = messages_in(c, "extension_range"@)[i as int];
            if let Some(range) = list[i].as_message() {
                if read_integer(range, "start") < FIRST_EXTENSION {
                    assert(integer_in(bounds, "start"@) < FIRST_EXTENSION);
                    return false;
                }
            }
            i += 1;
        }
    }
    true
}

/// Whether a message is the entry of a map, or may be one once its options are read, and has no key
/// or no value.
pub(crate) fn check_broken(message: &DynamicMessage) -> (r: bool)
    requires
        contents(*message).typed(),
        contents(*message).schema == Schema::Message,
    ensures
        r == is_broken(contents(*message)),
{
    proof {
        lemma_names_differ();
        lemma_typed_message(contents(*message), "options"@, Schema::MessageOptions);
    }
    let value: Value = get_field(message, "options");
    match value.as_message() {
        Some(options) => check_marks_map_entry(options) && !check_entry(message),
        None => false,
    }
}

/// A full name is made of the scope and the name, with a dot between them where there is a scope.
pub proof fn law_full_names_are_joined_by_dots(scope: Seq<char>, name: Seq<char>)
    ensures
        joined(Seq::empty(), name) == name,
        scope.len() > 0 ==> joined(scope, name) == scope + "."@ + name,
{
    reveal_strlit(".");
    assert("."@ =~= seq!['.']);
}

/// Each kind of options is read by the message of its name, and no other message is one for options.
pub proof fn law_options_are_read_by_messages_of_these_names(full: Seq<char>)
    ensures
        options_of("google.protobuf.FileOptions"@) == Some(Optional::File),
        options_of("google.protobuf.MessageOptions"@) == Some(Optional::Message),
        options_of("google.protobuf.FieldOptions"@) == Some(Optional::Field),
        options_of("google.protobuf.OneofOptions"@) == Some(Optional::Oneof),
        options_of("google.protobuf.EnumOptions"@) == Some(Optional::Enumeration),
        options_of("google.protobuf.EnumValueOptions"@) == Some(Optional::EnumValue),
        options_of("google.protobuf.ServiceOptions"@) == Some(Optional::Service),
        options_of("google.protobuf.MethodOptions"@) == Some(Optional::Method),
        options_of("google.protobuf.ExtensionRangeOptions"@) == Some(Optional::ExtensionRange),
        options_of(full) is Some ==> full == "google.protobuf.FileOptions"@ || full
            == "google.protobuf.MessageOptions"@ || full == "google.protobuf.FieldOptions"@ || full
            == "google.protobuf.OneofOptions"@ || full == "google.protobuf.EnumOptions"@ || full
            == "google.protobuf.EnumValueOptions"@ || full == "google.protobuf.ServiceOptions"@
            || full == "google.protobuf.MethodOptions"@ || full
            == "google.protobuf.ExtensionRangeOptions"@,
{
    reveal_strlit("google.protobuf.FileOptions");
    reveal_strlit("google.protobuf.MessageOptions");
    reveal_strlit("google.protobuf.FieldOptions");
    reveal_strlit("google.protobuf.OneofOptions");
    reveal_strlit("google.protobuf.EnumOptions");
    reveal_strlit("google.protobuf.EnumValueOptions");
    reveal_strlit("google.protobuf.ServiceOptions");
    reveal_strlit("google.protobuf.MethodOptions");
    reveal_strlit("google.protobuf.ExtensionRangeOptions");
    assert("google.protobuf.FileOptions"@.len() == 27);
    assert("google.protobuf.MessageOptions"@.len() == 30);
    assert("google.protobuf.FieldOptions"@.len() == 28);
    assert("google.protobuf.OneofOptions"@.len() == 28);
    assert("google.protobuf.EnumOptions"@.len() == 27);
    assert("google.protobuf.EnumValueOptions"@.len() == 32);
    assert("google.protobuf.ServiceOptions"@.len() == 30);
    assert("google.protobuf.MethodOptions"@.len() == 29);
    assert("google.protobuf.ExtensionRangeOptions"@.len() == 37);
    assert("google.protobuf.FileOptions"@[16] == 'F');
    assert("google.protobuf.EnumOptions"@[16] == 'E');
    assert("google.protobuf.FieldOptions"@[16] == 'F');
    assert("google.protobuf.OneofOptions"@[16] == 'O');
    assert("google.protobuf.MessageOptions"@[16] == 'M');
    assert("google.protobuf.ServiceOptions"@[16] == 'S');
}

/// A pool knows an option by its number only where `descriptor.proto` has that for a text, a flag or
/// one of four enums.
pub proof fn law_known_options_are_those_of_descriptors(of: Optional, number: i32)
    ensures
        known_option(of, number) == Some(OptionType::Text) <==> of == Optional::File && (number == 1
            || number == 8 || number == 11 || 36 <= number <= 37 || 39 <= number <= 41 || 44
            <= number <= 45),
        known_option(of, number) == Some(OptionType::OptimizeMode) <==> of == Optional::File
            && number == 9,
        known_option(of, number) == Some(OptionType::CType) <==> of == Optional::Field && number
            == 1,
        known_option(of, number) == Some(OptionType::JsType) <==> of == Optional::Field && number
            == 6,
        known_option(of, number) == Some(OptionType::IdempotencyLevel) <==> of == Optional::Method
            && number == 34,
        known_option(of, number) == Some(OptionType::Flag) <==> match of {
            Optional::File => number == 10 || 16 <= number <= 18 || number == 20 || number == 23
                || number == 27 || number == 31 || number == 42,
            Optional::Message => 1 <= number <= 3 || number == 7,
            Optional::Field => 2 <= number <= 3 || number == 5 || number == 10,
            Optional::Enumeration => 2 <= number <= 3,
            Optional::EnumValue => number == 1,
            Optional::Service => number == 33,
            Optional::Method => number == 33,
            Optional::Oneof | Optional::ExtensionRange => false,
        },
{
}

/// The keys of maps are integers, flags and texts: no numbers with a fraction (types 1 and 2), no
/// groups, messages, bytes or enums (types 10, 11, 12 and 14).
pub proof fn law_keys_are_integers_flags_and_texts(ty: i32)
    ensures
        is_key_type(ty) <==> 1 <= ty <= 18 && ty != 1 && ty != 2 && ty != 10 && ty != 11 && ty != 12
            && ty != 14,
{
}

} // verus!
