//! Reading the messages of `descriptor.proto`: what a file, a message or a field says.

use crate::dynamic::{
    blank, contents, get_field, items, kind_of, lemma_names_differ, value_item, Contents, Item, Kind,
    Schema,
};
use crate::features::FeatureOverrides;
use crate::lowering::{FieldDecl, FileDecl, FileModel, MessageDecl, MessageModel};
use crate::topology::views;
use prost_reflect::{DynamicMessage, Value};
use vstd::prelude::*;

verus! {

/// The number that a field holds.
pub open spec fn number_in(c: Contents, name: Seq<char>) -> i32 {
    match c.get(name) {
        Item::Number(number) => number,
        _ => 0,
    }
}

/// The number that a field is set to.
pub open spec fn set_number_in(c: Contents, name: Seq<char>) -> Option<i32> {
    match c.get(name) {
        Item::Number(number) => if c.has(name) {
            Some(number)
        } else {
            None
        },
        _ => None,
    }
}

/// The text that a field holds.
pub open spec fn text_in(c: Contents, name: Seq<char>) -> Seq<char> {
    match c.get(name) {
        Item::Text(text) => text,
        _ => Seq::empty(),
    }
}

/// The integer that a field holds.
pub open spec fn integer_in(c: Contents, name: Seq<char>) -> i32 {
    match c.get(name) {
        Item::Integer(number) => number,
        _ => 0,
    }
}

/// The flag that a field holds.
pub open spec fn flag_in(c: Contents, name: Seq<char>) -> bool {
    match c.get(name) {
        Item::Flag(flag) => flag,
        _ => false,
    }
}

/// The texts that a field holds.
pub open spec fn texts_in(c: Contents, name: Seq<char>) -> Seq<Seq<char>> {
    match c.get(name) {
        Item::List(list) => Seq::new(list.len(), |i: int| list[i]->Text_0),
        _ => Seq::empty(),
    }
}

/// The integers that a field holds.
pub open spec fn integers_in(c: Contents, name: Seq<char>) -> Seq<i32> {
    match c.get(name) {
        Item::List(list) => Seq::new(list.len(), |i: int| list[i]->Integer_0),
        _ => Seq::empty(),
    }
}

/// The message that a value is.
pub open spec fn message_of(item: Item) -> Contents {
    match item {
        Item::Message(message) => message,
        _ => blank(Schema::Other),
    }
}

/// The messages that a field holds.
pub open spec fn messages_in(c: Contents, name: Seq<char>) -> Seq<Contents> {
    match c.get(name) {
        Item::List(list) => messages_of(list),
        _ => Seq::empty(),
    }
}

/// The messages that the values of a list are.
pub open spec fn messages_of(list: Seq<Item>) -> Seq<Contents> {
    Seq::new(list.len(), |i: int| message_of(list[i]))
}

/// Messages as the values of a list.
pub open spec fn listed(messages: Seq<Contents>) -> Seq<Item> {
    Seq::new(messages.len(), |i: int| Item::Message(messages[i]))
}

/// The features that the options of a declaration set.
pub open spec fn overrides_in(c: Contents) -> Option<FeatureOverrides> {
    match c.get("options"@) {
        Item::Message(options) => match options.get("features"@) {
            Item::Message(features) => if options.has("features"@) {
                Some(
                    FeatureOverrides {
                        field_presence: set_number_in(features, "field_presence"@),
                        repeated_field_encoding: set_number_in(
                            features,
                            "repeated_field_encoding"@,
                        ),
                        message_encoding: set_number_in(features, "message_encoding"@),
                    },
                )
            } else {
                None
            },
            _ => None,
        },
        _ => None,
    }
}

/// The option that says whether a field is packed.
pub open spec fn packed_in(c: Contents) -> Option<bool> {
    match c.get("options"@) {
        Item::Message(options) => match options.get("packed"@) {
            Item::Flag(packed) => if options.has("packed"@) {
                Some(packed)
            } else {
                None
            },
            _ => None,
        },
        _ => None,
    }
}

/// The oneof that a field belongs to.
pub open spec fn oneof_index_in(c: Contents) -> Option<i32> {
    match c.get("oneof_index"@) {
        Item::Integer(index) => if c.has("oneof_index"@) {
            Some(index)
        } else {
            None
        },
        _ => None,
    }
}

/// What a field says.
pub open spec fn field_in(c: Contents) -> FieldDecl {
    FieldDecl {
        label: number_in(c, "label"@),
        ty: number_in(c, "type"@),
        oneof_index: oneof_index_in(c),
        features: overrides_in(c),
        packed: packed_in(c),
    }
}

/// What the fields that a field of a declaration holds say.
pub open spec fn fields_in(c: Contents, name: Seq<char>) -> Seq<FieldDecl> {
    let fields = messages_in(c, name);
    Seq::new(fields.len(), |i: int| field_in(fields[i]))
}

/// What a message says.
pub open spec fn message_in(c: Contents) -> MessageModel
    decreases c,
{
    let oneofs = messages_in(c, "oneof_decl"@);
    MessageModel {
        features: overrides_in(c),
        oneofs: Seq::new(oneofs.len(), |i: int| overrides_in(oneofs[i])),
        fields: fields_in(c, "field"@),
        extensions: fields_in(c, "extension"@),
        nested: match c.get("nested_type"@) {
            Item::List(list) => Seq::new(
                list.len(),
                |i: int|
                    match list[i] {
                        Item::Message(nested) if 0 <= i < list.len() => message_in(nested),
                        _ => arbitrary(),
                    },
            ),
            _ => Seq::empty(),
        },
    }
}

/// The syntax that a file is written in.
pub open spec fn syntax_in(c: Contents) -> Seq<char> {
    text_in(c, "syntax"@)
}

/// What a file says.
pub open spec fn file_in(c: Contents) -> FileModel {
    let messages = messages_in(c, "message_type"@);
    FileModel {
        syntax: syntax_in(c),
        edition: set_number_in(c, "edition"@),
        features: overrides_in(c),
        messages: Seq::new(messages.len(), |i: int| message_in(messages[i])),
        extensions: fields_in(c, "extension"@),
    }
}

/// A typed message holds in each field for messages nothing else than messages of that kind, each
/// of them typed.
pub(crate) proof fn lemma_typed_list(c: Contents, name: Seq<char>, schema: Schema)
    requires
        c.typed(),
        kind_of(c.schema, name) == Some(Kind::Messages(schema)),
    ensures
        c.get(name) is List,
        messages_in(c, name).len() == c.get(name)->List_0.len(),
        forall|i: int|
            0 <= i < messages_in(c, name).len() ==> c.get(name)->List_0[i] == Item::Message(
                messages_in(c, name)[i],
            ) && (#[trigger] messages_in(c, name)[i]).schema == schema && messages_in(
                c,
                name,
            )[i].typed(),
{
    if c.has(name) {
        assert(c.fields.contains_key(name));
        let list = c.fields[name]->List_0;
        assert forall|i: int| 0 <= i < messages_in(c, name).len() implies c.get(name)->List_0[i]
            == Item::Message(messages_in(c, name)[i]) && (#[trigger] messages_in(
            c,
            name,
        )[i]).schema == schema && messages_in(c, name)[i].typed() by {
            assert(list[i] is Message);
        }
    }
}

/// A typed message holds in each field for a message a typed message of that kind.
pub(crate) proof fn lemma_typed_message(c: Contents, name: Seq<char>, schema: Schema)
    requires
        c.typed(),
        schema != Schema::Other,
        kind_of(c.schema, name) == Some(Kind::Message(schema)),
    ensures
        c.get(name) is Message,
        c.get(name)->Message_0.schema == schema,
        c.get(name)->Message_0.typed(),
{
    if c.has(name) {
        assert(c.fields.contains_key(name));
    }
}

/// Reads the number that a field holds.
pub(crate) fn read_number(message: &DynamicMessage, name: &str) -> (r: i32)
    requires
        kind_of(contents(*message).schema, name@) is Some,
    ensures
        r == number_in(contents(*message), name@),
{
    match get_field(message, name).as_enum_number() {
        Some(number) => number,
        None => 0,
    }
}

/// Reads the text that a field holds.
pub(crate) fn read_text(message: &DynamicMessage, name: &str) -> (r: String)
    requires
        kind_of(contents(*message).schema, name@) is Some,
    ensures
        r@ == text_in(contents(*message), name@),
{
    let value: Value = get_field(message, name);
    match value.as_str() {
        Some(text) => text.to_owned(),
        None => String::new(),
    }
}

/// Reads the integer that a field holds.
pub(crate) fn read_integer(message: &DynamicMessage, name: &str) -> (r: i32)
    requires
        kind_of(contents(*message).schema, name@) is Some,
    ensures
        r == integer_in(contents(*message), name@),
{
    match get_field(message, name).as_i32() {
        Some(number) => number,
        None => 0,
    }
}

/// Reads the flag that a field holds.
pub(crate) fn read_flag(message: &DynamicMessage, name: &str) -> (r: bool)
    requires
        kind_of(contents(*message).schema, name@) is Some,
    ensures
        r == flag_in(contents(*message), name@),
{
    match get_field(message, name).as_bool() {
        Some(flag) => flag,
        None => false,
    }
}

/// Reads the texts that a field holds.
pub(crate) fn read_texts(message: &DynamicMessage, name: &str) -> (r: Vec<String>)
    requires
        contents(*message).typed(),
        kind_of(contents(*message).schema, name@) == Some(Kind::Texts),
    ensures
        views(r@) == texts_in(contents(*message), name@),
{
    let ghost c = contents(*message);
    proof {
        lemma_get_is_of(c, name@);
    }
    let mut texts: Vec<String> = Vec::new();
    let value: Value = get_field(message, name);
    if let Some(list) = value.as_list() {
        let mut i: usize = 0;
        while i < list.len()
            invariant
                i <= list@.len(),
                texts@.len() == i,
                c.get(name@) == Item::List(items(list@)),
                c.get(name@).is_of(Some(Kind::Texts)),
                forall|j: int| 0 <= j < i ==> (#[trigger] texts@[j])@ == items(list@)[j]->Text_0,
            decreases list@.len() - i,
        {
            assert(items(list@)[i as int] is Text);
            if let Some(text) = list[i].as_str() {
                texts.push(text.to_owned());
            }
            i += 1;
        }
    }
    assert(views(texts@) =~= texts_in(c, name@));
    texts
}

/// Reads the integers that a field holds.
pub(crate) fn read_integers(message: &DynamicMessage, name: &str) -> (r: Vec<i32>)
    requires
        contents(*message).typed(),
        kind_of(contents(*message).schema, name@) == Some(Kind::Ints),
    ensures
        r@ == integers_in(contents(*message), name@),
{
    let ghost c = contents(*message);
    proof {
        lemma_get_is_of(c, name@);
    }
    let mut integers: Vec<i32> = Vec::new();
    let value: Value = get_field(message, name);
    if let Some(list) = value.as_list() {
        let mut i: usize = 0;
        while i < list.len()
            invariant
                i <= list@.len(),
                integers@.len() == i,
                c.get(name@) == Item::List(items(list@)),
                c.get(name@).is_of(Some(Kind::Ints)),
                forall|j: int| 0 <= j < i ==> #[trigger] integers@[j] == items(list@)[j]->Integer_0,
            decreases list@.len() - i,
        {
            assert(items(list@)[i as int] is Integer);
            if let Some(integer) = list[i].as_i32() {
                integers.push(integer);
            }
            i += 1;
        }
    }
    assert(integers@ =~= integers_in(c, name@));
    integers
}

/// Reads the number that a field is set to.
fn read_set_number(message: &DynamicMessage, name: &str) -> (r: Option<i32>)
    requires
        kind_of(contents(*message).schema, name@) is Some,
    ensures
        r == set_number_in(contents(*message), name@),
{
    if message.has_field_by_name(name) {
        get_field(message, name).as_enum_number()
    } else {
        None
    }
}

/// Whether a message declares something whose options can set features.
pub open spec fn is_declaration(schema: Schema) -> bool {
    schema == Schema::File || schema == Schema::Message || schema == Schema::Field || schema
        == Schema::Oneof
}

/// Reads the features that the options of a declaration set.
fn read_overrides(declaration: &DynamicMessage) -> (r: Option<FeatureOverrides>)
    requires
        contents(*declaration).typed(),
        is_declaration(contents(*declaration).schema),
    ensures
        r == overrides_in(contents(*declaration)),
{
    let ghost c = contents(*declaration);
    proof {
        lemma_names_differ();
    }
    let options: Value = get_field(declaration, "options");
    match options.as_message() {
        Some(options) => {
            proof {
                let schema = kind_of(c.schema, "options"@)->0->Message_0;
                assert(kind_of(c.schema, "options"@) == Some(Kind::Message(schema)));
                lemma_typed_message(c, "options"@, schema);
                assert(kind_of(schema, "features"@) == Some(Kind::Message(Schema::Features)));
                lemma_typed_message(contents(*options), "features"@, Schema::Features);
            }
            if !options.has_field_by_name("features") {
                return None;
            }
            let features: Value = get_field(options, "features");
            match features.as_message() {
                Some(features) => Some(
                    FeatureOverrides {
                        field_presence: read_set_number(features, "field_presence"),
                        repeated_field_encoding: read_set_number(
                            features,
                            "repeated_field_encoding",
                        ),
                        message_encoding: read_set_number(features, "message_encoding"),
                    },
                ),
                None => None,
            }
        },
        None => None,
    }
}

/// Reads the option that says whether a field is packed.
pub(crate) fn read_packed(field: &DynamicMessage) -> (r: Option<bool>)
    requires
        contents(*field).typed(),
        contents(*field).schema == Schema::Field,
    ensures
        r == packed_in(contents(*field)),
{
    proof {
        lemma_names_differ();
        lemma_typed_message(contents(*field), "options"@, Schema::FieldOptions);
    }
    let options: Value = get_field(field, "options");
    match options.as_message() {
        Some(options) => if options.has_field_by_name("packed") {
            get_field(options, "packed").as_bool()
        } else {
            None
        },
        None => None,
    }
}

/// Reads a field.
fn read_field(field: &DynamicMessage) -> (r: FieldDecl)
    requires
        contents(*field).typed(),
        contents(*field).schema == Schema::Field,
    ensures
        r == field_in(contents(*field)),
{
    proof {
        lemma_names_differ();
    }
    FieldDecl {
        label: read_number(field, "label"),
        ty: read_number(field, "type"),
        oneof_index: if field.has_field_by_name("oneof_index") {
            get_field(field, "oneof_index").as_i32()
        } else {
            None
        },
        features: read_overrides(field),
        packed: read_packed(field),
    }
}

/// Reads the fields that a field of a declaration holds.
fn read_fields(declaration: &DynamicMessage, name: &str) -> (r: Vec<FieldDecl>)
    requires
        contents(*declaration).typed(),
        kind_of(contents(*declaration).schema, name@) == Some(Kind::Messages(Schema::Field)),
    ensures
        r@ == fields_in(contents(*declaration), name@),
{
    let ghost c = contents(*declaration);
    proof {
        lemma_typed_list(c, name@, Schema::Field);
    }
    let mut fields: Vec<FieldDecl> = Vec::new();
    let value: Value = get_field(declaration, name);
    if let Some(list) = value.as_list() {
        let mut i: usize = 0;
        while i < list.len()
            invariant
                i <= list@.len(),
                fields@.len() == i,
                c.get(name@) == Item::List(items(list@)),
                messages_in(c, name@).len() == list@.len(),
                forall|j: int|
                    0 <= j < list@.len() ==> c.get(name@)->List_0[j] == Item::Message(
                        messages_in(c, name@)[j],
                    ) && (#[trigger] messages_in(c, name@)[j]).schema == Schema::Field
                        && messages_in(c, name@)[j].typed(),
                forall|j: int| 0 <= j < i ==> fields@[j] == field_in(messages_in(c, name@)[j]),
            decreases list@.len() - i,
        {
            assert(value_item(list@[i as int]) == Item::Message(messages_in(c, name@)[i as int]));
            if let Some(field) = list[i].as_message() {
                fields.push(read_field(field));
            }
            i += 1;
        }
    }
    assert(fields@ =~= fields_in(c, name@));
    fields
}

/// Reads the features that the options of each oneof of a message set.
fn read_oneofs(message: &DynamicMessage) -> (r: Vec<Option<FeatureOverrides>>)
    requires
        contents(*message).typed(),
        contents(*message).schema == Schema::Message,
    ensures
        r@ == message_in(contents(*message)).oneofs,
{
    let ghost c = contents(*message);
    proof {
        lemma_names_differ();
        lemma_typed_list(c, "oneof_decl"@, Schema::Oneof);
    }
    let mut oneofs: Vec<Option<FeatureOverrides>> = Vec::new();
    let value: Value = get_field(message, "oneof_decl");
    if let Some(list) = value.as_list() {
        let mut i: usize = 0;
        while i < list.len()
            invariant
                i <= list@.len(),
                oneofs@.len() == i,
                c.get("oneof_decl"@) == Item::List(items(list@)),
                messages_in(c, "oneof_decl"@).len() == list@.len(),
                forall|j: int|
                    0 <= j < list@.len() ==> c.get("oneof_decl"@)->List_0[j] == Item::Message(
                        messages_in(c, "oneof_decl"@)[j],
                    ) && (#[trigger] messages_in(c, "oneof_decl"@)[j]).schema == Schema::Oneof
                        && messages_in(c, "oneof_decl"@)[j].typed(),
                forall|j: int|
                    0 <= j < i ==> oneofs@[j] == overrides_in(messages_in(c, "oneof_decl"@)[j]),
            decreases list@.len() - i,
        {
            assert(value_item(list@[i as int]) == Item::Message(
                messages_in(c, "oneof_decl"@)[i as int],
            ));
            if let Some(oneof) = list[i].as_message() {
                oneofs.push(read_overrides(oneof));
            }
            i += 1;
        }
    }
    assert(oneofs@ =~= message_in(c).oneofs);
    oneofs
}

/// Reads the messages that a field of a declaration holds.
fn read_messages(declaration: &DynamicMessage, name: &str) -> (r: Vec<MessageDecl>)
    requires
        contents(*declaration).typed(),
        kind_of(contents(*declaration).schema, name@) == Some(Kind::Messages(Schema::Message)),
    ensures
        r@.len() == messages_in(contents(*declaration), name@).len(),
        forall|i: int|
            0 <= i < r@.len() ==> (#[trigger] r@[i])@ == message_in(
                messages_in(contents(*declaration), name@)[i],
            ),
    decreases contents(*declaration), 0nat,
{
    let ghost c = contents(*declaration);
    proof {
        lemma_typed_list(c, name@, Schema::Message);
    }
    let mut messages: Vec<MessageDecl> = Vec::new();
    let value: Value = get_field(declaration, name);
    if let Some(list) = value.as_list() {
        let mut i: usize = 0;
        while i < list.len()
            invariant
                c == contents(*declaration),
                i <= list@.len(),
                messages@.len() == i,
                c.get(name@) == Item::List(items(list@)),
                messages_in(c, name@).len() == list@.len(),
                forall|j: int|
                    0 <= j < list@.len() ==> c.get(name@)->List_0[j] == Item::Message(
                        messages_in(c, name@)[j],
                    ) && (#[trigger] messages_in(c, name@)[j]).schema == Schema::Message
                        && messages_in(c, name@)[j].typed(),
                forall|j: int|
                    0 <= j < i ==> (#[trigger] messages@[j])@ == message_in(
                        messages_in(c, name@)[j],
                    ),
            decreases list@.len() - i,
        {
            assert(value_item(list@[i as int]) == Item::Message(messages_in(c, name@)[i as int]));
            if let Some(message) = list[i].as_message() {
                proof {
                    lemma_smaller(c, name@, i as int);
                }
                messages.push(read_message(message));
            }
            i += 1;
        }
    }
    messages
}

/// What a field for messages holds is smaller than the message that has the field.
pub(crate) proof fn lemma_smaller(c: Contents, name: Seq<char>, i: int)
    requires
        c.has(name),
        c.fields[name] is List,
        0 <= i < c.fields[name]->List_0.len(),
        c.fields[name]->List_0[i] is Message,
    ensures
        decreases_to!(c => messages_in(c, name)[i]),
{
    assert(decreases_to!(c => c.fields[name]));
}

/// Reads a message.
fn read_message(message: &DynamicMessage) -> (r: MessageDecl)
    requires
        contents(*message).typed(),
        contents(*message).schema == Schema::Message,
    ensures
        r@ == message_in(contents(*message)),
    decreases contents(*message), 1nat,
{
    let ghost c = contents(*message);
    proof {
        lemma_names_differ();
        lemma_typed_list(c, "nested_type"@, Schema::Message);
    }
    let r = MessageDecl {
        features: read_overrides(message),
        oneofs: read_oneofs(message),
        fields: read_fields(message, "field"),
        extensions: read_fields(message, "extension"),
        nested: read_messages(message, "nested_type"),
    };
    assert(r@.nested =~= message_in(c).nested);
    r
}

/// Reads the syntax that a file is written in.
pub(crate) fn read_syntax(file: &DynamicMessage) -> (r: String)
    requires
        contents(*file).schema == Schema::File,
    ensures
        r@ == syntax_in(contents(*file)),
{
    proof {
        lemma_names_differ();
    }
    read_text(file, "syntax")
}

/// Reads a file.
pub(crate) fn read_file(file: &DynamicMessage) -> (r: FileDecl)
    requires
        contents(*file).typed(),
        contents(*file).schema == Schema::File,
    ensures
        r@ == file_in(contents(*file)),
{
    let ghost c = contents(*file);
    proof {
        lemma_names_differ();
    }
    let r = FileDecl {
        syntax: read_syntax(file),
        edition: read_set_number(file, "edition"),
        features: read_overrides(file),
        messages: read_messages(file, "message_type"),
        extensions: read_fields(file, "extension"),
    };
    assert(r@.messages =~= file_in(c).messages);
    r
}

/// What a field of a typed message gives is of the field's kind.
pub(crate) proof fn lemma_get_is_of(c: Contents, name: Seq<char>)
    requires
        c.typed(),
        kind_of(c.schema, name) is Some,
    ensures
        c.get(name).is_of(kind_of(c.schema, name)),
{
    if c.has(name) {
        assert(c.fields.contains_key(name));
    }
}

/// Whether a list holds the messages of a field.
pub(crate) open spec fn lists(
    c: Contents,
    name: Seq<char>,
    schema: Schema,
    list: Seq<Value>,
) -> bool {
    &&& c.get(name) == Item::List(items(list))
    &&& messages_in(c, name).len() == list.len()
    &&& forall|j: int|
        0 <= j < list.len() ==> value_item(#[trigger] list[j]) == Item::Message(
            messages_in(c, name)[j],
        ) && messages_in(c, name)[j].schema == schema && messages_in(c, name)[j].typed()
}

/// The value of a field for messages holds them.
pub(crate) proof fn lemma_lists(c: Contents, name: Seq<char>, schema: Schema)
    requires
        c.typed(),
        kind_of(c.schema, name) == Some(Kind::Messages(schema)),
    ensures
        c.get(name) is List,
        forall|list: Seq<Value>| c.get(name) == Item::List(#[trigger] items(list)) ==> lists(
            c,
            name,
            schema,
            list,
        ),
{
    lemma_typed_list(c, name, schema);
    assert forall|list: Seq<Value>| c.get(name) == Item::List(#[trigger] items(list)) implies lists(
        c,
        name,
        schema,
        list,
    ) by {
        assert forall|j: int| 0 <= j < list.len() implies value_item(#[trigger] list[j])
            == Item::Message(messages_in(c, name)[j]) && messages_in(c, name)[j].schema == schema
            && messages_in(c, name)[j].typed() by {
            assert(items(list)[j] == value_item(list[j]));
        }
    }
}

} // verus!
