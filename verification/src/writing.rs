//! Changing the messages of `descriptor.proto`: having a file, a message or a field say something.

use crate::dynamic::{
    contents, items, kind_of, lemma_names_differ, set_field, value_item, Contents, Item, Kind,
    Scalar, Schema,
};
use crate::lowering::{models, FieldDecl, FileDecl, FileModel, MessageDecl, MessageModel};
use crate::reading::{
    field_in, lemma_get_is_of, lemma_smaller, lemma_typed_list, lemma_typed_message, listed,
    message_in, message_of, messages_in, messages_of, number_in, packed_in, read_number,
    read_packed,
};
use prost_reflect::{DynamicMessage, Value};
use vstd::prelude::*;

verus! {

/// A field that says `decl`, and is in all else as it was. What it says already is not said anew:
/// a field that is not set stays so where the default will do.
pub open spec fn field_out(c: Contents, decl: FieldDecl) -> Contents {
    let labelled = if decl.label != number_in(c, "label"@) {
        c.with("label"@, Item::Number(decl.label))
    } else {
        c
    };
    let typed = if decl.ty != number_in(c, "type"@) {
        labelled.with("type"@, Item::Number(decl.ty))
    } else {
        labelled
    };
    match (decl.packed, c.get("options"@)) {
        (Some(packed), Item::Message(options)) => if packed_in(c) != Some(packed) {
            typed.with("options"@, Item::Message(options.with("packed"@, Item::Flag(packed))))
        } else {
            typed
        },
        _ => typed,
    }
}

/// Fields that say `decls`, and are in all else as they were.
pub open spec fn fields_out(fields: Seq<Contents>, decls: Seq<FieldDecl>) -> Seq<Contents> {
    Seq::new(
        fields.len(),
        |i: int|
            if i < decls.len() {
                field_out(fields[i], decls[i])
            } else {
                fields[i]
            },
    )
}

/// A declaration that holds `messages` in one of its fields.
pub open spec fn with_messages(c: Contents, name: Seq<char>, messages: Seq<Contents>) -> Contents {
    c.with(name, Item::List(listed(messages)))
}

/// A message that says `decl`, and is in all else as it was.
pub open spec fn message_out(c: Contents, decl: MessageModel) -> Contents
    decreases c,
{
    let fields = with_messages(
        c,
        "field"@,
        fields_out(messages_in(c, "field"@), decl.fields),
    );
    let extensions = with_messages(
        fields,
        "extension"@,
        fields_out(messages_in(c, "extension"@), decl.extensions),
    );
    match c.fields["nested_type"@] {
        Item::List(list) if c.has("nested_type"@) => with_messages(
            extensions,
            "nested_type"@,
            nested_out(list, decl.nested),
        ),
        _ => extensions,
    }
}

/// The messages of a list, each of which says what stands at its place in `decls`, and is in all
/// else as it was.
pub open spec fn nested_out(list: Seq<Item>, decls: Seq<MessageModel>) -> Seq<Contents>
    decreases list,
{
    Seq::new(
        list.len(),
        |i: int|
            match list[i] {
                Item::Message(message) if 0 <= i < list.len() && i < decls.len() => message_out(
                    message,
                    decls[i],
                ),
                other => message_of(other),
            },
    )
}

/// Messages that say `decls`, and are in all else as they were.
pub open spec fn messages_out(messages: Seq<Contents>, decls: Seq<MessageModel>) -> Seq<Contents> {
    Seq::new(
        messages.len(),
        |i: int|
            if i < decls.len() {
                message_out(messages[i], decls[i])
            } else {
                messages[i]
            },
    )
}

/// A file that says `decl`, and is in all else as it was.
pub open spec fn file_out(c: Contents, decl: FileModel) -> Contents {
    let messages = with_messages(
        c,
        "message_type"@,
        messages_out(messages_in(c, "message_type"@), decl.messages),
    );
    let extensions = with_messages(
        messages,
        "extension"@,
        fields_out(messages_in(c, "extension"@), decl.extensions),
    );
    let syntax = extensions.with("syntax"@, Item::Text(decl.syntax));
    match decl.edition {
        Some(_) => syntax,
        None => syntax.without("edition"@),
    }
}

/// Setting a field to a value of its kind keeps a message typed, and its other fields as they are.
pub(crate) proof fn lemma_typed_with(c: Contents, name: Seq<char>, item: Item)
    requires
        c.typed(),
        item.is_of(kind_of(c.schema, name)),
    ensures
        c.with(name, item).typed(),
        c.with(name, item).schema == c.schema,
        c.with(name, item).get(name) == item,
        forall|other: Seq<char>|
            other != name ==> #[trigger] c.with(name, item).get(other) == c.get(other),
        forall|other: Seq<char>|
            other != name ==> #[trigger] c.with(name, item).has(other) == c.has(other),
{
    let d = c.with(name, item);
    assert forall|other: Seq<char>| #[trigger]
        d.fields.contains_key(other) implies d.fields[other] != Item::List(Seq::empty())
        && d.fields[other].is_of(kind_of(d.schema, other)) by {
        if other != name {
            assert(c.fields.contains_key(other));
        }
    }
}

/// A field stays typed.
proof fn lemma_field_out_typed(c: Contents, decl: FieldDecl)
    requires
        c.typed(),
        c.schema == Schema::Field,
    ensures
        field_out(c, decl).typed(),
        field_out(c, decl).schema == Schema::Field,
{
    lemma_names_differ();
    let labelled = c.with("label"@, Item::Number(decl.label));
    lemma_typed_with(c, "label"@, Item::Number(decl.label));
    lemma_typed_with(c, "type"@, Item::Number(decl.ty));
    lemma_typed_with(labelled, "type"@, Item::Number(decl.ty));
    if decl.packed is Some {
        lemma_typed_message(c, "options"@, Schema::FieldOptions);
        let options = c.get("options"@)->Message_0;
        let packed = Item::Flag(decl.packed->0);
        lemma_typed_with(options, "packed"@, packed);
        let item = Item::Message(options.with("packed"@, packed));
        let typed = if decl.ty != number_in(c, "type"@) {
            if decl.label != number_in(c, "label"@) {
                labelled.with("type"@, Item::Number(decl.ty))
            } else {
                c.with("type"@, Item::Number(decl.ty))
            }
        } else {
            if decl.label != number_in(c, "label"@) {
                labelled
            } else {
                c
            }
        };
        lemma_typed_with(typed, "options"@, item);
    }
}

/// Has a field say `decl`.
fn write_field(field: &mut DynamicMessage, decl: &FieldDecl)
    requires
        contents(*old(field)).typed(),
        contents(*old(field)).schema == Schema::Field,
    ensures
        contents(*final(field)) == field_out(contents(*old(field)), *decl),
        contents(*final(field)).typed(),
        contents(*final(field)).schema == Schema::Field,
{
    let ghost c = contents(*field);
    proof {
        lemma_names_differ();
        lemma_field_out_typed(c, *decl);
        lemma_typed_message(c, "options"@, Schema::FieldOptions);
        lemma_typed_with(c, "label"@, Item::Number(decl.label));
        lemma_typed_with(c, "type"@, Item::Number(decl.ty));
        lemma_typed_with(
            c.with("label"@, Item::Number(decl.label)),
            "type"@,
            Item::Number(decl.ty),
        );
    }
    let label: i32 = read_number(field, "label");
    let ty: i32 = read_number(field, "type");
    let packed: Option<bool> = read_packed(field);
    if decl.label != label {
        set_field(field, "label", Scalar::Number(decl.label));
    }
    if decl.ty != ty {
        set_field(field, "type", Scalar::Number(decl.ty));
    }
    if let Some(wanted) = decl.packed {
        let said: bool = match packed {
            Some(packed) => packed == wanted,
            None => false,
        };
        if !said {
            if let Some(value) = field.get_field_by_name_mut("options") {
                if let Some(options) = value.as_message_mut() {
                    set_field(options, "packed", Scalar::Flag(wanted));
                }
            }
        }
    }
}

/// Has each field of a list say what stands at its place in `decls`.
fn write_field_list(list: &mut Vec<Value>, decls: &Vec<FieldDecl>)
    requires
        Item::List(items(old(list)@)).is_of(Some(Kind::Messages(Schema::Field))),
    ensures
        items(final(list)@) == listed(fields_out(messages_of(items(old(list)@)), decls@)),
        Item::List(items(final(list)@)).is_of(Some(Kind::Messages(Schema::Field))),
{
    let ghost before = items(list@);
    let ghost messages = messages_of(before);
    let mut i: usize = 0;
    while i < list.len() && i < decls.len()
        invariant
            i <= list@.len(),
            i <= decls@.len(),
            list@.len() == before.len(),
            messages == messages_of(before),
            Item::List(before).is_of(Some(Kind::Messages(Schema::Field))),
            forall|j: int|
                0 <= j < i ==> value_item(#[trigger] list@[j]) == Item::Message(
                    field_out(messages[j], decls@[j]),
                ),
            forall|j: int| i <= j < list@.len() ==> value_item(#[trigger] list@[j]) == before[j],
        decreases list@.len() - i,
    {
        assert(before[i as int] == Item::Message(messages[i as int]));
        let value: &mut Value = &mut list[i];
        if let Some(field) = value.as_message_mut() {
            write_field(field, &decls[i]);
        }
        i += 1;
    }
    proof {
        let out = fields_out(messages, decls@);
        assert forall|j: int| 0 <= j < list@.len() implies value_item(#[trigger] list@[j])
            == Item::Message(out[j]) && out[j].typed() && out[j].schema == Schema::Field by {
            assert(before[j] == Item::Message(messages[j]));
            if j < decls@.len() {
                lemma_field_out_typed(messages[j], decls@[j]);
            }
        }
        assert(items(list@) =~= listed(out));
    }
}

/// Has each field that a field of a declaration holds say what stands at its place in `decls`.
fn write_fields(declaration: &mut DynamicMessage, name: &str, decls: &Vec<FieldDecl>)
    requires
        contents(*old(declaration)).typed(),
        kind_of(contents(*old(declaration)).schema, name@) == Some(Kind::Messages(Schema::Field)),
    ensures
        contents(*final(declaration)) == with_messages(
            contents(*old(declaration)),
            name@,
            fields_out(messages_in(contents(*old(declaration)), name@), decls@),
        ),
        contents(*final(declaration)).typed(),
{
    let ghost c = contents(*declaration);
    proof {
        lemma_typed_list(c, name@, Schema::Field);
        lemma_get_is_of(c, name@);
    }
    if let Some(value) = declaration.get_field_by_name_mut(name) {
        if let Some(list) = value.as_list_mut() {
            write_field_list(list, decls);
        }
    }
    proof {
        lemma_with_fields_typed(c, name@, decls@);
        lemma_typed_with(
            c,
            name@,
            Item::List(listed(fields_out(messages_in(c, name@), decls@))),
        );
    }
}

/// Messages that a field holds stay typed, with the fields that they hold.
pub(crate) proof fn lemma_with_fields_typed(c: Contents, name: Seq<char>, decls: Seq<FieldDecl>)
    requires
        c.typed(),
        kind_of(c.schema, name) == Some(Kind::Messages(Schema::Field)),
    ensures
        Item::List(listed(fields_out(messages_in(c, name), decls))).is_of(
            Some(Kind::Messages(Schema::Field)),
        ),
{
    lemma_typed_list(c, name, Schema::Field);
    let out = fields_out(messages_in(c, name), decls);
    assert forall|i: int| 0 <= i < out.len() implies (#[trigger] out[i]).typed() && out[i].schema
        == Schema::Field by {
        if i < decls.len() {
            lemma_field_out_typed(messages_in(c, name)[i], decls[i]);
        }
    }
}

/// A message stays typed.
pub(crate) proof fn lemma_message_out_typed(c: Contents, decl: MessageModel)
    requires
        c.typed(),
        c.schema == Schema::Message,
    ensures
        message_out(c, decl).typed(),
        message_out(c, decl).schema == Schema::Message,
        message_out(c, decl) == with_messages(
            with_messages(
                with_messages(
                    c,
                    "field"@,
                    fields_out(messages_in(c, "field"@), decl.fields),
                ),
                "extension"@,
                fields_out(messages_in(c, "extension"@), decl.extensions),
            ),
            "nested_type"@,
            messages_out(messages_in(c, "nested_type"@), decl.nested),
        ),
    decreases c,
{
    lemma_names_differ();
    lemma_with_fields_typed(c, "field"@, decl.fields);
    lemma_with_fields_typed(c, "extension"@, decl.extensions);
    lemma_typed_list(c, "nested_type"@, Schema::Message);
    let c1 = with_messages(c, "field"@, fields_out(messages_in(c, "field"@), decl.fields));
    lemma_typed_with(
        c,
        "field"@,
        Item::List(listed(fields_out(messages_in(c, "field"@), decl.fields))),
    );
    lemma_typed_with(
        c1,
        "extension"@,
        Item::List(listed(fields_out(messages_in(c, "extension"@), decl.extensions))),
    );
    let c2 = with_messages(
        c1,
        "extension"@,
        fields_out(messages_in(c, "extension"@), decl.extensions),
    );
    let nested = messages_in(c, "nested_type"@);
    let out = messages_out(nested, decl.nested);
    assert forall|i: int| 0 <= i < out.len() implies (#[trigger] out[i]).typed() && out[i].schema
        == Schema::Message by {
        if i < decl.nested.len() {
            lemma_smaller(c, "nested_type"@, i);
            lemma_message_out_typed(nested[i], decl.nested[i]);
        }
    }
    lemma_typed_with(c2, "nested_type"@, Item::List(listed(out)));
    let list = c.get("nested_type"@)->List_0;
    assert(nested_out(list, decl.nested) =~= out);
    if !c.has("nested_type"@) {
        assert(listed(out) =~= Seq::<Item>::empty());
        assert(!c1.has("nested_type"@) && !c2.has("nested_type"@));
        assert(c2.fields.remove("nested_type"@) =~= c2.fields);
    }
}

/// Has each message of a list say what stands at its place in `decls`.
fn write_message_list(list: &mut Vec<Value>, decls: &Vec<MessageDecl>)
    requires
        Item::List(items(old(list)@)).is_of(Some(Kind::Messages(Schema::Message))),
    ensures
        items(final(list)@) == listed(messages_out(messages_of(items(old(list)@)), models(decls@))),
    decreases decls, 0nat,
{
    let ghost before = items(list@);
    let ghost messages = messages_of(before);
    let mut i: usize = 0;
    while i < list.len() && i < decls.len()
        invariant
            i <= list@.len(),
            i <= decls@.len(),
            list@.len() == before.len(),
            messages == messages_of(before),
            Item::List(before).is_of(Some(Kind::Messages(Schema::Message))),
            forall|j: int|
                0 <= j < i ==> value_item(#[trigger] list@[j]) == Item::Message(
                    message_out(messages[j], decls@[j]@),
                ),
            forall|j: int| i <= j < list@.len() ==> value_item(#[trigger] list@[j]) == before[j],
        decreases list@.len() - i,
    {
        assert(before[i as int] == Item::Message(messages[i as int]));
        let value: &mut Value = &mut list[i];
        if let Some(message) = value.as_message_mut() {
            write_message(message, &decls[i]);
        }
        i += 1;
    }
    proof {
        let out = messages_out(messages, models(decls@));
        assert forall|j: int| 0 <= j < list@.len() implies value_item(#[trigger] list@[j])
            == Item::Message(out[j]) by {
            assert(before[j] == Item::Message(messages[j]));
        }
        assert(items(list@) =~= listed(out));
    }
}

/// Has each message that a field of a declaration holds say what stands at its place in `decls`.
fn write_messages(declaration: &mut DynamicMessage, name: &str, decls: &Vec<MessageDecl>)
    requires
        contents(*old(declaration)).typed(),
        kind_of(contents(*old(declaration)).schema, name@) == Some(Kind::Messages(Schema::Message)),
    ensures
        contents(*final(declaration)) == with_messages(
            contents(*old(declaration)),
            name@,
            messages_out(messages_in(contents(*old(declaration)), name@), models(decls@)),
        ),
    decreases decls, 1nat,
{
    proof {
        lemma_get_is_of(contents(*declaration), name@);
    }
    if let Some(value) = declaration.get_field_by_name_mut(name) {
        if let Some(list) = value.as_list_mut() {
            write_message_list(list, decls);
        }
    }
}

/// Has a message say `decl`.
fn write_message(message: &mut DynamicMessage, decl: &MessageDecl)
    requires
        contents(*old(message)).typed(),
        contents(*old(message)).schema == Schema::Message,
    ensures
        contents(*final(message)) == message_out(contents(*old(message)), decl@),
    decreases decl, 2nat,
{
    let ghost c = contents(*message);
    proof {
        lemma_names_differ();
        lemma_message_out_typed(c, decl@);
        lemma_with_fields_typed(c, "field"@, decl.fields@);
        lemma_typed_with(
            c,
            "field"@,
            Item::List(listed(fields_out(messages_in(c, "field"@), decl.fields@))),
        );
        let c1 = with_messages(c, "field"@, fields_out(messages_in(c, "field"@), decl.fields@));
        lemma_with_fields_typed(c1, "extension"@, decl.extensions@);
        lemma_typed_with(
            c1,
            "extension"@,
            Item::List(listed(fields_out(messages_in(c, "extension"@), decl.extensions@))),
        );
        assert(models(decl.nested@) =~= decl@.nested);
    }
    write_fields(message, "field", &decl.fields);
    write_fields(message, "extension", &decl.extensions);
    write_messages(message, "nested_type", &decl.nested);
}

/// Messages that a field holds stay typed.
pub(crate) proof fn lemma_with_messages_typed(c: Contents, name: Seq<char>, decls: Seq<MessageModel>)
    requires
        c.typed(),
        kind_of(c.schema, name) == Some(Kind::Messages(Schema::Message)),
    ensures
        Item::List(listed(messages_out(messages_in(c, name), decls))).is_of(
            Some(Kind::Messages(Schema::Message)),
        ),
{
    lemma_typed_list(c, name, Schema::Message);
    let out = messages_out(messages_in(c, name), decls);
    assert forall|i: int| 0 <= i < out.len() implies (#[trigger] out[i]).typed() && out[i].schema
        == Schema::Message by {
        if i < decls.len() {
            lemma_message_out_typed(messages_in(c, name)[i], decls[i]);
        }
    }
}

/// A file stays typed.
pub(crate) proof fn lemma_file_out_typed(c: Contents, decl: FileModel)
    requires
        c.typed(),
        c.schema == Schema::File,
    ensures
        file_out(c, decl).typed(),
        file_out(c, decl).schema == Schema::File,
{
    lemma_names_differ();
    let messages = messages_out(messages_in(c, "message_type"@), decl.messages);
    let extensions = fields_out(messages_in(c, "extension"@), decl.extensions);
    lemma_with_messages_typed(c, "message_type"@, decl.messages);
    lemma_with_fields_typed(c, "extension"@, decl.extensions);
    let c1 = with_messages(c, "message_type"@, messages);
    lemma_typed_with(c, "message_type"@, Item::List(listed(messages)));
    let c2 = with_messages(c1, "extension"@, extensions);
    lemma_typed_with(c1, "extension"@, Item::List(listed(extensions)));
    let c3 = c2.with("syntax"@, Item::Text(decl.syntax));
    lemma_typed_with(c2, "syntax"@, Item::Text(decl.syntax));
    let c4 = c3.without("edition"@);
    assert forall|name: Seq<char>| #[trigger]
        c4.fields.contains_key(name) implies c4.fields[name] != Item::List(Seq::empty())
        && c4.fields[name].is_of(kind_of(c4.schema, name)) by {
        assert(c3.fields.contains_key(name));
    }
}

/// Has a file say `decl`.
pub(crate) fn write_file(file: &mut DynamicMessage, decl: FileDecl)
    requires
        contents(*old(file)).typed(),
        contents(*old(file)).schema == Schema::File,
    ensures
        contents(*final(file)) == file_out(contents(*old(file)), decl@),
{
    let ghost c = contents(*file);
    proof {
        lemma_names_differ();
        lemma_with_messages_typed(c, "message_type"@, decl@.messages);
        lemma_typed_with(
            c,
            "message_type"@,
            Item::List(
                listed(messages_out(messages_in(c, "message_type"@), decl@.messages)),
            ),
        );
    }
    write_messages(file, "message_type", &decl.messages);
    write_fields(file, "extension", &decl.extensions);
    set_field(file, "syntax", Scalar::Text(decl.syntax));
    if decl.edition.is_none() {
        file.clear_field_by_name("edition");
    }
}

/// A field that was given messages holds them, and the other fields are as they were.
pub(crate) proof fn lemma_with_messages(
    c: Contents,
    name: Seq<char>,
    schema: Schema,
    messages: Seq<Contents>,
)
    requires
        c.typed(),
        kind_of(c.schema, name) == Some(Kind::Messages(schema)),
        Item::List(listed(messages)).is_of(Some(Kind::Messages(schema))),
    ensures
        with_messages(c, name, messages).typed(),
        with_messages(c, name, messages).schema == c.schema,
        messages_in(with_messages(c, name, messages), name) == messages,
        with_messages(c, name, messages).get(name) == Item::List(listed(messages)),
        forall|other: Seq<char>|
            other != name ==> #[trigger] with_messages(c, name, messages).get(other) == c.get(other),
        forall|other: Seq<char>|
            other != name ==> #[trigger] with_messages(c, name, messages).has(other) == c.has(other),
{
    lemma_typed_with(c, name, Item::List(listed(messages)));
    assert(messages_of(listed(messages)) =~= messages);
}

/// A field that is given the messages that it holds is as it was.
proof fn lemma_same_messages(c: Contents, name: Seq<char>, schema: Schema)
    requires
        c.typed(),
        kind_of(c.schema, name) == Some(Kind::Messages(schema)),
    ensures
        with_messages(c, name, messages_in(c, name)) == c,
{
    lemma_typed_list(c, name, schema);
    let messages = messages_in(c, name);
    if c.has(name) {
        assert(c.fields.contains_key(name));
        assert(listed(messages) =~= c.get(name)->List_0);
        assert(c.fields.insert(name, Item::List(listed(messages))) =~= c.fields);
    } else {
        assert(listed(messages) =~= Seq::<Item>::empty());
        assert(c.fields.remove(name) =~= c.fields);
    }
}

/// A field that says what it said is as it was.
pub proof fn law_field_that_says_the_same_is_as_it_was(c: Contents)
    ensures
        field_out(c, field_in(c)) == c,
{
}

/// A message that says what it said is as it was.
pub proof fn law_message_that_says_the_same_is_as_it_was(c: Contents)
    requires
        c.typed(),
        c.schema == Schema::Message,
    ensures
        message_out(c, message_in(c)) == c,
    decreases c,
{
    lemma_names_differ();
    let decl = message_in(c);
    lemma_message_out_typed(c, decl);
    lemma_same_messages(c, "field"@, Schema::Field);
    lemma_same_messages(c, "extension"@, Schema::Field);
    lemma_same_messages(c, "nested_type"@, Schema::Message);
    assert(fields_out(messages_in(c, "field"@), decl.fields) =~= messages_in(c, "field"@));
    assert(fields_out(messages_in(c, "extension"@), decl.extensions) =~= messages_in(
        c,
        "extension"@,
    ));
    lemma_typed_list(c, "nested_type"@, Schema::Message);
    let nested = messages_in(c, "nested_type"@);
    let list = c.get("nested_type"@)->List_0;
    assert forall|i: int| 0 <= i < nested.len() implies messages_out(nested, decl.nested)[i]
        == nested[i] by {
        assert(list[i] == Item::Message(nested[i]));
        lemma_smaller(c, "nested_type"@, i);
        law_message_that_says_the_same_is_as_it_was(nested[i]);
        assert(decl.nested[i] == message_in(nested[i]));
    }
    assert(messages_out(nested, decl.nested) =~= nested);
}

} // verus!
