//! How deep messages are nested, before and after lowering.

use crate::dynamic::{kind_of, lemma_names_differ, Contents, Item, Kind, Schema};
use crate::editions::{lowered, lowered_files, lowered_set};
use crate::lowering::{lowered_file, FieldDecl, MessageModel};
use crate::reading::{
    file_in, lemma_smaller, lemma_typed_list, lemma_typed_message, listed, messages_in, number_in,
    syntax_in,
};
use crate::writing::{
    field_out, fields_out, lemma_message_out_typed, message_out, messages_out, with_messages,
};
use vstd::prelude::*;

verus! {

/// A message that is within some levels is within more.
pub(crate) proof fn lemma_within_more(c: Contents, levels: nat, more: nat)
    requires
        c.within(levels),
        levels <= more,
    ensures
        c.within(more),
    decreases c,
{
    assert forall|name: Seq<char>| #[trigger]
        c.fields.contains_key(name) implies c.fields[name].within(more) by {
        assert(decreases_to!(c => c.fields[name]));
        lemma_item_within_more(c.fields[name], levels, more);
    }
}

proof fn lemma_item_within_more(item: Item, levels: nat, more: nat)
    requires
        item.within(levels),
        levels <= more,
    ensures
        item.within(more),
    decreases item,
{
    match item {
        Item::Message(message) => lemma_within_more(
            message,
            (levels - 1) as nat,
            (more - 1) as nat,
        ),
        Item::List(list) => {
            assert forall|i: int| 0 <= i < list.len() implies match #[trigger] list[i] {
                Item::Message(message) => more > 0 && message.within((more - 1) as nat),
                _ => true,
            } by {
                if let Item::Message(message) = list[i] {
                    lemma_within_more(message, (levels - 1) as nat, (more - 1) as nat);
                }
            }
        },
        _ => {},
    }
}

/// Setting a field to a value that is within some levels keeps a message within them.
proof fn lemma_with_within(c: Contents, name: Seq<char>, item: Item, levels: nat)
    requires
        c.within(levels),
        item.within(levels),
    ensures
        c.with(name, item).within(levels),
        c.without(name).within(levels),
{
    let set = c.with(name, item);
    assert forall|other: Seq<char>| #[trigger]
        set.fields.contains_key(other) implies set.fields[other].within(levels) by {
        if other != name {
            assert(c.fields.contains_key(other));
        }
    }
    let unset = c.without(name);
    assert forall|other: Seq<char>| #[trigger]
        unset.fields.contains_key(other) implies unset.fields[other].within(levels) by {
        assert(c.fields.contains_key(other));
    }
}

/// The messages of a field are within one level less than the message that has the field.
proof fn lemma_messages_within(c: Contents, name: Seq<char>, schema: Schema, levels: nat)
    requires
        c.typed(),
        kind_of(c.schema, name) == Some(Kind::Messages(schema)),
        c.within(levels),
    ensures
        messages_in(c, name).len() > 0 ==> levels > 0,
        all_within(messages_in(c, name), (levels - 1) as nat),
{
    lemma_typed_list(c, name, schema);
    let messages = messages_in(c, name);
    assert forall|i: int| 0 <= i < messages.len() implies levels > 0 && (
    #[trigger] messages[i]).within((levels - 1) as nat) by {
        assert(c.fields.contains_key(name));
        let list = c.fields[name]->List_0;
        assert(list[i] == Item::Message(messages[i]));
    }
    if messages.len() > 0 {
        assert(messages[0].within((levels - 1) as nat));
    }
}

/// Whether all messages are within some levels.
spec fn all_within(messages: Seq<Contents>, levels: nat) -> bool {
    forall|i: int| 0 <= i < messages.len() ==> (#[trigger] messages[i]).within(levels)
}

/// A list of messages that are within some levels is within one more.
proof fn lemma_listed_within(messages: Seq<Contents>, levels: nat)
    requires
        forall|i: int| 0 <= i < messages.len() ==> (#[trigger] messages[i]).within(levels),
    ensures
        Item::List(listed(messages)).within(levels + 1),
{
    let list = listed(messages);
    assert forall|i: int| 0 <= i < list.len() implies match #[trigger] list[i] {
        Item::Message(message) => message.within(levels),
        _ => true,
    } by {
        assert(messages[i].within(levels));
    }
}

/// A field that is given options gets at most one level deeper.
proof fn lemma_field_out_within(c: Contents, decl: FieldDecl, levels: nat)
    requires
        c.typed(),
        c.schema == Schema::Field,
        c.within(levels),
    ensures
        field_out(c, decl).within(levels + 1),
{
    lemma_names_differ();
    lemma_within_more(c, levels, levels + 1);
    lemma_with_within(c, "label"@, Item::Number(decl.label), levels + 1);
    let labelled = if decl.label != number_in(c, "label"@) {
        c.with("label"@, Item::Number(decl.label))
    } else {
        c
    };
    lemma_with_within(labelled, "type"@, Item::Number(decl.ty), levels + 1);
    let typed = if decl.ty != number_in(c, "type"@) {
        labelled.with("type"@, Item::Number(decl.ty))
    } else {
        labelled
    };
    if decl.packed is Some {
        lemma_typed_message(c, "options"@, Schema::FieldOptions);
        let options = c.get("options"@)->Message_0;
        let packed = Item::Flag(decl.packed->0);
        if c.has("options"@) {
            assert(c.fields.contains_key("options"@));
            lemma_within_more(options, (levels - 1) as nat, levels);
        }
        assert(options.within(levels));
        lemma_with_within(options, "packed"@, packed, levels);
        let item = Item::Message(options.with("packed"@, packed));
        assert(item.within(levels + 1));
        lemma_with_within(typed, "options"@, item, levels + 1);
    }
}

/// Fields of a declaration that are given options leave it at most one level deeper.
proof fn lemma_with_fields_within(
    c: Contents,
    out: Contents,
    name: Seq<char>,
    decls: Seq<FieldDecl>,
    levels: nat,
)
    requires
        c.typed(),
        kind_of(c.schema, name) == Some(Kind::Messages(Schema::Field)),
        c.within(levels),
        out.within(levels + 1),
    ensures
        with_messages(out, name, fields_out(messages_in(c, name), decls)).within(levels + 1),
{
    let fields = messages_in(c, name);
    let after = fields_out(fields, decls);
    lemma_typed_list(c, name, Schema::Field);
    lemma_messages_within(c, name, Schema::Field, levels);
    assert forall|i: int| 0 <= i < after.len() implies (#[trigger] after[i]).within(levels) by {
        assert(fields[i].within((levels - 1) as nat));
        if i < decls.len() {
            lemma_field_out_within(fields[i], decls[i], (levels - 1) as nat);
        } else {
            lemma_within_more(fields[i], (levels - 1) as nat, levels);
        }
    }
    lemma_listed_within(after, levels);
    lemma_with_within(out, name, Item::List(listed(after)), levels + 1);
}

/// Messages of a declaration whose fields are given options leave it at most one level deeper.
proof fn lemma_with_messages_within(
    c: Contents,
    out: Contents,
    name: Seq<char>,
    decls: Seq<MessageModel>,
    levels: nat,
)
    requires
        c.typed(),
        kind_of(c.schema, name) == Some(Kind::Messages(Schema::Message)),
        c.within(levels),
        out.within(levels + 1),
    ensures
        with_messages(out, name, messages_out(messages_in(c, name), decls)).within(levels + 1),
    decreases c, 0nat,
{
    let messages = messages_in(c, name);
    let after = messages_out(messages, decls);
    lemma_typed_list(c, name, Schema::Message);
    lemma_messages_within(c, name, Schema::Message, levels);
    assert forall|i: int| 0 <= i < after.len() implies (#[trigger] after[i]).within(levels) by {
        assert(messages[i].within((levels - 1) as nat));
        if i < decls.len() {
            lemma_smaller(c, name, i);
            lemma_message_out_within(messages[i], decls[i], (levels - 1) as nat);
        } else {
            lemma_within_more(messages[i], (levels - 1) as nat, levels);
        }
    }
    lemma_listed_within(after, levels);
    lemma_with_within(out, name, Item::List(listed(after)), levels + 1);
}

/// A message whose fields are given options gets at most one level deeper.
proof fn lemma_message_out_within(c: Contents, decl: MessageModel, levels: nat)
    requires
        c.typed(),
        c.schema == Schema::Message,
        c.within(levels),
    ensures
        message_out(c, decl).within(levels + 1),
    decreases c, 1nat,
{
    lemma_names_differ();
    lemma_within_more(c, levels, levels + 1);
    lemma_message_out_typed(c, decl);
    lemma_with_fields_within(c, c, "field"@, decl.fields, levels);
    let c1 = with_messages(c, "field"@, fields_out(messages_in(c, "field"@), decl.fields));
    lemma_with_fields_within(c, c1, "extension"@, decl.extensions, levels);
    let c2 = with_messages(
        c1,
        "extension"@,
        fields_out(messages_in(c, "extension"@), decl.extensions),
    );
    lemma_with_messages_within(c, c2, "nested_type"@, decl.nested, levels);
}

/// Lowering nests the messages of a file at most one level deeper: it can give options to a field
/// that has none.
pub proof fn law_lowering_nests_one_level_deeper_at_most(c: Contents, levels: nat)
    requires
        c.typed(),
        c.schema == Schema::File,
        c.within(levels),
    ensures
        lowered(c).within(levels + 1),
{
    lemma_within_more(c, levels, levels + 1);
    if syntax_in(c) == "editions"@ {
        lemma_names_differ();
        let decl = lowered_file(file_in(c));
        lemma_with_messages_within(c, c, "message_type"@, decl.messages, levels);
        let c1 = with_messages(
            c,
            "message_type"@,
            messages_out(messages_in(c, "message_type"@), decl.messages),
        );
        lemma_with_fields_within(c, c1, "extension"@, decl.extensions, levels);
        let c2 = with_messages(
            c1,
            "extension"@,
            fields_out(messages_in(c, "extension"@), decl.extensions),
        );
        lemma_with_within(c2, "syntax"@, Item::Text(decl.syntax), levels + 1);
        let c3 = c2.with("syntax"@, Item::Text(decl.syntax));
        lemma_with_within(c3, "edition"@, Item::Number(0), levels + 1);
    }
}

/// Lowering nests the messages of a set of files at most one level deeper.
pub proof fn law_lowering_a_set_nests_one_level_deeper_at_most(c: Contents, levels: nat)
    requires
        c.typed(),
        c.schema == Schema::FileSet,
        c.within(levels),
    ensures
        lowered_set(c).within(levels + 1),
{
    let files = messages_in(c, "file"@);
    let after = lowered_files(files);
    lemma_within_more(c, levels, levels + 1);
    lemma_typed_list(c, "file"@, Schema::File);
    lemma_messages_within(c, "file"@, Schema::File, levels);
    assert forall|i: int| 0 <= i < after.len() implies (#[trigger] after[i]).within(levels) by {
        assert(files[i].within((levels - 1) as nat));
        law_lowering_nests_one_level_deeper_at_most(files[i], (levels - 1) as nat);
    }
    lemma_listed_within(after, levels);
    lemma_with_within(c, "file"@, Item::List(listed(after)), levels + 1);
}

/// A set of which no file is under an edition comes out of lowering as it is, however deep its
/// messages are nested.
pub proof fn law_sets_without_editions_are_untouched(c: Contents)
    requires
        c.typed(),
        c.schema == Schema::FileSet,
        forall|i: int|
            0 <= i < messages_in(c, "file"@).len() ==> syntax_in(
                #[trigger] messages_in(c, "file"@)[i],
            ) != "editions"@,
    ensures
        lowered_set(c) == c,
{
    let files = messages_in(c, "file"@);
    lemma_typed_list(c, "file"@, Schema::File);
    assert(lowered_files(files) =~= files);
    if c.has("file"@) {
        assert(listed(files) =~= c.fields["file"@]->List_0);
        assert(c.fields.insert("file"@, Item::List(listed(files))) =~= c.fields);
        assert(c.fields.contains_key("file"@));
    } else {
        assert(listed(files) =~= Seq::<Item>::empty());
        assert(c.fields.remove("file"@) =~= c.fields);
    }
}

} // verus!
