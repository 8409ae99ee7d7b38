//! What features come to: each declaration of a lowered file says what the innermost declaration
//! around it that sets a feature has said.
//!
//! All of it is said of what the declarations of `descriptor.proto` hold, by the names of their
//! fields and the numbers of their values.

use crate::dynamic::{lemma_names_differ, Contents, Item, Schema};
use crate::editions::lowered;
use crate::features::Features;
use crate::lowering::{around_field, lowered_field, lowered_file, lowered_message};
use crate::reading::{
    field_in, file_in, lemma_typed_list, lemma_typed_message, message_in, messages_in, overrides_in,
    syntax_in,
};
use crate::writing::{
    field_out, fields_out, lemma_message_out_typed, lemma_typed_with, lemma_with_fields_typed,
    lemma_with_messages, lemma_with_messages_typed, message_out, messages_out, with_messages,
};
use vstd::prelude::*;

verus! {

/// The number that the options of a declaration set a feature to, if they set it.
pub open spec fn set_to(c: Contents, feature: Seq<char>) -> Option<i32> {
    match c.get("options"@) {
        Item::Message(options) if options.has("features"@) => match options.get("features"@) {
            Item::Message(features) if features.has(feature) => match features.get(feature) {
                Item::Number(number) => Some(number),
                _ => None,
            },
            _ => None,
        },
        _ => None,
    }
}

/// Whether declarations, each around the next, give a feature a value: the innermost of those that
/// set it does, and where none does it has the value 1.
pub open spec fn decides(chain: Seq<Contents>, feature: Seq<char>, value: i32) -> bool {
    ||| exists|p: int|
        0 <= p < chain.len() && set_to(#[trigger] chain[p], feature) == Some(value) && forall|q: int|
            p < q < chain.len() ==> set_to(#[trigger] chain[q], feature) is None
    ||| value == 1 && forall|q: int|
        0 <= q < chain.len() ==> set_to(#[trigger] chain[q], feature) is None
}

/// Whether a message is the one at a position of a field of a declaration.
pub open spec fn is_item(c: Contents, name: Seq<char>, i: int, item: Contents) -> bool {
    match c.get(name) {
        Item::List(list) => 0 <= i < list.len() && list[i] == Item::Message(item),
        _ => false,
    }
}

/// Whether the message behind the one at a position of a chain is declared in it: in the file, or
/// in the message.
pub open spec fn goes_down(chain: Seq<Contents>, path: Seq<int>, k: int) -> bool {
    is_item(
        chain[k],
        if k == 0 {
            "message_type"@
        } else {
            "nested_type"@
        },
        path[k],
        chain[k + 1],
    )
}

/// Whether a chain leads from a file through messages, each at its position in the one before.
pub open spec fn leads(chain: Seq<Contents>, path: Seq<int>) -> bool {
    &&& chain.len() == path.len() + 1
    &&& forall|k: int| 0 <= k < path.len() ==> #[trigger] goes_down(chain, path, k)
}

/// The declarations around a field or an extension, from the file on, and itself: a field of a oneof
/// has that around it too.
pub open spec fn around(chain: Seq<Contents>, name: Seq<char>, field: Contents) -> Seq<Contents> {
    match (chain.last().get("oneof_decl"@), field.get("oneof_index"@)) {
        (Item::List(oneofs), Item::Integer(n)) if name == "field"@ && field.has("oneof_index"@)
            && 0 <= n < oneofs.len() && oneofs[n as int] is Message => chain.push(
            oneofs[n as int]->Message_0,
        ).push(field),
        _ => chain.push(field),
    }
}

/// Whether a field of a number of a type can be packed, where it is repeated: all but texts, groups,
/// messages and bytes can.
pub open spec fn packs(field: Contents) -> bool {
    &&& field.get("label"@) == Item::Number(3)
    &&& field.get("type"@) != Item::Number(9)
    &&& field.get("type"@) != Item::Number(10)
    &&& field.get("type"@) != Item::Number(11)
    &&& field.get("type"@) != Item::Number(12)
}

/// Whether a field comes out as one of `proto2` that says what the values of the features said.
///
/// Under the presence 3 it is required (label 2). Under the message encoding 2 a message (type 11)
/// is a group (type 10). If it is repeated and can be packed, its options say whether it is, which
/// it is under the encoding 1. It says nothing else that it did not say before.
pub open spec fn is_said(
    field: Contents,
    out: Contents,
    presence: i32,
    encoding: i32,
    delimiting: i32,
) -> bool {
    &&& out.get("label"@) == if presence == 3 {
        Item::Number(2)
    } else {
        field.get("label"@)
    }
    &&& out.get("type"@) == if delimiting == 2 && field.get("type"@) == Item::Number(11) {
        Item::Number(10)
    } else {
        field.get("type"@)
    }
    &&& if packs(field) {
        match (field.get("options"@), out.get("options"@)) {
            (Item::Message(options), Item::Message(said)) => {
                &&& said.has("packed"@) && said.get("packed"@) == Item::Flag(encoding == 1)
                &&& said.rest == options.rest
                &&& forall|other: Seq<char>|
                    other != "packed"@ ==> #[trigger] said.get(other) == options.get(other)
                        && said.has(other) == options.has(other)
            },
            _ => false,
        }
    } else {
        out.get("options"@) == field.get("options"@) && out.has("options"@) == field.has("options"@)
    }
    &&& out.rest == field.rest
    &&& forall|other: Seq<char>|
        other != "label"@ && other != "type"@ && other != "options"@ ==> #[trigger] out.get(other)
            == field.get(other) && out.has(other) == field.has(other)
}

/// The features in force behind declarations, each around the next.
spec fn force(chain: Seq<Contents>) -> Features
    decreases chain.len(),
{
    if chain.len() == 0 {
        Features::defaults()
    } else {
        force(chain.drop_last()).inheriting(overrides_in(chain.last()))
    }
}

/// What is in force is what the declarations decide.
proof fn lemma_force(chain: Seq<Contents>, presence: i32, encoding: i32, delimiting: i32)
    ensures
        decides(chain, "field_presence"@, presence) ==> force(chain).field_presence == presence,
        decides(chain, "repeated_field_encoding"@, encoding) ==> force(
            chain,
        ).repeated_field_encoding == encoding,
        decides(chain, "message_encoding"@, delimiting) ==> force(chain).message_encoding
            == delimiting,
    decreases chain.len(),
{
    if chain.len() > 0 {
        let head = chain.drop_last();
        lemma_force(head, presence, encoding, delimiting);
        lemma_decides(chain, "field_presence"@, presence);
        lemma_decides(chain, "repeated_field_encoding"@, encoding);
        lemma_decides(chain, "message_encoding"@, delimiting);
    }
}

/// The last declaration decides a feature, or those around it do.
proof fn lemma_decides(chain: Seq<Contents>, feature: Seq<char>, value: i32)
    requires
        chain.len() > 0,
    ensures
        decides(chain, feature, value) <==> match set_to(chain.last(), feature) {
            Some(set) => set == value,
            None => decides(chain.drop_last(), feature, value),
        },
{
    let head = chain.drop_last();
    let end = chain.len() - 1;
    assert forall|q: int| 0 <= q < head.len() implies head[q] == chain[q] by {}
    assert(chain[end] == chain.last());
    if decides(chain, feature, value) && set_to(chain.last(), feature) is None {
        if exists|p: int|
            0 <= p < chain.len() && set_to(#[trigger] chain[p], feature) == Some(value) && forall|
                q: int,
            |
                p < q < chain.len() ==> set_to(#[trigger] chain[q], feature) is None {
            let p = choose|p: int|
                0 <= p < chain.len() && set_to(#[trigger] chain[p], feature) == Some(value)
                    && forall|q: int|
                    p < q < chain.len() ==> set_to(#[trigger] chain[q], feature) is None;
            assert(set_to(head[p], feature) == Some(value));
            assert forall|q: int| p < q < head.len() implies set_to(
                #[trigger] head[q],
                feature,
            ) is None by {
                assert(set_to(chain[q], feature) is None);
            }
        } else {
            assert forall|q: int| 0 <= q < head.len() implies set_to(
                #[trigger] head[q],
                feature,
            ) is None by {
                assert(set_to(chain[q], feature) is None);
            }
        }
    }
    if set_to(chain.last(), feature) is None && decides(head, feature, value) {
        if exists|p: int|
            0 <= p < head.len() && set_to(#[trigger] head[p], feature) == Some(value) && forall|
                q: int,
            |
                p < q < head.len() ==> set_to(#[trigger] head[q], feature) is None {
            let p = choose|p: int|
                0 <= p < head.len() && set_to(#[trigger] head[p], feature) == Some(value)
                    && forall|q: int|
                    p < q < head.len() ==> set_to(#[trigger] head[q], feature) is None;
            assert(set_to(chain[p], feature) == Some(value));
            assert forall|q: int| p < q < chain.len() implies set_to(
                #[trigger] chain[q],
                feature,
            ) is None by {
                if q < head.len() {
                    assert(set_to(head[q], feature) is None);
                }
            }
        } else {
            assert forall|q: int| 0 <= q < chain.len() implies set_to(
                #[trigger] chain[q],
                feature,
            ) is None by {
                if q < head.len() {
                    assert(set_to(head[q], feature) is None);
                }
            }
        }
    }
}

/// What a lowered message holds, where features are in force around it.
proof fn lemma_parts_of_message(c: Contents, parent: Features)
    requires
        c.typed(),
        c.schema == Schema::Message,
    ensures
        ({
            let out = message_out(c, lowered_message(message_in(c), parent));
            let features = parent.inheriting(overrides_in(c));
            let oneofs = message_in(c).oneofs;
            &&& out.get("field"@) is List && c.get("field"@) is List
            &&& out.get("extension"@) is List && c.get("extension"@) is List
            &&& out.get("nested_type"@) is List && c.get("nested_type"@) is List
            &&& messages_in(out, "field"@).len() == messages_in(c, "field"@).len()
            &&& forall|j: int|
                0 <= j < messages_in(c, "field"@).len() ==> #[trigger] messages_in(out, "field"@)[j]
                    == field_out(
                    messages_in(c, "field"@)[j],
                    lowered_field(
                        field_in(messages_in(c, "field"@)[j]),
                        around_field(
                            field_in(messages_in(c, "field"@)[j]).oneof_index,
                            oneofs,
                            features,
                        ),
                    ),
                )
            &&& messages_in(out, "extension"@).len() == messages_in(c, "extension"@).len()
            &&& forall|j: int|
                0 <= j < messages_in(c, "extension"@).len() ==> #[trigger] messages_in(
                    out,
                    "extension"@,
                )[j] == field_out(
                    messages_in(c, "extension"@)[j],
                    lowered_field(field_in(messages_in(c, "extension"@)[j]), features),
                )
            &&& messages_in(out, "nested_type"@).len() == messages_in(c, "nested_type"@).len()
            &&& forall|j: int|
                0 <= j < messages_in(c, "nested_type"@).len() ==> #[trigger] messages_in(
                    out,
                    "nested_type"@,
                )[j] == message_out(
                    messages_in(c, "nested_type"@)[j],
                    lowered_message(message_in(messages_in(c, "nested_type"@)[j]), features),
                )
            &&& out.rest == c.rest
            &&& forall|other: Seq<char>|
                other != "field"@ && other != "extension"@ && other != "nested_type"@
                    ==> #[trigger] out.get(other) == c.get(other) && out.has(other) == c.has(other)
        }),
{
    lemma_names_differ();
    let said = message_in(c);
    let features = parent.inheriting(said.features);
    let decl = lowered_message(said, parent);
    let fields = fields_out(messages_in(c, "field"@), decl.fields);
    let extensions = fields_out(messages_in(c, "extension"@), decl.extensions);
    let nested = messages_out(messages_in(c, "nested_type"@), decl.nested);
    lemma_typed_list(c, "field"@, Schema::Field);
    lemma_typed_list(c, "extension"@, Schema::Field);
    lemma_typed_list(c, "nested_type"@, Schema::Message);
    lemma_message_out_typed(c, decl);
    lemma_with_fields_typed(c, "field"@, decl.fields);
    let c1 = with_messages(c, "field"@, fields);
    lemma_with_messages(c, "field"@, Schema::Field, fields);
    lemma_with_fields_typed(c, "extension"@, decl.extensions);
    let c2 = with_messages(c1, "extension"@, extensions);
    lemma_with_messages(c1, "extension"@, Schema::Field, extensions);
    lemma_with_messages_typed(c, "nested_type"@, decl.nested);
    let out = with_messages(c2, "nested_type"@, nested);
    lemma_with_messages(c2, "nested_type"@, Schema::Message, nested);
    assert(c2.get("field"@) == c1.get("field"@) && out.get("field"@) == c1.get("field"@));
    assert(out.get("extension"@) == c2.get("extension"@));
    assert forall|j: int| 0 <= j < messages_in(c, "nested_type"@).len() implies #[trigger] messages_in(
        out,
        "nested_type"@,
    )[j] == message_out(
        messages_in(c, "nested_type"@)[j],
        lowered_message(message_in(messages_in(c, "nested_type"@)[j]), features),
    ) by {
        let inner = messages_in(c, "nested_type"@)[j];
        assert(c.get("nested_type"@)->List_0[j] == Item::Message(inner));
        assert(said.nested[j] == message_in(inner));
        assert(decl.nested[j] == lowered_message(said.nested[j], features));
    }
}

/// What a lowered file holds.
proof fn lemma_parts_of_file(c: Contents)
    requires
        c.typed(),
        c.schema == Schema::File,
        syntax_in(c) == "editions"@,
    ensures
        ({
            let out = lowered(c);
            let features = Features::defaults().inheriting(overrides_in(c));
            &&& out.get("message_type"@) is List && c.get("message_type"@) is List
            &&& out.get("extension"@) is List && c.get("extension"@) is List
            &&& messages_in(out, "message_type"@).len() == messages_in(c, "message_type"@).len()
            &&& forall|j: int|
                0 <= j < messages_in(c, "message_type"@).len() ==> #[trigger] messages_in(
                    out,
                    "message_type"@,
                )[j] == message_out(
                    messages_in(c, "message_type"@)[j],
                    lowered_message(message_in(messages_in(c, "message_type"@)[j]), features),
                )
            &&& messages_in(out, "extension"@).len() == messages_in(c, "extension"@).len()
            &&& forall|j: int|
                0 <= j < messages_in(c, "extension"@).len() ==> #[trigger] messages_in(
                    out,
                    "extension"@,
                )[j] == field_out(
                    messages_in(c, "extension"@)[j],
                    lowered_field(field_in(messages_in(c, "extension"@)[j]), features),
                )
        }),
{
    lemma_names_differ();
    let said = file_in(c);
    let decl = lowered_file(said);
    let messages = messages_out(messages_in(c, "message_type"@), decl.messages);
    let extensions = fields_out(messages_in(c, "extension"@), decl.extensions);
    lemma_typed_list(c, "message_type"@, Schema::Message);
    lemma_typed_list(c, "extension"@, Schema::Field);
    lemma_with_messages_typed(c, "message_type"@, decl.messages);
    let c1 = with_messages(c, "message_type"@, messages);
    lemma_with_messages(c, "message_type"@, Schema::Message, messages);
    lemma_with_fields_typed(c, "extension"@, decl.extensions);
    let c2 = with_messages(c1, "extension"@, extensions);
    lemma_with_messages(c1, "extension"@, Schema::Field, extensions);
    let c3 = c2.with("syntax"@, Item::Text(decl.syntax));
    lemma_typed_with(c2, "syntax"@, Item::Text(decl.syntax));
    let out = c3.without("edition"@);
    assert(c2.get("message_type"@) == c1.get("message_type"@));
    assert(c3.get("message_type"@) == c1.get("message_type"@));
    assert(out.get("message_type"@) == c1.get("message_type"@));
    assert(c3.get("extension"@) == c2.get("extension"@));
    assert(out.get("extension"@) == c2.get("extension"@));
    assert(out == lowered(c));
    assert forall|j: int| 0 <= j < messages_in(c, "message_type"@).len() implies #[trigger] messages_in(
        out,
        "message_type"@,
    )[j] == message_out(
        messages_in(c, "message_type"@)[j],
        lowered_message(
            message_in(messages_in(c, "message_type"@)[j]),
            Features::defaults().inheriting(overrides_in(c)),
        ),
    ) by {
        assert(said.messages[j] == message_in(messages_in(c, "message_type"@)[j]));
    }
}

/// The message at the end of a chain, and what comes of it.
proof fn lemma_chain(before: Seq<Contents>, after: Seq<Contents>, path: Seq<int>, k: int)
    requires
        leads(before, path),
        leads(after, path),
        before[0].typed(),
        before[0].schema == Schema::File,
        syntax_in(before[0]) == "editions"@,
        after[0] == lowered(before[0]),
        1 <= k <= path.len(),
    ensures
        before[k].typed(),
        before[k].schema == Schema::Message,
        after[k] == message_out(
            before[k],
            lowered_message(message_in(before[k]), force(before.take(k))),
        ),
    decreases k,
{
    assert(goes_down(before, path, k - 1));
    assert(goes_down(after, path, k - 1));
    let i = path[k - 1];
    let head = before.take(k);
    assert(head.last() == before[k - 1]);
    if k == 1 {
        lemma_names_differ();
        lemma_typed_list(before[0], "message_type"@, Schema::Message);
        lemma_parts_of_file(before[0]);
        assert(messages_in(before[0], "message_type"@)[i] == before[1]);
        assert(messages_in(after[0], "message_type"@)[i] == after[1]);
        assert(head.drop_last() =~= Seq::<Contents>::empty());
        assert(force(head.drop_last()) == Features::defaults());
    } else {
        lemma_names_differ();
        lemma_chain(before, after, path, k - 1);
        lemma_typed_list(before[k - 1], "nested_type"@, Schema::Message);
        lemma_parts_of_message(before[k - 1], force(before.take(k - 1)));
        assert(messages_in(before[k - 1], "nested_type"@)[i] == before[k]);
        assert(messages_in(after[k - 1], "nested_type"@)[i] == after[k]);
        assert(head.drop_last() =~= before.take(k - 1));
    }
}

/// A lowered field says what the features in force around it and its own said.
proof fn lemma_field_is_said(field: Contents, parent: Features)
    requires
        field.typed(),
        field.schema == Schema::Field,
    ensures
        ({
            let features = parent.inheriting(overrides_in(field));
            is_said(
                field,
                field_out(field, lowered_field(field_in(field), parent)),
                features.field_presence,
                features.repeated_field_encoding,
                features.message_encoding,
            )
        }),
{
    lemma_names_differ();
    let decl = lowered_field(field_in(field), parent);
    lemma_typed_message(field, "options"@, Schema::FieldOptions);
    let options = field.get("options"@)->Message_0;
    assert(field.get("label"@) is Number) by {
        if field.has("label"@) {
            assert(field.fields.contains_key("label"@));
        }
    }
    assert(field.get("type"@) is Number) by {
        if field.has("type"@) {
            assert(field.fields.contains_key("type"@));
        }
    }
    assert(options.get("packed"@) is Flag) by {
        if options.has("packed"@) {
            assert(options.fields.contains_key("packed"@));
        }
    }
    lemma_typed_with(field, "label"@, Item::Number(decl.label));
    let labelled = if decl.label != field_in(field).label {
        field.with("label"@, Item::Number(decl.label))
    } else {
        field
    };
    lemma_typed_with(labelled, "type"@, Item::Number(decl.ty));
    let typed = if decl.ty != field_in(field).ty {
        labelled.with("type"@, Item::Number(decl.ty))
    } else {
        labelled
    };
    if decl.packed is Some {
        let packed = Item::Flag(decl.packed->0);
        lemma_typed_with(options, "packed"@, packed);
        lemma_typed_with(typed, "options"@, Item::Message(options.with("packed"@, packed)));
    }
}

/// In a file under an edition, a field or an extension at any depth comes out as one that says what
/// the features came to for it: for each feature, what the innermost declaration that sets it has
/// set, of the file, the messages around it, its oneof and itself, and 1 where none does.
///
/// `before` leads from the file to the message that the field is in, or is the file alone where an
/// extension is in no message; `after` leads to the same place in the lowered file.
pub proof fn law_innermost_declaration_decides_what_a_field_says(
    before: Seq<Contents>,
    after: Seq<Contents>,
    path: Seq<int>,
    name: Seq<char>,
    j: int,
    field: Contents,
    out: Contents,
    presence: i32,
    encoding: i32,
    delimiting: i32,
)
    requires
        leads(before, path),
        leads(after, path),
        before[0].typed(),
        before[0].schema == Schema::File,
        before[0].get("syntax"@) == Item::Text("editions"@),
        after[0] == lowered(before[0]),
        name == "extension"@ || name == "field"@ && path.len() > 0,
        is_item(before.last(), name, j, field),
        is_item(after.last(), name, j, out),
        decides(around(before, name, field), "field_presence"@, presence),
        decides(around(before, name, field), "repeated_field_encoding"@, encoding),
        decides(around(before, name, field), "message_encoding"@, delimiting),
    ensures
        is_said(field, out, presence, encoding, delimiting),
{
    lemma_names_differ();
    let chain = around(before, name, field);
    lemma_force(chain, presence, encoding, delimiting);
    let k = path.len() as int;
    let c = before.last();
    assert(messages_in(c, name)[j] == field);
    assert(messages_in(after.last(), name)[j] == out);
    let features = force(before);
    if k == 0 {
        lemma_parts_of_file(c);
        lemma_typed_list(c, name, Schema::Field);
        assert(before.drop_last() =~= Seq::<Contents>::empty());
        assert(force(before.drop_last()) == Features::defaults());
        assert(chain.drop_last() =~= before);
        lemma_field_is_said(field, features);
    } else {
        lemma_chain(before, after, path, k);
        assert(before.drop_last() =~= before.take(k));
        lemma_parts_of_message(c, force(before.take(k)));
        lemma_typed_list(c, name, Schema::Field);
        if name == "field"@ {
            let said = message_in(c);
            lemma_typed_list(c, "oneof_decl"@, Schema::Oneof);
            let oneofs = messages_in(c, "oneof_decl"@);
            let parent = around_field(field_in(field).oneof_index, said.oneofs, features);
            match field_in(field).oneof_index {
                Some(n) if 0 <= n < oneofs.len() => {
                    assert(c.get("oneof_decl"@)->List_0[n as int] == Item::Message(
                        oneofs[n as int],
                    ));
                    assert(chain.drop_last() =~= before.push(oneofs[n as int]));
                    assert(before.push(oneofs[n as int]).drop_last() =~= before);
                    assert(force(chain.drop_last()) == features.inheriting(
                        overrides_in(oneofs[n as int]),
                    ));
                    assert(said.oneofs[n as int] == overrides_in(oneofs[n as int]));
                },
                _ => {
                    assert(chain.drop_last() =~= before);
                },
            }
            assert(force(chain.drop_last()) == parent);
            lemma_field_is_said(field, parent);
        } else {
            assert(chain.drop_last() =~= before);
            lemma_field_is_said(field, features);
        }
    }
}

/// In a file under an edition, a message at any depth keeps all that it holds beside its fields, its
/// extensions and the messages in it, of which there are as many as before, in their order.
pub proof fn law_messages_keep_all_else(
    before: Seq<Contents>,
    after: Seq<Contents>,
    path: Seq<int>,
    name: Seq<char>,
)
    requires
        leads(before, path),
        leads(after, path),
        before[0].typed(),
        before[0].schema == Schema::File,
        before[0].get("syntax"@) == Item::Text("editions"@),
        after[0] == lowered(before[0]),
        path.len() > 0,
    ensures
        after.last().rest == before.last().rest,
        if name == "field"@ || name == "extension"@ || name == "nested_type"@ {
            match (before.last().get(name), after.last().get(name)) {
                (Item::List(list), Item::List(said)) => said.len() == list.len(),
                _ => false,
            }
        } else {
            after.last().get(name) == before.last().get(name) && after.last().has(name)
                == before.last().has(name)
        },
{
    let k = path.len() as int;
    lemma_chain(before, after, path, k);
    lemma_parts_of_message(before.last(), force(before.take(k)));
}

/// A file under an edition keeps as many messages and extensions as it had.
pub proof fn law_files_keep_their_messages(c: Contents, name: Seq<char>)
    requires
        c.typed(),
        c.schema == Schema::File,
        c.get("syntax"@) == Item::Text("editions"@),
        name == "message_type"@ || name == "extension"@,
    ensures
        match (c.get(name), lowered(c).get(name)) {
            (Item::List(list), Item::List(said)) => said.len() == list.len(),
            _ => false,
        },
{
    lemma_parts_of_file(c);
}

/// A file under an edition, that is one whose syntax says so, comes out as one of `proto2` without an
/// edition; any other comes out as it was.
pub proof fn law_only_files_under_an_edition_are_lowered(c: Contents)
    requires
        c.typed(),
        c.schema == Schema::File,
    ensures
        if c.get("syntax"@) == Item::Text("editions"@) {
            lowered(c).get("syntax"@) == Item::Text("proto2"@) && !lowered(c).has("edition"@)
        } else {
            lowered(c) == c
        },
{
    lemma_names_differ();
    assert(c.get("syntax"@) is Text) by {
        if c.has("syntax"@) {
            assert(c.fields.contains_key("syntax"@));
        }
    }
}

} // verus!
