//! Lowering of encoded file descriptors: those under a protobuf edition come out in the terms of
//! `proto2`, and all others as they were.

use crate::dynamic::{
    blank, contents, decode, decoded, descriptor_of, encode, encoded, header_agrees, items, kind_of,
    lemma_kinds, lemma_names_differ, value_item, Contents, Item, Kind, Schema, LEVELS,
};
use crate::error::Error;
use crate::features::Features;
use crate::lowering::{
    around_field, lower_file, lowered_field, lowered_file, lowered_message, FieldDecl, FileDecl,
};
use crate::imports::imports_in;
use crate::nesting::{
    law_lowering_a_set_nests_one_level_deeper_at_most, law_lowering_nests_one_level_deeper_at_most,
};
use crate::pool::{file_header, HeaderModel};
use crate::reading::{
    field_in, fields_in, file_in, lemma_get_is_of, lemma_smaller, lemma_typed_list,
    lemma_typed_message, listed, message_in, messages_in, messages_of, number_in, read_file,
    read_syntax, syntax_in,
};
use crate::writing::{
    field_out, fields_out, file_out, lemma_file_out_typed, lemma_message_out_typed,
    lemma_typed_with, lemma_with_fields_typed, lemma_with_messages, lemma_with_messages_typed,
    message_out, messages_out, with_messages, write_file,
};
use prost_reflect::{DynamicMessage, Value};
use vstd::prelude::*;

verus! {

/// A file in the terms of `proto2`, if it is under an edition.
pub open spec fn lowered(c: Contents) -> Contents {
    if syntax_in(c) == "editions"@ {
        file_out(c, lowered_file(file_in(c)))
    } else {
        c
    }
}

/// Puts a file in the terms of `proto2`, if it is under an edition.
fn lower(file: &mut DynamicMessage)
    requires
        contents(*old(file)).typed(),
        contents(*old(file)).schema == Schema::File,
    ensures
        contents(*final(file)) == lowered(contents(*old(file))),
        contents(*final(file)).typed(),
        contents(*final(file)).schema == Schema::File,
{
    if read_syntax(file) != "editions".to_owned() {
        return;
    }
    let mut decl: FileDecl = read_file(file);
    lower_file(&mut decl);
    proof {
        lemma_file_out_typed(contents(*file), decl@);
    }
    write_file(file, decl);
}

/// Puts each file of a list in the terms of `proto2`, if it is under an edition.
fn lower_list(list: &mut Vec<Value>)
    requires
        Item::List(items(old(list)@)).is_of(Some(Kind::Messages(Schema::File))),
    ensures
        items(final(list)@) == listed(lowered_files(messages_of(items(old(list)@)))),
        Item::List(items(final(list)@)).is_of(Some(Kind::Messages(Schema::File))),
{
    let ghost before = items(list@);
    let ghost files = messages_of(before);
    let mut i: usize = 0;
    while i < list.len()
        invariant
            i <= list@.len(),
            list@.len() == before.len(),
            files == messages_of(before),
            Item::List(before).is_of(Some(Kind::Messages(Schema::File))),
            forall|j: int|
                0 <= j < i ==> value_item(#[trigger] list@[j]) == Item::Message(lowered(files[j]))
                    && lowered(files[j]).typed() && lowered(files[j]).schema == Schema::File,
            forall|j: int| i <= j < list@.len() ==> value_item(#[trigger] list@[j]) == before[j],
        decreases list@.len() - i,
    {
        assert(before[i as int] == Item::Message(files[i as int]));
        let value: &mut Value = &mut list[i];
        if let Some(file) = value.as_message_mut() {
            lower(file);
        }
        i += 1;
    }
    assert(items(list@) =~= listed(lowered_files(files)));
}

/// Files in the terms of `proto2`, where they are under an edition.
pub open spec fn lowered_files(files: Seq<Contents>) -> Seq<Contents> {
    Seq::new(files.len(), |i: int| lowered(files[i]))
}

/// A set of files, each in the terms of `proto2` if it is under an edition.
pub open spec fn lowered_set(c: Contents) -> Contents {
    with_messages(c, "file"@, lowered_files(messages_in(c, "file"@)))
}

/// Decodes a `FileDescriptorSet` and puts each of its files that is under an edition in the terms
/// of `proto2`.
pub(crate) fn read_lowered_set(bytes: &[u8]) -> (r: Result<DynamicMessage, Error>)
    ensures
        match (r, decoded(Schema::FileSet, bytes@)) {
            (Ok(out), Some(set)) => contents(out) == lowered_set(set) && set.typed() && set.schema
                == Schema::FileSet && set.within(LEVELS as nat) && contents(out).typed()
                && contents(out).schema == Schema::FileSet,
            (Err(Error::DecodeError(_)), None) => true,
            _ => false,
        },
        bytes@.len() == 0 ==> decoded(Schema::FileSet, bytes@) == Some(blank(Schema::FileSet)),
{
    let mut set: DynamicMessage = match decode(descriptor_of("FileDescriptorSet"), bytes) {
        Ok(set) => set,
        Err(e) => return Err(Error::DecodeError(e)),
    };
    let ghost c = contents(set);
    proof {
        lemma_get_is_of(c, "file"@);
    }
    if let Some(value) = set.get_field_by_name_mut("file") {
        if let Some(list) = value.as_list_mut() {
            lower_list(list);
        }
    }
    proof {
        lemma_typed_with(
            c,
            "file"@,
            Item::List(listed(lowered_files(messages_in(c, "file"@)))),
        );
    }
    Ok(set)
}

/// Whether a set has the files of another in their order, each of them lowered, and none of them
/// under an edition, and stays as it is when it is lowered.
pub open spec fn is_lowered_set(set: Contents, out: Contents) -> bool {
    let files = messages_in(set, "file"@);
    let after = messages_in(out, "file"@);
    &&& out == lowered_set(set)
    &&& after.len() == files.len()
    &&& forall|i: int|
        0 <= i < after.len() ==> #[trigger] after[i] == lowered(files[i]) && syntax_in(after[i])
            != "editions"@
    &&& lowered_set(out) == out
}

/// What is said of a lowered set holds of it.
proof fn lemma_is_lowered_set(set: Contents)
    requires
        set.typed(),
        set.schema == Schema::FileSet,
    ensures
        is_lowered_set(set, lowered_set(set)),
{
    law_files_of_a_set_are_lowered_one_by_one(set);
    law_lowering_a_set_twice_is_lowering_it_once(set);
    let after = messages_in(lowered_set(set), "file"@);
    assert forall|i: int| 0 <= i < after.len() implies #[trigger] after[i] == lowered(
        messages_in(set, "file"@)[i],
    ) && syntax_in(after[i]) != "editions"@ by {
        law_no_file_of_a_lowered_set_is_under_an_edition(set, i);
    }
}

/// Lowers an encoded `FileDescriptorSet`: each of its files that is under an edition is put in the
/// terms of `proto2`.
///
/// What is decoded from the outcome is the lowered set: the same number of files in the same order,
/// none of them under an edition, and lowering leaves it as it is. It can be decoded unless
/// lowering has nested its messages too deeply, which takes a set whose messages are nested as deep
/// as can be decoded, and a field of the innermost that is given options.
pub fn lower_file_descriptor_set(bytes: &[u8]) -> (r: Result<Vec<u8>, Error>)
    ensures
        match (r, decoded(Schema::FileSet, bytes@)) {
            (Ok(out), Some(set)) => {
                &&& out@ == encoded(lowered_set(set))
                &&& is_lowered_set(set, lowered_set(set))
                &&& match decoded(Schema::FileSet, out@) {
                    Some(again) => again == lowered_set(set) && encoded(lowered_set(again)) == out@,
                    None => !lowered_set(set).within(LEVELS as nat) && !set.within(
                        (LEVELS - 1) as nat,
                    ) && lowered_set(set) != set,
                }
            },
            (Err(Error::DecodeError(_)), None) => true,
            _ => false,
        },
{
    match read_lowered_set(bytes) {
        Ok(set) => {
            proof {
                let before = decoded(Schema::FileSet, bytes@)->0;
                lemma_is_lowered_set(before);
                if before.within((LEVELS - 1) as nat) {
                    law_lowering_a_set_nests_one_level_deeper_at_most(
                        before,
                        (LEVELS - 1) as nat,
                    );
                }
            }
            Ok(encode(&set))
        },
        Err(e) => Err(e),
    }
}

/// Whether the headers of an encoded file before and after lowering, if it has them, say the same
/// of its name and its imports.
pub open spec fn is_lowered_header(
    before: Option<HeaderModel>,
    after: Option<HeaderModel>,
) -> bool {
    match (before, after) {
        (Some(before), Some(after)) => after == before,
        _ => true,
    }
}

/// Decodes a `FileDescriptorProto` and puts it in the terms of `proto2`, if it is under an edition.
pub(crate) fn read_lowered_file(bytes: &[u8]) -> (r: Result<DynamicMessage, Error>)
    ensures
        match (r, decoded(Schema::File, bytes@)) {
            (Ok(out), Some(file)) => contents(out) == lowered(file) && file.typed() && file.schema
                == Schema::File && file.within(LEVELS as nat) && contents(out).typed() && contents(
                out,
            ).schema == Schema::File && header_agrees(file, file_header(bytes@)),
            (Err(Error::DecodeError(_)), None) => true,
            _ => false,
        },
{
    let mut file: DynamicMessage = match decode(descriptor_of("FileDescriptorProto"), bytes) {
        Ok(file) => file,
        Err(e) => return Err(Error::DecodeError(e)),
    };
    lower(&mut file);
    Ok(file)
}

/// Lowers an encoded `FileDescriptorProto`: if the file is under an edition, it is put in the terms
/// of `proto2`.
///
/// What is decoded from the outcome is the lowered file, as it comes out of a set of its own, and
/// lowering leaves it as it is. It can be decoded unless lowering has nested its messages too
/// deeply, which takes a file whose messages are nested as deep as can be decoded, and a field of
/// the innermost that is given options.
pub fn lower_file_descriptor_proto(bytes: &[u8]) -> (r: Result<Vec<u8>, Error>)
    ensures
        match (r, decoded(Schema::File, bytes@)) {
            (Ok(out), Some(file)) => {
                &&& out@ == encoded(lowered(file))
                &&& messages_in(lowered_set(set_of(file)), "file"@) == seq![lowered(file)]
                &&& lowered(lowered(file)) == lowered(file)
                &&& match decoded(Schema::File, out@) {
                    Some(again) => again == lowered(file) && encoded(lowered(again)) == out@,
                    None => !lowered(file).within(LEVELS as nat) && !file.within(
                        (LEVELS - 1) as nat,
                    ) && syntax_in(file) == "editions"@,
                }
            },
            (Err(Error::DecodeError(_)), None) => true,
            _ => false,
        },
        r is Ok ==> is_lowered_header(file_header(bytes@), file_header(r->Ok_0@)),
{
    match read_lowered_file(bytes) {
        Ok(file) => {
            proof {
                let c = decoded(Schema::File, bytes@)->0;
                law_lowering_twice_is_lowering_once(c);
                law_name_and_imports_are_kept(c);
                law_a_file_is_lowered_as_in_a_set_of_its_own(c);
                if c.within((LEVELS - 1) as nat) {
                    law_lowering_nests_one_level_deeper_at_most(c, (LEVELS - 1) as nat);
                }
            }
            Ok(encode(&file))
        },
        Err(e) => Err(e),
    }
}

/// Lowering keeps the name of a file and its imports.
pub proof fn law_name_and_imports_are_kept(c: Contents)
    ensures
        imports_in(lowered(c)) == imports_in(c),
{
    lemma_names_differ();
    lemma_kinds();
    law_all_else_is_kept(c, "name"@);
    law_all_else_is_kept(c, "dependency"@);
    law_all_else_is_kept(c, "public_dependency"@);
}

/// A lowered field says what lowering makes of what it said.
proof fn lemma_field_says(c: Contents, parent: Features)
    requires
        c.typed(),
        c.schema == Schema::Field,
    ensures
        field_in(field_out(c, lowered_field(field_in(c), parent))) == lowered_field(
            field_in(c),
            parent,
        ),
{
    lemma_names_differ();
    let decl = lowered_field(field_in(c), parent);
    lemma_typed_message(c, "options"@, Schema::FieldOptions);
    let options = c.get("options"@)->Message_0;
    lemma_typed_with(c, "label"@, Item::Number(decl.label));
    let labelled = if decl.label != number_in(c, "label"@) {
        c.with("label"@, Item::Number(decl.label))
    } else {
        c
    };
    lemma_typed_with(labelled, "type"@, Item::Number(decl.ty));
    let typed = if decl.ty != number_in(c, "type"@) {
        labelled.with("type"@, Item::Number(decl.ty))
    } else {
        labelled
    };
    assert(typed.get("options"@) == c.get("options"@));
    if decl.packed is Some {
        let packed = Item::Flag(decl.packed->0);
        lemma_typed_with(options, "packed"@, packed);
        lemma_typed_with(typed, "options"@, Item::Message(options.with("packed"@, packed)));
    }
}

/// Lowered fields say what lowering makes of what they said.
proof fn lemma_fields_say(
    c: Contents,
    name: Seq<char>,
    parents: Seq<Features>,
    decls: Seq<FieldDecl>,
    out: Contents,
)
    requires
        c.typed(),
        kind_of(c.schema, name) == Some(Kind::Messages(Schema::Field)),
        decls.len() == fields_in(c, name).len(),
        forall|i: int|
            0 <= i < decls.len() ==> #[trigger] decls[i] == lowered_field(
                fields_in(c, name)[i],
                parents[i],
            ),
        messages_in(out, name) == fields_out(messages_in(c, name), decls),
    ensures
        fields_in(out, name) == decls,
{
    lemma_typed_list(c, name, Schema::Field);
    assert forall|i: int| 0 <= i < decls.len() implies fields_in(out, name)[i] == decls[i] by {
        lemma_field_says(messages_in(c, name)[i], parents[i]);
    }
    assert(fields_in(out, name) =~= decls);
}

/// A lowered message says what lowering makes of what it said.
proof fn lemma_message_says(c: Contents, parent: Features)
    requires
        c.typed(),
        c.schema == Schema::Message,
    ensures
        message_in(message_out(c, lowered_message(message_in(c), parent))) == lowered_message(
            message_in(c),
            parent,
        ),
    decreases c,
{
    lemma_names_differ();
    let said = message_in(c);
    let features = parent.inheriting(said.features);
    let decl = lowered_message(said, parent);
    let fields = fields_out(messages_in(c, "field"@), decl.fields);
    let extensions = fields_out(messages_in(c, "extension"@), decl.extensions);
    let nested = messages_out(messages_in(c, "nested_type"@), decl.nested);
    lemma_message_out_typed(c, decl);
    lemma_with_fields_typed(c, "field"@, decl.fields);
    let c1 = with_messages(c, "field"@, fields);
    lemma_with_messages(c, "field"@, Schema::Field, fields);
    lemma_with_fields_typed(c, "extension"@, decl.extensions);
    let c2 = with_messages(c1, "extension"@, extensions);
    lemma_with_messages(c1, "extension"@, Schema::Field, extensions);
    lemma_with_messages_typed(c, "nested_type"@, decl.nested);
    let out = with_messages(c2, "nested_type"@, nested);
    lemma_with_messages(c2, "nested_type"@, Schema::Message, nested);
    assert(c2.get("options"@) == c.get("options"@) && out.get("options"@) == c.get("options"@));
    assert(c2.get("oneof_decl"@) == c.get("oneof_decl"@));
    assert(out.get("oneof_decl"@) == c.get("oneof_decl"@));
    assert(c2.get("field"@) == c1.get("field"@) && out.get("field"@) == c1.get("field"@));
    assert(out.get("extension"@) == c2.get("extension"@));
    lemma_fields_say(
        c,
        "field"@,
        Seq::new(
            said.fields.len(),
            |i: int| around_field(said.fields[i].oneof_index, said.oneofs, features),
        ),
        decl.fields,
        out,
    );
    lemma_fields_say(
        c,
        "extension"@,
        Seq::new(said.extensions.len(), |i: int| features),
        decl.extensions,
        out,
    );
    lemma_typed_list(c, "nested_type"@, Schema::Message);
    let list = c.get("nested_type"@)->List_0;
    assert forall|i: int| 0 <= i < decl.nested.len() implies message_in(out).nested[i]
        == decl.nested[i] by {
        let inner = messages_in(c, "nested_type"@)[i];
        assert(list[i] == Item::Message(inner));
        lemma_smaller(c, "nested_type"@, i);
        lemma_message_says(inner, features);
        assert(said.nested[i] == message_in(inner));
        assert(decl.nested[i] == lowered_message(said.nested[i], features));
        assert(listed(nested)[i] == Item::Message(nested[i]));
    }
    assert(message_in(out).nested =~= decl.nested);
    assert(message_in(out).oneofs =~= decl.oneofs);
}

/// What a lowered file says is what lowering makes of what the file said.
pub proof fn law_lowered_file_says_what_lowering_makes_of_it(c: Contents)
    requires
        c.typed(),
        c.schema == Schema::File,
    ensures
        file_in(lowered(c)) == lowered_file(file_in(c)),
{
    if syntax_in(c) == "editions"@ {
        lemma_names_differ();
        let said = file_in(c);
        let features = Features::defaults().inheriting(said.features);
        let decl = lowered_file(said);
        let messages = messages_out(messages_in(c, "message_type"@), decl.messages);
        let extensions = fields_out(messages_in(c, "extension"@), decl.extensions);
        lemma_with_messages_typed(c, "message_type"@, decl.messages);
        let c1 = with_messages(c, "message_type"@, messages);
        lemma_with_messages(c, "message_type"@, Schema::Message, messages);
        lemma_with_fields_typed(c, "extension"@, decl.extensions);
        let c2 = with_messages(c1, "extension"@, extensions);
        lemma_with_messages(c1, "extension"@, Schema::Field, extensions);
        let c3 = c2.with("syntax"@, Item::Text(decl.syntax));
        lemma_typed_with(c2, "syntax"@, Item::Text(decl.syntax));
        let out = c3.without("edition"@);
        assert(c2.get("options"@) == c.get("options"@) && c3.get("options"@) == c.get("options"@));
        assert(out.get("options"@) == c3.get("options"@));
        assert(out.get("syntax"@) == c3.get("syntax"@));
        assert(c2.get("message_type"@) == c1.get("message_type"@));
        assert(c3.get("message_type"@) == c1.get("message_type"@));
        assert(out.get("message_type"@) == c1.get("message_type"@));
        assert(c3.get("extension"@) == c2.get("extension"@));
        assert(out.get("extension"@) == c2.get("extension"@));
        lemma_fields_say(
            c,
            "extension"@,
            Seq::new(said.extensions.len(), |i: int| features),
            decl.extensions,
            out,
        );
        lemma_typed_list(c, "message_type"@, Schema::Message);
        assert forall|i: int| 0 <= i < decl.messages.len() implies file_in(out).messages[i]
            == decl.messages[i] by {
            lemma_message_says(messages_in(c, "message_type"@)[i], features);
        }
        assert(file_in(out).messages =~= decl.messages);
        assert(file_in(out) =~= decl);
    }
}

/// Lowering leaves a file that is under no edition as it is.
pub proof fn law_other_files_are_untouched(c: Contents)
    requires
        syntax_in(c) != "editions"@,
    ensures
        lowered(c) == c,
{
}

/// Lowering changes nothing of a file beside its messages, its extensions, its syntax and its
/// edition.
pub proof fn law_all_else_is_kept(c: Contents, name: Seq<char>)
    requires
        name != "message_type"@,
        name != "extension"@,
        name != "syntax"@,
        name != "edition"@,
    ensures
        lowered(c).schema == c.schema,
        lowered(c).rest == c.rest,
        lowered(c).has(name) == c.has(name),
        lowered(c).get(name) == c.get(name),
{
}

/// A file under an edition comes out as one of `proto2`, without an edition.
pub proof fn law_lowered_file_is_proto2(c: Contents)
    requires
        c.typed(),
        c.schema == Schema::File,
        syntax_in(c) == "editions"@,
    ensures
        syntax_in(lowered(c)) == "proto2"@,
        !lowered(c).has("edition"@),
{
    law_lowered_file_says_what_lowering_makes_of_it(c);
    assert(syntax_in(lowered(c)) == file_in(lowered(c)).syntax);
}

/// To lower a file twice is to lower it once.
pub proof fn law_lowering_twice_is_lowering_once(c: Contents)
    requires
        c.typed(),
        c.schema == Schema::File,
    ensures
        lowered(lowered(c)) == lowered(c),
{
    if syntax_in(c) == "editions"@ {
        law_lowered_file_is_proto2(c);
        reveal_strlit("editions");
        reveal_strlit("proto2");
        assert("editions"@.len() != "proto2"@.len());
    }
}

/// Lowering a set keeps its files in their order, and lowers each of them by itself.
pub proof fn law_files_of_a_set_are_lowered_one_by_one(c: Contents)
    requires
        c.typed(),
        c.schema == Schema::FileSet,
    ensures
        messages_in(lowered_set(c), "file"@).len() == messages_in(c, "file"@).len(),
        forall|i: int|
            0 <= i < messages_in(c, "file"@).len() ==> #[trigger] messages_in(
                lowered_set(c),
                "file"@,
            )[i] == lowered(messages_in(c, "file"@)[i]),
        lowered_set(c).rest == c.rest,
{
    let files = messages_in(c, "file"@);
    lemma_typed_list(c, "file"@, Schema::File);
    let out = lowered_files(files);
    assert forall|i: int| 0 <= i < out.len() implies (#[trigger] out[i]).typed() && out[i].schema
        == Schema::File by {
        if syntax_in(files[i]) == "editions"@ {
            lemma_file_out_typed(files[i], lowered_file(file_in(files[i])));
        }
    }
    lemma_with_messages(c, "file"@, Schema::File, out);
}

/// To lower a set twice is to lower it once.
pub proof fn law_lowering_a_set_twice_is_lowering_it_once(c: Contents)
    requires
        c.typed(),
        c.schema == Schema::FileSet,
    ensures
        lowered_set(lowered_set(c)) == lowered_set(c),
{
    let files = messages_in(c, "file"@);
    let once = lowered_files(files);
    law_files_of_a_set_are_lowered_one_by_one(c);
    lemma_typed_list(c, "file"@, Schema::File);
    assert(messages_in(lowered_set(c), "file"@) =~= once);
    assert forall|i: int| 0 <= i < files.len() implies lowered(once[i]) == once[i] by {
        law_lowering_twice_is_lowering_once(files[i]);
    }
    assert(lowered_files(once) =~= once);
    let set = lowered_set(c);
    if once.len() == 0 {
        assert(listed(once) =~= Seq::<Item>::empty());
        assert(set.without("file"@).fields =~= set.fields);
    } else {
        assert(listed(once).len() > 0);
        assert(set.with("file"@, Item::List(listed(once))).fields =~= set.fields);
    }
}

/// No file of a lowered set is under an edition.
pub proof fn law_no_file_of_a_lowered_set_is_under_an_edition(c: Contents, i: int)
    requires
        c.typed(),
        c.schema == Schema::FileSet,
        0 <= i < messages_in(lowered_set(c), "file"@).len(),
    ensures
        syntax_in(messages_in(lowered_set(c), "file"@)[i]) != "editions"@,
{
    law_files_of_a_set_are_lowered_one_by_one(c);
    lemma_typed_list(c, "file"@, Schema::File);
    let file = messages_in(c, "file"@)[i];
    assert(messages_in(lowered_set(c), "file"@)[i] == lowered(file));
    if syntax_in(file) == "editions"@ {
        law_lowered_file_is_proto2(file);
        reveal_strlit("editions");
        reveal_strlit("proto2");
        assert("editions"@.len() != "proto2"@.len());
    }
}

/// A file by itself is lowered as the only file of a set is.
pub proof fn law_a_file_is_lowered_as_in_a_set_of_its_own(c: Contents)
    requires
        c.typed(),
        c.schema == Schema::File,
    ensures
        messages_in(lowered_set(set_of(c)), "file"@) == seq![lowered(c)],
{
    let set = set_of(c);
    let list = Item::List(listed(seq![c]));
    assert(list.is_of(Some(Kind::Messages(Schema::File))));
    assert(list->List_0.len() == 1);
    assert(set.typed());
    assert(messages_in(set, "file"@) =~= seq![c]);
    law_files_of_a_set_are_lowered_one_by_one(set);
    assert(messages_in(lowered_set(set), "file"@) =~= seq![lowered(c)]);
}

/// A set of one file.
pub open spec fn set_of(file: Contents) -> Contents {
    Contents {
        schema: Schema::FileSet,
        fields: map!["file"@ => Item::List(listed(seq![file]))],
        rest: Seq::empty(),
        depth: 0,
        foreign: false,
    }
}

} // verus!
