//! What is noted of the declarations in files, to tell which of them the options of a file reach.

use crate::adjacency::Node;
use crate::declarations::{
    check_broken, check_options, declares_options, find_options, is_broken, join, joined, options_of,
    Optional,
};
use crate::dynamic::{
    contents, get_field, items, kind_of, lemma_kinds, lemma_names_differ, value_item, Contents,
    Item, Kind, Schema,
};
use crate::reading::{
    integer_in, lemma_lists, lemma_smaller, lists, messages_in, read_integer, read_text, text_in,
};
use crate::text::{
    law_split_last_leaves_other_texts, law_split_last_takes_apart_what_was_joined, rsplit_once,
    split_last,
};
use prost_reflect::{DynamicMessage, Value};
use vstd::prelude::*;
use vstd::string::*;

verus! {

/// Something that is noted of a declaration. Messages go by the last parts of their names, since
/// that is all that a name which is not written in full tells.
#[derive(Debug)]
pub enum Note {
    /// A message for options of a kind, by its name, and whether it is declared as it must be.
    Options(Optional, String, bool),
    /// The entry of a map that has no key or no value, by its name.
    Broken(String),
    /// A message of the first name has a field or an extension of a type of the second name.
    Link(String, String),
    /// An extension, or a field that is one by its number: the name of the message as it is
    /// written, and the number.
    Key(String, i32),
}

/// The mathematical value of a [`Note`].
pub enum NoteModel {
    Options(Optional, Seq<char>, bool),
    Broken(Seq<char>),
    Link(Seq<char>, Seq<char>),
    Key(Seq<char>, i32),
}

impl View for Note {
    type V = NoteModel;

    open spec fn view(&self) -> NoteModel {
        match self {
            Note::Options(of, name, fits) => NoteModel::Options(*of, name@, *fits),
            Note::Broken(name) => NoteModel::Broken(name@),
            Note::Link(from, to) => NoteModel::Link(from@, to@),
            Note::Key(extendee, number) => NoteModel::Key(extendee@, *number),
        }
    }
}

/// The mathematical values of a sequence of notes.
pub open spec fn note_views(notes: Seq<Note>) -> Seq<NoteModel> {
    Seq::new(notes.len(), |i: int| notes[i]@)
}

/// The last part of a name with dots.
pub open spec fn last_part(name: Seq<char>) -> Seq<char> {
    match split_last(name, '.') {
        Some((_, last)) => last,
        None => name,
    }
}

/// What is noted of the type of a field of a message: that the message is linked to it, where it
/// goes by a name.
pub open spec fn link_notes(from: Seq<char>, field: Contents) -> Seq<NoteModel> {
    if text_in(field, "type_name"@).len() == 0 {
        Seq::empty()
    } else {
        seq![NoteModel::Link(last_part(from), last_part(text_in(field, "type_name"@)))]
    }
}

/// Whether a field of a message can have a number that an extension of the message has too: it says
/// that it extends something, or the message can be extended without being named.
pub open spec fn is_exposed(field: Contents, full: Seq<char>) -> bool {
    field.has("extendee"@) || last_part(full).len() == 0
}

/// What is noted of a field of the message of a full name, or of an extension where there is none.
pub open spec fn field_notes(field: Contents, within: Option<Seq<char>>) -> Seq<NoteModel> {
    match within {
        Some(full) => (if is_exposed(field, full) {
            seq![NoteModel::Key(seq!['.'] + full, integer_in(field, "number"@))]
        } else {
            Seq::empty()
        }) + link_notes(full, field),
        None => seq![NoteModel::Key(text_in(field, "extendee"@), integer_in(field, "number"@))]
            + link_notes(text_in(field, "extendee"@), field),
    }
}

/// What is noted of fields of the message of a full name, or of extensions where there is none.
pub open spec fn all_field_notes(fields: Seq<Contents>, within: Option<Seq<char>>) -> Seq<NoteModel>
    decreases fields.len(),
{
    if fields.len() == 0 {
        Seq::empty()
    } else {
        all_field_notes(fields.drop_last(), within) + field_notes(fields.last(), within)
    }
}

/// What is noted of a message of a full name itself.
pub open spec fn own_notes(c: Contents, full: Seq<char>) -> Seq<NoteModel> {
    (match options_of(full) {
        Some(of) => seq![
            NoteModel::Options(of, last_part(full), declares_options(c, of, full)),
        ],
        None => Seq::empty(),
    }) + if is_broken(c) {
        seq![NoteModel::Broken(last_part(full))]
    } else {
        Seq::empty()
    }
}

/// What is noted of a message within a scope, and of all that is declared in it at any depth.
pub open spec fn message_notes(c: Contents, scope: Seq<char>) -> Seq<NoteModel>
    decreases c,
{
    let full = joined(scope, text_in(c, "name"@));
    own_notes(c, full) + all_field_notes(messages_in(c, "field"@), Some(full)) + all_field_notes(
        messages_in(c, "extension"@),
        None,
    ) + if c.fields.contains_key("nested_type"@) {
        item_notes(c.fields["nested_type"@], full)
    } else {
        Seq::empty()
    }
}

/// What is noted of the messages of a value, and of all that is declared in them at any depth.
pub open spec fn item_notes(item: Item, scope: Seq<char>) -> Seq<NoteModel>
    decreases item,
{
    match item {
        Item::List(list) => list_notes(list, scope),
        _ => Seq::empty(),
    }
}

/// What is noted of the messages of a list, and of all that is declared in them at any depth.
pub open spec fn list_notes(list: Seq<Item>, scope: Seq<char>) -> Seq<NoteModel>
    decreases list,
{
    if list.len() == 0 {
        Seq::empty()
    } else {
        list_notes(list.drop_last(), scope) + match list[list.len() - 1] {
            Item::Message(message) => message_notes(message, scope),
            _ => Seq::empty(),
        }
    }
}

/// What is noted of all that is declared in a file.
pub open spec fn file_notes(c: Contents) -> Seq<NoteModel> {
    all_field_notes(messages_in(c, "extension"@), None) + item_notes(
        c.get("message_type"@),
        text_in(c, "package"@),
    )
}

/// What is noted of all that is declared in files.
pub open spec fn all_notes(files: Seq<Contents>) -> Seq<NoteModel>
    decreases files.len(),
{
    if files.len() == 0 {
        Seq::empty()
    } else {
        all_notes(files.drop_last()) + file_notes(files.last())
    }
}

/// The last part of a name with dots.
pub(crate) fn find_last_part(name: &String) -> (r: String)
    ensures
        r@ == last_part(name@),
{
    match rsplit_once(name.as_str(), '.') {
        Some((_, last)) => last,
        None => name.duplicate(),
    }
}

/// Puts what is noted of the type of a field of a message at the end of a list.
fn push_link_notes(from: &String, field: &DynamicMessage, notes: &mut Vec<Note>)
    requires
        contents(*field).schema == Schema::Field,
    ensures
        note_views(final(notes)@) == note_views(old(notes)@) + link_notes(from@, contents(*field)),
{
    proof {
        lemma_names_differ();
        lemma_kinds();
    }
    let ghost before = note_views(notes@);
    let named: String = read_text(field, "type_name");
    if named.as_str().unicode_len() != 0 {
        notes.push(Note::Link(find_last_part(from), find_last_part(&named)));
    }
    assert(note_views(notes@) =~= before + link_notes(from@, contents(*field)));
}

/// The full name of a message, if there is one.
spec fn within(full: Option<&String>) -> Option<Seq<char>> {
    match full {
        Some(full) => Some(full@),
        None => None,
    }
}

/// Puts what is noted of a field, or of an extension, at the end of a list.
fn push_field_notes(field: &DynamicMessage, full: Option<&String>, notes: &mut Vec<Note>)
    requires
        contents(*field).schema == Schema::Field,
    ensures
        note_views(final(notes)@) == note_views(old(notes)@) + field_notes(
            contents(*field),
            within(full),
        ),
{
    proof {
        lemma_names_differ();
        lemma_kinds();
        reveal_strlit(".");
    }
    let ghost before = note_views(notes@);
    let ghost c = contents(*field);
    let number: i32 = read_integer(field, "number");
    match full {
        Some(full) => {
            if field.has_field_by_name("extendee") || find_last_part(full).as_str().unicode_len()
                == 0 {
                let mut extendee: String = ".".to_owned();
                extendee.append(full.as_str());
                assert(extendee@ =~= seq!['.'] + full@);
                notes.push(Note::Key(extendee, number));
                assert(note_views(notes@) =~= before.push(
                    NoteModel::Key(seq!['.'] + full@, number),
                ));
            }
            push_link_notes(full, field, notes);
        },
        None => {
            let extendee: String = read_text(field, "extendee");
            notes.push(Note::Key(extendee.duplicate(), number));
            assert(note_views(notes@) =~= before.push(NoteModel::Key(extendee@, number)));
            push_link_notes(&extendee, field, notes);
        },
    }
    assert(note_views(notes@) =~= before + field_notes(c, within(full)));
}

/// Puts what is noted of the fields, or of the extensions, of a declaration at the end of a list.
fn push_all_field_notes(
    declaration: &DynamicMessage,
    name: &str,
    full: Option<&String>,
    notes: &mut Vec<Note>,
)
    requires
        contents(*declaration).typed(),
        kind_of(contents(*declaration).schema, name@) == Some(Kind::Messages(Schema::Field)),
    ensures
        note_views(final(notes)@) == note_views(old(notes)@) + all_field_notes(
            messages_in(contents(*declaration), name@),
            within(full),
        ),
{
    let ghost c = contents(*declaration);
    let ghost fields = messages_in(c, name@);
    let ghost before = note_views(notes@);
    proof {
        lemma_lists(c, name@, Schema::Field);
    }
    let value: Value = get_field(declaration, name);
    if let Some(list) = value.as_list() {
        let mut i: usize = 0;
        assert(before + all_field_notes(fields.take(0), within(full)) =~= before);
        while i < list.len()
            invariant
                i <= list@.len(),
                fields == messages_in(c, name@),
                lists(c, name@, Schema::Field, list@),
                note_views(notes@) == before + all_field_notes(
                    fields.take(i as int),
                    within(full),
                ),
            decreases list@.len() - i,
        {
            assert(value_item(list@[i as int]) == Item::Message(fields[i as int]));
            assert(fields.take(i + 1).drop_last() =~= fields.take(i as int));
            if let Some(field) = list[i].as_message() {
                push_field_notes(field, full, notes);
            }
            assert(note_views(notes@) =~= before + all_field_notes(
                fields.take(i + 1),
                within(full),
            ));
            i += 1;
        }
        assert(fields.take(i as int) =~= fields);
    }
}

/// Puts what is noted of a message of a full name itself at the end of a list.
fn push_own_notes(message: &DynamicMessage, full: &String, notes: &mut Vec<Note>)
    requires
        contents(*message).typed(),
        contents(*message).schema == Schema::Message,
    ensures
        note_views(final(notes)@) == note_views(old(notes)@) + own_notes(
            contents(*message),
            full@,
        ),
{
    let ghost before = note_views(notes@);
    let ghost c = contents(*message);
    if let Some(of) = find_options(full) {
        let fits: bool = check_options(message, of, full);
        notes.push(Note::Options(of, find_last_part(full), fits));
        assert(note_views(notes@) =~= before.push(
            NoteModel::Options(of, last_part(full@), declares_options(c, of, full@)),
        ));
    }
    if check_broken(message) {
        let ghost now = note_views(notes@);
        notes.push(Note::Broken(find_last_part(full)));
        assert(note_views(notes@) =~= now.push(NoteModel::Broken(last_part(full@))));
    }
    assert(note_views(notes@) =~= before + own_notes(c, full@));
}

/// Puts what is noted of the messages of a field, and of all that is declared in them at any depth,
/// at the end of a list.
fn push_inner_notes(
    declaration: &DynamicMessage,
    name: &str,
    scope: &String,
    notes: &mut Vec<Note>,
)
    requires
        contents(*declaration).typed(),
        kind_of(contents(*declaration).schema, name@) == Some(Kind::Messages(Schema::Message)),
    ensures
        note_views(final(notes)@) == note_views(old(notes)@) + item_notes(
            contents(*declaration).get(name@),
            scope@,
        ),
    decreases contents(*declaration), 0nat,
{
    let ghost c = contents(*declaration);
    let ghost before = note_views(notes@);
    proof {
        lemma_lists(c, name@, Schema::Message);
    }
    let value: Value = get_field(declaration, name);
    if let Some(list) = value.as_list() {
        let ghost all = items(list@);
        let mut i: usize = 0;
        assert(before + list_notes(all.take(0), scope@) =~= before);
        while i < list.len()
            invariant
                c == contents(*declaration),
                i <= list@.len(),
                all == items(list@),
                lists(c, name@, Schema::Message, list@),
                note_views(notes@) == before + list_notes(all.take(i as int), scope@),
            decreases list@.len() - i,
        {
            let ghost inner = messages_in(c, name@)[i as int];
            assert(value_item(list@[i as int]) == Item::Message(inner));
            assert(all.take(i + 1).drop_last() =~= all.take(i as int));
            assert(all.take(i + 1)[i as int] == Item::Message(inner));
            if let Some(message) = list[i].as_message() {
                proof {
                    lemma_smaller(c, name@, i as int);
                }
                push_message_notes(message, scope, notes);
            }
            assert(note_views(notes@) =~= before + list_notes(all.take(i + 1), scope@));
            i += 1;
        }
        assert(all.take(i as int) =~= all);
    }
}

/// Puts what is noted of a message, and of all that is declared in it at any depth, at the end of a
/// list.
fn push_message_notes(message: &DynamicMessage, scope: &String, notes: &mut Vec<Note>)
    requires
        contents(*message).typed(),
        contents(*message).schema == Schema::Message,
    ensures
        note_views(final(notes)@) == note_views(old(notes)@) + message_notes(
            contents(*message),
            scope@,
        ),
    decreases contents(*message), 1nat,
{
    let ghost c = contents(*message);
    let ghost before = note_views(notes@);
    proof {
        lemma_names_differ();
        lemma_kinds();
    }
    let full: String = join(scope, &read_text(message, "name"));
    push_own_notes(message, &full, notes);
    push_all_field_notes(message, "field", Some(&full), notes);
    push_all_field_notes(message, "extension", None, notes);
    push_inner_notes(message, "nested_type", &full, notes);
    assert(list_notes(Seq::empty(), full@) =~= Seq::empty());
    assert(note_views(notes@) =~= before + message_notes(c, scope@));
}

/// Puts what is noted of all that is declared in a file at the end of a list.
pub(crate) fn push_file_notes(file: &DynamicMessage, notes: &mut Vec<Note>)
    requires
        contents(*file).typed(),
        contents(*file).schema == Schema::File,
    ensures
        note_views(final(notes)@) == note_views(old(notes)@) + file_notes(contents(*file)),
{
    let ghost before = note_views(notes@);
    proof {
        lemma_names_differ();
        lemma_kinds();
    }
    push_all_field_notes(file, "extension", None, notes);
    push_inner_notes(file, "message_type", &read_text(file, "package"), notes);
    assert(note_views(notes@) =~= before + file_notes(contents(*file)));
}

/// The last part of a name is what stands behind its last dot, or the name where it has none.
pub proof fn law_the_last_part_stands_behind_the_last_dot(before: Seq<char>, last: Seq<char>)
    requires
        forall|i: int| 0 <= i < last.len() ==> #[trigger] last[i] != '.',
    ensures
        last_part(before + seq!['.'] + last) == last,
        last_part(last) == last,
{
    law_split_last_takes_apart_what_was_joined(before, '.', last);
    law_split_last_leaves_other_texts(last, '.');
}

} // verus!
