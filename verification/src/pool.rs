//! Pools of descriptors, and what can be said of a file before it is added to one.

use crate::declarations::{joined, Optional};
use crate::dynamic::{
    contents, decoded, get_field, items, lemma_names_differ, value_item, Contents, Item, Schema,
};
use crate::editions::{
    law_files_of_a_set_are_lowered_one_by_one, law_name_and_imports_are_kept, lowered, lowered_set,
    read_lowered_file, read_lowered_set,
};
use crate::error::Error;
use crate::imports::{imports_in, name_in};
use crate::readable::{all_readable, readable, Facts};
use crate::reading::{lemma_typed_list, messages_in, read_text, text_in};
use crate::rules::{all_foreseen, all_keep, file_keeps, has_no_options, is_foreseen, Rule};
use crate::topology::views;
use prost::Message;
use prost_reflect::{DescriptorError, DescriptorPool, DynamicMessage, Value};
use vstd::prelude::*;

verus! {

/// Descriptors, as `prost_reflect` holds them.
#[verifier::external_type_specification]
#[verifier::external_body]
pub struct ExDescriptorPool(DescriptorPool);

/// What an encoded file says of itself and of the files that it imports.
#[derive(Debug)]
pub struct FileHeader {
    pub name: String,
    /// The names of the files that it imports.
    pub dependencies: Vec<String>,
}

/// The mathematical value of a [`FileHeader`].
#[verifier::ext_equal]
pub struct HeaderModel {
    pub name: Seq<char>,
    pub dependencies: Seq<Seq<char>>,
}

impl View for FileHeader {
    type V = HeaderModel;

    open spec fn view(&self) -> HeaderModel {
        HeaderModel { name: self.name@, dependencies: views(self.dependencies@) }
    }
}

/// What `FileDescriptorProto::decode` reads of an encoded file, if it reads one.
pub uninterp spec fn file_header(bytes: Seq<u8>) -> Option<HeaderModel>;

/// The files of a pool, as they were when they were added, in the order in which they were added.
///
/// This is said of pools that are made by `DescriptorPool::new`, by `DescriptorPool::decode`, or
/// out of one of them by an addition that succeeded. Of a pool that is left over from an addition
/// that failed, and of one that is made in another way, nothing is known.
pub uninterp spec fn held(pool: DescriptorPool) -> Seq<Contents>;

/// Whether one of the files has a name.
pub open spec fn has_name(files: Seq<Contents>, name: Seq<char>) -> bool {
    exists|i: int| 0 <= i < files.len() && name_in(#[trigger] files[i]) == name
}

/// A name without the dot that it can start with.
pub open spec fn undotted(name: Seq<char>) -> Seq<char> {
    if name.len() > 0 && name[0] == '.' {
        name.skip(1)
    } else {
        name
    }
}

/// Whether a message within a scope has a full name, or one that is declared in it at any depth.
pub open spec fn message_declares(c: Contents, scope: Seq<char>, full: Seq<char>) -> bool
    decreases c,
{
    ||| joined(scope, text_in(c, "name"@)) == full
    ||| c.fields.contains_key("nested_type"@) && item_declares(
        c.fields["nested_type"@],
        joined(scope, text_in(c, "name"@)),
        full,
    )
}

/// Whether one of the messages that a value holds has a full name, or one that is declared in them.
pub open spec fn item_declares(item: Item, scope: Seq<char>, full: Seq<char>) -> bool
    decreases item,
{
    match item {
        Item::List(list) => exists|i: int|
            0 <= i < list.len() && match #[trigger] list[i] {
                Item::Message(message) => message_declares(message, scope, full),
                _ => false,
            },
        _ => false,
    }
}

/// Whether a file declares a message of a full name, at any depth.
pub open spec fn file_declares(c: Contents, full: Seq<char>) -> bool {
    item_declares(c.get("message_type"@), text_in(c, "package"@), full)
}

/// Whether one of the files declares a message of a full name, at any depth.
pub open spec fn declares(files: Seq<Contents>, full: Seq<char>) -> bool {
    exists|i: int| 0 <= i < files.len() && file_declares(#[trigger] files[i], full)
}

/// Whether all are files.
pub open spec fn are_files(files: Seq<Contents>) -> bool {
    forall|i: int|
        0 <= i < files.len() ==> (#[trigger] files[i]).typed() && files[i].schema == Schema::File
}

/// Whether all that a file imports is among the files.
pub open spec fn imports_present(files: Seq<Contents>, c: Contents) -> bool {
    forall|k: int|
        0 <= k < imports_in(c).dependencies.len() ==> has_name(
            files,
            #[trigger] imports_in(c).dependencies[k],
        )
}

/// Whether all that any of the files imports is among them.
pub open spec fn closed_under_imports(files: Seq<Contents>) -> bool {
    forall|i: int| 0 <= i < files.len() ==> imports_present(files, #[trigger] files[i])
}

/// Whether no two files have the same name.
pub open spec fn distinct_names(files: Seq<Contents>) -> bool {
    forall|i: int, j: int|
        0 <= i < j < files.len() ==> name_in(#[trigger] files[i]) != name_in(#[trigger] files[j])
}

/// `DescriptorPool::new` makes a pool without files.
pub assume_specification[ DescriptorPool::new ]() -> (r: DescriptorPool)
    ensures
        held(r) == Seq::<Contents>::empty(),
;

/// Calls `DescriptorPool::get_message_by_name` for whether there is such a message. A dot that the
/// name starts with is left out; the rest is the full name of a message that a file of the pool
/// declares.
#[verifier::external_body]
fn find_message(pool: &DescriptorPool, name: &str) -> (r: bool)
    ensures
        r == declares(held(*pool), undotted(name@)),
{
    pool.get_message_by_name(name).is_some()
}

/// Calls `DescriptorPool::get_file_by_name` for whether there is a file of a name.
#[verifier::external_body]
fn find_file(pool: &DescriptorPool, name: &str) -> (r: bool)
    ensures
        r == has_name(held(*pool), name@),
{
    pool.get_file_by_name(name).is_some()
}

/// Calls `FileDescriptorProto::decode` of `prost_types`, and keeps of the file what the header
/// holds.
#[verifier::external_body]
pub(crate) fn read_header(bytes: &[u8]) -> (r: Result<FileHeader, prost::DecodeError>)
    ensures
        match r {
            Ok(header) => file_header(bytes@) == Some(header@),
            Err(_) => file_header(bytes@) is None,
        },
{
    let file = prost_types::FileDescriptorProto::decode(bytes)?;
    Ok(FileHeader { name: file.name().to_string(), dependencies: file.dependency })
}

/// Whether the options of a file are read the same way whatever else the program does: no file
/// declares a message by which they are read, and they hold nothing that `descriptor.proto` has no
/// field for.
pub open spec fn is_foreseen_among(files: Seq<Contents>, file: Contents) -> bool {
    forall|of: Optional| #[trigger]
        file_keeps(file, Rule::Without(of)) || is_foreseen(file, of) && !declares(
            files.push(file),
            of.message(),
        )
}

/// A file without options has none to be read.
pub proof fn law_a_file_without_options_is_foreseen(files: Seq<Contents>, file: Contents)
    requires
        has_no_options(file),
    ensures
        is_foreseen_among(files, file),
{
}

/// Whether `DescriptorPool::decode_file_descriptor_proto` takes a file, or passes it over, in a pool
/// that holds files. This is said of a file whose name is among the files, or whose options are
/// foreseen among them.
pub uninterp spec fn taken(files: Seq<Contents>, file: Contents) -> bool;

/// Encodes a file and calls `DescriptorPool::decode_file_descriptor_proto` on a clone of the pool. A
/// file whose name is there already is passed over, if its bytes can be decoded. One whose name is
/// new is added to the files of the pool, and is so only if all that it imports is among them. Once
/// it is there, the same file is passed over.
///
/// It panics on a file whose name is new if it does not know the syntax, or if there is a default
/// for bytes that cannot be read. Where the pool has the message for options by which options of
/// the file are read, it panics if that is not declared as `prost_types` has it, or if an option
/// that is still to be read sets groups that are nested too deeply. It can panic if the options
/// reach an entry of a map that has no key or no value, or if they set an extension and reach a
/// message of which another extension or a field has the same number as an extension. It does not
/// return where the search for the files that this one sees goes around in a circle. The addition is
/// made to a clone, since a pool to which an addition fails can be left with extensions that are not
/// there.
///
/// Whether a file is passed over depends on the file alone, and whether one is taken that has no
/// options, or whose options are foreseen, on the files alone: that has a name. Left unsaid is when
/// others are taken. Where the pool has a message by which options are read, it depends on how the
/// files of the pool were added; where it has none, that of `DescriptorPool::global` is used, and it
/// can depend on the extensions that other parts of the program have put there.
#[verifier::external_body]
fn add_file(pool: &DescriptorPool, file: &DynamicMessage) -> (r: Result<
    DescriptorPool,
    DescriptorError,
>)
    requires
        contents(*file).typed(),
        contents(*file).schema == Schema::File,
        has_name(held(*pool), name_in(contents(*file))) || readable(
            held(*pool).push(contents(*file)),
            held(*pool).len() as int,
        ),
    ensures
        match r {
            Ok(after) => taken(held(after), contents(*file)) && if has_name(
                held(*pool),
                name_in(contents(*file)),
            ) {
                held(after) == held(*pool)
            } else {
                held(after) == held(*pool).push(contents(*file)) && imports_present(
                    held(after),
                    contents(*file),
                )
            },
            Err(_) => true,
        },
        has_name(held(*pool), name_in(contents(*file))) || is_foreseen_among(
            held(*pool),
            contents(*file),
        ) ==> (r is Ok <==> taken(held(*pool), contents(*file))),
{
    let mut pool = pool.clone();
    pool.decode_file_descriptor_proto(file.encode_to_vec().as_slice())?;
    Ok(pool)
}

/// Whether the options of files are read the same way whatever else the program does: the message by
/// which those of a kind are read is declared by one of the files, or they hold nothing that
/// `descriptor.proto` has no field for.
pub open spec fn is_self_contained(files: Seq<Contents>) -> bool {
    forall|of: Optional|
        declares(files, #[trigger] of.message()) || all_foreseen(files, of) || all_keep(
            files,
            Rule::Without(of),
        )
}

/// Files without options have none to be read.
pub proof fn law_files_without_options_are_self_contained(files: Seq<Contents>)
    requires
        forall|i: int| 0 <= i < files.len() ==> has_no_options(#[trigger] files[i]),
    ensures
        is_self_contained(files),
{
    assert forall|of: Optional| all_keep(files, Rule::Without(of)) by {}
}

/// Whether `DescriptorPool::decode` makes a pool of a set of files that are self-contained.
pub uninterp spec fn built(set: Contents) -> bool;

/// Encodes a set of files and calls `DescriptorPool::decode`, which makes a pool of them, and does
/// so only if no two have the same name and all that any of them imports is among them. It makes
/// one of a set in which nothing is set.
///
/// It panics, or does not return, on the same files as the addition of a file does. Whether it makes
/// a pool of files that are self-contained, as those without options are, depends on the set alone,
/// and has a name. Left unsaid is when it does so of others: their options are read by a message of
/// `DescriptorPool::global`, and hold something that may or may not be one of the extensions that
/// other parts of the program have put there.
#[verifier::external_body]
fn decode_set(set: &DynamicMessage) -> (r: Result<DescriptorPool, DescriptorError>)
    requires
        contents(*set).typed(),
        contents(*set).schema == Schema::FileSet,
        all_readable(messages_in(contents(*set), "file"@)),
    ensures
        match r {
            Ok(pool) => held(pool) == messages_in(contents(*set), "file"@) && distinct_names(
                held(pool),
            ) && closed_under_imports(held(pool)),
            Err(_) => !is_empty(contents(*set)),
        },
        is_self_contained(messages_in(contents(*set), "file"@)) ==> (r is Ok <==> built(
            contents(*set),
        )),
{
    DescriptorPool::decode(set.encode_to_vec().as_slice())
}

/// Whether nothing is set in a set of files.
pub open spec fn is_empty(set: Contents) -> bool {
    messages_in(set, "file"@).len() == 0 && set.rest.len() == 0
}

/// A pool of descriptors, with what tells whether it can look at one more file.
#[derive(Debug)]
pub struct Pool {
    descriptors: DescriptorPool,
    facts: Facts,
}

impl View for Pool {
    type V = Seq<Contents>;

    closed spec fn view(&self) -> Seq<Contents> {
        held(self.descriptors)
    }
}

/// Whether `before` becomes `after`, and `r` is the outcome, when an encoded file is lowered and
/// added.
///
/// A file whose name is there already is passed over, if it can still be decoded. One that is added
/// is so only if all that it imports is there. The files stay as they are where the file cannot be
/// decoded, no pool can look at it, or this one does not take it. Whether it takes one whose options
/// are foreseen, or that has none, is a matter of the files alone.
pub open spec fn is_added(
    before: Seq<Contents>,
    bytes: Seq<u8>,
    after: Seq<Contents>,
    r: Result<(), Error>,
) -> bool {
    match decoded(Schema::File, bytes) {
        None => after == before && r is Err && r->Err_0 is DecodeError,
        Some(file) => is_put_in(before, lowered(file), after, r),
    }
}

/// Whether `before` becomes `after`, and `r` is the outcome, when a file is added as it is.
pub open spec fn is_put_in(
    before: Seq<Contents>,
    file: Contents,
    after: Seq<Contents>,
    r: Result<(), Error>,
) -> bool {
    if has_name(before, name_in(file)) {
        &&& after == before
        &&& r is Ok <==> taken(before, file)
        &&& r is Err ==> r->Err_0 is DescriptorError
    } else if !readable(before.push(file), before.len() as int) {
        after == before && r is Err && r->Err_0 is Unreadable
    } else {
        &&& if r is Ok {
            after == before.push(file) && imports_present(after, file) && taken(after, file)
        } else {
            after == before && r->Err_0 is DescriptorError
        }
        &&& is_foreseen_among(before, file) ==> (r is Ok <==> taken(before, file))
    }
}

impl Pool {
    /// Whether the facts are those of the files, which have names of their own, and all that they
    /// import is there.
    pub closed spec fn wf(&self) -> bool {
        &&& self.facts.are_of(self@)
        &&& are_files(self@)
        &&& distinct_names(self@)
        &&& closed_under_imports(self@)
    }

    /// The files of a pool have names of their own, and all that they import is there.
    pub proof fn law_files_are_in_order(&self)
        requires
            self.wf(),
        ensures
            are_files(self@),
            distinct_names(self@),
            closed_under_imports(self@),
    {
    }

    /// A pool without files.
    pub fn new() -> (r: Pool)
        ensures
            r.wf(),
            r@ == Seq::<Contents>::empty(),
    {
        Pool { descriptors: DescriptorPool::new(), facts: Facts::new() }
    }

    /// The descriptors of a pool.
    pub fn descriptors(&self) -> (r: &DescriptorPool)
        ensures
            held(*r) == self@,
    {
        &self.descriptors
    }

    /// The descriptors of a pool.
    pub fn into_descriptors(self) -> (r: DescriptorPool)
        ensures
            held(r) == self@,
    {
        self.descriptors
    }

    /// Whether there is a file of a name.
    pub fn has_file(&self, name: &str) -> (r: bool)
        ensures
            r == has_name(self@, name@),
    {
        find_file(&self.descriptors, name)
    }

    /// Whether there is a message of a full name, which can start with a dot.
    pub fn has_message(&self, name: &str) -> (r: bool)
        ensures
            r == declares(self@, undotted(name@)),
    {
        find_message(&self.descriptors, name)
    }

    /// Adds a file, or passes it over if its name is there already.
    fn add(&mut self, file: &DynamicMessage) -> (r: Result<(), Error>)
        requires
            old(self).wf(),
            contents(*file).typed(),
            contents(*file).schema == Schema::File,
        ensures
            final(self).wf(),
            is_put_in(old(self)@, contents(*file), final(self)@, r),
    {
        let ghost before = self@;
        let ghost c = contents(*file);
        let ghost files = before.push(c);
        proof {
            lemma_names_differ();
        }
        let name: String = read_text(file, "name");
        if self.has_file(name.as_str()) {
            return match add_file(&self.descriptors, file) {
                Ok(_) => Ok(()),
                Err(e) => Err(Error::DescriptorError(e)),
            };
        }
        let notes: usize = self.facts.notes.len();
        self.facts.push(file, Ghost(before));
        assert(files[before.len() as int] == c);
        let at: usize = self.facts.imports.len() - 1;
        if !self.facts.check(file, at, Ghost(files)) {
            self.facts.take_back(notes, Ghost(before));
            return Err(Error::Unreadable);
        }
        match add_file(&self.descriptors, file) {
            Ok(descriptors) => {
                self.descriptors = descriptors;
                proof {
                    lemma_files_in_order(before, c);
                }
                Ok(())
            },
            Err(e) => {
                self.facts.take_back(notes, Ghost(before));
                Err(Error::DescriptorError(e))
            },
        }
    }
}

/// With a file whose name is new and whose imports are there, files that are in order stay so.
proof fn lemma_files_in_order(files: Seq<Contents>, c: Contents)
    requires
        are_files(files),
        distinct_names(files),
        closed_under_imports(files),
        c.typed(),
        c.schema == Schema::File,
        !has_name(files, name_in(c)),
        imports_present(files.push(c), c),
    ensures
        are_files(files.push(c)),
        distinct_names(files.push(c)),
        closed_under_imports(files.push(c)),
{
    let more = files.push(c);
    assert forall|i: int| 0 <= i < more.len() implies imports_present(more, #[trigger] more[i]) by {
        if i < files.len() {
            assert(imports_present(files, files[i]));
            assert forall|k: int| 0 <= k < imports_in(files[i]).dependencies.len() implies has_name(
                more,
                #[trigger] imports_in(files[i]).dependencies[k],
            ) by {
                let name = imports_in(files[i]).dependencies[k];
                law_added_files_stay(files, c, name);
            }
        }
    }
    assert forall|i: int, j: int| 0 <= i < j < more.len() implies name_in(#[trigger] more[i])
        != name_in(#[trigger] more[j]) by {
        if j == files.len() {
            assert(name_in(files[i]) != name_in(c));
        }
    }
}

/// A file that is there stays there when another is added.
pub proof fn law_added_files_stay(files: Seq<Contents>, c: Contents, name: Seq<char>)
    ensures
        has_name(files.push(c), name) <==> has_name(files, name) || name_in(c) == name,
{
    let more = files.push(c);
    if has_name(files, name) {
        let i = choose|i: int| 0 <= i < files.len() && name_in(#[trigger] files[i]) == name;
        assert(name_in(more[i]) == name);
    }
    if name_in(c) == name {
        assert(name_in(more[files.len() as int]) == name);
    }
    if has_name(more, name) {
        let i = choose|i: int| 0 <= i < more.len() && name_in(#[trigger] more[i]) == name;
        if i < files.len() {
            assert(name_in(files[i]) == name);
        }
    }
}

/// To add a file again, once it was added, changes nothing.
pub proof fn law_adding_twice_is_adding_once(
    before: Seq<Contents>,
    bytes: Seq<u8>,
    after: Seq<Contents>,
    first: Result<(), Error>,
    later: Seq<Contents>,
    second: Result<(), Error>,
)
    requires
        is_added(before, bytes, after, first),
        first is Ok,
        is_added(after, bytes, later, second),
    ensures
        second is Ok,
        later == after,
{
    let file = decoded(Schema::File, bytes)->0;
    law_name_and_imports_are_kept(file);
    law_added_files_stay(before, lowered(file), name_in(file));
}

/// Lowers an encoded file and adds it to a pool, which then has a file of its name.
pub fn add_lowered_file(pool: &mut Pool, bytes: &[u8]) -> (r: Result<(), Error>)
    requires
        old(pool).wf(),
    ensures
        final(pool).wf(),
        is_added(old(pool)@, bytes@, final(pool)@, r),
        r is Ok && file_header(bytes@) is Some ==> has_name(
            final(pool)@,
            file_header(bytes@)->0.name,
        ),
        r is Err ==> final(pool)@ == old(pool)@,
        decoded(Schema::File, bytes@) is None <==> r is Err && r->Err_0 is DecodeError,
        decoded(Schema::File, bytes@) matches Some(file) ==> r is Ok ==> if has_name(
            old(pool)@,
            text_in(file, "name"@),
        ) {
            final(pool)@ == old(pool)@
        } else {
            final(pool)@ == old(pool)@.push(lowered(file))
        },
{
    let file: DynamicMessage = match read_lowered_file(bytes) {
        Ok(file) => file,
        Err(e) => return Err(e),
    };
    let ghost before = pool@;
    let ghost c = decoded(Schema::File, bytes@)->0;
    proof {
        law_name_and_imports_are_kept(c);
        law_added_files_stay(before, lowered(c), name_in(c));
    }
    pool.add(&file)
}

/// Whether a list holds files.
spec fn holds(list: Seq<Value>, files: Seq<Contents>) -> bool {
    &&& list.len() == files.len()
    &&& forall|i: int|
        0 <= i < files.len() ==> value_item(#[trigger] list[i]) == Item::Message(files[i])
            && files[i].typed() && files[i].schema == Schema::File
}

/// Gathers the facts of the files of a set.
fn gather(list: &[Value], Ghost(files): Ghost<Seq<Contents>>) -> (r: Facts)
    requires
        holds(list@, files),
    ensures
        r.are_of(files),
{
    let mut facts: Facts = Facts::new();
    let mut i: usize = 0;
    assert(files.take(0) =~= Seq::<Contents>::empty());
    while i < list.len()
        invariant
            i <= list@.len(),
            holds(list@, files),
            facts.are_of(files.take(i as int)),
        decreases list@.len() - i,
    {
        assert(value_item(list@[i as int]) == Item::Message(files[i as int]));
        assert(files.take(i + 1) =~= files.take(i as int).push(files[i as int]));
        if let Some(file) = list[i].as_message() {
            facts.push(file, Ghost(files.take(i as int)));
        }
        i += 1;
    }
    assert(files.take(i as int) =~= files);
    facts
}

/// Whether a pool can look at each file of a set.
fn check_all(list: &[Value], facts: &Facts, Ghost(files): Ghost<Seq<Contents>>) -> (r: bool)
    requires
        holds(list@, files),
        facts.are_of(files),
    ensures
        r == all_readable(files),
{
    let mut i: usize = 0;
    while i < list.len()
        invariant
            i <= list@.len(),
            holds(list@, files),
            facts.are_of(files),
            forall|j: int| 0 <= j < i ==> #[trigger] readable(files, j),
        decreases list@.len() - i,
    {
        assert(value_item(list@[i as int]) == Item::Message(files[i as int]));
        if let Some(file) = list[i].as_message() {
            if !facts.check(file, i, Ghost(files)) {
                assert(!readable(files, i as int));
                return false;
            }
        }
        i += 1;
    }
    true
}

/// Lowers an encoded set of files and makes a pool of it. Of no bytes it makes a pool without
/// files. Whether it makes one of files that are self-contained is a matter of the set alone.
pub fn pool_from_descriptor_set(bytes: &[u8]) -> (r: Result<Pool, Error>)
    ensures
        match decoded(Schema::FileSet, bytes@) {
            None => r is Err && r->Err_0 is DecodeError,
            Some(set) => if !all_readable(messages_in(lowered_set(set), "file"@)) {
                r is Err && r->Err_0 is Unreadable
            } else {
                &&& match r {
                    Ok(pool) => pool.wf() && pool@ == messages_in(lowered_set(set), "file"@),
                    Err(e) => e is DescriptorError && !is_empty(lowered_set(set)),
                }
                &&& is_self_contained(messages_in(lowered_set(set), "file"@)) ==> (r is Ok
                    <==> built(lowered_set(set)))
            },
        },
        bytes@.len() == 0 ==> r is Ok && r->Ok_0@ == Seq::<Contents>::empty(),
        r is Ok ==> match decoded(Schema::FileSet, bytes@) {
            Some(set) => match set.get("file"@) {
                Item::List(list) => r->Ok_0@.len() == list.len() && forall|i: int|
                    0 <= i < list.len() ==> match #[trigger] list[i] {
                        Item::Message(file) => r->Ok_0@[i] == lowered(file),
                        _ => false,
                    },
                _ => false,
            },
            None => false,
        },
{
    let set: DynamicMessage = match read_lowered_set(bytes) {
        Ok(set) => set,
        Err(e) => return Err(e),
    };
    let ghost c = contents(set);
    let ghost files = messages_in(c, "file"@);
    proof {
        lemma_typed_list(c, "file"@, Schema::File);
        let said = decoded(Schema::FileSet, bytes@)->0;
        law_files_of_a_set_are_lowered_one_by_one(said);
        lemma_typed_list(said, "file"@, Schema::File);
        let list = said.get("file"@)->List_0;
        assert forall|i: int| 0 <= i < list.len() implies match #[trigger] list[i] {
            Item::Message(file) => files[i] == lowered(file),
            _ => false,
        } by {
            assert(list[i] == Item::Message(messages_in(said, "file"@)[i]));
        }
    }
    let value: Value = get_field(&set, "file");
    let mut facts: Facts = Facts::new();
    if let Some(list) = value.as_list() {
        proof {
            assert forall|i: int| 0 <= i < files.len() implies value_item(#[trigger] list@[i])
                == Item::Message(files[i]) && files[i].typed() && files[i].schema
                == Schema::File by {
                assert(items(list@)[i] == value_item(list@[i]));
            }
        }
        facts = gather(list, Ghost(files));
        if !check_all(list, &facts, Ghost(files)) {
            return Err(Error::Unreadable);
        }
    }
    match decode_set(&set) {
        Ok(descriptors) => {
            Ok(Pool { descriptors, facts })
        },
        Err(e) => Err(Error::DescriptorError(e)),
    }
}

/// A dot that a name starts with is left out, and no more than that.
pub proof fn law_no_more_than_the_first_dot_is_left_out(name: Seq<char>)
    ensures
        undotted(seq!['.'] + name) == name,
        name.len() > 0 && name[0] != '.' ==> undotted(name) == name,
        undotted(Seq::empty()) == Seq::<char>::empty(),
{
    assert((seq!['.'] + name).skip(1) =~= name);
}

/// A file is found by the name that it has.
pub proof fn law_files_are_found_by_their_names(files: Seq<Contents>, name: Seq<char>)
    requires
        name.len() > 0,
    ensures
        has_name(files, name) <==> exists|i: int|
            0 <= i < files.len() && (#[trigger] files[i]).get("name"@) == Item::Text(name),
{
    if has_name(files, name) {
        let i = choose|i: int| 0 <= i < files.len() && name_in(#[trigger] files[i]) == name;
        assert(files[i].get("name"@) == Item::Text(name));
    }
    if exists|i: int|
        0 <= i < files.len() && (#[trigger] files[i]).get("name"@) == Item::Text(name) {
        let i = choose|i: int|
            0 <= i < files.len() && (#[trigger] files[i]).get("name"@) == Item::Text(name);
        assert(name_in(files[i]) == name);
    }
}

/// A pool stays as it is, or has one file more, which is the lowered one: that is so exactly if the
/// addition succeeds and no file had its name. It then has a file of that name, and all that the file
/// imports. Each failure says what it is owed to.
pub proof fn law_additions_are_what_they_say(
    before: Seq<Contents>,
    bytes: Seq<u8>,
    after: Seq<Contents>,
    r: Result<(), Error>,
)
    requires
        is_added(before, bytes, after, r),
    ensures
        after == before || decoded(Schema::File, bytes) is Some && after == before.push(
            lowered(decoded(Schema::File, bytes)->0),
        ),
        r is Err ==> after == before,
        r is Err && r->Err_0 is DecodeError <==> decoded(Schema::File, bytes) is None,
        decoded(Schema::File, bytes) matches Some(file) ==> {
            let name = text_in(file, "name"@);
            &&& r is Ok ==> has_name(after, name)
            &&& r is Ok && !has_name(before, name) ==> after.len() == before.len() + 1
            &&& has_name(before, name) ==> after == before
            &&& r is Err && r->Err_0 is Unreadable <==> !has_name(before, name) && !readable(
                before.push(lowered(file)),
                before.len() as int,
            )
            &&& r is Ok && !has_name(before, name) ==> match file.get("dependency"@) {
                Item::List(list) => forall|k: int|
                    0 <= k < list.len() && (#[trigger] list[k]) is Text ==> has_name(
                        after,
                        list[k]->Text_0,
                    ),
                _ => true,
            }
        },
{
    if let Some(file) = decoded(Schema::File, bytes) {
        law_name_and_imports_are_kept(file);
        let out = lowered(file);
        law_added_files_stay(before, out, name_in(file));
        if let Item::List(list) = file.get("dependency"@) {
            assert forall|k: int| 0 <= k < list.len() && (#[trigger] list[k]) is Text && r is Ok
                && !has_name(before, name_in(file)) implies has_name(after, list[k]->Text_0) by {
                assert(imports_in(out).dependencies[k] == list[k]->Text_0);
            }
        }
    }
}

/// A message that stands in a message, or in a file, has the full name that its own name makes with
/// those around it, and the file declares it under that.
pub proof fn law_messages_are_declared_under_their_full_names(
    files: Seq<Contents>,
    f: int,
    i: int,
    message: Contents,
    package: Seq<char>,
    name: Seq<char>,
)
    requires
        0 <= f < files.len(),
        match files[f].get("message_type"@) {
            Item::List(list) => 0 <= i < list.len() && list[i] == Item::Message(message),
            _ => false,
        },
        files[f].get("package"@) == Item::Text(package),
        message.get("name"@) == Item::Text(name),
    ensures
        package.len() == 0 ==> declares(files, name),
        package.len() > 0 ==> declares(files, package + "."@ + name),
        match message.get("nested_type"@) {
            Item::List(list) => forall|k: int|
                0 <= k < list.len() && message.has("nested_type"@) ==> match #[trigger] list[k] {
                    Item::Message(nested) => match nested.get("name"@) {
                        Item::Text(inner) => {
                            &&& package.len() == 0 && name.len() > 0 ==> declares(
                                files,
                                name + "."@ + inner,
                            )
                            &&& package.len() > 0 ==> declares(
                                files,
                                package + "."@ + name + "."@ + inner,
                            )
                        },
                        _ => true,
                    },
                    _ => true,
                },
            _ => true,
        },
{
    reveal_strlit(".");
    assert("."@ =~= seq!['.']);
    let full = joined(package, name);
    let top = files[f].get("message_type"@)->List_0;
    assert(message_declares(message, package, full));
    assert(top[i] == Item::Message(message));
    assert(file_declares(files[f], full));
    if let Item::List(list) = message.get("nested_type"@) {
        assert forall|k: int| 0 <= k < list.len() && message.has("nested_type"@) implies match
            #[trigger] list[k] {
            Item::Message(nested) => match nested.get("name"@) {
                Item::Text(inner) => declares(files, joined(full, inner)),
                _ => true,
            },
            _ => true,
        } by {
            if let Item::Message(nested) = list[k] {
                if let Item::Text(inner) = nested.get("name"@) {
                    assert(message_declares(nested, full, joined(full, inner)));
                    assert(item_declares(message.fields["nested_type"@], full, joined(full, inner)));
                    assert(message_declares(message, package, joined(full, inner)));
                    assert(file_declares(files[f], joined(full, inner)));
                }
            }
        }
    }
}

} // verus!
