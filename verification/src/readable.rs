//! Whether a pool can look at a file, among the others.

use crate::adjacency::Node;
use crate::declarations::Optional;
use crate::dynamic::{contents, lemma_names_differ, Contents, Schema};
use crate::imports::{
    check_imports, import_models, imports_end, imports_of, read_imports, Imports,
};
use crate::notes::{all_notes, file_notes, note_views, push_file_notes, Note, NoteModel};
use crate::reach::{check_reach, is_harmless, is_sealed, reaches_no_harm, uses};
use crate::reading::{read_text, text_in};
use crate::rules::{check_file, file_keeps, has_no_options, Rule};
use prost_reflect::DynamicMessage;
use vstd::prelude::*;

verus! {

/// Whether a file is written in a syntax that pools know. One that names none is of `proto2`.
pub open spec fn knows_syntax(c: Contents) -> bool {
    c.has("syntax"@) ==> text_in(c, "syntax"@) == "proto2"@ || text_in(c, "syntax"@) == "proto3"@
}

/// Whether a pool can look at the options of the file at `at`, among the others.
///
/// A message by which they are read, where one of the files declares it, must be declared as it must
/// be, and options that are still to be read must then set nothing that is nested too deeply. What
/// they reach must do no harm.
pub open spec fn has_readable_options(files: Seq<Contents>, at: int) -> bool {
    &&& forall|i: int|
        0 <= i < all_notes(files).len() ==> match #[trigger] all_notes(files)[i] {
            NoteModel::Options(of, _, fits) => uses(files[at], of) ==> fits && file_keeps(
                files[at],
                Rule::Shallow,
            ),
            _ => true,
        }
    &&& reaches_no_harm(all_notes(files), files[at])
}

/// Whether a pool can look at the file at `at`, among the others: it is of a syntax that pools
/// know, its defaults and its options can be read, and the search for the files that it sees comes
/// to an end.
pub open spec fn readable(files: Seq<Contents>, at: int) -> bool {
    &&& knows_syntax(files[at])
    &&& file_keeps(files[at], Rule::Defaults)
    &&& has_readable_options(files, at)
    &&& imports_end(imports_of(files), at)
}

/// Whether a pool can look at each of the files.
pub open spec fn all_readable(files: Seq<Contents>) -> bool {
    forall|i: int| 0 <= i < files.len() ==> #[trigger] readable(files, i)
}

/// A file without options can be looked at if its syntax is known, its defaults can be read, and the
/// search for the files that it sees comes to an end, whatever the other files declare.
pub proof fn law_files_without_options_reach_nothing(files: Seq<Contents>, at: int)
    requires
        has_no_options(files[at]),
    ensures
        readable(files, at) <==> knows_syntax(files[at]) && file_keeps(files[at], Rule::Defaults)
            && imports_end(imports_of(files), at),
{
    assert(forall|of: Optional| !uses(files[at], of));
    let none = Set::<Seq<char>>::empty();
    assert(is_sealed(all_notes(files), files[at], none));
    assert(is_harmless(all_notes(files), none, file_keeps(files[at], Rule::Plain)));
}

/// Whether a file is written in a syntax that pools know.
fn check_syntax(file: &DynamicMessage) -> (r: bool)
    requires
        contents(*file).schema == Schema::File,
    ensures
        r == knows_syntax(contents(*file)),
{
    proof {
        lemma_names_differ();
    }
    if !file.has_field_by_name("syntax") {
        return true;
    }
    let syntax: String = read_text(file, "syntax");
    syntax.same(&"proto2".to_owned()) || syntax.same(&"proto3".to_owned())
}

/// Whether the messages by which the options of a file are read are declared as they must be, and
/// options that are still to be read set nothing that is nested too deeply.
fn check_messages(notes: &Vec<Note>, file: &DynamicMessage) -> (r: bool)
    requires
        contents(*file).typed(),
        contents(*file).schema == Schema::File,
    ensures
        r == forall|i: int|
            0 <= i < notes@.len() ==> match #[trigger] note_views(notes@)[i] {
                NoteModel::Options(of, _, fits) => uses(contents(*file), of) ==> fits && file_keeps(
                    contents(*file),
                    Rule::Shallow,
                ),
                _ => true,
            },
{
    let ghost all = note_views(notes@);
    let ghost c = contents(*file);
    let mut i: usize = 0;
    while i < notes.len()
        invariant
            i <= notes@.len(),
            all == note_views(notes@),
            c == contents(*file),
            c.typed(),
            c.schema == Schema::File,
            forall|j: int|
                0 <= j < i ==> match #[trigger] all[j] {
                    NoteModel::Options(of, _, fits) => uses(c, of) ==> fits && file_keeps(
                        c,
                        Rule::Shallow,
                    ),
                    _ => true,
                },
        decreases notes@.len() - i,
    {
        assert(all[i as int] == notes@[i as int]@);
        if let Note::Options(of, _, fits) = &notes[i] {
            if !check_file(file, Rule::Without(*of)) && !(*fits && check_file(
                file,
                Rule::Shallow,
            )) {
                return false;
            }
        }
        i += 1;
    }
    true
}

/// What is to be known of files to tell whether a pool can look at one of them.
#[derive(Debug)]
pub(crate) struct Facts {
    pub(crate) imports: Vec<Imports>,
    pub(crate) notes: Vec<Note>,
}

impl Facts {
    /// Whether these are the facts of the files.
    pub(crate) open spec fn are_of(self, files: Seq<Contents>) -> bool {
        &&& import_models(self.imports@) == imports_of(files)
        &&& note_views(self.notes@) == all_notes(files)
    }

    /// The facts of no files.
    pub(crate) fn new() -> (r: Facts)
        ensures
            r.are_of(Seq::empty()),
    {
        let r = Facts { imports: Vec::new(), notes: Vec::new() };
        assert(import_models(r.imports@) =~= imports_of(Seq::empty()));
        assert(note_views(r.notes@) =~= all_notes(Seq::empty()));
        r
    }

    /// Adds the facts of one more file.
    pub(crate) fn push(&mut self, file: &DynamicMessage, Ghost(files): Ghost<Seq<Contents>>)
        requires
            old(self).are_of(files),
            contents(*file).typed(),
            contents(*file).schema == Schema::File,
        ensures
            final(self).are_of(files.push(contents(*file))),
            final(self).imports@.len() == files.len() + 1,
            final(self).imports@.drop_last() == old(self).imports@,
            final(self).notes@.len() >= old(self).notes@.len(),
            note_views(final(self).notes@.take(old(self).notes@.len() as int)) == note_views(
                old(self).notes@,
            ),
    {
        let ghost c = contents(*file);
        let ghost more = files.push(c);
        let ghost imports = self.imports@;
        let ghost notes = self.notes@;
        assert(import_models(imports).len() == imports_of(files).len());
        self.imports.push(read_imports(file));
        push_file_notes(file, &mut self.notes);
        proof {
            assert(more.drop_last() =~= files);
            assert forall|i: int| 0 <= i < more.len() implies import_models(self.imports@)[i]
                == imports_of(more)[i] by {
                if i < files.len() {
                    assert(import_models(imports)[i] == imports_of(files)[i]);
                }
            }
            assert(import_models(self.imports@) =~= imports_of(more));
            assert(note_views(self.notes@).len() == note_views(notes).len() + file_notes(c).len());
            assert forall|i: int| 0 <= i < notes.len() implies (#[trigger] self.notes@[i])@
                == notes[i]@ by {
                assert(note_views(self.notes@)[i] == note_views(notes)[i]);
            }
            assert(note_views(self.notes@.take(notes.len() as int)) =~= note_views(notes));
            assert(self.imports@.drop_last() =~= imports);
        }
    }

    /// Takes back the facts of the last file, where there were so many notes before it.
    pub(crate) fn take_back(&mut self, notes: usize, Ghost(files): Ghost<Seq<Contents>>)
        requires
            old(self).imports@.len() > 0,
            import_models(old(self).imports@.drop_last()) == imports_of(files),
            notes <= old(self).notes@.len(),
            note_views(old(self).notes@.take(notes as int)) == all_notes(files),
        ensures
            final(self).are_of(files),
    {
        let ghost before = *self;
        self.imports.pop();
        self.notes.truncate(notes);
        assert(self.imports@ =~= before.imports@.drop_last());
        assert(self.notes@ =~= before.notes@.take(notes as int));
    }

    /// Whether a pool can look at the file at `at`, among the others.
    pub(crate) fn check(
        &self,
        file: &DynamicMessage,
        at: usize,
        Ghost(files): Ghost<Seq<Contents>>,
    ) -> (r: bool)
        requires
            self.are_of(files),
            at < files.len(),
            contents(*file) == files[at as int],
            contents(*file).typed(),
            contents(*file).schema == Schema::File,
        ensures
            r == readable(files, at as int),
    {
        assert(import_models(self.imports@).len() == imports_of(files).len());
        check_syntax(file) && check_file(file, Rule::Defaults) && check_messages(&self.notes, file)
            && check_reach(&self.notes, file) && check_imports(&self.imports, at)
    }
}

/// A pool can look at files, however many there are, exactly if it can look at each of them among the
/// others.
pub proof fn law_files_are_looked_at_one_by_one(files: Seq<Contents>)
    ensures
        all_readable(files) <==> forall|i: int| 0 <= i < files.len() ==> #[trigger] readable(files, i),
{
}

} // verus!
