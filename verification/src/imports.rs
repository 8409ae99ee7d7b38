//! Imports: which files a file sees through those that it imports.

use crate::adjacency::Node;
use crate::dynamic::{contents, lemma_kinds, lemma_names_differ, Contents, Item, Schema};
use crate::reading::{integers_in, read_integers, read_text, read_texts, text_in, texts_in};
use crate::topology::views;
use prost_reflect::DynamicMessage;
use vstd::prelude::*;

verus! {

/// What a file says of the files that it imports.
#[derive(Debug)]
pub struct Imports {
    pub name: String,
    /// The names of the files that it imports.
    pub dependencies: Vec<String>,
    /// The positions of those among them that it passes on to whoever imports it.
    pub public_dependencies: Vec<i32>,
}

/// The mathematical value of [`Imports`].
#[verifier::ext_equal]
pub struct ImportsModel {
    pub name: Seq<char>,
    pub dependencies: Seq<Seq<char>>,
    pub public_dependencies: Seq<i32>,
}

impl View for Imports {
    type V = ImportsModel;

    open spec fn view(&self) -> ImportsModel {
        ImportsModel {
            name: self.name@,
            dependencies: views(self.dependencies@),
            public_dependencies: self.public_dependencies@,
        }
    }
}

/// The mathematical values of the imports of a sequence of files.
pub open spec fn import_models(imports: Seq<Imports>) -> Seq<ImportsModel> {
    Seq::new(imports.len(), |i: int| imports[i]@)
}

/// The name of a file.
pub open spec fn name_in(c: Contents) -> Seq<char> {
    text_in(c, "name"@)
}

/// What a file says of its imports.
pub open spec fn imports_in(c: Contents) -> ImportsModel {
    ImportsModel {
        name: name_in(c),
        dependencies: texts_in(c, "dependency"@),
        public_dependencies: integers_in(c, "public_dependency"@),
    }
}

/// What files say of their imports.
pub open spec fn imports_of(files: Seq<Contents>) -> Seq<ImportsModel> {
    Seq::new(files.len(), |i: int| imports_in(files[i]))
}

/// The position of the last file of a name.
pub open spec fn position(files: Seq<ImportsModel>, name: Seq<char>) -> Option<int>
    decreases files.len(),
{
    if files.len() == 0 {
        None
    } else if files.last().name == name {
        Some(files.len() - 1)
    } else {
        position(files.drop_last(), name)
    }
}

/// Whether a file passes the import at a position on.
pub open spec fn passes_on(file: ImportsModel, k: int) -> bool {
    exists|j: int|
        0 <= j < file.public_dependencies.len() && #[trigger] file.public_dependencies[j] == k
}

/// The files that are seen once those are that the file at `at` passes on, from its import at `k`
/// on, if that comes to an end.
///
/// An import that is passed on is seen from then on. Where it was seen before, those that it passes
/// on itself are gone through too. That can be nested no deeper than there are files, unless it
/// goes around in a circle; `depth` says how much deeper it may get.
pub open spec fn passed_on(
    files: Seq<ImportsModel>,
    seen: Set<Seq<char>>,
    at: int,
    k: int,
    depth: nat,
) -> Option<Set<Seq<char>>>
    decreases depth, files[at].dependencies.len() - k,
{
    let file = files[at];
    if !(0 <= k < file.dependencies.len()) {
        Some(seen)
    } else {
        let import = file.dependencies[k];
        match position(files, import) {
            Some(next) if passes_on(file, k) => if !seen.contains(import) {
                passed_on(files, seen.insert(import), at, k + 1, depth)
            } else if depth == 0 {
                None
            } else {
                match passed_on(files, seen, next, 0, (depth - 1) as nat) {
                    Some(more) => passed_on(files, more, at, k + 1, depth),
                    None => None,
                }
            },
            _ => passed_on(files, seen, at, k + 1, depth),
        }
    }
}

/// The files that are seen once those are that the file at `at` imports, from its import at `k` on,
/// and those that they pass on, if that comes to an end.
pub open spec fn imported(
    files: Seq<ImportsModel>,
    seen: Set<Seq<char>>,
    at: int,
    k: int,
) -> Option<Set<Seq<char>>>
    decreases files[at].dependencies.len() - k,
{
    let file = files[at];
    if !(0 <= k < file.dependencies.len()) {
        Some(seen)
    } else {
        let import = file.dependencies[k];
        match position(files, import) {
            Some(next) => match passed_on(files, seen.insert(import), next, 0, files.len()) {
                Some(more) => imported(files, more, at, k + 1),
                None => None,
            },
            None => imported(files, seen, at, k + 1),
        }
    }
}

/// Whether the search for the files that the one at `at` sees comes to an end.
pub open spec fn imports_end(files: Seq<ImportsModel>, at: int) -> bool {
    imported(files, set![files[at].name], at, 0) is Some
}

/// The texts of a list, as a set.
pub open spec fn texts(list: Seq<String>) -> Set<Seq<char>> {
    views(list).to_set()
}

/// Reads what a file says of its imports.
pub(crate) fn read_imports(file: &DynamicMessage) -> (r: Imports)
    requires
        contents(*file).typed(),
        contents(*file).schema == Schema::File,
    ensures
        r@ == imports_in(contents(*file)),
{
    proof {
        lemma_names_differ();
        lemma_kinds();
    }
    Imports {
        name: read_text(file, "name"),
        dependencies: read_texts(file, "dependency"),
        public_dependencies: read_integers(file, "public_dependency"),
    }
}

/// Finds the position of the last file of a name.
fn find(files: &Vec<Imports>, name: &String) -> (r: Option<usize>)
    ensures
        match r {
            Some(i) => position(import_models(files@), name@) == Some(i as int),
            None => position(import_models(files@), name@) is None,
        },
        r is Some ==> r->0 < files@.len(),
{
    let ghost models = import_models(files@);
    let mut end: usize = files.len();
    assert(models.take(end as int) =~= models);
    while end > 0
        invariant
            end <= files@.len(),
            models == import_models(files@),
            position(models, name@) == position(models.take(end as int), name@),
        decreases end,
    {
        let ghost head = models.take(end as int);
        assert(head.last() == files@[end - 1]@);
        assert(head.drop_last() =~= models.take(end - 1));
        if files[end - 1].name.same(name) {
            return Some(end - 1);
        }
        end -= 1;
    }
    None
}

/// Whether a file passes the import at a position on.
fn passes(file: &Imports, k: usize) -> (r: bool)
    ensures
        r == passes_on(file@, k as int),
{
    let mut j: usize = 0;
    while j < file.public_dependencies.len()
        invariant
            j <= file.public_dependencies@.len(),
            forall|i: int| 0 <= i < j ==> #[trigger] file.public_dependencies@[i] != k,
        decreases file.public_dependencies@.len() - j,
    {
        let position: i32 = file.public_dependencies[j];
        if position >= 0 && position as usize == k {
            assert(file@.public_dependencies[j as int] == k);
            return true;
        }
        j += 1;
    }
    false
}

/// Whether a list has a text.
fn has_text(list: &Vec<String>, text: &String) -> (r: bool)
    ensures
        r == texts(list@).contains(text@),
{
    let mut i: usize = 0;
    while i < list.len()
        invariant
            i <= list@.len(),
            forall|j: int| 0 <= j < i ==> views(list@)[j] != text@,
        decreases list@.len() - i,
    {
        if list[i].same(text) {
            assert(views(list@)[i as int] == text@);
            return true;
        }
        i += 1;
    }
    false
}

/// Adds a text to a list.
fn push_text(list: &mut Vec<String>, text: &String)
    ensures
        texts(final(list)@) == texts(old(list)@).insert(text@),
{
    let ghost before = views(list@);
    list.push(text.duplicate());
    assert(views(list@) =~= before.push(text@));
    assert(views(list@).to_set() =~= before.to_set().insert(text@)) by {
        broadcast use vstd::seq_lib::group_seq_properties;

    }
}

/// Goes through the imports that a file passes on.
fn pass_on(files: &Vec<Imports>, seen: &mut Vec<String>, at: usize, depth: usize) -> (r: bool)
    requires
        at < files@.len(),
    ensures
        match passed_on(import_models(files@), texts(old(seen)@), at as int, 0, depth as nat) {
            Some(more) => r && texts(final(seen)@) == more,
            None => !r,
        },
    decreases depth,
{
    let ghost models = import_models(files@);
    let ghost all = passed_on(models, texts(seen@), at as int, 0, depth as nat);
    let mut k: usize = 0;
    while k < files[at as usize].dependencies.len()
        invariant
            at < files@.len(),
            models == import_models(files@),
            all == passed_on(models, texts(old(seen)@), at as int, 0, depth as nat),
            k <= files@[at as int].dependencies@.len(),
            all == passed_on(models, texts(seen@), at as int, k as int, depth as nat),
        decreases files@[at as int].dependencies@.len() - k,
    {
        let import: &String = &files[at].dependencies[k];
        assert(models[at as int].dependencies[k as int] == import@);
        if let Some(next) = find(files, import) {
            if passes(&files[at], k) {
                if !has_text(seen, import) {
                    push_text(seen, import);
                } else {
                    if depth == 0 {
                        return false;
                    }
                    if !pass_on(files, seen, next, depth - 1) {
                        return false;
                    }
                }
            }
        }
        k += 1;
    }
    true
}

/// Whether the search for the files that the one at `at` sees comes to an end.
pub(crate) fn check_imports(files: &Vec<Imports>, at: usize) -> (r: bool)
    requires
        at < files@.len(),
    ensures
        r == imports_end(import_models(files@), at as int),
{
    let ghost models = import_models(files@);
    let mut seen: Vec<String> = Vec::new();
    push_text(&mut seen, &files[at].name);
    assert(texts(seen@) =~= set![models[at as int].name]);
    let ghost all = imported(models, texts(seen@), at as int, 0);
    let mut k: usize = 0;
    while k < files[at].dependencies.len()
        invariant
            at < files@.len(),
            models == import_models(files@),
            k <= files@[at as int].dependencies@.len(),
            all == imported(models, texts(seen@), at as int, k as int),
            all == imported(models, set![models[at as int].name], at as int, 0),
        decreases files@[at as int].dependencies@.len() - k,
    {
        let import: &String = &files[at].dependencies[k];
        assert(models[at as int].dependencies[k as int] == import@);
        if let Some(next) = find(files, import) {
            push_text(&mut seen, import);
            if !pass_on(files, &mut seen, next, files.len()) {
                return false;
            }
        }
        k += 1;
    }
    true
}

/// The position that is found is that of a file of the name.
proof fn lemma_position(files: Seq<ImportsModel>, name: Seq<char>)
    ensures
        match position(files, name) {
            Some(i) => 0 <= i < files.len() && files[i].name == name,
            None => true,
        },
    decreases files.len(),
{
    if files.len() > 0 && files.last().name != name {
        lemma_position(files.drop_last(), name);
    }
}

/// Whether what files pass on can be ranked below them, by no more ranks than there are files.
pub open spec fn is_ranked_by(files: Seq<ImportsModel>, rank: spec_fn(Seq<char>) -> nat) -> bool {
    &&& forall|i: int| 0 <= i < files.len() ==> rank((#[trigger] files[i]).name) <= files.len()
    &&& forall|i: int, k: int|
        0 <= i < files.len() && 0 <= k < files[i].dependencies.len() && #[trigger] passes_on(
            files[i],
            k,
        ) ==> rank(files[i].dependencies[k]) < rank(files[i].name)
}

/// What a file passes on comes to an end where it can be ranked.
proof fn lemma_passed_on_ends(
    files: Seq<ImportsModel>,
    seen: Set<Seq<char>>,
    at: int,
    k: int,
    depth: nat,
    rank: spec_fn(Seq<char>) -> nat,
)
    requires
        is_ranked_by(files, rank),
        0 <= at < files.len(),
        0 <= k,
        rank(files[at].name) <= depth,
    ensures
        passed_on(files, seen, at, k, depth) is Some,
    decreases depth, files[at].dependencies.len() - k,
{
    let file = files[at];
    if k < file.dependencies.len() {
        let import = file.dependencies[k];
        lemma_position(files, import);
        match position(files, import) {
            Some(next) if passes_on(file, k) => {
                assert(rank(import) < rank(file.name));
                if !seen.contains(import) {
                    lemma_passed_on_ends(files, seen.insert(import), at, k + 1, depth, rank);
                } else {
                    lemma_passed_on_ends(files, seen, next, 0, (depth - 1) as nat, rank);
                    let more = passed_on(files, seen, next, 0, (depth - 1) as nat)->0;
                    lemma_passed_on_ends(files, more, at, k + 1, depth, rank);
                }
            },
            _ => lemma_passed_on_ends(files, seen, at, k + 1, depth, rank),
        }
    }
}

proof fn lemma_imported_ends(
    files: Seq<ImportsModel>,
    seen: Set<Seq<char>>,
    at: int,
    k: int,
    rank: spec_fn(Seq<char>) -> nat,
)
    requires
        is_ranked_by(files, rank),
        0 <= at < files.len(),
        0 <= k,
    ensures
        imported(files, seen, at, k) is Some,
    decreases files[at].dependencies.len() - k,
{
    let file = files[at];
    if k < file.dependencies.len() {
        let import = file.dependencies[k];
        lemma_position(files, import);
        match position(files, import) {
            Some(next) => {
                lemma_passed_on_ends(files, seen.insert(import), next, 0, files.len(), rank);
                let more = passed_on(files, seen.insert(import), next, 0, files.len())->0;
                lemma_imported_ends(files, more, at, k + 1, rank);
            },
            None => lemma_imported_ends(files, seen, at, k + 1, rank),
        }
    }
}

/// Where no file is passed on by itself, through others or at once, the search for the files that
/// one sees comes to an end for each of them: only imports that are passed on in a circle keep it
/// from that.
pub proof fn law_imports_without_circles_come_to_an_end(
    files: Seq<ImportsModel>,
    at: int,
    rank: spec_fn(Seq<char>) -> nat,
)
    requires
        is_ranked_by(files, rank),
        0 <= at < files.len(),
    ensures
        imports_end(files, at),
{
    lemma_imported_ends(files, set![files[at].name], at, 0, rank);
}

/// A file is found at the last of the positions where one has the name.
pub proof fn law_the_last_file_of_a_name_is_found(files: Seq<ImportsModel>, name: Seq<char>, i: int)
    ensures
        position(files, name) == Some(i) <==> 0 <= i < files.len() && files[i].name == name
            && forall|j: int| i < j < files.len() ==> (#[trigger] files[j]).name != name,
        position(files, name) is None <==> forall|j: int|
            0 <= j < files.len() ==> (#[trigger] files[j]).name != name,
    decreases files.len(),
{
    if files.len() > 0 && files.last().name != name {
        let head = files.drop_last();
        law_the_last_file_of_a_name_is_found(head, name, i);
        assert forall|j: int| 0 <= j < head.len() implies head[j] == files[j] by {}
        if forall|j: int| 0 <= j < files.len() ==> (#[trigger] files[j]).name != name {
            assert forall|j: int| 0 <= j < head.len() implies (#[trigger] head[j]).name != name by {
                assert(files[j].name != name);
            }
        }
        if forall|j: int| 0 <= j < head.len() ==> (#[trigger] head[j]).name != name {
            assert forall|j: int| 0 <= j < files.len() implies (#[trigger] files[j]).name != name by {
                if j < head.len() {
                    assert(head[j].name != name);
                }
            }
        }
        if 0 <= i && forall|j: int| i < j < files.len() ==> (#[trigger] files[j]).name != name {
            assert forall|j: int| i < j < head.len() implies (#[trigger] head[j]).name != name by {
                assert(files[j].name != name);
            }
        }
        if 0 <= i && forall|j: int| i < j < head.len() ==> (#[trigger] head[j]).name != name {
            assert forall|j: int| i < j < files.len() implies (#[trigger] files[j]).name != name by {
                if j < head.len() {
                    assert(head[j].name != name);
                }
            }
        }
    }
}

/// Where no file passes an import on, the search for the files that one sees comes to an end.
pub proof fn law_imports_that_are_not_passed_on_come_to_an_end(files: Seq<Contents>, at: int)
    requires
        0 <= at < files.len(),
        forall|i: int|
            0 <= i < files.len() ==> (#[trigger] files[i]).get("public_dependency"@) == Item::List(
                Seq::empty(),
            ),
    ensures
        imports_end(imports_of(files), at),
{
    let rank = |name: Seq<char>| 0nat;
    let imports = imports_of(files);
    assert forall|i: int, k: int|
        0 <= i < imports.len() && 0 <= k < imports[i].dependencies.len() && #[trigger] passes_on(
            imports[i],
            k,
        ) implies rank(imports[i].dependencies[k]) < rank(imports[i].name) by {
        assert(files[i].get("public_dependency"@) == Item::List(Seq::empty()));
        assert(imports[i].public_dependencies.len() == 0);
    }
    law_imports_without_circles_come_to_an_end(imports, at, rank);
}

} // verus!
