//! What the options of a file reach: the messages by which they are read, those that the fields and
//! extensions of these are of, and so on.

use crate::adjacency::Node;
use crate::declarations::Optional;
use crate::dynamic::{contents, Contents, Schema};
use crate::notes::{find_last_part, last_part, note_views, Note, NoteModel};
use crate::rules::{check_file, file_keeps, Rule};
use prost_reflect::DynamicMessage;
use vstd::prelude::*;
use vstd::string::*;

verus! {

/// Whether a file has options of a kind.
pub open spec fn uses(file: Contents, of: Optional) -> bool {
    !file_keeps(file, Rule::Without(of))
}

/// Whether names are all that the options of a file reach, or more: with the messages by which they
/// are read, and with whatever is linked to one of them.
pub open spec fn is_sealed(notes: Seq<NoteModel>, file: Contents, names: Set<Seq<char>>) -> bool {
    forall|i: int|
        0 <= i < notes.len() ==> match #[trigger] notes[i] {
            NoteModel::Options(of, name, _) => uses(file, of) ==> names.contains(name),
            NoteModel::Link(from, to) => names.contains(from) ==> names.contains(to),
            _ => true,
        }
}

/// Whether a name is written in full.
pub open spec fn is_absolute(name: Seq<char>) -> bool {
    name.len() > 0 && name[0] == '.'
}

/// Whether two names may be those of one message. If they are not both written in full, they can be
/// if their last parts are the same.
pub open spec fn may_be_one(a: Seq<char>, b: Seq<char>) -> bool {
    if is_absolute(a) && is_absolute(b) {
        a == b
    } else {
        last_part(a) == last_part(b)
    }
}

/// Whether two notes may stand for the same number of a message that is among the names.
pub open spec fn may_clash(a: NoteModel, b: NoteModel, names: Set<Seq<char>>) -> bool {
    match (a, b) {
        (NoteModel::Key(x, m), NoteModel::Key(y, n)) => m == n && may_be_one(x, y)
            && names.contains(last_part(x)),
        _ => false,
    }
}

/// Whether no two notes may stand for the same number of a message that is among the names.
pub open spec fn no_clash(notes: Seq<NoteModel>, names: Set<Seq<char>>) -> bool {
    forall|i: int, j: int|
        0 <= i < j < notes.len() ==> !may_clash(#[trigger] notes[i], #[trigger] notes[j], names)
}

/// Whether options that reach names can be read: no entry of a map among them is without a key or a
/// value, and if the options set extensions, no two extensions of a message among them have the same
/// number, nor has an extension that of a field.
pub open spec fn is_harmless(
    notes: Seq<NoteModel>,
    names: Set<Seq<char>>,
    plain: bool,
) -> bool {
    &&& forall|i: int|
        0 <= i < notes.len() ==> match #[trigger] notes[i] {
            NoteModel::Broken(name) => !names.contains(name),
            _ => true,
        }
    &&& plain || no_clash(notes, names)
}

/// Whether the options of a file reach nothing that does harm.
pub open spec fn reaches_no_harm(notes: Seq<NoteModel>, file: Contents) -> bool {
    exists|names: Set<Seq<char>>| #[trigger]
        is_sealed(notes, file, names) && is_harmless(notes, names, file_keeps(file, Rule::Plain))
}

/// Among more names there is no less harm.
pub proof fn law_less_reach_is_less_harm(
    notes: Seq<NoteModel>,
    names: Set<Seq<char>>,
    more: Set<Seq<char>>,
    plain: bool,
)
    requires
        names.subset_of(more),
        is_harmless(notes, more, plain),
    ensures
        is_harmless(notes, names, plain),
{
    assert forall|i: int| 0 <= i < notes.len() implies match #[trigger] notes[i] {
        NoteModel::Broken(name) => !names.contains(name),
        _ => true,
    } by {
        if let NoteModel::Broken(name) = notes[i] {
            assert(!more.contains(name));
        }
    }
    if !plain {
        assert forall|i: int, j: int| 0 <= i < j < notes.len() implies !may_clash(
            #[trigger] notes[i],
            #[trigger] notes[j],
            names,
        ) by {
            assert(!may_clash(notes[i], notes[j], more));
        }
    }
}

/// The names of a list.
spec fn among(names: Seq<String>) -> Set<Seq<char>> {
    Set::new(|name: Seq<char>| exists|k: int| 0 <= k < names.len() && #[trigger] names[k]@ == name)
}

/// A list with one more name has what it had, and that one.
proof fn lemma_one_more(names: Seq<String>, name: String)
    ensures
        among(names.push(name)) == among(names).insert(name@),
{
    let more = names.push(name);
    assert forall|x: Seq<char>| among(more).contains(x) <==> among(names).insert(name@).contains(
        x,
    ) by {
        if among(names).contains(x) {
            let k = choose|k: int| 0 <= k < names.len() && #[trigger] names[k]@ == x;
            assert(more[k]@ == x);
        }
        if x == name@ {
            assert(more[names.len() as int]@ == x);
        }
        if among(more).contains(x) {
            let k = choose|k: int| 0 <= k < more.len() && #[trigger] more[k]@ == x;
            if k < names.len() {
                assert(names[k]@ == x);
            }
        }
    }
    assert(among(more) =~= among(names).insert(name@));
}

/// Whether a list has a name.
fn has(names: &Vec<String>, name: &String) -> (r: bool)
    ensures
        r == among(names@).contains(name@),
{
    let mut i: usize = 0;
    while i < names.len()
        invariant
            i <= names@.len(),
            forall|k: int| 0 <= k < i ==> #[trigger] names@[k]@ != name@,
        decreases names@.len() - i,
    {
        if names[i].same(name) {
            assert(names@[i as int]@ == name@);
            return true;
        }
        i += 1;
    }
    false
}

/// Whether names are no more than what the options of a file reach.
spec fn is_reached(notes: Seq<NoteModel>, file: Contents, names: Set<Seq<char>>) -> bool {
    forall|all: Set<Seq<char>>| #[trigger] is_sealed(notes, file, all) ==> names.subset_of(all)
}

/// With a name that is in whatever is sealed, what is reached stays so.
proof fn lemma_reached_with_one_more(
    notes: Seq<NoteModel>,
    file: Contents,
    names: Set<Seq<char>>,
    i: int,
)
    requires
        is_reached(notes, file, names),
        0 <= i < notes.len(),
    ensures
        match notes[i] {
            NoteModel::Options(of, name, _) => uses(file, of) ==> is_reached(
                notes,
                file,
                names.insert(name),
            ),
            NoteModel::Link(from, to) => names.contains(from) ==> is_reached(
                notes,
                file,
                names.insert(to),
            ),
            _ => true,
        },
{
    assert forall|all: Set<Seq<char>>| #[trigger] is_sealed(notes, file, all) implies match notes[i] {
        NoteModel::Options(of, name, _) => uses(file, of) ==> names.insert(name).subset_of(all),
        NoteModel::Link(from, to) => names.contains(from) ==> names.insert(to).subset_of(all),
        _ => true,
    } by {
        assert(names.subset_of(all));
    }
}

/// Whether a note is dealt with: the message by which options are read is among the names, and a
/// link is to be followed or has been.
spec fn is_settled(
    notes: Seq<NoteModel>,
    file: Contents,
    names: Set<Seq<char>>,
    todo: Seq<usize>,
    i: int,
) -> bool {
    match notes[i] {
        NoteModel::Options(of, name, _) => uses(file, of) ==> names.contains(name),
        NoteModel::Link(from, to) => names.contains(to) || exists|k: int|
            0 <= k < todo.len() && #[trigger] todo[k] == i,
        _ => true,
    }
}

/// The messages by which the options of a file are read, and the links that there are.
fn start(notes: &Vec<Note>, file: &DynamicMessage) -> (r: (Vec<String>, Vec<usize>))
    requires
        contents(*file).typed(),
        contents(*file).schema == Schema::File,
    ensures
        is_reached(note_views(notes@), contents(*file), among(r.0@)),
        forall|i: int|
            0 <= i < notes@.len() ==> #[trigger] is_settled(
                note_views(notes@),
                contents(*file),
                among(r.0@),
                r.1@,
                i,
            ),
        forall|k: int| 0 <= k < r.1@.len() ==> #[trigger] r.1@[k] < notes@.len(),
{
    let ghost all = note_views(notes@);
    let ghost c = contents(*file);
    let mut names: Vec<String> = Vec::new();
    let mut todo: Vec<usize> = Vec::new();
    let mut n: usize = 0;
    assert(among(names@) =~= Set::empty());
    while n < notes.len()
        invariant
            n <= notes@.len(),
            all == note_views(notes@),
            c == contents(*file),
            c.typed(),
            c.schema == Schema::File,
            is_reached(all, c, among(names@)),
            forall|i: int| 0 <= i < n ==> #[trigger] is_settled(all, c, among(names@), todo@, i),
            forall|k: int| 0 <= k < todo@.len() ==> #[trigger] todo@[k] < notes@.len(),
        decreases notes@.len() - n,
    {
        let ghost names_before = names@;
        let ghost todo_before = todo@;
        assert(all[n as int] == notes@[n as int]@);
        match &notes[n] {
            Note::Options(of, name, _) => {
                if !check_file(file, Rule::Without(*of)) {
                    let name: String = name.duplicate();
                    proof {
                        lemma_reached_with_one_more(all, c, among(names@), n as int);
                        lemma_one_more(names@, name);
                    }
                    names.push(name);
                }
            },
            Note::Link(_, _) => {
                todo.push(n);
                assert(todo@[todo_before.len() as int] == n);
            },
            _ => {},
        }
        assert forall|i: int| 0 <= i < n + 1 implies #[trigger] is_settled(
            all,
            c,
            among(names@),
            todo@,
            i,
        ) by {
            if i < n {
                assert(is_settled(all, c, among(names_before), todo_before, i));
                if let NoteModel::Link(_, to) = all[i] {
                    if !among(names_before).contains(to) {
                        let k = choose|k: int|
                            0 <= k < todo_before.len() && #[trigger] todo_before[k] == i;
                        assert(todo@[k] == i);
                    }
                }
            }
        }
        n += 1;
    }
    (names, todo)
}

/// All that the options of a file reach.
fn reach(notes: &Vec<Note>, file: &DynamicMessage) -> (r: Vec<String>)
    requires
        contents(*file).typed(),
        contents(*file).schema == Schema::File,
    ensures
        is_sealed(note_views(notes@), contents(*file), among(r@)),
        is_reached(note_views(notes@), contents(*file), among(r@)),
{
    let ghost all = note_views(notes@);
    let ghost c = contents(*file);
    let (names, todo) = start(notes, file);
    let mut names: Vec<String> = names;
    let mut todo: Vec<usize> = todo;
    loop
        invariant_except_break
            all == note_views(notes@),
            is_reached(all, c, among(names@)),
            forall|i: int|
                0 <= i < notes@.len() ==> #[trigger] is_settled(all, c, among(names@), todo@, i),
            forall|k: int| 0 <= k < todo@.len() ==> #[trigger] todo@[k] < notes@.len(),
        ensures
            is_sealed(all, c, among(names@)),
            is_reached(all, c, among(names@)),
        decreases todo@.len(),
    {
        let mut rest: Vec<usize> = Vec::new();
        let mut k: usize = 0;
        assert(rest@ + todo@.skip(0) =~= todo@);
        while k < todo.len()
            invariant
                k <= todo@.len(),
                all == note_views(notes@),
                is_reached(all, c, among(names@)),
                forall|i: int|
                    0 <= i < notes@.len() ==> #[trigger] is_settled(
                        all,
                        c,
                        among(names@),
                        rest@ + todo@.skip(k as int),
                        i,
                    ),
                forall|j: int| 0 <= j < todo@.len() ==> #[trigger] todo@[j] < notes@.len(),
                forall|j: int| 0 <= j < rest@.len() ==> #[trigger] rest@[j] < notes@.len(),
                rest@.len() <= k,
                rest@.len() == k ==> forall|j: int|
                    0 <= j < k ==> match all[#[trigger] rest@[j] as int] {
                        NoteModel::Link(from, _) => !among(names@).contains(from),
                        _ => true,
                    },
            decreases todo@.len() - k,
        {
            let at: usize = todo[k];
            let ghost left = rest@ + todo@.skip(k as int);
            let ghost names_before = names@;
            let ghost rest_before = rest@;
            assert(all[at as int] == notes@[at as int]@);
            let mut followed: bool = false;
            if let Note::Link(from, to) = &notes[at] {
                if has(&names, from) {
                    let to: String = to.duplicate();
                    proof {
                        lemma_reached_with_one_more(all, c, among(names@), at as int);
                        lemma_one_more(names@, to);
                    }
                    names.push(to);
                    followed = true;
                }
            }
            if !followed {
                rest.push(at);
            }
            proof {
                let now = rest@ + todo@.skip(k + 1);
                assert forall|i: int| 0 <= i < notes@.len() implies #[trigger] is_settled(
                    all,
                    c,
                    among(names@),
                    now,
                    i,
                ) by {
                    assert(is_settled(all, c, among(names_before), left, i));
                    if let NoteModel::Link(_, to) = all[i] {
                        if !among(names@).contains(to) {
                            assert(!among(names_before).contains(to));
                            let m = choose|m: int| 0 <= m < left.len() && #[trigger] left[m] == i;
                            if m < rest_before.len() {
                                assert(now[m] == i);
                            } else if m > rest_before.len() {
                                assert(left[m] == todo@[m - rest_before.len() + k]);
                                let p = m - rest_before.len() - 1 + rest@.len();
                                assert(now[p] == i);
                            } else {
                                assert(left[m] == at);
                                assert(now[rest_before.len() as int] == at);
                            }
                        }
                    }
                }
            }
            k += 1;
        }
        assert(rest@ + todo@.skip(k as int) =~= rest@);
        if rest.len() == todo.len() {
            proof {
                assert forall|i: int| 0 <= i < all.len() implies match #[trigger] all[i] {
                    NoteModel::Options(of, name, _) => uses(c, of) ==> among(names@).contains(name),
                    NoteModel::Link(from, to) => among(names@).contains(from) ==> among(
                        names@,
                    ).contains(to),
                    _ => true,
                } by {
                    assert(is_settled(all, c, among(names@), rest@, i));
                }
            }
            break;
        }
        todo = rest;
    }
    names
}

/// Whether a name is written in full.
fn check_absolute(name: &String) -> (r: bool)
    ensures
        r == is_absolute(name@),
{
    name.as_str().unicode_len() > 0 && name.as_str().get_char(0) == '.'
}

/// Whether two names may be those of one message.
fn check_one(a: &String, b: &String) -> (r: bool)
    ensures
        r == may_be_one(a@, b@),
{
    if check_absolute(a) && check_absolute(b) {
        a.same(b)
    } else {
        find_last_part(a).same(&find_last_part(b))
    }
}

/// The names of a list, or all names where there is none.
spec fn bounds(names: Option<&Vec<String>>) -> Set<Seq<char>> {
    match names {
        Some(names) => among(names@),
        None => Set::full(),
    }
}

/// Whether a name is on a list, where there is one.
fn is_within(names: Option<&Vec<String>>, name: &String) -> (r: bool)
    ensures
        r == bounds(names).contains(name@),
{
    match names {
        Some(names) => has(names, name),
        None => true,
    }
}

/// Whether no two notes may stand for the same number of a message that is among the names.
fn check_no_clash(notes: &Vec<Note>, names: Option<&Vec<String>>) -> (r: bool)
    ensures
        r == no_clash(note_views(notes@), bounds(names)),
{
    let ghost all = note_views(notes@);
    let mut i: usize = 0;
    while i < notes.len()
        invariant
            i <= notes@.len(),
            all == note_views(notes@),
            forall|a: int, b: int|
                0 <= a < b < notes@.len() && a < i ==> !may_clash(
                    #[trigger] all[a],
                    #[trigger] all[b],
                    bounds(names),
                ),
        decreases notes@.len() - i,
    {
        assert(all[i as int] == notes@[i as int]@);
        if let Note::Key(x, m) = &notes[i] {
            if is_within(names, &find_last_part(x)) {
                let mut j: usize = i + 1;
                while j < notes.len()
                    invariant
                        i < j <= notes@.len(),
                        all == note_views(notes@),
                        all[i as int] == NoteModel::Key(x@, *m),
                        bounds(names).contains(last_part(x@)),
                        forall|b: int|
                            i < b < j ==> !may_clash(all[i as int], #[trigger] all[b], bounds(names)),
                    decreases notes@.len() - j,
                {
                    assert(all[j as int] == notes@[j as int]@);
                    if let Note::Key(y, n) = &notes[j] {
                        if *m == *n && check_one(x, y) {
                            assert(may_clash(all[i as int], all[j as int], bounds(names)));
                            return false;
                        }
                    }
                    j += 1;
                }
            }
        }
        i += 1;
    }
    true
}

/// Whether options that reach names can be read.
fn check_harmless(notes: &Vec<Note>, names: Option<&Vec<String>>, plain: bool) -> (r: bool)
    ensures
        r == is_harmless(note_views(notes@), bounds(names), plain),
{
    let ghost all = note_views(notes@);
    let mut i: usize = 0;
    while i < notes.len()
        invariant
            i <= notes@.len(),
            all == note_views(notes@),
            forall|j: int|
                0 <= j < i ==> match #[trigger] all[j] {
                    NoteModel::Broken(name) => !bounds(names).contains(name),
                    _ => true,
                },
        decreases notes@.len() - i,
    {
        assert(all[i as int] == notes@[i as int]@);
        if let Note::Broken(name) = &notes[i] {
            if is_within(names, name) {
                return false;
            }
        }
        i += 1;
    }
    plain || check_no_clash(notes, names)
}

/// Whether the options of a file reach nothing that does harm. Where there is none at all, what they
/// reach is not looked at.
pub(crate) fn check_reach(notes: &Vec<Note>, file: &DynamicMessage) -> (r: bool)
    requires
        contents(*file).typed(),
        contents(*file).schema == Schema::File,
    ensures
        r == reaches_no_harm(note_views(notes@), contents(*file)),
{
    let ghost all = note_views(notes@);
    let ghost c = contents(*file);
    let plain: bool = check_file(file, Rule::Plain);
    if check_harmless(notes, None, plain) {
        assert(is_sealed(all, c, Set::full()));
        return true;
    }
    let names: Vec<String> = reach(notes, file);
    let r: bool = check_harmless(notes, Some(&names), plain);
    proof {
        if reaches_no_harm(all, c) {
            let more = choose|more: Set<Seq<char>>| #[trigger]
                is_sealed(all, c, more) && is_harmless(all, more, plain);
            law_less_reach_is_less_harm(all, among(names@), more, plain);
        }
    }
    r
}

} // verus!
