//! How `protoc` is called for a list of paths.

use crate::adjacency::{position, Node};
use crate::tool::{is_plain, plain, PathText};
use crate::topology::views;
use vstd::prelude::*;

verus! {

/// One component of a path.
#[derive(Debug)]
pub enum Part {
    /// Where the path starts: a root, or the prefix before one.
    Anchor,
    /// A step from one directory to another, with its name if it has one that can be read.
    Step(Option<String>),
}

/// Whether a component is the directory `proto`.
pub open spec fn is_proto(part: Part) -> bool {
    match part {
        Part::Step(Some(name)) => name@ == "proto"@,
        _ => false,
    }
}

/// The length of the path to the innermost directory `proto` on a path, if there is one.
pub open spec fn proto_dir(parts: Seq<Part>) -> Option<int>
    decreases parts.len(),
{
    if parts.len() == 0 || parts.last() is Anchor {
        None
    } else if is_proto(parts.last()) {
        Some(parts.len() as int)
    } else {
        proto_dir(parts.drop_last())
    }
}

/// The directory `proto` that is found is on the path, and no step behind it is another.
pub proof fn law_proto_dir_is_the_innermost(parts: Seq<Part>)
    ensures
        match proto_dir(parts) {
            Some(n) => 0 < n <= parts.len() && is_proto(parts[n - 1]) && forall|i: int|
                n <= i < parts.len() ==> !is_proto(parts[i]),
            None => forall|i: int|
                0 <= i < parts.len() && (forall|j: int|
                    i <= j < parts.len() ==> !(parts[j] is Anchor)) ==> !is_proto(#[trigger] parts[i]),
        },
    decreases parts.len(),
{
    if parts.len() > 0 && !(parts.last() is Anchor) && !is_proto(parts.last()) {
        let head = parts.drop_last();
        law_proto_dir_is_the_innermost(head);
        assert forall|i: int| 0 <= i < head.len() implies head[i] == parts[i] by {}
        if proto_dir(parts) is None {
            assert forall|i: int|
                0 <= i < parts.len() && (forall|j: int|
                    i <= j < parts.len() ==> !(parts[j] is Anchor)) implies !is_proto(
                #[trigger] parts[i],
            ) by {
                if i < head.len() {
                    assert(!is_proto(head[i]));
                }
            }
        }
    }
}

/// Finds the innermost directory `proto` on a path: the number of components that lead to it.
pub fn find_parent_proto_dir(parts: &Vec<Part>) -> (r: Option<usize>)
    ensures
        match r {
            Some(n) => proto_dir(parts@) == Some(n as int),
            None => proto_dir(parts@) is None,
        },
{
    let proto: String = "proto".to_owned();
    let mut n: usize = parts.len();
    assert(parts@.take(n as int) =~= parts@);
    while n > 0
        invariant
            n <= parts@.len(),
            proto@ == "proto"@,
            proto_dir(parts@) == proto_dir(parts@.take(n as int)),
        decreases n,
    {
        let ghost head = parts@.take(n as int);
        assert(head.last() == parts@[n - 1]);
        assert(head.drop_last() =~= parts@.take(n - 1));
        match &parts[n - 1] {
            Part::Anchor => return None,
            Part::Step(Some(name)) => if *name == proto {
                return Some(n);
            },
            Part::Step(None) => {},
        }
        n -= 1;
    }
    None
}

/// The directory that a file is in, as far as it is needed.
#[derive(Debug)]
pub struct ParentDir {
    pub path: String,
    /// The directory that it is in.
    pub parent: Option<String>,
    /// The innermost directory `proto` that leads to it, or is it.
    pub proto_dir: Option<String>,
}

/// What was found at one of the paths.
#[derive(Debug)]
pub enum Source {
    Missing,
    Directory(String),
    File { path: String, parent: Option<ParentDir> },
}

/// A list with a text at its end, unless it holds the text already.
pub open spec fn including(list: Seq<Seq<char>>, text: Seq<char>) -> Seq<Seq<char>> {
    if list.contains(text) {
        list
    } else {
        list.push(text)
    }
}

/// A list of directories with those at its end that a source is looked for in: the directory
/// itself, or of a file the innermost directory `proto`, and where there is none the directory that
/// it is in and the one above.
pub open spec fn including_dirs(list: Seq<Seq<char>>, source: Source) -> Seq<Seq<char>> {
    match source {
        Source::Missing => list,
        Source::Directory(path) => including(list, path@),
        Source::File { path: _, parent } => match parent {
            None => list,
            Some(parent) => match parent.proto_dir {
                Some(dir) => including(list, dir@),
                None => match parent.parent {
                    Some(above) => including(including(list, parent.path@), above@),
                    None => including(list, parent.path@),
                },
            },
        },
    }
}

/// A list of files with a source at its end, if it is one.
pub open spec fn including_protos(list: Seq<Seq<char>>, source: Source) -> Seq<Seq<char>> {
    match source {
        Source::File { path, parent: _ } => including(list, path@),
        _ => list,
    }
}

/// The directories that the sources are looked for in, each once.
pub open spec fn include_dirs(sources: Seq<Source>) -> Seq<Seq<char>>
    decreases sources.len(),
{
    if sources.len() == 0 {
        Seq::empty()
    } else {
        including_dirs(include_dirs(sources.drop_last()), sources.last())
    }
}

/// The files among the sources, each once.
pub open spec fn include_protos(sources: Seq<Source>) -> Seq<Seq<char>>
    decreases sources.len(),
{
    if sources.len() == 0 {
        Seq::empty()
    } else {
        including_protos(include_protos(sources.drop_last()), sources.last())
    }
}

/// The arguments that have directories searched for imports.
pub open spec fn import_args(dirs: Seq<Seq<char>>) -> Seq<Seq<char>>
    decreases dirs.len(),
{
    if dirs.len() == 0 {
        Seq::empty()
    } else {
        import_args(dirs.drop_last()).push("-I"@).push(dirs.last())
    }
}

/// The arguments of `protoc` that have it write the descriptors of the sources, and of all that
/// they import, to a file.
pub open spec fn protoc_args(
    import_dir: Seq<char>,
    output: Seq<char>,
    sources: Seq<Source>,
) -> Seq<Seq<char>> {
    seq![
        "--include_imports"@,
        "--include_source_info"@,
        "-I"@,
        import_dir,
        "-o"@,
        output,
    ] + import_args(include_dirs(sources)) + include_protos(sources)
}

/// Puts a text at the end of a list, unless the list holds it already.
fn insert(list: &mut Vec<String>, text: &String)
    ensures
        views(final(list)@) == including(views(old(list)@), text@),
{
    let ghost before = views(list@);
    match position(list, text) {
        Some(i) => {
            assert(before[i as int] == text@);
        },
        None => {
            assert(!before.contains(text@)) by {
                if before.contains(text@) {
                    let k = choose|k: int| 0 <= k < before.len() && before[k] == text@;
                    assert(list@[k]@ == text@);
                }
            }
            list.push(text.duplicate());
            assert(views(list@) =~= before.push(text@));
        },
    }
}

/// The arguments of `protoc` that have it write the descriptors of the sources, and of all that
/// they import, to a file.
pub fn args_for(import_dir: String, output: String, sources: &Vec<Source>) -> (r: Vec<String>)
    ensures
        views(r@) == protoc_args(import_dir@, output@, sources@),
        r@.len() >= 6,
        r@[0]@ == "--include_imports"@,
        r@[1]@ == "--include_source_info"@,
        r@[2]@ == "-I"@,
        r@[3]@ == import_dir@,
        r@[4]@ == "-o"@,
        r@[5]@ == output@,
{
    let mut dirs: Vec<String> = Vec::new();
    let mut protos: Vec<String> = Vec::new();
    let mut i: usize = 0;
    assert(views(dirs@) =~= Seq::<Seq<char>>::empty());
    assert(views(protos@) =~= Seq::<Seq<char>>::empty());
    while i < sources.len()
        invariant
            i <= sources@.len(),
            views(dirs@) == include_dirs(sources@.take(i as int)),
            views(protos@) == include_protos(sources@.take(i as int)),
        decreases sources@.len() - i,
    {
        assert(sources@.take(i + 1).drop_last() =~= sources@.take(i as int));
        assert(sources@.take(i + 1).last() == sources@[i as int]);
        match &sources[i] {
            Source::Missing => {},
            Source::Directory(path) => insert(&mut dirs, path),
            Source::File { path, parent } => {
                if let Some(parent) = parent {
                    match &parent.proto_dir {
                        Some(dir) => insert(&mut dirs, dir),
                        None => {
                            insert(&mut dirs, &parent.path);
                            if let Some(above) = &parent.parent {
                                insert(&mut dirs, above);
                            }
                        },
                    }
                }
                insert(&mut protos, path);
            },
        }
        i += 1;
    }
    assert(sources@.take(i as int) =~= sources@);
    let mut args: Vec<String> = Vec::new();
    args.push("--include_imports".to_owned());
    args.push("--include_source_info".to_owned());
    args.push("-I".to_owned());
    args.push(import_dir);
    args.push("-o".to_owned());
    args.push(output);
    let ghost first = seq![
        "--include_imports"@,
        "--include_source_info"@,
        "-I"@,
        import_dir@,
        "-o"@,
        output@,
    ];
    let ghost all_dirs = views(dirs@);
    assert(views(args@) =~= first + import_args(all_dirs.take(0)));
    let mut k: usize = 0;
    while k < dirs.len()
        invariant
            k <= dirs@.len(),
            all_dirs == views(dirs@),
            views(args@) == first + import_args(all_dirs.take(k as int)),
        decreases dirs@.len() - k,
    {
        let ghost before = views(args@);
        assert(all_dirs.take(k + 1).drop_last() =~= all_dirs.take(k as int));
        assert(all_dirs.take(k + 1).last() == dirs@[k as int]@);
        args.push("-I".to_owned());
        args.push(dirs[k].duplicate());
        assert(views(args@) =~= before.push("-I"@).push(dirs@[k as int]@));
        assert(views(args@) =~= first + import_args(all_dirs.take(k + 1)));
        k += 1;
    }
    assert(all_dirs.take(k as int) =~= all_dirs);
    let ghost options = views(args@);
    let ghost all_protos = views(protos@);
    assert(views(args@) =~= options + all_protos.take(0));
    let mut m: usize = 0;
    while m < protos.len()
        invariant
            m <= protos@.len(),
            all_protos == views(protos@),
            views(args@) == options + all_protos.take(m as int),
        decreases protos@.len() - m,
    {
        let ghost before = views(args@);
        args.push(protos[m].duplicate());
        assert(views(args@) =~= before.push(protos@[m as int]@));
        assert(all_protos.take(m + 1) =~= all_protos.take(m as int).push(protos@[m as int]@));
        assert(views(args@) =~= options + all_protos.take(m + 1));
        m += 1;
    }
    assert(all_protos.take(m as int) =~= all_protos);
    proof {
        law_arguments_stand_at_their_places(import_dir@, output@, sources@);
        let all = views(args@);
        assert(all[0] == args@[0]@ && all[1] == args@[1]@ && all[2] == args@[2]@);
        assert(all[3] == args@[3]@ && all[4] == args@[4]@ && all[5] == args@[5]@);
    }
    args
}

/// The arguments of `protoc` for an import directory and an output file whose paths may be
/// verbatim ones.
pub fn command_args(import_dir: &PathText, output: &PathText, sources: &Vec<Source>) -> (r: Vec<
    String,
>)
    ensures
        exists|dir: Seq<char>, file: Seq<char>|
            is_plain(*import_dir, dir) && is_plain(*output, file) && views(r@)
                == #[trigger] protoc_args(dir, file, sources@),
        r@.len() >= 6,
        r@[0]@ == "--include_imports"@,
        r@[1]@ == "--include_source_info"@,
        r@[2]@ == "-I"@,
        is_plain(*import_dir, r@[3]@),
        r@[4]@ == "-o"@,
        is_plain(*output, r@[5]@),
        views(r@) == protoc_args(r@[3]@, r@[5]@, sources@),
{
    let dir: String = plain(import_dir);
    let file: String = plain(output);
    args_for(dir, file, sources)
}

/// No directory is searched twice.
pub proof fn law_directories_are_searched_once(sources: Seq<Source>)
    ensures
        include_dirs(sources).no_duplicates(),
        include_protos(sources).no_duplicates(),
    decreases sources.len(),
{
    if sources.len() > 0 {
        law_directories_are_searched_once(sources.drop_last());
    }
}

/// Whether a source is looked for in a directory.
pub open spec fn is_searched_for(source: Source, dir: Seq<char>) -> bool {
    match source {
        Source::Missing => false,
        Source::Directory(path) => path@ == dir,
        Source::File { path: _, parent } => match parent {
            None => false,
            Some(parent) => match parent.proto_dir {
                Some(proto) => proto@ == dir,
                None => parent.path@ == dir || parent.parent is Some && parent.parent->0@ == dir,
            },
        },
    }
}

/// Every directory that a source is looked for in is searched, and no other.
pub proof fn law_every_directory_is_searched(sources: Seq<Source>, dir: Seq<char>)
    ensures
        include_dirs(sources).contains(dir) <==> exists|i: int|
            0 <= i < sources.len() && is_searched_for(#[trigger] sources[i], dir),
    decreases sources.len(),
{
    if sources.len() > 0 {
        let head = sources.drop_last();
        let list = include_dirs(head);
        law_every_directory_is_searched(head, dir);
        assert(include_dirs(sources).contains(dir) <==> list.contains(dir) || is_searched_for(
            sources.last(),
            dir,
        )) by {
            match sources.last() {
                Source::Missing => {},
                Source::Directory(path) => lemma_including(list, path@),
                Source::File { path: _, parent } => if let Some(parent) = parent {
                    match parent.proto_dir {
                        Some(proto) => lemma_including(list, proto@),
                        None => {
                            lemma_including(list, parent.path@);
                            if let Some(above) = parent.parent {
                                lemma_including(including(list, parent.path@), above@);
                            }
                        },
                    }
                },
            }
        }
        if include_dirs(sources).contains(dir) {
            if list.contains(dir) {
                let i = choose|i: int|
                    0 <= i < head.len() && is_searched_for(#[trigger] head[i], dir);
                assert(is_searched_for(sources[i], dir));
            } else {
                assert(is_searched_for(sources[sources.len() - 1], dir));
            }
        }
        if exists|i: int| 0 <= i < sources.len() && is_searched_for(#[trigger] sources[i], dir) {
            let i = choose|i: int|
                0 <= i < sources.len() && is_searched_for(#[trigger] sources[i], dir);
            if i < head.len() {
                assert(is_searched_for(head[i], dir));
            }
        }
    }
}

/// Every file among the sources is compiled, and nothing else.
pub proof fn law_every_file_is_compiled(sources: Seq<Source>, path: Seq<char>)
    ensures
        include_protos(sources).contains(path) <==> exists|i: int|
            0 <= i < sources.len() && is_file_at(#[trigger] sources[i], path),
    decreases sources.len(),
{
    if sources.len() > 0 {
        let head = sources.drop_last();
        let list = include_protos(head);
        law_every_file_is_compiled(head, path);
        lemma_including(list, path);
        if let Source::File { path: last, parent: _ } = sources.last() {
            lemma_including(list, last@);
        }
        if include_protos(sources).contains(path) {
            if list.contains(path) {
                let i = choose|i: int| 0 <= i < head.len() && is_file_at(#[trigger] head[i], path);
                assert(is_file_at(sources[i], path));
            } else {
                assert(is_file_at(sources[sources.len() - 1], path));
            }
        }
        if exists|i: int| 0 <= i < sources.len() && is_file_at(#[trigger] sources[i], path) {
            let i = choose|i: int|
                0 <= i < sources.len() && is_file_at(#[trigger] sources[i], path);
            if i < head.len() {
                assert(is_file_at(head[i], path));
            }
        }
    }
}

/// Whether a source is the file at a path.
pub open spec fn is_file_at(source: Source, path: Seq<char>) -> bool {
    match source {
        Source::File { path: at, parent: _ } => at@ == path,
        _ => false,
    }
}

proof fn lemma_including(list: Seq<Seq<char>>, text: Seq<char>)
    ensures
        forall|x: Seq<char>| #[trigger]
            including(list, text).contains(x) <==> list.contains(x) || x == text,
{
    let more = list.push(text);
    assert(more[list.len() as int] == text);
    assert forall|x: Seq<char>| list.contains(x) implies more.contains(x) by {
        let k = choose|k: int| 0 <= k < list.len() && list[k] == x;
        assert(more[k] == x);
    }
}

/// The arguments, whatever the sources are: first come those that have `protoc` write what is
/// imported and where it stands in the sources, those for the directory of the imports, and those
/// for the output. Behind them stands each directory that is searched, behind an `-I`, and then
/// each file that is compiled.
pub proof fn law_arguments_stand_at_their_places(
    import_dir: Seq<char>,
    output: Seq<char>,
    sources: Seq<Source>,
)
    ensures
        ({
            let args = protoc_args(import_dir, output, sources);
            let dirs = include_dirs(sources);
            let protos = include_protos(sources);
            &&& args.len() == 6 + 2 * dirs.len() + protos.len()
            &&& args[0] == "--include_imports"@
            &&& args[1] == "--include_source_info"@
            &&& args[2] == "-I"@
            &&& args[3] == import_dir
            &&& args[4] == "-o"@
            &&& args[5] == output
            &&& forall|k: int|
                0 <= k < dirs.len() ==> #[trigger] has_searched(args, 6 + 2 * k, dirs[k])
            &&& forall|k: int|
                0 <= k < protos.len() ==> args[6 + 2 * dirs.len() + k] == #[trigger] protos[k]
        }),
{
    let args = protoc_args(import_dir, output, sources);
    let dirs = include_dirs(sources);
    let protos = include_protos(sources);
    let middle = import_args(dirs);
    lemma_import_args(dirs);
    assert forall|k: int| 0 <= k < dirs.len() implies #[trigger] has_searched(
        args,
        6 + 2 * k,
        dirs[k],
    ) by {
        assert(has_searched(middle, 2 * k, dirs[k]));
        assert(args[6 + 2 * k] == middle[2 * k]);
        assert(args[7 + 2 * k] == middle[2 * k + 1]);
    }
    assert forall|k: int| 0 <= k < protos.len() implies args[6 + 2 * dirs.len() + k]
        == #[trigger] protos[k] by {}
}

/// Whether the arguments at a place and behind it have a directory searched for imports.
pub open spec fn has_searched(args: Seq<Seq<char>>, at: int, dir: Seq<char>) -> bool {
    0 <= at < args.len() - 1 && args[at] == "-I"@ && args[at + 1] == dir
}

/// Each directory is behind an `-I`.
proof fn lemma_import_args(dirs: Seq<Seq<char>>)
    ensures
        import_args(dirs).len() == 2 * dirs.len(),
        forall|k: int|
            0 <= k < dirs.len() ==> #[trigger] has_searched(import_args(dirs), 2 * k, dirs[k]),
    decreases dirs.len(),
{
    if dirs.len() > 0 {
        let head = dirs.drop_last();
        lemma_import_args(head);
        assert forall|k: int| 0 <= k < dirs.len() implies #[trigger] has_searched(
            import_args(dirs),
            2 * k,
            dirs[k],
        ) by {
            if k < head.len() {
                assert(has_searched(import_args(head), 2 * k, head[k]));
            }
        }
    }
}

/// Each directory among the sources is searched for imports, whatever the other sources are: it is
/// an argument behind an `-I`.
pub proof fn law_a_directory_is_an_argument(
    import_dir: Seq<char>,
    output: Seq<char>,
    sources: Seq<Source>,
    i: int,
    dir: Seq<char>,
)
    requires
        0 <= i < sources.len(),
        match sources[i] {
            Source::Missing => false,
            Source::Directory(path) => path@ == dir,
            Source::File { path: _, parent } => match parent {
                Some(parent) => match parent.proto_dir {
                    Some(proto) => proto@ == dir,
                    None => parent.path@ == dir || parent.parent is Some && parent.parent->0@ == dir,
                },
                None => false,
            },
        },
    ensures
        exists|k: int|
            6 <= k && #[trigger] has_searched(protoc_args(import_dir, output, sources), k, dir),
{
    law_arguments_stand_at_their_places(import_dir, output, sources);
    law_every_directory_is_searched(sources, dir);
    assert(is_searched_for(sources[i], dir));
    let dirs = include_dirs(sources);
    let k = choose|k: int| 0 <= k < dirs.len() && dirs[k] == dir;
    assert(has_searched(protoc_args(import_dir, output, sources), 6 + 2 * k, dirs[k]));
}

/// Each file among the sources is compiled, whatever the other sources are: it is an argument behind
/// all of those that are options.
pub proof fn law_a_file_is_an_argument(
    import_dir: Seq<char>,
    output: Seq<char>,
    sources: Seq<Source>,
    i: int,
    path: Seq<char>,
)
    requires
        0 <= i < sources.len(),
        sources[i] is File,
        sources[i]->path@ == path,
    ensures
        exists|k: int|
            6 + 2 * include_dirs(sources).len() <= k < protoc_args(
                import_dir,
                output,
                sources,
            ).len() && #[trigger] protoc_args(import_dir, output, sources)[k] == path,
{
    law_arguments_stand_at_their_places(import_dir, output, sources);
    law_every_file_is_compiled(sources, path);
    assert(is_file_at(sources[i], path));
    let protos = include_protos(sources);
    let k = choose|k: int| 0 <= k < protos.len() && protos[k] == path;
    assert(protos[k] == path);
    assert(protoc_args(import_dir, output, sources)[6 + 2 * include_dirs(sources).len() + k]
        == path);
}

/// Sources that are not there have no arguments: they can be left out.
pub proof fn law_missing_sources_have_no_arguments(
    import_dir: Seq<char>,
    output: Seq<char>,
    sources: Seq<Source>,
)
    requires
        forall|i: int| 0 <= i < sources.len() ==> (#[trigger] sources[i]) is Missing,
    ensures
        protoc_args(import_dir, output, sources).len() == 6,
{
    law_arguments_stand_at_their_places(import_dir, output, sources);
    if include_dirs(sources).len() > 0 {
        let dir = include_dirs(sources)[0];
        law_every_directory_is_searched(sources, dir);
        assert(include_dirs(sources).contains(dir));
    }
    if include_protos(sources).len() > 0 {
        let path = include_protos(sources)[0];
        law_every_file_is_compiled(sources, path);
        assert(include_protos(sources).contains(path));
    }
}

/// Whether a component of a path is a step to a directory of the name `proto`.
pub open spec fn steps_to_proto(part: Part) -> bool {
    part matches Part::Step(Some(name)) && name@ == "proto"@
}

/// The length that is found is that of the path to the last directory `proto` on the path behind all
/// anchors, and there is one exactly if there is such a directory.
pub proof fn law_the_last_proto_dir_is_found(parts: Seq<Part>, n: int)
    ensures
        proto_dir(parts) == Some(n) <==> {
            &&& 0 < n <= parts.len()
            &&& steps_to_proto(parts[n - 1])
            &&& forall|i: int|
                n <= i < parts.len() ==> !((#[trigger] parts[i]) is Anchor) && !steps_to_proto(
                    parts[i],
                )
        },
    decreases parts.len(),
{
    if parts.len() > 0 {
        let head = parts.drop_last();
        law_the_last_proto_dir_is_found(head, n);
        let end = parts.len() - 1;
        assert(parts[end] == parts.last());
        assert forall|i: int| 0 <= i < head.len() implies head[i] == parts[i] by {}
        if proto_dir(parts) == Some(n) && n < parts.len() {
            assert forall|i: int| n <= i < parts.len() implies !((#[trigger] parts[i]) is Anchor)
                && !steps_to_proto(parts[i]) by {
                if i < head.len() {
                    assert(!(head[i] is Anchor) && !steps_to_proto(head[i]));
                }
            }
        }
        if 0 < n < parts.len() && steps_to_proto(parts[n - 1]) && (forall|i: int|
            n <= i < parts.len() ==> !((#[trigger] parts[i]) is Anchor) && !steps_to_proto(
                parts[i],
            )) {
            assert(!(parts[end] is Anchor) && !steps_to_proto(parts[end]));
            assert forall|i: int| n <= i < head.len() implies !((#[trigger] head[i]) is Anchor)
                && !steps_to_proto(head[i]) by {
                assert(!(parts[i] is Anchor) && !steps_to_proto(parts[i]));
            }
        }
    }
}

/// No directory is searched but those of the sources: a directory itself, or of a file the innermost
/// directory `proto`, and only where there is none the directory that it is in and the one above. No
/// file is compiled but those among the sources.
pub proof fn law_nothing_else_is_an_argument(sources: Seq<Source>, k: int)
    ensures
        0 <= k < include_dirs(sources).len() ==> exists|i: int|
            0 <= i < sources.len() && match #[trigger] sources[i] {
                Source::Missing => false,
                Source::Directory(path) => path@ == include_dirs(sources)[k],
                Source::File { path: _, parent } => match parent {
                    Some(parent) => match parent.proto_dir {
                        Some(proto) => proto@ == include_dirs(sources)[k],
                        None => parent.path@ == include_dirs(sources)[k] || parent.parent is Some
                            && parent.parent->0@ == include_dirs(sources)[k],
                    },
                    None => false,
                },
            },
        0 <= k < include_protos(sources).len() ==> exists|i: int|
            0 <= i < sources.len() && (#[trigger] sources[i]) is File && sources[i]->path@
                == include_protos(sources)[k],
{
    if 0 <= k < include_dirs(sources).len() {
        let dir = include_dirs(sources)[k];
        assert(include_dirs(sources).contains(dir));
        law_every_directory_is_searched(sources, dir);
        let i = choose|i: int| 0 <= i < sources.len() && is_searched_for(#[trigger] sources[i], dir);
        assert(is_searched_for(sources[i], dir));
    }
    if 0 <= k < include_protos(sources).len() {
        let path = include_protos(sources)[k];
        assert(include_protos(sources).contains(path));
        law_every_file_is_compiled(sources, path);
        let i = choose|i: int| 0 <= i < sources.len() && is_file_at(#[trigger] sources[i], path);
        assert(is_file_at(sources[i], path));
    }
}

} // verus!
