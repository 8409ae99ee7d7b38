//! Where the workspace of `buf` is, and how `buf` is called in it.

use crate::error::Error;
use vstd::prelude::*;

verus! {

/// What a directory holds.
#[derive(Clone, Copy, Debug)]
pub struct Probe {
    /// The file `buf.work.yaml`.
    pub work_file: bool,
    /// The file `buf.yaml`.
    pub module_file: bool,
    /// Something of the name `.git`.
    pub git: bool,
}

/// Whether the search goes no further up than a directory.
pub open spec fn settles(probe: Probe) -> bool {
    probe.work_file || probe.git
}

/// Whether the search goes no further up than a directory: it holds a workspace, or the top of a
/// repository.
pub fn is_last(probe: &Probe) -> (r: bool)
    ensures
        r == settles(*probe),
{
    probe.work_file || probe.git
}

/// Whether the search comes to a directory.
pub open spec fn is_reached(probes: Seq<Probe>, i: int) -> bool {
    0 <= i < probes.len() && forall|j: int| 0 <= j < i ==> !settles(#[trigger] probes[j])
}

/// Whether a directory is the root, where the probes are those of a directory and the ones above
/// it, from the inside out.
///
/// That is the first one with a `buf.work.yaml`, and where the search comes to none, the first one
/// with a `buf.yaml`.
pub open spec fn is_root(probes: Seq<Probe>, i: int) -> bool {
    is_reached(probes, i) && if exists|k: int| is_reached(probes, k) && probes[k].work_file {
        probes[i].work_file
    } else {
        probes[i].module_file && forall|j: int| 0 <= j < i ==> !(#[trigger] probes[j]).module_file
    }
}

/// Finds the root, where the probes are those of a directory and the ones above it, from the
/// inside out.
pub fn find_buf_root(probes: &Vec<Probe>) -> (r: Option<usize>)
    ensures
        match r {
            Some(i) => is_root(probes@, i as int),
            None => forall|i: int| !is_root(probes@, i),
        },
{
    let mut nearest: Option<usize> = None;
    let mut i: usize = 0;
    while i < probes.len()
        invariant
            i <= probes@.len(),
            forall|j: int| 0 <= j < i ==> !settles(#[trigger] probes@[j]),
            match nearest {
                Some(n) => n < i && probes@[n as int].module_file && forall|j: int|
                    0 <= j < n ==> !(#[trigger] probes@[j]).module_file,
                None => forall|j: int| 0 <= j < i ==> !(#[trigger] probes@[j]).module_file,
            },
        decreases probes@.len() - i,
    {
        assert(is_reached(probes@, i as int));
        if probes[i].work_file {
            return Some(i);
        }
        if nearest.is_none() && probes[i].module_file {
            nearest = Some(i);
        }
        if probes[i].git {
            proof {
                lemma_no_work_file(probes@, i as int);
                lemma_nearest(probes@, i as int, nearest);
            }
            return nearest;
        }
        i += 1;
    }
    proof {
        assert forall|k: int| #[trigger] is_reached(probes@, k) implies !probes@[k].work_file by {
            assert(!settles(probes@[k]));
        }
        if let Some(n) = nearest {
            assert(is_reached(probes@, n as int));
        }
    }
    nearest
}

/// Where the search ends at a directory without a `buf.work.yaml`, it comes to no such file.
proof fn lemma_no_work_file(probes: Seq<Probe>, end: int)
    requires
        is_reached(probes, end),
        settles(probes[end]),
        !probes[end].work_file,
    ensures
        forall|k: int| #[trigger] is_reached(probes, k) ==> k <= end && !probes[k].work_file,
{
    assert forall|k: int| #[trigger] is_reached(probes, k) implies k <= end
        && !probes[k].work_file by {
        if k > end {
            assert(!settles(probes[end]));
        } else if k < end {
            assert(!settles(probes[k]));
        }
    }
}

/// Where the search ends at a directory and has come to no `buf.work.yaml`, the nearest directory
/// with a `buf.yaml` is the root.
proof fn lemma_nearest(probes: Seq<Probe>, end: int, nearest: Option<usize>)
    requires
        is_reached(probes, end),
        forall|k: int| #[trigger] is_reached(probes, k) ==> k <= end && !probes[k].work_file,
        match nearest {
            Some(n) => n <= end && probes[n as int].module_file && forall|j: int|
                0 <= j < n ==> !(#[trigger] probes[j]).module_file,
            None => forall|j: int| 0 <= j <= end ==> !(#[trigger] probes[j]).module_file,
        },
    ensures
        match nearest {
            Some(n) => is_root(probes, n as int),
            None => forall|i: int| !is_root(probes, i),
        },
{
    if let Some(n) = nearest {
        assert(is_reached(probes, n as int));
    }
}

/// There is at most one root.
pub proof fn law_root_is_unique(probes: Seq<Probe>, i: int, j: int)
    requires
        is_root(probes, i),
        is_root(probes, j),
    ensures
        i == j,
{
    if i < j {
        assert(!settles(probes[i]));
    } else if j < i {
        assert(!settles(probes[j]));
    }
}

/// What lies further up than a directory that settles the search does not matter to it.
pub proof fn law_search_ends_where_it_is_settled(probes: Seq<Probe>, end: int, i: int)
    requires
        0 <= end < probes.len(),
        settles(probes[end]),
    ensures
        is_root(probes, i) == is_root(probes.take(end + 1), i),
{
    let head = probes.take(end + 1);
    assert forall|k: int| #[trigger] is_reached(probes, k) <==> is_reached(head, k) by {
        if is_reached(probes, k) {
            if k > end {
                assert(!settles(probes[end]));
            }
            assert forall|j: int| 0 <= j < k implies !settles(#[trigger] head[j]) by {
                assert(head[j] == probes[j]);
            }
        }
        if is_reached(head, k) {
            assert forall|j: int| 0 <= j < k implies !settles(#[trigger] probes[j]) by {
                assert(head[j] == probes[j]);
            }
        }
    }
    assert forall|k: int| is_reached(probes, k) implies head[k] == probes[k] by {
        assert(is_reached(head, k));
    }
    if exists|k: int| is_reached(probes, k) && probes[k].work_file {
        let k = choose|k: int| is_reached(probes, k) && probes[k].work_file;
        assert(is_reached(head, k) && head[k].work_file);
    }
    if exists|k: int| is_reached(head, k) && head[k].work_file {
        let k = choose|k: int| is_reached(head, k) && head[k].work_file;
        assert(is_reached(probes, k) && probes[k].work_file);
    }
    if is_reached(probes, i) {
        assert(is_reached(head, i));
        assert forall|j: int| 0 <= j < i implies head[j] == probes[j] by {}
        if forall|j: int| 0 <= j < i ==> !(#[trigger] probes[j]).module_file {
            assert forall|j: int| 0 <= j < i implies !(#[trigger] head[j]).module_file by {
                assert(head[j] == probes[j]);
            }
        }
        if forall|j: int| 0 <= j < i ==> !(#[trigger] head[j]).module_file {
            assert forall|j: int| 0 <= j < i implies !(#[trigger] probes[j]).module_file by {
                assert(head[j] == probes[j]);
            }
        }
    }
}

/// The root of a workspace.
#[derive(Debug)]
pub struct Root {
    /// The bytes of its path.
    pub path: Vec<u8>,
    /// Its path in words.
    pub display: String,
}

/// Whether a path has a workspace with the root `root`.
pub open spec fn belongs_to(found: Option<Root>, root: Root) -> bool {
    match found {
        Some(found) => found.path@ == root.path@,
        None => false,
    }
}

/// Whether a path is the first one with a workspace.
pub open spec fn is_first(roots: Seq<Option<Root>>, n: int) -> bool {
    0 <= n < roots.len() && roots[n] is Some && forall|i: int|
        0 <= i < n ==> (#[trigger] roots[i]) is None
}

fn same_bytes(left: &Vec<u8>, right: &Vec<u8>) -> (r: bool)
    ensures
        r == (left@ == right@),
{
    if left.len() != right.len() {
        return false;
    }
    let mut i: usize = 0;
    while i < left.len()
        invariant
            i <= left@.len(),
            left@.len() == right@.len(),
            forall|j: int| 0 <= j < i ==> left@[j] == right@[j],
        decreases left@.len() - i,
    {
        if left[i] != right[i] {
            return false;
        }
        i += 1;
    }
    assert(left@ =~= right@);
    true
}

/// The workspace that all paths belong to, given the root that was found for each of them: the
/// position of the first one that has a root. Where some have one, all have to have the same.
pub fn find_buf_workspace(roots: &Vec<Option<Root>>) -> (r: Result<Option<usize>, Error>)
    ensures
        match r {
            Ok(None) => forall|i: int| 0 <= i < roots@.len() ==> (#[trigger] roots@[i]) is None,
            Ok(Some(n)) => is_first(roots@, n as int) && forall|i: int|
                0 <= i < roots@.len() ==> belongs_to(#[trigger] roots@[i], roots@[n as int]->0),
            Err(e) => exists|n: int|
                {
                    &&& #[trigger] is_first(roots@, n)
                    &&& exists|i: int|
                        0 <= i < roots@.len() && !belongs_to(#[trigger] roots@[i], roots@[n]->0)
                    &&& e is GenericError
                    &&& e->GenericError_0@ == "All proto paths must belong to the Buf workspace at "@
                        + roots@[n]->0.display@
                },
        },
{
    let mut n: usize = 0;
    while n < roots.len() && roots[n].is_none()
        invariant
            n <= roots@.len(),
            forall|i: int| 0 <= i < n ==> (#[trigger] roots@[i]) is None,
        decreases roots@.len() - n,
    {
        n += 1;
    }
    if n == roots.len() {
        return Ok(None);
    }
    assert(is_first(roots@, n as int));
    if let Some(root) = &roots[n] {
        let mut i: usize = 0;
        while i < roots.len()
            invariant
                i <= roots@.len(),
                is_first(roots@, n as int),
                roots@[n as int] == Some(*root),
                forall|j: int| 0 <= j < i ==> belongs_to(#[trigger] roots@[j], *root),
            decreases roots@.len() - i,
        {
            let same: bool = match &roots[i] {
                Some(other) => same_bytes(&other.path, &root.path),
                None => false,
            };
            if !same {
                let mut text: String = "All proto paths must belong to the Buf workspace at "
                    .to_owned();
                text.append(root.display.as_str());
                assert(!belongs_to(roots@[i as int], roots@[n as int]->0));
                return Err(Error::GenericError(text));
            }
            i += 1;
        }
    }
    Ok(Some(n))
}

/// One argument of `buf`.
pub enum BufArg {
    Text(String),
    /// The path of the output file.
    Output,
    /// The path at a position, without some components at its start.
    Rest { source: usize, skipped: usize },
}

/// The mathematical value of a [`BufArg`].
pub enum BufArgModel {
    Text(Seq<char>),
    Output,
    Rest { source: int, skipped: int },
}

impl View for BufArg {
    type V = BufArgModel;

    open spec fn view(&self) -> BufArgModel {
        match *self {
            BufArg::Text(text) => BufArgModel::Text(text@),
            BufArg::Output => BufArgModel::Output,
            BufArg::Rest { source, skipped } => BufArgModel::Rest {
                source: source as int,
                skipped: skipped as int,
            },
        }
    }
}

/// The mathematical values of a sequence of arguments.
pub open spec fn arg_models(args: Seq<BufArg>) -> Seq<BufArgModel> {
    Seq::new(args.len(), |i: int| args[i]@)
}

/// The components of a path, each by its bytes.
pub open spec fn components(path: Vec<Vec<u8>>) -> Seq<Seq<u8>> {
    Seq::new(path@.len(), |i: int| path@[i]@)
}

/// How many components are left out of a path to have it relative to the root: those of the root,
/// if the path leads through it.
pub open spec fn skipped(path: Seq<Seq<u8>>, root: Seq<Seq<u8>>) -> int {
    if root.is_prefix_of(path) {
        root.len() as int
    } else {
        0
    }
}

/// The arguments that have `buf` compile only what is at the paths. For the root itself there is
/// none.
pub open spec fn path_args(paths: Seq<Vec<Vec<u8>>>, root: Seq<Seq<u8>>) -> Seq<BufArgModel>
    decreases paths.len(),
{
    if paths.len() == 0 {
        Seq::empty()
    } else {
        let before = path_args(paths.drop_last(), root);
        let path = components(paths.last());
        if skipped(path, root) < path.len() {
            before.push(BufArgModel::Text("--path"@)).push(
                BufArgModel::Rest { source: paths.len() - 1, skipped: skipped(path, root) },
            )
        } else {
            before
        }
    }
}

/// The arguments of `buf` that have it write the descriptors of what is at the paths, and of all
/// that is imported, to a file.
pub open spec fn buf_args(paths: Seq<Vec<Vec<u8>>>, root: Seq<Seq<u8>>) -> Seq<BufArgModel> {
    seq![
        BufArgModel::Text("build"@),
        BufArgModel::Text("."@),
        BufArgModel::Text("--as-file-descriptor-set"@),
        BufArgModel::Text("--output"@),
        BufArgModel::Output,
    ] + path_args(paths, root)
}

/// How many components are left out of a path to have it relative to the root.
fn components_to_skip(path: &Vec<Vec<u8>>, root: &Vec<Vec<u8>>) -> (r: usize)
    ensures
        r == skipped(components(*path), components(*root)),
{
    if path.len() < root.len() {
        return 0;
    }
    let ghost p = components(*path);
    let ghost q = components(*root);
    let mut i: usize = 0;
    while i < root.len()
        invariant
            i <= root@.len(),
            root@.len() <= path@.len(),
            p == components(*path),
            q == components(*root),
            forall|j: int| 0 <= j < i ==> p[j] == q[j],
        decreases root@.len() - i,
    {
        if !same_bytes(&path[i], &root[i]) {
            assert(p[i as int] != q[i as int]);
            assert(!q.is_prefix_of(p)) by {
                if q.is_prefix_of(p) {
                    assert(p.take(q.len() as int)[i as int] == p[i as int]);
                }
            }
            return 0;
        }
        assert(p[i as int] == q[i as int]);
        i += 1;
    }
    assert(q =~= p.take(q.len() as int));
    root.len()
}

/// The arguments of `buf` for the components of the paths and of the workspace's root.
pub fn args_for(paths: &Vec<Vec<Vec<u8>>>, root: &Vec<Vec<u8>>) -> (r: Vec<BufArg>)
    ensures
        arg_models(r@) == buf_args(paths@, components(*root)),
        r@.len() >= 5,
        r@[0]@ == BufArgModel::Text("build"@),
        r@[1]@ == BufArgModel::Text("."@),
        r@[2]@ == BufArgModel::Text("--as-file-descriptor-set"@),
        r@[3]@ == BufArgModel::Text("--output"@),
        r@[4]@ == BufArgModel::Output,
{
    let ghost top = components(*root);
    let mut args: Vec<BufArg> = Vec::new();
    args.push(BufArg::Text("build".to_owned()));
    args.push(BufArg::Text(".".to_owned()));
    args.push(BufArg::Text("--as-file-descriptor-set".to_owned()));
    args.push(BufArg::Text("--output".to_owned()));
    args.push(BufArg::Output);
    let ghost first = seq![
        BufArgModel::Text("build"@),
        BufArgModel::Text("."@),
        BufArgModel::Text("--as-file-descriptor-set"@),
        BufArgModel::Text("--output"@),
        BufArgModel::Output,
    ];
    assert(arg_models(args@) =~= first + path_args(paths@.take(0), top));
    let mut i: usize = 0;
    while i < paths.len()
        invariant
            i <= paths@.len(),
            top == components(*root),
            arg_models(args@) == first + path_args(paths@.take(i as int), top),
        decreases paths@.len() - i,
    {
        let ghost before = arg_models(args@);
        assert(paths@.take(i + 1).drop_last() =~= paths@.take(i as int));
        assert(paths@.take(i + 1).last() == paths@[i as int]);
        let skip: usize = components_to_skip(&paths[i], root);
        if skip < paths[i].len() {
            args.push(BufArg::Text("--path".to_owned()));
            args.push(BufArg::Rest { source: i, skipped: skip });
            assert(arg_models(args@) =~= before.push(BufArgModel::Text("--path"@)).push(
                BufArgModel::Rest { source: i as int, skipped: skip as int },
            ));
        }
        assert(arg_models(args@) =~= first + path_args(paths@.take(i + 1), top));
        i += 1;
    }
    assert(paths@.take(i as int) =~= paths@);
    proof {
        let all = arg_models(args@);
        assert(all[0] == args@[0]@ && all[1] == args@[1]@ && all[2] == args@[2]@);
        assert(all[3] == args@[3]@ && all[4] == args@[4]@);
    }
    args
}

/// Whether a directory is one that the search comes to: none further in holds a `buf.work.yaml` or a
/// `.git`.
pub open spec fn nothing_before(probes: Seq<Probe>, i: int) -> bool {
    forall|j: int| 0 <= j < i ==> !(#[trigger] probes[j]).work_file && !probes[j].git
}

/// A directory is the root exactly if the search comes to it, and it holds a `buf.work.yaml`, or it
/// is the first with a `buf.yaml` and the search comes to no `buf.work.yaml`.
pub proof fn law_the_root_holds_the_workspace_or_the_nearest_module(probes: Seq<Probe>, i: int)
    ensures
        is_root(probes, i) <==> {
            &&& 0 <= i < probes.len()
            &&& nothing_before(probes, i)
            &&& {
                ||| probes[i].work_file
                ||| {
                    &&& probes[i].module_file
                    &&& forall|j: int| 0 <= j < i ==> !(#[trigger] probes[j]).module_file
                    &&& forall|k: int|
                        0 <= k < probes.len() && #[trigger] nothing_before(probes, k)
                            ==> !probes[k].work_file
                }
            }
        },
{
    assert forall|k: int| is_reached(probes, k) <==> 0 <= k < probes.len()
        && #[trigger] nothing_before(probes, k) by {
        if is_reached(probes, k) {
            assert forall|j: int| 0 <= j < k implies !(#[trigger] probes[j]).work_file
                && !probes[j].git by {
                assert(!settles(probes[j]));
            }
        }
        if 0 <= k < probes.len() && nothing_before(probes, k) {
            assert forall|j: int| 0 <= j < k implies !settles(#[trigger] probes[j]) by {}
        }
    }
    if exists|k: int| is_reached(probes, k) && probes[k].work_file {
        let k = choose|k: int| is_reached(probes, k) && probes[k].work_file;
        assert(nothing_before(probes, k));
    }
    if 0 <= i < probes.len() && nothing_before(probes, i) && probes[i].work_file {
        assert(is_reached(probes, i));
    }
    if forall|k: int|
        0 <= k < probes.len() && #[trigger] nothing_before(probes, k) ==> !probes[k].work_file {
        assert forall|k: int| is_reached(probes, k) implies !probes[k].work_file by {
            assert(nothing_before(probes, k));
        }
    }
    assert(is_reached(probes, i) <==> 0 <= i < probes.len() && nothing_before(probes, i));
}

/// Where the search comes to a `buf.work.yaml`, its directory is the root, whatever else there is.
pub proof fn law_the_first_workspace_is_the_root(probes: Seq<Probe>, i: int)
    requires
        0 <= i < probes.len(),
        probes[i].work_file,
        forall|j: int| 0 <= j < i ==> !(#[trigger] probes[j]).work_file && !probes[j].git,
    ensures
        is_root(probes, i),
{
    law_the_root_holds_the_workspace_or_the_nearest_module(probes, i);
}

/// The search goes on past a directory exactly if that holds neither a `buf.work.yaml` nor a `.git`.
pub proof fn law_the_search_goes_on_past_other_directories(probe: Probe)
    ensures
        settles(probe) <==> probe.work_file || probe.git,
{
}

/// A path belongs to a workspace exactly if it has one whose root has the same path.
pub proof fn law_paths_belong_to_the_workspace_of_the_same_root(found: Option<Root>, root: Root)
    ensures
        belongs_to(found, root) <==> found is Some && found->0.path@ == root.path@,
{
}

/// The first path with a workspace is the one before which there is none.
pub proof fn law_the_first_path_with_a_workspace(roots: Seq<Option<Root>>, n: int)
    ensures
        is_first(roots, n) <==> 0 <= n < roots.len() && roots[n] is Some && forall|i: int|
            0 <= i < n ==> (#[trigger] roots[i]) is None,
{
}

/// A path within the root is passed on without the components of the root, and one outside of it as
/// it is.
pub proof fn law_paths_are_relative_to_the_root(root: Seq<Seq<u8>>, path: Seq<Seq<u8>>)
    ensures
        path.len() >= root.len() && path.take(root.len() as int) == root ==> skipped(path, root)
            == root.len(),
        path.len() < root.len() || path.take(root.len() as int) != root ==> skipped(path, root) == 0,
{
    if path.len() >= root.len() {
        assert(path.subrange(0, root.len() as int) =~= path.take(root.len() as int));
    }
}

/// Whether the arguments at a place and behind it have a path compiled, without some components at
/// its start.
pub open spec fn passes_path(args: Seq<BufArgModel>, at: int, source: int, left_out: int) -> bool {
    &&& 0 <= at < args.len() - 1
    &&& args[at] == BufArgModel::Text("--path"@)
    &&& args[at + 1] == (BufArgModel::Rest { source, skipped: left_out })
}

/// The arguments have `buf` build what is in the directory that it is called in, as a set of file
/// descriptors, to the output file, whatever the paths are. Behind them stand pairs of arguments,
/// each of which has a path compiled.
pub proof fn law_arguments_of_buf_stand_at_their_places(
    paths: Seq<Vec<Vec<u8>>>,
    root: Seq<Seq<u8>>,
    k: int,
)
    ensures
        ({
            let args = buf_args(paths, root);
            &&& args.len() >= 5 && (args.len() - 5) % 2 == 0
            &&& args[0] == BufArgModel::Text("build"@)
            &&& args[1] == BufArgModel::Text("."@)
            &&& args[2] == BufArgModel::Text("--as-file-descriptor-set"@)
            &&& args[3] == BufArgModel::Text("--output"@)
            &&& args[4] == BufArgModel::Output
            &&& 0 <= k && 5 + 2 * k < args.len() ==> args[5 + 2 * k] == BufArgModel::Text("--path"@)
                && args[6 + 2 * k] is Rest
        }),
{
    let args = buf_args(paths, root);
    let rest = path_args(paths, root);
    lemma_path_args(paths, root);
    if 0 <= k && 5 + 2 * k < args.len() {
        assert(is_pair(rest, k));
        assert(args[5 + 2 * k] == rest[2 * k]);
        assert(args[6 + 2 * k] == rest[2 * k + 1]);
    }
}

/// A path that is not the root itself has arguments that have it compiled, relative to the root
/// where it is within that.
pub proof fn law_a_path_is_compiled(
    paths: Seq<Vec<Vec<u8>>>,
    root: Seq<Seq<u8>>,
    i: int,
    left_out: int,
)
    requires
        0 <= i < paths.len(),
        components(paths[i]) != root,
        paths[i]@.len() > 0,
        left_out == if paths[i]@.len() >= root.len() && components(paths[i]).take(root.len() as int)
            == root {
            root.len() as int
        } else {
            0
        },
    ensures
        exists|at: int| #[trigger] passes_path(buf_args(paths, root), at, i, left_out),
{
    let path = components(paths[i]);
    law_paths_are_relative_to_the_root(root, path);
    if path.len() == root.len() && path.take(root.len() as int) == root {
        assert(path.take(root.len() as int) =~= path);
    }
    assert(skipped(path, root) < path.len());
    lemma_path_is_passed(paths, root, i);
    let rest = path_args(paths, root);
    let at = choose|at: int| #[trigger] passes_path(rest, at, i, skipped(path, root));
    assert(passes_path(buf_args(paths, root), at + 5, i, skipped(path, root)));
}

/// Only what is at the paths is compiled: each argument for a path is for one of them that is not the
/// root itself, and leaves out as much of it as the root has, or nothing.
pub proof fn law_only_the_paths_are_compiled(
    paths: Seq<Vec<Vec<u8>>>,
    root: Seq<Seq<u8>>,
    at: int,
    source: int,
    left_out: int,
)
    requires
        passes_path(buf_args(paths, root), at, source, left_out),
        at >= 5,
    ensures
        0 <= source < paths.len(),
        components(paths[source]) != root,
        0 <= left_out < paths[source]@.len(),
        left_out == root.len() || left_out == 0,
{
    let rest = path_args(paths, root);
    assert(buf_args(paths, root)[at] == rest[at - 5]);
    assert(buf_args(paths, root)[at + 1] == rest[at - 4]);
    lemma_only_paths(paths, root, at - 5, source, left_out);
}

/// Whether a pair of arguments has a path compiled.
spec fn is_pair(args: Seq<BufArgModel>, k: int) -> bool {
    args[2 * k] == BufArgModel::Text("--path"@) && args[2 * k + 1] is Rest
}

proof fn lemma_path_args(paths: Seq<Vec<Vec<u8>>>, root: Seq<Seq<u8>>)
    ensures
        path_args(paths, root).len() % 2 == 0,
        forall|k: int|
            0 <= k && 2 * k < path_args(paths, root).len() ==> #[trigger] is_pair(
                path_args(paths, root),
                k,
            ),
    decreases paths.len(),
{
    if paths.len() > 0 {
        let before = path_args(paths.drop_last(), root);
        lemma_path_args(paths.drop_last(), root);
        assert forall|k: int| 0 <= k && 2 * k < path_args(paths, root).len() implies #[trigger] is_pair(
            path_args(paths, root),
            k,
        ) by {
            if 2 * k < before.len() {
                assert(is_pair(before, k));
            }
        }
    }
}

proof fn lemma_path_is_passed(paths: Seq<Vec<Vec<u8>>>, root: Seq<Seq<u8>>, i: int)
    requires
        0 <= i < paths.len(),
        skipped(components(paths[i]), root) < paths[i]@.len(),
    ensures
        exists|at: int| #[trigger]
            passes_path(path_args(paths, root), at, i, skipped(components(paths[i]), root)),
    decreases paths.len(),
{
    let skip = skipped(components(paths[i]), root);
    let head = paths.drop_last();
    let before = path_args(head, root);
    if i < head.len() {
        lemma_path_is_passed(head, root, i);
        assert(head[i] == paths[i]);
        let at = choose|at: int| #[trigger] passes_path(before, at, i, skip);
        assert(passes_path(path_args(paths, root), at, i, skip));
    } else {
        assert(passes_path(path_args(paths, root), before.len() as int, i, skip));
    }
}

proof fn lemma_only_paths(
    paths: Seq<Vec<Vec<u8>>>,
    root: Seq<Seq<u8>>,
    at: int,
    source: int,
    left_out: int,
)
    requires
        passes_path(path_args(paths, root), at, source, left_out),
    ensures
        0 <= source < paths.len(),
        components(paths[source]) != root,
        0 <= left_out < paths[source]@.len(),
        left_out == root.len() || left_out == 0,
    decreases paths.len(),
{
    let head = paths.drop_last();
    let before = path_args(head, root);
    lemma_path_args(head, root);
    if at + 1 < before.len() {
        assert(passes_path(before, at, source, left_out));
        lemma_only_paths(head, root, at, source, left_out);
        assert(head[source] == paths[source]);
    } else if at + 1 == before.len() {
        assert(is_pair(before, (before.len() - 2) / 2));
    } else {
        let path = components(paths.last());
        if path == root {
            assert(root.is_prefix_of(path));
        }
    }
}

} // verus!
