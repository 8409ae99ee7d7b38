use yaak_grpc::buf::{
    args_for as buf_args, find_buf_root, find_buf_workspace, is_last, BufArg, Probe, Root,
};
use yaak_grpc::error::Error;
use yaak_grpc::protoc::{
    args_for, command_args, find_parent_proto_dir, ParentDir, Part, Source,
};
use yaak_grpc::tool::{
    check_exit, descriptor_file_name, descriptor_file_name_of, not_run, PathText, Tool,
};

fn step(name: &str) -> Part {
    Part::Step(Some(name.to_string()))
}

#[test]
fn the_innermost_proto_directory_is_found() {
    let path = vec![Part::Anchor, step("proto"), step("a"), step("proto"), step("b")];
    assert_eq!(find_parent_proto_dir(&path), Some(4));
    assert_eq!(find_parent_proto_dir(&path[..2].iter().map(copy).collect()), Some(2));
    let path = vec![Part::Anchor, step("protos"), Part::Step(None), step("b")];
    assert_eq!(find_parent_proto_dir(&path), None);
    assert_eq!(find_parent_proto_dir(&vec![Part::Anchor]), None);
    assert_eq!(find_parent_proto_dir(&vec![]), None);
}

fn copy(part: &Part) -> Part {
    match part {
        Part::Anchor => Part::Anchor,
        Part::Step(name) => Part::Step(name.clone()),
    }
}

fn source(path: &str, parent: &str, above: Option<&str>, proto_dir: Option<&str>) -> Source {
    Source::File {
        path: path.to_string(),
        parent: Some(ParentDir {
            path: parent.to_string(),
            parent: above.map(String::from),
            proto_dir: proto_dir.map(String::from),
        }),
    }
}

#[test]
fn protoc_is_told_where_to_look_and_what_to_compile() {
    let sources = vec![
        Source::Missing,
        Source::Directory("/inc".to_string()),
        source("/src/a/x.proto", "/src/a", Some("/src"), None),
        source("/repo/proto/b/y.proto", "/repo/proto/b", Some("/repo/proto"), Some("/repo/proto")),
        source("/src/a/x.proto", "/src/a", Some("/src"), None),
        Source::Directory("/inc".to_string()),
        source("/z.proto", "/", None, None),
        Source::File { path: "w.proto".to_string(), parent: None },
    ];
    let args = args_for("/imports".to_string(), "/tmp/out.desc".to_string(), &sources);
    assert_eq!(
        args,
        vec![
            "--include_imports",
            "--include_source_info",
            "-I",
            "/imports",
            "-o",
            "/tmp/out.desc",
            "-I",
            "/inc",
            "-I",
            "/src/a",
            "-I",
            "/src",
            "-I",
            "/repo/proto",
            "-I",
            "/",
            "/src/a/x.proto",
            "/repo/proto/b/y.proto",
            "/z.proto",
            "w.proto",
        ]
    );
    // A path that is not verbatim is taken as it stands.
    let imports = PathText::Exact("/imports".to_string());
    let output = PathText::Exact("/tmp/out.desc".to_string());
    assert_eq!(command_args(&imports, &output, &sources), args);
    // So is one that is not Unicode.
    let imports = PathText::Lossy("/imp\u{fffd}rts".to_string());
    assert_eq!(command_args(&imports, &output, &sources)[3], "/imp\u{fffd}rts");
}

#[test]
fn failures_are_told_in_words() {
    let text = |e: Error| match e {
        Error::GenericError(text) => text,
        _ => panic!("another error"),
    };
    assert_eq!(text(not_run(Tool::Protoc, "no such file")), "Failed to run protoc: no such file");
    assert_eq!(text(not_run(Tool::Buf, "no such file")), "Failed to run buf: no such file");
    assert!(check_exit(Tool::Protoc, true, Some(0), "warning").is_ok());
    let protoc = check_exit(Tool::Protoc, false, Some(1), "x.proto: oops");
    assert_eq!(text(protoc.err().unwrap()), "protoc failed with status 1: x.proto: oops");
    let buf = check_exit(Tool::Buf, false, None, "killed");
    assert_eq!(text(buf.err().unwrap()), "buf build failed with status -1: killed");
}

#[test]
fn descriptor_files_have_names_of_their_own() {
    let name = descriptor_file_name();
    assert_eq!(name.len(), 41);
    assert!(name.ends_with(".desc"));
    assert_eq!(name.matches('-').count(), 4);
    assert_eq!(name.as_bytes()[14], b'4');
    assert!(b"89ab".contains(&name.as_bytes()[19]));
    assert_ne!(name, descriptor_file_name());
    assert_eq!(descriptor_file_name_of("00c0ffee"), "00c0ffee.desc");
}

fn probe(work_file: bool, module_file: bool, git: bool) -> Probe {
    Probe { work_file, module_file, git }
}

const NOTHING: (bool, bool, bool) = (false, false, false);

fn root(probes: Vec<(bool, bool, bool)>) -> Option<usize> {
    find_buf_root(&probes.into_iter().map(|(w, m, g)| probe(w, m, g)).collect())
}

#[test]
fn a_workspace_wins_over_a_module() {
    assert_eq!(root(vec![(false, true, false), (true, false, true)]), Some(1));
    assert_eq!(root(vec![(true, true, false), (true, false, false)]), Some(0));
}

#[test]
fn the_nearest_module_counts() {
    assert_eq!(root(vec![NOTHING, (false, true, false), (false, true, false)]), Some(1));
    assert_eq!(root(vec![NOTHING, NOTHING]), None);
    assert_eq!(root(vec![]), None);
}

#[test]
fn the_search_ends_at_the_top_of_a_repository() {
    assert_eq!(root(vec![NOTHING, (false, false, true), (true, true, false)]), None);
    assert_eq!(root(vec![NOTHING, (false, true, true), (true, true, false)]), Some(1));
    assert!(is_last(&probe(false, true, true)));
    assert!(is_last(&probe(true, false, false)));
    assert!(!is_last(&probe(false, true, false)));
}

fn at(path: &str) -> Option<Root> {
    Some(Root { path: path.as_bytes().to_vec(), display: path.to_string() })
}

/// A repository at /r with the modules a and b, and a directory c without one.
#[test]
fn finds_buf_workspace_root() {
    let top = |work_file: bool| (work_file, false, true);
    let module = (false, true, false);
    let found = |index: Option<usize>, dirs: [&str; 2]| index.and_then(|i| at(dirs[i]));

    // v1: buf.work.yaml wins over the module's own buf.yaml
    let x = found(root(vec![module, top(true)]), ["/r/a", "/r"]);
    let b = found(root(vec![module, top(true)]), ["/r/b", "/r"]);
    assert_eq!(x.as_ref().unwrap().display, "/r");
    assert!(matches!(find_buf_workspace(&vec![x, b]), Ok(Some(0))));

    // No Buf config at all
    let y = found(root(vec![NOTHING, top(false)]), ["/r/c", "/r"]);
    assert!(y.is_none());
    assert!(matches!(find_buf_workspace(&vec![y]), Ok(None)));

    // Mixing Buf and non-Buf paths is rejected
    let a = found(root(vec![module, top(false)]), ["/r/a", "/r"]);
    assert!(find_buf_workspace(&vec![a, None]).is_err());
}

#[test]
fn paths_of_several_workspaces_are_refused() {
    for roots in [vec![at("/r/a"), at("/r/b")], vec![None, at("/r/a")]] {
        match find_buf_workspace(&roots) {
            Err(Error::GenericError(text)) => assert_eq!(
                text,
                "All proto paths must belong to the Buf workspace at /r/a"
            ),
            _ => panic!("no error"),
        }
    }
    assert!(matches!(find_buf_workspace(&vec![]), Ok(None)));
}

fn components(path: &str) -> Vec<Vec<u8>> {
    path.split(' ').map(|part| part.as_bytes().to_vec()).collect()
}

#[test]
fn buf_is_told_what_to_compile() {
    let paths = vec![
        components("/ r proto acme"),
        components("/ r"),
        components("/ elsewhere"),
        components("/ r x.proto"),
    ];
    let args: Vec<String> = buf_args(&paths, &components("/ r"))
        .into_iter()
        .map(|arg| match arg {
            BufArg::Text(text) => text,
            BufArg::Output => "<output>".to_string(),
            BufArg::Rest { source, skipped } => format!("<{source} from {skipped}>"),
        })
        .collect();
    assert_eq!(
        args,
        vec![
            "build",
            ".",
            "--as-file-descriptor-set",
            "--output",
            "<output>",
            "--path",
            "<0 from 2>",
            "--path",
            "<2 from 0>",
            "--path",
            "<3 from 2>",
        ]
    );
}
