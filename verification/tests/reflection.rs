use prost::Message;
use prost_types::{DescriptorProto, FileDescriptorProto};
use yaak_grpc::error::Error;
use yaak_grpc::loader::{PoolLoader, Step};
use yaak_grpc::pool::{add_lowered_file, Pool};
use yaak_grpc::reflection::{
    list_services, request_for, services_to_load, Action, Purpose, Session,
};
use yaak_grpc::reply::{ReflectionReply, ReflectionRequest};

fn file(name: &str, message: &str, imports: Vec<&str>) -> Vec<u8> {
    FileDescriptorProto {
        name: Some(name.to_string()),
        package: Some("test".to_string()),
        syntax: Some("proto3".to_string()),
        dependency: imports.into_iter().map(String::from).collect(),
        message_type: vec![DescriptorProto {
            name: Some(message.to_string()),
            ..Default::default()
        }],
        ..Default::default()
    }
    .encode_to_vec()
}

fn strings(names: Vec<&str>) -> Vec<String> {
    names.into_iter().map(String::from).collect()
}

/// A server with the files a.proto, which imports b.proto and c.proto, and b.proto, which imports
/// c.proto.
fn serve(request: &ReflectionRequest) -> ReflectionReply {
    match request {
        ReflectionRequest::FileByFilename(name) => match name.as_str() {
            "b.proto" => {
                ReflectionReply::FileDescriptors(vec![file("b.proto", "B", vec!["c.proto"])])
            }
            "c.proto" => ReflectionReply::FileDescriptors(vec![file("c.proto", "C", vec![])]),
            _ => ReflectionReply::Error { message: "not found".to_string(), code: 5 },
        },
        ReflectionRequest::FileContainingSymbol(name) => match name.as_str() {
            "test.A" => ReflectionReply::FileDescriptors(vec![file(
                "a.proto",
                "A",
                vec!["b.proto", "c.proto"],
            )]),
            "test.Odd" => ReflectionReply::Other,
            _ => ReflectionReply::Error { message: "not found".to_string(), code: 5 },
        },
        ReflectionRequest::ListServices => ReflectionReply::Services(vec![]),
    }
}

/// Runs a session against the server, and gives the symbols and files that were asked for.
fn run(mut session: Session, pool: &mut Pool) -> Vec<String> {
    let mut asked = Vec::new();
    loop {
        let action = session.advance(pool);
        if matches!(action, Action::Done) {
            return asked;
        }
        if let Some(request) = request_for(&action) {
            asked.push(match &request {
                ReflectionRequest::FileByFilename(name) => name.clone(),
                ReflectionRequest::FileContainingSymbol(name) => name.clone(),
                ReflectionRequest::ListServices => unreachable!(),
            });
            assert!(session.on_reply(Ok(serve(&request))).is_ok());
        }
    }
}

#[test]
fn imports_are_fetched_and_added_first() {
    let mut pool = Pool::new();
    let asked = run(Session::new(Purpose::Services, strings(vec!["test.A"])), &mut pool);
    assert!(pool.has_message("test.A"));
    assert!(pool.has_message("test.B"));
    assert!(pool.has_message("test.C"));
    // No file is asked for twice.
    let mut once = asked.clone();
    once.sort();
    once.dedup();
    assert_eq!(asked.len(), once.len());
    assert_eq!(asked[0], "test.A");
}

#[test]
fn a_type_that_the_pool_has_is_not_asked_for() {
    let mut pool = Pool::new();
    assert!(add_lowered_file(&mut pool, &file("c.proto", "C", vec![])).is_ok());
    let types = strings(vec!["test.C", "test.A"]);
    let asked = run(Session::new(Purpose::RequestTypes, types), &mut pool);
    assert_eq!(asked, vec!["test.A", "b.proto"]);
    // A service is asked for in any case.
    let asked = run(Session::new(Purpose::Services, strings(vec!["test.C"])), &mut pool);
    assert_eq!(asked, vec!["test.C"]);
}

#[test]
fn a_type_that_came_with_another_is_known() {
    let mut pool = Pool::new();
    let mut session = Session::new(Purpose::ResponseTypes, strings(vec!["test.A", "test.B"]));
    let mut known = Vec::new();
    loop {
        let action = session.advance(&mut pool);
        match &action {
            Action::Done => break,
            Action::Known(name) => known.push(name.clone()),
            _ => {}
        }
        if let Some(request) = request_for(&action) {
            assert!(session.on_reply(Ok(serve(&request))).is_ok());
        }
    }
    assert_eq!(known, vec!["test.B"]);
}

#[test]
fn replies_without_files_are_passed_over() {
    let mut pool = Pool::new();
    let types = strings(vec!["test.Odd", "test.Missing", "test.A"]);
    let asked = run(Session::new(Purpose::RequestTypes, types), &mut pool);
    assert_eq!(&asked[..3], &["test.Odd", "test.Missing", "test.A"]);
    assert!(pool.has_message("test.A"));
}

fn first_reply(purpose: Purpose, reply: Result<ReflectionReply, String>) -> Result<(), Error> {
    let mut pool = Pool::new();
    let mut session = Session::new(purpose, strings(vec!["test.A"]));
    assert!(matches!(session.advance(&mut pool), Action::Ask(_)));
    session.on_reply(reply)
}

#[test]
fn a_request_for_a_type_that_is_not_answered_is_an_error() {
    let cause = || Err("Status { code: 14 }".to_string());
    assert!(first_reply(Purpose::Services, cause()).is_ok());
    match first_reply(Purpose::RequestTypes, cause()) {
        Err(Error::GenericError(text)) => assert_eq!(
            text,
            "Error sending reflection request for @type \"test.A\": Status { code: 14 }"
        ),
        _ => panic!("no error"),
    }
    match first_reply(Purpose::ResponseTypes, cause()) {
        Err(Error::GenericError(text)) => assert_eq!(
            text,
            "Error sending reflection request for response @type \"test.A\": Status { code: 14 }"
        ),
        _ => panic!("no error"),
    }
}

#[test]
fn a_request_for_an_import_that_is_not_answered_is_passed_over() {
    let mut pool = Pool::new();
    let mut session = Session::new(Purpose::RequestTypes, strings(vec!["test.A"]));
    loop {
        let action = session.advance(&mut pool);
        match &action {
            Action::Done => break,
            Action::Ask(_) => {
                let reply = serve(&request_for(&action).unwrap());
                assert!(session.on_reply(Ok(reply)).is_ok());
            }
            Action::Load(Step::Fetch(_)) => {
                assert!(session.on_reply(Err("gone".to_string())).is_ok());
            }
            Action::Load(Step::Added(name, added)) => {
                assert_eq!(name, "a.proto");
                assert!(matches!(added, Err(Error::DescriptorError(_))));
            }
            _ => {}
        }
    }
    assert!(!pool.has_message("test.A"));
}

#[test]
fn files_of_one_batch_need_no_request() {
    let files = vec![
        file("a.proto", "A", vec!["b.proto"]),
        vec![0xff],
        file("b.proto", "Old", vec![]),
        file("b.proto", "B", vec![]),
    ];
    let mut pool = Pool::new();
    let mut loader = PoolLoader::new(files);
    let mut added = Vec::new();
    loop {
        match loader.step(&mut pool) {
            Step::Done => break,
            Step::Added(name, result) => {
                assert!(result.is_ok());
                added.push(name);
            }
            Step::BatchDone => {}
            _ => panic!("unexpected step"),
        }
    }
    assert!(loader.is_idle());
    assert_eq!(added, vec!["b.proto", "a.proto"]);
    // Of two files with one name the last one counts.
    assert!(pool.has_message("test.B"));
    assert!(!pool.has_message("test.Old"));
}

#[test]
fn files_that_import_one_another_are_given_up() {
    let files =
        vec![file("a.proto", "A", vec!["b.proto"]), file("b.proto", "B", vec!["a.proto"])];
    let mut pool = Pool::new();
    let mut loader = PoolLoader::new(files);
    assert!(matches!(loader.step(&mut pool), Step::Cycle));
    assert!(matches!(loader.step(&mut pool), Step::Done));
    assert_eq!(pool.descriptors().files().count(), 0);
}

#[test]
fn a_file_that_the_pool_has_is_not_fetched() {
    let mut pool = Pool::new();
    assert!(add_lowered_file(&mut pool, &file("c.proto", "C", vec![])).is_ok());
    let mut loader = PoolLoader::new(vec![file("a.proto", "A", vec!["c.proto"])]);
    assert!(matches!(loader.step(&mut pool), Step::Present(name) if name == "c.proto"));
    assert!(matches!(loader.step(&mut pool), Step::Added(name, Ok(())) if name == "a.proto"));
    assert!(matches!(loader.step(&mut pool), Step::BatchDone));
    assert!(matches!(loader.step(&mut pool), Step::Done));
}

#[test]
fn services_are_listed() {
    let reply = ReflectionReply::Services(strings(vec!["a.A", "b.B"]));
    assert_eq!(list_services(reply).ok().unwrap(), vec!["a.A", "b.B"]);
    let reply = ReflectionReply::Error { message: "unimplemented".to_string(), code: 12 };
    match list_services(reply) {
        Err(Error::GenericError(text)) => assert_eq!(
            text,
            "Server reflection error listing services: unimplemented (12)"
        ),
        _ => panic!("no error"),
    }
    for reply in [ReflectionReply::Other, ReflectionReply::FileDescriptors(vec![])] {
        match list_services(reply) {
            Err(Error::GenericError(text)) => {
                assert_eq!(text, "Expected a ListServicesResponse variant")
            }
            _ => panic!("no error"),
        }
    }
}

#[test]
fn reflection_services_are_left_out() {
    let names = strings(vec![
        "a.A",
        "grpc.reflection.v1alpha.ServerReflection",
        "grpc.reflection.v1.ServerReflection",
        "grpc.health.v1.Health",
        "a.A",
    ]);
    assert_eq!(services_to_load(names), vec!["a.A", "grpc.health.v1.Health", "a.A"]);
}
