use yaak_grpc::any::{
    collect_any_types_from_dynamic_message, collect_any_types_from_value, MessageTree, ValueTree,
};

fn message(full_name: &str, url: Option<&str>, fields: Vec<ValueTree>) -> MessageTree {
    MessageTree {
        full_name: full_name.to_string(),
        type_url: url.map(String::from),
        fields,
    }
}

fn any(url: &str) -> MessageTree {
    message("google.protobuf.Any", Some(url), vec![ValueTree::Scalar])
}

fn types(tree: &MessageTree) -> Vec<String> {
    let mut out = Vec::new();
    collect_any_types_from_dynamic_message(tree, &mut out);
    out
}

#[test]
fn an_any_names_what_follows_the_last_slash() {
    assert_eq!(types(&any("type.googleapis.com/test.A")), vec!["test.A"]);
    assert_eq!(types(&any("https://example.com/types/test.B")), vec!["test.B"]);
    assert_eq!(types(&any("test.C")), Vec::<String>::new());
    assert_eq!(types(&any("")), Vec::<String>::new());
}

#[test]
fn only_an_any_names_a_type() {
    let other = message("test.Other", Some("type.googleapis.com/test.A"), vec![]);
    assert_eq!(types(&other), Vec::<String>::new());
    let bare = message("google.protobuf.Any", None, vec![]);
    assert_eq!(types(&bare), Vec::<String>::new());
}

#[test]
fn types_are_found_at_every_depth_and_listed_once() {
    let tree = message(
        "test.Root",
        None,
        vec![
            ValueTree::Scalar,
            ValueTree::Message(any("x/test.A")),
            ValueTree::List(vec![
                ValueTree::Message(any("x/test.B")),
                ValueTree::Message(message(
                    "test.Inner",
                    None,
                    vec![ValueTree::Message(any("y/test.C"))],
                )),
            ]),
            ValueTree::Entries(vec![
                ValueTree::Message(any("z/test.A")),
                ValueTree::Message(any("z/test.D")),
            ]),
        ],
    );
    assert_eq!(types(&tree), vec!["test.A", "test.B", "test.C", "test.D"]);
}

#[test]
fn types_are_added_to_a_list() {
    let mut out = vec!["test.B".to_string()];
    let value = ValueTree::List(vec![
        ValueTree::Message(any("x/test.A")),
        ValueTree::Message(any("x/test.B")),
    ]);
    collect_any_types_from_value(&value, &mut out);
    assert_eq!(out, vec!["test.B", "test.A"]);
}
