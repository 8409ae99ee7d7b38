use yaak_grpc::features::{FeatureOverrides, Features};
use yaak_grpc::lowering::{lower_field, lower_file, lower_message, FieldDecl, FileDecl, MessageDecl};

fn field(label: i32, ty: i32) -> FieldDecl {
    FieldDecl { label, ty, oneof_index: None, features: None, packed: None }
}

fn presence(number: i32) -> Option<FeatureOverrides> {
    Some(FeatureOverrides {
        field_presence: Some(number),
        repeated_field_encoding: None,
        message_encoding: None,
    })
}

fn delimited() -> Option<FeatureOverrides> {
    Some(FeatureOverrides {
        field_presence: None,
        repeated_field_encoding: None,
        message_encoding: Some(2),
    })
}

fn expanded() -> Option<FeatureOverrides> {
    Some(FeatureOverrides {
        field_presence: None,
        repeated_field_encoding: Some(2),
        message_encoding: None,
    })
}

fn lowered(mut decl: FieldDecl) -> (i32, i32, Option<bool>) {
    lower_field(&mut decl, Features::edition_defaults());
    (decl.label, decl.ty, decl.packed)
}

#[test]
fn defaults_of_an_edition() {
    let features = Features::edition_defaults();
    assert_eq!(features.field_presence, 1);
    assert_eq!(features.repeated_field_encoding, 1);
    assert_eq!(features.message_encoding, 1);
}

#[test]
fn what_is_not_set_is_inherited() {
    let outer = Features { field_presence: 2, repeated_field_encoding: 2, message_encoding: 2 };
    assert_eq!(outer.inherit(&None), outer);
    let inner = outer.inherit(&presence(3));
    assert_eq!(
        inner,
        Features { field_presence: 3, repeated_field_encoding: 2, message_encoding: 2 }
    );
}

#[test]
fn the_innermost_override_decides() {
    let all = Some(FeatureOverrides {
        field_presence: Some(3),
        repeated_field_encoding: Some(2),
        message_encoding: Some(2),
    });
    let one = Features { field_presence: 1, repeated_field_encoding: 1, message_encoding: 1 };
    let other = Features { field_presence: 2, repeated_field_encoding: 2, message_encoding: 2 };
    assert_eq!(one.inherit(&all), other.inherit(&all));
}

#[test]
fn a_field_that_must_be_set_is_required() {
    let mut decl = field(1, 5);
    decl.features = presence(3);
    assert_eq!(lowered(decl), (2, 5, None));
}

#[test]
fn a_delimited_message_is_a_group_and_nothing_else_is() {
    let mut decl = field(1, 11);
    decl.features = delimited();
    assert_eq!(lowered(decl), (1, 10, None));
    let mut decl = field(1, 5);
    decl.features = delimited();
    assert_eq!(lowered(decl), (1, 5, None));
}

#[test]
fn repeated_fields_say_whether_they_are_packed() {
    assert_eq!(lowered(field(3, 5)), (3, 5, Some(true)));
    let mut decl = field(3, 5);
    decl.features = expanded();
    assert_eq!(lowered(decl), (3, 5, Some(false)));
    // What cannot be packed says nothing.
    for ty in [9, 10, 11, 12] {
        assert_eq!(lowered(field(3, ty)), (3, ty, None));
    }
    // What is not repeated says nothing.
    assert_eq!(lowered(field(1, 5)), (1, 5, None));
}

#[test]
fn a_repeated_field_that_must_be_set_is_no_longer_repeated() {
    let mut decl = field(3, 5);
    decl.features = presence(3);
    assert_eq!(lowered(decl), (2, 5, Some(true)));
}

#[test]
fn fields_inherit_from_their_oneof() {
    let mut member = field(1, 11);
    member.oneof_index = Some(1);
    let mut stray = field(1, 11);
    stray.oneof_index = Some(7);
    let mut message = MessageDecl {
        features: None,
        oneofs: vec![None, delimited()],
        fields: vec![member, field(1, 11), stray],
        extensions: vec![field(3, 5)],
        nested: vec![],
    };
    lower_message(&mut message, Features::edition_defaults());
    assert_eq!(message.fields[0].ty, 10);
    assert_eq!(message.fields[1].ty, 11);
    assert_eq!(message.fields[2].ty, 11);
    assert_eq!(message.extensions[0].packed, Some(true));
}

fn file(syntax: &str) -> FileDecl {
    let inner = MessageDecl {
        features: None,
        oneofs: vec![],
        fields: vec![field(1, 5)],
        extensions: vec![],
        nested: vec![],
    };
    let outer = MessageDecl {
        features: presence(3),
        oneofs: vec![],
        fields: vec![],
        extensions: vec![],
        nested: vec![inner],
    };
    FileDecl {
        syntax: syntax.to_string(),
        edition: Some(1001),
        features: expanded(),
        messages: vec![outer],
        extensions: vec![field(3, 5)],
    }
}

#[test]
fn a_file_under_an_edition_becomes_proto2() {
    let mut decl = file("editions");
    lower_file(&mut decl);
    assert_eq!(decl.syntax, "proto2");
    assert_eq!(decl.edition, None);
    assert_eq!(decl.messages[0].nested[0].fields[0].label, 2);
    assert_eq!(decl.extensions[0].packed, Some(false));

    let before = format!("{:?}", decl);
    lower_file(&mut decl);
    assert_eq!(format!("{:?}", decl), before);
}

#[test]
fn other_files_are_untouched() {
    for syntax in ["", "proto2", "proto3"] {
        let mut decl = file(syntax);
        let before = format!("{:?}", decl);
        lower_file(&mut decl);
        assert_eq!(format!("{:?}", decl), before);
    }
}
