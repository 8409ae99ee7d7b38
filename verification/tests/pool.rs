use prost::Message;
use prost_reflect::{DescriptorPool, DynamicMessage, Value};
use prost_types::field_descriptor_proto::{Label, Type};
use prost_types::uninterpreted_option::NamePart;
use prost_types::{
    DescriptorProto, FieldDescriptorProto, FieldOptions, FileDescriptorProto, FileDescriptorSet,
    MessageOptions, UninterpretedOption,
};
use yaak_grpc::error::Error;
use yaak_grpc::pool::{add_lowered_file, pool_from_descriptor_set, Pool};

fn file(name: &str, message: &str, imports: Vec<&str>) -> FileDescriptorProto {
    FileDescriptorProto {
        name: Some(name.to_string()),
        package: Some("test".to_string()),
        syntax: Some("proto3".to_string()),
        dependency: imports.into_iter().map(String::from).collect(),
        message_type: vec![DescriptorProto {
            name: Some(message.to_string()),
            ..Default::default()
        }],
        ..Default::default()
    }
}

fn set(files: Vec<FileDescriptorProto>) -> Vec<u8> {
    FileDescriptorSet { file: files }.encode_to_vec()
}

#[test]
fn a_file_is_added_with_its_messages() {
    let mut pool = Pool::new();
    let bytes = file("a.proto", "A", vec![]).encode_to_vec();
    assert!(add_lowered_file(&mut pool, &bytes).is_ok());
    assert!(pool.has_file("a.proto"));
    assert!(pool.has_message("test.A"));
}

#[test]
fn a_file_of_a_known_name_is_passed_over() {
    let mut pool = Pool::new();
    assert!(add_lowered_file(&mut pool, &file("a.proto", "A", vec![]).encode_to_vec()).is_ok());
    assert!(add_lowered_file(&mut pool, &file("a.proto", "B", vec![]).encode_to_vec()).is_ok());
    assert!(pool.has_message("test.A"));
    assert!(!pool.has_message("test.B"));
}

#[test]
fn a_file_that_is_not_taken_leaves_the_pool_as_it_is() {
    let mut pool = Pool::new();
    assert!(add_lowered_file(&mut pool, &file("a.proto", "A", vec![]).encode_to_vec()).is_ok());
    // The import is missing.
    let orphan = file("b.proto", "B", vec!["missing.proto"]).encode_to_vec();
    assert!(matches!(add_lowered_file(&mut pool, &orphan), Err(Error::DescriptorError(_))));
    // The message is there already.
    let double = file("c.proto", "A", vec![]).encode_to_vec();
    assert!(matches!(add_lowered_file(&mut pool, &double), Err(Error::DescriptorError(_))));
    assert!(!pool.has_file("b.proto"));
    assert!(!pool.has_file("c.proto"));
    assert!(!pool.has_message("test.B"));
    assert!(pool.has_message("test.A"));
}

#[test]
fn bytes_that_are_no_file_are_refused() {
    let mut pool = Pool::new();
    assert!(matches!(add_lowered_file(&mut pool, &[0xff]), Err(Error::DecodeError(_))));
    assert!(matches!(pool_from_descriptor_set(&[0xff]), Err(Error::DecodeError(_))));
    // No bytes are those of a set without files.
    let pool = pool_from_descriptor_set(&[]).ok().unwrap();
    assert_eq!(pool.descriptors().files().count(), 0);
}

#[test]
fn a_syntax_that_is_not_known_is_refused() {
    let mut unknown = file("a.proto", "A", vec![]);
    unknown.syntax = Some("proto9".to_string());
    let mut pool = Pool::new();
    let bytes = unknown.encode_to_vec();
    assert!(matches!(add_lowered_file(&mut pool, &bytes), Err(Error::Unreadable)));
    assert!(matches!(pool_from_descriptor_set(&set(vec![unknown])), Err(Error::Unreadable)));
    // A file that names no syntax is one of proto2.
    let mut silent = file("a.proto", "A", vec![]);
    silent.syntax = None;
    assert!(pool_from_descriptor_set(&set(vec![silent])).is_ok());
}

/// A file that passes on all that it imports.
fn passing(name: &str, message: &str, imports: Vec<&str>) -> FileDescriptorProto {
    let mut file = file(name, message, imports);
    file.public_dependency = (0..file.dependency.len() as i32).collect();
    file
}

#[test]
fn imports_that_are_passed_on_in_a_circle_are_refused() {
    let mut pool = Pool::new();
    let bytes = passing("a.proto", "A", vec!["a.proto"]).encode_to_vec();
    assert!(matches!(add_lowered_file(&mut pool, &bytes), Err(Error::Unreadable)));

    let a = passing("a.proto", "A", vec!["b.proto"]);
    let b = passing("b.proto", "B", vec!["a.proto"]);
    let both = vec![a.clone(), b];
    assert!(matches!(pool_from_descriptor_set(&set(both)), Err(Error::Unreadable)));
    // An import that is not passed on does no harm.
    let b = file("b.proto", "B", vec!["a.proto"]);
    assert!(pool_from_descriptor_set(&set(vec![a, b])).is_ok());
}

fn circle_of_three() -> Vec<FileDescriptorProto> {
    vec![
        passing("a.proto", "A", vec!["b.proto"]),
        passing("b.proto", "B", vec!["c.proto"]),
        passing("c.proto", "C", vec!["a.proto"]),
    ]
}

#[test]
fn a_circle_is_taken_where_the_search_comes_to_an_end() {
    let pool = pool_from_descriptor_set(&set(circle_of_three())).ok().unwrap();
    assert!(pool.has_message("test.A"));
    assert!(pool.has_message("test.C"));

    // A file that imports two of the three sees the third, and goes around no further.
    let mut pool = pool_from_descriptor_set(&set(circle_of_three())).ok().unwrap();
    let two = file("d.proto", "D", vec!["a.proto", "b.proto"]).encode_to_vec();
    assert!(add_lowered_file(&mut pool, &two).is_ok());
    assert!(pool.has_message("test.D"));

    // One that imports all three would go around without end.
    let three = file("e.proto", "E", vec!["a.proto", "b.proto", "c.proto"]).encode_to_vec();
    assert!(matches!(add_lowered_file(&mut pool, &three), Err(Error::Unreadable)));
    assert!(!pool.has_file("e.proto"));
    let mut files = circle_of_three();
    files.push(file("e.proto", "E", vec!["a.proto", "b.proto", "c.proto"]));
    assert!(matches!(pool_from_descriptor_set(&set(files)), Err(Error::Unreadable)));
}

#[test]
fn a_known_name_counts_before_anything_else() {
    let mut pool = Pool::new();
    assert!(add_lowered_file(&mut pool, &file("a.proto", "A", vec![]).encode_to_vec()).is_ok());
    let mut unknown = file("a.proto", "B", vec![]);
    unknown.syntax = Some("proto9".to_string());
    assert!(add_lowered_file(&mut pool, &unknown.encode_to_vec()).is_ok());
    let narcissus = passing("a.proto", "B", vec!["a.proto"]);
    assert!(add_lowered_file(&mut pool, &narcissus.encode_to_vec()).is_ok());
    let orphan = file("a.proto", "B", vec!["missing.proto"]);
    assert!(add_lowered_file(&mut pool, &orphan.encode_to_vec()).is_ok());
    assert_eq!(pool.descriptors().files().count(), 1);
    assert!(!pool.has_message("test.B"));
}

#[test]
fn a_file_of_a_known_name_must_still_be_decoded() {
    let nested = |name: &str, levels: usize| {
        let mut numbers = field("numbers", 5);
        numbers.set_field_by_name("label", Value::EnumNumber(3));
        let mut inner = message("M", numbers);
        for _ in 2..levels {
            let mut around = new("DescriptorProto");
            around.set_field_by_name("name", text("M"));
            around.set_field_by_name("nested_type", inner);
            inner = Value::List(vec![Value::Message(around)]);
        }
        let mut file = edition_file(name, "test", 1000);
        file.set_field_by_name("message_type", inner);
        file.encode_to_vec()
    };
    let mut pool = Pool::new();
    assert!(add_lowered_file(&mut pool, &file("a.proto", "A", vec![]).encode_to_vec()).is_ok());
    assert!(add_lowered_file(&mut pool, &nested("a.proto", 98)).is_ok());
    // Lowering nests the messages of this one too deeply.
    let refused = add_lowered_file(&mut pool, &nested("a.proto", 100));
    assert!(matches!(refused, Err(Error::DescriptorError(_))));
    let refused = add_lowered_file(&mut pool, &nested("b.proto", 100));
    assert!(matches!(refused, Err(Error::DescriptorError(_))));
    assert!(add_lowered_file(&mut pool, &nested("b.proto", 98)).is_ok());
    assert!(add_lowered_file(&mut pool, &nested("b.proto", 98)).is_ok());
    assert_eq!(pool.descriptors().files().count(), 2);
}

#[test]
fn messages_are_found_by_their_full_names() {
    let mut deep = file("a.proto", "A", vec![]);
    deep.message_type[0].nested_type =
        vec![DescriptorProto { name: Some("Inner".to_string()), ..Default::default() }];
    let mut bare = file("b.proto", "B", vec![]);
    bare.package = None;
    let mut pool = Pool::new();
    assert!(add_lowered_file(&mut pool, &deep.encode_to_vec()).is_ok());
    assert!(add_lowered_file(&mut pool, &bare.encode_to_vec()).is_ok());
    assert!(pool.has_message("test.A.Inner"));
    assert!(pool.has_message(".test.A"));
    assert!(!pool.has_message("..test.A"));
    assert!(pool.has_message("B"));
    assert!(!pool.has_message("test.B"));
    assert!(!pool.has_message("A"));
}

fn number(name: &str, number: i32, ty: Type) -> FieldDescriptorProto {
    let mut field = FieldDescriptorProto {
        name: Some(name.to_string()),
        number: Some(number),
        label: Some(Label::Optional.into()),
        ..Default::default()
    };
    field.set_type(ty);
    field
}

/// A file of `proto2` with one message.
fn around(package: &str, message: DescriptorProto) -> FileDescriptorProto {
    FileDescriptorProto {
        name: Some("a.proto".to_string()),
        package: Some(package.to_string()),
        message_type: vec![message],
        ..Default::default()
    }
}

/// What comes of files, added one after the other and as a set.
fn outcome(files: Vec<FileDescriptorProto>) -> Result<(), Error> {
    let mut pool = Pool::new();
    let mut added = Ok(());
    for file in &files {
        assert!(added.is_ok());
        added = add_lowered_file(&mut pool, &file.encode_to_vec());
    }
    let built = pool_from_descriptor_set(&set(files));
    assert_eq!(added.is_ok(), built.is_ok());
    assert_eq!(matches!(added, Err(Error::Unreadable)), matches!(built, Err(Error::Unreadable)));
    added
}

/// What comes of a file in a pool that has the messages for options.
fn outcome_beside(file: FileDescriptorProto) -> Result<(), Error> {
    outcome(vec![descriptor_proto(), file])
}

fn with_default(default: &str) -> Result<(), Error> {
    let mut field = number("data", 1, Type::Bytes);
    field.default_value = Some(default.to_string());
    let message = DescriptorProto {
        name: Some("A".to_string()),
        field: vec![field],
        ..Default::default()
    };
    outcome(vec![around("test", message)])
}

#[test]
fn defaults_for_bytes_that_cannot_be_read_are_refused() {
    for default in ["", "abc", "\\x41\\n\\377", "é\\\\x", "\\x+f", "\\18"] {
        assert!(with_default(default).is_ok(), "{default}");
    }
    // No escapes at all, or none that end: these are seen by the pool.
    for default in ["\\", "\\q", "\\x", "\\x4", "\\xzz", "\\xé", "\\x-1"] {
        assert!(matches!(with_default(default), Err(Error::DescriptorError(_))), "{default}");
    }
    // What stands behind one that is none is not looked at.
    assert!(matches!(with_default("\\q\\777"), Err(Error::DescriptorError(_))));
    for default in ["\\x1é", "\\777", "\\400", "ok\\x4€", "\\x€", "\\n\\x😀"] {
        assert!(matches!(with_default(default), Err(Error::Unreadable)), "{default}");
    }
}

fn entry(fields: Vec<FieldDescriptorProto>) -> FileDescriptorProto {
    let message = DescriptorProto {
        name: Some("A".to_string()),
        nested_type: vec![DescriptorProto {
            name: Some("FooEntry".to_string()),
            field: fields,
            options: Some(MessageOptions { map_entry: Some(true), ..Default::default() }),
            ..Default::default()
        }],
        ..Default::default()
    };
    around("test", message)
}

/// A file with an option that is of a message, which has a map.
fn with_maps_in_options(fields: Vec<FieldDescriptorProto>) -> FileDescriptorProto {
    let mut file = entry(fields);
    file.dependency = vec!["google/protobuf/descriptor.proto".to_string()];
    let mut map = of_type(number("foo", 1, Type::Message), ".test.A.FooEntry");
    map.label = Some(Label::Repeated.into());
    file.message_type[0].field = vec![map];
    let mut extension = of_type(number("mine", 50000, Type::Message), "A");
    extension.extendee = Some(".google.protobuf.MessageOptions".to_string());
    file.extension = vec![extension];
    file
}

#[test]
fn entries_of_maps_need_a_key_and_a_value_where_options_reach_them() {
    let key = || number("key", 1, Type::String);
    let value = || number("value", 2, Type::Double);
    let float = || number("key", 1, Type::Float);
    assert!(outcome_beside(entry(vec![key(), value()])).is_ok());
    assert!(outcome_beside(with_maps_in_options(vec![key(), value()])).is_ok());
    for fields in [vec![], vec![key()], vec![value()], vec![float(), value()]] {
        // Without a message for options no option is a map.
        assert!(outcome(vec![entry(fields.clone())]).is_ok());
        // Nor is any where no option is of such a map.
        assert!(outcome_beside(entry(fields.clone())).is_ok());
        let reached = with_maps_in_options(fields.clone());
        assert!(matches!(outcome_beside(reached.clone()), Err(Error::Unreadable)));
        // The options of a file do not reach what is an option of messages.
        let mut other = reached;
        other.message_type[0].nested_type[0].options = None;
        assert!(outcome_beside(other).is_ok());
    }
    let mut pool = Pool::new();
    let mut options = with_maps_in_options(vec![]);
    options.message_type[0].nested_type[0].options = None;
    options.options =
        Some(prost_types::FileOptions { deprecated: Some(true), ..Default::default() });
    for file in [descriptor_proto(), options] {
        assert!(add_lowered_file(&mut pool, &file.encode_to_vec()).is_ok());
    }
}

/// The file that declares the messages for options.
fn descriptor_proto() -> FileDescriptorProto {
    let file = DescriptorPool::global().get_file_by_name("google/protobuf/descriptor.proto");
    file.unwrap().file_descriptor_proto().clone()
}

#[test]
fn the_messages_for_options_are_taken_as_they_are() {
    let extension = FieldDescriptorProto {
        extendee: Some(".google.protobuf.MessageOptions".to_string()),
        ..number("my_option", 50000, Type::String)
    };
    // The option `(test.my_option) = "x"`.
    let options = vec![0x82, 0xb5, 0x18, 0x01, b'x'];
    let mut user = DynamicMessage::new(
        DescriptorPool::global().get_message_by_name("google.protobuf.DescriptorProto").unwrap(),
    );
    user.set_field_by_name("name", text("User"));
    let mut bytes = user.encode_to_vec();
    bytes.extend([0x3a, options.len() as u8]);
    bytes.extend(options);
    let mut file = file("my.proto", "A", vec!["google/protobuf/descriptor.proto"]);
    file.syntax = None;
    file.extension = vec![extension];
    let mut encoded = file.encode_to_vec();
    encoded.extend([0x22, bytes.len() as u8]);
    encoded.extend(bytes);

    let mut pool = Pool::new();
    assert!(add_lowered_file(&mut pool, &descriptor_proto().encode_to_vec()).is_ok());
    assert!(add_lowered_file(&mut pool, &encoded).is_ok());
    let user = pool.descriptors().get_message_by_name("test.User").unwrap();
    let extension = pool.descriptors().get_extension_by_name("test.my_option").unwrap();
    assert_eq!(user.options().get_extension(&extension).as_str(), Some("x"));
}

/// What comes of a message for options with one field, without options, with options that it is not
/// for, and with options that it is for.
fn declared(name: &str, field: FieldDescriptorProto) -> Result<(), Error> {
    let message = DescriptorProto {
        name: Some(name.to_string()),
        field: vec![field],
        ..Default::default()
    };
    let mut file = around("google.protobuf", message);
    assert!(outcome(vec![file.clone()]).is_ok());
    let mut other = file.clone();
    let mut this = FieldOptions::default();
    this.deprecated = Some(true);
    file.message_type[0].field[0].options = Some(this);
    other.message_type[0].options =
        Some(MessageOptions { deprecated: Some(true), ..Default::default() });
    if name == "MessageOptions" {
        assert!(outcome(vec![file]).is_ok());
        outcome(vec![other])
    } else {
        assert!(outcome(vec![other]).is_ok());
        outcome(vec![file])
    }
}

#[test]
fn messages_for_options_that_are_declared_otherwise_are_refused_with_such_options() {
    assert!(declared("FieldOptions", number("deprecated", 3, Type::Bool)).is_ok());
    assert!(declared("FieldOptions", number("mine", 99, Type::Bytes)).is_ok());
    let texts = number("deprecated", 3, Type::String);
    assert!(matches!(declared("FieldOptions", texts.clone()), Err(Error::Unreadable)));
    assert!(declared("OtherOptions", texts).is_ok());
    let mut many = number("deprecated", 3, Type::Bool);
    many.label = Some(Label::Repeated.into());
    assert!(matches!(declared("FieldOptions", many), Err(Error::Unreadable)));
    let style = number("ctype", 1, Type::Int32);
    assert!(matches!(declared("FieldOptions", style), Err(Error::Unreadable)));
    let renamed = number("entry_of_map", 7, Type::Bool);
    assert!(matches!(declared("MessageOptions", renamed), Err(Error::Unreadable)));
    let nested = DescriptorProto {
        name: Some("protobuf".to_string()),
        nested_type: vec![DescriptorProto {
            name: Some("FileOptions".to_string()),
            field: vec![number("java_package", 1, Type::Bool)],
            ..Default::default()
        }],
        options: Some(MessageOptions { deprecated: Some(true), ..Default::default() }),
        ..Default::default()
    };
    let mut file = around("google", nested);
    assert!(outcome(vec![file.clone()]).is_ok());
    file.options = Some(prost_types::FileOptions { deprecated: Some(true), ..Default::default() });
    assert!(matches!(outcome(vec![file]), Err(Error::Unreadable)));
}

fn part(name: &str, is_extension: bool) -> NamePart {
    NamePart { name_part: name.to_string(), is_extension }
}

/// A message with a field that has an option which is still to be read.
fn with_option(name: &str, parts: Vec<NamePart>) -> DescriptorProto {
    let option = UninterpretedOption {
        name: parts,
        identifier_value: Some("true".to_string()),
        ..Default::default()
    };
    let mut field = number("data", 1, Type::Int32);
    field.options =
        Some(FieldOptions { uninterpreted_option: vec![option], ..Default::default() });
    DescriptorProto {
        name: Some(name.to_string()),
        field: vec![field],
        ..Default::default()
    }
}

#[test]
fn options_that_are_still_to_be_read_are_read() {
    let file = |parts: Vec<NamePart>| around("test", with_option("A", parts));
    assert!(outcome(vec![file(vec![part("deprecated", false)])]).is_ok());
    assert!(outcome_beside(file(vec![part("deprecated", false)])).is_ok());
    for unknown in [part("unheard_of", false), part("test.unheard_of", true)] {
        let refused = outcome(vec![file(vec![unknown.clone()])]);
        assert!(matches!(refused, Err(Error::DescriptorError(_))));
        let refused = outcome_beside(file(vec![unknown]));
        assert!(matches!(refused, Err(Error::DescriptorError(_))));
    }
    let deep = file((0..101).map(|_| part("features", false)).collect());
    assert!(matches!(outcome(vec![deep.clone()]), Err(Error::DescriptorError(_))));
    assert!(matches!(outcome_beside(deep), Err(Error::Unreadable)));
    // One that says that a message is the entry of a map counts as one that says so.
    let option = UninterpretedOption {
        name: vec![part("map_entry", false)],
        identifier_value: Some("true".to_string()),
        ..Default::default()
    };
    let entry = DescriptorProto {
        name: Some("FooEntry".to_string()),
        options: Some(MessageOptions {
            uninterpreted_option: vec![option],
            ..Default::default()
        }),
        ..Default::default()
    };
    assert!(outcome(vec![around("test", entry.clone())]).is_ok());
    assert!(outcome_beside(around("test", entry.clone())).is_ok());
    let mut reached = with_maps_in_options(vec![]);
    reached.message_type[0].nested_type[0].options = entry.options;
    assert!(matches!(outcome_beside(reached), Err(Error::Unreadable)));
}

/// A field whose type is declared under a name.
fn of_type(field: FieldDescriptorProto, name: &str) -> FieldDescriptorProto {
    let mut named = new("FieldDescriptorProto");
    named.merge(field.encode_to_vec().as_slice()).unwrap();
    named.set_field_by_name("type_name", text(name));
    FieldDescriptorProto::decode(named.encode_to_vec().as_slice()).unwrap()
}

fn range(start: i32, end: i32) -> prost_types::descriptor_proto::ExtensionRange {
    prost_types::descriptor_proto::ExtensionRange {
        start: Some(start),
        end: Some(end),
        options: None,
    }
}

fn option(parts: Vec<NamePart>, value: &str) -> UninterpretedOption {
    UninterpretedOption {
        name: parts,
        identifier_value: Some(value.to_string()),
        positive_int_value: Some(1),
        ..Default::default()
    }
}

#[test]
fn an_extension_can_not_have_the_number_of_a_field() {
    // A field among the numbers that are left to extensions, and an extension of its number.
    let mut field = of_type(number("a", 1000, Type::Enum), ".google.protobuf.E");
    field.extendee = Some("x".to_string());
    let mut file = around(
        "google.protobuf",
        DescriptorProto {
            name: Some("FileOptions".to_string()),
            field: vec![field],
            extension_range: vec![range(1000, 2000)],
            ..Default::default()
        },
    );
    file.enum_type = vec![prost_types::EnumDescriptorProto {
        name: Some("E".to_string()),
        value: vec![prost_types::EnumValueDescriptorProto {
            name: Some("V".to_string()),
            number: Some(0),
            options: None,
        }],
        ..Default::default()
    }];
    let mut extension = number("b", 1000, Type::Int32);
    extension.label = Some(Label::Repeated.into());
    extension.extendee = Some(".google.protobuf.FileOptions".to_string());
    file.extension = vec![extension];
    assert!(outcome(vec![file.clone()]).is_ok());
    let options = |options: Vec<UninterpretedOption>| {
        Some(prost_types::FileOptions { uninterpreted_option: options, ..Default::default() })
    };
    let a = option(vec![part("a", false)], "V");
    let b = option(vec![part("google.protobuf.b", true)], "");
    file.options = options(vec![a.clone()]);
    assert!(outcome(vec![file.clone()]).is_ok());
    file.options = options(vec![a, b.clone()]);
    assert!(matches!(outcome(vec![file.clone()]), Err(Error::Unreadable)));
    file.options = options(vec![b]);
    assert!(matches!(outcome(vec![file]), Err(Error::Unreadable)));
}

#[test]
fn a_message_without_a_name_can_be_extended_without_naming_it() {
    let mut file = around(
        "test",
        DescriptorProto {
            name: Some(String::new()),
            field: vec![number("text", 5, Type::String)],
            ..Default::default()
        },
    );
    file.dependency = vec!["google/protobuf/descriptor.proto".to_string()];
    let mut inner = of_type(number("inner", 50000, Type::Message), ".test.");
    inner.extendee = Some(".google.protobuf.FileOptions".to_string());
    let unnamed = number("unnamed", 5, Type::Int32);
    file.extension = vec![inner, unnamed];
    assert!(outcome_beside(file.clone()).is_ok());
    let parts = vec![part("test.inner", true), part("test.unnamed", true)];
    file.options = Some(prost_types::FileOptions {
        uninterpreted_option: vec![option(parts, "")],
        ..Default::default()
    });
    assert!(matches!(outcome_beside(file), Err(Error::Unreadable)));
}

#[test]
fn options_set_extensions_that_have_numbers_of_their_own() {
    let extending = |name: &str, extension: FieldDescriptorProto| {
        let mut file = file(name, &extension.name().to_uppercase(), vec![
            "google/protobuf/descriptor.proto",
        ]);
        file.syntax = None;
        file.extension = vec![extension];
        file
    };
    let extension = |name: &str, extendee: &str, ty: Type| FieldDescriptorProto {
        extendee: Some(extendee.to_string()),
        ..number(name, 50000, ty)
    };
    let user = |name: &str, message: &str| {
        let mut file = file(name, message, vec!["mine.proto"]);
        file.syntax = None;
        file.message_type = vec![with_option(message, vec![part("mine", true)])];
        file
    };
    let mine =
        extending("mine.proto", extension("mine", ".google.protobuf.FieldOptions", Type::Bool));
    // The same number of other messages, one of which has a name that ends in the same way.
    let other =
        extending("other.proto", extension("other", ".google.protobuf.EnumOptions", Type::String));
    let mut alike =
        extending("alike.proto", extension("alike", ".test.FieldOptions", Type::String));
    alike.message_type.push(DescriptorProto {
        name: Some("FieldOptions".to_string()),
        extension_range: vec![range(50000, 50001)],
        ..Default::default()
    });
    let yours =
        extending("yours.proto", extension("yours", "google.protobuf.FieldOptions", Type::String));

    let mut pool = Pool::new();
    assert!(add_lowered_file(&mut pool, &descriptor_proto().encode_to_vec()).is_ok());
    for file in [&mine, &other, &alike, &user("a.proto", "A")] {
        assert!(add_lowered_file(&mut pool, &file.encode_to_vec()).is_ok());
    }
    let field = pool.descriptors().get_message_by_name("test.A").unwrap().get_field(1).unwrap();
    let extension = pool.descriptors().get_extension_by_name("test.mine").unwrap();
    assert_eq!(field.options().get_extension(&extension).as_bool(), Some(true));

    assert!(add_lowered_file(&mut pool, &yours.encode_to_vec()).is_ok());
    let again = user("b.proto", "B").encode_to_vec();
    assert!(matches!(add_lowered_file(&mut pool, &again), Err(Error::Unreadable)));
    // What is taken back is forgotten, and other files are not touched by it.
    assert!(add_lowered_file(&mut pool, &file("b.proto", "B", vec![]).encode_to_vec()).is_ok());

    let files = vec![descriptor_proto(), mine, other, alike, user("a.proto", "A")];
    assert!(pool_from_descriptor_set(&set(files.clone())).is_ok());
    let files = files.into_iter().chain([yours]).collect();
    assert!(matches!(pool_from_descriptor_set(&set(files)), Err(Error::Unreadable)));
}

#[test]
fn a_failed_addition_leaves_a_pool_that_goes_on() {
    let mut base = file("base.proto", "Base", vec![]);
    base.syntax = None;
    base.message_type[0].extension_range = vec![range(100, 200)];
    let extending = |name: &str, message: &str, imports: Vec<&str>| {
        let mut file = file(name, message, imports);
        file.syntax = None;
        file.extension = vec![FieldDescriptorProto {
            extendee: Some(".test.Base".to_string()),
            ..number(&format!("{message}_extension"), 100, Type::Int32)
        }];
        file.encode_to_vec()
    };
    let mut pool = Pool::new();
    assert!(add_lowered_file(&mut pool, &base.encode_to_vec()).is_ok());
    let orphan = extending("a.proto", "A", vec!["base.proto", "missing.proto"]);
    assert!(matches!(add_lowered_file(&mut pool, &orphan), Err(Error::DescriptorError(_))));
    let base = pool.descriptors().get_message_by_name("test.Base").unwrap();
    assert_eq!(base.extensions().count(), 0);
    assert!(add_lowered_file(&mut pool, &extending("b.proto", "B", vec!["base.proto"])).is_ok());
    let base = pool.descriptors().get_message_by_name("test.Base").unwrap();
    let names: Vec<String> = base.extensions().map(|e| e.full_name().to_string()).collect();
    assert_eq!(names, vec!["test.B_extension"]);
}

#[test]
fn a_set_makes_a_pool_whatever_the_order_of_its_files() {
    let files = vec![file("b.proto", "B", vec!["a.proto"]), file("a.proto", "A", vec![])];
    let pool = pool_from_descriptor_set(&set(files)).ok().unwrap();
    assert_eq!(pool.descriptors().files().count(), 2);
    assert!(pool.has_message("test.A"));
    assert!(pool.has_message("test.B"));

    let orphan = vec![file("b.proto", "B", vec!["missing.proto"])];
    assert!(matches!(pool_from_descriptor_set(&set(orphan)), Err(Error::DescriptorError(_))));
    let twice = vec![file("a.proto", "A", vec![]), file("a.proto", "B", vec![])];
    assert!(matches!(pool_from_descriptor_set(&set(twice)), Err(Error::DescriptorError(_))));
}

fn new(name: &str) -> DynamicMessage {
    let pool = DescriptorPool::global();
    DynamicMessage::new(pool.get_message_by_name(&format!("google.protobuf.{name}")).unwrap())
}

fn text(value: &str) -> Value {
    Value::String(value.to_string())
}

fn edition_file(name: &str, package: &str, edition: i32) -> DynamicMessage {
    let mut file = new("FileDescriptorProto");
    file.set_field_by_name("name", text(name));
    file.set_field_by_name("package", text(package));
    file.set_field_by_name("syntax", text("editions"));
    file.set_field_by_name("edition", Value::EnumNumber(edition));
    file
}

fn message(name: &str, field: DynamicMessage) -> Value {
    let mut message = new("DescriptorProto");
    message.set_field_by_name("name", text(name));
    message.set_field_by_name("field", Value::List(vec![Value::Message(field)]));
    Value::List(vec![Value::Message(message)])
}

fn field(name: &str, ty: i32) -> DynamicMessage {
    let mut field = new("FieldDescriptorProto");
    field.set_field_by_name("name", text(name));
    field.set_field_by_name("number", Value::I32(1));
    field.set_field_by_name("label", Value::EnumNumber(1));
    field.set_field_by_name("type", Value::EnumNumber(ty));
    field
}

/// A file of edition 2023 with a delimited field whose type is in a file of edition 2024.
#[test]
fn builds_a_pool_across_editions() {
    let mut money = edition_file("acme/common/money.proto", "acme.common", 1001);
    money.set_field_by_name("message_type", message("Money", field("units", 3)));

    let mut features = new("FeatureSet");
    features.set_field_by_name("message_encoding", Value::EnumNumber(2));
    let mut options = new("FieldOptions");
    options.set_field_by_name("features", Value::Message(features));
    let mut price = field("price", 11);
    price.set_field_by_name("type_name", text(".acme.common.Money"));
    price.set_field_by_name("options", Value::Message(options));
    let mut buy = new("MethodDescriptorProto");
    buy.set_field_by_name("name", text("Buy"));
    buy.set_field_by_name("input_type", text(".acme.v1.Req"));
    buy.set_field_by_name("output_type", text(".acme.v1.Req"));
    let mut service = new("ServiceDescriptorProto");
    service.set_field_by_name("name", text("Shop"));
    service.set_field_by_name("method", Value::List(vec![Value::Message(buy)]));
    let mut shop = edition_file("acme/v1/shop.proto", "acme.v1", 1000);
    shop.set_field_by_name("dependency", Value::List(vec![text("acme/common/money.proto")]));
    shop.set_field_by_name("message_type", message("Req", price));
    shop.set_field_by_name("service", Value::List(vec![Value::Message(service)]));

    let mut set = new("FileDescriptorSet");
    set.set_field_by_name("file", Value::List(vec![Value::Message(money), Value::Message(shop)]));
    let pool = pool_from_descriptor_set(&set.encode_to_vec()).ok().unwrap().into_descriptors();
    let price = pool.get_message_by_name("acme.v1.Req").unwrap().get_field_by_name("price");
    assert!(price.unwrap().is_group());
    assert!(pool.get_service_by_name("acme.v1.Shop").is_some());
}
