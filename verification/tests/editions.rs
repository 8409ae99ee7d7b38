use prost::Message;
use prost_reflect::{Cardinality, DescriptorPool, DynamicMessage, Kind, ReflectMessage, Value};
use yaak_grpc::editions::{lower_file_descriptor_proto, lower_file_descriptor_set};
use yaak_grpc::error::Error;

fn new(name: &str) -> DynamicMessage {
    let pool = DescriptorPool::global();
    DynamicMessage::new(pool.get_message_by_name(&format!("google.protobuf.{name}")).unwrap())
}

fn text(value: &str) -> Value {
    Value::String(value.to_string())
}

fn list(messages: Vec<DynamicMessage>) -> Value {
    Value::List(messages.into_iter().map(Value::Message).collect())
}

/// Options of the given type that set one feature.
fn options(name: &str, feature: &str, number: i32) -> Value {
    let mut features = new("FeatureSet");
    features.set_field_by_name(feature, Value::EnumNumber(number));
    let mut options = new(name);
    options.set_field_by_name("features", Value::Message(features));
    Value::Message(options)
}

fn field(name: &str, number: i32, label: i32, ty: i32) -> DynamicMessage {
    let mut field = new("FieldDescriptorProto");
    field.set_field_by_name("name", text(name));
    field.set_field_by_name("number", Value::I32(number));
    field.set_field_by_name("label", Value::EnumNumber(label));
    field.set_field_by_name("type", Value::EnumNumber(ty));
    field
}

fn with(mut message: DynamicMessage, name: &str, value: Value) -> DynamicMessage {
    message.set_field_by_name(name, value);
    message
}

fn message(name: &str, fields: Vec<DynamicMessage>) -> DynamicMessage {
    let mut message = new("DescriptorProto");
    message.set_field_by_name("name", text(name));
    message.set_field_by_name("field", list(fields));
    message
}

fn file(name: &str, syntax: &str, messages: Vec<DynamicMessage>) -> DynamicMessage {
    let mut file = new("FileDescriptorProto");
    file.set_field_by_name("name", text(name));
    file.set_field_by_name("package", text("test"));
    file.set_field_by_name("syntax", text(syntax));
    file.set_field_by_name("message_type", list(messages));
    file
}

fn set(files: Vec<DynamicMessage>) -> Vec<u8> {
    with(new("FileDescriptorSet"), "file", list(files)).encode_to_vec()
}

const OPTIONAL: i32 = 1;
const REPEATED: i32 = 3;
const INT32: i32 = 5;
const STRING: i32 = 9;
const MESSAGE: i32 = 11;

/// What the protobuf compiler makes of:
///
/// ```text
/// edition = "2024";
/// package test;
/// option features.field_presence = IMPLICIT;
///
/// message Inner { int32 value = 1; }
/// message Outer {
///   int32 id = 1 [features.field_presence = LEGACY_REQUIRED];
///   repeated int32 packed = 2;
///   repeated int32 expanded = 3 [features.repeated_field_encoding = EXPANDED];
///   Inner delimited = 4 [features.message_encoding = DELIMITED];
///   Inner normal = 5;
///   repeated string names = 6;
/// }
/// service Svc { rpc Call(Outer) returns (Inner); }
/// ```
fn edition_2024() -> DynamicMessage {
    let inner = message("Inner", vec![field("value", 1, OPTIONAL, INT32)]);
    let outer = message(
        "Outer",
        vec![
            with(
                field("id", 1, OPTIONAL, INT32),
                "options",
                options("FieldOptions", "field_presence", 3),
            ),
            field("packed", 2, REPEATED, INT32),
            with(
                field("expanded", 3, REPEATED, INT32),
                "options",
                options("FieldOptions", "repeated_field_encoding", 2),
            ),
            with(
                with(
                    field("delimited", 4, OPTIONAL, MESSAGE),
                    "options",
                    options("FieldOptions", "message_encoding", 2),
                ),
                "type_name",
                text(".test.Inner"),
            ),
            with(field("normal", 5, OPTIONAL, MESSAGE), "type_name", text(".test.Inner")),
            field("names", 6, REPEATED, STRING),
        ],
    );
    let mut method = new("MethodDescriptorProto");
    method.set_field_by_name("name", text("Call"));
    method.set_field_by_name("input_type", text(".test.Outer"));
    method.set_field_by_name("output_type", text(".test.Inner"));
    let mut service = new("ServiceDescriptorProto");
    service.set_field_by_name("name", text("Svc"));
    service.set_field_by_name("method", list(vec![method]));

    let mut file = file("test.proto", "editions", vec![inner, outer]);
    file.set_field_by_name("service", list(vec![service]));
    file.set_field_by_name("options", options("FileOptions", "field_presence", 2));
    file.set_field_by_name("edition", Value::EnumNumber(1001));
    file
}

#[test]
fn lowers_edition_2024_features() {
    let bytes = set(vec![edition_2024()]);

    let lowered = lower_file_descriptor_set(&bytes).ok().unwrap();
    let pool = DescriptorPool::decode(lowered.as_ref()).unwrap();
    let outer = pool.get_message_by_name("test.Outer").unwrap();
    let field = |name: &str| outer.get_field_by_name(name).unwrap();

    assert_eq!(field("id").cardinality(), Cardinality::Required);
    assert!(field("packed").is_packed());
    assert!(!field("expanded").is_packed());
    assert!(field("delimited").is_group());
    assert!(matches!(field("normal").kind(), Kind::Message(_)));
    assert!(!field("normal").is_group());
    assert_eq!(pool.services().count(), 1);

    let json = r#"{"id": 1, "packed": [1, 2], "expanded": [3], "delimited": {"value": 4}, "names": ["a"]}"#;
    let mut de = serde_json::Deserializer::from_str(json);
    let message = DynamicMessage::deserialize(outer.clone(), &mut de).unwrap();
    let decoded = DynamicMessage::decode(outer, message.encode_to_vec().as_slice()).unwrap();
    assert_eq!(decoded, message);
}

#[test]
fn leaves_proto3_untouched() {
    let proto3 = file(
        "test.proto",
        "proto3",
        vec![message("M", vec![field("v", 1, REPEATED, INT32)])],
    );
    let bytes = set(vec![proto3]);
    let lowered = lower_file_descriptor_set(&bytes).ok().unwrap();
    assert_eq!(
        DescriptorPool::decode(lowered.as_ref())
            .unwrap()
            .get_message_by_name("test.M")
            .unwrap()
            .parent_file()
            .syntax(),
        prost_reflect::Syntax::Proto3
    );
    assert_eq!(lowered, bytes);
}

fn lowered(file: &DynamicMessage) -> DynamicMessage {
    let bytes = lower_file_descriptor_proto(&file.encode_to_vec()).ok().unwrap();
    DynamicMessage::decode(file.descriptor(), bytes.as_slice()).unwrap()
}

#[test]
fn lowered_file_is_proto2_without_an_edition() {
    let file = lowered(&edition_2024());
    assert_eq!(file.get_field_by_name("syntax").unwrap().as_str(), Some("proto2"));
    assert!(!file.has_field_by_name("edition"));
    // The options stay, with the features that they set.
    let options = file.get_field_by_name("options").unwrap();
    assert!(options.as_message().unwrap().has_field_by_name("features"));
    assert_eq!(file.get_field_by_name("name").unwrap().as_str(), Some("test.proto"));
}

#[test]
fn lowering_twice_is_lowering_once() {
    let once = lowered(&edition_2024());
    assert_eq!(lowered(&once), once);
}

#[test]
fn a_field_inherits_from_its_oneof_and_messages_from_what_encloses_them() {
    // A oneof whose members are delimited, in a message that is nested in one whose fields are
    // required.
    let mut oneof = new("OneofDescriptorProto");
    oneof.set_field_by_name("name", text("choice"));
    oneof.set_field_by_name("options", options("OneofOptions", "message_encoding", 2));
    let member = with(
        with(field("member", 1, OPTIONAL, MESSAGE), "type_name", text(".test.M")),
        "oneof_index",
        Value::I32(0),
    );
    let outside = with(field("outside", 2, OPTIONAL, MESSAGE), "type_name", text(".test.M"));
    let stray = with(
        with(field("stray", 3, OPTIONAL, MESSAGE), "type_name", text(".test.M")),
        "oneof_index",
        Value::I32(-1),
    );
    let nested = with(
        message("Nested", vec![member, outside, stray]),
        "oneof_decl",
        list(vec![oneof]),
    );
    let outer = with(
        with(message("M", vec![]), "nested_type", list(vec![nested])),
        "options",
        options("MessageOptions", "field_presence", 3),
    );
    let file = lowered(&file("test.proto", "editions", vec![outer]));

    let messages = file.get_field_by_name("message_type").unwrap();
    let nested = messages.as_list().unwrap()[0].as_message().unwrap();
    let nested = nested.get_field_by_name("nested_type").unwrap();
    let fields = nested.as_list().unwrap()[0].as_message().unwrap();
    let fields = fields.get_field_by_name("field").unwrap();
    let numbers: Vec<(Option<i32>, Option<i32>)> = fields
        .as_list()
        .unwrap()
        .iter()
        .map(|f| {
            let f = f.as_message().unwrap();
            (
                f.get_field_by_name("label").unwrap().as_enum_number(),
                f.get_field_by_name("type").unwrap().as_enum_number(),
            )
        })
        .collect();
    assert_eq!(
        numbers,
        vec![(Some(2), Some(10)), (Some(2), Some(11)), (Some(2), Some(11))]
    );
}

#[test]
fn extensions_are_lowered_too() {
    let mut file = file("test.proto", "editions", vec![]);
    let extension = with(field("ext", 100, REPEATED, INT32), "extendee", text(".test.M"));
    file.set_field_by_name("extension", list(vec![extension]));
    let file = lowered(&file);
    let extensions = file.get_field_by_name("extension").unwrap();
    let options = extensions.as_list().unwrap()[0].as_message().unwrap();
    let options = options.get_field_by_name("options").unwrap();
    let packed = options.as_message().unwrap().get_field_by_name("packed").unwrap();
    assert_eq!(packed.as_bool(), Some(true));
}

#[test]
fn bytes_that_are_no_descriptor_are_refused() {
    assert!(matches!(lower_file_descriptor_set(&[0xff]), Err(Error::DecodeError(_))));
    assert!(matches!(lower_file_descriptor_proto(&[0xff]), Err(Error::DecodeError(_))));
}

#[test]
fn unknown_fields_are_kept() {
    // Field 15000 of a proto3 file, which no version of the descriptor knows.
    let mut bytes = file("test.proto", "proto3", vec![]).encode_to_vec();
    bytes.extend_from_slice(&[0xc0, 0xa9, 0x07, 0x2a]);
    assert_eq!(lower_file_descriptor_proto(&bytes).ok().unwrap(), bytes);
}

#[test]
fn lowering_a_set_twice_is_lowering_it_once() {
    let proto3 = file("other.proto", "proto3", vec![]);
    let once = lower_file_descriptor_set(&set(vec![edition_2024(), proto3])).ok().unwrap();
    assert_eq!(lower_file_descriptor_set(&once).ok().unwrap(), once);
    let empty = lower_file_descriptor_set(&[]).ok().unwrap();
    assert_eq!(empty, Vec::<u8>::new());
}

#[test]
fn a_field_without_a_label_is_optional() {
    // The label of a field that names none is the first one.
    let mut bare = new("FieldDescriptorProto");
    bare.set_field_by_name("name", text("bare"));
    bare.set_field_by_name("type", Value::EnumNumber(INT32));
    let lowered = lowered(&file("test.proto", "editions", vec![message("M", vec![bare])]));
    let messages = lowered.get_field_by_name("message_type").unwrap();
    let fields = messages.as_list().unwrap()[0].as_message().unwrap();
    let fields = fields.get_field_by_name("field").unwrap();
    let field = fields.as_list().unwrap()[0].as_message().unwrap();
    assert!(!field.has_field_by_name("label"));
    assert!(!field.has_field_by_name("options"));
}

#[test]
fn a_file_is_lowered_as_in_a_set_of_its_own() {
    let proto3 = file("other.proto", "proto3", vec![]);
    for file in [edition_2024(), proto3] {
        let bytes = lower_file_descriptor_set(&set(vec![file.clone()])).ok().unwrap();
        let set = DynamicMessage::decode(new("FileDescriptorSet").descriptor(), bytes.as_slice());
        let files = set.unwrap().get_field_by_name("file").unwrap().into_owned();
        assert_eq!(files, list(vec![lowered(&file)]));
    }
}

#[test]
fn no_file_of_a_lowered_set_is_under_an_edition() {
    let proto3 = file("other.proto", "proto3", vec![]);
    let bytes = set(vec![edition_2024(), proto3, edition_2024()]);
    let bytes = lower_file_descriptor_set(&bytes).ok().unwrap();
    let set = DynamicMessage::decode(new("FileDescriptorSet").descriptor(), bytes.as_slice());
    let files = set.unwrap().get_field_by_name("file").unwrap().into_owned();
    let syntaxes: Vec<String> = files
        .as_list()
        .unwrap()
        .iter()
        .map(|file| file.as_message().unwrap().get_field_by_name("syntax").unwrap().into_owned())
        .map(|syntax| syntax.as_str().unwrap().to_string())
        .collect();
    assert_eq!(syntaxes, vec!["proto2", "proto3", "proto2"]);
}

/// A file under an edition whose messages are nested `levels` deep, with a field in the innermost
/// that lowering gives options to.
fn nested(levels: usize) -> DynamicMessage {
    let numbers = field("numbers", 1, REPEATED, INT32);
    let mut inner = message("M", vec![numbers]);
    for _ in 2..levels {
        inner = with(message("M", vec![]), "nested_type", list(vec![inner]));
    }
    file("test.proto", "editions", vec![inner])
}

#[test]
fn the_outcome_can_be_decoded_unless_it_is_nested_too_deeply() {
    let bytes = nested(99).encode_to_vec();
    let once = lower_file_descriptor_proto(&bytes).ok().unwrap();
    assert_eq!(lower_file_descriptor_proto(&once).ok().unwrap(), once);
    // The options are the innermost messages now, one too many.
    let bytes = nested(100).encode_to_vec();
    let once = lower_file_descriptor_proto(&bytes).ok().unwrap();
    assert!(matches!(lower_file_descriptor_proto(&once), Err(Error::DecodeError(_))));
    let bytes = nested(101).encode_to_vec();
    assert!(matches!(lower_file_descriptor_proto(&bytes), Err(Error::DecodeError(_))));
}
