//! Messages of `google/protobuf/descriptor.proto` as `prost_reflect` holds them: each is reached
//! by the names of its fields.

use crate::imports::name_in;
use crate::pool::{file_header, HeaderModel};
use crate::reading::texts_in;
use prost::Message;
use prost_reflect::{DescriptorPool, DynamicMessage, MessageDescriptor, Value};
use std::borrow::Cow;
use vstd::prelude::*;

verus! {

/// A message whose type is known at run time only.
#[verifier::external_type_specification]
#[verifier::external_body]
pub struct ExDynamicMessage(DynamicMessage);

/// The value of a field of such a message.
#[verifier::external_type_specification]
#[verifier::external_body]
pub struct ExValue(Value);

/// The type of such a message.
#[verifier::external_type_specification]
#[verifier::external_body]
pub struct ExMessageDescriptor(MessageDescriptor);

/// Why bytes are not those of a message.
#[verifier::external_type_specification]
#[verifier::external_body]
pub struct ExDecodeError(prost::DecodeError);

/// The messages of `descriptor.proto` that hold something which the library reads.
#[derive(Clone, Copy, Debug, PartialEq, Eq, Structural)]
pub enum Schema {
    FileSet,
    File,
    Message,
    Field,
    Oneof,
    FileOptions,
    MessageOptions,
    FieldOptions,
    OneofOptions,
    Features,
    Enumeration,
    EnumValue,
    Service,
    Method,
    ExtensionRange,
    EnumOptions,
    EnumValueOptions,
    ServiceOptions,
    MethodOptions,
    ExtensionRangeOptions,
    UninterpretedOption,
    NamePart,
    /// Any other message.
    Other,
}

/// What the field of a message holds.
pub enum Kind {
    /// The number of a value of an enum, which is the given one where the field is not set.
    Enum(i32),
    Int,
    Text,
    Flag,
    Message(Schema),
    /// Any number of messages.
    Messages(Schema),
    /// Any number of texts.
    Texts,
    /// Any number of integers.
    Ints,
}

/// What the library sees of a message.
#[verifier::ext_equal]
pub struct Contents {
    pub schema: Schema,
    /// The fields that are set, among those that [`kind_of`] knows.
    pub fields: Map<Seq<char>, Item>,
    /// The encoding of all that is set beside them.
    pub rest: Seq<u8>,
    /// How many messages and groups are nested in one another, at most, in what is set beside them.
    pub depth: nat,
    /// Whether, at any depth in what is set beside them, there is something that `descriptor.proto`
    /// has no field for.
    pub foreign: bool,
}

/// What the library sees of a value.
#[verifier::ext_equal]
pub enum Item {
    /// The number of a value of an enum.
    Number(i32),
    Integer(i32),
    Text(Seq<char>),
    Flag(bool),
    Message(Contents),
    List(Seq<Item>),
    /// Any other value.
    Other,
}

/// What a field of `descriptor.proto` holds, for those fields that the library reads.
pub open spec fn kind_of(schema: Schema, name: Seq<char>) -> Option<Kind> {
    match schema {
        Schema::FileSet => if name == "file"@ {
            Some(Kind::Messages(Schema::File))
        } else {
            None
        },
        Schema::File => if name == "message_type"@ {
            Some(Kind::Messages(Schema::Message))
        } else if name == "extension"@ {
            Some(Kind::Messages(Schema::Field))
        } else if name == "options"@ {
            Some(Kind::Message(Schema::FileOptions))
        } else if name == "name"@ || name == "syntax"@ {
            Some(Kind::Text)
        } else if name == "edition"@ {
            Some(Kind::Enum(0))
        } else if name == "package"@ {
            Some(Kind::Text)
        } else if name == "dependency"@ {
            Some(Kind::Texts)
        } else if name == "public_dependency"@ {
            Some(Kind::Ints)
        } else if name == "enum_type"@ {
            Some(Kind::Messages(Schema::Enumeration))
        } else if name == "service"@ {
            Some(Kind::Messages(Schema::Service))
        } else {
            None
        },
        Schema::Message => if name == "field"@ {
            Some(Kind::Messages(Schema::Field))
        } else if name == "extension"@ {
            Some(Kind::Messages(Schema::Field))
        } else if name == "nested_type"@ {
            Some(Kind::Messages(Schema::Message))
        } else if name == "oneof_decl"@ {
            Some(Kind::Messages(Schema::Oneof))
        } else if name == "options"@ {
            Some(Kind::Message(Schema::MessageOptions))
        } else if name == "name"@ {
            Some(Kind::Text)
        } else if name == "enum_type"@ {
            Some(Kind::Messages(Schema::Enumeration))
        } else if name == "extension_range"@ {
            Some(Kind::Messages(Schema::ExtensionRange))
        } else {
            None
        },
        Schema::Field => if name == "label"@ {
            Some(Kind::Enum(1))
        } else if name == "type"@ {
            Some(Kind::Enum(1))
        } else if name == "oneof_index"@ {
            Some(Kind::Int)
        } else if name == "options"@ {
            Some(Kind::Message(Schema::FieldOptions))
        } else if name == "name"@ || name == "type_name"@ || name == "default_value"@ || name
            == "extendee"@ {
            Some(Kind::Text)
        } else if name == "number"@ {
            Some(Kind::Int)
        } else {
            None
        },
        Schema::Oneof => if name == "options"@ {
            Some(Kind::Message(Schema::OneofOptions))
        } else {
            None
        },
        Schema::FieldOptions => if name == "packed"@ {
            Some(Kind::Flag)
        } else if name == "features"@ {
            Some(Kind::Message(Schema::Features))
        } else if name == "uninterpreted_option"@ {
            Some(Kind::Messages(Schema::UninterpretedOption))
        } else {
            None
        },
        Schema::MessageOptions => if name == "features"@ {
            Some(Kind::Message(Schema::Features))
        } else if name == "map_entry"@ {
            Some(Kind::Flag)
        } else if name == "uninterpreted_option"@ {
            Some(Kind::Messages(Schema::UninterpretedOption))
        } else {
            None
        },
        Schema::FileOptions | Schema::OneofOptions => if name == "features"@ {
            Some(Kind::Message(Schema::Features))
        } else if name == "uninterpreted_option"@ {
            Some(Kind::Messages(Schema::UninterpretedOption))
        } else {
            None
        },
        Schema::Features => if name == "field_presence"@ || name == "repeated_field_encoding"@
            || name == "message_encoding"@ {
            Some(Kind::Enum(0))
        } else {
            None
        },
        Schema::Enumeration => if name == "name"@ {
            Some(Kind::Text)
        } else if name == "value"@ {
            Some(Kind::Messages(Schema::EnumValue))
        } else if name == "options"@ {
            Some(Kind::Message(Schema::EnumOptions))
        } else {
            None
        },
        Schema::EnumValue => if name == "options"@ {
            Some(Kind::Message(Schema::EnumValueOptions))
        } else {
            None
        },
        Schema::Service => if name == "method"@ {
            Some(Kind::Messages(Schema::Method))
        } else if name == "options"@ {
            Some(Kind::Message(Schema::ServiceOptions))
        } else {
            None
        },
        Schema::Method => if name == "options"@ {
            Some(Kind::Message(Schema::MethodOptions))
        } else {
            None
        },
        Schema::ExtensionRange => if name == "start"@ {
            Some(Kind::Int)
        } else if name == "options"@ {
            Some(Kind::Message(Schema::ExtensionRangeOptions))
        } else {
            None
        },
        Schema::EnumOptions
        | Schema::EnumValueOptions
        | Schema::ServiceOptions
        | Schema::MethodOptions
        | Schema::ExtensionRangeOptions => if name == "uninterpreted_option"@ {
            Some(Kind::Messages(Schema::UninterpretedOption))
        } else {
            None
        },
        Schema::UninterpretedOption => if name == "name"@ {
            Some(Kind::Messages(Schema::NamePart))
        } else {
            None
        },
        Schema::NamePart => if name == "name_part"@ {
            Some(Kind::Text)
        } else if name == "is_extension"@ {
            Some(Kind::Flag)
        } else {
            None
        },
        Schema::Other => None,
    }
}

/// Whether a field is one for any number of values.
pub open spec fn is_repeated(kind: Option<Kind>) -> bool {
    match kind {
        Some(Kind::Messages(_)) | Some(Kind::Texts) | Some(Kind::Ints) => true,
        _ => false,
    }
}

/// A message of which nothing is set.
pub open spec fn blank(schema: Schema) -> Contents {
    Contents { schema, fields: Map::empty(), rest: Seq::empty(), depth: 0, foreign: false }
}

/// What a field gives where it is not set.
pub open spec fn default_item(kind: Kind) -> Item {
    match kind {
        Kind::Enum(number) => Item::Number(number),
        Kind::Int => Item::Integer(0),
        Kind::Text => Item::Text(Seq::empty()),
        Kind::Flag => Item::Flag(false),
        Kind::Message(schema) => Item::Message(blank(schema)),
        Kind::Messages(_) | Kind::Texts | Kind::Ints => Item::List(Seq::empty()),
    }
}

impl Contents {
    /// Whether a field is set.
    pub open spec fn has(self, name: Seq<char>) -> bool {
        self.fields.contains_key(name)
    }

    /// What a field gives.
    pub open spec fn get(self, name: Seq<char>) -> Item {
        if self.has(name) {
            self.fields[name]
        } else {
            match kind_of(self.schema, name) {
                Some(kind) => default_item(kind),
                None => Item::Other,
            }
        }
    }

    /// The message with a field set. A field for any number of values that is given none is the
    /// same as one that is not set.
    pub open spec fn with(self, name: Seq<char>, item: Item) -> Contents {
        if is_repeated(kind_of(self.schema, name)) && item == Item::List(Seq::empty()) {
            self.without(name)
        } else {
            Contents { fields: self.fields.insert(name, item), ..self }
        }
    }

    /// The message with a field not set.
    pub open spec fn without(self, name: Seq<char>) -> Contents {
        Contents { fields: self.fields.remove(name), ..self }
    }

    /// Whether all that is set, at any depth, is of the kind that its field has.
    pub open spec fn typed(self) -> bool
        decreases self,
    {
        &&& self.schema != Schema::Other
        &&& forall|name: Seq<char>| #[trigger]
            self.fields.contains_key(name) ==> self.fields[name] != Item::List(Seq::empty())
                && self.fields[name].is_of(kind_of(self.schema, name))
    }

    /// Whether no more messages and groups than `levels` are nested in one another in a message.
    pub open spec fn within(self, levels: nat) -> bool
        decreases self,
    {
        &&& self.depth <= levels
        &&& forall|name: Seq<char>| #[trigger]
            self.fields.contains_key(name) ==> self.fields[name].within(levels)
    }
}

/// How many messages and groups can be nested in one another in a message that is decoded.
pub const LEVELS: usize = 100;

impl Item {
    /// Whether a value is of the kind of a field, and typed where it is a message.
    pub open spec fn is_of(self, kind: Option<Kind>) -> bool
        decreases self,
    {
        match (kind, self) {
            (Some(Kind::Enum(_)), Item::Number(_)) => true,
            (Some(Kind::Int), Item::Integer(_)) => true,
            (Some(Kind::Text), Item::Text(_)) => true,
            (Some(Kind::Flag), Item::Flag(_)) => true,
            (Some(Kind::Message(schema)), Item::Message(message)) => message.schema == schema
                && message.typed(),
            (Some(Kind::Messages(schema)), Item::List(list)) => forall|i: int|
                0 <= i < list.len() ==> match #[trigger] list[i] {
                    Item::Message(message) => message.schema == schema && message.typed(),
                    _ => false,
                },
            (Some(Kind::Texts), Item::List(list)) => forall|i: int|
                0 <= i < list.len() ==> (#[trigger] list[i]) is Text,
            (Some(Kind::Ints), Item::List(list)) => forall|i: int|
                0 <= i < list.len() ==> (#[trigger] list[i]) is Integer,
            _ => false,
        }
    }

    /// Whether no more messages and groups than `levels` are nested in one another in a value.
    pub open spec fn within(self, levels: nat) -> bool
        decreases self,
    {
        match self {
            Item::Message(message) => levels > 0 && message.within((levels - 1) as nat),
            Item::List(list) => forall|i: int|
                0 <= i < list.len() ==> match #[trigger] list[i] {
                    Item::Message(message) => levels > 0 && message.within((levels - 1) as nat),
                    _ => true,
                },
            _ => true,
        }
    }
}

/// No two fields of a message have the same name.
pub proof fn lemma_names_differ()
    ensures
        "name"@ != "message_type"@,
        "name"@ != "extension"@,
        "name"@ != "options"@,
        "name"@ != "syntax"@,
        "name"@ != "edition"@,
        "message_type"@ != "extension"@,
        "message_type"@ != "options"@,
        "message_type"@ != "syntax"@,
        "message_type"@ != "edition"@,
        "extension"@ != "options"@,
        "extension"@ != "syntax"@,
        "extension"@ != "edition"@,
        "options"@ != "syntax"@,
        "options"@ != "edition"@,
        "syntax"@ != "edition"@,
        "field"@ != "extension"@,
        "field"@ != "nested_type"@,
        "field"@ != "oneof_decl"@,
        "field"@ != "options"@,
        "extension"@ != "nested_type"@,
        "extension"@ != "oneof_decl"@,
        "nested_type"@ != "oneof_decl"@,
        "nested_type"@ != "options"@,
        "oneof_decl"@ != "options"@,
        "label"@ != "type"@,
        "label"@ != "oneof_index"@,
        "label"@ != "options"@,
        "type"@ != "oneof_index"@,
        "type"@ != "options"@,
        "oneof_index"@ != "options"@,
        "packed"@ != "features"@,
        "field_presence"@ != "repeated_field_encoding"@,
        "field_presence"@ != "message_encoding"@,
        "repeated_field_encoding"@ != "message_encoding"@,
{
    reveal_strlit("name");
    assert("name"@.len() == 4);
    reveal_strlit("message_type");
    assert("message_type"@.len() == 12);
    reveal_strlit("extension");
    assert("extension"@.len() == 9);
    reveal_strlit("options");
    assert("options"@.len() == 7);
    reveal_strlit("syntax");
    assert("syntax"@.len() == 6);
    reveal_strlit("edition");
    assert("edition"@.len() == 7);
    reveal_strlit("field");
    assert("field"@.len() == 5);
    reveal_strlit("nested_type");
    assert("nested_type"@.len() == 11);
    reveal_strlit("oneof_decl");
    assert("oneof_decl"@.len() == 10);
    reveal_strlit("label");
    assert("label"@.len() == 5);
    reveal_strlit("type");
    assert("type"@.len() == 4);
    reveal_strlit("oneof_index");
    assert("oneof_index"@.len() == 11);
    reveal_strlit("packed");
    assert("packed"@.len() == 6);
    reveal_strlit("features");
    assert("features"@.len() == 8);
    reveal_strlit("field_presence");
    assert("field_presence"@.len() == 14);
    reveal_strlit("repeated_field_encoding");
    assert("repeated_field_encoding"@.len() == 23);
    reveal_strlit("message_encoding");
    assert("message_encoding"@.len() == 16);
    assert("options"@[0] != "edition"@[0]);
}

/// What the fields hold that only the building of a pool depends on.
pub proof fn lemma_kinds()
    ensures
        kind_of(Schema::File, "package"@) == Some(Kind::Text),
        kind_of(Schema::File, "dependency"@) == Some(Kind::Texts),
        kind_of(Schema::File, "public_dependency"@) == Some(Kind::Ints),
        kind_of(Schema::File, "enum_type"@) == Some(Kind::Messages(Schema::Enumeration)),
        kind_of(Schema::File, "service"@) == Some(Kind::Messages(Schema::Service)),
        kind_of(Schema::Message, "name"@) == Some(Kind::Text),
        kind_of(Schema::Message, "enum_type"@) == Some(Kind::Messages(Schema::Enumeration)),
        kind_of(Schema::Message, "extension_range"@) == Some(
            Kind::Messages(Schema::ExtensionRange),
        ),
        kind_of(Schema::Field, "name"@) == Some(Kind::Text),
        kind_of(Schema::Field, "type_name"@) == Some(Kind::Text),
        kind_of(Schema::Field, "default_value"@) == Some(Kind::Text),
        kind_of(Schema::Field, "extendee"@) == Some(Kind::Text),
        kind_of(Schema::Field, "number"@) == Some(Kind::Int),
        kind_of(Schema::Enumeration, "value"@) == Some(Kind::Messages(Schema::EnumValue)),
        kind_of(Schema::Enumeration, "options"@) == Some(Kind::Message(Schema::EnumOptions)),
        kind_of(Schema::Service, "options"@) == Some(Kind::Message(Schema::ServiceOptions)),
        kind_of(Schema::ExtensionRange, "options"@) == Some(
            Kind::Message(Schema::ExtensionRangeOptions),
        ),
        kind_of(Schema::FieldOptions, "uninterpreted_option"@) == Some(
            Kind::Messages(Schema::UninterpretedOption),
        ),
        kind_of(Schema::MessageOptions, "uninterpreted_option"@) == Some(
            Kind::Messages(Schema::UninterpretedOption),
        ),
        kind_of(Schema::FileOptions, "uninterpreted_option"@) == Some(
            Kind::Messages(Schema::UninterpretedOption),
        ),
        kind_of(Schema::OneofOptions, "uninterpreted_option"@) == Some(
            Kind::Messages(Schema::UninterpretedOption),
        ),
        kind_of(Schema::MessageOptions, "map_entry"@) == Some(Kind::Flag),
        kind_of(Schema::NamePart, "is_extension"@) == Some(Kind::Flag),
        "package"@ != "message_type"@,
        "package"@ != "extension"@,
        "package"@ != "syntax"@,
        "package"@ != "edition"@,
        "dependency"@ != "message_type"@,
        "dependency"@ != "extension"@,
        "dependency"@ != "syntax"@,
        "dependency"@ != "edition"@,
        "public_dependency"@ != "message_type"@,
        "public_dependency"@ != "extension"@,
        "public_dependency"@ != "syntax"@,
        "public_dependency"@ != "edition"@,
        "enum_type"@ != "message_type"@,
        "enum_type"@ != "extension"@,
        "enum_type"@ != "syntax"@,
        "enum_type"@ != "edition"@,
        "service"@ != "message_type"@,
        "service"@ != "extension"@,
        "service"@ != "syntax"@,
        "service"@ != "edition"@,
{
    lemma_names_differ();
    reveal_strlit("default_value");
    assert("default_value"@.len() == 13);
    reveal_strlit("dependency");
    assert("dependency"@.len() == 10);
    reveal_strlit("edition");
    assert("edition"@.len() == 7);
    reveal_strlit("enum_type");
    assert("enum_type"@.len() == 9);
    reveal_strlit("extendee");
    assert("extendee"@.len() == 8);
    reveal_strlit("extension");
    assert("extension"@.len() == 9);
    reveal_strlit("extension_range");
    assert("extension_range"@.len() == 15);
    reveal_strlit("features");
    assert("features"@.len() == 8);
    reveal_strlit("field");
    assert("field"@.len() == 5);
    reveal_strlit("is_extension");
    assert("is_extension"@.len() == 12);
    reveal_strlit("label");
    assert("label"@.len() == 5);
    reveal_strlit("map_entry");
    assert("map_entry"@.len() == 9);
    reveal_strlit("message_type");
    assert("message_type"@.len() == 12);
    reveal_strlit("method");
    assert("method"@.len() == 6);
    reveal_strlit("name");
    assert("name"@.len() == 4);
    reveal_strlit("name_part");
    assert("name_part"@.len() == 9);
    reveal_strlit("nested_type");
    assert("nested_type"@.len() == 11);
    reveal_strlit("number");
    assert("number"@.len() == 6);
    reveal_strlit("oneof_decl");
    assert("oneof_decl"@.len() == 10);
    reveal_strlit("oneof_index");
    assert("oneof_index"@.len() == 11);
    reveal_strlit("options");
    assert("options"@.len() == 7);
    reveal_strlit("package");
    assert("package"@.len() == 7);
    reveal_strlit("packed");
    assert("packed"@.len() == 6);
    reveal_strlit("public_dependency");
    assert("public_dependency"@.len() == 17);
    reveal_strlit("service");
    assert("service"@.len() == 7);
    reveal_strlit("start");
    assert("start"@.len() == 5);
    reveal_strlit("syntax");
    assert("syntax"@.len() == 6);
    reveal_strlit("type");
    assert("type"@.len() == 4);
    reveal_strlit("type_name");
    assert("type_name"@.len() == 9);
    reveal_strlit("uninterpreted_option");
    assert("uninterpreted_option"@.len() == 20);
    reveal_strlit("value");
    assert("value"@.len() == 5);
    assert("edition"@[0] != "package"@[0]);
    assert("edition"@[0] != "service"@[0]);
    assert("extension"@[1] != "enum_type"@[1]);
    assert("options"@[0] != "edition"@[0]);
    assert("options"@[0] != "package"@[0]);
    assert("options"@[0] != "service"@[0]);
    assert("package"@[0] != "service"@[0]);
    assert("type"@[0] != "name"@[0]);
}

/// What the library sees of a message as `prost_reflect` holds it.
///
/// The schema is the message of `descriptor.proto` that it is. It is `Other` where it is another
/// message, where a field beside those that [`kind_of`] knows holds a value of another type than
/// the field's, and where an extension is set.
pub uninterp spec fn contents(message: DynamicMessage) -> Contents;

/// What the library sees of a value as `prost_reflect` holds it.
pub uninterp spec fn value_item(value: Value) -> Item;

/// The message of `descriptor.proto` that a descriptor describes.
pub uninterp spec fn described(descriptor: MessageDescriptor) -> Schema;

/// The message that `DynamicMessage::decode` reads from bytes, if it reads one.
pub uninterp spec fn decoded(schema: Schema, bytes: Seq<u8>) -> Option<Contents>;

/// The bytes that `Message::encode_to_vec` writes for a message.
pub uninterp spec fn encoded(message: Contents) -> Seq<u8>;

/// What the library sees of a list of values.
pub open spec fn items(values: Seq<Value>) -> Seq<Item> {
    Seq::new(values.len(), |i: int| value_item(values[i]))
}

/// A value of one of the types that lowering sets a field to.
pub enum Scalar {
    Number(i32),
    Text(String),
    Flag(bool),
}

impl Scalar {
    pub open spec fn item(self) -> Item {
        match self {
            Scalar::Number(number) => Item::Number(number),
            Scalar::Text(text) => Item::Text(text@),
            Scalar::Flag(flag) => Item::Flag(flag),
        }
    }
}

/// Whether the header of an encoded file, if it has one, says of the name and the imports what the
/// message says.
pub open spec fn header_agrees(message: Contents, header: Option<HeaderModel>) -> bool {
    match header {
        Some(header) => message.schema == Schema::File ==> header.name == name_in(message)
            && header.dependencies == texts_in(message, "dependency"@),
        None => true,
    }
}

/// The descriptor of a message of `descriptor.proto`, out of the copy of that file which
/// `prost_reflect` carries in `DescriptorPool::global`.
///
/// The file is added to a pool of its own: what else the global pool holds has no bearing on the
/// descriptor. Later editions of `descriptor.proto` have fields that this copy has not, such as
/// field 15 of a file, for imports that only options need. What stands under their numbers is kept
/// as it is, and is not looked at: it may be of another type than that of the field.
#[verifier::external_body]
pub(crate) fn descriptor_of(name: &str) -> (r: MessageDescriptor)
    requires
        name@ == "FileDescriptorSet"@ || name@ == "FileDescriptorProto"@,
    ensures
        name@ == "FileDescriptorSet"@ ==> described(r) == Schema::FileSet,
        name@ == "FileDescriptorProto"@ ==> described(r) == Schema::File,
{
    let global = DescriptorPool::global();
    let file = global.get_file_by_name("google/protobuf/descriptor.proto").unwrap();
    let mut pool = DescriptorPool::new();
    pool.add_file_descriptor_proto(file.file_descriptor_proto().clone()).unwrap();
    pool.get_message_by_name(&format!("google.protobuf.{name}")).unwrap()
}

/// Calls `DynamicMessage::decode`. What it reads depends on the descriptor and the bytes alone, and
/// every value that it stores is of the type of its field. No more than [`LEVELS`] messages and
/// groups are nested in one another in what it reads. Of no bytes it reads a message of which
/// nothing is set. The name and the imports of a file are those that `FileDescriptorProto::decode`
/// reads from the same bytes, if it reads one.
#[verifier::external_body]
pub(crate) fn decode(descriptor: MessageDescriptor, bytes: &[u8]) -> (r: Result<
    DynamicMessage,
    prost::DecodeError,
>)
    requires
        described(descriptor) != Schema::Other,
    ensures
        match r {
            Ok(message) => decoded(described(descriptor), bytes@) == Some(contents(message))
                && contents(message).schema == described(descriptor) && contents(message).typed()
                && contents(message).within(LEVELS as nat) && header_agrees(
                contents(message),
                file_header(bytes@),
            ),
            Err(_) => decoded(described(descriptor), bytes@) is None,
        },
        bytes@.len() == 0 ==> r is Ok && contents(r->Ok_0) == blank(described(descriptor)),
{
    DynamicMessage::decode(descriptor, bytes)
}

/// Calls `Message::encode_to_vec`. The bytes depend on what the message holds alone; they cannot be
/// made of a value that is not of the type of its field. `DynamicMessage::decode` reads the same
/// message from them, unless more than [`LEVELS`] messages and groups are nested in one another:
/// then it may read none. The name and the imports of a file are those that
/// `FileDescriptorProto::decode` reads from the bytes, if it reads one.
#[verifier::external_body]
pub(crate) fn encode(message: &DynamicMessage) -> (r: Vec<u8>)
    requires
        contents(*message).typed(),
    ensures
        r@ == encoded(contents(*message)),
        match decoded(contents(*message).schema, r@) {
            Some(again) => again == contents(*message),
            None => !contents(*message).within(LEVELS as nat),
        },
        header_agrees(contents(*message), file_header(r@)),
{
    message.encode_to_vec()
}

/// `DynamicMessage::has_field_by_name` says whether a field is set. One for any number of values is
/// set where there is at least one.
pub assume_specification[ DynamicMessage::has_field_by_name ](
    message: &DynamicMessage,
    name: &str,
) -> (r: bool)
    requires
        kind_of(contents(*message).schema, name@) is Some,
    ensures
        r == contents(*message).has(name@),
;

/// Calls `DynamicMessage::get_field_by_name`, which gives the value of a field, or the default of
/// its type where it is not set.
#[verifier::external_body]
pub(crate) fn get_field(message: &DynamicMessage, name: &str) -> (r: Value)
    requires
        kind_of(contents(*message).schema, name@) is Some,
    ensures
        value_item(r) == contents(*message).get(name@),
{
    message.get_field_by_name(name).map(Cow::into_owned).unwrap()
}

/// `DynamicMessage::get_field_by_name_mut` lends the value of a field, which is set to the default
/// of its type first where it is not set. What is done to the value is done to the field.
pub assume_specification<'a>[ DynamicMessage::get_field_by_name_mut ](
    message: &'a mut DynamicMessage,
    name: &str,
) -> (r: Option<&'a mut Value>)
    requires
        kind_of(contents(*old(message)).schema, name@) is Some,
    ensures
        match r {
            Some(value) => value_item(*value) == contents(*old(message)).get(name@) && contents(
                *final(message),
            ) == contents(*old(message)).with(name@, value_item(*final(value))),
            None => false,
        },
;

/// Calls `DynamicMessage::set_field_by_name` with a value of the field's type.
#[verifier::external_body]
pub(crate) fn set_field(message: &mut DynamicMessage, name: &str, value: Scalar)
    requires
        value.item().is_of(kind_of(contents(*old(message)).schema, name@)),
    ensures
        contents(*final(message)) == contents(*old(message)).with(name@, value.item()),
{
    let value = match value {
        Scalar::Number(number) => Value::EnumNumber(number),
        Scalar::Text(text) => Value::String(text),
        Scalar::Flag(flag) => Value::Bool(flag),
    };
    message.set_field_by_name(name, value);
}

/// `DynamicMessage::clear_field_by_name` leaves a field not set.
pub assume_specification[ DynamicMessage::clear_field_by_name ](
    message: &mut DynamicMessage,
    name: &str,
)
    requires
        kind_of(contents(*old(message)).schema, name@) is Some,
    ensures
        contents(*final(message)) == contents(*old(message)).without(name@),
;

/// `Value::as_enum_number` gives the number of a value of an enum.
pub assume_specification[ Value::as_enum_number ](value: &Value) -> (r: Option<i32>)
    ensures
        match r {
            Some(number) => value_item(*value) == Item::Number(number),
            None => !(value_item(*value) is Number),
        },
;

/// `Value::as_i32` gives a signed integer of 32 bits.
pub assume_specification[ Value::as_i32 ](value: &Value) -> (r: Option<i32>)
    ensures
        match r {
            Some(number) => value_item(*value) == Item::Integer(number),
            None => !(value_item(*value) is Integer),
        },
;

/// `Value::as_bool` gives a flag.
pub assume_specification[ Value::as_bool ](value: &Value) -> (r: Option<bool>)
    ensures
        match r {
            Some(flag) => value_item(*value) == Item::Flag(flag),
            None => !(value_item(*value) is Flag),
        },
;

/// `Value::as_str` lends a text.
pub assume_specification<'a>[ Value::as_str ](value: &'a Value) -> (r: Option<&'a str>)
    ensures
        match r {
            Some(text) => value_item(*value) == Item::Text(text@),
            None => !(value_item(*value) is Text),
        },
;

/// `Value::as_message` lends a message.
pub assume_specification<'a>[ Value::as_message ](value: &'a Value) -> (r: Option<
    &'a DynamicMessage,
>)
    ensures
        match r {
            Some(message) => value_item(*value) == Item::Message(contents(*message)),
            None => !(value_item(*value) is Message),
        },
;

/// `Value::as_message_mut` lends a message. What is done to it is done to the value.
pub assume_specification<'a>[ Value::as_message_mut ](value: &'a mut Value) -> (r: Option<
    &'a mut DynamicMessage,
>)
    ensures
        match r {
            Some(message) => value_item(*old(value)) == Item::Message(contents(*message))
                && value_item(*final(value)) == Item::Message(contents(*final(message))),
            None => !(value_item(*old(value)) is Message) && *final(value) == *old(value),
        },
;

/// `Value::as_list` lends a list.
pub assume_specification<'a>[ Value::as_list ](value: &'a Value) -> (r: Option<&'a [Value]>)
    ensures
        match r {
            Some(list) => value_item(*value) == Item::List(items(list@)),
            None => !(value_item(*value) is List),
        },
;

/// `Value::as_list_mut` lends a list. What is done to it is done to the value.
pub assume_specification<'a>[ Value::as_list_mut ](value: &'a mut Value) -> (r: Option<
    &'a mut Vec<Value>,
>)
    ensures
        match r {
            Some(list) => value_item(*old(value)) == Item::List(items(list@)) && value_item(
                *final(value),
            ) == Item::List(items(final(list)@)),
            None => !(value_item(*old(value)) is List) && *final(value) == *old(value),
        },
;

} // verus!
