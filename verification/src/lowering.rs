//! Lowering: what a file under a protobuf edition says through features is said instead in the
//! terms of `proto2`.

use crate::features::{
    FeatureOverrides, Features, FIELD_PRESENCE_LEGACY_REQUIRED, MESSAGE_ENCODING_DELIMITED,
    REPEATED_FIELD_ENCODING_PACKED,
};
use vstd::prelude::*;

verus! {

/// The number of the type of a string field.
pub const TYPE_STRING: i32 = 9;

/// The number of the type of a group field.
pub const TYPE_GROUP: i32 = 10;

/// The number of the type of a message field.
pub const TYPE_MESSAGE: i32 = 11;

/// The number of the type of a bytes field.
pub const TYPE_BYTES: i32 = 12;

/// The number of the label of a required field.
pub const LABEL_REQUIRED: i32 = 2;

/// The number of the label of a repeated field.
pub const LABEL_REPEATED: i32 = 3;

/// What lowering reads and changes of a field or an extension.
#[derive(Clone, Copy, Debug)]
pub struct FieldDecl {
    /// The number of the label.
    pub label: i32,
    /// The number of the type.
    pub ty: i32,
    /// The position of the oneof that the field belongs to.
    pub oneof_index: Option<i32>,
    /// The features that the field's options set.
    pub features: Option<FeatureOverrides>,
    /// The option that says whether the field is packed.
    pub packed: Option<bool>,
}

/// What lowering reads and changes of a message.
#[derive(Debug)]
pub struct MessageDecl {
    /// The features that the message's options set.
    pub features: Option<FeatureOverrides>,
    /// For each oneof, the features that its options set.
    pub oneofs: Vec<Option<FeatureOverrides>>,
    pub fields: Vec<FieldDecl>,
    pub extensions: Vec<FieldDecl>,
    pub nested: Vec<MessageDecl>,
}

/// What lowering reads and changes of a file.
#[derive(Debug)]
pub struct FileDecl {
    pub syntax: String,
    /// The number of the edition.
    pub edition: Option<i32>,
    /// The features that the file's options set.
    pub features: Option<FeatureOverrides>,
    pub messages: Vec<MessageDecl>,
    pub extensions: Vec<FieldDecl>,
}

/// The mathematical value of a [`MessageDecl`].
#[verifier::ext_equal]
pub struct MessageModel {
    pub features: Option<FeatureOverrides>,
    pub oneofs: Seq<Option<FeatureOverrides>>,
    pub fields: Seq<FieldDecl>,
    pub extensions: Seq<FieldDecl>,
    pub nested: Seq<MessageModel>,
}

/// The mathematical value of a [`FileDecl`].
#[verifier::ext_equal]
pub struct FileModel {
    pub syntax: Seq<char>,
    pub edition: Option<i32>,
    pub features: Option<FeatureOverrides>,
    pub messages: Seq<MessageModel>,
    pub extensions: Seq<FieldDecl>,
}

impl MessageDecl {
    pub open spec fn model(self) -> MessageModel
        decreases self,
    {
        MessageModel {
            features: self.features,
            oneofs: self.oneofs@,
            fields: self.fields@,
            extensions: self.extensions@,
            nested: Seq::new(
                self.nested@.len(),
                |i: int|
                    if 0 <= i < self.nested@.len() {
                        self.nested@[i].model()
                    } else {
                        arbitrary()
                    },
            ),
        }
    }
}

impl View for MessageDecl {
    type V = MessageModel;

    open spec fn view(&self) -> MessageModel {
        self.model()
    }
}

impl View for FileDecl {
    type V = FileModel;

    open spec fn view(&self) -> FileModel {
        FileModel {
            syntax: self.syntax@,
            edition: self.edition,
            features: self.features,
            messages: models(self.messages@),
            extensions: self.extensions@,
        }
    }
}

/// The mathematical values of a sequence of messages.
pub open spec fn models(s: Seq<MessageDecl>) -> Seq<MessageModel> {
    Seq::new(s.len(), |i: int| s[i]@)
}

/// Whether repeated fields of a type can be packed.
pub open spec fn is_packable(ty: i32) -> bool {
    ty != TYPE_STRING && ty != TYPE_GROUP && ty != TYPE_MESSAGE && ty != TYPE_BYTES
}

/// A field in the terms of `proto2`, where `parent` is in force around it.
///
/// A field that must be set becomes required, a delimited message a group, and a repeated field
/// that can be packed says whether it is: under `proto2` it would not be.
pub open spec fn lowered_field(field: FieldDecl, parent: Features) -> FieldDecl {
    let features = parent.inheriting(field.features);
    FieldDecl {
        label: if features.field_presence == FIELD_PRESENCE_LEGACY_REQUIRED {
            LABEL_REQUIRED
        } else {
            field.label
        },
        ty: if features.message_encoding == MESSAGE_ENCODING_DELIMITED && field.ty == TYPE_MESSAGE {
            TYPE_GROUP
        } else {
            field.ty
        },
        packed: if field.label == LABEL_REPEATED && is_packable(field.ty) {
            Some(features.repeated_field_encoding == REPEATED_FIELD_ENCODING_PACKED)
        } else {
            field.packed
        },
        ..field
    }
}

/// The features in force around a field of a message: those of its oneof where it belongs to one,
/// else those of the message.
pub open spec fn around_field(
    oneof_index: Option<i32>,
    oneofs: Seq<Option<FeatureOverrides>>,
    message: Features,
) -> Features {
    match oneof_index {
        Some(index) => if 0 <= index < oneofs.len() {
            message.inheriting(oneofs[index as int])
        } else {
            message
        },
        None => message,
    }
}

/// The extensions of one declaration in the terms of `proto2`.
pub open spec fn lowered_extensions(extensions: Seq<FieldDecl>, parent: Features) -> Seq<
    FieldDecl,
> {
    Seq::new(extensions.len(), |i: int| lowered_field(extensions[i], parent))
}

/// The fields of a message in the terms of `proto2`.
pub open spec fn lowered_fields(
    fields: Seq<FieldDecl>,
    oneofs: Seq<Option<FeatureOverrides>>,
    message: Features,
) -> Seq<FieldDecl> {
    Seq::new(
        fields.len(),
        |i: int| lowered_field(fields[i], around_field(fields[i].oneof_index, oneofs, message)),
    )
}

/// A message in the terms of `proto2`, where `parent` is in force around it.
pub open spec fn lowered_message(message: MessageModel, parent: Features) -> MessageModel
    decreases message,
{
    let features = parent.inheriting(message.features);
    MessageModel {
        fields: lowered_fields(message.fields, message.oneofs, features),
        extensions: lowered_extensions(message.extensions, features),
        nested: Seq::new(
            message.nested.len(),
            |i: int|
                if 0 <= i < message.nested.len() {
                    lowered_message(message.nested[i], features)
                } else {
                    arbitrary()
                },
        ),
        ..message
    }
}

/// The messages of one declaration in the terms of `proto2`.
pub open spec fn lowered_messages(messages: Seq<MessageModel>, parent: Features) -> Seq<
    MessageModel,
> {
    Seq::new(messages.len(), |i: int| lowered_message(messages[i], parent))
}

/// A file in the terms of `proto2`. One that is under no edition already is.
pub open spec fn lowered_file(file: FileModel) -> FileModel {
    if file.syntax == "editions"@ {
        let features = Features::defaults().inheriting(file.features);
        FileModel {
            syntax: "proto2"@,
            edition: None,
            messages: lowered_messages(file.messages, features),
            extensions: lowered_extensions(file.extensions, features),
            ..file
        }
    } else {
        file
    }
}

/// Puts a field in the terms of `proto2`, where `parent` is in force around it.
pub fn lower_field(field: &mut FieldDecl, parent: Features)
    ensures
        *final(field) == lowered_field(*old(field), parent),
{
    let features: Features = parent.inherit(&field.features);
    let label: i32 = field.label;
    let ty: i32 = field.ty;
    if features.field_presence == FIELD_PRESENCE_LEGACY_REQUIRED {
        field.label = LABEL_REQUIRED;
    }
    if features.message_encoding == MESSAGE_ENCODING_DELIMITED && ty == TYPE_MESSAGE {
        field.ty = TYPE_GROUP;
    }
    // Fields of proto2 are expanded unless they say otherwise.
    if label == LABEL_REPEATED && ty != TYPE_STRING && ty != TYPE_GROUP && ty != TYPE_MESSAGE && ty
        != TYPE_BYTES {
        field.packed = Some(features.repeated_field_encoding == REPEATED_FIELD_ENCODING_PACKED);
    }
}

/// Puts the extensions of one declaration in the terms of `proto2`.
pub fn lower_extensions(extensions: &mut Vec<FieldDecl>, parent: Features)
    ensures
        final(extensions)@ == lowered_extensions(old(extensions)@, parent),
{
    let ghost before = extensions@;
    let mut i: usize = 0;
    while i < extensions.len()
        invariant
            i <= extensions@.len(),
            extensions@.len() == before.len(),
            forall|j: int| 0 <= j < i ==> extensions@[j] == lowered_field(before[j], parent),
            forall|j: int| i <= j < before.len() ==> extensions@[j] == before[j],
        decreases extensions@.len() - i,
    {
        let mut extension: FieldDecl = extensions[i];
        lower_field(&mut extension, parent);
        extensions.set(i, extension);
        i += 1;
    }
    assert(extensions@ =~= lowered_extensions(before, parent));
}

/// Puts the fields of a message in the terms of `proto2`, where the message's own features are
/// `message`.
pub fn lower_fields(
    fields: &mut Vec<FieldDecl>,
    oneofs: &Vec<Option<FeatureOverrides>>,
    message: Features,
)
    ensures
        final(fields)@ == lowered_fields(old(fields)@, oneofs@, message),
{
    let mut oneof_features: Vec<Features> = Vec::new();
    let mut k: usize = 0;
    while k < oneofs.len()
        invariant
            k <= oneofs@.len(),
            oneof_features@.len() == k,
            forall|j: int| 0 <= j < k ==> oneof_features@[j] == message.inheriting(oneofs@[j]),
        decreases oneofs@.len() - k,
    {
        oneof_features.push(message.inherit(&oneofs[k]));
        k += 1;
    }
    let ghost before = fields@;
    let mut i: usize = 0;
    while i < fields.len()
        invariant
            i <= fields@.len(),
            fields@.len() == before.len(),
            oneof_features@.len() == oneofs@.len(),
            forall|j: int|
                0 <= j < oneofs@.len() ==> oneof_features@[j] == message.inheriting(oneofs@[j]),
            forall|j: int|
                0 <= j < i ==> fields@[j] == lowered_field(
                    before[j],
                    around_field(before[j].oneof_index, oneofs@, message),
                ),
            forall|j: int| i <= j < before.len() ==> fields@[j] == before[j],
        decreases fields@.len() - i,
    {
        let mut field: FieldDecl = fields[i];
        let parent: Features = match field.oneof_index {
            Some(index) => if 0 <= index && (index as usize) < oneof_features.len() {
                oneof_features[index as usize]
            } else {
                message
            },
            None => message,
        };
        lower_field(&mut field, parent);
        fields.set(i, field);
        i += 1;
    }
    assert(fields@ =~= lowered_fields(before, oneofs@, message));
}

/// Puts a message in the terms of `proto2`, where `parent` is in force around it.
pub fn lower_message(message: &mut MessageDecl, parent: Features)
    ensures
        final(message)@ == lowered_message(old(message)@, parent),
    decreases *old(message),
{
    let features: Features = parent.inherit(&message.features);
    lower_fields(&mut message.fields, &message.oneofs, features);
    lower_extensions(&mut message.extensions, features);
    let ghost before = message.nested@;
    let mut i: usize = 0;
    while i < message.nested.len()
        invariant
            i <= message.nested@.len(),
            before == old(message).nested@,
            message.features == old(message).features,
            message.oneofs == old(message).oneofs,
            message.fields@ == lowered_fields(
                old(message).fields@,
                old(message).oneofs@,
                features,
            ),
            message.extensions@ == lowered_extensions(old(message).extensions@, features),
            message.nested@.len() == before.len(),
            forall|j: int|
                0 <= j < i ==> message.nested@[j]@ == lowered_message(before[j]@, features),
            forall|j: int| i <= j < before.len() ==> message.nested@[j] == before[j],
        decreases message.nested@.len() - i,
    {
        let nested: &mut MessageDecl = &mut message.nested[i];
        lower_message(nested, features);
        i += 1;
    }
    proof {
        let lowered = lowered_message(old(message)@, parent);
        assert forall|j: int| 0 <= j < before.len() implies message@.nested[j]
            == lowered.nested[j] by {
            assert(old(message)@.nested[j] == before[j]@);
        }
        assert(message@.nested =~= lowered.nested);
        assert(message@ =~= lowered);
    }
}

/// Puts a file in the terms of `proto2`, if it is under an edition.
pub fn lower_file(file: &mut FileDecl)
    ensures
        final(file)@ == lowered_file(old(file)@),
{
    if file.syntax != "editions".to_owned() {
        return;
    }
    let features: Features = Features::edition_defaults().inherit(&file.features);
    let ghost before = file.messages@;
    let mut i: usize = 0;
    while i < file.messages.len()
        invariant
            i <= file.messages@.len(),
            before == old(file).messages@,
            file.features == old(file).features,
            file.extensions == old(file).extensions,
            file.messages@.len() == before.len(),
            forall|j: int|
                0 <= j < i ==> file.messages@[j]@ == lowered_message(before[j]@, features),
            forall|j: int| i <= j < before.len() ==> file.messages@[j] == before[j],
        decreases file.messages@.len() - i,
    {
        let message: &mut MessageDecl = &mut file.messages[i];
        lower_message(message, features);
        i += 1;
    }
    lower_extensions(&mut file.extensions, features);
    file.syntax = "proto2".to_owned();
    file.edition = None;
    assert(file@ =~= lowered_file(old(file)@));
}

/// Whether a field must be set, where `features` are in force at it.
pub open spec fn is_required(field: FieldDecl, features: Features) -> bool {
    field.label == LABEL_REQUIRED || features.field_presence == FIELD_PRESENCE_LEGACY_REQUIRED
}

/// Whether a field is a message between delimiters, where `features` are in force at it.
pub open spec fn is_delimited(field: FieldDecl, features: Features) -> bool {
    field.ty == TYPE_GROUP || field.ty == TYPE_MESSAGE && features.message_encoding
        == MESSAGE_ENCODING_DELIMITED
}

/// Whether a field is packed, where `features` are in force at it.
pub open spec fn is_packed(field: FieldDecl, features: Features) -> bool {
    field.label == LABEL_REPEATED && is_packable(field.ty) && features.repeated_field_encoding
        == REPEATED_FIELD_ENCODING_PACKED
}

/// Whether a field of `proto2` is packed.
pub open spec fn is_packed_in_proto2(field: FieldDecl) -> bool {
    field.label == LABEL_REPEATED && is_packable(field.ty) && field.packed == Some(true)
}

/// A field must be set after lowering where it had to be before, and is a message between
/// delimiters where it was: under `proto2` its label and its type say so.
pub proof fn law_presence_and_delimiters_are_kept(field: FieldDecl, parent: Features)
    ensures
        (lowered_field(field, parent).label == LABEL_REQUIRED) == is_required(
            field,
            parent.inheriting(field.features),
        ),
        (lowered_field(field, parent).ty == TYPE_GROUP) == is_delimited(
            field,
            parent.inheriting(field.features),
        ),
{
}

/// A field is packed under `proto2` after lowering where it was packed before, but for a repeated
/// field that must be set: no label says both.
pub proof fn law_packing_is_kept(field: FieldDecl, parent: Features)
    requires
        !(field.label == LABEL_REPEATED && parent.inheriting(field.features).field_presence
            == FIELD_PRESENCE_LEGACY_REQUIRED),
    ensures
        is_packed_in_proto2(lowered_field(field, parent)) == is_packed(
            field,
            parent.inheriting(field.features),
        ),
{
}

/// To lower a file twice is to lower it once.
pub proof fn law_lowering_is_idempotent(file: FileModel)
    ensures
        lowered_file(lowered_file(file)) == lowered_file(file),
{
    reveal_strlit("editions");
    reveal_strlit("proto2");
    assert("editions"@.len() != "proto2"@.len());
}

/// The features that one field sets do not matter to any other field of its message.
pub proof fn law_fields_are_lowered_apart(
    fields: Seq<FieldDecl>,
    oneofs: Seq<Option<FeatureOverrides>>,
    message: Features,
    i: int,
    other: FieldDecl,
    j: int,
)
    requires
        0 <= i < fields.len(),
        0 <= j < fields.len(),
        i != j,
    ensures
        lowered_fields(fields.update(i, other), oneofs, message)[j] == lowered_fields(
            fields,
            oneofs,
            message,
        )[j],
{
}

/// Whether the options of a declaration set no feature.
pub open spec fn sets_nothing(overrides: Option<FeatureOverrides>) -> bool {
    overrides matches Some(set) ==> set.field_presence is None && set.repeated_field_encoding is None
        && set.message_encoding is None
}

/// A field that sets no features says what the features around it said: it is required (label 2)
/// under the presence 3, a message (type 11) is a group (type 10) under the message encoding 2, and
/// what is repeated (label 3) and is no text, group, message or bytes (types 9 to 12) says whether it
/// is packed, as it is under the encoding 1. In all else it stays as it was.
pub proof fn law_a_field_says_what_is_in_force_around_it(field: FieldDecl, parent: Features)
    requires
        sets_nothing(field.features),
    ensures
        ({
            let out = lowered_field(field, parent);
            let packs = field.label == 3 && field.ty != 9 && field.ty != 10 && field.ty != 11
                && field.ty != 12;
            &&& parent.field_presence == 3 ==> out.label == 2
            &&& parent.field_presence != 3 ==> out.label == field.label
            &&& parent.message_encoding == 2 && field.ty == 11 ==> out.ty == 10
            &&& parent.message_encoding != 2 || field.ty != 11 ==> out.ty == field.ty
            &&& packs ==> out.packed == Some(parent.repeated_field_encoding == 1)
            &&& !packs ==> out.packed == field.packed
            &&& out.oneof_index == field.oneof_index && out.features == field.features
        }),
{
}

/// A field says what it sets itself, whatever is in force around it, and of what it does not set what
/// is in force around it.
pub proof fn law_a_field_that_sets_features_is_as_one_around_which_they_are_set(
    field: FieldDecl,
    parent: Features,
    inner: Features,
)
    requires
        field.features is Some,
        inner.field_presence == match field.features->0.field_presence {
            Some(number) => number,
            None => parent.field_presence,
        },
        inner.repeated_field_encoding == match field.features->0.repeated_field_encoding {
            Some(number) => number,
            None => parent.repeated_field_encoding,
        },
        inner.message_encoding == match field.features->0.message_encoding {
            Some(number) => number,
            None => parent.message_encoding,
        },
    ensures
        lowered_field(field, parent) == (FieldDecl {
            features: field.features,
            ..lowered_field(FieldDecl { features: None, ..field }, inner)
        }),
{
}

/// The features of a message are in force in all that it declares: in its fields, where they belong
/// to no oneof, in its extensions, and in the messages in it. Those of a oneof are in force in its
/// fields beside them. What the message does not set is as it is around the message.
pub proof fn law_a_message_passes_its_features_on(
    message: MessageModel,
    parent: Features,
    inner: Features,
    j: int,
)
    requires
        message.features is None ==> inner == parent,
        message.features matches Some(set) ==> {
            &&& inner.field_presence == match set.field_presence {
                Some(number) => number,
                None => parent.field_presence,
            }
            &&& inner.repeated_field_encoding == match set.repeated_field_encoding {
                Some(number) => number,
                None => parent.repeated_field_encoding,
            }
            &&& inner.message_encoding == match set.message_encoding {
                Some(number) => number,
                None => parent.message_encoding,
            }
        },
    ensures
        ({
            let out = lowered_message(message, parent);
            &&& out.features == message.features && out.oneofs == message.oneofs
            &&& out.fields.len() == message.fields.len()
            &&& out.extensions.len() == message.extensions.len()
            &&& out.nested.len() == message.nested.len()
            &&& 0 <= j < message.fields.len() ==> match message.fields[j].oneof_index {
                Some(n) if 0 <= n < message.oneofs.len() => match message.oneofs[n as int] {
                    Some(set) => exists|around: Features|
                        {
                            &&& #[trigger] lowered_field(message.fields[j], around) == out.fields[j]
                            &&& around.field_presence == match set.field_presence {
                                Some(number) => number,
                                None => inner.field_presence,
                            }
                            &&& around.repeated_field_encoding == match set.repeated_field_encoding {
                                Some(number) => number,
                                None => inner.repeated_field_encoding,
                            }
                            &&& around.message_encoding == match set.message_encoding {
                                Some(number) => number,
                                None => inner.message_encoding,
                            }
                        },
                    None => out.fields[j] == lowered_field(message.fields[j], inner),
                },
                _ => out.fields[j] == lowered_field(message.fields[j], inner),
            }
            &&& 0 <= j < message.extensions.len() ==> out.extensions[j] == lowered_field(
                message.extensions[j],
                inner,
            )
            &&& 0 <= j < message.nested.len() ==> out.nested[j] == lowered_message(
                message.nested[j],
                inner,
            )
        }),
{
    let features = parent.inheriting(message.features);
    assert(features == inner);
    if 0 <= j < message.fields.len() {
        let field = message.fields[j];
        let around = around_field(field.oneof_index, message.oneofs, features);
        assert(lowered_message(message, parent).fields[j] == lowered_field(field, around));
    }
}

/// The features that a file under an edition sets are in force in its messages: a field of one of
/// them that belongs to no oneof says what the file sets, where neither the message nor the field
/// sets any feature. What the file does not set is as under the number 1.
pub proof fn law_the_features_of_a_file_are_in_force_in_its_messages(
    file: FileModel,
    i: int,
    j: int,
)
    requires
        file.syntax == "editions"@,
        0 <= i < file.messages.len(),
        sets_nothing(file.messages[i].features),
        0 <= j < file.messages[i].fields.len(),
        sets_nothing(file.messages[i].fields[j].features),
        file.messages[i].fields[j].oneof_index is None,
    ensures
        ({
            let field = file.messages[i].fields[j];
            let out = lowered_file(file).messages[i].fields[j];
            let packs = field.label == 3 && field.ty != 9 && field.ty != 10 && field.ty != 11
                && field.ty != 12;
            &&& file.features matches Some(set) ==> {
                &&& set.field_presence == Some(3i32) ==> out.label == 2
                &&& set.field_presence != Some(3i32) ==> out.label == field.label
                &&& set.message_encoding == Some(2i32) && field.ty == 11 ==> out.ty == 10
                &&& set.message_encoding != Some(2i32) ==> out.ty == field.ty
                &&& packs && set.repeated_field_encoding is Some ==> out.packed == Some(
                    set.repeated_field_encoding->0 == 1,
                )
                &&& packs && set.repeated_field_encoding is None ==> out.packed == Some(true)
            }
            &&& file.features is None ==> out.label == field.label && out.ty == field.ty
            &&& file.features is None && packs ==> out.packed == Some(true)
        }),
{
}

/// The features that a file under an edition sets are in force in its extensions, where they set
/// none themselves.
pub proof fn law_the_features_of_a_file_are_in_force_in_its_extensions(file: FileModel, j: int)
    requires
        file.syntax == "editions"@,
        0 <= j < file.extensions.len(),
        sets_nothing(file.extensions[j].features),
    ensures
        ({
            let field = file.extensions[j];
            let out = lowered_file(file).extensions[j];
            let packs = field.label == 3 && field.ty != 9 && field.ty != 10 && field.ty != 11
                && field.ty != 12;
            &&& file.features matches Some(set) ==> {
                &&& set.field_presence == Some(3i32) ==> out.label == 2
                &&& set.field_presence != Some(3i32) ==> out.label == field.label
                &&& set.message_encoding == Some(2i32) && field.ty == 11 ==> out.ty == 10
                &&& set.message_encoding != Some(2i32) ==> out.ty == field.ty
                &&& packs && set.repeated_field_encoding is Some ==> out.packed == Some(
                    set.repeated_field_encoding->0 == 1,
                )
                &&& packs && set.repeated_field_encoding is None ==> out.packed == Some(true)
            }
            &&& file.features is None ==> out.label == field.label && out.ty == field.ty
            &&& file.features is None && packs ==> out.packed == Some(true)
        }),
{
}

/// What a file under an edition sets is in force around each of its messages and extensions: they are
/// lowered as they would be where these are the features around them, and as many come out as there
/// were. What the file does not set has the number 1.
pub proof fn law_a_file_passes_its_features_on(file: FileModel, inner: Features, j: int)
    requires
        file.syntax == "editions"@,
        file.features is None ==> inner.field_presence == 1 && inner.repeated_field_encoding == 1
            && inner.message_encoding == 1,
        file.features matches Some(set) ==> {
            &&& inner.field_presence == match set.field_presence {
                Some(number) => number,
                None => 1i32,
            }
            &&& inner.repeated_field_encoding == match set.repeated_field_encoding {
                Some(number) => number,
                None => 1i32,
            }
            &&& inner.message_encoding == match set.message_encoding {
                Some(number) => number,
                None => 1i32,
            }
        },
    ensures
        ({
            let out = lowered_file(file);
            &&& out.syntax == "proto2"@ && out.edition is None && out.features == file.features
            &&& out.messages.len() == file.messages.len()
            &&& out.extensions.len() == file.extensions.len()
            &&& 0 <= j < file.messages.len() ==> out.messages[j] == lowered_message(
                file.messages[j],
                inner,
            )
            &&& 0 <= j < file.extensions.len() ==> out.extensions[j] == lowered_field(
                file.extensions[j],
                inner,
            )
        }),
{
    assert(Features::defaults().inheriting(file.features) == inner);
}

/// A file that is under no edition stays as it is.
pub proof fn law_files_under_no_edition_stay_as_they_are(file: FileModel)
    requires
        file.syntax != "editions"@,
    ensures
        lowered_file(file) == file,
{
}

} // verus!
