//! The features that decide how a declaration under a protobuf edition is read.

use vstd::prelude::*;

verus! {

/// The number of the presence under which a field must be set.
pub const FIELD_PRESENCE_LEGACY_REQUIRED: i32 = 3;

/// The number of the encoding of repeated fields that packs them.
pub const REPEATED_FIELD_ENCODING_PACKED: i32 = 1;

/// The number of the encoding of messages between delimiters.
pub const MESSAGE_ENCODING_DELIMITED: i32 = 2;

/// The features in force at one declaration, each by the number of its value.
#[derive(Clone, Copy, Debug, PartialEq, Eq, Structural)]
pub struct Features {
    pub field_presence: i32,
    pub repeated_field_encoding: i32,
    pub message_encoding: i32,
}

/// The features that the options of one declaration set.
#[derive(Clone, Copy, Debug)]
pub struct FeatureOverrides {
    pub field_presence: Option<i32>,
    pub repeated_field_encoding: Option<i32>,
    pub message_encoding: Option<i32>,
}

/// The number that is set, or the one that is inherited.
pub open spec fn overridden(set: Option<i32>, inherited: i32) -> i32 {
    match set {
        Some(number) => number,
        None => inherited,
    }
}

fn override_number(set: Option<i32>, inherited: i32) -> (r: i32)
    ensures
        r == overridden(set, inherited),
{
    match set {
        Some(number) => number,
        None => inherited,
    }
}

impl Features {
    /// The features of a file under an edition that sets none of them.
    pub open spec fn defaults() -> Features {
        Features { field_presence: 1, repeated_field_encoding: 1, message_encoding: 1 }
    }

    /// The features of a declaration whose options set `overrides`, where these are the features
    /// of what encloses it.
    pub open spec fn inheriting(self, overrides: Option<FeatureOverrides>) -> Features {
        match overrides {
            Some(set) => Features {
                field_presence: overridden(set.field_presence, self.field_presence),
                repeated_field_encoding: overridden(
                    set.repeated_field_encoding,
                    self.repeated_field_encoding,
                ),
                message_encoding: overridden(set.message_encoding, self.message_encoding),
            },
            None => self,
        }
    }

    /// The features of a file under an edition that sets none of them.
    pub fn edition_defaults() -> (r: Features)
        ensures
            r == Features::defaults(),
    {
        Features { field_presence: 1, repeated_field_encoding: 1, message_encoding: 1 }
    }

    /// The features of a declaration whose options set `overrides`, where these are the features
    /// of what encloses it.
    pub fn inherit(self, overrides: &Option<FeatureOverrides>) -> (r: Features)
        ensures
            r == self.inheriting(*overrides),
    {
        match overrides {
            Some(set) => Features {
                field_presence: override_number(set.field_presence, self.field_presence),
                repeated_field_encoding: override_number(
                    set.repeated_field_encoding,
                    self.repeated_field_encoding,
                ),
                message_encoding: override_number(set.message_encoding, self.message_encoding),
            },
            None => self,
        }
    }
}

/// The innermost declaration that sets a feature decides it: what an enclosing declaration sets
/// does not matter to one that sets everything itself.
pub proof fn law_innermost_override_decides(
    outer: Features,
    other: Features,
    overrides: FeatureOverrides,
)
    requires
        overrides.field_presence is Some,
        overrides.repeated_field_encoding is Some,
        overrides.message_encoding is Some,
    ensures
        outer.inheriting(Some(overrides)) == other.inheriting(Some(overrides)),
{
}

/// A feature that the options of a declaration set has the number that they set, and one that they do
/// not set has the number that it has around the declaration.
pub proof fn law_what_is_set_decides_and_the_rest_is_inherited(
    outer: Features,
    overrides: Option<FeatureOverrides>,
)
    ensures
        overrides is None ==> outer.inheriting(overrides) == outer,
        overrides is Some ==> {
            let set = overrides->0;
            let inner = outer.inheriting(overrides);
            &&& set.field_presence is Some ==> inner.field_presence == set.field_presence->0
            &&& set.field_presence is None ==> inner.field_presence == outer.field_presence
            &&& set.repeated_field_encoding is Some ==> inner.repeated_field_encoding
                == set.repeated_field_encoding->0
            &&& set.repeated_field_encoding is None ==> inner.repeated_field_encoding
                == outer.repeated_field_encoding
            &&& set.message_encoding is Some ==> inner.message_encoding == set.message_encoding->0
            &&& set.message_encoding is None ==> inner.message_encoding == outer.message_encoding
        },
{
}

/// Under an edition that sets no feature, presence is explicit, repeated fields are packed, and
/// messages are prefixed with their lengths: each of these has the number 1, whatever is set of the
/// others.
pub proof fn law_features_that_no_file_sets_have_the_number_one(overrides: FeatureOverrides)
    ensures
        overrides.field_presence is None ==> Features::defaults().inheriting(
            Some(overrides),
        ).field_presence == 1,
        overrides.repeated_field_encoding is None ==> Features::defaults().inheriting(
            Some(overrides),
        ).repeated_field_encoding == 1,
        overrides.message_encoding is None ==> Features::defaults().inheriting(
            Some(overrides),
        ).message_encoding == 1,
{
}

} // verus!
