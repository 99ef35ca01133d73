//! JSON documents as plain values.

use crate::double::Double;
use crate::text::same_text;
use vstd::prelude::*;

verus! {

/// A JSON number: a non-negative integer, a negative integer, or a number
/// written with a fraction or an exponent.
#[derive(Debug, Clone, Copy, PartialEq)]
pub enum JsonNumber {
    PosInt(u64),
    NegInt(i64),
    Float(Double),
}

/// A JSON document. The members of an object are listed in order; where a
/// name is listed twice, the later member counts.
#[derive(Debug, PartialEq)]
pub enum JsonValue {
    Null,
    Bool(bool),
    Number(JsonNumber),
    String(String),
    Array(Vec<JsonValue>),
    Object(Vec<(String, JsonValue)>),
}

/// The model of a [`JsonValue`]: strings as sequences of characters, arrays
/// and objects as sequences.
pub enum JsonModel {
    Null,
    Bool(bool),
    Number(JsonNumber),
    String(Seq<char>),
    Array(Seq<JsonModel>),
    Object(Seq<(Seq<char>, JsonModel)>),
}

impl JsonNumber {
    /// The number as a signed integer, where it is an integer that fits.
    pub open spec fn spec_as_i64(self) -> Option<i64> {
        match self {
            JsonNumber::PosInt(n) => if n <= i64::MAX {
                Some(n as i64)
            } else {
                None
            },
            JsonNumber::NegInt(n) => Some(n),
            JsonNumber::Float(_) => None,
        }
    }

    /// The number as an unsigned integer, where it is a non-negative integer.
    pub open spec fn spec_as_u64(self) -> Option<u64> {
        match self {
            JsonNumber::PosInt(n) => Some(n),
            JsonNumber::NegInt(n) => None,
            JsonNumber::Float(_) => None,
        }
    }

    /// The number as a binary64 number: an integer as the number nearest to
    /// it.
    pub open spec fn spec_as_double(self) -> Double {
        match self {
            JsonNumber::PosInt(n) => Double::of_int(n as int),
            JsonNumber::NegInt(n) => Double::of_int(n as int),
            JsonNumber::Float(d) => d,
        }
    }

    /// The number as a signed integer, where it is an integer that fits.
    pub fn as_i64(&self) -> (r: Option<i64>)
        ensures
            r == self.spec_as_i64(),
    {
        match self {
            JsonNumber::PosInt(n) => if *n <= 0x7fff_ffff_ffff_ffff {
                Some(*n as i64)
            } else {
                None
            },
            JsonNumber::NegInt(n) => Some(*n),
            JsonNumber::Float(_) => None,
        }
    }

    /// The number as an unsigned integer, where it is a non-negative integer.
    pub fn as_u64(&self) -> (r: Option<u64>)
        ensures
            r == self.spec_as_u64(),
    {
        match self {
            JsonNumber::PosInt(n) => Some(*n),
            _ => None,
        }
    }

    /// The number as a binary64 number.
    pub fn as_double(&self) -> (r: Double)
        ensures
            r == self.spec_as_double(),
    {
        match self {
            JsonNumber::PosInt(n) => Double::from_u64(*n),
            JsonNumber::NegInt(n) => Double::from_i64(*n),
            JsonNumber::Float(d) => *d,
        }
    }
}

/// Whether the member at place `i` has that name and no later member has.
pub open spec fn is_last_named(members: Seq<(String, JsonValue)>, key: Seq<char>, i: int) -> bool {
    &&& 0 <= i < members.len()
    &&& members[i].0@ == key
    &&& forall|j: int| i < j < members.len() ==> (#[trigger] members[j]).0@ != key
}

/// Whether the members hold one of that name.
pub open spec fn has_member(members: Seq<(String, JsonValue)>, key: Seq<char>) -> bool {
    exists|i: int| is_last_named(members, key, i)
}

/// The place of the last member of that name, where there is one.
pub open spec fn member_index(members: Seq<(String, JsonValue)>, key: Seq<char>) -> int {
    choose|i: int| is_last_named(members, key, i)
}

/// The value of the last member of that name, if there is one.
pub open spec fn member(members: Seq<(String, JsonValue)>, key: Seq<char>) -> Option<JsonValue> {
    if has_member(members, key) {
        Some(members[member_index(members, key)].1)
    } else {
        None
    }
}

/// The value of the last member of that name, if there is one.
pub fn get<'a>(members: &'a Vec<(String, JsonValue)>, key: &str) -> (found: Option<&'a JsonValue>)
    ensures
        found is Some == has_member(members@, key@),
        found matches Some(value) ==> *value == members@[member_index(members@, key@)].1,
        found matches Some(value) ==> member(members@, key@) == Some(*value),
        found is None ==> member(members@, key@) is None,
{
    let mut i: usize = members.len();
    while i > 0
        invariant
            i <= members.len(),
            forall|j: int| i <= j < members.len() ==> (#[trigger] members@[j]).0@ != key@,
        decreases i,
    {
        i = i - 1;
        if same_text(members[i].0.as_str(), key) {
            assert(is_last_named(members@, key@, i as int));
            return Some(&members[i].1);
        }
    }
    assert(!has_member(members@, key@)) by {
        if has_member(members@, key@) {
            let k = member_index(members@, key@);
            assert(members@[k].0@ == key@);
        }
    }
    None
}

impl JsonValue {
    /// The document with its strings as sequences of characters and its
    /// arrays and objects as sequences.
    pub open spec fn model(self) -> JsonModel
        decreases self,
    {
        match self {
            JsonValue::Null => JsonModel::Null,
            JsonValue::Bool(b) => JsonModel::Bool(b),
            JsonValue::Number(n) => JsonModel::Number(n),
            JsonValue::String(s) => JsonModel::String(s@),
            JsonValue::Array(items) => JsonModel::Array(
                Seq::new(
                    items@.len(),
                    |i: int|
                        if 0 <= i < items@.len() {
                            items@[i].model()
                        } else {
                            JsonModel::Null
                        },
                ),
            ),
            JsonValue::Object(members) => JsonModel::Object(
                Seq::new(
                    members@.len(),
                    |i: int|
                        if 0 <= i < members@.len() {
                            (members@[i].0@, members@[i].1.model())
                        } else {
                            (Seq::empty(), JsonModel::Null)
                        },
                ),
            ),
        }
    }

    /// The members of an object.
    pub fn as_object(&self) -> (members: Option<&Vec<(String, JsonValue)>>)
        ensures
            members is Some == self is Object,
            members matches Some(m) ==> *m == self->Object_0,
    {
        match self {
            JsonValue::Object(members) => Some(members),
            _ => None,
        }
    }

    /// The items of an array.
    pub fn as_array(&self) -> (items: Option<&Vec<JsonValue>>)
        ensures
            items is Some == self is Array,
            items matches Some(v) ==> *v == self->Array_0,
    {
        match self {
            JsonValue::Array(items) => Some(items),
            _ => None,
        }
    }

    /// The text of a string.
    pub fn as_str(&self) -> (text: Option<&str>)
        ensures
            text is Some == self is String,
            text matches Some(t) ==> t@ == self->String_0@,
    {
        match self {
            JsonValue::String(text) => Some(text.as_str()),
            _ => None,
        }
    }

}

impl View for JsonValue {
    type V = JsonModel;

    open spec fn view(&self) -> JsonModel {
        self.model()
    }
}

/// The models of the items of a list.
pub open spec fn items_model(items: Seq<JsonValue>) -> Seq<JsonModel> {
    Seq::new(items.len(), |i: int| items[i].model())
}

/// The models of the members of a list.
pub open spec fn members_model(members: Seq<(String, JsonValue)>) -> Seq<(Seq<char>, JsonModel)> {
    Seq::new(members.len(), |i: int| (members[i].0@, members[i].1.model()))
}

/// The model of an array is the models of its items, and the model of an
/// object the models of its members.
pub proof fn lemma_model_of_lists(value: JsonValue)
    ensures
        value matches JsonValue::Array(items) ==> value.model() == JsonModel::Array(
            items_model(items@),
        ),
        value matches JsonValue::Object(members) ==> value.model() == JsonModel::Object(
            members_model(members@),
        ),
{
    match value {
        JsonValue::Array(items) => {
            assert(value.model()->Array_0 =~= items_model(items@));
        },
        JsonValue::Object(members) => {
            assert(value.model()->Object_0 =~= members_model(members@));
        },
        _ => {},
    }
}

} // verus!
