//! The schema of a JSON position, and the mathematical model in which the
//! contracts of this library speak of it.

use crate::double::Double;
use vstd::prelude::*;

verus! {

/// What is known of the strings seen at one position.
#[derive(Debug, PartialEq)]
pub enum StringType {
    /// No format was recognised. The samples are kept for later analysis.
    Unknown {
        strings_seen: Vec<String>,
        chars_seen: Vec<char>,
        min_length: Option<usize>,
        max_length: Option<usize>,
    },
    /// A date written `YYYY-MM-DD`.
    IsoDate,
    /// A date and time as RFC 2822 writes it.
    DateTimeRFC2822,
    /// A date and time as ISO 8601 writes it.
    DateTimeISO8601,
    /// A UUID in its hyphenated form.
    UUID,
    /// An email address.
    Email,
    /// A URL.
    Url,
    /// A bare host name.
    Hostname,
    /// One of a closed set of values. No value is listed twice.
    Enum { variants: Vec<String> },
}

/// What is known of the numbers seen at one position.
#[allow(inconsistent_fields)]
#[derive(Debug, Clone, Copy, PartialEq)]
pub enum NumberType {
    /// Only integers were seen, all within the two bounds.
    Integer { min: i64, max: i64 },
    /// A number with a fraction or an exponent was seen.
    Float { min: Double, max: Double },
}

/// The schema of one JSON position.
///
/// The fields of an object are kept as a list of names with their schemas, in
/// which no name occurs twice; `required` and `optional` share no name.
#[derive(Debug, PartialEq)]
pub enum SchemaState {
    /// Nothing was seen yet.
    Initial,
    /// Only `null` was seen.
    Null,
    /// `null` was seen beside values of the inner schema.
    Nullable(Box<SchemaState>),
    String(StringType),
    Number(NumberType),
    Boolean,
    Array { min_length: usize, max_length: usize, schema: Box<SchemaState> },
    Object { required: Vec<(String, SchemaState)>, optional: Vec<(String, SchemaState)> },
    /// Values of different kinds were seen.
    Indefinite,
}

/// The model of a [`StringType`]: the samples as sequences, the variants of
/// an enumeration as a set.
pub enum StringModel {
    Unknown {
        strings_seen: Seq<Seq<char>>,
        chars_seen: Seq<char>,
        min_length: Option<nat>,
        max_length: Option<nat>,
    },
    IsoDate,
    DateTimeRFC2822,
    DateTimeISO8601,
    UUID,
    Email,
    Url,
    Hostname,
    Enum { variants: Set<Seq<char>> },
}

/// The model of a [`SchemaState`]: the fields of an object as maps from
/// names to models.
pub enum SchemaModel {
    Initial,
    Null,
    Nullable(Box<SchemaModel>),
    String(StringModel),
    Number(NumberType),
    Boolean,
    Array { min_length: nat, max_length: nat, schema: Box<SchemaModel> },
    Object { required: Map<Seq<char>, SchemaModel>, optional: Map<Seq<char>, SchemaModel> },
    Indefinite,
}

/// The strings of a list, each as the sequence of its characters.
pub open spec fn texts(strings: Seq<String>) -> Seq<Seq<char>> {
    strings.map_values(|s: String| s@)
}

/// Whether no string occurs twice in the list.
pub open spec fn distinct_strings(strings: Seq<String>) -> bool {
    forall|i: int, j: int|
        0 <= i < j < strings.len() ==> (#[trigger] strings[i])@ != (#[trigger] strings[j])@
}

/// The length of an optional bound, as a natural number.
pub open spec fn bound_model(bound: Option<usize>) -> Option<nat> {
    match bound {
        Some(n) => Some(n as nat),
        None => None,
    }
}

/// Whether the list holds a field of that name.
pub open spec fn has_key(fields: Seq<(String, SchemaState)>, key: Seq<char>) -> bool {
    exists|i: int| 0 <= i < fields.len() && (#[trigger] fields[i]).0@ == key
}

/// The place of a field of that name in the list, where there is one.
pub open spec fn key_index(fields: Seq<(String, SchemaState)>, key: Seq<char>) -> int {
    choose|i: int| 0 <= i < fields.len() && (#[trigger] fields[i]).0@ == key
}

/// Whether no name occurs twice in the list.
pub open spec fn distinct_keys(fields: Seq<(String, SchemaState)>) -> bool {
    forall|i: int, j: int|
        0 <= i < j < fields.len() ==> (#[trigger] fields[i]).0@ != (#[trigger] fields[j]).0@
}

/// Whether the two lists share no name.
pub open spec fn disjoint_keys(
    first: Seq<(String, SchemaState)>,
    second: Seq<(String, SchemaState)>,
) -> bool {
    forall|i: int, j: int|
        0 <= i < first.len() && 0 <= j < second.len() ==> (#[trigger] first[i]).0@ != (
        #[trigger] second[j]).0@
}

/// The fields of a list as a map from each name to the model of its schema.
pub open spec fn fields_model(fields: Seq<(String, SchemaState)>) -> Map<Seq<char>, SchemaModel>
    decreases fields,
{
    Map::new(
        |k: Seq<char>| has_key(fields, k),
        |k: Seq<char>|
            {
                let i = key_index(fields, k);
                if 0 <= i < fields.len() {
                    fields[i].1.model()
                } else {
                    SchemaModel::Initial
                }
            },
    )
}

impl StringType {
    /// What is known of the strings, with the samples as sequences and the
    /// variants of an enumeration as a set.
    pub open spec fn model(self) -> StringModel {
        match self {
            StringType::Unknown { strings_seen, chars_seen, min_length, max_length } => {
                StringModel::Unknown {
                    strings_seen: texts(strings_seen@),
                    chars_seen: chars_seen@,
                    min_length: bound_model(min_length),
                    max_length: bound_model(max_length),
                }
            },
            StringType::IsoDate => StringModel::IsoDate,
            StringType::DateTimeRFC2822 => StringModel::DateTimeRFC2822,
            StringType::DateTimeISO8601 => StringModel::DateTimeISO8601,
            StringType::UUID => StringModel::UUID,
            StringType::Email => StringModel::Email,
            StringType::Url => StringModel::Url,
            StringType::Hostname => StringModel::Hostname,
            StringType::Enum { variants } => StringModel::Enum {
                variants: texts(variants@).to_set(),
            },
        }
    }

    /// Whether the value is a valid representation: an enumeration lists no
    /// variant twice.
    pub open spec fn well_formed(self) -> bool {
        match self {
            StringType::Enum { variants } => distinct_strings(variants@),
            _ => true,
        }
    }
}

impl View for StringType {
    type V = StringModel;

    open spec fn view(&self) -> StringModel {
        self.model()
    }
}

impl SchemaState {
    /// The schema with the fields of every object as maps from names to
    /// models.
    pub open spec fn model(self) -> SchemaModel
        decreases self,
    {
        match self {
            SchemaState::Initial => SchemaModel::Initial,
            SchemaState::Null => SchemaModel::Null,
            SchemaState::Nullable(inner) => SchemaModel::Nullable(Box::new(inner.model())),
            SchemaState::String(string_type) => SchemaModel::String(string_type.model()),
            SchemaState::Number(number_type) => SchemaModel::Number(number_type),
            SchemaState::Boolean => SchemaModel::Boolean,
            SchemaState::Array { min_length, max_length, schema } => SchemaModel::Array {
                min_length: min_length as nat,
                max_length: max_length as nat,
                schema: Box::new(schema.model()),
            },
            SchemaState::Object { required, optional } => SchemaModel::Object {
                required: fields_model(required@),
                optional: fields_model(optional@),
            },
            SchemaState::Indefinite => SchemaModel::Indefinite,
        }
    }

    /// Whether the value is a valid representation: in every object no name
    /// occurs twice, among the required and the optional fields together, and
    /// no enumeration lists a variant twice.
    pub open spec fn well_formed(self) -> bool
        decreases self,
    {
        match self {
            SchemaState::Nullable(inner) => inner.well_formed(),
            SchemaState::String(string_type) => string_type.well_formed(),
            SchemaState::Array { schema, .. } => schema.well_formed(),
            SchemaState::Object { required, optional } => {
                &&& distinct_keys(required@)
                &&& distinct_keys(optional@)
                &&& disjoint_keys(required@, optional@)
                &&& forall|i: int|
                    0 <= i < required@.len() ==> (#[trigger] required@[i]).1.well_formed()
                &&& forall|i: int|
                    0 <= i < optional@.len() ==> (#[trigger] optional@[i]).1.well_formed()
            },
            _ => true,
        }
    }
}

impl View for SchemaState {
    type V = SchemaModel;

    open spec fn view(&self) -> SchemaModel {
        self.model()
    }
}

impl StringType {
    /// Whether the value is a valid representation.
    pub fn is_well_formed(&self) -> (r: bool)
        ensures
            r == self.well_formed(),
    {
        match self {
            StringType::Enum { variants } => crate::strings::has_distinct_strings(variants),
            _ => true,
        }
    }
}

/// Whether every field of the list is a valid representation.
fn fields_are_well_formed(fields: &Vec<(String, SchemaState)>, Ghost(parent): Ghost<SchemaState>) -> (r:
    bool)
    requires
        parent matches SchemaState::Object { required, optional } && (required == fields
            || optional == fields),
    ensures
        r == fields_well_formed(fields@),
    decreases parent, 0nat,
{
    let mut i: usize = 0;
    while i < fields.len()
        invariant
            i <= fields.len(),
            parent matches SchemaState::Object { required, optional } && (required == fields
                || optional == fields),
            forall|j: int| 0 <= j < i ==> (#[trigger] fields@[j]).1.well_formed(),
        decreases fields.len() - i,
    {
        if !fields[i].1.is_well_formed() {
            return false;
        }
        i = i + 1;
    }
    true
}

impl SchemaState {
    /// Whether the value is a valid representation.
    pub fn is_well_formed(&self) -> (r: bool)
        ensures
            r == self.well_formed(),
        decreases self, 1nat,
    {
        match self {
            SchemaState::Nullable(inner) => inner.is_well_formed(),
            SchemaState::String(string_type) => string_type.is_well_formed(),
            SchemaState::Array { schema, .. } => schema.is_well_formed(),
            SchemaState::Object { required, optional } => {
                crate::fields::has_distinct_keys(required) && crate::fields::has_distinct_keys(
                    optional,
                ) && crate::fields::has_disjoint_keys(required, optional) && fields_are_well_formed(
                    required,
                    Ghost(*self),
                ) && fields_are_well_formed(optional, Ghost(*self))
            },
            _ => true,
        }
    }
}

/// Whether every field of the list is a valid representation.
pub open spec fn fields_well_formed(fields: Seq<(String, SchemaState)>) -> bool {
    forall|i: int| 0 <= i < fields.len() ==> (#[trigger] fields[i]).1.well_formed()
}

/// In a list without a repeated name, the field at a place is what the map
/// holds under its name.
pub proof fn lemma_fields_model_at(fields: Seq<(String, SchemaState)>, i: int)
    requires
        distinct_keys(fields),
        0 <= i < fields.len(),
    ensures
        has_key(fields, fields[i].0@),
        key_index(fields, fields[i].0@) == i,
        fields_model(fields).dom().contains(fields[i].0@),
        fields_model(fields)[fields[i].0@] == fields[i].1.model(),
{
    let key = fields[i].0@;
    assert(has_key(fields, key));
    let j = key_index(fields, key);
    assert(0 <= j < fields.len() && fields[j].0@ == key);
    if j != i {
        if j < i {
            assert(fields[j].0@ != fields[i].0@);
        } else {
            assert(fields[i].0@ != fields[j].0@);
        }
    }
}

} // verus!
