//! The writer of JSON Schema documents: from a schema to the document that
//! describes it.

use crate::json::{
    items_model, lemma_model_of_lists, members_model, JsonModel, JsonValue,
};
use crate::schema::{NumberType, SchemaState, StringType};
use vstd::prelude::*;
use vstd::string::StringExecFns;

verus! {

/// A JSON string.
pub open spec fn text_model(text: Seq<char>) -> JsonModel {
    JsonModel::String(text)
}

/// The document `{"type": name}`.
pub open spec fn typed(name: Seq<char>) -> Seq<(Seq<char>, JsonModel)> {
    seq![("type"@, text_model(name))]
}

/// A JSON string of that text.
pub fn json_text(text: &str) -> (json: JsonValue)
    ensures
        json@ == text_model(text@),
{
    JsonValue::String(String::from_str(text))
}

/// A member of that name.
pub fn entry(name: &str, value: JsonValue) -> (member: (String, JsonValue))
    ensures
        member.0@ == name@,
        member.1 == value,
{
    (String::from_str(name), value)
}

/// The object of those members.
pub fn object_of(members: Vec<(String, JsonValue)>) -> (json: JsonValue)
    ensures
        json@ == JsonModel::Object(members_model(members@)),
        json == JsonValue::Object(members),
{
    let json = JsonValue::Object(members);
    proof {
        lemma_model_of_lists(json);
    }
    json
}

/// The array of those items.
pub fn array_of(items: Vec<JsonValue>) -> (json: JsonValue)
    ensures
        json@ == JsonModel::Array(items_model(items@)),
        json == JsonValue::Array(items),
{
    let json = JsonValue::Array(items);
    proof {
        lemma_model_of_lists(json);
    }
    json
}

/// The strings of a list as JSON strings.
pub open spec fn texts_model(strings: Seq<String>) -> Seq<JsonModel> {
    Seq::new(strings.len(), |i: int| text_model(strings[i]@))
}

/// The strings of a list as a JSON array of strings.
pub fn texts_array(strings: &Vec<String>) -> (json: JsonValue)
    ensures
        json@ == JsonModel::Array(texts_model(strings@)),
{
    let mut items: Vec<JsonValue> = Vec::new();
    let mut i: usize = 0;
    while i < strings.len()
        invariant
            i <= strings.len(),
            items@.len() == i,
            forall|j: int| 0 <= j < i ==> (#[trigger] items@[j])@ == text_model(strings@[j]@),
        decreases strings.len() - i,
    {
        items.push(JsonValue::String(strings[i].clone()));
        i = i + 1;
    }
    assert(items_model(items@) =~= texts_model(strings@));
    array_of(items)
}

/// What describes a schema as a JSON Schema document.
pub trait ToJsonSchema {
    /// The JSON Schema of the value.
    spec fn json_schema(&self) -> JsonModel;

    /// Writes the JSON Schema of the value.
    fn to_json_schema(&self) -> (json: JsonValue)
        ensures
            json@ == self.json_schema(),
    ;

    /// Writes the JSON Schema of the value as a document of its own: with
    /// the draft it follows, a title and a description before the members
    /// of the schema.
    fn to_json_schema_document(&self) -> (document: JsonValue)
        ensures
            document@ == document_model(self.json_schema()),
    {
        let mut members: Vec<(String, JsonValue)> = Vec::new();
        members.push(entry("$schema", json_text("https://json-schema.org/draft/2020-12/schema")));
        members.push(entry("title", json_text("Inferred Schema")));
        members.push(entry("description", json_text("Schema inferred by drivel from sample data")));
        let schema = self.to_json_schema();
        proof {
            lemma_model_of_lists(schema);
        }
        match schema {
            JsonValue::Object(schema_members) => {
                let mut schema_members = schema_members;
                let ghost head = members@;
                let ghost tail = schema_members@;
                members.append(&mut schema_members);
                assert(members_model(head + tail) =~= members_model(head) + members_model(tail));
                assert(members_model(head) =~= document_head());
            },
            _ => {
                assert(members_model(members@) =~= document_head());
            },
        }
        object_of(members)
    }
}

/// The members that every document starts with.
pub open spec fn document_head() -> Seq<(Seq<char>, JsonModel)> {
    seq![
        ("$schema"@, text_model("https://json-schema.org/draft/2020-12/schema"@)),
        ("title"@, text_model("Inferred Schema"@)),
        ("description"@, text_model("Schema inferred by drivel from sample data"@)),
    ]
}

/// A schema as a document of its own: the head, and after it the members of
/// the schema where it is an object.
pub open spec fn document_model(schema: JsonModel) -> JsonModel {
    match schema {
        JsonModel::Object(members) => JsonModel::Object(document_head() + members),
        _ => JsonModel::Object(document_head()),
    }
}

/// The JSON Schema of a string: its type, and its format where JSON Schema
/// knows it.
pub open spec fn string_schema(string_type: StringType) -> JsonModel {
    match string_type {
        StringType::Unknown { .. } => JsonModel::Object(typed("string"@)),
        StringType::UUID => JsonModel::Object(
            typed("string"@).push(("format"@, text_model("uuid"@))),
        ),
        StringType::Email => JsonModel::Object(
            typed("string"@).push(("format"@, text_model("email"@))),
        ),
        StringType::Url => JsonModel::Object(
            typed("string"@).push(("format"@, text_model("uri"@))),
        ),
        StringType::IsoDate => JsonModel::Object(
            typed("string"@).push(("format"@, text_model("date"@))),
        ),
        StringType::DateTimeISO8601 => JsonModel::Object(
            typed("string"@).push(("format"@, text_model("date-time"@))),
        ),
        StringType::Hostname => JsonModel::Object(
            typed("string"@).push(("format"@, text_model("hostname"@))).push(
                ("x-drivel-type"@, text_model("hostname"@)),
            ),
        ),
        StringType::DateTimeRFC2822 => JsonModel::Object(
            typed("string"@).push(("x-drivel-type"@, text_model("datetime-rfc2822"@))).push(
                ("description"@, text_model("RFC 2822 datetime format"@)),
            ),
        ),
        StringType::Enum { variants } => JsonModel::Object(
            typed("string"@).push(("enum"@, JsonModel::Array(texts_model(variants@)))),
        ),
    }
}

/// The JSON Schema of a number: its type.
pub open spec fn number_schema(number_type: NumberType) -> JsonModel {
    match number_type {
        NumberType::Integer { .. } => JsonModel::Object(typed("integer"@)),
        NumberType::Float { .. } => JsonModel::Object(typed("number"@)),
    }
}

/// The members of a schema with `null` added to its type: a `type` member
/// whose value is a string becomes the array of that string and `null`.
pub open spec fn with_null(members: Seq<(Seq<char>, JsonModel)>) -> Seq<(Seq<char>, JsonModel)> {
    Seq::new(
        members.len(),
        |i: int|
            if members[i].0 == "type"@ && members[i].1 is String {
                (members[i].0, JsonModel::Array(seq![members[i].1, text_model("null"@)]))
            } else {
                members[i]
            },
    )
}

/// The JSON Schemas of the first `n` fields, by name.
pub open spec fn properties_schema(fields: Seq<(String, SchemaState)>) -> Seq<
    (Seq<char>, JsonModel),
>
    decreases fields, 0nat,
{
    Seq::new(
        fields.len(),
        |i: int|
            if 0 <= i < fields.len() {
                (fields[i].0@, schema_schema(fields[i].1))
            } else {
                (Seq::empty(), JsonModel::Null)
            },
    )
}

/// The names of the fields as JSON strings.
pub open spec fn names_model(fields: Seq<(String, SchemaState)>) -> Seq<JsonModel> {
    Seq::new(fields.len(), |i: int| text_model(fields[i].0@))
}

/// The JSON Schema of a schema.
///
/// `Initial` and `Indefinite` are described by the empty document, which
/// admits everything. A nullable schema is its inner schema with `null`
/// added to the type. An array is described with the schema of its items,
/// an object with the schemas of its fields, the required before the
/// optional, the names of the required fields, and as closed to other
/// fields.
pub open spec fn schema_schema(schema: SchemaState) -> JsonModel
    decreases schema, 1nat,
{
    match schema {
        SchemaState::Boolean => JsonModel::Object(typed("boolean"@)),
        SchemaState::Null => JsonModel::Object(typed("null"@)),
        SchemaState::Initial => JsonModel::Object(Seq::empty()),
        SchemaState::Indefinite => JsonModel::Object(Seq::empty()),
        SchemaState::String(string_type) => string_schema(string_type),
        SchemaState::Number(number_type) => number_schema(number_type),
        SchemaState::Nullable(inner) => match schema_schema(*inner) {
            JsonModel::Object(members) => JsonModel::Object(with_null(members)),
            other => other,
        },
        SchemaState::Array { schema: item, .. } => JsonModel::Object(
            typed("array"@).push(("items"@, schema_schema(*item))),
        ),
        SchemaState::Object { required, optional } => JsonModel::Object(
            typed("object"@).push(
                (
                    "properties"@,
                    JsonModel::Object(properties_schema(required@) + properties_schema(optional@)),
                ),
            ).push(("required"@, JsonModel::Array(names_model(required@)))).push(
                ("additionalProperties"@, JsonModel::Bool(false)),
            ),
        ),
    }
}

/// The document `{"type": name}` with one more member.
fn typed_with(name: &str, key: &str, value: JsonValue) -> (json: JsonValue)
    ensures
        json@ == JsonModel::Object(typed(name@).push((key@, value@))),
{
    let mut members: Vec<(String, JsonValue)> = Vec::new();
    members.push(entry("type", json_text(name)));
    members.push(entry(key, value));
    assert(members_model(members@) =~= typed(name@).push((key@, value@)));
    object_of(members)
}

/// The document `{"type": name}`.
fn typed_only(name: &str) -> (json: JsonValue)
    ensures
        json@ == JsonModel::Object(typed(name@)),
{
    let mut members: Vec<(String, JsonValue)> = Vec::new();
    members.push(entry("type", json_text(name)));
    assert(members_model(members@) =~= typed(name@));
    object_of(members)
}

impl ToJsonSchema for StringType {
    open spec fn json_schema(&self) -> JsonModel {
        string_schema(*self)
    }

    fn to_json_schema(&self) -> (json: JsonValue) {
        match self {
            StringType::Unknown { .. } => typed_only("string"),
            StringType::UUID => typed_with("string", "format", json_text("uuid")),
            StringType::Email => typed_with("string", "format", json_text("email")),
            StringType::Url => typed_with("string", "format", json_text("uri")),
            StringType::IsoDate => typed_with("string", "format", json_text("date")),
            StringType::DateTimeISO8601 => typed_with("string", "format", json_text("date-time")),
            StringType::Hostname => {
                let mut members: Vec<(String, JsonValue)> = Vec::new();
                members.push(entry("type", json_text("string")));
                members.push(entry("format", json_text("hostname")));
                members.push(entry("x-drivel-type", json_text("hostname")));
                assert(members_model(members@) =~= string_schema(*self)->Object_0);
                object_of(members)
            },
            StringType::DateTimeRFC2822 => {
                let mut members: Vec<(String, JsonValue)> = Vec::new();
                members.push(entry("type", json_text("string")));
                members.push(entry("x-drivel-type", json_text("datetime-rfc2822")));
                members.push(entry("description", json_text("RFC 2822 datetime format")));
                assert(members_model(members@) =~= string_schema(*self)->Object_0);
                object_of(members)
            },
            StringType::Enum { variants } => typed_with("string", "enum", texts_array(variants)),
        }
    }
}

impl ToJsonSchema for NumberType {
    open spec fn json_schema(&self) -> JsonModel {
        number_schema(*self)
    }

    fn to_json_schema(&self) -> (json: JsonValue) {
        match self {
            NumberType::Integer { .. } => typed_only("integer"),
            NumberType::Float { .. } => typed_only("number"),
        }
    }
}

/// Adds `null` to the type of a schema.
fn add_null(members: Vec<(String, JsonValue)>) -> (changed: Vec<(String, JsonValue)>)
    ensures
        members_model(changed@) == with_null(members_model(members@)),
{
    let ghost before = members_model(members@);
    let mut changed: Vec<(String, JsonValue)> = Vec::new();
    for member in it: members
        invariant
            it.seq() == members@,
            before == members_model(members@),
            changed@.len() == it.index(),
            forall|j: int|
                0 <= j < it.index() ==> ((#[trigger] changed@[j]).0@, changed@[j].1@) == with_null(
                    before,
                )[j],
    {
        let ghost at = it.index() as int;
        assert(before[at] == (member.0@, member.1@));
        let is_type = crate::text::same_text(member.0.as_str(), "type");
        match member.1 {
            JsonValue::String(text) => {
                if is_type {
                    let mut pair: Vec<JsonValue> = Vec::new();
                    pair.push(JsonValue::String(text));
                    pair.push(json_text("null"));
                    assert(items_model(pair@) =~= seq![before[at].1, text_model("null"@)]);
                    changed.push((member.0, array_of(pair)));
                } else {
                    changed.push((member.0, JsonValue::String(text)));
                }
            },
            other => {
                changed.push((member.0, other));
            },
        }
    }
    assert(members_model(changed@) =~= with_null(before));
    changed
}

/// The JSON Schemas of the fields, by name.
fn properties_of(fields: &Vec<(String, SchemaState)>, Ghost(parent): Ghost<SchemaState>) -> (members:
    Vec<(String, JsonValue)>)
    requires
        parent matches SchemaState::Object { required, optional } && (required == fields
            || optional == fields),
    ensures
        members_model(members@) == properties_schema(fields@),
    decreases parent, 0nat,
{
    let mut members: Vec<(String, JsonValue)> = Vec::new();
    let mut i: usize = 0;
    while i < fields.len()
        invariant
            i <= fields.len(),
            parent matches SchemaState::Object { required, optional } && (required == fields
                || optional == fields),
            members@.len() == i,
            forall|j: int|
                0 <= j < i ==> ((#[trigger] members@[j]).0@, members@[j].1@) == properties_schema(
                    fields@,
                )[j],
        decreases fields.len() - i,
    {
        let json = schema_to_json(&fields[i].1);
        members.push((fields[i].0.clone(), json));
        i = i + 1;
    }
    assert(members_model(members@) =~= properties_schema(fields@));
    members
}

/// The names of the fields as a JSON array of strings.
fn names_of(fields: &Vec<(String, SchemaState)>) -> (json: JsonValue)
    ensures
        json@ == JsonModel::Array(names_model(fields@)),
{
    let mut items: Vec<JsonValue> = Vec::new();
    let mut i: usize = 0;
    while i < fields.len()
        invariant
            i <= fields.len(),
            items@.len() == i,
            forall|j: int| 0 <= j < i ==> (#[trigger] items@[j])@ == text_model(fields@[j].0@),
        decreases fields.len() - i,
    {
        items.push(JsonValue::String(fields[i].0.clone()));
        i = i + 1;
    }
    assert(items_model(items@) =~= names_model(fields@));
    array_of(items)
}

/// Writes the JSON Schema of a schema.
pub fn schema_to_json(schema: &SchemaState) -> (json: JsonValue)
    ensures
        json@ == schema_schema(*schema),
    decreases schema, 1nat,
{
    match schema {
        SchemaState::Boolean => typed_only("boolean"),
        SchemaState::Null => typed_only("null"),
        SchemaState::Initial => {
            let members: Vec<(String, JsonValue)> = Vec::new();
            assert(members_model(members@) =~= Seq::empty());
            object_of(members)
        },
        SchemaState::Indefinite => {
            let members: Vec<(String, JsonValue)> = Vec::new();
            assert(members_model(members@) =~= Seq::empty());
            object_of(members)
        },
        SchemaState::String(string_type) => string_type.to_json_schema(),
        SchemaState::Number(number_type) => number_type.to_json_schema(),
        SchemaState::Nullable(inner) => {
            let inner_schema = schema_to_json(inner);
            proof {
                lemma_model_of_lists(inner_schema);
            }
            match inner_schema {
                JsonValue::Object(members) => object_of(add_null(members)),
                other => other,
            }
        },
        SchemaState::Array { schema: item, .. } => typed_with(
            "array",
            "items",
            schema_to_json(item),
        ),
        SchemaState::Object { required, optional } => {
            let mut properties = properties_of(required, Ghost(*schema));
            let mut optional_properties = properties_of(optional, Ghost(*schema));
            let ghost head = properties@;
            let ghost tail = optional_properties@;
            properties.append(&mut optional_properties);
            assert(members_model(head + tail) =~= members_model(head) + members_model(tail));
            let mut members: Vec<(String, JsonValue)> = Vec::new();
            members.push(entry("type", json_text("object")));
            members.push(entry("properties", object_of(properties)));
            members.push(entry("required", names_of(required)));
            members.push(entry("additionalProperties", JsonValue::Bool(false)));
            assert(members_model(members@) =~= schema_schema(*schema)->Object_0);
            object_of(members)
        },
    }
}

impl ToJsonSchema for SchemaState {
    open spec fn json_schema(&self) -> JsonModel {
        schema_schema(*self)
    }

    fn to_json_schema(&self) -> (json: JsonValue) {
        schema_to_json(self)
    }
}

} // verus!
