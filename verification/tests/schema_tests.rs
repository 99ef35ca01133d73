use drivel::double::Double;
use drivel::json::{JsonNumber, JsonValue};
use drivel::json_schema::ToJsonSchema;
use drivel::schema::{NumberType, SchemaState, StringType};

fn d(x: f64) -> Double {
    Double::from_bits(x.to_bits())
}

fn to_serde(value: &JsonValue) -> serde_json::Value {
    match value {
        JsonValue::Null => serde_json::Value::Null,
        JsonValue::Bool(b) => serde_json::Value::Bool(*b),
        JsonValue::Number(JsonNumber::PosInt(n)) => serde_json::Value::Number((*n).into()),
        JsonValue::Number(JsonNumber::NegInt(n)) => serde_json::Value::Number((*n).into()),
        JsonValue::Number(JsonNumber::Float(x)) => serde_json::Value::Number(
            serde_json::Number::from_f64(f64::from_bits(x.to_bits())).unwrap(),
        ),
        JsonValue::String(s) => serde_json::Value::String(s.clone()),
        JsonValue::Array(items) => serde_json::Value::Array(items.iter().map(to_serde).collect()),
        JsonValue::Object(members) => {
            let mut map = serde_json::Map::new();
            for (name, member) in members {
                map.insert(name.clone(), to_serde(member));
            }
            serde_json::Value::Object(map)
        }
    }
}

fn written(text: &str) -> serde_json::Value {
    serde_json::from_str(text).unwrap()
}

fn unknown_string(min_length: Option<usize>, max_length: Option<usize>) -> StringType {
    StringType::Unknown {
        strings_seen: vec!["test".to_string()],
        chars_seen: vec!['t', 'e', 's', 't'],
        min_length,
        max_length,
    }
}

fn enum_string(variants: Vec<&str>) -> StringType {
    StringType::Enum { variants: variants.iter().map(|s| s.to_string()).collect() }
}

fn integer_range(min: i64, max: i64) -> NumberType {
    NumberType::Integer { min, max }
}

fn float_range(min: f64, max: f64) -> NumberType {
    NumberType::Float { min: d(min), max: d(max) }
}

fn string_schema(string_type: StringType) -> SchemaState {
    SchemaState::String(string_type)
}

fn number_schema(number_type: NumberType) -> SchemaState {
    SchemaState::Number(number_type)
}

fn nullable_schema(inner: SchemaState) -> SchemaState {
    SchemaState::Nullable(Box::new(inner))
}

fn array_schema(min_length: usize, max_length: usize, item_schema: SchemaState) -> SchemaState {
    SchemaState::Array { min_length, max_length, schema: Box::new(item_schema) }
}

fn object_schema(
    required_fields: Vec<(&str, SchemaState)>,
    optional_fields: Vec<(&str, SchemaState)>,
) -> SchemaState {
    let required = required_fields.into_iter().map(|(k, v)| (k.to_string(), v)).collect();
    let optional = optional_fields.into_iter().map(|(k, v)| (k.to_string(), v)).collect();
    SchemaState::Object { required, optional }
}

fn assert_schema_equals(schema: &SchemaState, expected: &str) {
    assert_eq!(to_serde(&schema.to_json_schema()), written(expected));
}

#[test]
fn boolean_to_json_schema() {
    assert_schema_equals(&SchemaState::Boolean, r#"{ "type": "boolean" }"#);
}

#[test]
fn null_to_json_schema() {
    assert_schema_equals(&SchemaState::Null, r#"{ "type": "null" }"#);
}

#[test]
fn initial_to_json_schema() {
    assert_schema_equals(&SchemaState::Initial, "{}");
}

#[test]
fn indefinite_to_json_schema() {
    assert_schema_equals(&SchemaState::Indefinite, "{}");
}

#[test]
fn unknown_string_with_length_constraints_to_json_schema() {
    let schema = string_schema(unknown_string(Some(3), Some(10)));
    assert_schema_equals(&schema, r#"{ "type": "string" }"#);
}

#[test]
fn unknown_string_no_constraints_to_json_schema() {
    let schema = string_schema(unknown_string(None, None));
    assert_schema_equals(&schema, r#"{ "type": "string" }"#);
}

#[test]
fn unknown_string_min_only_to_json_schema() {
    let schema = string_schema(unknown_string(Some(5), None));
    assert_schema_equals(&schema, r#"{ "type": "string" }"#);
}

#[test]
fn unknown_string_max_only_to_json_schema() {
    let schema = string_schema(unknown_string(None, Some(20)));
    assert_schema_equals(&schema, r#"{ "type": "string" }"#);
}

#[test]
fn uuid_string_to_json_schema() {
    let schema = string_schema(StringType::UUID);
    assert_schema_equals(&schema, r#"{ "type": "string", "format": "uuid" }"#);
}

#[test]
fn email_string_to_json_schema() {
    let schema = string_schema(StringType::Email);
    assert_schema_equals(&schema, r#"{ "type": "string", "format": "email" }"#);
}

#[test]
fn url_string_to_json_schema() {
    let schema = string_schema(StringType::Url);
    assert_schema_equals(&schema, r#"{ "type": "string", "format": "uri" }"#);
}

#[test]
fn iso_date_string_to_json_schema() {
    let schema = string_schema(StringType::IsoDate);
    assert_schema_equals(&schema, r#"{ "type": "string", "format": "date" }"#);
}

#[test]
fn datetime_iso8601_string_to_json_schema() {
    let schema = string_schema(StringType::DateTimeISO8601);
    assert_schema_equals(&schema, r#"{ "type": "string", "format": "date-time" }"#);
}

#[test]
fn hostname_string_to_json_schema() {
    let schema = string_schema(StringType::Hostname);
    assert_schema_equals(
        &schema,
        r#"{ "type": "string", "format": "hostname", "x-drivel-type": "hostname" }"#,
    );
}

#[test]
fn datetime_rfc2822_string_to_json_schema() {
    let schema = string_schema(StringType::DateTimeRFC2822);
    assert_schema_equals(
        &schema,
        r#"{
            "type": "string",
            "x-drivel-type": "datetime-rfc2822",
            "description": "RFC 2822 datetime format"
        }"#,
    );
}

#[test]
fn enum_string_multiple_variants_to_json_schema() {
    let schema = string_schema(enum_string(vec!["red", "green", "blue"]));
    let result = to_serde(&schema.to_json_schema());
    assert_eq!(result["type"], "string");
    assert!(result["enum"].is_array());
    let enum_values = result["enum"].as_array().unwrap();
    assert_eq!(enum_values.len(), 3);
}

#[test]
fn enum_string_single_variant_to_json_schema() {
    let schema = string_schema(enum_string(vec!["only"]));
    assert_schema_equals(&schema, r#"{ "type": "string", "enum": ["only"] }"#);
}

#[test]
fn enum_string_empty_variants_to_json_schema() {
    let schema = string_schema(enum_string(vec![]));
    assert_schema_equals(&schema, r#"{ "type": "string", "enum": [] }"#);
}

#[test]
fn integer_range_to_json_schema() {
    let schema = number_schema(integer_range(1, 100));
    assert_schema_equals(&schema, r#"{ "type": "integer" }"#);
}

#[test]
fn integer_single_value_to_json_schema() {
    let schema = number_schema(integer_range(42, 42));
    assert_schema_equals(&schema, r#"{ "type": "integer" }"#);
}

#[test]
fn integer_negative_range_to_json_schema() {
    let schema = number_schema(integer_range(-100, -10));
    assert_schema_equals(&schema, r#"{ "type": "integer" }"#);
}

#[test]
fn integer_zero_range_to_json_schema() {
    let schema = number_schema(integer_range(0, 0));
    assert_schema_equals(&schema, r#"{ "type": "integer" }"#);
}

#[test]
fn float_range_to_json_schema() {
    let schema = number_schema(float_range(1.5, 99.9));
    assert_schema_equals(&schema, r#"{ "type": "number" }"#);
}

#[test]
fn float_single_value_to_json_schema() {
    let schema = number_schema(float_range(3.14, 3.14));
    assert_schema_equals(&schema, r#"{ "type": "number" }"#);
}

#[test]
fn float_negative_range_to_json_schema() {
    let schema = number_schema(float_range(-99.9, -1.1));
    assert_schema_equals(&schema, r#"{ "type": "number" }"#);
}

#[test]
fn nullable_string_to_json_schema() {
    let schema = nullable_schema(string_schema(StringType::UUID));
    assert_schema_equals(&schema, r#"{ "type": ["string", "null"], "format": "uuid" }"#);
}

#[test]
fn nullable_integer_to_json_schema() {
    let schema = nullable_schema(number_schema(integer_range(1, 10)));
    assert_schema_equals(&schema, r#"{ "type": ["integer", "null"] }"#);
}

#[test]
fn nullable_array_to_json_schema() {
    let schema = nullable_schema(array_schema(1, 3, string_schema(StringType::Email)));
    assert_schema_equals(
        &schema,
        r#"{
            "type": ["array", "null"],
            "items": {
                "type": "string",
                "format": "email"
            }
        }"#,
    );
}

#[test]
fn nullable_object_to_json_schema() {
    let schema = nullable_schema(object_schema(
        vec![("id", number_schema(integer_range(1, 100)))],
        vec![],
    ));
    let result = to_serde(&schema.to_json_schema());
    assert_eq!(result["type"], written(r#"["object", "null"]"#));
    assert_eq!(result["properties"]["id"]["type"], "integer");
    assert_eq!(result["required"], written(r#"["id"]"#));
    assert_eq!(result["additionalProperties"], false);
}

#[test]
fn array_with_constraints_to_json_schema() {
    let schema = array_schema(1, 5, string_schema(StringType::UUID));
    assert_schema_equals(
        &schema,
        r#"{
            "type": "array",
            "items": {
                "type": "string",
                "format": "uuid"
            }
        }"#,
    );
}

#[test]
fn empty_array_to_json_schema() {
    let schema = array_schema(0, 0, SchemaState::Boolean);
    assert_schema_equals(&schema, r#"{ "type": "array", "items": { "type": "boolean" } }"#);
}

#[test]
fn array_of_objects_to_json_schema() {
    let schema = array_schema(
        1,
        10,
        object_schema(vec![("name", string_schema(unknown_string(Some(1), Some(50))))], vec![]),
    );
    let result = to_serde(&schema.to_json_schema());
    assert_eq!(result["type"], "array");
    assert_eq!(result["items"]["type"], "object");
    assert_eq!(result["items"]["properties"]["name"]["type"], "string");
}

#[test]
fn nested_array_to_json_schema() {
    let schema = array_schema(1, 3, array_schema(2, 4, number_schema(integer_range(1, 100))));
    let result = to_serde(&schema.to_json_schema());
    assert_eq!(result["type"], "array");
    assert_eq!(result["items"]["type"], "array");
    assert_eq!(result["items"]["items"]["type"], "integer");
}

#[test]
fn object_with_required_and_optional_to_json_schema() {
    let schema = object_schema(
        vec![("id", number_schema(integer_range(1, 1000)))],
        vec![("name", string_schema(unknown_string(Some(1), Some(50))))],
    );
    let result = to_serde(&schema.to_json_schema());

    assert_eq!(result["type"], "object");
    assert_eq!(result["additionalProperties"], false);
    assert_eq!(result["required"], written(r#"["id"]"#));
    assert_eq!(result["properties"]["id"]["type"], "integer");
    assert_eq!(result["properties"]["name"]["type"], "string");
}

#[test]
fn empty_object_to_json_schema() {
    let schema = object_schema(vec![], vec![]);
    assert_schema_equals(
        &schema,
        r#"{
            "type": "object",
            "additionalProperties": false,
            "required": [],
            "properties": {}
        }"#,
    );
}

#[test]
fn object_required_only_to_json_schema() {
    let schema = object_schema(
        vec![("id", number_schema(integer_range(1, 100))), ("status", SchemaState::Boolean)],
        vec![],
    );
    let result = to_serde(&schema.to_json_schema());
    assert_eq!(result["type"], "object");
    assert_eq!(result["required"].as_array().unwrap().len(), 2);
    assert!(result["required"].as_array().unwrap().contains(&written("\"id\"")));
    assert!(result["required"].as_array().unwrap().contains(&written("\"status\"")));
}

#[test]
fn object_optional_only_to_json_schema() {
    let schema = object_schema(
        vec![],
        vec![
            ("description", string_schema(unknown_string(None, None))),
            ("count", number_schema(integer_range(0, 10))),
        ],
    );
    let result = to_serde(&schema.to_json_schema());
    assert_eq!(result["type"], "object");
    assert_eq!(result["required"], written("[]"));
    assert_eq!(result["properties"]["description"]["type"], "string");
    assert_eq!(result["properties"]["count"]["type"], "integer");
}

#[test]
fn nested_object_to_json_schema() {
    let inner_object =
        object_schema(vec![("nested_id", number_schema(integer_range(1, 10)))], vec![]);
    let schema = object_schema(vec![("inner", inner_object)], vec![]);
    let result = to_serde(&schema.to_json_schema());
    assert_eq!(result["type"], "object");
    assert_eq!(result["properties"]["inner"]["type"], "object");
    assert_eq!(result["properties"]["inner"]["properties"]["nested_id"]["type"], "integer");
    assert_eq!(result["properties"]["inner"]["required"], written(r#"["nested_id"]"#));
}

#[test]
fn json_schema_document_format() {
    let schema = SchemaState::Boolean;
    let document = to_serde(&schema.to_json_schema_document());

    assert_eq!(document["$schema"], "https://json-schema.org/draft/2020-12/schema");
    assert_eq!(document["title"], "Inferred Schema");
    assert_eq!(document["description"], "Schema inferred by drivel from sample data");
    assert_eq!(document["type"], "boolean");
}

#[test]
fn document_of_a_string_type_and_of_a_number_type() {
    let document = to_serde(&StringType::UUID.to_json_schema_document());
    assert_eq!(document["title"], "Inferred Schema");
    assert_eq!(document["type"], "string");
    assert_eq!(document["format"], "uuid");
    let document = to_serde(&integer_range(1, 2).to_json_schema_document());
    assert_eq!(document["type"], "integer");
    let document = to_serde(&SchemaState::Initial.to_json_schema_document());
    assert_eq!(document.as_object().unwrap().len(), 3);
}

#[test]
fn nullable_of_an_indefinite_schema_has_no_type() {
    let schema = nullable_schema(SchemaState::Indefinite);
    assert_schema_equals(&schema, "{}");
}

#[test]
fn members_are_written_in_order() {
    let schema = object_schema(
        vec![("b", SchemaState::Boolean), ("a", SchemaState::Null)],
        vec![("c", number_schema(float_range(0.5, 1.5)))],
    );
    match schema.to_json_schema() {
        JsonValue::Object(members) => {
            let names: Vec<&str> = members.iter().map(|(name, _)| name.as_str()).collect();
            assert_eq!(names, vec!["type", "properties", "required", "additionalProperties"]);
            match &members[1].1 {
                JsonValue::Object(properties) => {
                    let names: Vec<&str> =
                        properties.iter().map(|(name, _)| name.as_str()).collect();
                    assert_eq!(names, vec!["b", "a", "c"]);
                }
                other => panic!("properties are {:?}", other),
            }
        }
        other => panic!("schema is {:?}", other),
    }
}
