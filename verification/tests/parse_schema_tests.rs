use drivel::double::Double;
use drivel::json::{JsonNumber, JsonValue};
use drivel::parse_schema::{
    create_unknown_string_type, parse_json_schema, schema_warnings, validate_min_max_constraint,
    ParseSchemaError,
};
use drivel::schema::{NumberType, SchemaState, StringType};

fn d(x: f64) -> Double {
    Double::from_bits(x.to_bits())
}

fn from_serde(value: &serde_json::Value) -> JsonValue {
    match value {
        serde_json::Value::Null => JsonValue::Null,
        serde_json::Value::Bool(b) => JsonValue::Bool(*b),
        serde_json::Value::Number(n) => {
            if let Some(u) = n.as_u64() {
                JsonValue::Number(JsonNumber::PosInt(u))
            } else if let Some(i) = n.as_i64() {
                JsonValue::Number(JsonNumber::NegInt(i))
            } else {
                JsonValue::Number(JsonNumber::Float(d(n.as_f64().unwrap())))
            }
        }
        serde_json::Value::String(s) => JsonValue::String(s.clone()),
        serde_json::Value::Array(items) => JsonValue::Array(items.iter().map(from_serde).collect()),
        serde_json::Value::Object(members) => JsonValue::Object(
            members.iter().map(|(k, v)| (k.clone(), from_serde(v))).collect(),
        ),
    }
}

fn json(text: &str) -> JsonValue {
    from_serde(&serde_json::from_str(text).unwrap())
}

fn field<'a>(fields: &'a [(String, SchemaState)], name: &str) -> Option<&'a SchemaState> {
    fields.iter().find(|(k, _)| k == name).map(|(_, v)| v)
}

fn has_field(fields: &[(String, SchemaState)], name: &str) -> bool {
    field(fields, name).is_some()
}

fn assert_string_parsing_success(result: Result<SchemaState, ParseSchemaError>) {
    match result {
        Ok(SchemaState::String(_)) => {}
        _ => panic!("Expected string schema to parse successfully"),
    }
}

fn assert_number_parsing_success(result: Result<SchemaState, ParseSchemaError>) {
    match result {
        Ok(SchemaState::Number(_)) => {}
        _ => panic!("Expected number schema to parse successfully"),
    }
}

fn assert_boolean_parsing_success(result: Result<SchemaState, ParseSchemaError>) {
    match result {
        Ok(SchemaState::Boolean) => {}
        _ => panic!("Expected boolean schema to parse successfully"),
    }
}

fn assert_null_parsing_success(result: Result<SchemaState, ParseSchemaError>) {
    match result {
        Ok(SchemaState::Null) => {}
        _ => panic!("Expected null schema to parse successfully"),
    }
}

fn assert_string_format(
    result: Result<SchemaState, ParseSchemaError>,
    expected_format: StringType,
) {
    match result {
        Ok(SchemaState::String(actual_format)) => {
            assert_eq!(
                std::mem::discriminant(&actual_format),
                std::mem::discriminant(&expected_format)
            );
        }
        _ => panic!("Expected string schema with specific format"),
    }
}

fn assert_string_constraints(
    result: Result<SchemaState, ParseSchemaError>,
    min_length: Option<usize>,
    max_length: Option<usize>,
) {
    match result {
        Ok(SchemaState::String(StringType::Unknown {
            min_length: actual_min,
            max_length: actual_max,
            ..
        })) => {
            assert_eq!(actual_min, min_length, "Min length mismatch");
            assert_eq!(actual_max, max_length, "Max length mismatch");
        }
        _ => panic!("Expected string schema with Unknown type and constraints"),
    }
}

fn assert_float_constraints(result: Result<SchemaState, ParseSchemaError>, min: f64, max: f64) {
    match result {
        Ok(SchemaState::Number(NumberType::Float { min: actual_min, max: actual_max })) => {
            assert_eq!(f64::from_bits(actual_min.to_bits()), min, "Min value mismatch");
            assert_eq!(f64::from_bits(actual_max.to_bits()), max, "Max value mismatch");
        }
        _ => panic!("Expected float number schema with constraints"),
    }
}

fn assert_integer_constraints(result: Result<SchemaState, ParseSchemaError>, min: i64, max: i64) {
    match result {
        Ok(SchemaState::Number(NumberType::Integer { min: actual_min, max: actual_max })) => {
            assert_eq!(actual_min, min, "Min value mismatch");
            assert_eq!(actual_max, max, "Max value mismatch");
        }
        _ => panic!("Expected integer number schema with constraints"),
    }
}

#[test]
fn parse_basic_schema() {
    let schema = json(r#"{"type": "string"}"#);
    let result = parse_json_schema(&schema);
    assert_string_parsing_success(result);
}

#[test]
fn parse_with_email_format() {
    let schema = json(r#"{"type": "string", "format": "email"}"#);
    let result = parse_json_schema(&schema);
    assert_string_format(result, StringType::Email);
}

#[test]
fn parse_with_uuid_format() {
    let schema = json(r#"{"type": "string", "format": "uuid"}"#);
    let result = parse_json_schema(&schema);
    assert_string_format(result, StringType::UUID);
}

#[test]
fn parse_with_date_format() {
    let schema = json(r#"{"type": "string", "format": "date"}"#);
    let result = parse_json_schema(&schema);
    assert_string_format(result, StringType::IsoDate);
}

#[test]
fn parse_with_unsupported_format() {
    let schema = json(r#"{"type": "string", "format": "unsupported-format"}"#);
    let result = parse_json_schema(&schema);
    match result {
        Ok(SchemaState::String(StringType::Unknown { .. })) => {}
        _ => panic!("Expected unsupported format to fall back to Unknown string type"),
    }
}

#[test]
fn parse_with_length_constraints() {
    let schema = json(r#"{"type": "string", "minLength": 5, "maxLength": 20}"#);
    let result = parse_json_schema(&schema);
    assert_string_constraints(result, Some(5), Some(20));
}

#[test]
fn parse_with_min_length_only() {
    let schema = json(r#"{"type": "string", "minLength": 10}"#);
    let result = parse_json_schema(&schema);
    assert_string_constraints(result, Some(10), None);
}

#[test]
fn parse_with_max_length_only() {
    let schema = json(r#"{"type": "string", "maxLength": 50}"#);
    let result = parse_json_schema(&schema);
    assert_string_constraints(result, None, Some(50));
}

#[test]
fn parse_enum_schema() {
    let schema = json(r#"{"type": "string", "enum": ["foo", "bar", "baz"]}"#);
    let result = parse_json_schema(&schema);
    match result {
        Ok(SchemaState::String(StringType::Enum { variants })) => {
            assert_eq!(variants.len(), 3);
            assert!(variants.iter().any(|v| v == "foo"));
            assert!(variants.iter().any(|v| v == "bar"));
            assert!(variants.iter().any(|v| v == "baz"));
        }
        _ => panic!("Expected string enum schema to parse to StringType::Enum"),
    }
}

#[test]
fn parse_empty_enum() {
    let schema = json(r#"{"type": "string", "enum": []}"#);
    let result = parse_json_schema(&schema);
    assert!(result.is_err());
    if let Err(err) = result {
        assert!(err.to_string().contains("enum array cannot be empty"));
    }
}

#[test]
fn parse_basic_number_schema() {
    let schema = json(r#"{"type": "number"}"#);
    let result = parse_json_schema(&schema);
    assert_number_parsing_success(result);
}

#[test]
fn parse_basic_integer_schema() {
    let schema = json(r#"{"type": "integer"}"#);
    let result = parse_json_schema(&schema);
    assert_number_parsing_success(result);
}

#[test]
fn parse_number_with_constraints() {
    let schema = json(r#"{"type": "number", "minimum": 1.5, "maximum": 99.9}"#);
    let result = parse_json_schema(&schema);
    assert_float_constraints(result, 1.5, 99.9);
}

#[test]
fn parse_integer_with_constraints() {
    let schema = json(r#"{"type": "integer", "minimum": 0, "maximum": 100}"#);
    let result = parse_json_schema(&schema);
    assert_integer_constraints(result, 0, 100);
}

#[test]
fn parse_number_without_constraints() {
    let schema = json(r#"{"type": "number"}"#);
    let result = parse_json_schema(&schema);
    assert_float_constraints(result, f64::NEG_INFINITY, f64::INFINITY);
}

#[test]
fn parse_integer_without_constraints() {
    let schema = json(r#"{"type": "integer"}"#);
    let result = parse_json_schema(&schema);
    assert_integer_constraints(result, i64::MIN, i64::MAX);
}

#[test]
fn parse_number_with_unsupported_constraints() {
    let schema = json(
        r#"{"type": "number", "minimum": 5.0, "exclusiveMaximum": 10.0, "multipleOf": 2.5}"#,
    );
    let result = parse_json_schema(&schema);
    assert_float_constraints(result, 5.0, 10.0);
}

#[test]
fn parse_number_with_exclusive_minimum() {
    let schema = json(r#"{"type": "number", "exclusiveMinimum": 1.5}"#);
    let result = parse_json_schema(&schema);
    assert_float_constraints(result, 1.5, f64::INFINITY);
}

#[test]
fn parse_number_with_exclusive_maximum() {
    let schema = json(r#"{"type": "number", "exclusiveMaximum": 99.9}"#);
    let result = parse_json_schema(&schema);
    assert_float_constraints(result, f64::NEG_INFINITY, 99.9);
}

#[test]
fn parse_number_with_exclusive_bounds() {
    let schema =
        json(r#"{"type": "number", "exclusiveMinimum": 0.0, "exclusiveMaximum": 100.0}"#);
    let result = parse_json_schema(&schema);
    assert_float_constraints(result, 0.0, 100.0);
}

#[test]
fn parse_integer_with_exclusive_bounds() {
    let schema = json(r#"{"type": "integer", "exclusiveMinimum": 5, "exclusiveMaximum": 20}"#);
    let result = parse_json_schema(&schema);
    assert_integer_constraints(result, 5, 20);
}

#[test]
fn parse_number_with_both_minimum_and_exclusive_minimum() {
    let schema = json(r#"{"type": "number", "minimum": 5.0, "exclusiveMinimum": 10.0}"#);
    let result = parse_json_schema(&schema);
    assert!(result.is_err());
    if let Err(err) = result {
        assert!(err.to_string().contains("Cannot specify both minimum and exclusiveMinimum"));
    }
}

#[test]
fn parse_number_with_both_maximum_and_exclusive_maximum() {
    let schema = json(r#"{"type": "number", "maximum": 100.0, "exclusiveMaximum": 50.0}"#);
    let result = parse_json_schema(&schema);
    assert!(result.is_err());
    if let Err(err) = result {
        assert!(err.to_string().contains("Cannot specify both maximum and exclusiveMaximum"));
    }
}

#[test]
fn parse_number_with_extreme_exclusive_maximum() {
    let schema =
        json(&format!(r#"{{"type": "number", "exclusiveMaximum": {:e}}}"#, f64::MAX));
    let result = parse_json_schema(&schema);
    // Should parse successfully without crashing
    assert_float_constraints(result, f64::NEG_INFINITY, f64::MAX);
}

#[test]
fn parse_number_with_extreme_exclusive_minimum() {
    let schema =
        json(&format!(r#"{{"type": "number", "exclusiveMinimum": {:e}}}"#, f64::MIN));
    let result = parse_json_schema(&schema);
    // Should parse successfully without crashing
    assert_float_constraints(result, f64::MIN, f64::INFINITY);
}

#[test]
fn parse_integer_with_extreme_exclusive_maximum() {
    let schema = json(&format!(r#"{{"type": "integer", "exclusiveMaximum": {}}}"#, i64::MAX));
    let result = parse_json_schema(&schema);
    // Should parse successfully without crashing
    assert_integer_constraints(result, i64::MIN, i64::MAX);
}

#[test]
fn parse_integer_with_extreme_exclusive_minimum() {
    let schema = json(&format!(r#"{{"type": "integer", "exclusiveMinimum": {}}}"#, i64::MIN));
    let result = parse_json_schema(&schema);
    // Should parse successfully without crashing
    assert_integer_constraints(result, i64::MIN, i64::MAX);
}

#[test]
fn parse_boolean_schema() {
    let schema = json(r#"{"type": "boolean"}"#);
    let result = parse_json_schema(&schema);
    assert_boolean_parsing_success(result);
}

#[test]
fn parse_null_schema() {
    let schema = json(r#"{"type": "null"}"#);
    let result = parse_json_schema(&schema);
    assert_null_parsing_success(result);
}

#[test]
fn parse_basic_object_schema() {
    let schema = json(
        r#"{
            "type": "object",
            "properties": {
                "name": {"type": "string"},
                "age": {"type": "integer"}
            },
            "required": ["name"]
        }"#,
    );
    let result = parse_json_schema(&schema);
    match result {
        Ok(SchemaState::Object { required, optional }) => {
            assert!(has_field(&required, "name"));
            assert!(matches!(field(&required, "name"), Some(SchemaState::String(_))));
            assert!(has_field(&optional, "age"));
            assert!(matches!(field(&optional, "age"), Some(SchemaState::Number(_))));
        }
        _ => panic!("Expected object schema to parse to SchemaState::Object"),
    }
}

#[test]
fn parse_nested_object_schema() {
    let schema = json(
        r#"{
            "type": "object",
            "properties": {
                "user": {
                    "type": "object",
                    "properties": {
                        "id": {"type": "integer"},
                        "email": {"type": "string", "format": "email"}
                    },
                    "required": ["id"]
                },
                "active": {"type": "boolean"}
            },
            "required": ["user"]
        }"#,
    );
    let result = parse_json_schema(&schema);
    match result {
        Ok(SchemaState::Object { required, optional }) => {
            assert!(has_field(&required, "user"));
            match field(&required, "user") {
                Some(SchemaState::Object { required: user_required, optional: user_optional }) => {
                    assert!(has_field(user_required, "id"));
                    assert!(matches!(field(user_required, "id"), Some(SchemaState::Number(_))));
                    assert!(has_field(user_optional, "email"));
                    assert!(matches!(
                        field(user_optional, "email"),
                        Some(SchemaState::String(_))
                    ));
                }
                _ => panic!("Expected user field to be an object"),
            }
            assert!(has_field(&optional, "active"));
            assert!(matches!(field(&optional, "active"), Some(SchemaState::Boolean)));
        }
        _ => panic!("Expected nested object schema to parse to SchemaState::Object"),
    }
}

#[test]
fn parse_basic_array_schema() {
    let schema = json(
        r#"{
            "type": "array",
            "items": {"type": "string"},
            "minItems": 1,
            "maxItems": 10
        }"#,
    );
    let result = parse_json_schema(&schema);
    match result {
        Ok(SchemaState::Array { min_length, max_length, schema: item_schema }) => {
            assert_eq!(min_length, 1);
            assert_eq!(max_length, 10);
            assert!(matches!(item_schema.as_ref(), SchemaState::String(_)));
        }
        _ => panic!("Expected array schema to parse to SchemaState::Array"),
    }
}

#[test]
fn parse_array_without_constraints() {
    let schema = json(
        r#"{
            "type": "array",
            "items": {"type": "integer"}
        }"#,
    );
    let result = parse_json_schema(&schema);
    match result {
        Ok(SchemaState::Array { min_length, max_length, schema: item_schema }) => {
            assert_eq!(min_length, 0);
            assert_eq!(max_length, 16);
            assert!(matches!(item_schema.as_ref(), SchemaState::Number(_)));
        }
        _ => panic!("Expected array without constraints to parse with default bounds"),
    }
}

#[test]
fn parse_nested_array_schema() {
    let schema = json(
        r#"{
            "type": "array",
            "items": {
                "type": "array",
                "items": {"type": "string", "format": "email"},
                "minItems": 2,
                "maxItems": 5
            },
            "minItems": 1,
            "maxItems": 3
        }"#,
    );
    let result = parse_json_schema(&schema);
    match result {
        Ok(SchemaState::Array { min_length, max_length, schema: item_schema }) => {
            assert_eq!(min_length, 1);
            assert_eq!(max_length, 3);
            match item_schema.as_ref() {
                SchemaState::Array {
                    min_length: inner_min,
                    max_length: inner_max,
                    schema: inner_schema,
                } => {
                    assert_eq!(*inner_min, 2);
                    assert_eq!(*inner_max, 5);
                    assert!(matches!(inner_schema.as_ref(), SchemaState::String(_)));
                }
                _ => panic!("Expected nested array structure"),
            }
        }
        _ => panic!("Expected nested array schema to parse to SchemaState::Array"),
    }
}

#[test]
fn parse_array_of_objects() {
    let schema = json(
        r#"{
            "type": "array",
            "items": {
                "type": "object",
                "properties": {
                    "id": {"type": "integer"},
                    "name": {"type": "string"}
                },
                "required": ["id"]
            }
        }"#,
    );
    let result = parse_json_schema(&schema);
    match result {
        Ok(SchemaState::Array { schema: item_schema, .. }) => match item_schema.as_ref() {
            SchemaState::Object { required, optional } => {
                assert!(has_field(required, "id"));
                assert!(has_field(optional, "name"));
            }
            _ => panic!("Expected array items to be objects"),
        },
        _ => panic!("Expected array of objects to parse correctly"),
    }
}

#[test]
fn parse_nullable_string() {
    let schema = json(r#"{"type": ["string", "null"]}"#);
    let result = parse_json_schema(&schema);
    match result {
        Ok(SchemaState::Nullable(inner)) => match inner.as_ref() {
            SchemaState::String(_) => {}
            _ => panic!("Expected nullable string to contain string type"),
        },
        _ => panic!("Expected nullable string to parse as SchemaState::Nullable"),
    }
}

#[test]
fn parse_nullable_integer() {
    let schema = json(r#"{"type": ["integer", "null"]}"#);
    let result = parse_json_schema(&schema);
    match result {
        Ok(SchemaState::Nullable(inner)) => match inner.as_ref() {
            SchemaState::Number(NumberType::Integer { .. }) => {}
            _ => panic!("Expected nullable integer to contain integer type"),
        },
        _ => panic!("Expected nullable integer to parse as SchemaState::Nullable"),
    }
}

#[test]
fn parse_nullable_array() {
    let schema = json(
        r#"{
            "type": ["array", "null"],
            "items": {"type": "string"}
        }"#,
    );
    let result = parse_json_schema(&schema);
    match result {
        Ok(SchemaState::Nullable(inner)) => match inner.as_ref() {
            SchemaState::Array { .. } => {}
            _ => panic!("Expected nullable array to contain array type"),
        },
        _ => panic!("Expected nullable array to parse as SchemaState::Nullable"),
    }
}

#[test]
fn parse_nullable_object() {
    let schema = json(
        r#"{
            "type": ["object", "null"],
            "properties": {"name": {"type": "string"}}
        }"#,
    );
    let result = parse_json_schema(&schema);
    match result {
        Ok(SchemaState::Nullable(inner)) => match inner.as_ref() {
            SchemaState::Object { .. } => {}
            _ => panic!("Expected nullable object to contain object type"),
        },
        _ => panic!("Expected nullable object to parse as SchemaState::Nullable"),
    }
}

#[test]
fn parse_nullable_reversed_order() {
    let schema = json(r#"{"type": ["null", "string"]}"#);
    let result = parse_json_schema(&schema);
    match result {
        Ok(SchemaState::Nullable(inner)) => match inner.as_ref() {
            SchemaState::String(_) => {}
            _ => panic!("Expected nullable string to contain string type"),
        },
        _ => panic!("Expected nullable string to parse as SchemaState::Nullable"),
    }
}

#[test]
fn parse_nullable_anyof_pattern() {
    let schema = json(
        r#"{
            "anyOf": [
                {"type": "string"},
                {"type": "null"}
            ]
        }"#,
    );
    let result = parse_json_schema(&schema);
    match result {
        Ok(SchemaState::Nullable(inner)) => match inner.as_ref() {
            SchemaState::String(_) => {}
            _ => panic!("Expected nullable string via anyOf to contain string type"),
        },
        _ => panic!("Expected anyOf nullable pattern to parse as SchemaState::Nullable"),
    }
}

#[test]
fn parse_nullable_oneof_pattern() {
    let schema = json(
        r#"{
            "oneOf": [
                {"type": "string"},
                {"type": "null"}
            ]
        }"#,
    );
    let result = parse_json_schema(&schema);
    match result {
        Ok(SchemaState::Nullable(inner)) => match inner.as_ref() {
            SchemaState::String(_) => {}
            _ => panic!("Expected nullable string via oneOf to contain string type"),
        },
        _ => panic!("Expected oneOf nullable pattern to parse as SchemaState::Nullable"),
    }
}

#[test]
fn parse_nullable_anyof_with_constraints() {
    let schema = json(
        r#"{
            "anyOf": [
                {
                    "type": "integer",
                    "minimum": 1,
                    "maximum": 100
                },
                {"type": "null"}
            ]
        }"#,
    );
    let result = parse_json_schema(&schema);
    match result {
        Ok(SchemaState::Nullable(inner)) => match inner.as_ref() {
            SchemaState::Number(NumberType::Integer { min, max }) => {
                assert_eq!(*min, 1);
                assert_eq!(*max, 100);
            }
            _ => panic!("Expected nullable integer with constraints"),
        },
        _ => panic!("Expected anyOf nullable integer with constraints to parse correctly"),
    }
}

#[test]
fn parse_nullable_oneof_reversed_order() {
    let schema = json(
        r#"{
            "oneOf": [
                {"type": "null"},
                {"type": "boolean"}
            ]
        }"#,
    );
    let result = parse_json_schema(&schema);
    match result {
        Ok(SchemaState::Nullable(inner)) => match inner.as_ref() {
            SchemaState::Boolean => {}
            _ => panic!("Expected nullable boolean"),
        },
        _ => panic!("Expected oneOf nullable boolean to parse correctly"),
    }
}

#[test]
fn object_with_invalid_properties_field() {
    let schema = json(r#"{"type": "object", "properties": "not_an_object"}"#);
    let result = parse_json_schema(&schema);
    assert!(result.is_err());
    if let Err(err) = result {
        assert!(err.to_string().contains("properties must be an object"));
    }
}

#[test]
fn object_with_invalid_required_field() {
    let schema = json(r#"{"type": "object", "required": "not_an_array"}"#);
    let result = parse_json_schema(&schema);
    assert!(result.is_err());
    if let Err(err) = result {
        assert!(err.to_string().contains("required must be an array"));
    }
}

#[test]
fn string_with_invalid_length_constraints() {
    let schema = json(r#"{"type": "string", "minLength": 10, "maxLength": 5}"#);
    let result = parse_json_schema(&schema);
    assert!(result.is_err());
    if let Err(err) = result {
        assert!(err.to_string().contains("minLength cannot be greater than maxLength"));
    }
}

#[test]
fn integer_with_invalid_range_constraints() {
    let schema = json(r#"{"type": "integer", "minimum": 100, "maximum": 50}"#);
    let result = parse_json_schema(&schema);
    assert!(result.is_err());
    if let Err(err) = result {
        assert!(err.to_string().contains("minimum cannot be greater than maximum"));
    }
}

#[test]
fn number_with_invalid_range_constraints() {
    let schema = json(r#"{"type": "number", "minimum": 10.5, "maximum": 5.2}"#);
    let result = parse_json_schema(&schema);
    assert!(result.is_err());
    if let Err(err) = result {
        assert!(err.to_string().contains("minimum cannot be greater than maximum"));
    }
}

#[test]
fn string_with_empty_enum() {
    let schema = json(r#"{"type": "string", "enum": []}"#);
    let result = parse_json_schema(&schema);
    assert!(result.is_err());
    if let Err(err) = result {
        assert!(err.to_string().contains("enum array cannot be empty"));
    }
}

fn error_line(text: &str) -> String {
    match parse_json_schema(&json(text)) {
        Ok(schema) => panic!("parsed as {:?}", schema),
        Err(err) => err.to_string(),
    }
}

#[test]
fn each_shape_error_has_its_line() {
    assert_eq!(error_line("[]"), "Invalid JSON Schema: Schema must be an object");
    assert_eq!(
        error_line("{}"),
        "Invalid JSON Schema: Schema must have a 'type' field, 'anyOf', or 'oneOf'"
    );
    assert_eq!(
        error_line(r#"{"type": 5}"#),
        "Invalid JSON Schema: Type field must be a string or array"
    );
    assert_eq!(
        error_line(r#"{"type": ["string", 5]}"#),
        "Invalid JSON Schema: All type array elements must be strings"
    );
    assert_eq!(
        error_line(r#"{"type": ["null", "null"]}"#),
        "Invalid JSON Schema: Nullable type array must contain a non-null type"
    );
    assert_eq!(
        error_line(r#"{"anyOf": 5}"#),
        "Invalid JSON Schema: anyOf/oneOf must be an array"
    );
    assert_eq!(
        error_line(r#"{"oneOf": [5, {"type": "null"}]}"#),
        "Invalid JSON Schema: anyOf/oneOf items must be an object"
    );
    assert_eq!(
        error_line(r#"{"type": "string", "minLength": "a"}"#),
        "Invalid JSON Schema: minLength must be a number"
    );
    assert_eq!(
        error_line(r#"{"type": "string", "maxLength": -1}"#),
        "Invalid JSON Schema: maxLength must be a number"
    );
    assert_eq!(
        error_line(r#"{"type": "string", "maxLength": 1.5}"#),
        "Invalid JSON Schema: maxLength must be a number"
    );
    assert_eq!(
        error_line(r#"{"type": "string", "enum": "a"}"#),
        "Invalid JSON Schema: Enum field must be an array"
    );
    assert_eq!(
        error_line(r#"{"type": "string", "enum": ["a", 1]}"#),
        "Invalid JSON Schema: All enum values must be a string"
    );
    assert_eq!(
        error_line(r#"{"type": "string", "format": 1}"#),
        "Invalid JSON Schema: Format field must be a string"
    );
    assert_eq!(
        error_line(r#"{"type": "number", "minimum": "low"}"#),
        "Invalid JSON Schema: minimum must be a number"
    );
    assert_eq!(
        error_line(r#"{"type": "integer", "exclusiveMaximum": []}"#),
        "Invalid JSON Schema: exclusiveMaximum must be a number"
    );
    assert_eq!(
        error_line(r#"{"type": "object", "required": [1]}"#),
        "Invalid JSON Schema: required field names must be a string"
    );
    assert_eq!(
        error_line(r#"{"type": "array"}"#),
        "Invalid JSON Schema: Array schema must have an 'items' field"
    );
    assert_eq!(
        error_line(r#"{"type": "array", "items": {"type": "null"}, "minItems": "x"}"#),
        "Invalid JSON Schema: minItems must be a number"
    );
}

#[test]
fn each_unsupported_feature_has_its_line() {
    assert_eq!(
        error_line(r#"{"type": "tuple"}"#),
        "Unsupported JSON Schema feature: Type 'tuple' not supported yet"
    );
    assert_eq!(
        error_line(r#"{"type": ["string", "null", "number"]}"#),
        "Unsupported JSON Schema feature: Only nullable types with exactly 2 elements are supported"
    );
    assert_eq!(
        error_line(r#"{"type": ["string", "number"]}"#),
        "Unsupported JSON Schema feature: Only one non-null type is supported in nullable types"
    );
    assert_eq!(
        error_line(r#"{"anyOf": [{"type": "string"}, {"type": "number"}]}"#),
        "Unsupported JSON Schema feature: anyOf patterns other than nullable not supported yet"
    );
    assert_eq!(
        error_line(r#"{"oneOf": [{"type": "string"}]}"#),
        "Unsupported JSON Schema feature: oneOf patterns other than nullable not supported yet"
    );
    assert_eq!(
        error_line(r#"{"anyOf": [{"title": "x"}, 5]}"#),
        "Unsupported JSON Schema feature: anyOf patterns other than nullable not supported yet"
    );
    assert_eq!(
        error_line(r#"{"anyOf": [{"type": "null"}, {"type": "null"}]}"#),
        "Unsupported JSON Schema feature: anyOf patterns other than nullable not supported yet"
    );
}

#[test]
fn each_contradiction_has_its_line() {
    assert_eq!(
        error_line(r#"{"type": "number", "minimum": 5, "maximum": 5}"#),
        "Validation failed: Invalid floating point range: range too large or invalid"
    );
    assert_eq!(
        error_line(
            r#"{"type": "number", "minimum": -1.7976931348623157e308, "maximum": 1.7976931348623157e308}"#
        ),
        "Validation failed: Invalid floating point range: range too large or invalid"
    );
    assert_eq!(
        error_line(r#"{"type": "number", "exclusiveMinimum": 2, "exclusiveMaximum": 1}"#),
        "Validation failed: minimum cannot be greater than maximum"
    );
}

#[test]
fn anyof_comes_before_oneof_and_type() {
    let schema = json(
        r#"{
            "type": "string",
            "oneOf": [{"type": "null"}, {"type": "boolean"}],
            "anyOf": [{"type": "integer"}, {"type": "null"}]
        }"#,
    );
    match parse_json_schema(&schema) {
        Ok(SchemaState::Nullable(inner)) => {
            assert!(matches!(*inner, SchemaState::Number(NumberType::Integer { .. })))
        }
        other => panic!("parsed as {:?}", other),
    }
}

#[test]
fn enum_comes_before_format() {
    let schema = json(r#"{"type": "string", "format": "email", "enum": ["b", "a", "b"]}"#);
    match parse_json_schema(&schema) {
        Ok(SchemaState::String(StringType::Enum { variants })) => {
            assert_eq!(variants, vec!["b".to_string(), "a".to_string()]);
        }
        other => panic!("parsed as {:?}", other),
    }
}

#[test]
fn every_known_format_is_read() {
    let formats = [
        ("email", StringType::Email),
        ("uuid", StringType::UUID),
        ("date", StringType::IsoDate),
        ("date-time", StringType::DateTimeISO8601),
        ("uri", StringType::Url),
        ("hostname", StringType::Hostname),
    ];
    for (name, expected) in formats {
        let schema = json(&format!(r#"{{"type": "string", "format": "{}"}}"#, name));
        match parse_json_schema(&schema) {
            Ok(SchemaState::String(actual)) => assert_eq!(actual, expected),
            other => panic!("parsed as {:?}", other),
        }
    }
}

#[test]
fn integer_bounds_are_cast_from_floats() {
    let schema = json(r#"{"type": "integer", "minimum": -2.9, "maximum": 7.9}"#);
    assert_integer_constraints(parse_json_schema(&schema), -2, 7);
    let schema = json(r#"{"type": "integer", "minimum": -1e30, "maximum": 1e30}"#);
    assert_integer_constraints(parse_json_schema(&schema), i64::MIN, i64::MAX);
    let schema = json(r#"{"type": "integer", "maximum": 18446744073709551615}"#);
    assert_integer_constraints(parse_json_schema(&schema), i64::MIN, i64::MAX);
}

#[test]
fn object_schema_is_read_whole() {
    let schema = json(
        r#"{
            "type": "object",
            "properties": {
                "id": {"type": "integer", "minimum": 1, "maximum": 9},
                "tags": {"type": "array", "items": {"type": "string"}, "maxItems": 3},
                "note": {"type": ["string", "null"], "minLength": 2}
            },
            "required": ["id", "tags", "missing"]
        }"#,
    );
    let parsed = parse_json_schema(&schema).unwrap();
    assert!(parsed.is_well_formed());
    match parsed {
        SchemaState::Object { required, optional } => {
            assert_eq!(required.len(), 2);
            assert_eq!(optional.len(), 1);
            assert_eq!(
                field(&required, "id"),
                Some(&SchemaState::Number(NumberType::Integer { min: 1, max: 9 }))
            );
            assert_eq!(
                field(&required, "tags"),
                Some(&SchemaState::Array {
                    min_length: 0,
                    max_length: 3,
                    schema: Box::new(SchemaState::String(StringType::Unknown {
                        strings_seen: vec![],
                        chars_seen: vec![],
                        min_length: None,
                        max_length: None,
                    })),
                })
            );
            assert_eq!(
                field(&optional, "note"),
                Some(&SchemaState::Nullable(Box::new(SchemaState::String(
                    StringType::Unknown {
                        strings_seen: vec![],
                        chars_seen: vec![],
                        min_length: Some(2),
                        max_length: None,
                    }
                ))))
            );
        }
        other => panic!("parsed as {:?}", other),
    }
}

#[test]
fn bounds_in_the_wrong_order_are_refused() {
    assert!(validate_min_max_constraint(Some(3usize), Some(2usize), "wrong").is_err());
    assert!(validate_min_max_constraint(Some(2usize), Some(2usize), "wrong").is_ok());
    assert!(validate_min_max_constraint(Some(2usize), None, "wrong").is_ok());
    assert!(validate_min_max_constraint(None::<usize>, Some(2usize), "wrong").is_ok());
    assert!(validate_min_max_constraint(Some(d(2.5)), Some(d(2.25)), "wrong").is_err());
    assert!(validate_min_max_constraint(Some(d(0.0)), Some(d(-0.0)), "wrong").is_ok());
    assert!(validate_min_max_constraint(Some(d(f64::NAN)), Some(d(1.0)), "wrong").is_ok());
    match validate_min_max_constraint(Some(3usize), Some(2usize), "wrong") {
        Err(err) => assert_eq!(err.to_string(), "Validation failed: wrong"),
        Ok(()) => panic!("accepted"),
    }
}

#[test]
fn unknown_string_type_is_created_without_samples() {
    assert_eq!(
        create_unknown_string_type(Some(1), None),
        StringType::Unknown {
            strings_seen: vec![],
            chars_seen: vec![],
            min_length: Some(1),
            max_length: None,
        }
    );
}

#[test]
fn keywords_that_are_not_honoured_are_warned_of() {
    assert_eq!(schema_warnings(&json(r#"{"type": "string"}"#)), Vec::<String>::new());
    assert_eq!(
        schema_warnings(&json(r#"{"type": "string", "format": "ipv4"}"#)),
        vec!["Warning: Unsupported string format 'ipv4', using basic string type".to_string()]
    );
    assert_eq!(
        schema_warnings(&json(r#"{"type": "string", "format": "ipv4", "enum": ["a"]}"#)),
        Vec::<String>::new()
    );
    assert_eq!(
        schema_warnings(&json(r#"{"type": "string", "format": "email"}"#)),
        Vec::<String>::new()
    );
    assert_eq!(
        schema_warnings(&json(
            r#"{"type": "number", "multipleOf": 2, "exclusiveMaximum": 4, "exclusiveMinimum": 1}"#
        )),
        vec![
            "Warning: exclusiveMinimum not supported, treating as inclusive minimum".to_string(),
            "Warning: exclusiveMaximum not supported, treating as inclusive maximum".to_string(),
            "Warning: multipleOf constraint not supported, ignoring".to_string(),
        ]
    );
    assert_eq!(
        schema_warnings(&json(
            r#"{
                "type": ["null", "object"],
                "properties": {
                    "list": {
                        "type": "array",
                        "items": {"type": "integer", "multipleOf": 3},
                        "uniqueItems": true,
                        "contains": {},
                        "additionalItems": false
                    },
                    "text": {"type": "string", "format": "regex"}
                },
                "additionalProperties": true,
                "patternProperties": {}
            }"#
        )),
        vec![
            "Warning: multipleOf constraint not supported, ignoring".to_string(),
            "Warning: uniqueItems constraint not supported, ignoring".to_string(),
            "Warning: contains keyword not supported, ignoring".to_string(),
            "Warning: additionalItems not supported, ignoring".to_string(),
            "Warning: Unsupported string format 'regex', using basic string type".to_string(),
            "Warning: additionalProperties: true not fully supported, allowing any additional properties"
                .to_string(),
            "Warning: patternProperties not supported, ignoring".to_string(),
        ]
    );
    assert_eq!(
        schema_warnings(&json(
            r#"{"anyOf": [{"type": "null"}, {"type": "object", "additionalProperties": {}}]}"#
        )),
        vec!["Warning: additionalProperties schema not supported, ignoring".to_string()]
    );
    assert_eq!(
        schema_warnings(&json(r#"{"type": "object", "additionalProperties": false}"#)),
        Vec::<String>::new()
    );
    assert_eq!(schema_warnings(&json("5")), Vec::<String>::new());
}
