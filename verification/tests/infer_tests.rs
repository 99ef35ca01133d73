use drivel::double::Double;
use drivel::infer::{infer_schema, infer_schema_from_iter, EnumInference, InferenceOptions};
use drivel::json::{JsonNumber, JsonValue};
use drivel::schema::{NumberType, SchemaState, StringType};
use drivel::strings::distinct_of;

fn d(x: f64) -> Double {
    Double::from_bits(x.to_bits())
}

fn from_serde(value: &serde_json::Value) -> JsonValue {
    match value {
        serde_json::Value::Null => JsonValue::Null,
        serde_json::Value::Bool(b) => JsonValue::Bool(*b),
        serde_json::Value::Number(n) => {
            if let Some(u) = n.as_u64() {
                JsonValue::Number(JsonNumber::PosInt(u))
            } else if let Some(i) = n.as_i64() {
                JsonValue::Number(JsonNumber::NegInt(i))
            } else {
                JsonValue::Number(JsonNumber::Float(d(n.as_f64().unwrap())))
            }
        }
        serde_json::Value::String(s) => JsonValue::String(s.clone()),
        serde_json::Value::Array(items) => JsonValue::Array(items.iter().map(from_serde).collect()),
        serde_json::Value::Object(members) => JsonValue::Object(
            members.iter().map(|(k, v)| (k.clone(), from_serde(v))).collect(),
        ),
    }
}

fn json(text: &str) -> JsonValue {
    from_serde(&serde_json::from_str(text).unwrap())
}

fn normalize(schema: SchemaState) -> SchemaState {
    match schema {
        SchemaState::Nullable(inner) => SchemaState::Nullable(Box::new(normalize(*inner))),
        SchemaState::String(StringType::Enum { mut variants }) => {
            variants.sort();
            SchemaState::String(StringType::Enum { variants })
        }
        SchemaState::Array { min_length, max_length, schema } => SchemaState::Array {
            min_length,
            max_length,
            schema: Box::new(normalize(*schema)),
        },
        SchemaState::Object { required, optional } => {
            let mut required: Vec<(String, SchemaState)> =
                required.into_iter().map(|(k, v)| (k, normalize(v))).collect();
            let mut optional: Vec<(String, SchemaState)> =
                optional.into_iter().map(|(k, v)| (k, normalize(v))).collect();
            required.sort_by(|a, b| a.0.cmp(&b.0));
            optional.sort_by(|a, b| a.0.cmp(&b.0));
            SchemaState::Object { required, optional }
        }
        other => other,
    }
}

fn assert_same(actual: SchemaState, expected: SchemaState) {
    assert_eq!(normalize(actual), normalize(expected));
}

fn unknown(strings: &[&str], min: usize, max: usize) -> StringType {
    StringType::Unknown {
        strings_seen: strings.iter().map(|s| s.to_string()).collect(),
        chars_seen: strings.iter().flat_map(|s| s.chars()).collect(),
        min_length: Some(min),
        max_length: Some(max),
    }
}

fn no_enum_options() -> InferenceOptions {
    InferenceOptions { enum_inference: None }
}

#[test]
fn infers_null() {
    let input = json("null");
    let options = no_enum_options();
    let schema = infer_schema(input, &options);

    assert_eq!(schema, SchemaState::Null)
}

#[test]
fn infers_string_unknown_type() {
    let input = json("\"foo\"");
    let options = no_enum_options();
    let schema = infer_schema(input, &options);

    assert_eq!(
        schema,
        SchemaState::String(StringType::Unknown {
            strings_seen: vec!["foo".to_owned()],
            chars_seen: vec!['f', 'o', 'o'],
            min_length: Some(3),
            max_length: Some(3)
        })
    )
}

#[test]
fn infers_string_iso_date() {
    let input = json("\"2013-01-12\"");
    let options = no_enum_options();
    let schema = infer_schema(input, &options);

    assert_eq!(schema, SchemaState::String(StringType::IsoDate))
}

#[test]
fn infers_string_iso_date_time_rfc_2822() {
    let input = json("\"Thu, 18 Mar 2021 10:37:31 +0000\"");
    let options = no_enum_options();
    let schema = infer_schema(input, &options);

    assert_eq!(schema, SchemaState::String(StringType::DateTimeRFC2822))
}

#[test]
fn infers_string_iso_date_time_rfc_3339_offset() {
    let input = json("\"2013-01-12T00:00:00.000+00:00\"");
    let options = no_enum_options();
    let schema = infer_schema(input, &options);

    assert_eq!(schema, SchemaState::String(StringType::DateTimeISO8601))
}

#[test]
fn infers_string_iso_date_time_rfc_3339_utc() {
    let input = json("\"2013-01-12T00:00:00.000Z\"");
    let options = no_enum_options();
    let schema = infer_schema(input, &options);

    assert_eq!(schema, SchemaState::String(StringType::DateTimeISO8601))
}

#[test]
fn infers_string_uuid() {
    let input = json("\"988c2c6d-df1b-4bb9-b837-6ba706c0b4ad\"");
    let options = no_enum_options();
    let schema = infer_schema(input, &options);

    assert_eq!(schema, SchemaState::String(StringType::UUID))
}

#[test]
fn infers_string_email() {
    let input = json("\"test@example.com\"");
    let options = no_enum_options();
    let schema = infer_schema(input, &options);

    assert_eq!(schema, SchemaState::String(StringType::Email))
}

#[test]
fn infers_string_url() {
    let input = json("\"https://somedomain.somehost.nl/somepage\"");
    let options = no_enum_options();
    let schema = infer_schema(input, &options);

    assert_eq!(schema, SchemaState::String(StringType::Url))
}

#[test]
fn infers_string_hostname() {
    let input = json("\"somehost.com\"");
    let options = no_enum_options();
    let schema = infer_schema(input, &options);

    assert_eq!(schema, SchemaState::String(StringType::Hostname))
}

#[test]
fn infers_number() {
    let input = json("42");
    let options = no_enum_options();
    let schema = infer_schema(input, &options);

    assert_eq!(schema, SchemaState::Number(NumberType::Integer { min: 42, max: 42 }))
}

#[test]
fn infers_number_float() {
    let input = json("42.0");
    let options = no_enum_options();
    let schema = infer_schema(input, &options);

    assert_eq!(
        schema,
        SchemaState::Number(NumberType::Float { min: d(42.0), max: d(42.0) })
    )
}

#[test]
fn infers_boolean_true() {
    let input = json("true");
    let options = no_enum_options();
    let schema = infer_schema(input, &options);

    assert_eq!(schema, SchemaState::Boolean)
}

#[test]
fn infers_boolean_false() {
    let input = json("false");
    let options = no_enum_options();
    let schema = infer_schema(input, &options);

    assert_eq!(schema, SchemaState::Boolean)
}

#[test]
fn infers_object() {
    let input = json(
        r#"{
            "string": "foo",
            "int": 10,
            "float": 10.4,
            "bool": false,
            "array": ["baz"],
            "null": null,
            "object": {
                "string": "foo"
            }
        }"#,
    );
    let options = no_enum_options();
    let schema = infer_schema(input, &options);

    assert_same(
        schema,
        SchemaState::Object {
            required: vec![
                ("string".to_string(), SchemaState::String(unknown(&["foo"], 3, 3))),
                (
                    "int".to_string(),
                    SchemaState::Number(NumberType::Integer { min: 10, max: 10 }),
                ),
                (
                    "float".to_string(),
                    SchemaState::Number(NumberType::Float { min: d(10.4), max: d(10.4) }),
                ),
                ("bool".to_string(), SchemaState::Boolean),
                (
                    "array".to_string(),
                    SchemaState::Array {
                        min_length: 1,
                        max_length: 1,
                        schema: Box::new(SchemaState::String(unknown(&["baz"], 3, 3))),
                    },
                ),
                ("null".to_string(), SchemaState::Null),
                (
                    "object".to_string(),
                    SchemaState::Object {
                        required: vec![(
                            "string".to_owned(),
                            SchemaState::String(unknown(&["foo"], 3, 3)),
                        )],
                        optional: vec![],
                    },
                ),
            ],
            optional: vec![],
        },
    )
}

#[test]
fn infers_array_null() {
    let input = json("[null, null]");
    let options = no_enum_options();
    let schema = infer_schema(input, &options);

    assert_eq!(
        schema,
        SchemaState::Array { min_length: 2, max_length: 2, schema: Box::new(SchemaState::Null) }
    );
}

#[test]
fn infers_array_string() {
    let input = json(r#"["foo", "barbar"]"#);
    let options = no_enum_options();
    let schema = infer_schema(input, &options);

    assert_eq!(
        schema,
        SchemaState::Array {
            min_length: 2,
            max_length: 2,
            schema: Box::new(SchemaState::String(StringType::Unknown {
                strings_seen: vec!["foo".to_owned(), "barbar".to_owned()],
                chars_seen: vec!['f', 'o', 'o', 'b', 'a', 'r', 'b', 'a', 'r'],
                min_length: Some(3),
                max_length: Some(6)
            }))
        }
    );
}

#[test]
fn infers_array_string_enum() {
    let input = json(r#"["foo", "barbar", "barbar", "foo"]"#);

    let enum_opts = EnumInference { max_unique_ratio: d(0.5), min_sample_size: 2 };
    let options = InferenceOptions { enum_inference: Some(enum_opts) };

    let schema = infer_schema(input, &options);

    assert_same(
        schema,
        SchemaState::Array {
            min_length: 4,
            max_length: 4,
            schema: Box::new(SchemaState::String(StringType::Enum {
                variants: vec!["foo".to_owned(), "barbar".to_owned()],
            })),
        },
    );
}

#[test]
fn infers_array_string_enum_uniq_ratio_too_high() {
    let input = json(r#"["foo", "barbar", "foo", "barbar"]"#);

    let enum_opts = EnumInference {
        max_unique_ratio: d(0.4), // 2 unique values out of 4 = unique ratio of 0.5
        min_sample_size: 2,
    };
    let options = InferenceOptions { enum_inference: Some(enum_opts) };

    let schema = infer_schema(input, &options);

    assert_eq!(
        schema,
        SchemaState::Array {
            min_length: 4,
            max_length: 4,
            schema: Box::new(SchemaState::String(StringType::Unknown {
                strings_seen: vec![
                    "foo".to_owned(),
                    "barbar".to_owned(),
                    "foo".to_owned(),
                    "barbar".to_owned()
                ],
                chars_seen: vec![
                    'f', 'o', 'o', 'b', 'a', 'r', 'b', 'a', 'r', 'f', 'o', 'o', 'b', 'a', 'r',
                    'b', 'a', 'r'
                ],
                min_length: Some(3),
                max_length: Some(6)
            }))
        }
    );
}

#[test]
fn infers_array_string_enum_sample_size_too_small() {
    let input = json(r#"["foo", "barbar", "foo", "barbar"]"#);

    let enum_opts = EnumInference {
        max_unique_ratio: d(0.5),
        min_sample_size: 5, // sample size too small (4 vs 5)
    };
    let options = InferenceOptions { enum_inference: Some(enum_opts) };

    let schema = infer_schema(input, &options);

    assert_eq!(
        schema,
        SchemaState::Array {
            min_length: 4,
            max_length: 4,
            schema: Box::new(SchemaState::String(StringType::Unknown {
                strings_seen: vec![
                    "foo".to_owned(),
                    "barbar".to_owned(),
                    "foo".to_owned(),
                    "barbar".to_owned()
                ],
                chars_seen: vec![
                    'f', 'o', 'o', 'b', 'a', 'r', 'b', 'a', 'r', 'f', 'o', 'o', 'b', 'a', 'r',
                    'b', 'a', 'r'
                ],
                min_length: Some(3),
                max_length: Some(6)
            }))
        }
    );
}

#[test]
fn infers_array_string_mixed() {
    let input = json(r#"["48f41410-2d97-4d54-8bfa-aa4e22acca01", "barbar"]"#);
    let options = no_enum_options();
    let schema = infer_schema(input, &options);

    assert_eq!(
        schema,
        SchemaState::Array {
            min_length: 2,
            max_length: 2,
            schema: Box::new(SchemaState::String(StringType::Unknown {
                strings_seen: vec!["barbar".to_owned()],
                chars_seen: vec!['b', 'a', 'r', 'b', 'a', 'r'],
                min_length: Some(6),
                max_length: Some(6),
            }))
        }
    )
}

#[test]
fn infers_array_number() {
    let input = json("[100, 104]");
    let options = no_enum_options();
    let schema = infer_schema(input, &options);

    assert_eq!(
        schema,
        SchemaState::Array {
            min_length: 2,
            max_length: 2,
            schema: Box::new(SchemaState::Number(NumberType::Integer { min: 100, max: 104 }))
        }
    )
}

#[test]
fn infers_array_number_float() {
    let input = json("[100, 104.5]");
    let options = no_enum_options();
    let schema = infer_schema(input, &options);

    assert_eq!(
        schema,
        SchemaState::Array {
            min_length: 2,
            max_length: 2,
            schema: Box::new(SchemaState::Number(NumberType::Float {
                min: d(100.0),
                max: d(104.5)
            }))
        }
    );
}

#[test]
fn infers_array_boolean() {
    let input = json("[true, false]");
    let options = no_enum_options();
    let schema = infer_schema(input, &options);

    assert_eq!(
        schema,
        SchemaState::Array {
            min_length: 2,
            max_length: 2,
            schema: Box::new(SchemaState::Boolean)
        }
    );
}

fn three_objects() -> &'static str {
    r#"[
        {
            "foo": "bar",
            "baz": 10,
            "qux": true
        },
        {
            "baz": null,
            "qux": false
        },
        {
            "foo": "barbar",
            "baz": 20,
            "qux": true
        }
    ]"#
}

fn three_objects_schema() -> SchemaState {
    SchemaState::Object {
        required: vec![
            (
                "baz".to_owned(),
                SchemaState::Nullable(Box::new(SchemaState::Number(NumberType::Integer {
                    min: 10,
                    max: 20,
                }))),
            ),
            ("qux".to_owned(), SchemaState::Boolean),
        ],
        optional: vec![(
            "foo".to_owned(),
            SchemaState::String(StringType::Unknown {
                strings_seen: vec!["bar".to_owned(), "barbar".to_owned()],
                chars_seen: vec!['b', 'a', 'r', 'b', 'a', 'r', 'b', 'a', 'r'],
                min_length: Some(3),
                max_length: Some(6),
            }),
        )],
    }
}

#[test]
fn infers_array_object() {
    let input = json(three_objects());
    let options = no_enum_options();
    let schema = infer_schema(input, &options);

    assert_same(
        schema,
        SchemaState::Array {
            min_length: 3,
            max_length: 3,
            schema: Box::new(three_objects_schema()),
        },
    )
}

#[test]
fn infers_array_object_enum() {
    let input = json(
        r#"[
            {
                "foo": "bar"
            },
            {
                "foo": "bar"
            },
            {
                "foo": "baz"
            },
            {
                "foo": "bar"
            }
        ]"#,
    );
    let enun_opts = EnumInference { max_unique_ratio: d(0.5), min_sample_size: 2 };
    let options = InferenceOptions { enum_inference: Some(enun_opts) };
    let schema = infer_schema(input, &options);

    assert_same(
        schema,
        SchemaState::Array {
            min_length: 4,
            max_length: 4,
            schema: Box::new(SchemaState::Object {
                required: vec![(
                    "foo".to_owned(),
                    SchemaState::String(StringType::Enum {
                        variants: vec!["bar".to_owned(), "baz".to_owned()],
                    }),
                )],
                optional: vec![],
            }),
        },
    )
}

#[test]
fn infers_nested_array() {
    let input = json("[[true, false], [false]]");
    let options = no_enum_options();
    let schema = infer_schema(input, &options);

    assert_eq!(
        schema,
        SchemaState::Array {
            min_length: 2,
            max_length: 2,
            schema: Box::new(SchemaState::Array {
                min_length: 1,
                max_length: 2,
                schema: Box::new(SchemaState::Boolean),
            }),
        }
    )
}

#[test]
fn infers_nullable_array() {
    let input_1 = json(r#"["foo", null]"#);
    let options = no_enum_options();
    let schema_1 = infer_schema(input_1, &options);

    let input_2 = json(r#"[null, "foo"]"#);
    let schema_2 = infer_schema(input_2, &options);

    assert_eq!(
        schema_1,
        SchemaState::Array {
            min_length: 2,
            max_length: 2,
            schema: Box::new(SchemaState::Nullable(Box::new(SchemaState::String(
                StringType::Unknown {
                    strings_seen: vec!["foo".to_owned()],
                    chars_seen: vec!['f', 'o', 'o'],
                    min_length: Some(3),
                    max_length: Some(3)
                }
            ))))
        }
    );

    assert_eq!(schema_1, schema_2)
}

#[test]
fn infers_from_iter() {
    let input = match json(three_objects()) {
        JsonValue::Array(items) => items,
        _ => unreachable!(),
    };
    let options = no_enum_options();
    let schema = infer_schema_from_iter(input, &options);
    assert_same(schema, three_objects_schema());
}

#[test]
fn infers_nothing_from_no_documents() {
    let schema = infer_schema_from_iter(vec![], &no_enum_options());
    assert_eq!(schema, SchemaState::Initial);
    let schema = infer_schema(json("[]"), &no_enum_options());
    assert_eq!(
        schema,
        SchemaState::Array {
            min_length: 0,
            max_length: 0,
            schema: Box::new(SchemaState::Initial)
        }
    );
}

#[test]
fn infers_object_with_string_and_integer() {
    let schema = infer_schema(json(r#"{"a": "foo", "b": 10}"#), &no_enum_options());
    assert_same(
        schema,
        SchemaState::Object {
            required: vec![
                ("a".to_string(), SchemaState::String(unknown(&["foo"], 3, 3))),
                ("b".to_string(), SchemaState::Number(NumberType::Integer { min: 10, max: 10 })),
            ],
            optional: vec![],
        },
    );
}

#[test]
fn infers_widened_float_bounds_from_integer_and_float() {
    let schema = infer_schema(json("[10, 10.5]"), &no_enum_options());
    assert_eq!(
        schema,
        SchemaState::Array {
            min_length: 2,
            max_length: 2,
            schema: Box::new(SchemaState::Number(NumberType::Float {
                min: d(10.0),
                max: d(10.5)
            }))
        }
    );
    let schema = infer_schema(json("[3, -7, 12, 2.5, 40, -8]"), &no_enum_options());
    assert_eq!(
        schema,
        SchemaState::Array {
            min_length: 6,
            max_length: 6,
            schema: Box::new(SchemaState::Number(NumberType::Float {
                min: d(-8.0),
                max: d(40.0)
            }))
        }
    );
}

#[test]
fn infers_true_bounds_of_integers() {
    let schema = infer_schema(json("[3, -7, 12, 0, 40, -8, 40]"), &no_enum_options());
    assert_eq!(
        schema,
        SchemaState::Array {
            min_length: 7,
            max_length: 7,
            schema: Box::new(SchemaState::Number(NumberType::Integer { min: -8, max: 40 }))
        }
    );
}

#[test]
fn enum_promotion_follows_both_thresholds() {
    let cases = [
        (0.5, 4, true),
        (0.5, 1, true),
        (0.6, 4, true),
        (1.0, 0, true),
        (0.5, 5, false),
        (0.49999999999999994, 4, false),
        (0.4, 2, false),
        (0.0, 4, false),
        (f64::NAN, 4, false),
        (f64::INFINITY, 4, true),
    ];
    for (ratio, size, promoted) in cases {
        let options = InferenceOptions {
            enum_inference: Some(EnumInference {
                max_unique_ratio: d(ratio),
                min_sample_size: size,
            }),
        };
        let schema = infer_schema(json(r#"["x", "y", "y", "x"]"#), &options);
        let is_enum = matches!(
            schema,
            SchemaState::Array { ref schema, .. }
                if matches!(**schema, SchemaState::String(StringType::Enum { .. }))
        );
        assert_eq!(is_enum, promoted, "ratio {} size {}", ratio, size);
    }
}

#[test]
fn enum_pass_runs_once_after_all_merges() {
    let options = InferenceOptions {
        enum_inference: Some(EnumInference { max_unique_ratio: d(1.0), min_sample_size: 1 }),
    };
    let values = match json(r#"["red", "green", "red"]"#) {
        JsonValue::Array(items) => items,
        _ => unreachable!(),
    };
    let schema = infer_schema_from_iter(values, &options);
    assert_same(
        schema,
        SchemaState::String(StringType::Enum {
            variants: vec!["red".to_owned(), "green".to_owned()],
        }),
    );
    let schema = infer_schema(json(r#"{"colours": ["red", "green", "red"]}"#), &options);
    assert_same(
        schema,
        SchemaState::Object {
            required: vec![(
                "colours".to_owned(),
                SchemaState::Array {
                    min_length: 3,
                    max_length: 3,
                    schema: Box::new(SchemaState::String(StringType::Enum {
                        variants: vec!["green".to_owned(), "red".to_owned()],
                    })),
                },
            )],
            optional: vec![],
        },
    );
}

#[test]
fn no_samples_make_no_enumeration() {
    let options = InferenceOptions {
        enum_inference: Some(EnumInference { max_unique_ratio: d(1.0), min_sample_size: 0 }),
    };
    let schema = infer_schema(
        json(r#"["48f41410-2d97-4d54-8bfa-aa4e22acca01", "test@example.com"]"#),
        &options,
    );
    assert_eq!(
        schema,
        SchemaState::Array {
            min_length: 2,
            max_length: 2,
            schema: Box::new(SchemaState::String(StringType::Unknown {
                strings_seen: vec![],
                chars_seen: vec![],
                min_length: None,
                max_length: None,
            }))
        }
    );
}

#[test]
fn later_member_of_a_repeated_name_counts() {
    let document = JsonValue::Object(vec![
        ("a".to_string(), JsonValue::Bool(true)),
        ("b".to_string(), JsonValue::Null),
        ("a".to_string(), JsonValue::Number(JsonNumber::PosInt(7))),
    ]);
    let schema = infer_schema(document, &no_enum_options());
    assert_same(
        schema,
        SchemaState::Object {
            required: vec![
                ("a".to_string(), SchemaState::Number(NumberType::Integer { min: 7, max: 7 })),
                ("b".to_string(), SchemaState::Null),
            ],
            optional: vec![],
        },
    );
}

#[test]
fn length_of_a_string_counts_bytes_and_samples_characters() {
    let schema = infer_schema(json("\"h\u{e9}llo \u{1f600}\""), &no_enum_options());
    assert_eq!(
        schema,
        SchemaState::String(StringType::Unknown {
            strings_seen: vec!["h\u{e9}llo \u{1f600}".to_owned()],
            chars_seen: vec!['h', '\u{e9}', 'l', 'l', 'o', ' ', '\u{1f600}'],
            min_length: Some(11),
            max_length: Some(11),
        })
    );
}

#[test]
fn integers_beyond_64_signed_bits_count_as_floats() {
    assert_eq!(
        infer_schema(json("9223372036854775807"), &no_enum_options()),
        SchemaState::Number(NumberType::Integer { min: i64::MAX, max: i64::MAX })
    );
    assert_eq!(
        infer_schema(json("-9223372036854775808"), &no_enum_options()),
        SchemaState::Number(NumberType::Integer { min: i64::MIN, max: i64::MIN })
    );
    assert_eq!(
        infer_schema(json("9223372036854775808"), &no_enum_options()),
        SchemaState::Number(NumberType::Float {
            min: d(9223372036854775808.0),
            max: d(9223372036854775808.0)
        })
    );
    assert_eq!(
        infer_schema(json("[18446744073709551615, 1]"), &no_enum_options()),
        SchemaState::Array {
            min_length: 2,
            max_length: 2,
            schema: Box::new(SchemaState::Number(NumberType::Float {
                min: d(1.0),
                max: d(18446744073709551615.0)
            }))
        }
    );
}

#[test]
fn distinct_samples_are_listed_once_in_order() {
    let list = |items: &[&str]| items.iter().map(|s| s.to_string()).collect::<Vec<String>>();
    assert_eq!(distinct_of(&list(&[])), list(&[]));
    assert_eq!(distinct_of(&list(&["a"])), list(&["a"]));
    assert_eq!(distinct_of(&list(&["b", "a", "b", "", "a", "c", ""])), list(&["b", "a", "", "c"]));
    let many: Vec<String> = (0..60000u32).map(|i| format!("value {}", (i * 7919) % 20011)).collect();
    let distinct = distinct_of(&many);
    assert_eq!(distinct.len(), 20011);
    let mut expected: Vec<String> = Vec::new();
    let mut seen = std::collections::HashSet::new();
    for item in &many {
        if seen.insert(item.clone()) {
            expected.push(item.clone());
        }
    }
    assert_eq!(distinct, expected);
}
