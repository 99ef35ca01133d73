use drivel::double::Double;
use drivel::infer_string::{dates, uuid, Recognisers};
use drivel::json::JsonNumber;
use drivel::produce::{can_produce, produce, produce_string, repeated, try_produce, Draft};
use drivel::schema::{NumberType, SchemaState, StringType};

fn d(x: f64) -> Double {
    Double::from_bits(x.to_bits())
}

fn integer(min: i64, max: i64) -> SchemaState {
    SchemaState::Number(NumberType::Integer { min, max })
}

fn unknown(chars: &str, min: Option<usize>, max: Option<usize>) -> StringType {
    StringType::Unknown {
        strings_seen: vec![],
        chars_seen: chars.chars().collect(),
        min_length: min,
        max_length: max,
    }
}

fn array(min_length: usize, max_length: usize, schema: SchemaState) -> SchemaState {
    SchemaState::Array { min_length, max_length, schema: Box::new(schema) }
}

fn as_integer(draft: &Draft) -> i64 {
    match draft {
        Draft::Number(JsonNumber::PosInt(n)) => i64::try_from(*n).unwrap(),
        Draft::Number(JsonNumber::NegInt(n)) => {
            assert!(*n < 0);
            *n
        }
        other => panic!("produced {:?}", other),
    }
}

fn as_text(draft: Draft) -> String {
    match draft {
        Draft::String(text) => text,
        other => panic!("produced {:?}", other),
    }
}

fn is_uuid(text: &str) -> bool {
    let bytes = text.as_bytes();
    bytes.len() == 36
        && bytes.iter().enumerate().all(|(i, b)| {
            if i == 8 || i == 13 || i == 18 || i == 23 {
                *b == b'-'
            } else {
                b.is_ascii_digit() || (b'a'..=b'f').contains(b)
            }
        })
}

#[test]
fn root_array_has_as_many_items_as_repetitions() {
    let schema = array(1, 1, integer(0, 100));
    for _ in 0..50 {
        match produce(&schema, 3) {
            Draft::Array(items) => {
                assert_eq!(items.len(), 3);
                for item in &items {
                    let n = as_integer(item);
                    assert!((0..=100).contains(&n));
                }
            }
            other => panic!("produced {:?}", other),
        }
    }
}

#[test]
fn array_below_the_root_keeps_its_bounds() {
    let schema = array(2, 2, array(1, 4, SchemaState::Boolean));
    for _ in 0..50 {
        match produce(&schema, 7) {
            Draft::Array(items) => {
                assert_eq!(items.len(), 7);
                for item in &items {
                    match item {
                        Draft::Array(inner) => {
                            assert!((1..=4).contains(&inner.len()));
                            assert!(inner.iter().all(|b| matches!(b, Draft::Bool(_))));
                        }
                        other => panic!("produced {:?}", other),
                    }
                }
            }
            other => panic!("produced {:?}", other),
        }
    }
    match produce(&array(2, 5, SchemaState::Null), 1) {
        Draft::Array(items) => assert!((2..=5).contains(&items.len())),
        other => panic!("produced {:?}", other),
    }
    match produce(&SchemaState::Nullable(Box::new(array(2, 2, SchemaState::Null))), 9) {
        Draft::Null => {}
        Draft::Array(items) => assert_eq!(items.len(), 2),
        other => panic!("produced {:?}", other),
    }
}

#[test]
fn array_of_items_without_a_schema_is_empty() {
    assert_eq!(produce(&array(3, 3, SchemaState::Initial), 5), Draft::Array(vec![]));
    assert_eq!(produce(&array(3, 5, SchemaState::Indefinite), 1), Draft::Array(vec![]));
    assert_eq!(produce(&array(9, 0, SchemaState::Indefinite), 1), Draft::Array(vec![]));
}

#[test]
fn schemas_without_values_give_null() {
    assert_eq!(produce(&SchemaState::Initial, 1), Draft::Null);
    assert_eq!(produce(&SchemaState::Null, 1), Draft::Null);
    assert_eq!(produce(&SchemaState::Indefinite, 1), Draft::Null);
}

#[test]
fn integers_stay_within_their_bounds() {
    for _ in 0..200 {
        let n = as_integer(&produce(&integer(-3, 4), 1));
        assert!((-3..=4).contains(&n));
    }
    assert_eq!(produce(&integer(-7, -7), 1), Draft::Number(JsonNumber::NegInt(-7)));
    assert_eq!(produce(&integer(0, 0), 1), Draft::Number(JsonNumber::PosInt(0)));
    let n = as_integer(&produce(&integer(i64::MIN, i64::MAX), 1));
    assert!((i64::MIN..=i64::MAX).contains(&n));
}

#[test]
fn floats_are_fixed_or_left_to_be_drawn() {
    let fixed = SchemaState::Number(NumberType::Float { min: d(2.5), max: d(2.5) });
    match produce(&fixed, 1) {
        Draft::Number(JsonNumber::Float(x)) => assert_eq!(x.to_bits(), 2.5f64.to_bits()),
        other => panic!("produced {:?}", other),
    }
    let zeros = SchemaState::Number(NumberType::Float { min: d(-0.0), max: d(0.0) });
    match produce(&zeros, 1) {
        Draft::Number(JsonNumber::Float(x)) => assert_eq!(x.to_bits(), (-0.0f64).to_bits()),
        other => panic!("produced {:?}", other),
    }
    let range = SchemaState::Number(NumberType::Float { min: d(0.5), max: d(99.5) });
    match produce(&range, 1) {
        Draft::FloatBetween { min, max } => {
            assert_eq!(min.to_bits(), 0.5f64.to_bits());
            assert_eq!(max.to_bits(), 99.5f64.to_bits());
        }
        other => panic!("produced {:?}", other),
    }
}

#[test]
fn uuid_is_always_valid() {
    let recognisers = Recognisers::new();
    for _ in 0..100 {
        let text = as_text(produce(&SchemaState::String(StringType::UUID), 1));
        assert!(is_uuid(&text), "{}", text);
        assert!(uuid(&text, &recognisers).is_some());
    }
}

#[test]
fn strings_follow_their_format() {
    let recognisers = Recognisers::new();
    for _ in 0..30 {
        let host = produce_string(&StringType::Hostname);
        assert!(host.contains('.'), "{}", host);
        assert_eq!(host.split('.').next().unwrap(), host.split('.').next().unwrap().to_lowercase());
        let url = produce_string(&StringType::Url);
        assert!(url.starts_with("https://"), "{}", url);
        assert!(url["https://".len()..].contains('/'), "{}", url);
        let email = produce_string(&StringType::Email);
        assert!(email.contains('@'), "{}", email);
        let date = produce_string(&StringType::IsoDate);
        assert_eq!(dates(&date, &recognisers), Some(StringType::IsoDate), "{}", date);
        assert_eq!(date.len(), 10);
        assert!(
            date.bytes().enumerate().all(|(i, b)| if i == 4 || i == 7 {
                b == b'-'
            } else {
                b.is_ascii_digit()
            }),
            "{}",
            date
        );
        let date_time = produce_string(&StringType::DateTimeISO8601);
        assert_eq!(&date_time[10..11], "T", "{}", date_time);
        assert_eq!(dates(&date_time[..10], &recognisers), Some(StringType::IsoDate));
        assert_eq!(
            dates(&date_time, &recognisers),
            Some(StringType::DateTimeISO8601),
            "{}",
            date_time
        );
        let date_time = produce_string(&StringType::DateTimeRFC2822);
        assert_eq!(&date_time[3..5], ", ", "{}", date_time);
        assert_eq!(
            dates(&date_time, &recognisers),
            Some(StringType::DateTimeRFC2822),
            "{}",
            date_time
        );
    }
}

#[test]
fn unknown_strings_draw_from_the_characters_seen() {
    for _ in 0..100 {
        let text = produce_string(&unknown("ab\u{e9}", Some(2), Some(5)));
        let length = text.chars().count();
        assert!((2..=5).contains(&length), "{}", text);
        assert!(text.chars().all(|c| "ab\u{e9}".contains(c)), "{}", text);
    }
    assert_eq!(produce_string(&unknown("z", Some(4), Some(4))), "zzzz");
    assert_eq!(produce_string(&unknown("z", Some(0), Some(0))), "");
    for _ in 0..50 {
        let text = produce_string(&unknown("q", None, None));
        assert!(text.len() <= 32);
        let text = produce_string(&unknown("q", Some(30), None));
        assert!((30..=32).contains(&text.len()));
        let text = produce_string(&unknown("q", None, Some(3)));
        assert!(text.len() <= 3);
    }
}

#[test]
fn unknown_strings_without_characters_are_made_up() {
    for _ in 0..50 {
        let text = produce_string(&unknown("", Some(3), Some(6)));
        assert!((3..=6).contains(&text.len()), "{}", text);
        assert!(text.chars().all(|c| c.is_ascii_alphanumeric()), "{}", text);
    }
    assert_eq!(produce_string(&unknown("", Some(0), Some(0))), "");
}

#[test]
fn enumerated_strings_are_variants() {
    let variants = vec!["red".to_string(), "green".to_string(), "blue".to_string()];
    let mut seen = std::collections::HashSet::new();
    for _ in 0..200 {
        let text = produce_string(&StringType::Enum { variants: variants.clone() });
        assert!(variants.contains(&text));
        seen.insert(text);
    }
    assert_eq!(seen.len(), 3);
}

#[test]
fn objects_hold_every_required_field() {
    let schema = SchemaState::Object {
        required: vec![
            ("id".to_string(), integer(1, 9)),
            ("ok".to_string(), SchemaState::Boolean),
        ],
        optional: vec![
            ("note".to_string(), SchemaState::Null),
            ("tags".to_string(), array(0, 2, SchemaState::String(StringType::UUID))),
        ],
    };
    let mut with_note = 0;
    let mut without_note = 0;
    for _ in 0..200 {
        match produce(&schema, 4) {
            Draft::Object(members) => {
                let names: Vec<&str> = members.iter().map(|(name, _)| name.as_str()).collect();
                assert_eq!(&names[..2], &["id", "ok"]);
                let rest = &names[2..];
                assert!(
                    rest.is_empty()
                        || rest == ["note"]
                        || rest == ["tags"]
                        || rest == ["note", "tags"]
                );
                if rest.contains(&"note") {
                    with_note += 1;
                } else {
                    without_note += 1;
                }
                for (name, value) in &members {
                    match name.as_str() {
                        "id" => assert!((1..=9).contains(&as_integer(value))),
                        "ok" => assert!(matches!(value, Draft::Bool(_))),
                        "note" => assert_eq!(*value, Draft::Null),
                        "tags" => match value {
                            Draft::Array(items) => assert!(items.len() <= 2),
                            other => panic!("produced {:?}", other),
                        },
                        other => panic!("produced a field {}", other),
                    }
                }
            }
            other => panic!("produced {:?}", other),
        }
    }
    assert!(with_note > 0 && without_note > 0);
}

#[test]
fn nullable_gives_null_or_the_inner_value() {
    let schema = SchemaState::Nullable(Box::new(SchemaState::Boolean));
    let mut nulls = 0;
    let mut values = 0;
    for _ in 0..200 {
        match produce(&schema, 1) {
            Draft::Null => nulls += 1,
            Draft::Bool(_) => values += 1,
            other => panic!("produced {:?}", other),
        }
    }
    assert!(nulls > 0 && values > 0);
}

#[test]
fn schemas_that_cannot_be_produced_are_told_apart() {
    assert!(can_produce(&integer(1, 1), 1, true));
    assert!(!can_produce(&integer(2, 1), 1, true));
    assert!(!can_produce(&array(1, 1, integer(2, 1)), 1, true));
    assert!(can_produce(&array(3, 1, SchemaState::Boolean), 2, true));
    assert!(!can_produce(&array(3, 1, SchemaState::Boolean), 1, true));
    assert!(!can_produce(&array(3, 1, SchemaState::Boolean), 2, false));
    assert!(can_produce(&array(3, 1, SchemaState::Initial), 1, false));
    assert!(!can_produce(&SchemaState::String(StringType::Enum { variants: vec![] }), 1, true));
    assert!(!can_produce(&SchemaState::String(unknown("a", Some(5), Some(4))), 1, true));
    assert!(!can_produce(&SchemaState::String(unknown("a", Some(33), None)), 1, true));
    assert!(can_produce(&SchemaState::String(unknown("a", Some(32), None)), 1, true));
    let float = |min: f64, max: f64| SchemaState::Number(NumberType::Float { min: d(min), max: d(max) });
    assert!(can_produce(&float(1.0, 1.0), 1, true));
    assert!(can_produce(&float(-0.0, 0.0), 1, true));
    assert!(can_produce(&float(0.0, -0.0), 1, true));
    assert!(can_produce(&float(f64::NEG_INFINITY, f64::INFINITY), 1, true));
    assert!(!can_produce(&float(1.5, 1.0), 1, true));
    assert!(!can_produce(&float(f64::NAN, 1.0), 1, true));
    assert!(try_produce(&integer(2, 1), 1).is_none());
    assert!(try_produce(&integer(1, 2), 1).is_some());
    let twice = SchemaState::Object {
        required: vec![("a".to_string(), SchemaState::Null), ("a".to_string(), SchemaState::Null)],
        optional: vec![],
    };
    assert!(try_produce(&twice, 1).is_none());
}

#[test]
fn repetition_wraps_what_is_no_array() {
    assert_eq!(repeated(integer(1, 2), 1), integer(1, 2));
    assert_eq!(repeated(integer(1, 2), 0), integer(1, 2));
    assert_eq!(repeated(integer(1, 2), 3), array(1, 1, integer(1, 2)));
    assert_eq!(repeated(array(0, 5, integer(1, 2)), 3), array(0, 5, integer(1, 2)));
    assert_eq!(repeated(array(0, 5, integer(1, 2)), 1), array(0, 5, integer(1, 2)));
    match produce(&repeated(SchemaState::Boolean, 4), 4) {
        Draft::Array(items) => assert_eq!(items.len(), 4),
        other => panic!("produced {:?}", other),
    }
}
