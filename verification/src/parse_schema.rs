//! The reader of JSON Schema documents: from a document to the schema it
//! describes.

use crate::double::Double;
use crate::fields::{lemma_disjoint_by_domains, put_field};
use crate::json::{get, has_member, member, JsonValue};
use crate::schema::{
    bound_model, distinct_keys, distinct_strings, fields_model, fields_well_formed, texts,
    NumberType, SchemaModel, SchemaState, StringModel, StringType,
};
use crate::strings::contains_string;
use crate::text::same_text;
use std::cmp::Ordering;
use vstd::prelude::*;
use vstd::std_specs::cmp::PartialOrdSpec;
use vstd::string::StringExecFns;

verus! {

/// Why a document could not be read as a schema.
#[derive(Debug)]
pub enum ParseSchemaError {
    /// The document is not shaped as a schema.
    InvalidSchema(String),
    /// The document uses a feature that is not supported.
    UnsupportedFeature(String),
    /// The constraints of the document contradict each other.
    ValidationFailed(String),
}

/// The model of a [`ParseSchemaError`].
pub enum Failure {
    InvalidSchema(Seq<char>),
    UnsupportedFeature(Seq<char>),
    ValidationFailed(Seq<char>),
}

/// The number of items that an array may have where the document gives no
/// upper bound.
pub const DEFAULT_MAX_ITEMS: usize = 16;

impl ParseSchemaError {
    /// The error with its message as a sequence of characters.
    pub open spec fn model(self) -> Failure {
        match self {
            ParseSchemaError::InvalidSchema(msg) => Failure::InvalidSchema(msg@),
            ParseSchemaError::UnsupportedFeature(msg) => Failure::UnsupportedFeature(msg@),
            ParseSchemaError::ValidationFailed(msg) => Failure::ValidationFailed(msg@),
        }
    }

    /// The error as a line of text.
    pub open spec fn text(self) -> Seq<char> {
        match self {
            ParseSchemaError::InvalidSchema(msg) => "Invalid JSON Schema: "@ + msg@,
            ParseSchemaError::UnsupportedFeature(msg) => "Unsupported JSON Schema feature: "@
                + msg@,
            ParseSchemaError::ValidationFailed(msg) => "Validation failed: "@ + msg@,
        }
    }

    /// The error as a line of text.
    pub fn to_string(&self) -> (line: String)
        ensures
            line@ == self.text(),
    {
        match self {
            ParseSchemaError::InvalidSchema(msg) => {
                let mut line = String::from_str("Invalid JSON Schema: ");
                line.append(msg.as_str());
                line
            },
            ParseSchemaError::UnsupportedFeature(msg) => {
                let mut line = String::from_str("Unsupported JSON Schema feature: ");
                line.append(msg.as_str());
                line
            },
            ParseSchemaError::ValidationFailed(msg) => {
                let mut line = String::from_str("Validation failed: ");
                line.append(msg.as_str());
                line
            },
        }
    }
}

impl View for ParseSchemaError {
    type V = Failure;

    open spec fn view(&self) -> Failure {
        self.model()
    }
}

/// The model of the outcome of reading a schema.
pub open spec fn outcome(result: Result<SchemaState, ParseSchemaError>) -> Result<
    SchemaModel,
    Failure,
> {
    match result {
        Ok(schema) => Ok(schema.model()),
        Err(error) => Err(error.model()),
    }
}

/// A failure for a document that is not shaped as a schema.
pub open spec fn invalid(msg: Seq<char>) -> Failure {
    Failure::InvalidSchema(msg)
}

/// A failure for a feature that is not supported.
pub open spec fn unsupported(msg: Seq<char>) -> Failure {
    Failure::UnsupportedFeature(msg)
}

/// A failure for constraints that contradict each other.
pub open spec fn contradiction(msg: Seq<char>) -> Failure {
    Failure::ValidationFailed(msg)
}

/// An error for a document that is not shaped as a schema.
fn invalid_schema(msg: &str) -> (error: ParseSchemaError)
    ensures
        error.model() == invalid(msg@),
{
    ParseSchemaError::InvalidSchema(String::from_str(msg))
}

/// An error for a feature that is not supported.
fn unsupported_feature(msg: &str) -> (error: ParseSchemaError)
    ensures
        error.model() == unsupported(msg@),
{
    ParseSchemaError::UnsupportedFeature(String::from_str(msg))
}

/// An error for constraints that contradict each other.
fn validation_failed(msg: &str) -> (error: ParseSchemaError)
    ensures
        error.model() == contradiction(msg@),
{
    ParseSchemaError::ValidationFailed(String::from_str(msg))
}

/// An error that says that what `subject` names must be `kind`.
fn must_be(subject: &str, kind: &str) -> (error: ParseSchemaError)
    ensures
        error.model() == invalid(subject@ + kind@),
{
    let mut msg = String::from_str(subject);
    msg.append(kind);
    ParseSchemaError::InvalidSchema(msg)
}

/// The value of a member as an unsigned integer, if the member is there.
pub open spec fn optional_usize_model(members: Seq<(String, JsonValue)>, name: Seq<char>) -> Result<
    Option<usize>,
    Failure,
> {
    match member(members, name) {
        Some(JsonValue::Number(n)) => match n.spec_as_u64() {
            Some(v) => Ok(Some(v as usize)),
            None => Err(invalid(name + " must be a number"@)),
        },
        Some(_) => Err(invalid(name + " must be a number"@)),
        None => Ok(None),
    }
}

/// The value of a member as a binary64 number, if the member is there.
pub open spec fn numeric_field_model(members: Seq<(String, JsonValue)>, name: Seq<char>) -> Result<
    Option<Double>,
    Failure,
> {
    match member(members, name) {
        Some(JsonValue::Number(n)) => Ok(Some(n.spec_as_double())),
        Some(_) => Err(invalid(name + " must be a number"@)),
        None => Ok(None),
    }
}

/// Reads the member of that name as an unsigned integer.
fn parse_optional_usize_field(members: &Vec<(String, JsonValue)>, field_name: &str) -> (parsed:
    Result<Option<usize>, ParseSchemaError>)
    ensures
        match parsed {
            Ok(value) => optional_usize_model(members@, field_name@) == Ok::<
                Option<usize>,
                Failure,
            >(value),
            Err(error) => optional_usize_model(members@, field_name@) == Err::<
                Option<usize>,
                Failure,
            >(error.model()),
        },
{
    match get(members, field_name) {
        Some(value) => {
            let number = match value {
                JsonValue::Number(n) => n.as_u64(),
                _ => None,
            };
            match number {
                Some(v) => Ok(Some(#[verifier::truncate] (v as usize))),
                None => Err(must_be(field_name, " must be a number")),
            }
        },
        None => Ok(None),
    }
}

/// Reads the member of that name as a binary64 number.
fn parse_numeric_field(members: &Vec<(String, JsonValue)>, field_name: &str) -> (parsed: Result<
    Option<Double>,
    ParseSchemaError,
>)
    ensures
        match parsed {
            Ok(value) => numeric_field_model(members@, field_name@) == Ok::<
                Option<Double>,
                Failure,
            >(value),
            Err(error) => numeric_field_model(members@, field_name@) == Err::<
                Option<Double>,
                Failure,
            >(error.model()),
        },
{
    match get(members, field_name) {
        Some(value) => match value {
            JsonValue::Number(n) => Ok(Some(n.as_double())),
            _ => Err(must_be(field_name, " must be a number")),
        },
        None => Ok(None),
    }
}

/// Refuses a lower bound that is above the upper bound.
pub fn validate_min_max_constraint<T: PartialOrd>(
    min: Option<T>,
    max: Option<T>,
    error_message: &str,
) -> (checked: Result<(), ParseSchemaError>)
    ensures
        T::obeys_partial_cmp_spec() ==> (checked is Err <==> (min is Some && max is Some
            && min->0.partial_cmp_spec(&max->0) == Some(Ordering::Greater))),
        checked matches Err(error) ==> error.model() == contradiction(error_message@),
{
    match (&min, &max) {
        (Some(min_val), Some(max_val)) => {
            if min_val.gt(max_val) {
                return Err(validation_failed(error_message));
            }
        },
        _ => {},
    }
    Ok(())
}

/// A string of no recognised format and without samples, with the lengths
/// given.
pub fn create_unknown_string_type(min_length: Option<usize>, max_length: Option<usize>) -> (unknown:
    StringType)
    ensures
        unknown.well_formed(),
        unknown@ == unknown_with(min_length, max_length),
{
    let unknown = StringType::Unknown {
        strings_seen: Vec::new(),
        chars_seen: Vec::new(),
        min_length,
        max_length,
    };
    assert(texts(Seq::<String>::empty()) =~= Seq::<Seq<char>>::empty());
    unknown
}

/// The model of a string of no recognised format and without samples.
pub open spec fn unknown_with(min_length: Option<usize>, max_length: Option<usize>) -> StringModel {
    StringModel::Unknown {
        strings_seen: Seq::empty(),
        chars_seen: Seq::empty(),
        min_length: bound_model(min_length),
        max_length: bound_model(max_length),
    }
}

/// The lengths of a string: `minLength` and `maxLength`, where they are
/// there, the first not above the second.
pub open spec fn string_lengths_model(members: Seq<(String, JsonValue)>) -> Result<
    (Option<usize>, Option<usize>),
    Failure,
> {
    match optional_usize_model(members, "minLength"@) {
        Err(failure) => Err(failure),
        Ok(min_length) => match optional_usize_model(members, "maxLength"@) {
            Err(failure) => Err(failure),
            Ok(max_length) => if min_length is Some && max_length is Some && min_length->0
                > max_length->0 {
                Err(contradiction("minLength cannot be greater than maxLength"@))
            } else {
                Ok((min_length, max_length))
            },
        },
    }
}

/// Whether every item is a string.
pub open spec fn all_strings(items: Seq<JsonValue>) -> bool {
    forall|i: int| 0 <= i < items.len() ==> (#[trigger] items[i]) is String
}

/// The texts of the items that are strings.
pub open spec fn string_items(items: Seq<JsonValue>) -> Set<Seq<char>> {
    Set::new(
        |text: Seq<char>|
            exists|i: int|
                0 <= i < items.len() && (#[trigger] items[i]) is String && items[i]->String_0@
                    == text,
    )
}

/// The enumeration that an `enum` member describes: its items, which are
/// strings, at least one.
pub open spec fn string_enum_model(enum_value: JsonValue) -> Result<SchemaModel, Failure> {
    if !(enum_value is Array) {
        Err(invalid("Enum field must be an array"@))
    } else if enum_value->Array_0@.len() == 0 {
        Err(contradiction("enum array cannot be empty"@))
    } else if !all_strings(enum_value->Array_0@) {
        Err(invalid("All enum values must be a string"@))
    } else {
        Ok(SchemaModel::String(StringModel::Enum { variants: string_items(enum_value->Array_0@) }))
    }
}

/// The string that a `format` member describes: one of the six formats
/// known, and else a string of no recognised format with the lengths given.
pub open spec fn string_format_model(
    format_value: JsonValue,
    min_length: Option<usize>,
    max_length: Option<usize>,
) -> Result<SchemaModel, Failure> {
    if !(format_value is String) {
        Err(invalid("Format field must be a string"@))
    } else {
        let format = format_value->String_0@;
        Ok(
            SchemaModel::String(
                if format == "email"@ {
                    StringModel::Email
                } else if format == "uuid"@ {
                    StringModel::UUID
                } else if format == "date"@ {
                    StringModel::IsoDate
                } else if format == "date-time"@ {
                    StringModel::DateTimeISO8601
                } else if format == "uri"@ {
                    StringModel::Url
                } else if format == "hostname"@ {
                    StringModel::Hostname
                } else {
                    unknown_with(min_length, max_length)
                },
            ),
        )
    }
}

/// The schema of a document of type `string`: an enumeration where there
/// is an `enum` member, else what a `format` member says, else a string of
/// no recognised format. The lengths are read first.
pub open spec fn string_type_model(members: Seq<(String, JsonValue)>) -> Result<
    SchemaModel,
    Failure,
> {
    match string_lengths_model(members) {
        Err(failure) => Err(failure),
        Ok((min_length, max_length)) => if has_member(members, "enum"@) {
            string_enum_model(member(members, "enum"@)->0)
        } else if has_member(members, "format"@) {
            string_format_model(member(members, "format"@)->0, min_length, max_length)
        } else {
            Ok(SchemaModel::String(unknown_with(min_length, max_length)))
        },
    }
}

/// The bounds of a number: `minimum` or `exclusiveMinimum`, and `maximum`
/// or `exclusiveMaximum`, of each pair at most one, the lower bound not
/// above the upper. An exclusive bound counts as an inclusive one.
pub open spec fn number_constraints_model(members: Seq<(String, JsonValue)>) -> Result<
    (Option<Double>, Option<Double>),
    Failure,
> {
    match numeric_field_model(members, "minimum"@) {
        Err(failure) => Err(failure),
        Ok(minimum) => match numeric_field_model(members, "maximum"@) {
            Err(failure) => Err(failure),
            Ok(maximum) => match numeric_field_model(members, "exclusiveMinimum"@) {
                Err(failure) => Err(failure),
                Ok(exclusive_minimum) => if exclusive_minimum is Some && minimum is Some {
                    Err(invalid("Cannot specify both minimum and exclusiveMinimum"@))
                } else {
                    let min_value = if exclusive_minimum is Some {
                        exclusive_minimum
                    } else {
                        minimum
                    };
                    match numeric_field_model(members, "exclusiveMaximum"@) {
                        Err(failure) => Err(failure),
                        Ok(exclusive_maximum) => if exclusive_maximum is Some && maximum is Some {
                            Err(invalid("Cannot specify both maximum and exclusiveMaximum"@))
                        } else {
                            let max_value = if exclusive_maximum is Some {
                                exclusive_maximum
                            } else {
                                maximum
                            };
                            if min_value is Some && max_value is Some && max_value->0.spec_lt(
                                min_value->0,
                            ) {
                                Err(contradiction("minimum cannot be greater than maximum"@))
                            } else {
                                Ok((min_value, max_value))
                            }
                        },
                    }
                },
            },
        },
    }
}

/// Negative infinity.
pub open spec fn negative_infinity() -> Double {
    Double { bits: 0xfff0_0000_0000_0000 }
}

/// Positive infinity.
pub open spec fn positive_infinity() -> Double {
    Double { bits: 0x7ff0_0000_0000_0000 }
}

/// The schema of a document of type `integer` or `number`.
///
/// An integer takes its bounds as integers, and where one is not given the
/// least or the greatest integer there is. A number takes its bounds as they
/// are, and an infinity where one is not given; two finite bounds must
/// differ by a finite number above 0.
pub open spec fn number_type_model(members: Seq<(String, JsonValue)>, is_integer: bool) -> Result<
    SchemaModel,
    Failure,
> {
    match number_constraints_model(members) {
        Err(failure) => Err(failure),
        Ok((min_value, max_value)) => if is_integer {
            Ok(
                SchemaModel::Number(
                    NumberType::Integer {
                        min: if min_value is Some {
                            min_value->0.spec_to_i64()
                        } else {
                            i64::MIN
                        },
                        max: if max_value is Some {
                            max_value->0.spec_to_i64()
                        } else {
                            i64::MAX
                        },
                    },
                ),
            )
        } else {
            let min = if min_value is Some {
                min_value->0
            } else {
                negative_infinity()
            };
            let max = if max_value is Some {
                max_value->0
            } else {
                positive_infinity()
            };
            if min.is_finite() && max.is_finite() && !Double::spans(min, max) {
                Err(
                    contradiction(
                        "Invalid floating point range: range too large or invalid"@,
                    ),
                )
            } else {
                Ok(SchemaModel::Number(NumberType::Float { min, max }))
            }
        },
    }
}

/// The bounds of the length of an array: `minItems`, or 0, and `maxItems`,
/// or 16.
pub open spec fn array_constraints_model(members: Seq<(String, JsonValue)>) -> Result<
    (usize, usize),
    Failure,
> {
    match optional_usize_model(members, "minItems"@) {
        Err(failure) => Err(failure),
        Ok(min_items) => match optional_usize_model(members, "maxItems"@) {
            Err(failure) => Err(failure),
            Ok(max_items) => Ok(
                (
                    if min_items is Some {
                        min_items->0
                    } else {
                        0
                    },
                    if max_items is Some {
                        max_items->0
                    } else {
                        DEFAULT_MAX_ITEMS
                    },
                ),
            ),
        },
    }
}

/// The names that a `required` member lists, if it is there.
pub open spec fn required_names_model(members: Seq<(String, JsonValue)>) -> Result<
    Set<Seq<char>>,
    Failure,
> {
    match member(members, "required"@) {
        None => Ok(Set::empty()),
        Some(required) => if !(required is Array) {
            Err(invalid("required must be an array"@))
        } else if !all_strings(required->Array_0@) {
            Err(invalid("required field names must be a string"@))
        } else {
            Ok(string_items(required->Array_0@))
        },
    }
}

/// A schema made nullable, and a failure handed on.
pub open spec fn nullable(inner: Result<SchemaModel, Failure>) -> Result<SchemaModel, Failure> {
    match inner {
        Ok(schema) => Ok(SchemaModel::Nullable(Box::new(schema))),
        Err(failure) => Err(failure),
    }
}

/// The schemas of the first `n` properties: each by name among the required
/// fields where `names` holds the name, and among the optional fields where
/// not. The first property that cannot be read fails the whole.
pub open spec fn properties_model(properties: JsonValue, names: Set<Seq<char>>, n: nat) -> Result<
    (Map<Seq<char>, SchemaModel>, Map<Seq<char>, SchemaModel>),
    Failure,
>
    decreases properties, n,
{
    if !(properties is Object) || n == 0 || n > properties->Object_0@.len() {
        Ok((Map::empty(), Map::empty()))
    } else {
        match properties_model(properties, names, (n - 1) as nat) {
            Err(failure) => Err(failure),
            Ok((required, optional)) => {
                let property = properties->Object_0@[n - 1];
                match parse_model(property.1) {
                    Err(failure) => Err(failure),
                    Ok(schema) => if names.contains(property.0@) {
                        Ok((required.insert(property.0@, schema), optional))
                    } else {
                        Ok((required, optional.insert(property.0@, schema)))
                    },
                }
            },
        }
    }
}

/// The schema of a document of type `object`: its properties, required
/// where the `required` member names them.
pub open spec fn object_type_model(schema: JsonValue) -> Result<SchemaModel, Failure>
    decreases schema, 5nat,
{
    if !(schema is Object) {
        Err(invalid("Schema must be an object"@))
    } else {
        let members = schema->Object_0@;
        if has_member(members, "properties"@) && !(member(members, "properties"@)->0 is Object) {
            Err(invalid("properties must be an object"@))
        } else {
            match required_names_model(members) {
                Err(failure) => Err(failure),
                Ok(names) => {
                    let fields = if has_member(members, "properties"@) {
                        let properties = member(members, "properties"@)->0;
                        properties_model(properties, names, properties->Object_0@.len())
                    } else {
                        Ok((Map::empty(), Map::empty()))
                    };
                    match fields {
                        Err(failure) => Err(failure),
                        Ok((required, optional)) => Ok(SchemaModel::Object { required, optional }),
                    }
                },
            }
        }
    }
}

/// The schema of a document of type `array`: the schema of its `items`
/// and the bounds of its length.
pub open spec fn array_type_model(schema: JsonValue) -> Result<SchemaModel, Failure>
    decreases schema, 5nat,
{
    if !(schema is Object) {
        Err(invalid("Schema must be an object"@))
    } else {
        let members = schema->Object_0@;
        if !has_member(members, "items"@) {
            Err(invalid("Array schema must have an 'items' field"@))
        } else {
            match parse_model(member(members, "items"@)->0) {
                Err(failure) => Err(failure),
                Ok(item) => match array_constraints_model(members) {
                    Err(failure) => Err(failure),
                    Ok((min_items, max_items)) => Ok(
                        SchemaModel::Array {
                            min_length: min_items as nat,
                            max_length: max_items as nat,
                            schema: Box::new(item),
                        },
                    ),
                },
            }
        }
    }
}

/// The schema of a document of one type, named by the `type` member.
pub open spec fn single_type_model(schema: JsonValue, type_text: Seq<char>) -> Result<
    SchemaModel,
    Failure,
>
    decreases schema, 8nat,
{
    if !(schema is Object) {
        Err(invalid("Schema must be an object"@))
    } else if type_text == "string"@ {
        string_type_model(schema->Object_0@)
    } else if type_text == "number"@ {
        number_type_model(schema->Object_0@, false)
    } else if type_text == "integer"@ {
        number_type_model(schema->Object_0@, true)
    } else if type_text == "boolean"@ {
        Ok(SchemaModel::Boolean)
    } else if type_text == "null"@ {
        Ok(SchemaModel::Null)
    } else if type_text == "object"@ {
        object_type_model(schema)
    } else if type_text == "array"@ {
        array_type_model(schema)
    } else {
        Err(unsupported("Type '"@ + type_text + "' not supported yet"@))
    }
}

/// The schema of a document whose `type` member is an array: `null` and
/// one other type, in either order, which make the other type nullable.
pub open spec fn nullable_type_model(schema: JsonValue, types: Seq<JsonValue>) -> Result<
    SchemaModel,
    Failure,
>
    decreases schema, 9nat,
{
    if types.len() != 2 {
        Err(unsupported("Only nullable types with exactly 2 elements are supported"@))
    } else if !(types[0] is String) {
        Err(invalid("All type array elements must be strings"@))
    } else if !(types[1] is String) {
        Err(invalid("All type array elements must be strings"@))
    } else {
        let first = types[0]->String_0@;
        let second = types[1]->String_0@;
        if first == "null"@ {
            if second == "null"@ {
                Err(invalid("Nullable type array must contain a non-null type"@))
            } else {
                nullable(single_type_model(schema, second))
            }
        } else if second == "null"@ {
            nullable(single_type_model(schema, first))
        } else {
            Err(unsupported("Only one non-null type is supported in nullable types"@))
        }
    }
}

/// How an alternative of `anyOf` or `oneOf` names its type.
pub enum Alternative {
    /// It has no `type` member, or one that is not a string.
    Untyped,
    /// Its type is `null`.
    Null,
    /// Its type is that other type.
    Typed(Seq<char>),
}

/// How an alternative, which is an object, names its type.
pub open spec fn alternative_of(item: JsonValue) -> Alternative {
    match member(item->Object_0@, "type"@) {
        Some(JsonValue::String(text)) => if text@ == "null"@ {
            Alternative::Null
        } else {
            Alternative::Typed(text@)
        },
        _ => Alternative::Untyped,
    }
}

/// The schema that the alternatives of an `anyOf` or `oneOf` member
/// describe, where they are `null` and one other type, in either order: that
/// type made nullable. Any other alternatives describe none.
pub open spec fn nullable_pattern_model(pattern: JsonValue) -> Result<Option<SchemaModel>, Failure>
    decreases pattern, 10nat,
{
    if !(pattern is Array) {
        Err(invalid("anyOf/oneOf must be an array"@))
    } else {
        let items = pattern->Array_0@;
        if items.len() != 2 {
            Ok(None)
        } else if !(items[0] is Object) {
            Err(invalid("anyOf/oneOf items must be an object"@))
        } else if alternative_of(items[0]) is Untyped {
            Ok(None)
        } else if !(items[1] is Object) {
            Err(invalid("anyOf/oneOf items must be an object"@))
        } else {
            match (alternative_of(items[0]), alternative_of(items[1])) {
                (Alternative::Null, Alternative::Typed(type_text)) => match single_type_model(
                    items[1],
                    type_text,
                ) {
                    Ok(schema) => Ok(Some(SchemaModel::Nullable(Box::new(schema)))),
                    Err(failure) => Err(failure),
                },
                (Alternative::Typed(type_text), Alternative::Null) => match single_type_model(
                    items[0],
                    type_text,
                ) {
                    Ok(schema) => Ok(Some(SchemaModel::Nullable(Box::new(schema)))),
                    Err(failure) => Err(failure),
                },
                _ => Ok(None),
            }
        }
    }
}

/// The schema that a JSON Schema document describes.
///
/// The document is an object. Where it has an `anyOf` member, or else a
/// `oneOf` member, that member must describe a nullable type. Else its
/// `type` member names its type, or `null` and one other type.
pub open spec fn parse_model(schema: JsonValue) -> Result<SchemaModel, Failure>
    decreases schema, 10nat,
{
    if !(schema is Object) {
        Err(invalid("Schema must be an object"@))
    } else {
        let members = schema->Object_0@;
        if has_member(members, "anyOf"@) {
            match nullable_pattern_model(member(members, "anyOf"@)->0) {
                Err(failure) => Err(failure),
                Ok(Some(found)) => Ok(found),
                Ok(None) => Err(
                    unsupported("anyOf patterns other than nullable not supported yet"@),
                ),
            }
        } else if has_member(members, "oneOf"@) {
            match nullable_pattern_model(member(members, "oneOf"@)->0) {
                Err(failure) => Err(failure),
                Ok(Some(found)) => Ok(found),
                Ok(None) => Err(
                    unsupported("oneOf patterns other than nullable not supported yet"@),
                ),
            }
        } else if !has_member(members, "type"@) {
            Err(invalid("Schema must have a 'type' field, 'anyOf', or 'oneOf'"@))
        } else {
            let type_field = member(members, "type"@)->0;
            if type_field is Array {
                nullable_type_model(schema, type_field->Array_0@)
            } else if type_field is String {
                single_type_model(schema, type_field->String_0@)
            } else {
                Err(invalid("Type field must be a string or array"@))
            }
        }
    }
}

/// The items that are strings, one more item taken in.
proof fn lemma_string_items_step(items: Seq<JsonValue>, n: int)
    requires
        0 <= n < items.len(),
        items[n] is String,
    ensures
        string_items(items.take(n + 1)) == string_items(items.take(n)).insert(
            items[n]->String_0@,
        ),
        all_strings(items.take(n)) ==> all_strings(items.take(n + 1)),
{
    let shorter = items.take(n);
    let longer = items.take(n + 1);
    assert forall|text: Seq<char>|
        string_items(longer).contains(text) <==> (string_items(shorter).contains(text) || text
            == items[n]->String_0@) by {
        if string_items(longer).contains(text) {
            let i = choose|i: int|
                0 <= i < longer.len() && (#[trigger] longer[i]) is String && longer[i]->String_0@
                    == text;
            if i < n {
                assert(shorter[i] == longer[i]);
            }
        }
        if string_items(shorter).contains(text) {
            let i = choose|i: int|
                0 <= i < shorter.len() && (#[trigger] shorter[i]) is String
                    && shorter[i]->String_0@ == text;
            assert(longer[i] == shorter[i]);
        }
        if text == items[n]->String_0@ {
            assert(longer[n] == items[n]);
        }
    }
    assert(string_items(longer) =~= string_items(shorter).insert(items[n]->String_0@));
    if all_strings(shorter) {
        assert forall|i: int| 0 <= i < longer.len() implies (#[trigger] longer[i]) is String by {
            if i < n {
                assert(shorter[i] == longer[i]);
            }
        }
    }
}

/// The texts of the items, each once, where all items are strings.
fn string_list(items: &Vec<JsonValue>) -> (list: Option<Vec<String>>)
    ensures
        list is Some == all_strings(items@),
        list matches Some(strings) ==> distinct_strings(strings@) && texts(strings@).to_set()
            == string_items(items@),
{
    let mut strings: Vec<String> = Vec::new();
    let mut i: usize = 0;
    assert(texts(strings@).to_set() =~= string_items(items@.take(0)));
    while i < items.len()
        invariant
            i <= items.len(),
            all_strings(items@.take(i as int)),
            distinct_strings(strings@),
            texts(strings@).to_set() == string_items(items@.take(i as int)),
        decreases items.len() - i,
    {
        match &items[i] {
            JsonValue::String(text) => {
                proof {
                    lemma_string_items_step(items@, i as int);
                }
                if !contains_string(&strings, text) {
                    let ghost before = strings@;
                    strings.push(text.clone());
                    assert(texts(strings@) =~= texts(before).push(text@));
                    assert(distinct_strings(strings@)) by {
                        assert forall|a: int, b: int| 0 <= a < b < strings@.len() implies (
                        #[trigger] strings@[a])@ != (#[trigger] strings@[b])@ by {
                            assert(strings@[a] == before[a]);
                            if b == before.len() {
                                assert(texts(before)[a] == before[a]@);
                            } else {
                                assert(strings@[b] == before[b]);
                            }
                        }
                    }
                    assert(texts(strings@).to_set() =~= texts(before).to_set().insert(text@)) by {
                        assert forall|x: Seq<char>| texts(strings@).contains(x) <==> (texts(
                            before,
                        ).contains(x) || x == text@) by {
                            if texts(strings@).contains(x) {
                                let j = choose|j: int|
                                    0 <= j < texts(strings@).len() && texts(strings@)[j] == x;
                                if j < before.len() {
                                    assert(texts(before)[j] == x);
                                }
                            }
                            if texts(before).contains(x) {
                                let j = choose|j: int|
                                    0 <= j < texts(before).len() && texts(before)[j] == x;
                                assert(texts(strings@)[j] == x);
                            }
                            if x == text@ {
                                assert(texts(strings@)[before.len() as int] == x);
                            }
                        }
                    }
                } else {
                    assert(texts(strings@).to_set().insert(text@) =~= texts(strings@).to_set());
                }
            },
            _ => {
                assert(!all_strings(items@)) by {
                    assert(!(items@[i as int] is String));
                }
                return None;
            },
        }
        i = i + 1;
    }
    assert(items@.take(items@.len() as int) =~= items@);
    Some(strings)
}

/// Reads the lengths of a string.
fn parse_string_length_constraints(members: &Vec<(String, JsonValue)>) -> (parsed: Result<
    (Option<usize>, Option<usize>),
    ParseSchemaError,
>)
    ensures
        match parsed {
            Ok(lengths) => string_lengths_model(members@) == Ok::<
                (Option<usize>, Option<usize>),
                Failure,
            >(lengths),
            Err(error) => string_lengths_model(members@) == Err::<
                (Option<usize>, Option<usize>),
                Failure,
            >(error.model()),
        },
{
    let min_length = match parse_optional_usize_field(members, "minLength") {
        Ok(value) => value,
        Err(error) => {
            return Err(error);
        },
    };
    let max_length = match parse_optional_usize_field(members, "maxLength") {
        Ok(value) => value,
        Err(error) => {
            return Err(error);
        },
    };
    match validate_min_max_constraint(
        min_length,
        max_length,
        "minLength cannot be greater than maxLength",
    ) {
        Ok(()) => Ok((min_length, max_length)),
        Err(error) => Err(error),
    }
}

/// Reads the enumeration that an `enum` member describes.
fn parse_string_enum(enum_value: &JsonValue) -> (parsed: Result<SchemaState, ParseSchemaError>)
    ensures
        outcome(parsed) == string_enum_model(*enum_value),
        parsed matches Ok(schema) ==> schema.well_formed(),
{
    let enum_array = match enum_value.as_array() {
        Some(items) => items,
        None => {
            return Err(invalid_schema("Enum field must be an array"));
        },
    };
    if enum_array.len() == 0 {
        return Err(validation_failed("enum array cannot be empty"));
    }
    match string_list(enum_array) {
        Some(variants) => Ok(SchemaState::String(StringType::Enum { variants })),
        None => Err(invalid_schema("All enum values must be a string")),
    }
}

/// Reads the string that a `format` member describes.
fn parse_string_with_format(
    format_value: &JsonValue,
    min_length: Option<usize>,
    max_length: Option<usize>,
) -> (parsed: Result<SchemaState, ParseSchemaError>)
    ensures
        outcome(parsed) == string_format_model(*format_value, min_length, max_length),
        parsed matches Ok(schema) ==> schema.well_formed(),
{
    let format_str = match format_value.as_str() {
        Some(text) => text,
        None => {
            return Err(invalid_schema("Format field must be a string"));
        },
    };
    if same_text(format_str, "email") {
        Ok(SchemaState::String(StringType::Email))
    } else if same_text(format_str, "uuid") {
        Ok(SchemaState::String(StringType::UUID))
    } else if same_text(format_str, "date") {
        Ok(SchemaState::String(StringType::IsoDate))
    } else if same_text(format_str, "date-time") {
        Ok(SchemaState::String(StringType::DateTimeISO8601))
    } else if same_text(format_str, "uri") {
        Ok(SchemaState::String(StringType::Url))
    } else if same_text(format_str, "hostname") {
        Ok(SchemaState::String(StringType::Hostname))
    } else {
        Ok(SchemaState::String(create_unknown_string_type(min_length, max_length)))
    }
}

/// Reads the schema of a document of type `string`.
fn parse_string_type(members: &Vec<(String, JsonValue)>) -> (parsed: Result<
    SchemaState,
    ParseSchemaError,
>)
    ensures
        outcome(parsed) == string_type_model(members@),
        parsed matches Ok(schema) ==> schema.well_formed(),
{
    let (min_length, max_length) = match parse_string_length_constraints(members) {
        Ok(lengths) => lengths,
        Err(error) => {
            return Err(error);
        },
    };
    if let Some(enum_value) = get(members, "enum") {
        parse_string_enum(enum_value)
    } else if let Some(format_value) = get(members, "format") {
        parse_string_with_format(format_value, min_length, max_length)
    } else {
        Ok(SchemaState::String(create_unknown_string_type(min_length, max_length)))
    }
}

/// Reads the bounds of a number.
fn parse_number_constraints(members: &Vec<(String, JsonValue)>) -> (parsed: Result<
    (Option<Double>, Option<Double>),
    ParseSchemaError,
>)
    ensures
        match parsed {
            Ok(bounds) => number_constraints_model(members@) == Ok::<
                (Option<Double>, Option<Double>),
                Failure,
            >(bounds),
            Err(error) => number_constraints_model(members@) == Err::<
                (Option<Double>, Option<Double>),
                Failure,
            >(error.model()),
        },
{
    let mut min_value = match parse_numeric_field(members, "minimum") {
        Ok(value) => value,
        Err(error) => {
            return Err(error);
        },
    };
    let mut max_value = match parse_numeric_field(members, "maximum") {
        Ok(value) => value,
        Err(error) => {
            return Err(error);
        },
    };
    match parse_numeric_field(members, "exclusiveMinimum") {
        Ok(Some(exclusive_min)) => {
            if min_value.is_some() {
                return Err(invalid_schema("Cannot specify both minimum and exclusiveMinimum"));
            }
            min_value = Some(exclusive_min);
        },
        Ok(None) => {},
        Err(error) => {
            return Err(error);
        },
    }
    match parse_numeric_field(members, "exclusiveMaximum") {
        Ok(Some(exclusive_max)) => {
            if max_value.is_some() {
                return Err(invalid_schema("Cannot specify both maximum and exclusiveMaximum"));
            }
            max_value = Some(exclusive_max);
        },
        Ok(None) => {},
        Err(error) => {
            return Err(error);
        },
    }
    match validate_min_max_constraint(
        min_value,
        max_value,
        "minimum cannot be greater than maximum",
    ) {
        Ok(()) => Ok((min_value, max_value)),
        Err(error) => Err(error),
    }
}

/// Reads the schema of a document of type `integer` or `number`.
fn parse_number_type(members: &Vec<(String, JsonValue)>, is_integer: bool) -> (parsed: Result<
    SchemaState,
    ParseSchemaError,
>)
    ensures
        outcome(parsed) == number_type_model(members@, is_integer),
        parsed matches Ok(schema) ==> schema.well_formed(),
{
    let (min_value, max_value) = match parse_number_constraints(members) {
        Ok(bounds) => bounds,
        Err(error) => {
            return Err(error);
        },
    };
    if is_integer {
        let min: i64 = match min_value {
            Some(value) => value.to_i64(),
            None => i64::MIN,
        };
        let max: i64 = match max_value {
            Some(value) => value.to_i64(),
            None => i64::MAX,
        };
        Ok(SchemaState::Number(NumberType::Integer { min, max }))
    } else {
        let min: Double = match min_value {
            Some(value) => value,
            None => Double::from_bits(0xfff0_0000_0000_0000),
        };
        let max: Double = match max_value {
            Some(value) => value,
            None => Double::from_bits(0x7ff0_0000_0000_0000),
        };
        if min.finite() && max.finite() {
            if !min.has_finite_span(max) {
                return Err(
                    validation_failed("Invalid floating point range: range too large or invalid"),
                );
            }
        }
        Ok(SchemaState::Number(NumberType::Float { min, max }))
    }
}

/// Reads the bounds of the length of an array.
fn parse_array_constraints(members: &Vec<(String, JsonValue)>) -> (parsed: Result<
    (usize, usize),
    ParseSchemaError,
>)
    ensures
        match parsed {
            Ok(bounds) => array_constraints_model(members@) == Ok::<(usize, usize), Failure>(
                bounds,
            ),
            Err(error) => array_constraints_model(members@) == Err::<(usize, usize), Failure>(
                error.model(),
            ),
        },
{
    let min_items = match parse_optional_usize_field(members, "minItems") {
        Ok(value) => value,
        Err(error) => {
            return Err(error);
        },
    };
    let max_items = match parse_optional_usize_field(members, "maxItems") {
        Ok(value) => value,
        Err(error) => {
            return Err(error);
        },
    };
    Ok(
        (
            match min_items {
                Some(n) => n,
                None => 0,
            },
            match max_items {
                Some(n) => n,
                None => DEFAULT_MAX_ITEMS,
            },
        ),
    )
}

/// Reads the names that a `required` member lists.
fn parse_required_field_names(members: &Vec<(String, JsonValue)>) -> (parsed: Result<
    Vec<String>,
    ParseSchemaError,
>)
    ensures
        match parsed {
            Ok(names) => required_names_model(members@) == Ok::<Set<Seq<char>>, Failure>(
                texts(names@).to_set(),
            ),
            Err(error) => required_names_model(members@) == Err::<Set<Seq<char>>, Failure>(
                error.model(),
            ),
        },
{
    match get(members, "required") {
        Some(required) => {
            let items = match required.as_array() {
                Some(items) => items,
                None => {
                    return Err(invalid_schema("required must be an array"));
                },
            };
            match string_list(items) {
                Some(names) => Ok(names),
                None => Err(invalid_schema("required field names must be a string")),
            }
        },
        None => {
            let names: Vec<String> = Vec::new();
            assert(texts(names@).to_set() =~= Set::<Seq<char>>::empty());
            Ok(names)
        },
    }
}

/// Reads the properties of an object, each into the required or the
/// optional fields.
fn parse_object_properties(properties: &JsonValue, required_names: &Vec<String>) -> (parsed:
    Result<(Vec<(String, SchemaState)>, Vec<(String, SchemaState)>), ParseSchemaError>)
    requires
        properties is Object,
    ensures
        match parsed {
            Ok(fields) => {
                &&& properties_model(
                    *properties,
                    texts(required_names@).to_set(),
                    properties->Object_0@.len(),
                ) == Ok::<
                    (Map<Seq<char>, SchemaModel>, Map<Seq<char>, SchemaModel>),
                    Failure,
                >((fields_model(fields.0@), fields_model(fields.1@)))
                &&& distinct_keys(fields.0@)
                &&& distinct_keys(fields.1@)
                &&& crate::schema::disjoint_keys(fields.0@, fields.1@)
                &&& fields_well_formed(fields.0@)
                &&& fields_well_formed(fields.1@)
            },
            Err(error) => properties_model(
                *properties,
                texts(required_names@).to_set(),
                properties->Object_0@.len(),
            ) == Err::<(Map<Seq<char>, SchemaModel>, Map<Seq<char>, SchemaModel>), Failure>(
                error.model(),
            ),
        },
    decreases properties, 4nat,
{
    let ghost names = texts(required_names@).to_set();
    let members = match properties {
        JsonValue::Object(members) => members,
        _ => {
            return Ok((Vec::new(), Vec::new()));
        },
    };
    let mut required_fields: Vec<(String, SchemaState)> = Vec::new();
    let mut optional_fields: Vec<(String, SchemaState)> = Vec::new();
    let mut i: usize = 0;
    assert(fields_model(required_fields@) =~= Map::empty());
    assert(fields_model(optional_fields@) =~= Map::empty());
    while i < members.len()
        invariant
            i <= members.len(),
            properties matches JsonValue::Object(m) && m == members,
            names == texts(required_names@).to_set(),
            distinct_keys(required_fields@),
            distinct_keys(optional_fields@),
            fields_well_formed(required_fields@),
            fields_well_formed(optional_fields@),
            forall|k: Seq<char>|
                fields_model(required_fields@).dom().contains(k) ==> names.contains(k),
            forall|k: Seq<char>|
                fields_model(optional_fields@).dom().contains(k) ==> !names.contains(k),
            properties_model(*properties, names, i as nat) == Ok::<
                (Map<Seq<char>, SchemaModel>, Map<Seq<char>, SchemaModel>),
                Failure,
            >((fields_model(required_fields@), fields_model(optional_fields@))),
            forall|n: nat|
                i <= n <= members@.len() && properties_model(*properties, names, i as nat) is Err
                    ==> properties_model(*properties, names, n) is Err,
        decreases members.len() - i,
    {
        let parsed_schema = match parse_json_schema(&members[i].1) {
            Ok(schema) => schema,
            Err(error) => {
                proof {
                    lemma_properties_fail(*properties, names, (i + 1) as nat, members@.len());
                }
                return Err(error);
            },
        };
        let name = members[i].0.clone();
        if contains_string(required_names, &name) {
            put_field(&mut required_fields, name, parsed_schema);
        } else {
            put_field(&mut optional_fields, name, parsed_schema);
        }
        i = i + 1;
    }
    proof {
        assert forall|k: Seq<char>|
            !(fields_model(required_fields@).dom().contains(k) && fields_model(
                optional_fields@,
            ).dom().contains(k)) by {
            if fields_model(required_fields@).dom().contains(k) {
                assert(names.contains(k));
            }
        }
        lemma_disjoint_by_domains(required_fields@, optional_fields@);
    }
    Ok((required_fields, optional_fields))
}

/// Once a property fails, the properties fail however many more are read.
proof fn lemma_properties_fail(properties: JsonValue, names: Set<Seq<char>>, n: nat, m: nat)
    requires
        properties is Object,
        n <= m <= properties->Object_0@.len(),
        properties_model(properties, names, n) is Err,
    ensures
        properties_model(properties, names, m) == properties_model(properties, names, n),
    decreases m,
{
    if n < m {
        lemma_properties_fail(properties, names, n, (m - 1) as nat);
    }
}

/// Reads the schema of a document of type `object`.
fn parse_object_type(schema: &JsonValue, members: &Vec<(String, JsonValue)>) -> (parsed: Result<
    SchemaState,
    ParseSchemaError,
>)
    requires
        schema matches JsonValue::Object(m) && m == members,
    ensures
        outcome(parsed) == object_type_model(*schema),
        parsed matches Ok(found) ==> found.well_formed(),
    decreases schema, 5nat,
{
    let properties = get(members, "properties");
    match properties {
        Some(value) => {
            if value.as_object().is_none() {
                return Err(invalid_schema("properties must be an object"));
            }
        },
        None => {},
    }
    let required_names = match parse_required_field_names(members) {
        Ok(names) => names,
        Err(error) => {
            return Err(error);
        },
    };
    let fields = match properties {
        Some(value) => match parse_object_properties(value, &required_names) {
            Ok(fields) => fields,
            Err(error) => {
                return Err(error);
            },
        },
        None => {
            let required: Vec<(String, SchemaState)> = Vec::new();
            let optional: Vec<(String, SchemaState)> = Vec::new();
            assert(fields_model(required@) =~= Map::empty());
            assert(fields_model(optional@) =~= Map::empty());
            (required, optional)
        },
    };
    Ok(SchemaState::Object { required: fields.0, optional: fields.1 })
}

/// Reads the schema of a document of type `array`.
fn parse_array_type(schema: &JsonValue, members: &Vec<(String, JsonValue)>) -> (parsed: Result<
    SchemaState,
    ParseSchemaError,
>)
    requires
        schema matches JsonValue::Object(m) && m == members,
    ensures
        outcome(parsed) == array_type_model(*schema),
        parsed matches Ok(found) ==> found.well_formed(),
    decreases schema, 5nat,
{
    let items_schema = match get(members, "items") {
        Some(value) => value,
        None => {
            return Err(invalid_schema("Array schema must have an 'items' field"));
        },
    };
    let parsed_items_schema = match parse_json_schema(items_schema) {
        Ok(found) => found,
        Err(error) => {
            return Err(error);
        },
    };
    let (min_items, max_items) = match parse_array_constraints(members) {
        Ok(bounds) => bounds,
        Err(error) => {
            return Err(error);
        },
    };
    Ok(
        SchemaState::Array {
            min_length: min_items,
            max_length: max_items,
            schema: Box::new(parsed_items_schema),
        },
    )
}

/// Reads the schema of a document of one type.
fn parse_single_type(
    schema: &JsonValue,
    members: &Vec<(String, JsonValue)>,
    type_str: &str,
) -> (parsed: Result<SchemaState, ParseSchemaError>)
    requires
        schema matches JsonValue::Object(m) && m == members,
    ensures
        outcome(parsed) == single_type_model(*schema, type_str@),
        parsed matches Ok(found) ==> found.well_formed(),
    decreases schema, 8nat,
{
    if same_text(type_str, "string") {
        parse_string_type(members)
    } else if same_text(type_str, "number") {
        parse_number_type(members, false)
    } else if same_text(type_str, "integer") {
        parse_number_type(members, true)
    } else if same_text(type_str, "boolean") {
        Ok(SchemaState::Boolean)
    } else if same_text(type_str, "null") {
        Ok(SchemaState::Null)
    } else if same_text(type_str, "object") {
        parse_object_type(schema, members)
    } else if same_text(type_str, "array") {
        parse_array_type(schema, members)
    } else {
        let mut msg = String::from_str("Type '");
        msg.append(type_str);
        msg.append("' not supported yet");
        Err(ParseSchemaError::UnsupportedFeature(msg))
    }
}

/// Makes a schema nullable, and hands an error on.
fn make_nullable(inner: Result<SchemaState, ParseSchemaError>) -> (parsed: Result<
    SchemaState,
    ParseSchemaError,
>)
    requires
        inner matches Ok(found) ==> found.well_formed(),
    ensures
        outcome(parsed) == nullable(outcome(inner)),
        parsed matches Ok(found) ==> found.well_formed(),
{
    match inner {
        Ok(found) => Ok(SchemaState::Nullable(Box::new(found))),
        Err(error) => Err(error),
    }
}

/// Reads the schema of a document whose `type` member is an array.
fn parse_nullable_type(
    schema: &JsonValue,
    members: &Vec<(String, JsonValue)>,
    type_array: &Vec<JsonValue>,
) -> (parsed: Result<SchemaState, ParseSchemaError>)
    requires
        schema matches JsonValue::Object(m) && m == members,
    ensures
        outcome(parsed) == nullable_type_model(*schema, type_array@),
        parsed matches Ok(found) ==> found.well_formed(),
    decreases schema, 9nat,
{
    if type_array.len() != 2 {
        return Err(
            unsupported_feature("Only nullable types with exactly 2 elements are supported"),
        );
    }
    let first = match type_array[0].as_str() {
        Some(text) => text,
        None => {
            return Err(invalid_schema("All type array elements must be strings"));
        },
    };
    let second = match type_array[1].as_str() {
        Some(text) => text,
        None => {
            return Err(invalid_schema("All type array elements must be strings"));
        },
    };
    if same_text(first, "null") {
        if same_text(second, "null") {
            Err(invalid_schema("Nullable type array must contain a non-null type"))
        } else {
            make_nullable(parse_single_type(schema, members, second))
        }
    } else if same_text(second, "null") {
        make_nullable(parse_single_type(schema, members, first))
    } else {
        Err(unsupported_feature("Only one non-null type is supported in nullable types"))
    }
}

/// The type that an alternative names, `None` for `null`; the alternative
/// is untyped where `None` is handed back.
fn alternative_type<'a>(item_members: &'a Vec<(String, JsonValue)>) -> (named: Option<
    Option<&'a str>,
>)
    ensures
        match named {
            None => !(member(item_members@, "type"@) matches Some(JsonValue::String(_))),
            Some(None) => member(item_members@, "type"@) matches Some(JsonValue::String(text))
                && text@ == "null"@,
            Some(Some(type_text)) => member(item_members@, "type"@) matches Some(
                JsonValue::String(text),
            ) && text@ == type_text@ && text@ != "null"@,
        },
{
    match get(item_members, "type") {
        Some(type_field) => match type_field.as_str() {
            Some(type_str) => if same_text(type_str, "null") {
                Some(None)
            } else {
                Some(Some(type_str))
            },
            None => None,
        },
        None => None,
    }
}

/// Reads the alternatives of an `anyOf` or `oneOf` member as a nullable
/// type, where they describe one.
fn try_parse_nullable_anyof_oneof(schema_array: &JsonValue) -> (parsed: Result<
    Option<SchemaState>,
    ParseSchemaError,
>)
    ensures
        match parsed {
            Ok(Some(found)) => nullable_pattern_model(*schema_array) == Ok::<
                Option<SchemaModel>,
                Failure,
            >(Some(found.model())) && found.well_formed(),
            Ok(None) => nullable_pattern_model(*schema_array) == Ok::<
                Option<SchemaModel>,
                Failure,
            >(None),
            Err(error) => nullable_pattern_model(*schema_array) == Err::<
                Option<SchemaModel>,
                Failure,
            >(error.model()),
        },
    decreases schema_array, 10nat,
{
    let array = match schema_array.as_array() {
        Some(items) => items,
        None => {
            return Err(invalid_schema("anyOf/oneOf must be an array"));
        },
    };
    if array.len() != 2 {
        return Ok(None);
    }
    let first_members = match array[0].as_object() {
        Some(item_members) => item_members,
        None => {
            return Err(invalid_schema("anyOf/oneOf items must be an object"));
        },
    };
    let first = match alternative_type(first_members) {
        Some(named) => named,
        None => {
            return Ok(None);
        },
    };
    let second_members = match array[1].as_object() {
        Some(item_members) => item_members,
        None => {
            return Err(invalid_schema("anyOf/oneOf items must be an object"));
        },
    };
    let second = match alternative_type(second_members) {
        Some(named) => named,
        None => {
            return Ok(None);
        },
    };
    match (first, second) {
        (None, Some(type_str)) => match parse_single_type(&array[1], second_members, type_str) {
            Ok(found) => Ok(Some(SchemaState::Nullable(Box::new(found)))),
            Err(error) => Err(error),
        },
        (Some(type_str), None) => match parse_single_type(&array[0], first_members, type_str) {
            Ok(found) => Ok(Some(SchemaState::Nullable(Box::new(found)))),
            Err(error) => Err(error),
        },
        _ => Ok(None),
    }
}

/// Reads the schema that a JSON Schema document describes.
pub fn parse_json_schema(schema_json: &JsonValue) -> (parsed: Result<SchemaState, ParseSchemaError>)
    ensures
        outcome(parsed) == parse_model(*schema_json),
        parsed matches Ok(found) ==> found.well_formed(),
    decreases schema_json, 10nat,
{
    let schema_obj = match schema_json.as_object() {
        Some(members) => members,
        None => {
            return Err(invalid_schema("Schema must be an object"));
        },
    };
    if let Some(any_of) = get(schema_obj, "anyOf") {
        return match try_parse_nullable_anyof_oneof(any_of) {
            Ok(Some(nullable_schema)) => Ok(nullable_schema),
            Ok(None) => Err(
                unsupported_feature("anyOf patterns other than nullable not supported yet"),
            ),
            Err(error) => Err(error),
        };
    }
    if let Some(one_of) = get(schema_obj, "oneOf") {
        return match try_parse_nullable_anyof_oneof(one_of) {
            Ok(Some(nullable_schema)) => Ok(nullable_schema),
            Ok(None) => Err(
                unsupported_feature("oneOf patterns other than nullable not supported yet"),
            ),
            Err(error) => Err(error),
        };
    }
    let type_field = match get(schema_obj, "type") {
        Some(value) => value,
        None => {
            return Err(invalid_schema("Schema must have a 'type' field, 'anyOf', or 'oneOf'"));
        },
    };
    if let Some(type_array) = type_field.as_array() {
        parse_nullable_type(schema_json, schema_obj, type_array)
    } else if let Some(type_str) = type_field.as_str() {
        parse_single_type(schema_json, schema_obj, type_str)
    } else {
        Err(invalid_schema("Type field must be a string or array"))
    }
}

/// The warning, where there is reason for it.
pub open spec fn warning_if(reason: bool, warning: Seq<char>) -> Seq<Seq<char>> {
    if reason {
        seq![warning]
    } else {
        Seq::empty()
    }
}

/// The warnings of a number for its own keywords: for exclusive bounds,
/// which count as inclusive, and for `multipleOf`.
pub open spec fn number_warnings(members: Seq<(String, JsonValue)>) -> Seq<Seq<char>> {
    warning_if(
        has_member(members, "exclusiveMinimum"@),
        "Warning: exclusiveMinimum not supported, treating as inclusive minimum"@,
    ) + warning_if(
        has_member(members, "exclusiveMaximum"@),
        "Warning: exclusiveMaximum not supported, treating as inclusive maximum"@,
    ) + warning_if(
        has_member(members, "multipleOf"@),
        "Warning: multipleOf constraint not supported, ignoring"@,
    )
}

/// The warnings of an array for its own keywords: `uniqueItems`, `contains`
/// and `additionalItems`.
pub open spec fn array_warnings(members: Seq<(String, JsonValue)>) -> Seq<Seq<char>> {
    warning_if(
        has_member(members, "uniqueItems"@),
        "Warning: uniqueItems constraint not supported, ignoring"@,
    ) + warning_if(
        has_member(members, "contains"@),
        "Warning: contains keyword not supported, ignoring"@,
    ) + warning_if(
        has_member(members, "additionalItems"@),
        "Warning: additionalItems not supported, ignoring"@,
    )
}

/// Whether the format is one of the six that are known.
pub open spec fn known_format(format: Seq<char>) -> bool {
    format == "email"@ || format == "uuid"@ || format == "date"@ || format == "date-time"@
        || format == "uri"@ || format == "hostname"@
}

/// The warnings of a document of type `string`: one for a format that is
/// not known, unless an `enum` member takes its place.
pub open spec fn string_warnings(members: Seq<(String, JsonValue)>) -> Seq<Seq<char>> {
    match member(members, "format"@) {
        Some(JsonValue::String(format)) => if !has_member(members, "enum"@) && !known_format(
            format@,
        ) {
            seq![
                "Warning: Unsupported string format '"@ + format@
                    + "', using basic string type"@,
            ]
        } else {
            Seq::empty()
        },
        _ => Seq::empty(),
    }
}

/// The warnings of an object for its own keywords: for additional
/// properties that are admitted or described, and for pattern properties.
pub open spec fn object_warnings(members: Seq<(String, JsonValue)>) -> Seq<Seq<char>> {
    let additional: Seq<Seq<char>> = match member(members, "additionalProperties"@) {
        Some(JsonValue::Bool(true)) => seq![
            "Warning: additionalProperties: true not fully supported, allowing any additional properties"@,
        ],
        Some(JsonValue::Object(_)) => seq![
            "Warning: additionalProperties schema not supported, ignoring"@,
        ],
        _ => Seq::empty(),
    };
    additional + warning_if(
        has_member(members, "patternProperties"@),
        "Warning: patternProperties not supported, ignoring"@,
    )
}

/// The warnings of the first `n` properties, one property after the other.
pub open spec fn properties_warnings(properties: JsonValue, n: nat) -> Seq<Seq<char>>
    decreases properties, n,
{
    if !(properties is Object) || n == 0 || n > properties->Object_0@.len() {
        Seq::empty()
    } else {
        properties_warnings(properties, (n - 1) as nat) + warnings_model(
            properties->Object_0@[n - 1].1,
        )
    }
}

/// The warnings of a document of one type: those of what it holds, and
/// after them those for its own keywords.
pub open spec fn single_type_warnings(schema: JsonValue, type_text: Seq<char>) -> Seq<Seq<char>>
    decreases schema, 8nat,
{
    if !(schema is Object) {
        Seq::empty()
    } else {
        let members = schema->Object_0@;
        if type_text == "string"@ {
            string_warnings(members)
        } else if type_text == "number"@ || type_text == "integer"@ {
            number_warnings(members)
        } else if type_text == "object"@ {
            (match member(members, "properties"@) {
                Some(properties) => properties_warnings(properties, properties->Object_0@.len()),
                None => Seq::empty(),
            }) + object_warnings(members)
        } else if type_text == "array"@ {
            (match member(members, "items"@) {
                Some(items) => warnings_model(items),
                None => Seq::empty(),
            }) + array_warnings(members)
        } else {
            Seq::empty()
        }
    }
}

/// The type that the document names beside `null`, if it names one.
pub open spec fn named_type(type_field: JsonValue) -> Option<Seq<char>> {
    match type_field {
        JsonValue::String(text) => Some(text@),
        JsonValue::Array(types) => if types@.len() == 2 && types@[0] is String
            && types@[1] is String {
            if types@[0]->String_0@ == "null"@ {
                if types@[1]->String_0@ == "null"@ {
                    None
                } else {
                    Some(types@[1]->String_0@)
                }
            } else if types@[1]->String_0@ == "null"@ {
                Some(types@[0]->String_0@)
            } else {
                None
            }
        } else {
            None
        },
        _ => None,
    }
}

/// The warnings of the alternatives of an `anyOf` or `oneOf` member that
/// describe a nullable type: those of the alternative that is not `null`.
pub open spec fn pattern_warnings(pattern: JsonValue) -> Seq<Seq<char>>
    decreases pattern, 10nat,
{
    if !(pattern is Array) || pattern->Array_0@.len() != 2 || !(pattern->Array_0@[0] is Object)
        || !(pattern->Array_0@[1] is Object) {
        Seq::empty()
    } else {
        let items = pattern->Array_0@;
        match (alternative_of(items[0]), alternative_of(items[1])) {
            (Alternative::Null, Alternative::Typed(type_text)) => single_type_warnings(
                items[1],
                type_text,
            ),
            (Alternative::Typed(type_text), Alternative::Null) => single_type_warnings(
                items[0],
                type_text,
            ),
            _ => Seq::empty(),
        }
    }
}

/// The warnings that the reader has for a document: one for each keyword
/// that it finds where it reads and does not honour, in the order in which
/// it reads. A document that cannot be read may have warnings all the same.
pub open spec fn warnings_model(schema: JsonValue) -> Seq<Seq<char>>
    decreases schema, 10nat,
{
    if !(schema is Object) {
        Seq::empty()
    } else {
        let members = schema->Object_0@;
        if has_member(members, "anyOf"@) {
            pattern_warnings(member(members, "anyOf"@)->0)
        } else if has_member(members, "oneOf"@) {
            pattern_warnings(member(members, "oneOf"@)->0)
        } else if !has_member(members, "type"@) {
            Seq::empty()
        } else {
            match named_type(member(members, "type"@)->0) {
                Some(type_text) => single_type_warnings(schema, type_text),
                None => Seq::empty(),
            }
        }
    }
}

/// Adds the warning of a keyword where the members hold the keyword.
fn warn_of(
    members: &Vec<(String, JsonValue)>,
    keyword: &str,
    warning: &str,
    warnings: &mut Vec<String>,
)
    ensures
        texts(final(warnings)@) == texts(old(warnings)@) + warning_if(
            has_member(members@, keyword@),
            warning@,
        ),
{
    let ghost before = warnings@;
    if get(members, keyword).is_some() {
        warnings.push(String::from_str(warning));
        assert(texts(warnings@) =~= texts(before) + seq![warning@]);
    } else {
        assert(texts(warnings@) =~= texts(before) + Seq::<Seq<char>>::empty());
    }
}

/// Adds the warnings of a number for its own keywords.
fn warn_about_unsupported_number_features(
    members: &Vec<(String, JsonValue)>,
    warnings: &mut Vec<String>,
)
    ensures
        texts(final(warnings)@) == texts(old(warnings)@) + number_warnings(members@),
{
    let ghost before = texts(warnings@);
    warn_of(
        members,
        "exclusiveMinimum",
        "Warning: exclusiveMinimum not supported, treating as inclusive minimum",
        warnings,
    );
    warn_of(
        members,
        "exclusiveMaximum",
        "Warning: exclusiveMaximum not supported, treating as inclusive maximum",
        warnings,
    );
    warn_of(members, "multipleOf", "Warning: multipleOf constraint not supported, ignoring", warnings);
    assert(texts(warnings@) =~= before + number_warnings(members@));
}

/// Adds the warnings of an array for its own keywords.
fn warn_about_unsupported_array_features(
    members: &Vec<(String, JsonValue)>,
    warnings: &mut Vec<String>,
)
    ensures
        texts(final(warnings)@) == texts(old(warnings)@) + array_warnings(members@),
{
    let ghost before = texts(warnings@);
    warn_of(
        members,
        "uniqueItems",
        "Warning: uniqueItems constraint not supported, ignoring",
        warnings,
    );
    warn_of(members, "contains", "Warning: contains keyword not supported, ignoring", warnings);
    warn_of(members, "additionalItems", "Warning: additionalItems not supported, ignoring", warnings);
    assert(texts(warnings@) =~= before + array_warnings(members@));
}

/// Adds the warnings of an object for its own keywords.
fn warn_about_unsupported_object_features(
    members: &Vec<(String, JsonValue)>,
    warnings: &mut Vec<String>,
)
    ensures
        texts(final(warnings)@) == texts(old(warnings)@) + object_warnings(members@),
{
    let ghost before = texts(warnings@);
    match get(members, "additionalProperties") {
        Some(JsonValue::Bool(true)) => {
            let ghost earlier = warnings@;
            warnings.push(
                String::from_str(
                    "Warning: additionalProperties: true not fully supported, allowing any additional properties",
                ),
            );
            assert(texts(warnings@) =~= texts(earlier).push(
                "Warning: additionalProperties: true not fully supported, allowing any additional properties"@,
            ));
        },
        Some(JsonValue::Object(_)) => {
            let ghost earlier = warnings@;
            warnings.push(
                String::from_str("Warning: additionalProperties schema not supported, ignoring"),
            );
            assert(texts(warnings@) =~= texts(earlier).push(
                "Warning: additionalProperties schema not supported, ignoring"@,
            ));
        },
        _ => {},
    }
    warn_of(
        members,
        "patternProperties",
        "Warning: patternProperties not supported, ignoring",
        warnings,
    );
    assert(texts(warnings@) =~= before + object_warnings(members@));
}

/// Adds the warnings of a document of type `string`.
fn warn_about_string_format(members: &Vec<(String, JsonValue)>, warnings: &mut Vec<String>)
    ensures
        texts(final(warnings)@) == texts(old(warnings)@) + string_warnings(members@),
{
    let ghost before = texts(warnings@);
    match get(members, "format") {
        Some(JsonValue::String(format)) => {
            let format_str = format.as_str();
            let known = same_text(format_str, "email") || same_text(format_str, "uuid")
                || same_text(format_str, "date") || same_text(format_str, "date-time")
                || same_text(format_str, "uri") || same_text(format_str, "hostname");
            if get(members, "enum").is_none() && !known {
                let mut warning = String::from_str("Warning: Unsupported string format '");
                warning.append(format_str);
                warning.append("', using basic string type");
                let ghost earlier = warnings@;
                let ghost line = warning@;
                warnings.push(warning);
                assert(texts(warnings@) =~= texts(earlier).push(line));
            }
        },
        _ => {},
    }
    assert(texts(warnings@) =~= before + string_warnings(members@));
}

/// Adds the warnings of the properties of an object.
fn warn_about_properties(properties: &JsonValue, warnings: &mut Vec<String>)
    ensures
        texts(final(warnings)@) == texts(old(warnings)@) + properties_warnings(
            *properties,
            properties->Object_0@.len(),
        ),
    decreases properties, 4nat,
{
    let ghost before = texts(warnings@);
    match properties {
        JsonValue::Object(members) => {
            let mut i: usize = 0;
            assert(before + properties_warnings(*properties, 0) =~= before);
            while i < members.len()
                invariant
                    i <= members.len(),
                    properties matches JsonValue::Object(m) && m == members,
                    texts(warnings@) == before + properties_warnings(*properties, i as nat),
                decreases members.len() - i,
            {
                let ghost earlier = texts(warnings@);
                collect_warnings(&members[i].1, warnings);
                assert(texts(warnings@) =~= before + properties_warnings(
                    *properties,
                    (i + 1) as nat,
                ));
                i = i + 1;
            }
        },
        _ => {
            assert(before + properties_warnings(*properties, properties->Object_0@.len()) =~= before);
        },
    }
}

/// Adds the warnings of a document of one type.
fn warn_about_single_type(
    schema: &JsonValue,
    members: &Vec<(String, JsonValue)>,
    type_str: &str,
    warnings: &mut Vec<String>,
)
    requires
        schema matches JsonValue::Object(m) && m == members,
    ensures
        texts(final(warnings)@) == texts(old(warnings)@) + single_type_warnings(
            *schema,
            type_str@,
        ),
    decreases schema, 8nat,
{
    let ghost before = texts(warnings@);
    if same_text(type_str, "string") {
        warn_about_string_format(members, warnings);
    } else if same_text(type_str, "number") || same_text(type_str, "integer") {
        warn_about_unsupported_number_features(members, warnings);
    } else if same_text(type_str, "object") {
        match get(members, "properties") {
            Some(properties) => warn_about_properties(properties, warnings),
            None => {},
        }
        let ghost middle = texts(warnings@);
        warn_about_unsupported_object_features(members, warnings);
        assert(texts(warnings@) =~= before + single_type_warnings(*schema, type_str@));
    } else if same_text(type_str, "array") {
        match get(members, "items") {
            Some(items) => collect_warnings(items, warnings),
            None => {},
        }
        warn_about_unsupported_array_features(members, warnings);
        assert(texts(warnings@) =~= before + single_type_warnings(*schema, type_str@));
    } else {
        assert(before + Seq::<Seq<char>>::empty() =~= before);
    }
}

/// The type that the document names beside `null`, if it names one.
fn type_named<'a>(type_field: &'a JsonValue) -> (named: Option<&'a str>)
    ensures
        match named {
            Some(type_text) => named_type(*type_field) == Some(type_text@),
            None => named_type(*type_field) is None,
        },
{
    match type_field {
        JsonValue::String(text) => Some(text.as_str()),
        JsonValue::Array(types) => {
            if types.len() != 2 {
                return None;
            }
            match (types[0].as_str(), types[1].as_str()) {
                (Some(first), Some(second)) => {
                    if same_text(first, "null") {
                        if same_text(second, "null") {
                            None
                        } else {
                            Some(second)
                        }
                    } else if same_text(second, "null") {
                        Some(first)
                    } else {
                        None
                    }
                },
                _ => None,
            }
        },
        _ => None,
    }
}

/// Adds the warnings of the alternatives of an `anyOf` or `oneOf` member.
fn warn_about_pattern(pattern: &JsonValue, warnings: &mut Vec<String>)
    ensures
        texts(final(warnings)@) == texts(old(warnings)@) + pattern_warnings(*pattern),
    decreases pattern, 10nat,
{
    let ghost before = texts(warnings@);
    assert(before + Seq::<Seq<char>>::empty() =~= before);
    let array = match pattern.as_array() {
        Some(items) => items,
        None => {
            return ;
        },
    };
    if array.len() != 2 {
        return ;
    }
    let first_members = match array[0].as_object() {
        Some(item_members) => item_members,
        None => {
            return ;
        },
    };
    let second_members = match array[1].as_object() {
        Some(item_members) => item_members,
        None => {
            return ;
        },
    };
    match (alternative_type(first_members), alternative_type(second_members)) {
        (Some(None), Some(Some(type_str))) => warn_about_single_type(
            &array[1],
            second_members,
            type_str,
            warnings,
        ),
        (Some(Some(type_str)), Some(None)) => warn_about_single_type(
            &array[0],
            first_members,
            type_str,
            warnings,
        ),
        _ => {},
    }
}

/// Adds the warnings that the reader has for a document.
fn collect_warnings(schema_json: &JsonValue, warnings: &mut Vec<String>)
    ensures
        texts(final(warnings)@) == texts(old(warnings)@) + warnings_model(*schema_json),
    decreases schema_json, 10nat,
{
    let ghost before = texts(warnings@);
    assert(before + Seq::<Seq<char>>::empty() =~= before);
    let schema_obj = match schema_json.as_object() {
        Some(members) => members,
        None => {
            return ;
        },
    };
    if let Some(any_of) = get(schema_obj, "anyOf") {
        warn_about_pattern(any_of, warnings);
        return ;
    }
    if let Some(one_of) = get(schema_obj, "oneOf") {
        warn_about_pattern(one_of, warnings);
        return ;
    }
    let type_field = match get(schema_obj, "type") {
        Some(value) => value,
        None => {
            return ;
        },
    };
    match type_named(type_field) {
        Some(type_str) => warn_about_single_type(schema_json, schema_obj, type_str, warnings),
        None => {},
    }
}

/// The warnings that the reader has for a document: one for each keyword
/// that it finds where it reads and does not honour.
pub fn schema_warnings(schema_json: &JsonValue) -> (warnings: Vec<String>)
    ensures
        texts(warnings@) == warnings_model(*schema_json),
{
    let mut warnings: Vec<String> = Vec::new();
    assert(texts(warnings@) =~= Seq::<Seq<char>>::empty());
    collect_warnings(schema_json, &mut warnings);
    assert(Seq::<Seq<char>>::empty() + warnings_model(*schema_json) =~= warnings_model(
        *schema_json,
    ));
    warnings
}

} // verus!
