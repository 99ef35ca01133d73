//! Production: from a schema to a synthetic document that follows it.

use crate::double::Double;
use crate::fields::lemma_domains_by_disjoint;
use crate::json::JsonNumber;
use crate::schema::{
    bound_model, fields_model, lemma_fields_model_at, texts, NumberType, SchemaModel,
    SchemaState, StringModel, StringType,
};
use crate::strings::lemma_distinct_texts;
use vstd::prelude::*;
use vstd::string::StringExecFns;

verus! {

/// A produced document in which the floats that are to be drawn from a range
/// are not drawn yet: each stands as the range it is to be drawn from.
#[derive(Debug, PartialEq)]
pub enum Draft {
    Null,
    Bool(bool),
    Number(JsonNumber),
    /// A float to be drawn between two different bounds, both included.
    FloatBetween { min: Double, max: Double },
    String(String),
    Array(Vec<Draft>),
    Object(Vec<(String, Draft)>),
}

/// The length that a string of no recognised format has where its schema
/// gives no upper bound.
pub const DEFAULT_MAX_LENGTH: usize = 32;

/// What `str::to_lowercase` makes of a text.
pub uninterp spec fn lowercase_of(text: Seq<char>) -> Seq<char>;

/// `String::push` of std: the character is added at the end of the string.
pub assume_specification[ std::string::String::push ](s: &mut std::string::String, c: char)
    ensures
        final(s)@ == old(s)@.push(c),
;

/// `str::to_lowercase` of std: what it makes of a text is taken to depend on
/// the text alone.
pub assume_specification[ str::to_lowercase ](s: &str) -> (lower: std::string::String)
    ensures
        lower@ == lowercase_of(s@),
;

/// Whether the character is a digit or a letter from `a` to `f`.
pub open spec fn lower_hex(c: char) -> bool {
    ('0' as u32 <= c as u32 <= '9' as u32) || ('a' as u32 <= c as u32 <= 'f' as u32)
}

/// Whether the character is an ASCII digit.
pub open spec fn ascii_digit(c: char) -> bool {
    '0' as u32 <= c as u32 <= '9' as u32
}

/// Whether the text is a date written `YYYY-MM-DD` in ASCII digits.
pub open spec fn written_date(text: Seq<char>) -> bool {
    &&& text.len() == 10
    &&& forall|i: int|
        0 <= i < 10 ==> if i == 4 || i == 7 {
            #[trigger] text[i] == '-'
        } else {
            ascii_digit(text[i])
        }
}

/// Whether the text starts with a date written `YYYY-MM-DD` and a `T`, as
/// a date and time of RFC 3339 does.
pub open spec fn starts_with_date(text: Seq<char>) -> bool {
    text.len() > 10 && written_date(text.take(10)) && text[10] == 'T'
}

/// Whether the text starts with three characters, a comma and a space, as
/// a date and time of RFC 2822 that names its weekday does.
pub open spec fn starts_with_weekday(text: Seq<char>) -> bool {
    text.len() >= 5 && text[3] == ',' && text[4] == ' '
}

/// Whether the character is an ASCII digit or letter.
pub open spec fn ascii_alphanumeric(c: char) -> bool {
    ('0' as u32 <= c as u32 <= '9' as u32) || ('a' as u32 <= c as u32 <= 'z' as u32) || ('A' as u32
        <= c as u32 <= 'Z' as u32)
}

/// Whether the text is a UUID in its hyphenated lower-case form: 32 digits
/// in five groups of 8, 4, 4, 4 and 12.
pub open spec fn hyphenated_uuid(text: Seq<char>) -> bool {
    &&& text.len() == 36
    &&& forall|i: int|
        0 <= i < 36 ==> if i == 8 || i == 13 || i == 18 || i == 23 {
            #[trigger] text[i] == '-'
        } else {
            lower_hex(text[i])
        }
}

/// Draws a boolean with `rand::random`. Nothing is known of the outcome.
#[verifier::external_body]
fn random_bool() -> bool {
    rand::random()
}

/// Draws an integer with `rand::Rng::gen_range` on the thread's generator,
/// which hands back a value of the range and panics on an empty one.
#[verifier::external_body]
fn random_i64_between(low: i64, high: i64) -> (drawn: i64)
    requires
        low <= high,
    ensures
        low <= drawn <= high,
{
    rand::Rng::gen_range(&mut rand::thread_rng(), low..=high)
}

/// Draws a length with `rand::Rng::gen_range` on the thread's generator,
/// which hands back a value of the range and panics on an empty one.
#[verifier::external_body]
fn random_usize_between(low: usize, high: usize) -> (drawn: usize)
    requires
        low <= high,
    ensures
        low <= drawn <= high,
{
    rand::Rng::gen_range(&mut rand::thread_rng(), low..=high)
}

/// Draws a place below `len` with `rand::Rng::gen_range` on the thread's
/// generator, which hands back a value of the range and panics on an empty
/// one.
#[verifier::external_body]
fn random_index(len: usize) -> (drawn: usize)
    requires
        len > 0,
    ensures
        drawn < len,
{
    rand::Rng::gen_range(&mut rand::thread_rng(), 0..len)
}

/// A date made up by the fake crate, as chrono writes a `NaiveDate`. The
/// fake crate takes the year from 1 to 2999, and chrono writes a year of
/// four digits at most as `YYYY-MM-DD`.
#[verifier::external_body]
fn fake_date() -> (text: String)
    ensures
        written_date(text@),
{
    let date: chrono::NaiveDate = fake::Fake::fake(&fake::Faker);
    date.to_string()
}

/// A date and time made up by the fake crate, rounded to milliseconds by
/// `chrono::SubsecRound::round_subsecs` and written by
/// `chrono::DateTime::to_rfc3339`. The fake crate makes the time up from a
/// count of nanoseconds in 64 bits, so the year has four digits, and chrono
/// then writes the date as `YYYY-MM-DD` and a `T` after it.
#[verifier::external_body]
fn fake_rfc3339() -> (text: String)
    ensures
        starts_with_date(text@),
{
    let date_time: chrono::DateTime<chrono::Utc> = fake::Fake::fake(&fake::Faker);
    chrono::SubsecRound::round_subsecs(date_time, 3).to_rfc3339()
}

/// A date and time made up by the fake crate, rounded to milliseconds by
/// `chrono::SubsecRound::round_subsecs` and written by
/// `chrono::DateTime::to_rfc2822`. The fake crate makes the time up from a
/// count of nanoseconds in 64 bits, so the year has four digits, which is
/// what `to_rfc2822` needs. What it writes starts with the weekday in three
/// letters, a comma and a space.
#[verifier::external_body]
fn fake_rfc2822() -> (text: String)
    ensures
        starts_with_weekday(text@),
{
    let date_time: chrono::DateTime<chrono::Utc> = fake::Fake::fake(&fake::Faker);
    chrono::SubsecRound::round_subsecs(date_time, 3).to_rfc2822()
}

/// A version 4 UUID from `uuid::Uuid::new_v4`, written as the uuid crate
/// displays one: hyphenated, in lower case.
#[verifier::external_body]
fn random_uuid() -> (text: String)
    ensures
        hyphenated_uuid(text@),
{
    uuid::Uuid::new_v4().to_string()
}

/// An email address made up by the fake crate's `FreeEmail`, which writes
/// a user name, an `@` and a provider.
#[verifier::external_body]
fn fake_email() -> (text: String)
    ensures
        text@.contains('@'),
{
    fake::Fake::fake(&fake::faker::internet::en::FreeEmail())
}

/// A word made up by the fake crate's `Buzzword`. Nothing is known of it.
#[verifier::external_body]
fn fake_buzzword() -> String {
    fake::Fake::fake(&fake::faker::company::en::Buzzword())
}

/// A domain suffix made up by the fake crate's `DomainSuffix`. Nothing is
/// known of it.
#[verifier::external_body]
fn fake_domain_suffix() -> String {
    fake::Fake::fake(&fake::faker::internet::en::DomainSuffix())
}

/// A word made up by the fake crate's `Word`. Nothing is known of it.
#[verifier::external_body]
fn fake_word() -> String {
    fake::Fake::fake(&fake::faker::lorem::en::Word())
}

/// A string of `len` characters made up by the fake crate, which draws each
/// from the ASCII digits and letters.
#[verifier::external_body]
fn fake_string(len: usize) -> (text: String)
    ensures
        text@.len() == len,
        forall|i: int| 0 <= i < text@.len() ==> ascii_alphanumeric(#[trigger] text@[i]),
{
    fake::Fake::fake(&len)
}

/// The least length of a produced string of no recognised format.
pub open spec fn least_length(min_length: Option<nat>) -> nat {
    match min_length {
        Some(n) => n,
        None => 0,
    }
}

/// The greatest length of a produced string of no recognised format.
pub open spec fn greatest_length(max_length: Option<nat>) -> nat {
    match max_length {
        Some(n) => n,
        None => DEFAULT_MAX_LENGTH as nat,
    }
}

/// Whether a text follows what is known of a string.
///
/// A date is written `YYYY-MM-DD`, a date and time of ISO 8601 starts
/// with such a date and a `T`, and one of RFC 2822 with a weekday. A UUID is
/// written in the hyphenated form, an email address holds an `@`, a host
/// name holds a dot and a URL starts with `https://`. An enumerated string
/// is one of the variants. A string of no recognised format has a length,
/// in characters, within the bounds, and is made of the characters seen, or
/// of ASCII digits and letters where none was seen.
pub open spec fn string_conforms(s: StringModel, text: Seq<char>) -> bool {
    match s {
        StringModel::IsoDate => written_date(text),
        StringModel::DateTimeISO8601 => starts_with_date(text),
        StringModel::DateTimeRFC2822 => starts_with_weekday(text),
        StringModel::Email => text.contains('@'),
        StringModel::UUID => hyphenated_uuid(text),
        StringModel::Enum { variants } => variants.contains(text),
        StringModel::Hostname => text.contains('.'),
        StringModel::Url => "https://"@.is_prefix_of(text),
        StringModel::Unknown { chars_seen, min_length, max_length, .. } => {
            &&& least_length(min_length) <= text.len() <= greatest_length(max_length)
            &&& forall|i: int|
                0 <= i < text.len() ==> if chars_seen.len() > 0 {
                    chars_seen.contains(#[trigger] text[i])
                } else {
                    ascii_alphanumeric(text[i])
                }
        },
    }
}

/// Whether the array of that many items has a length that its schema
/// admits: at the root of a document of which more than one repetition is
/// asked, the number of repetitions, and else one within the bounds.
pub open spec fn length_conforms(
    len: nat,
    min_length: nat,
    max_length: nat,
    repeat_n: nat,
    at_root: bool,
) -> bool {
    if at_root && repeat_n > 1 {
        len == repeat_n
    } else {
        min_length <= len <= max_length
    }
}

/// Whether no name occurs twice among the members.
pub open spec fn distinct_names(members: Seq<(String, Draft)>) -> bool {
    forall|i: int, j: int|
        0 <= i < j < members.len() ==> (#[trigger] members[i]).0@ != (#[trigger] members[j]).0@
}

/// Whether the members hold one of that name.
pub open spec fn has_name(members: Seq<(String, Draft)>, name: Seq<char>) -> bool {
    exists|i: int| 0 <= i < members.len() && (#[trigger] members[i]).0@ == name
}

/// Whether a draft follows a schema, at the root of the document or below
/// it.
///
/// `Initial`, `Null` and `Indefinite` give `null`; a nullable schema gives
/// `null` or what its inner schema gives. An integer lies within its
/// bounds. A float whose bounds are numerically equal is that bound, and
/// any other is left to be drawn between them. An array of items without a
/// definite schema is empty; any other has an admitted length and items
/// that follow the item schema. An object holds every required field, no
/// field that the schema does not know and none twice, each following its
/// schema.
pub open spec fn conforms(schema: SchemaModel, draft: Draft, repeat_n: nat, at_root: bool) -> bool
    decreases schema,
{
    match schema {
        SchemaModel::Initial => draft is Null,
        SchemaModel::Null => draft is Null,
        SchemaModel::Indefinite => draft is Null,
        SchemaModel::Nullable(inner) => draft is Null || conforms(*inner, draft, repeat_n, false),
        SchemaModel::Boolean => draft is Bool,
        SchemaModel::Number(NumberType::Integer { min, max }) => {
            &&& draft is Number
            &&& draft->Number_0.spec_as_i64() is Some
            &&& min <= draft->Number_0.spec_as_i64()->0 <= max
            &&& draft->Number_0 is PosInt <==> draft->Number_0.spec_as_i64()->0 >= 0
        },
        SchemaModel::Number(NumberType::Float { min, max }) => if min.spec_same(max) {
            draft == Draft::Number(JsonNumber::Float(min))
        } else {
            draft == (Draft::FloatBetween { min, max })
        },
        SchemaModel::String(s) => draft is String && string_conforms(s, draft->String_0@),
        SchemaModel::Array { min_length, max_length, schema: item } => {
            &&& draft is Array
            &&& if *item is Indefinite || *item is Initial {
                draft->Array_0@.len() == 0
            } else {
                &&& length_conforms(
                    draft->Array_0@.len(),
                    min_length,
                    max_length,
                    repeat_n,
                    at_root,
                )
                &&& forall|i: int|
                    0 <= i < draft->Array_0@.len() ==> conforms(
                        *item,
                        #[trigger] draft->Array_0@[i],
                        repeat_n,
                        false,
                    )
            }
        },
        SchemaModel::Object { required, optional } => {
            &&& draft is Object
            &&& distinct_names(draft->Object_0@)
            &&& forall|k: Seq<char>|
                required.dom().contains(k) ==> has_name(draft->Object_0@, k)
            &&& forall|i: int|
                0 <= i < draft->Object_0@.len() ==> {
                    let name = (#[trigger] draft->Object_0@[i]).0@;
                    if required.dom().contains(name) {
                        conforms(required[name], draft->Object_0@[i].1, repeat_n, false)
                    } else {
                        optional.dom().contains(name) && conforms(
                            optional[name],
                            draft->Object_0@[i].1,
                            repeat_n,
                            false,
                        )
                    }
                }
        },
    }
}

/// Whether a document can be produced from the schema, at the root of the
/// document or below it: every range that a value is drawn from holds a
/// value.
///
/// The lower bound of an integer, of a float and of the length of a string
/// is not above the upper bound, no float bound is NaN, and an enumeration
/// has a variant. The same holds of the length of an array whose items have
/// a definite schema, unless the array stands at the root and more than
/// one repetition is asked.
pub open spec fn producible(schema: SchemaModel, repeat_n: nat, at_root: bool) -> bool
    decreases schema,
{
    match schema {
        SchemaModel::Nullable(inner) => producible(*inner, repeat_n, false),
        SchemaModel::Number(NumberType::Integer { min, max }) => min <= max,
        SchemaModel::Number(NumberType::Float { min, max }) => !min.is_nan() && !max.is_nan()
            && min.rank() <= max.rank(),
        SchemaModel::String(StringModel::Unknown { min_length, max_length, .. }) => least_length(
            min_length,
        ) <= greatest_length(max_length),
        SchemaModel::String(StringModel::Enum { variants }) => variants.len() > 0
            && variants.finite(),
        SchemaModel::Array { min_length, max_length, schema: item } => {
            *item is Indefinite || *item is Initial || ((at_root && repeat_n > 1 || min_length
                <= max_length) && producible(*item, repeat_n, false))
        },
        SchemaModel::Object { required, optional } => {
            &&& forall|k: Seq<char>|
                required.dom().contains(k) ==> producible(#[trigger] required[k], repeat_n, false)
            &&& forall|k: Seq<char>|
                optional.dom().contains(k) ==> producible(#[trigger] optional[k], repeat_n, false)
        },
        _ => true,
    }
}

/// Produces a string of no recognised format: of a length drawn within
/// the bounds, made of characters drawn from those seen, or made up where
/// none was seen.
fn produce_unknown(
    chars_seen: &Vec<char>,
    min_length: &Option<usize>,
    max_length: &Option<usize>,
) -> (text: String)
    requires
        least_length(bound_model(*min_length)) <= greatest_length(bound_model(*max_length)),
    ensures
        least_length(bound_model(*min_length)) <= text@.len() <= greatest_length(
            bound_model(*max_length),
        ),
        forall|i: int|
            0 <= i < text@.len() ==> if chars_seen@.len() > 0 {
                chars_seen@.contains(#[trigger] text@[i])
            } else {
                ascii_alphanumeric(text@[i])
            },
{
    let min: usize = match min_length {
        Some(n) => *n,
        None => 0,
    };
    let max: usize = match max_length {
        Some(n) => *n,
        None => DEFAULT_MAX_LENGTH,
    };
    let take_n: usize = if min != max {
        random_usize_between(min, max)
    } else {
        min
    };
    if chars_seen.len() == 0 {
        fake_string(take_n)
    } else {
        let mut text = String::new();
        let mut i: usize = 0;
        while i < take_n
            invariant
                i <= take_n,
                chars_seen@.len() > 0,
                text@.len() == i,
                forall|j: int| 0 <= j < text@.len() ==> chars_seen@.contains(#[trigger] text@[j]),
            decreases take_n - i,
        {
            let idx = random_index(chars_seen.len());
            let ghost before = text@;
            text.push(chars_seen[idx]);
            assert forall|j: int| 0 <= j < text@.len() implies chars_seen@.contains(
                #[trigger] text@[j],
            ) by {
                if j < before.len() {
                    assert(text@[j] == before[j]);
                } else {
                    assert(text@[j] == chars_seen@[idx as int]);
                }
            }
            i = i + 1;
        }
        text
    }
}

/// Produces a string that follows what is known of a string.
pub fn produce_string(string_type: &StringType) -> (text: String)
    requires
        string_type.well_formed(),
        producible(SchemaModel::String(string_type@), 1, false),
    ensures
        string_conforms(string_type@, text@),
{
    match string_type {
        StringType::IsoDate => fake_date(),
        StringType::DateTimeISO8601 => fake_rfc3339(),
        StringType::DateTimeRFC2822 => fake_rfc2822(),
        StringType::UUID => random_uuid(),
        StringType::Email => fake_email(),
        StringType::Hostname => {
            let name = fake_buzzword();
            let suffix = fake_domain_suffix();
            let mut host = name.as_str().to_lowercase();
            let ghost lower = host@;
            host.push('.');
            host.append(suffix.as_str());
            assert(host@[lower.len() as int] == '.');
            host
        },
        StringType::Url => {
            let host = fake_buzzword();
            let suffix = fake_domain_suffix();
            let path = fake_word();
            let mut url = String::from_str("https://");
            url.append(host.as_str().to_lowercase().as_str());
            url.push('.');
            url.append(suffix.as_str());
            url.push('/');
            url.append(path.as_str().to_lowercase().as_str());
            assert("https://"@.is_prefix_of(url@));
            url
        },
        StringType::Unknown { chars_seen, min_length, max_length, .. } => produce_unknown(
            chars_seen,
            min_length,
            max_length,
        ),
        StringType::Enum { variants } => {
            proof {
                lemma_distinct_texts(variants@);
            }
            let idx = random_index(variants.len());
            let text = variants[idx].clone();
            assert(texts(variants@)[idx as int] == text@);
            assert(texts(variants@).to_set().contains(text@));
            text
        },
    }
}

/// Whether one of the first `n` fields has that name.
pub open spec fn named_among(fields: Seq<(String, SchemaState)>, n: int, name: Seq<char>) -> bool {
    exists|t: int| 0 <= t < n && t < fields.len() && (#[trigger] fields[t]).0@ == name
}

/// Whether the schema is `Initial` or `Indefinite`: no definite schema.
pub fn is_indefinite(schema: &SchemaState) -> (r: bool)
    ensures
        r == (schema@ is Indefinite || schema@ is Initial),
{
    match schema {
        SchemaState::Indefinite => true,
        SchemaState::Initial => true,
        _ => false,
    }
}

/// Produces a document that follows the schema, at the root of the document
/// or below it.
#[verifier::rlimit(50)]
pub fn produce_inner(schema: &SchemaState, repeat_n: usize, at_root: bool) -> (draft: Draft)
    requires
        schema.well_formed(),
        producible(schema@, repeat_n as nat, at_root),
    ensures
        conforms(schema@, draft, repeat_n as nat, at_root),
    decreases schema,
{
    match schema {
        SchemaState::Initial => Draft::Null,
        SchemaState::Null => Draft::Null,
        SchemaState::Indefinite => Draft::Null,
        SchemaState::Nullable(inner) => {
            let should_return_null = random_bool();
            if should_return_null {
                Draft::Null
            } else {
                produce_inner(inner, repeat_n, false)
            }
        },
        SchemaState::String(string_type) => Draft::String(produce_string(string_type)),
        SchemaState::Number(number_type) => match number_type {
            NumberType::Integer { min, max } => {
                let number: i64 = if *min != *max {
                    random_i64_between(*min, *max)
                } else {
                    *min
                };
                if number >= 0 {
                    Draft::Number(JsonNumber::PosInt(number as u64))
                } else {
                    Draft::Number(JsonNumber::NegInt(number))
                }
            },
            NumberType::Float { min, max } => {
                if min.same(*max) {
                    Draft::Number(JsonNumber::Float(*min))
                } else {
                    Draft::FloatBetween { min: *min, max: *max }
                }
            },
        },
        SchemaState::Boolean => Draft::Bool(random_bool()),
        SchemaState::Array { min_length, max_length, schema: item } => {
            let mut items: Vec<Draft> = Vec::new();
            if is_indefinite(item) {
                return Draft::Array(items);
            }
            let n_elements: usize = if at_root && repeat_n > 1 {
                repeat_n
            } else if *min_length != *max_length {
                random_usize_between(*min_length, *max_length)
            } else {
                *min_length
            };
            let mut i: usize = 0;
            while i < n_elements
                invariant
                    i <= n_elements,
                    items@.len() == i,
                    schema matches SchemaState::Array { schema: s, .. } && s == item,
                    item.well_formed(),
                    producible(item@, repeat_n as nat, false),
                    forall|j: int|
                        0 <= j < items@.len() ==> conforms(
                            item@,
                            #[trigger] items@[j],
                            repeat_n as nat,
                            false,
                        ),
                decreases n_elements - i,
            {
                let produced = produce_inner(item, repeat_n, false);
                items.push(produced);
                i = i + 1;
            }
            Draft::Array(items)
        },
        SchemaState::Object { required, optional } => {
            let ghost required_model = fields_model(required@);
            let ghost optional_model = fields_model(optional@);
            proof {
                lemma_domains_by_disjoint(required@, optional@);
            }
            let mut members: Vec<(String, Draft)> = Vec::new();
            let mut i: usize = 0;
            while i < required.len()
                invariant
                    i <= required.len(),
                    members@.len() == i,
                    schema matches SchemaState::Object { required: r, optional: o } && r
                        == required && o == optional,
                    schema.well_formed(),
                    producible(schema@, repeat_n as nat, at_root),
                    required_model == fields_model(required@),
                    forall|j: int| 0 <= j < i ==> (#[trigger] members@[j]).0@ == required@[j].0@,
                    forall|j: int|
                        0 <= j < i ==> conforms(
                            required_model[required@[j].0@],
                            (#[trigger] members@[j]).1,
                            repeat_n as nat,
                            false,
                        ),
                decreases required.len() - i,
            {
                proof {
                    lemma_fields_model_at(required@, i as int);
                    assert(schema@->Object_required == required_model);
                    assert(producible(
                        required_model[required@[i as int].0@],
                        repeat_n as nat,
                        false,
                    ));
                }
                let value = produce_inner(&required[i].1, repeat_n, false);
                members.push((required[i].0.clone(), value));
                i = i + 1;
            }
            let ghost required_part = members@;
            let mut i: usize = 0;
            while i < optional.len()
                invariant
                    i <= optional.len(),
                    schema matches SchemaState::Object { required: r, optional: o } && r
                        == required && o == optional,
                    schema.well_formed(),
                    producible(schema@, repeat_n as nat, at_root),
                    required_model == fields_model(required@),
                    optional_model == fields_model(optional@),
                    forall|k: Seq<char>|
                        !(required_model.dom().contains(k) && optional_model.dom().contains(k)),
                    required_part.len() == required@.len(),
                    members@.len() >= required_part.len(),
                    forall|j: int|
                        0 <= j < required_part.len() ==> (#[trigger] members@[j])
                            == required_part[j],
                    forall|j: int|
                        0 <= j < required_part.len() ==> (#[trigger] required_part[j]).0@
                            == required@[j].0@,
                    forall|j: int|
                        0 <= j < required_part.len() ==> conforms(
                            required_model[required@[j].0@],
                            (#[trigger] required_part[j]).1,
                            repeat_n as nat,
                            false,
                        ),
                    forall|j: int|
                        required_part.len() <= j < members@.len() ==> named_among(
                            optional@,
                            i as int,
                            (#[trigger] members@[j]).0@,
                        ),
                    forall|j: int|
                        required_part.len() <= j < members@.len() ==> optional_model.dom().contains(
                            (#[trigger] members@[j]).0@,
                        ) && conforms(
                            optional_model[members@[j].0@],
                            members@[j].1,
                            repeat_n as nat,
                            false,
                        ),
                    distinct_names(members@),
                decreases optional.len() - i,
            {
                let should_include = random_bool();
                if should_include {
                    proof {
                        lemma_fields_model_at(optional@, i as int);
                        assert(schema@->Object_optional == optional_model);
                        assert(producible(
                            optional_model[optional@[i as int].0@],
                            repeat_n as nat,
                            false,
                        ));
                    }
                    let value = produce_inner(&optional[i].1, repeat_n, false);
                    let ghost before = members@;
                    let name = optional[i].0.clone();
                    members.push((name, value));
                    assert forall|a: int, b: int| 0 <= a < b < members@.len() implies (
                    #[trigger] members@[a]).0@ != (#[trigger] members@[b]).0@ by {
                        if b < before.len() {
                            assert(members@[a] == before[a]);
                            assert(members@[b] == before[b]);
                        } else {
                            assert(members@[a] == before[a]);
                            if a < required_part.len() {
                                assert(before[a] == required_part[a]);
                                lemma_fields_model_at(required@, a);
                            } else {
                                assert(named_among(optional@, i as int, before[a].0@));
                                let t = choose|t: int|
                                    0 <= t < i && t < optional@.len() && (
                                    #[trigger] optional@[t]).0@ == before[a].0@;
                                assert(optional@[t].0@ != optional@[i as int].0@);
                            }
                        }
                    }
                    assert forall|j: int|
                        required_part.len() <= j < members@.len() implies named_among(
                        optional@,
                        i + 1,
                        (#[trigger] members@[j]).0@,
                    ) by {
                        if j < before.len() {
                            assert(members@[j] == before[j]);
                            assert(named_among(optional@, i as int, before[j].0@));
                            let t = choose|t: int|
                                0 <= t < i && t < optional@.len() && (#[trigger] optional@[t]).0@
                                    == before[j].0@;
                            assert(0 <= t < i + 1 && optional@[t].0@ == members@[j].0@);
                        } else {
                            assert(members@[j].0@ == optional@[i as int].0@);
                        }
                    }
                    assert forall|j: int|
                        required_part.len() <= j
                            < members@.len() implies optional_model.dom().contains(
                        (#[trigger] members@[j]).0@,
                    ) && conforms(
                        optional_model[members@[j].0@],
                        members@[j].1,
                        repeat_n as nat,
                        false,
                    ) by {
                        if j < before.len() {
                            assert(members@[j] == before[j]);
                        }
                    }
                    assert forall|j: int| 0 <= j < required_part.len() implies (
                    #[trigger] members@[j]) == required_part[j] by {
                        assert(members@[j] == before[j]);
                    }
                } else {
                    assert forall|j: int|
                        required_part.len() <= j < members@.len() implies named_among(
                        optional@,
                        i + 1,
                        (#[trigger] members@[j]).0@,
                    ) by {
                        assert(named_among(optional@, i as int, members@[j].0@));
                        let t = choose|t: int|
                            0 <= t < i && t < optional@.len() && (#[trigger] optional@[t]).0@
                                == members@[j].0@;
                        assert(0 <= t < i + 1 && optional@[t].0@ == members@[j].0@);
                    }
                }
                i = i + 1;
            }
            proof {
                assert forall|k: Seq<char>| required_model.dom().contains(k) implies has_name(
                    members@,
                    k,
                ) by {
                    crate::fields::lemma_fields_dom(required@, k);
                    let j = crate::schema::key_index(required@, k);
                    assert(members@[j] == required_part[j]);
                    assert(members@[j].0@ == k);
                }
                assert forall|j: int| 0 <= j < members@.len() implies {
                    let name = (#[trigger] members@[j]).0@;
                    if required_model.dom().contains(name) {
                        conforms(required_model[name], members@[j].1, repeat_n as nat, false)
                    } else {
                        optional_model.dom().contains(name) && conforms(
                            optional_model[name],
                            members@[j].1,
                            repeat_n as nat,
                            false,
                        )
                    }
                } by {
                    if j < required_part.len() {
                        assert(members@[j] == required_part[j]);
                        lemma_fields_model_at(required@, j);
                    }
                }
            }
            Draft::Object(members)
        },
    }
}

/// Whether a document can be produced from each field of the list.
fn fields_producible(
    fields: &Vec<(String, SchemaState)>,
    repeat_n: usize,
    Ghost(parent): Ghost<SchemaState>,
) -> (r: bool)
    requires
        parent.well_formed(),
        parent matches SchemaState::Object { required, optional } && (required == fields
            || optional == fields),
    ensures
        r == (forall|k: Seq<char>|
            fields_model(fields@).dom().contains(k) ==> producible(
                #[trigger] fields_model(fields@)[k],
                repeat_n as nat,
                false,
            )),
    decreases parent, 0nat,
{
    let mut i: usize = 0;
    while i < fields.len()
        invariant
            i <= fields.len(),
            parent.well_formed(),
            parent matches SchemaState::Object { required, optional } && (required == fields
                || optional == fields),
            forall|j: int|
                0 <= j < i ==> producible((#[trigger] fields@[j]).1@, repeat_n as nat, false),
        decreases fields.len() - i,
    {
        proof {
            lemma_fields_model_at(fields@, i as int);
        }
        if !can_produce(&fields[i].1, repeat_n, false) {
            return false;
        }
        i = i + 1;
    }
    assert forall|k: Seq<char>| fields_model(fields@).dom().contains(k) implies producible(
        #[trigger] fields_model(fields@)[k],
        repeat_n as nat,
        false,
    ) by {
        crate::fields::lemma_fields_dom(fields@, k);
        let j = crate::schema::key_index(fields@, k);
        lemma_fields_model_at(fields@, j);
    }
    true
}

/// Whether a document can be produced from the schema, at the root of the
/// document or below it.
pub fn can_produce(schema: &SchemaState, repeat_n: usize, at_root: bool) -> (r: bool)
    requires
        schema.well_formed(),
    ensures
        r == producible(schema@, repeat_n as nat, at_root),
    decreases schema, 1nat,
{
    match schema {
        SchemaState::Nullable(inner) => {
            let r = can_produce(inner, repeat_n, false);
            assert(schema@ == SchemaModel::Nullable(Box::new(inner@)));
            r
        },
        SchemaState::Number(number_type) => match number_type {
            NumberType::Integer { min, max } => *min <= *max,
            NumberType::Float { min, max } => !min.nan() && !max.nan() && !max.below(*min),
        },
        SchemaState::String(string_type) => match string_type {
            StringType::Unknown { min_length, max_length, .. } => {
                let min: usize = match min_length {
                    Some(n) => *n,
                    None => 0,
                };
                let max: usize = match max_length {
                    Some(n) => *n,
                    None => DEFAULT_MAX_LENGTH,
                };
                min <= max
            },
            StringType::Enum { variants } => {
                proof {
                    lemma_distinct_texts(variants@);
                }
                variants.len() > 0
            },
            _ => true,
        },
        SchemaState::Array { min_length, max_length, schema: item } => {
            assert(schema@->Array_schema == Box::new(item@));
            if is_indefinite(item) {
                true
            } else if at_root && repeat_n > 1 || *min_length <= *max_length {
                can_produce(item, repeat_n, false)
            } else {
                false
            }
        },
        SchemaState::Object { required, optional } => {
            assert(schema@->Object_required == fields_model(required@));
            assert(schema@->Object_optional == fields_model(optional@));
            if !fields_producible(required, repeat_n, Ghost(*schema)) {
                false
            } else {
                fields_producible(optional, repeat_n, Ghost(*schema))
            }
        },
        SchemaState::Initial => true,
        SchemaState::Null => true,
        SchemaState::Boolean => true,
        SchemaState::Indefinite => true,
    }
}

/// The schema to produce `repeat_n` documents from: where more than one is
/// asked and the schema is no array, the schema of an array of one document
/// of the schema, which at the root gives `repeat_n` of them; else the schema
/// itself.
pub fn repeated(schema: SchemaState, repeat_n: usize) -> (root: SchemaState)
    ensures
        root == if repeat_n > 1 && !(schema is Array) {
            SchemaState::Array { min_length: 1, max_length: 1, schema: Box::new(schema) }
        } else {
            schema
        },
{
    match schema {
        SchemaState::Array { min_length, max_length, schema } => SchemaState::Array {
            min_length,
            max_length,
            schema,
        },
        other => {
            if repeat_n > 1 {
                SchemaState::Array { min_length: 1, max_length: 1, schema: Box::new(other) }
            } else {
                other
            }
        },
    }
}

/// Produces a document that follows the schema, where the schema is well
/// formed and a document can be produced from it.
pub fn try_produce(schema: &SchemaState, repeat_n: usize) -> (draft: Option<Draft>)
    ensures
        draft is Some == (schema.well_formed() && producible(schema@, repeat_n as nat, true)),
        draft matches Some(produced) ==> conforms(schema@, produced, repeat_n as nat, true),
{
    if schema.is_well_formed() && can_produce(schema, repeat_n, true) {
        Some(produce(schema, repeat_n))
    } else {
        None
    }
}

/// Produces a document that follows the schema.
///
/// Where the schema is an array and more than one repetition is asked, the
/// document is an array of `repeat_n` items.
pub fn produce(schema: &SchemaState, repeat_n: usize) -> (draft: Draft)
    requires
        schema.well_formed(),
        producible(schema@, repeat_n as nat, true),
    ensures
        conforms(schema@, draft, repeat_n as nat, true),
{
    produce_inner(schema, repeat_n, true)
}

} // verus!
