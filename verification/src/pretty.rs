//! The description of a schema in words, indented by depth.

use crate::double::Double;
use crate::schema::{NumberType, SchemaState, StringType};
use vstd::prelude::*;
use vstd::string::StringExecFns;

verus! {

/// A piece of a description: some text, or a float bound, which is left to
/// the caller to write out.
#[derive(Debug)]
pub enum Piece {
    Text(String),
    Number(Double),
}

/// One place of a description: a character, or a float bound.
pub enum Glyph {
    Char(char),
    Number(Double),
}

/// A character as a place of a description.
pub open spec fn char_glyph(c: char) -> Glyph {
    Glyph::Char(c)
}

/// A text as places of a description.
pub open spec fn glyphs(text: Seq<char>) -> Seq<Glyph> {
    Seq::new(text.len(), |i: int| char_glyph(text[i]))
}

/// The places that a piece takes.
pub open spec fn piece_glyphs(piece: Piece) -> Seq<Glyph> {
    match piece {
        Piece::Text(text) => glyphs(text@),
        Piece::Number(number) => seq![Glyph::Number(number)],
    }
}

/// The description that the pieces make up, one after the other.
pub open spec fn flatten(pieces: Seq<Piece>) -> Seq<Glyph>
    decreases pieces.len(),
{
    if pieces.len() == 0 {
        Seq::empty()
    } else {
        flatten(pieces.drop_last()) + piece_glyphs(pieces.last())
    }
}

/// That many spaces.
pub open spec fn spaces(n: nat) -> Seq<Glyph> {
    Seq::new(n, |i: int| Glyph::Char(' '))
}

/// The decimal digit of a number below ten.
pub open spec fn digit(d: nat) -> char {
    if d == 0 {
        '0'
    } else if d == 1 {
        '1'
    } else if d == 2 {
        '2'
    } else if d == 3 {
        '3'
    } else if d == 4 {
        '4'
    } else if d == 5 {
        '5'
    } else if d == 6 {
        '6'
    } else if d == 7 {
        '7'
    } else if d == 8 {
        '8'
    } else {
        '9'
    }
}

/// A natural number in decimal digits.
pub open spec fn decimal(n: nat) -> Seq<char>
    decreases n,
{
    if n < 10 {
        seq![digit(n)]
    } else {
        decimal(n / 10).push(digit(n % 10))
    }
}

/// An integer in decimal digits, with a minus sign where it is negative.
pub open spec fn signed_decimal(v: int) -> Seq<char> {
    if v < 0 {
        seq!['-'] + decimal((-v) as nat)
    } else {
        decimal(v as nat)
    }
}

/// A range of two values as `(low-high)`, or as `(low)` where `single`.
pub open spec fn range_text(low: Seq<Glyph>, high: Seq<Glyph>, single: bool) -> Seq<Glyph> {
    if single {
        glyphs("("@) + low + glyphs(")"@)
    } else {
        glyphs("("@) + low + glyphs("-"@) + high + glyphs(")"@)
    }
}

/// The description of the lengths of a string.
pub open spec fn lengths_text(min_length: Option<usize>, max_length: Option<usize>) -> Seq<Glyph> {
    match (min_length, max_length) {
        (Some(min), Some(max)) => range_text(
            glyphs(decimal(min as nat)),
            glyphs(decimal(max as nat)),
            min == max,
        ),
        (Some(min), None) => range_text(glyphs(decimal(min as nat)), glyphs("?"@), false),
        (None, Some(max)) => range_text(glyphs("?"@), glyphs(decimal(max as nat)), false),
        (None, None) => glyphs("(length unknown)"@),
    }
}

/// The parts, with the separator between each two.
pub open spec fn joined(parts: Seq<Seq<Glyph>>, separator: Seq<Glyph>) -> Seq<Glyph>
    decreases parts.len(),
{
    if parts.len() == 0 {
        Seq::empty()
    } else if parts.len() == 1 {
        parts[0]
    } else {
        joined(parts.drop_last(), separator) + separator + parts.last()
    }
}

/// The texts of a list of strings.
pub open spec fn variant_texts(variants: Seq<String>) -> Seq<Seq<Glyph>> {
    Seq::new(variants.len(), |i: int| glyphs(variants[i]@))
}

/// The description of a string.
pub open spec fn string_text(string_type: StringType) -> Seq<Glyph> {
    match string_type {
        StringType::Unknown { min_length, max_length, .. } => glyphs("string "@) + lengths_text(
            min_length,
            max_length,
        ),
        StringType::IsoDate => glyphs("string (date - ISO 8601)"@),
        StringType::DateTimeRFC2822 => glyphs("string (datetime - RFC 2822)"@),
        StringType::DateTimeISO8601 => glyphs("string (datetime - ISO 8601)"@),
        StringType::UUID => glyphs("string (uuid)"@),
        StringType::Email => glyphs("string (email)"@),
        StringType::Hostname => glyphs("string (hostname)"@),
        StringType::Url => glyphs("string (url)"@),
        StringType::Enum { variants } => glyphs("string (enum: "@) + joined(
            variant_texts(variants@),
            glyphs(", "@),
        ) + glyphs(")"@),
    }
}

/// The description of a number.
pub open spec fn number_text(number_type: NumberType) -> Seq<Glyph> {
    match number_type {
        NumberType::Integer { min, max } => glyphs("int "@) + range_text(
            glyphs(signed_decimal(min as int)),
            glyphs(signed_decimal(max as int)),
            min == max,
        ),
        NumberType::Float { min, max } => glyphs("float "@) + range_text(
            seq![Glyph::Number(min)],
            seq![Glyph::Number(max)],
            min.spec_same(max),
        ),
    }
}

/// The lines of the fields of an object at that depth: each on a line of
/// its own, indented, as its name in quotes, a colon, the word `optional`
/// where `optional`, and its description.
pub open spec fn field_lines(
    fields: Seq<(String, SchemaState)>,
    optional: bool,
    depth: nat,
) -> Seq<Seq<Glyph>>
    decreases fields, 0nat,
{
    Seq::new(
        fields.len(),
        |i: int|
            if 0 <= i < fields.len() {
                spaces(2 + 2 * depth) + glyphs("\""@) + glyphs(fields[i].0@) + glyphs(
                    if optional {
                        "\": optional "@
                    } else {
                        "\": "@
                    },
                ) + pretty_text(fields[i].1, depth + 1)
            } else {
                Seq::empty()
            },
    )
}

/// The description of a schema at that depth.
///
/// An array is described over three lines: a bracket, the description of
/// its items, indented, and a bracket with its lengths. An object is
/// described with one line for each field, the required before the
/// optional, between two braces.
pub open spec fn pretty_text(schema: SchemaState, depth: nat) -> Seq<Glyph>
    decreases schema, 1nat,
{
    match schema {
        SchemaState::Initial => glyphs("unknown"@),
        SchemaState::Indefinite => glyphs("unknown"@),
        SchemaState::Null => glyphs("null"@),
        SchemaState::Nullable(inner) => glyphs("nullable "@) + pretty_text(*inner, depth),
        SchemaState::String(string_type) => string_text(string_type),
        SchemaState::Number(number_type) => number_text(number_type),
        SchemaState::Boolean => glyphs("boolean"@),
        SchemaState::Array { min_length, max_length, schema: item } => glyphs("[\n"@) + spaces(
            2 + 2 * depth,
        ) + pretty_text(*item, depth + 1) + glyphs("\n"@) + spaces(2 * depth) + glyphs("] "@)
            + range_text(
            glyphs(decimal(min_length as nat)),
            glyphs(decimal(max_length as nat)),
            min_length == max_length,
        ),
        SchemaState::Object { required, optional } => glyphs("{\n"@) + joined(
            field_lines(required@, false, depth) + field_lines(optional@, true, depth),
            glyphs(",\n"@),
        ) + glyphs("\n"@) + spaces(2 * depth) + glyphs("}"@),
    }
}

/// One more piece adds its places.
pub proof fn lemma_flatten_push(pieces: Seq<Piece>, piece: Piece)
    ensures
        flatten(pieces.push(piece)) == flatten(pieces) + piece_glyphs(piece),
{
    assert(pieces.push(piece).drop_last() =~= pieces);
}

/// The character of a decimal digit.
fn digit_char(d: u64) -> (c: char)
    requires
        d < 10,
    ensures
        c == digit(d as nat),
{
    if d == 0 {
        '0'
    } else if d == 1 {
        '1'
    } else if d == 2 {
        '2'
    } else if d == 3 {
        '3'
    } else if d == 4 {
        '4'
    } else if d == 5 {
        '5'
    } else if d == 6 {
        '6'
    } else if d == 7 {
        '7'
    } else if d == 8 {
        '8'
    } else {
        '9'
    }
}

/// Writes a natural number in decimal digits after the text.
pub fn write_decimal(n: u64, text: &mut String)
    ensures
        final(text)@ == old(text)@ + decimal(n as nat),
    decreases n,
{
    if n >= 10 {
        write_decimal(n / 10, text);
    }
    let ghost before = text@;
    text.push(digit_char(n % 10));
    proof {
        if n >= 10 {
            assert(text@ =~= old(text)@ + decimal((n / 10) as nat).push(digit((n % 10) as nat)));
        } else {
            assert(text@ =~= old(text)@ + seq![digit(n as nat)]);
        }
    }
}

/// A natural number in decimal digits.
pub fn decimal_string(n: u64) -> (text: String)
    ensures
        text@ == decimal(n as nat),
{
    let mut text = String::new();
    write_decimal(n, &mut text);
    assert(Seq::<char>::empty() + decimal(n as nat) =~= decimal(n as nat));
    text
}

/// An integer in decimal digits.
pub fn signed_decimal_string(v: i64) -> (text: String)
    ensures
        text@ == signed_decimal(v as int),
{
    let mut text = String::new();
    if v < 0 {
        text.push('-');
        let magnitude: u64 = ((-(v + 1)) as u64) + 1;
        write_decimal(magnitude, &mut text);
        assert(text@ =~= seq!['-'] + decimal((-v) as nat));
    } else {
        write_decimal(v as u64, &mut text);
        assert(text@ =~= decimal(v as nat));
    }
    text
}

/// Adds a text to the pieces.
fn put_text(pieces: &mut Vec<Piece>, text: &str)
    ensures
        flatten(final(pieces)@) == flatten(old(pieces)@) + glyphs(text@),
{
    let piece = Piece::Text(String::from_str(text));
    proof {
        lemma_flatten_push(pieces@, piece);
    }
    pieces.push(piece);
}

/// Adds a text to the pieces.
fn put_string(pieces: &mut Vec<Piece>, text: String)
    ensures
        flatten(final(pieces)@) == flatten(old(pieces)@) + glyphs(text@),
{
    let piece = Piece::Text(text);
    proof {
        lemma_flatten_push(pieces@, piece);
    }
    pieces.push(piece);
}

/// Adds a float bound to the pieces.
fn put_number(pieces: &mut Vec<Piece>, number: Double)
    ensures
        flatten(final(pieces)@) == flatten(old(pieces)@) + seq![Glyph::Number(number)],
{
    let piece = Piece::Number(number);
    proof {
        lemma_flatten_push(pieces@, piece);
    }
    pieces.push(piece);
}

/// Adds the lengths of a string to the pieces.
fn put_lengths(pieces: &mut Vec<Piece>, min_length: &Option<usize>, max_length: &Option<usize>)
    ensures
        flatten(final(pieces)@) == flatten(old(pieces)@) + lengths_text(*min_length, *max_length),
{
    let ghost before = flatten(pieces@);
    match (min_length, max_length) {
        (Some(min), Some(max)) => {
            put_text(pieces, "(");
            put_string(pieces, decimal_string(*min as u64));
            if *min != *max {
                put_text(pieces, "-");
                put_string(pieces, decimal_string(*max as u64));
            }
            put_text(pieces, ")");
        },
        (Some(min), None) => {
            put_text(pieces, "(");
            put_string(pieces, decimal_string(*min as u64));
            put_text(pieces, "-");
            put_text(pieces, "?");
            put_text(pieces, ")");
        },
        (None, Some(max)) => {
            put_text(pieces, "(");
            put_text(pieces, "?");
            put_text(pieces, "-");
            put_string(pieces, decimal_string(*max as u64));
            put_text(pieces, ")");
        },
        (None, None) => {
            put_text(pieces, "(length unknown)");
        },
    }
    assert(flatten(pieces@) =~= before + lengths_text(*min_length, *max_length));
}

/// Adds the description of a string to the pieces.
fn put_string_type(pieces: &mut Vec<Piece>, string_type: &StringType)
    ensures
        flatten(final(pieces)@) == flatten(old(pieces)@) + string_text(*string_type),
{
    let ghost before = flatten(pieces@);
    match string_type {
        StringType::Unknown { min_length, max_length, .. } => {
            put_text(pieces, "string ");
            put_lengths(pieces, min_length, max_length);
        },
        StringType::IsoDate => put_text(pieces, "string (date - ISO 8601)"),
        StringType::DateTimeRFC2822 => put_text(pieces, "string (datetime - RFC 2822)"),
        StringType::DateTimeISO8601 => put_text(pieces, "string (datetime - ISO 8601)"),
        StringType::UUID => put_text(pieces, "string (uuid)"),
        StringType::Email => put_text(pieces, "string (email)"),
        StringType::Hostname => put_text(pieces, "string (hostname)"),
        StringType::Url => put_text(pieces, "string (url)"),
        StringType::Enum { variants } => {
            put_text(pieces, "string (enum: ");
            let ghost start = flatten(pieces@);
            let ghost parts = variant_texts(variants@);
            let mut i: usize = 0;
            assert(parts.take(0) =~= Seq::<Seq<Glyph>>::empty());
            assert(start + Seq::<Glyph>::empty() =~= start);
            while i < variants.len()
                invariant
                    i <= variants.len(),
                    parts == variant_texts(variants@),
                    flatten(pieces@) == start + joined(parts.take(i as int), glyphs(", "@)),
                decreases variants.len() - i,
            {
                proof {
                    assert(parts.take(i + 1).drop_last() =~= parts.take(i as int));
                    assert(parts.take(i + 1).last() == glyphs(variants@[i as int]@));
                }
                if i > 0 {
                    put_text(pieces, ", ");
                }
                put_text(pieces, variants[i].as_str());
                assert(flatten(pieces@) =~= start + joined(parts.take(i + 1), glyphs(", "@)));
                i = i + 1;
            }
            assert(parts.take(parts.len() as int) =~= parts);
            put_text(pieces, ")");
        },
    }
    assert(flatten(pieces@) =~= before + string_text(*string_type));
}

/// Adds the description of a number to the pieces.
fn put_number_type(pieces: &mut Vec<Piece>, number_type: &NumberType)
    ensures
        flatten(final(pieces)@) == flatten(old(pieces)@) + number_text(*number_type),
{
    let ghost before = flatten(pieces@);
    match number_type {
        NumberType::Integer { min, max } => {
            put_text(pieces, "int ");
            put_text(pieces, "(");
            put_string(pieces, signed_decimal_string(*min));
            if *min != *max {
                put_text(pieces, "-");
                put_string(pieces, signed_decimal_string(*max));
            }
            put_text(pieces, ")");
        },
        NumberType::Float { min, max } => {
            put_text(pieces, "float ");
            put_text(pieces, "(");
            put_number(pieces, *min);
            if !min.same(*max) {
                put_text(pieces, "-");
                put_number(pieces, *max);
            }
            put_text(pieces, ")");
        },
    }
    assert(flatten(pieces@) =~= before + number_text(*number_type));
}

/// Adds the lines of the fields of an object to the pieces, after
/// `written` lines that are there already.
#[verifier::rlimit(50)]
fn put_fields(
    pieces: &mut Vec<Piece>,
    fields: &Vec<(String, SchemaState)>,
    optional: bool,
    indent: &str,
    written: usize,
    Ghost(depth): Ghost<nat>,
    Ghost(parent): Ghost<SchemaState>,
    Ghost(earlier): Ghost<Seq<Seq<Glyph>>>,
    Ghost(start): Ghost<Seq<Glyph>>,
)
    requires
        parent matches SchemaState::Object { required: r, optional: o } && (r == fields || o
            == fields),
        written == earlier.len(),
        glyphs(indent@) == spaces(2 + 2 * depth),
        flatten(old(pieces)@) == start + joined(earlier, glyphs(",\n"@)),
    ensures
        flatten(final(pieces)@) == start + joined(
            earlier + field_lines(fields@, optional, depth),
            glyphs(",\n"@),
        ),
    decreases parent, 0nat,
{
    let ghost lines = field_lines(fields@, optional, depth);
    let ghost separator = glyphs(",\n"@);
    let mut i: usize = 0;
    assert(earlier + lines.take(0) =~= earlier);
    while i < fields.len()
        invariant
            i <= fields.len(),
            parent matches SchemaState::Object { required: r, optional: o } && (r == fields || o
                == fields),
            written == earlier.len(),
            glyphs(indent@) == spaces(2 + 2 * depth),
            lines == field_lines(fields@, optional, depth),
            separator == glyphs(",\n"@),
            flatten(pieces@) == start + joined(earlier + lines.take(i as int), separator),
        decreases fields.len() - i,
    {
        let ghost done = earlier + lines.take(i as int);
        let ghost next = earlier + lines.take(i + 1);
        proof {
            assert(next.drop_last() =~= done);
            assert(next.last() == lines[i as int]);
        }
        if i > 0 || written > 0 {
            put_text(pieces, ",\n");
        }
        put_text(pieces, indent);
        put_text(pieces, "\"");
        put_text(pieces, fields[i].0.as_str());
        if optional {
            put_text(pieces, "\": optional ");
        } else {
            put_text(pieces, "\": ");
        }
        write_pretty(pieces, &fields[i].1, indent, Ghost(depth + 1));
        assert(flatten(pieces@) =~= start + joined(next, separator));
        i = i + 1;
    }
    assert(lines.take(lines.len() as int) =~= lines);
}

/// The indentation one level deeper.
fn deeper(indent: &str, Ghost(depth): Ghost<nat>) -> (inner: String)
    requires
        glyphs(indent@) == spaces(2 * depth),
    ensures
        glyphs(inner@) == spaces(2 + 2 * depth),
{
    let mut inner = String::from_str(indent);
    inner.push(' ');
    inner.push(' ');
    proof {
        let old_glyphs = glyphs(indent@);
        let new_glyphs = glyphs(inner@);
        assert(old_glyphs.len() == indent@.len());
        assert(spaces(2 * depth).len() == 2 * depth);
        assert(inner@.len() == indent@.len() + 2);
        assert(new_glyphs.len() == inner@.len());
        assert forall|i: int| 0 <= i < new_glyphs.len() implies new_glyphs[i] == Glyph::Char(
            ' ',
        ) by {
            if i < indent@.len() {
                assert(inner@[i] == indent@[i]);
                assert(old_glyphs[i] == Glyph::Char(indent@[i]));
                assert(old_glyphs[i] == spaces(2 * depth)[i]);
            }
        }
        assert(new_glyphs =~= spaces(2 + 2 * depth));
    }
    inner
}

/// Adds the lengths of an array to the pieces.
fn put_array_lengths(pieces: &mut Vec<Piece>, min_length: usize, max_length: usize)
    ensures
        flatten(final(pieces)@) == flatten(old(pieces)@) + range_text(
            glyphs(decimal(min_length as nat)),
            glyphs(decimal(max_length as nat)),
            min_length == max_length,
        ),
{
    let ghost before = flatten(pieces@);
    put_text(pieces, "(");
    put_string(pieces, decimal_string(min_length as u64));
    if min_length != max_length {
        put_text(pieces, "-");
        put_string(pieces, decimal_string(max_length as u64));
    }
    put_text(pieces, ")");
    assert(flatten(pieces@) =~= before + range_text(
        glyphs(decimal(min_length as nat)),
        glyphs(decimal(max_length as nat)),
        min_length == max_length,
    ));
}

/// Adds the description of an array at that depth to the pieces.
#[verifier::rlimit(50)]
fn write_array(
    pieces: &mut Vec<Piece>,
    schema: &SchemaState,
    close: &str,
    Ghost(depth): Ghost<nat>,
)
    requires
        schema is Array,
        glyphs(close@) == spaces(2 * depth),
    ensures
        flatten(final(pieces)@) == flatten(old(pieces)@) + pretty_text(*schema, depth),
    decreases schema, 0nat,
{
    let ghost before = flatten(pieces@);
    match schema {
        SchemaState::Array { min_length, max_length, schema: item } => {
            let indent = deeper(close, Ghost(depth));
            put_text(pieces, "[\n");
            put_text(pieces, indent.as_str());
            let ghost opened = flatten(pieces@);
            assert(opened =~= before + (glyphs("[\n"@) + spaces(2 + 2 * depth)));
            write_pretty(pieces, item, indent.as_str(), Ghost(depth + 1));
            let ghost inner = flatten(pieces@);
            put_text(pieces, "\n");
            put_text(pieces, close);
            put_text(pieces, "] ");
            let ghost closed = flatten(pieces@);
            assert(closed =~= inner + (glyphs("\n"@) + spaces(2 * depth) + glyphs("] "@)));
            put_array_lengths(pieces, *min_length, *max_length);
            assert(flatten(pieces@) =~= before + pretty_text(*schema, depth));
        },
        _ => {},
    }
}

/// Adds the description of an object at that depth to the pieces.
#[verifier::rlimit(50)]
fn write_object(
    pieces: &mut Vec<Piece>,
    schema: &SchemaState,
    close: &str,
    Ghost(depth): Ghost<nat>,
)
    requires
        schema is Object,
        glyphs(close@) == spaces(2 * depth),
    ensures
        flatten(final(pieces)@) == flatten(old(pieces)@) + pretty_text(*schema, depth),
    decreases schema, 1nat,
{
    let ghost before = flatten(pieces@);
    match schema {
        SchemaState::Object { required, optional } => {
            let indent = deeper(close, Ghost(depth));
            put_text(pieces, "{\n");
            let ghost start = flatten(pieces@);
            let ghost none = Seq::<Seq<Glyph>>::empty();
            let ghost first = field_lines(required@, false, depth);
            let ghost second = field_lines(optional@, true, depth);
            assert(start + joined(none, glyphs(",\n"@)) =~= start);
            put_fields(
                pieces,
                required,
                false,
                indent.as_str(),
                0,
                Ghost(depth),
                Ghost(*schema),
                Ghost(none),
                Ghost(start),
            );
            assert(none + first =~= first);
            put_fields(
                pieces,
                optional,
                true,
                indent.as_str(),
                required.len(),
                Ghost(depth),
                Ghost(*schema),
                Ghost(first),
                Ghost(start),
            );
            let ghost listed = flatten(pieces@);
            assert(listed == start + joined(first + second, glyphs(",\n"@)));
            put_text(pieces, "\n");
            put_text(pieces, close);
            put_text(pieces, "}");
            assert(flatten(pieces@) =~= listed + (glyphs("\n"@) + spaces(2 * depth) + glyphs(
                "}"@,
            )));
            assert(flatten(pieces@) =~= before + pretty_text(*schema, depth));
        },
        _ => {},
    }
}

/// Adds the description of a schema at that depth to the pieces; `close` is
/// the indentation of the depth.
fn write_pretty(
    pieces: &mut Vec<Piece>,
    schema: &SchemaState,
    close: &str,
    Ghost(depth): Ghost<nat>,
)
    requires
        glyphs(close@) == spaces(2 * depth),
    ensures
        flatten(final(pieces)@) == flatten(old(pieces)@) + pretty_text(*schema, depth),
    decreases schema, 2nat,
{
    let ghost before = flatten(pieces@);
    match schema {
        SchemaState::Initial => put_text(pieces, "unknown"),
        SchemaState::Indefinite => put_text(pieces, "unknown"),
        SchemaState::Null => put_text(pieces, "null"),
        SchemaState::Nullable(inner) => {
            put_text(pieces, "nullable ");
            write_pretty(pieces, inner, close, Ghost(depth));
            assert(flatten(pieces@) =~= before + pretty_text(*schema, depth));
        },
        SchemaState::String(string_type) => put_string_type(pieces, string_type),
        SchemaState::Number(number_type) => put_number_type(pieces, number_type),
        SchemaState::Boolean => put_text(pieces, "boolean"),
        SchemaState::Array { .. } => write_array(pieces, schema, close, Ghost(depth)),
        SchemaState::Object { .. } => write_object(pieces, schema, close, Ghost(depth)),
    }
}

impl StringType {
    /// The description of the strings in words, as pieces of text.
    pub fn to_string_pretty(&self) -> (pieces: Vec<Piece>)
        ensures
            flatten(pieces@) == string_text(*self),
    {
        let mut pieces: Vec<Piece> = Vec::new();
        put_string_type(&mut pieces, self);
        assert(flatten(Seq::<Piece>::empty()) + string_text(*self) =~= string_text(*self));
        pieces
    }
}

impl NumberType {
    /// The description of the numbers in words, as pieces of text between
    /// which float bounds stand.
    pub fn to_string_pretty(&self) -> (pieces: Vec<Piece>)
        ensures
            flatten(pieces@) == number_text(*self),
    {
        let mut pieces: Vec<Piece> = Vec::new();
        put_number_type(&mut pieces, self);
        assert(flatten(Seq::<Piece>::empty()) + number_text(*self) =~= number_text(*self));
        pieces
    }
}

impl SchemaState {
    /// The description of the schema in words, indented by depth, as
    /// pieces of text between which its float bounds stand.
    pub fn to_string_pretty(&self) -> (pieces: Vec<Piece>)
        ensures
            flatten(pieces@) == pretty_text(*self, 0),
    {
        let mut pieces: Vec<Piece> = Vec::new();
        proof {
            reveal_strlit("");
            assert(""@.len() == 0);
            assert(glyphs(""@).len() == 0);
            assert(glyphs(""@) =~= spaces(0));
        }
        write_pretty(&mut pieces, self, "", Ghost(0));
        assert(flatten(Seq::<Piece>::empty()) + pretty_text(*self, 0) =~= pretty_text(*self, 0));
        pieces
    }
}

} // verus!
