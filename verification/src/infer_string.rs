//! The classifier of strings: which format, if any, a string is written in.

use crate::schema::{texts, StringModel, StringType};
use crate::text::{byte_len, byte_length, chars_of, has_char};
use vstd::prelude::*;

verus! {

/// The pattern of a date written `YYYY-MM-DD`.
pub const ISO_DATE_PATTERN: &'static str = "^\\d{4}-\\d{2}-\\d{2}$";

/// The pattern of a UUID in its hyphenated lower-case form.
pub const UUID_PATTERN: &'static str =
    "^[0-9a-f]{8}-[0-9a-f]{4}-[0-9a-f]{4}-[0-9a-f]{4}-[0-9a-f]{12}$";

/// The pattern of a bare host name.
pub const HOSTNAME_PATTERN: &'static str = "^[a-zA-Z0-9\\-]+\\.[a-zA-Z]{2,}$";

/// The pattern that the end of an email address follows.
pub const EMAIL_PATTERN: &'static str = "[a-zA-Z0-9]+@[a-zA-Z0-9]+\\.[a-zA-Z]{2,}$";

/// A compiled pattern of the regex crate.
#[verifier::external_type_specification]
#[verifier::external_body]
pub struct ExRegex(regex::Regex);

/// Whether the regex crate compiles the pattern.
pub uninterp spec fn compiles(pattern: Seq<char>) -> bool;

/// The pattern that a compiled pattern holds: the text it was compiled from.
pub uninterp spec fn pattern_source(compiled: regex::Regex) -> Seq<char>;

/// Whether the pattern, compiled by the regex crate, matches somewhere in
/// the text.
pub uninterp spec fn regex_matches(pattern: Seq<char>, text: Seq<char>) -> bool;

/// Whether the url crate parses the text as a URL.
pub uninterp spec fn url_parses(text: Seq<char>) -> bool;

/// Whether chrono parses the text as an RFC 3339 date and time.
pub uninterp spec fn rfc3339_parses(text: Seq<char>) -> bool;

/// Whether chrono parses the text as an RFC 2822 date and time.
pub uninterp spec fn rfc2822_parses(text: Seq<char>) -> bool;

/// Whether std counts the character as numeric.
pub uninterp spec fn numeric_char(c: char) -> bool;

/// Compiles the pattern with `regex::Regex::new`, whose error is handed on
/// as `None`. Whether a pattern compiles is taken to depend on the pattern
/// alone. The compiled pattern holds the text it was compiled from, which
/// `regex::Regex::as_str` hands out.
#[verifier::external_body]
fn compile(pattern: &str) -> (compiled: Option<regex::Regex>)
    ensures
        compiled is Some == compiles(pattern@),
        compiled matches Some(held) ==> pattern_source(held) == pattern@,
{
    match regex::Regex::new(pattern) {
        Ok(compiled) => Some(compiled),
        Err(_) => None,
    }
}

/// Asks `regex::Regex::is_match` whether the compiled pattern matches
/// somewhere in the text. The answer is taken to depend on the pattern and
/// the text alone.
#[verifier::external_body]
fn compiled_matches(compiled: &regex::Regex, text: &str) -> (r: bool)
    ensures
        r == regex_matches(pattern_source(*compiled), text@),
{
    compiled.is_match(text)
}

/// Asks `url::Url::parse` whether the text is a URL. The answer is taken to
/// depend on the text alone.
#[verifier::external_body]
fn parses_as_url(text: &str) -> (r: bool)
    ensures
        r == url_parses(text@),
{
    url::Url::parse(text).is_ok()
}

/// Asks `chrono::DateTime::parse_from_rfc3339` whether the text is a date
/// and time. The answer is taken to depend on the text alone.
#[verifier::external_body]
fn parses_as_rfc3339(text: &str) -> (r: bool)
    ensures
        r == rfc3339_parses(text@),
{
    chrono::DateTime::parse_from_rfc3339(text).is_ok()
}

/// Asks `chrono::DateTime::parse_from_rfc2822` whether the text is a date
/// and time. The answer is taken to depend on the text alone.
#[verifier::external_body]
fn parses_as_rfc2822(text: &str) -> (r: bool)
    ensures
        r == rfc2822_parses(text@),
{
    chrono::DateTime::parse_from_rfc2822(text).is_ok()
}

/// Asks `char::is_numeric` of the character.
#[verifier::external_body]
fn is_numeric(c: char) -> (r: bool)
    ensures
        r == numeric_char(c),
{
    c.is_numeric()
}

/// What the outside recognisers say of one string.
#[derive(Clone, Copy, Debug, PartialEq, Eq, Structural)]
pub struct Evidence {
    /// The UUID pattern matches.
    pub uuid: bool,
    /// The email pattern matches.
    pub email: bool,
    /// The string parses as a URL.
    pub url: bool,
    /// The host name pattern matches.
    pub hostname: bool,
    /// The string is empty or starts with a numeric character.
    pub leading_numeric: bool,
    /// The date pattern matches.
    pub iso_date: bool,
    /// The string parses as an RFC 3339 date and time.
    pub rfc3339: bool,
    /// The string parses as an RFC 2822 date and time.
    pub rfc2822: bool,
}

/// Whether the pattern compiles and matches somewhere in the text.
pub open spec fn matches(pattern: Seq<char>, text: Seq<char>) -> bool {
    compiles(pattern) && regex_matches(pattern, text)
}

/// A pattern, compiled once and matched many times. A pattern that does not
/// compile matches nothing.
pub struct Pattern {
    compiled: Option<regex::Regex>,
    source: Ghost<Seq<char>>,
}

impl Pattern {
    /// What is compiled is what the source compiles to.
    #[verifier::type_invariant]
    spec fn holds_its_source(self) -> bool {
        match self.compiled {
            Some(held) => compiles(self.source@) && pattern_source(held) == self.source@,
            None => !compiles(self.source@),
        }
    }

    /// The text of the pattern.
    pub closed spec fn source(self) -> Seq<char> {
        self.source@
    }

    /// Compiles the pattern.
    pub fn new(pattern: &str) -> (compiled: Pattern)
        ensures
            compiled.source() == pattern@,
    {
        Pattern { compiled: compile(pattern), source: Ghost(pattern@) }
    }

    /// Whether the pattern compiles and matches somewhere in the text.
    pub fn is_match(&self, text: &str) -> (r: bool)
        ensures
            r == matches(self.source(), text@),
    {
        proof {
            use_type_invariant(self);
        }
        match &self.compiled {
            Some(held) => compiled_matches(held, text),
            None => false,
        }
    }
}

/// The four patterns of the classifier, compiled once.
pub struct Recognisers {
    uuid: Pattern,
    email: Pattern,
    hostname: Pattern,
    iso_date: Pattern,
}

impl Recognisers {
    /// Each pattern is the one it is named after.
    #[verifier::type_invariant]
    spec fn holds_the_patterns(self) -> bool {
        &&& self.uuid.source() == UUID_PATTERN@
        &&& self.email.source() == EMAIL_PATTERN@
        &&& self.hostname.source() == HOSTNAME_PATTERN@
        &&& self.iso_date.source() == ISO_DATE_PATTERN@
    }

    /// The texts of the patterns held: of the UUID, of the email address, of
    /// the host name and of the date, in this order.
    pub closed spec fn sources(self) -> (Seq<char>, Seq<char>, Seq<char>, Seq<char>) {
        (self.uuid.source(), self.email.source(), self.hostname.source(), self.iso_date.source())
    }

    /// Compiles the patterns of the classifier: the four patterns held are
    /// those of the UUID, of the email address, of the host name and of the
    /// date, each compiled from its text.
    pub fn new() -> (recognisers: Recognisers)
        ensures
            recognisers.sources() == (
                UUID_PATTERN@,
                EMAIL_PATTERN@,
                HOSTNAME_PATTERN@,
                ISO_DATE_PATTERN@,
            ),
    {
        Recognisers {
            uuid: Pattern::new(UUID_PATTERN),
            email: Pattern::new(EMAIL_PATTERN),
            hostname: Pattern::new(HOSTNAME_PATTERN),
            iso_date: Pattern::new(ISO_DATE_PATTERN),
        }
    }
}

/// What the outside recognisers say of a text.
pub open spec fn evidence_of(text: Seq<char>) -> Evidence {
    Evidence {
        uuid: matches(UUID_PATTERN@, text),
        email: matches(EMAIL_PATTERN@, text),
        url: url_parses(text),
        hostname: matches(HOSTNAME_PATTERN@, text),
        leading_numeric: text.len() == 0 || numeric_char(text[0]),
        iso_date: matches(ISO_DATE_PATTERN@, text),
        rfc3339: rfc3339_parses(text),
        rfc2822: rfc2822_parses(text),
    }
}

/// A string is taken for a UUID where it is 36 bytes long and the pattern
/// matches.
pub open spec fn uuid_model(text: Seq<char>, evidence: Evidence) -> Option<StringModel> {
    if byte_length(text) == 36 && evidence.uuid {
        Some(StringModel::UUID)
    } else {
        None
    }
}

/// A string is taken for an email address where it holds an `@` and the
/// pattern matches.
pub open spec fn email_model(text: Seq<char>, evidence: Evidence) -> Option<StringModel> {
    if text.contains('@') && evidence.email {
        Some(StringModel::Email)
    } else {
        None
    }
}

/// A string that holds a `.` is taken for a URL where it parses as one, and
/// else for a host name where the pattern matches.
pub open spec fn url_host_model(text: Seq<char>, evidence: Evidence) -> Option<StringModel> {
    if text.contains('.') && evidence.url {
        Some(StringModel::Url)
    } else if text.contains('.') && evidence.hostname {
        Some(StringModel::Hostname)
    } else {
        None
    }
}

/// A string that starts with a numeric character is taken for a date where
/// the pattern matches, and else for an ISO 8601 date and time where it
/// parses as one. Any string that parses as an RFC 2822 date and time is
/// taken for one.
pub open spec fn dates_model(text: Seq<char>, evidence: Evidence) -> Option<StringModel> {
    if evidence.leading_numeric && evidence.iso_date {
        Some(StringModel::IsoDate)
    } else if evidence.leading_numeric && evidence.rfc3339 {
        Some(StringModel::DateTimeISO8601)
    } else if evidence.rfc2822 {
        Some(StringModel::DateTimeRFC2822)
    } else {
        None
    }
}

/// A string of no recognised format: itself as the one sample, its
/// characters, and its length in bytes as both bounds.
pub open spec fn unknown_model(text: Seq<char>) -> StringModel {
    StringModel::Unknown {
        strings_seen: seq![text],
        chars_seen: text,
        min_length: Some(byte_length(text)),
        max_length: Some(byte_length(text)),
    }
}

/// The format of a string, given what the outside recognisers say of it:
/// the first of UUID, email, URL or host name, and date that applies, and
/// else no format.
pub open spec fn classify_model(text: Seq<char>, evidence: Evidence) -> StringModel {
    if uuid_model(text, evidence) is Some {
        uuid_model(text, evidence)->0
    } else if email_model(text, evidence) is Some {
        email_model(text, evidence)->0
    } else if url_host_model(text, evidence) is Some {
        url_host_model(text, evidence)->0
    } else if dates_model(text, evidence) is Some {
        dates_model(text, evidence)->0
    } else {
        unknown_model(text)
    }
}

/// The model of a recognised format, if there is one.
pub open spec fn found_model(found: Option<StringType>) -> Option<StringModel> {
    match found {
        Some(string_type) => Some(string_type.model()),
        None => None,
    }
}

/// Recognises a UUID.
pub fn uuid(s: &str, recognisers: &Recognisers) -> (found: Option<StringType>)
    ensures
        found_model(found) == uuid_model(s@, evidence_of(s@)),
{
    proof {
        use_type_invariant(recognisers);
    }
    if byte_len(s) == 36 && recognisers.uuid.is_match(s) {
        Some(StringType::UUID)
    } else {
        None
    }
}

/// Recognises an email address.
pub fn email(s: &str, recognisers: &Recognisers) -> (found: Option<StringType>)
    ensures
        found_model(found) == email_model(s@, evidence_of(s@)),
{
    proof {
        use_type_invariant(recognisers);
    }
    if has_char(s, '@') && recognisers.email.is_match(s) {
        Some(StringType::Email)
    } else {
        None
    }
}

/// Recognises a URL or a host name.
pub fn url_host(s: &str, recognisers: &Recognisers) -> (found: Option<StringType>)
    ensures
        found_model(found) == url_host_model(s@, evidence_of(s@)),
{
    proof {
        use_type_invariant(recognisers);
    }
    if has_char(s, '.') {
        if parses_as_url(s) {
            return Some(StringType::Url);
        }
        if recognisers.hostname.is_match(s) {
            return Some(StringType::Hostname);
        }
    }
    None
}

/// Recognises a date, or a date and time.
pub fn dates(s: &str, recognisers: &Recognisers) -> (found: Option<StringType>)
    ensures
        found_model(found) == dates_model(s@, evidence_of(s@)),
{
    proof {
        use_type_invariant(recognisers);
    }
    if starts_numeric(s) {
        if recognisers.iso_date.is_match(s) {
            return Some(StringType::IsoDate);
        }
        if parses_as_rfc3339(s) {
            return Some(StringType::DateTimeISO8601);
        }
    }
    if parses_as_rfc2822(s) {
        return Some(StringType::DateTimeRFC2822);
    }
    None
}

/// Whether the string is empty or starts with a numeric character.
pub fn starts_numeric(s: &str) -> (r: bool)
    ensures
        r == (s@.len() == 0 || numeric_char(s@[0])),
{
    if s.is_empty() {
        true
    } else {
        is_numeric(s.get_char(0))
    }
}

/// The schema of a string of no recognised format.
pub fn unknown_string(s: &str) -> (unknown: StringType)
    ensures
        unknown@ == unknown_model(s@),
        unknown.well_formed(),
{
    let mut strings_seen: Vec<String> = Vec::new();
    strings_seen.push(s.to_owned());
    assert(texts(strings_seen@) =~= seq![s@]);
    StringType::Unknown {
        strings_seen,
        chars_seen: chars_of(s),
        min_length: Some(byte_len(s)),
        max_length: Some(byte_len(s)),
    }
}

/// Asks the outside recognisers about a string.
pub fn gather_evidence(s: &str, recognisers: &Recognisers) -> (evidence: Evidence)
    ensures
        evidence == evidence_of(s@),
{
    proof {
        use_type_invariant(recognisers);
    }
    Evidence {
        uuid: recognisers.uuid.is_match(s),
        email: recognisers.email.is_match(s),
        url: parses_as_url(s),
        hostname: recognisers.hostname.is_match(s),
        leading_numeric: starts_numeric(s),
        iso_date: recognisers.iso_date.is_match(s),
        rfc3339: parses_as_rfc3339(s),
        rfc2822: parses_as_rfc2822(s),
    }
}

/// The format of a string, given what the outside recognisers say of it.
pub fn classify(s: &str, evidence: Evidence) -> (string_type: StringType)
    ensures
        string_type@ == classify_model(s@, evidence),
        string_type.well_formed(),
{
    if byte_len(s) == 36 && evidence.uuid {
        StringType::UUID
    } else if evidence.email && has_char(s, '@') {
        StringType::Email
    } else if evidence.url && has_char(s, '.') {
        StringType::Url
    } else if evidence.hostname && has_char(s, '.') {
        StringType::Hostname
    } else if evidence.leading_numeric && evidence.iso_date {
        StringType::IsoDate
    } else if evidence.leading_numeric && evidence.rfc3339 {
        StringType::DateTimeISO8601
    } else if evidence.rfc2822 {
        StringType::DateTimeRFC2822
    } else {
        unknown_string(s)
    }
}

/// The format of a string: what [`classify`] makes of what the outside
/// recognisers say of it. A recogniser is asked only where the ones before
/// it did not apply.
pub fn infer_string_type(s: &str, recognisers: &Recognisers) -> (string_type: StringType)
    ensures
        string_type@ == classify_model(s@, evidence_of(s@)),
        string_type.well_formed(),
{
    if let Some(string_type) = uuid(s, recognisers) {
        return string_type;
    }
    if let Some(string_type) = email(s, recognisers) {
        return string_type;
    }
    if let Some(string_type) = url_host(s, recognisers) {
        return string_type;
    }
    if let Some(string_type) = dates(s, recognisers) {
        return string_type;
    }
    unknown_string(s)
}

} // verus!
