use drivel::infer_string::{
    classify, dates, email, gather_evidence, infer_string_type, url_host, uuid, Evidence,
    Recognisers,
};
use drivel::schema::StringType;

fn nothing() -> Evidence {
    Evidence {
        uuid: false,
        email: false,
        url: false,
        hostname: false,
        leading_numeric: false,
        iso_date: false,
        rfc3339: false,
        rfc2822: false,
    }
}

fn everything() -> Evidence {
    Evidence {
        uuid: true,
        email: true,
        url: true,
        hostname: true,
        leading_numeric: true,
        iso_date: true,
        rfc3339: true,
        rfc2822: true,
    }
}

fn unknown(text: &str) -> StringType {
    StringType::Unknown {
        strings_seen: vec![text.to_string()],
        chars_seen: text.chars().collect(),
        min_length: Some(text.len()),
        max_length: Some(text.len()),
    }
}

const THIRTY_SIX: &str = "0123456789012345678901234567890123@.";

#[test]
fn first_format_that_applies_wins() {
    assert_eq!(classify(THIRTY_SIX, everything()), StringType::UUID);
    assert_eq!(classify(THIRTY_SIX, Evidence { uuid: false, ..everything() }), StringType::Email);
    assert_eq!(
        classify(THIRTY_SIX, Evidence { uuid: false, email: false, ..everything() }),
        StringType::Url
    );
    assert_eq!(
        classify(THIRTY_SIX, Evidence { uuid: false, email: false, url: false, ..everything() }),
        StringType::Hostname
    );
    assert_eq!(
        classify(
            THIRTY_SIX,
            Evidence { uuid: false, email: false, url: false, hostname: false, ..everything() }
        ),
        StringType::IsoDate
    );
    assert_eq!(
        classify(THIRTY_SIX, Evidence { rfc3339: true, leading_numeric: true, ..nothing() }),
        StringType::DateTimeISO8601
    );
    assert_eq!(
        classify(THIRTY_SIX, Evidence { rfc2822: true, ..nothing() }),
        StringType::DateTimeRFC2822
    );
    assert_eq!(classify(THIRTY_SIX, nothing()), unknown(THIRTY_SIX));
}

#[test]
fn cheap_guards_come_before_the_evidence() {
    assert_eq!(classify("short", Evidence { uuid: true, ..nothing() }), unknown("short"));
    assert_eq!(classify("no at sign", Evidence { email: true, ..nothing() }), unknown("no at sign"));
    assert_eq!(
        classify("no dot", Evidence { url: true, hostname: true, ..nothing() }),
        unknown("no dot")
    );
    assert_eq!(
        classify("x", Evidence { iso_date: true, rfc3339: true, ..nothing() }),
        unknown("x")
    );
    assert_eq!(classify("a@b", Evidence { email: true, ..nothing() }), StringType::Email);
    assert_eq!(classify("a.b", Evidence { hostname: true, ..nothing() }), StringType::Hostname);
    // 36 bytes, not 36 characters
    let text = "\u{e9}\u{e9}\u{e9}\u{e9}\u{e9}\u{e9}\u{e9}\u{e9}\u{e9}\u{e9}\u{e9}\u{e9}\u{e9}\u{e9}\u{e9}\u{e9}\u{e9}\u{e9}";
    assert_eq!(classify(text, Evidence { uuid: true, ..nothing() }), StringType::UUID);
}

#[test]
fn recognisers_recognise_their_formats() {
    let r = Recognisers::new();
    assert_eq!(uuid("988c2c6d-df1b-4bb9-b837-6ba706c0b4ad", &r), Some(StringType::UUID));
    assert_eq!(uuid("988C2C6D-DF1B-4BB9-B837-6BA706C0B4AD", &r), None);
    assert_eq!(uuid("988c2c6d-df1b-4bb9-b837-6ba706c0b4a", &r), None);
    assert_eq!(uuid("988c2c6ddf1b4bb9b8376ba706c0b4ad0000", &r), None);
    assert_eq!(email("test@example.com", &r), Some(StringType::Email));
    assert_eq!(email("see: test@example.com", &r), Some(StringType::Email));
    assert_eq!(email("test@example", &r), None);
    assert_eq!(email("test.example.com", &r), None);
    assert_eq!(url_host("https://somedomain.somehost.nl/somepage", &r), Some(StringType::Url));
    assert_eq!(url_host("somehost.com", &r), Some(StringType::Hostname));
    assert_eq!(url_host("some host.com", &r), None);
    assert_eq!(url_host("localhost", &r), None);
    assert_eq!(dates("2013-01-12", &r), Some(StringType::IsoDate));
    assert_eq!(dates("2013-01-12T00:00:00.000Z", &r), Some(StringType::DateTimeISO8601));
    assert_eq!(dates("Thu, 18 Mar 2021 10:37:31 +0000", &r), Some(StringType::DateTimeRFC2822));
    assert_eq!(dates("18 Mar 2021 10:37:31 +0000", &r), Some(StringType::DateTimeRFC2822));
    assert_eq!(dates("yesterday", &r), None);
    assert_eq!(dates("", &r), None);
}

#[test]
fn evidence_is_what_the_recognisers_say() {
    let r = Recognisers::new();
    assert_eq!(
        gather_evidence("988c2c6d-df1b-4bb9-b837-6ba706c0b4ad", &r),
        Evidence { uuid: true, leading_numeric: true, ..nothing() }
    );
    assert_eq!(
        gather_evidence("test@example.com", &r),
        Evidence { email: true, ..nothing() }
    );
    assert_eq!(
        gather_evidence("somehost.com", &r),
        Evidence { hostname: true, ..nothing() }
    );
    assert_eq!(
        gather_evidence("2013-01-12", &r),
        Evidence { iso_date: true, leading_numeric: true, ..nothing() }
    );
    assert_eq!(gather_evidence("", &r), Evidence { leading_numeric: true, ..nothing() });
    assert_eq!(gather_evidence("\u{0663}x", &r), Evidence { leading_numeric: true, ..nothing() });
    assert_eq!(gather_evidence("x1", &r), nothing());
}

#[test]
fn inference_agrees_with_classification_of_the_evidence() {
    let texts = [
        "",
        "foo",
        "988c2c6d-df1b-4bb9-b837-6ba706c0b4ad",
        "test@example.com",
        "https://somedomain.somehost.nl/somepage",
        "mailto:someone@example.com",
        "somehost.com",
        "2013-01-12",
        "2013-01-12T00:00:00.000+00:00",
        "Thu, 18 Mar 2021 10:37:31 +0000",
        "12.5",
        "1.2.3.4",
        "\u{0662}\u{0660}\u{0661}\u{0663}-\u{0660}\u{0661}-\u{0661}\u{0662}",
        "h\u{e9}llo w\u{f6}rld",
    ];
    let r = Recognisers::new();
    for text in texts {
        assert_eq!(
            infer_string_type(text, &r),
            classify(text, gather_evidence(text, &r)),
            "{}",
            text
        );
    }
    assert_eq!(infer_string_type("foo", &r), unknown("foo"));
    assert_eq!(infer_string_type("12.5", &r), unknown("12.5"));
}
