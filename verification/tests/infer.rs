use xmlsql::infer::{classify_parsed, infer_type, is_float, read_u64};
use xmlsql::text::{is_whitespace_char, trim};
use xmlsql::{Inferred, InferredType};

const ALL_TYPES: [InferredType; 12] = [
    InferredType::Empty,
    InferredType::Whitespace,
    InferredType::String,
    InferredType::Boolean,
    InferredType::Int,
    InferredType::Float,
    InferredType::Uuid,
    InferredType::DateTime,
    InferredType::Time,
    InferredType::Date,
    InferredType::Duration,
    InferredType::Json,
];

fn chars(s: &str) -> Vec<char> {
    s.chars().collect()
}

#[test]
fn tags_round_trip() {
    for t in ALL_TYPES {
        assert_eq!(InferredType::from_str(t.as_str()), Ok(t));
    }
    assert_eq!(InferredType::Empty.as_str(), "empty");
    assert_eq!(InferredType::DateTime.as_str(), "datetime");
    assert_eq!(InferredType::Json.as_str(), "json");
}

#[test]
fn unknown_tags_fail() {
    for s in ["", "Empty", "integer", "int ", "base64", "date time"] {
        assert_eq!(InferredType::from_str(s), Err(()));
    }
}

#[test]
fn first_rule_wins() {
    assert_eq!(infer_type(""), Inferred::Empty);
    assert_eq!(infer_type(" \t\n"), Inferred::Whitespace);
    assert_eq!(infer_type("\u{a0}\u{2003}"), Inferred::Whitespace);
    assert_eq!(infer_type("true"), Inferred::Boolean(true));
    assert_eq!(infer_type("TRUE"), Inferred::Boolean(true));
    assert_eq!(infer_type("False"), Inferred::Boolean(false));
    assert_eq!(infer_type("42"), Inferred::Int(42));
    assert_eq!(infer_type("+7"), Inferred::Int(7));
    assert_eq!(infer_type("18446744073709551615"), Inferred::Int(u64::MAX));
    assert_eq!(infer_type("18446744073709551616"), Inferred::Float);
    assert_eq!(infer_type("-5"), Inferred::Float);
    assert_eq!(infer_type("0.123"), Inferred::Float);
    assert_eq!(infer_type("1e9"), Inferred::Float);
    assert_eq!(infer_type("NaN"), Inferred::Float);
    assert_eq!(infer_type("-infinity"), Inferred::Float);
    assert_eq!(infer_type("67e55044-10b1-426f-9247-bb680e5fe0c8"), Inferred::Uuid);
    assert_eq!(infer_type("2022-01-01T12:13:14Z"), Inferred::DateTime);
    assert_eq!(infer_type("12:13:14"), Inferred::Time);
    assert_eq!(infer_type("2022-01-01"), Inferred::Date);
    assert_eq!(infer_type("P1Y2D"), Inferred::Duration);
    assert_eq!(infer_type("{\"a\": [1, 2]}"), Inferred::Json);
    assert_eq!(infer_type("\"quoted\""), Inferred::Json);
    assert_eq!(infer_type("null"), Inferred::Json);
    assert_eq!(infer_type("hi"), Inferred::String);
    assert_eq!(infer_type(" 42"), Inferred::Json);
    assert_eq!(infer_type("4 2"), Inferred::String);
    assert_eq!(infer_type("truee"), Inferred::String);
}

#[test]
fn kinds_of_inferred_values() {
    assert_eq!(Inferred::Boolean(true).as_type(), InferredType::Boolean);
    assert_eq!(Inferred::Int(3).as_type(), InferredType::Int);
    assert_eq!(Inferred::Float.as_type(), InferredType::Float);
    assert_eq!(Inferred::Empty.as_type(), InferredType::Empty);
    assert_eq!(Inferred::Json.as_type(), InferredType::Json);
}

#[test]
fn placeholders_keep_their_kind() {
    assert_eq!(infer_type("[redacted]").as_type(), InferredType::String);
    assert_eq!(infer_type("0").as_type(), InferredType::Int);
    assert_eq!(infer_type("0.123").as_type(), InferredType::Float);
    assert_eq!(
        infer_type("00000000-0000-0000-0000-000000000000").as_type(),
        InferredType::Uuid
    );
    assert_eq!(infer_type("1970-01-01T00:00:00Z").as_type(), InferredType::DateTime);
    assert_eq!(infer_type("00:00:00").as_type(), InferredType::Time);
    assert_eq!(infer_type("1970-01-01").as_type(), InferredType::Date);
    assert_eq!(infer_type("55:55:55").as_type(), InferredType::Duration);
}

#[test]
fn order_of_the_outside_readers() {
    assert_eq!(classify_parsed(true, true, true, true, true, true), Inferred::Uuid);
    assert_eq!(classify_parsed(false, true, true, true, true, true), Inferred::DateTime);
    assert_eq!(classify_parsed(false, false, true, true, true, true), Inferred::Time);
    assert_eq!(classify_parsed(false, false, false, true, true, true), Inferred::Date);
    assert_eq!(classify_parsed(false, false, false, false, true, true), Inferred::Duration);
    assert_eq!(classify_parsed(false, false, false, false, false, true), Inferred::Json);
    assert_eq!(classify_parsed(false, false, false, false, false, false), Inferred::String);
}

#[test]
fn unsigned_integers_as_std_reads_them() {
    for s in [
        "", "+", "-", "0", "00", "+0", "-0", "1", "+1", "++1", "1+", "12a", " 1", "1 ", "١",
        "18446744073709551615", "18446744073709551616", "99999999999999999999999", "0x10",
        "1_000", "007",
    ] {
        assert_eq!(read_u64(&chars(s)), s.parse::<u64>().ok(), "{:?}", s);
    }
}

#[test]
fn floats_as_std_reads_them() {
    for s in [
        "", ".", "+", "-", "e", "e5", ".e5", "1", "1.", ".5", "+.5", "-.5e-3", "1e5", "1E5",
        "1e", "1e+", "1e+5", "1e-5", "1.5e10", "1..5", "1.5.5", "inf", "INF", "+inf", "-Inf",
        "infinity", "Infinity", "infinit", "nan", "NAN", "-nan", "nano", "1e99999", "0x1p3",
        "1f", " 1", "1 ", "1_0", "١", "--1", "+-1", "1e5.5", "12345678901234567890123.5",
    ] {
        assert_eq!(is_float(&chars(s)), s.parse::<f64>().is_ok(), "{:?}", s);
    }
}

#[test]
fn white_space_is_what_std_says() {
    for code in 0..=0x10FFFFu32 {
        if let Some(c) = char::from_u32(code) {
            assert_eq!(is_whitespace_char(c), c.is_whitespace(), "U+{:04X}", code);
        }
    }
}

#[test]
fn trim_is_what_std_does() {
    for s in [
        "", " ", "a", " a", "a ", " a b ", "\t\n a \r\n", "\u{a0}x\u{2003}", "   ", "é ",
        "\u{3000}\u{3000}", "a\u{85}",
    ] {
        assert_eq!(trim(s), s.trim(), "{:?}", s);
    }
}

fn stated_uuid(s: &str) -> bool {
    let c: Vec<char> = s.chars().collect();
    let hyphenated = |c: &[char]| {
        c.len() == 36
            && c.iter().enumerate().all(|(i, ch)| {
                if i == 8 || i == 13 || i == 18 || i == 23 {
                    *ch == '-'
                } else {
                    ch.is_ascii_hexdigit()
                }
            })
    };
    (c.len() == 32 && c.iter().all(|ch| ch.is_ascii_hexdigit()))
        || hyphenated(&c)
        || (c.len() == 38 && c[0] == '{' && c[37] == '}' && hyphenated(&c[1..37]))
        || (c.len() == 45
            && c[..9].iter().collect::<String>().eq_ignore_ascii_case("urn:uuid:")
            && hyphenated(&c[9..]))
}

#[test]
fn uuid_forms() {
    let plain = "67e55044-10b1-426f-9247-bb680e5fe0c8";
    let yes = [
        plain.to_string(),
        plain.to_uppercase(),
        plain.replace('-', ""),
        format!("{{{}}}", plain),
        format!("urn:uuid:{}", plain),
        format!("URN:UUID:{}", plain),
        format!("Urn:Uuid:{}", plain.to_uppercase()),
        "00000000-0000-0000-0000-000000000000".to_string(),
    ];
    for s in &yes {
        assert!(stated_uuid(s), "{:?}", s);
        assert_eq!(uuid::Uuid::parse_str(s).is_ok(), true, "{:?}", s);
        assert_eq!(infer_type(s), Inferred::Uuid, "{:?}", s);
    }
    let no = [
        format!("{{{}}}", plain.replace('-', "")),
        format!("urn:uuid:{}", plain.replace('-', "")),
        format!("urn:uuid:{{{}}}", plain),
        format!("({})", plain),
        format!("{{{}", plain),
        format!("urn-uuid:{}", plain),
        format!(" {}", plain),
        format!("{} ", plain),
        plain.replace('-', "_"),
        "67e55044-10b1-426f-9247bb68-0e5fe0c8".to_string(),
        "67e55044-10b1-426f-9247-bb680e5fe0cg".to_string(),
        "67e55044-10b1-426f-9247-bb680e5fe0c".to_string(),
        "67e55044-10b1-426f-9247-bb680e5fe0c88".to_string(),
        "67e5504410b1426f9247bb680e5fe0cé".to_string(),
        "67e55044-10b1-426f-9247-bb680e5fe0é".to_string(),
        "６7e55044-10b1-426f-9247-bb680e5fe0c8".to_string(),
        "+7e55044-10b1-426f-9247-bb680e5fe0c8".to_string(),
        String::new(),
    ];
    for s in &no {
        assert!(!stated_uuid(s), "{:?}", s);
        assert_eq!(uuid::Uuid::parse_str(s).is_ok(), false, "{:?}", s);
        assert_ne!(infer_type(s), Inferred::Uuid, "{:?}", s);
    }
}
