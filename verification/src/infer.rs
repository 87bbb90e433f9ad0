//! Classifying a value by what it parses as.

use vstd::prelude::*;
use vstd::slice::slice_subrange;

use crate::text::{
    all_whitespace, ascii_fold, chars_of, fold_ascii, is_all_whitespace, is_word_ignoring_case,
    str_eq,
};

verus! {

/// What a value was found to be. A boolean and an integer keep what they
/// parsed to; of the other kinds only the kind is kept.
#[derive(Debug, Clone, Copy, PartialEq, Eq, Structural)]
pub enum Inferred {
    Empty,
    Whitespace,
    String,
    Boolean(bool),
    Int(u64),
    Float,
    Uuid,
    DateTime,
    Time,
    Date,
    Duration,
    Json,
}

/// The kinds of value that inference tells apart.
#[derive(Debug, Clone, Copy, PartialEq, Eq, Structural)]
pub enum InferredType {
    Empty,
    Whitespace,
    String,
    Boolean,
    Int,
    Float,
    Uuid,
    DateTime,
    Time,
    Date,
    Duration,
    Json,
}

impl Inferred {
    /// The kind of an inferred value.
    pub open spec fn kind(self) -> InferredType {
        match self {
            Inferred::Empty => InferredType::Empty,
            Inferred::Whitespace => InferredType::Whitespace,
            Inferred::String => InferredType::String,
            Inferred::Boolean(_) => InferredType::Boolean,
            Inferred::Int(_) => InferredType::Int,
            Inferred::Float => InferredType::Float,
            Inferred::Uuid => InferredType::Uuid,
            Inferred::DateTime => InferredType::DateTime,
            Inferred::Time => InferredType::Time,
            Inferred::Date => InferredType::Date,
            Inferred::Duration => InferredType::Duration,
            Inferred::Json => InferredType::Json,
        }
    }

    /// The kind of an inferred value.
    pub fn as_type(&self) -> (t: InferredType)
        ensures
            t == self.kind(),
    {
        match self {
            Inferred::Empty => InferredType::Empty,
            Inferred::Whitespace => InferredType::Whitespace,
            Inferred::String => InferredType::String,
            Inferred::Boolean(_) => InferredType::Boolean,
            Inferred::Int(_) => InferredType::Int,
            Inferred::Float => InferredType::Float,
            Inferred::Uuid => InferredType::Uuid,
            Inferred::DateTime => InferredType::DateTime,
            Inferred::Time => InferredType::Time,
            Inferred::Date => InferredType::Date,
            Inferred::Duration => InferredType::Duration,
            Inferred::Json => InferredType::Json,
        }
    }
}

impl InferredType {
    /// The lowercase tag under which a kind is stored.
    pub open spec fn tag(self) -> Seq<char> {
        match self {
            InferredType::Empty => "empty"@,
            InferredType::Whitespace => "whitespace"@,
            InferredType::String => "string"@,
            InferredType::Boolean => "boolean"@,
            InferredType::Int => "int"@,
            InferredType::Float => "float"@,
            InferredType::Uuid => "uuid"@,
            InferredType::DateTime => "datetime"@,
            InferredType::Time => "time"@,
            InferredType::Date => "date"@,
            InferredType::Duration => "duration"@,
            InferredType::Json => "json"@,
        }
    }

    /// The kind that a tag names; a text that is no tag names none.
    pub open spec fn of_tag(s: Seq<char>) -> Result<InferredType, ()> {
        if s == "empty"@ {
            Ok(InferredType::Empty)
        } else if s == "whitespace"@ {
            Ok(InferredType::Whitespace)
        } else if s == "string"@ {
            Ok(InferredType::String)
        } else if s == "boolean"@ {
            Ok(InferredType::Boolean)
        } else if s == "int"@ {
            Ok(InferredType::Int)
        } else if s == "float"@ {
            Ok(InferredType::Float)
        } else if s == "uuid"@ {
            Ok(InferredType::Uuid)
        } else if s == "datetime"@ {
            Ok(InferredType::DateTime)
        } else if s == "time"@ {
            Ok(InferredType::Time)
        } else if s == "date"@ {
            Ok(InferredType::Date)
        } else if s == "duration"@ {
            Ok(InferredType::Duration)
        } else if s == "json"@ {
            Ok(InferredType::Json)
        } else {
            Err(())
        }
    }

    /// The tag of a kind.
    pub fn as_str(&self) -> (s: &'static str)
        ensures
            s@ == self.tag(),
    {
        match self {
            InferredType::Empty => "empty",
            InferredType::Whitespace => "whitespace",
            InferredType::String => "string",
            InferredType::Boolean => "boolean",
            InferredType::Int => "int",
            InferredType::Float => "float",
            InferredType::Uuid => "uuid",
            InferredType::DateTime => "datetime",
            InferredType::Time => "time",
            InferredType::Date => "date",
            InferredType::Duration => "duration",
            InferredType::Json => "json",
        }
    }

    /// The kind that a tag names. Fails on every text that is not one of the
    /// twelve tags, and on no other.
    pub fn from_str(s: &str) -> (r: Result<InferredType, ()>)
        ensures
            r == InferredType::of_tag(s@),
    {
        if str_eq(s, "empty") {
            Ok(InferredType::Empty)
        } else if str_eq(s, "whitespace") {
            Ok(InferredType::Whitespace)
        } else if str_eq(s, "string") {
            Ok(InferredType::String)
        } else if str_eq(s, "boolean") {
            Ok(InferredType::Boolean)
        } else if str_eq(s, "int") {
            Ok(InferredType::Int)
        } else if str_eq(s, "float") {
            Ok(InferredType::Float)
        } else if str_eq(s, "uuid") {
            Ok(InferredType::Uuid)
        } else if str_eq(s, "datetime") {
            Ok(InferredType::DateTime)
        } else if str_eq(s, "time") {
            Ok(InferredType::Time)
        } else if str_eq(s, "date") {
            Ok(InferredType::Date)
        } else if str_eq(s, "duration") {
            Ok(InferredType::Duration)
        } else if str_eq(s, "json") {
            Ok(InferredType::Json)
        } else {
            Err(())
        }
    }

    /// A kind is found again from its tag.
    pub proof fn lemma_tag_round_trip(self)
        ensures
            InferredType::of_tag(self.tag()) == Ok::<InferredType, ()>(self),
    {
        reveal_strlit("empty");
        reveal_strlit("whitespace");
        reveal_strlit("string");
        reveal_strlit("boolean");
        reveal_strlit("int");
        reveal_strlit("float");
        reveal_strlit("uuid");
        reveal_strlit("datetime");
        reveal_strlit("time");
        reveal_strlit("date");
        reveal_strlit("duration");
        reveal_strlit("json");
        assert("empty"@.len() == 5 && "whitespace"@.len() == 10 && "string"@.len() == 6);
        assert("boolean"@.len() == 7 && "int"@.len() == 3 && "float"@.len() == 5);
        assert("uuid"@.len() == 4 && "datetime"@.len() == 8 && "time"@.len() == 4);
        assert("date"@.len() == 4 && "duration"@.len() == 8 && "json"@.len() == 4);
        match self {
            InferredType::Float => {
                assert("float"@[0] != "empty"@[0]);
            },
            InferredType::Uuid => {
                assert("uuid"@[0] != "int"@[0]);
            },
            InferredType::DateTime => {
                assert("datetime"@[0] != "uuid"@[0]);
            },
            InferredType::Time => {
                assert("time"@[0] != "uuid"@[0]);
            },
            InferredType::Date => {
                assert("date"@[0] != "uuid"@[0]);
                assert("date"@[0] != "time"@[0]);
            },
            InferredType::Duration => {
                assert("duration"@[1] != "datetime"@[1]);
            },
            InferredType::Json => {
                assert("json"@[0] != "uuid"@[0]);
                assert("json"@[0] != "time"@[0]);
                assert("json"@[0] != "date"@[0]);
            },
            _ => {},
        }
    }
}

/// Whether a character is one of the ten decimal digits.
pub open spec fn is_digit(c: char) -> bool {
    '0' <= c <= '9'
}

/// The number that a decimal digit stands for.
pub open spec fn digit_value(c: char) -> nat {
    (c as u32 - 48) as nat
}

/// Whether a text is made of decimal digits only.
pub open spec fn all_digits(s: Seq<char>) -> bool {
    forall|i: int| 0 <= i < s.len() ==> is_digit(#[trigger] s[i])
}

/// The number that a text of decimal digits writes.
pub open spec fn decimal_value(s: Seq<char>) -> nat
    decreases s.len(),
{
    if s.len() == 0 {
        0
    } else {
        decimal_value(s.drop_last()) * 10 + digit_value(s.last())
    }
}

/// A text without the `+` that it may start with.
pub open spec fn without_plus(s: Seq<char>) -> Seq<char> {
    if s.len() > 0 && s[0] == '+' {
        s.subrange(1, s.len() as int)
    } else {
        s
    }
}

/// The unsigned 64-bit integer that a text writes: an optional `+`, then at
/// least one decimal digit and nothing else, with a value that fits.
pub open spec fn parse_u64(s: Seq<char>) -> Option<u64> {
    let d = without_plus(s);
    if d.len() > 0 && all_digits(d) && decimal_value(d) <= u64::MAX {
        Some(decimal_value(d) as u64)
    } else {
        None
    }
}

/// The value of the first digits of a text is at most the value of all.
proof fn lemma_decimal_prefix(s: Seq<char>, k: int)
    requires
        0 <= k <= s.len(),
    ensures
        decimal_value(s.take(k)) <= decimal_value(s),
    decreases s.len() - k,
{
    if k == s.len() {
        assert(s.take(k) == s);
    } else {
        lemma_decimal_prefix(s.drop_last(), k);
        assert(s.drop_last().take(k) == s.take(k));
    }
}

/// Reads an unsigned 64-bit integer.
pub fn read_u64(chars: &[char]) -> (r: Option<u64>)
    ensures
        r == parse_u64(chars@),
{
    let n = chars.len();
    let start: usize = if n > 0 && chars[0] == '+' {
        1
    } else {
        0
    };
    if start == n {
        return None;
    }
    let digits = slice_subrange(chars, start, n);
    assert(digits@ == without_plus(chars@));
    let mut acc: u64 = 0;
    let mut i: usize = 0;
    while i < digits.len()
        invariant
            i <= digits.len(),
            digits@.len() > 0,
            digits@ == without_plus(chars@),
            all_digits(digits@.take(i as int)),
            acc == decimal_value(digits@.take(i as int)),
        decreases digits.len() - i,
    {
        let c = digits[i];
        if !('0' <= c && c <= '9') {
            assert(!is_digit(digits@[i as int]));
            return None;
        }
        let d: u64 = (c as u32 - 48) as u64;
        proof {
            let next = digits@.take(i + 1);
            assert(next.drop_last() == digits@.take(i as int));
            assert(next.last() == c);
            assert(decimal_value(next) == acc * 10 + d);
            lemma_decimal_prefix(digits@, i + 1);
            assert forall|k: int| 0 <= k < next.len() implies is_digit(#[trigger] next[k]) by {
                if k < i {
                    assert(next[k] == digits@.take(i as int)[k]);
                }
            }
        }
        let shifted = match acc.checked_mul(10) {
            Some(m) => m,
            None => {
                return None;
            },
        };
        acc = match shifted.checked_add(d) {
            Some(m) => m,
            None => {
                return None;
            },
        };
        i += 1;
    }
    assert(digits@.take(i as int) == digits@);
    Some(acc)
}

/// How many decimal digits stand in a row from a place on.
pub open spec fn digit_run(s: Seq<char>, from: int) -> int
    decreases s.len() - from,
{
    if 0 <= from < s.len() && is_digit(s[from]) {
        1 + digit_run(s, from + 1)
    } else {
        0
    }
}

/// Whether a character is a sign.
pub open spec fn is_sign(c: char) -> bool {
    c == '+' || c == '-'
}

/// A text without the sign that it may start with.
pub open spec fn without_sign(s: Seq<char>) -> Seq<char> {
    if s.len() > 0 && is_sign(s[0]) {
        s.subrange(1, s.len() as int)
    } else {
        s
    }
}

/// Whether a text, from a place on, is an exponent to its end: `e` or `E`,
/// an optional sign, and at least one digit.
pub open spec fn is_exponent(s: Seq<char>, at: int) -> bool {
    let d = if at + 1 < s.len() && is_sign(s[at + 1]) {
        at + 2
    } else {
        at + 1
    };
    &&& 0 <= at < s.len()
    &&& ascii_fold(s[at]) == 101
    &&& digit_run(s, d) >= 1
    &&& d + digit_run(s, d) == s.len()
}

/// Whether a text is an unsigned decimal number: digits with at most one
/// point among them, at least one digit before or after it, and an optional
/// exponent.
pub open spec fn is_decimal_number(s: Seq<char>) -> bool {
    let whole = digit_run(s, 0);
    let has_point = whole < s.len() && s[whole] == '.';
    let frac = if has_point {
        digit_run(s, whole + 1)
    } else {
        0
    };
    let end = if has_point {
        whole + 1 + frac
    } else {
        whole
    };
    &&& whole + frac >= 1
    &&& (end == s.len() || is_exponent(s, end))
}

/// Whether a text is written as a floating-point number: an optional sign,
/// then `inf`, `infinity` or `nan` in any case of letters, or a decimal
/// number.
pub open spec fn is_float_text(s: Seq<char>) -> bool {
    let body = without_sign(s);
    ||| is_word_ignoring_case(body, "inf"@)
    ||| is_word_ignoring_case(body, "infinity"@)
    ||| is_word_ignoring_case(body, "nan"@)
    ||| is_decimal_number(body)
}

/// Counts the decimal digits that stand in a row from a place on.
fn count_digits(chars: &[char], from: usize) -> (n: usize)
    requires
        from <= chars.len(),
    ensures
        n == digit_run(chars@, from as int),
        from + n <= chars.len(),
{
    let mut i: usize = from;
    while i < chars.len() && '0' <= chars[i] && chars[i] <= '9'
        invariant
            from <= i <= chars.len(),
            digit_run(chars@, from as int) == (i - from) + digit_run(chars@, i as int),
        decreases chars.len() - i,
    {
        i += 1;
    }
    i - from
}

/// Whether a text is the given word, the case of ASCII letters set aside.
pub fn is_word(chars: &[char], word: &str) -> (r: bool)
    ensures
        r == is_word_ignoring_case(chars@, word@),
{
    let n = word.unicode_len();
    if chars.len() != n {
        return false;
    }
    let mut i: usize = 0;
    while i < n
        invariant
            i <= n,
            n == word@.len(),
            n == chars.len(),
            forall|k: int| 0 <= k < i ==> ascii_fold(#[trigger] chars@[k]) == ascii_fold(word@[k]),
        decreases n - i,
    {
        if fold_ascii(chars[i]) != fold_ascii(word.get_char(i)) {
            return false;
        }
        i += 1;
    }
    true
}

/// Whether a text, from a place on, is an exponent to its end.
fn reads_exponent(chars: &[char], at: usize) -> (r: bool)
    requires
        at <= chars.len(),
    ensures
        r == is_exponent(chars@, at as int),
{
    let n = chars.len();
    if at >= n || fold_ascii(chars[at]) != 101 {
        return false;
    }
    let d: usize = if at + 1 < n && (chars[at + 1] == '+' || chars[at + 1] == '-') {
        at + 2
    } else {
        at + 1
    };
    let run = count_digits(chars, d);
    run >= 1 && d + run == n
}

/// Whether a text is an unsigned decimal number.
fn reads_decimal_number(chars: &[char]) -> (r: bool)
    ensures
        r == is_decimal_number(chars@),
{
    let n = chars.len();
    let whole = count_digits(chars, 0);
    let has_point = whole < n && chars[whole] == '.';
    let frac: usize = if has_point {
        count_digits(chars, whole + 1)
    } else {
        0
    };
    let end: usize = if has_point {
        whole + 1 + frac
    } else {
        whole
    };
    if whole + frac < 1 {
        return false;
    }
    end == n || reads_exponent(chars, end)
}

/// Whether a text is written as a floating-point number.
pub fn is_float(chars: &[char]) -> (r: bool)
    ensures
        r == is_float_text(chars@),
{
    let n = chars.len();
    let start: usize = if n > 0 && (chars[0] == '+' || chars[0] == '-') {
        1
    } else {
        0
    };
    let body = slice_subrange(chars, start, n);
    assert(body@ == without_sign(chars@));
    is_word(body, "inf") || is_word(body, "infinity") || is_word(body, "nan")
        || reads_decimal_number(body)
}

/// Whether a character is a hexadecimal digit, in either case.
pub open spec fn is_hex_digit(c: char) -> bool {
    ('0' <= c <= '9') || ('a' <= c <= 'f') || ('A' <= c <= 'F')
}

/// Whether a text is a UUID in its hyphenated form: 36 characters, hyphens
/// as the ninth, fourteenth, nineteenth and twenty-fourth, hexadecimal
/// digits everywhere else.
pub open spec fn is_hyphenated_uuid(s: Seq<char>) -> bool {
    &&& s.len() == 36
    &&& forall|i: int|
        0 <= i < 36 ==> if i == 8 || i == 13 || i == 18 || i == 23 {
            #[trigger] s[i] == '-'
        } else {
            is_hex_digit(s[i])
        }
}

/// Whether a text parses as a UUID: 32 hexadecimal digits; the hyphenated
/// form; the hyphenated form in braces; or the hyphenated form behind
/// `urn:uuid:` in any case of letters.
pub open spec fn uuid_parses(s: Seq<char>) -> bool {
    ||| (s.len() == 32 && forall|i: int| 0 <= i < 32 ==> is_hex_digit(#[trigger] s[i]))
    ||| is_hyphenated_uuid(s)
    ||| (s.len() == 38 && s[0] == '{' && s[37] == '}' && is_hyphenated_uuid(s.subrange(1, 37)))
    ||| (s.len() == 45 && is_word_ignoring_case(s.subrange(0, 9), "urn:uuid:"@)
        && is_hyphenated_uuid(s.subrange(9, 45)))
}

/// Whether a text parses as a date with a time of day.
pub uninterp spec fn datetime_parses(s: Seq<char>) -> bool;

/// Whether a text parses as a time of day.
pub uninterp spec fn time_parses(s: Seq<char>) -> bool;

/// Whether a text parses as a calendar date.
pub uninterp spec fn date_parses(s: Seq<char>) -> bool;

/// Whether a text parses as a duration.
pub uninterp spec fn duration_parses(s: Seq<char>) -> bool;

/// Whether a text parses as a JSON value.
pub uninterp spec fn json_parses(s: Seq<char>) -> bool;

/// Trusted: whether `uuid::Uuid::parse_str` accepts the text. It goes by
/// the number of bytes and takes the four forms that [`uuid_parses`] states;
/// every byte that it takes is ASCII, so bytes and characters agree.
#[verifier::external_body]
fn parses_as_uuid(input: &str) -> (r: bool)
    ensures
        r == uuid_parses(input@),
{
    uuid::Uuid::parse_str(input).is_ok()
}

/// Trusted: whether `speedate::DateTime::parse_str` accepts the text. The
/// answer depends on the text alone.
#[verifier::external_body]
fn parses_as_datetime(input: &str) -> (r: bool)
    ensures
        r == datetime_parses(input@),
{
    speedate::DateTime::parse_str(input).is_ok()
}

/// Trusted: whether `speedate::Time::parse_str` accepts the text. The
/// answer depends on the text alone.
#[verifier::external_body]
fn parses_as_time(input: &str) -> (r: bool)
    ensures
        r == time_parses(input@),
{
    speedate::Time::parse_str(input).is_ok()
}

/// Trusted: whether `speedate::Date::parse_str` accepts the text. The
/// answer depends on the text alone.
#[verifier::external_body]
fn parses_as_date(input: &str) -> (r: bool)
    ensures
        r == date_parses(input@),
{
    speedate::Date::parse_str(input).is_ok()
}

/// Trusted: whether `speedate::Duration::parse_str` accepts the text. The
/// answer depends on the text alone.
#[verifier::external_body]
fn parses_as_duration(input: &str) -> (r: bool)
    ensures
        r == duration_parses(input@),
{
    speedate::Duration::parse_str(input).is_ok()
}

/// Trusted: whether `serde_json::from_str` reads the text as a
/// `serde_json::Value`. The answer depends on the text alone.
#[verifier::external_body]
fn parses_as_json(input: &str) -> (r: bool)
    ensures
        r == json_parses(input@),
{
    serde_json::from_str::<serde_json::Value>(input).is_ok()
}

/// The kind of a value that is neither empty, white space, a boolean nor a
/// number, from what the six other readers said of it: the first that
/// accepted it, in the order UUID, date with time, time, date, duration,
/// JSON; a plain string if none did.
pub open spec fn classify_spec(
    uuid: bool,
    datetime: bool,
    time: bool,
    date: bool,
    duration: bool,
    json: bool,
) -> Inferred {
    if uuid {
        Inferred::Uuid
    } else if datetime {
        Inferred::DateTime
    } else if time {
        Inferred::Time
    } else if date {
        Inferred::Date
    } else if duration {
        Inferred::Duration
    } else if json {
        Inferred::Json
    } else {
        Inferred::String
    }
}

/// The kind of a value that is neither empty, white space, a boolean nor a
/// number, from what the six other readers said of it.
pub fn classify_parsed(
    uuid: bool,
    datetime: bool,
    time: bool,
    date: bool,
    duration: bool,
    json: bool,
) -> (r: Inferred)
    ensures
        r == classify_spec(uuid, datetime, time, date, duration, json),
{
    if uuid {
        Inferred::Uuid
    } else if datetime {
        Inferred::DateTime
    } else if time {
        Inferred::Time
    } else if date {
        Inferred::Date
    } else if duration {
        Inferred::Duration
    } else if json {
        Inferred::Json
    } else {
        Inferred::String
    }
}

/// What a value is: the first rule that applies decides.
pub open spec fn infer_spec(s: Seq<char>) -> Inferred {
    if s.len() == 0 {
        Inferred::Empty
    } else if all_whitespace(s) {
        Inferred::Whitespace
    } else if is_word_ignoring_case(s, "true"@) {
        Inferred::Boolean(true)
    } else if is_word_ignoring_case(s, "false"@) {
        Inferred::Boolean(false)
    } else if parse_u64(s) is Some {
        Inferred::Int(parse_u64(s).unwrap())
    } else if is_float_text(s) {
        Inferred::Float
    } else {
        classify_spec(
            uuid_parses(s),
            datetime_parses(s),
            time_parses(s),
            date_parses(s),
            duration_parses(s),
            json_parses(s),
        )
    }
}

/// Classifies a value.
pub fn infer_type(input: &str) -> (r: Inferred)
    ensures
        r == infer_spec(input@),
{
    let chars = chars_of(input);
    if chars.len() == 0 {
        return Inferred::Empty;
    }
    if is_all_whitespace(chars.as_slice()) {
        return Inferred::Whitespace;
    }
    if is_word(chars.as_slice(), "true") {
        return Inferred::Boolean(true);
    }
    if is_word(chars.as_slice(), "false") {
        return Inferred::Boolean(false);
    }
    if let Some(n) = read_u64(chars.as_slice()) {
        return Inferred::Int(n);
    }
    if is_float(chars.as_slice()) {
        return Inferred::Float;
    }
    classify_parsed(
        parses_as_uuid(input),
        parses_as_datetime(input),
        parses_as_time(input),
        parses_as_date(input),
        parses_as_duration(input),
        parses_as_json(input),
    )
}

} // verus!
