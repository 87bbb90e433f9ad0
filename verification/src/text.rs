//! Strings as sequences of characters: the few conversions and comparisons
//! that the rest of the library is written over.

use vstd::prelude::*;
use vstd::slice::slice_subrange;

verus! {

/// The characters of a string, in order.
pub fn chars_of(s: &str) -> (v: Vec<char>)
    ensures
        v@ == s@,
{
    broadcast use vstd::string::group_string_axioms;

    let mut v: Vec<char> = Vec::new();
    for c in it: s.chars()
        invariant
            it.seq() == s@,
            v@ == s@.take(it.index()),
    {
        v.push(c);
    }
    v
}

/// Whether two strings hold the same characters.
pub fn str_eq(a: &str, b: &str) -> (r: bool)
    ensures
        r == (a@ == b@),
{
    let x = a.to_owned();
    let y = b.to_owned();
    x == y
}

/// The string made of the given characters.
///
/// Trusted: wraps std's `FromIterator<char>` for `String`, which appends the
/// characters one by one to an empty string.
#[verifier::external_body]
pub(crate) fn string_of(chars: &[char]) -> (s: String)
    ensures
        s@ == chars@,
{
    chars.iter().collect()
}

/// Whether a character is white space: the code points that Unicode gives
/// the property White_Space.
pub open spec fn is_whitespace(c: char) -> bool {
    let u = c as u32;
    ||| 0x09 <= u <= 0x0D
    ||| u == 0x20
    ||| u == 0x85
    ||| u == 0xA0
    ||| u == 0x1680
    ||| 0x2000 <= u <= 0x200A
    ||| u == 0x2028
    ||| u == 0x2029
    ||| u == 0x202F
    ||| u == 0x205F
    ||| u == 0x3000
}

/// Whether every character of a text is white space.
pub open spec fn all_whitespace(s: Seq<char>) -> bool {
    forall|i: int| 0 <= i < s.len() ==> is_whitespace(#[trigger] s[i])
}

/// Whether a character is white space.
pub fn is_whitespace_char(c: char) -> (r: bool)
    ensures
        r == is_whitespace(c),
{
    let u: u32 = c as u32;
    (0x09 <= u && u <= 0x0D) || u == 0x20 || u == 0x85 || u == 0xA0 || u == 0x1680 || (0x2000 <= u
        && u <= 0x200A) || u == 0x2028 || u == 0x2029 || u == 0x202F || u == 0x205F || u == 0x3000
}

/// Whether every character of a text is white space.
pub fn is_all_whitespace(chars: &[char]) -> (r: bool)
    ensures
        r == all_whitespace(chars@),
{
    let mut i: usize = 0;
    while i < chars.len()
        invariant
            i <= chars.len(),
            all_whitespace(chars@.take(i as int)),
        decreases chars.len() - i,
    {
        if !is_whitespace_char(chars[i]) {
            return false;
        }
        i += 1;
        assert forall|k: int| 0 <= k < i implies is_whitespace(
            #[trigger] chars@.take(i as int)[k],
        ) by {
            if k < i - 1 {
                assert(chars@.take(i as int)[k] == chars@.take(i - 1)[k]);
            }
        }
    }
    assert(chars@.take(i as int) == chars@);
    true
}

/// The code of a character with the letters `A` to `Z` folded onto `a` to
/// `z`; every other character keeps its code.
pub open spec fn ascii_fold(c: char) -> u32 {
    if 'A' <= c <= 'Z' {
        (c as u32 + 32) as u32
    } else {
        c as u32
    }
}

/// Whether a text is the given word, the case of ASCII letters set aside.
pub open spec fn is_word_ignoring_case(s: Seq<char>, word: Seq<char>) -> bool {
    &&& s.len() == word.len()
    &&& forall|i: int| 0 <= i < s.len() ==> ascii_fold(#[trigger] s[i]) == ascii_fold(word[i])
}

/// The folded code of a character.
pub fn fold_ascii(c: char) -> (r: u32)
    ensures
        r == ascii_fold(c),
{
    if 'A' <= c && c <= 'Z' {
        c as u32 + 32
    } else {
        c as u32
    }
}

/// The first place from `from` on that holds no white space; the length of
/// the text if there is none.
pub open spec fn skip_whitespace(s: Seq<char>, from: int) -> int
    decreases s.len() - from,
{
    if 0 <= from < s.len() && is_whitespace(s[from]) {
        skip_whitespace(s, from + 1)
    } else {
        from
    }
}

/// The place after the last character before `to` that is no white space; 0
/// if there is none.
pub open spec fn skip_whitespace_back(s: Seq<char>, to: int) -> int
    decreases to,
{
    if 0 < to <= s.len() && is_whitespace(s[to - 1]) {
        skip_whitespace_back(s, to - 1)
    } else {
        to
    }
}

/// A text without the white space at its two ends.
pub open spec fn trimmed(s: Seq<char>) -> Seq<char> {
    let from = skip_whitespace(s, 0);
    let to = skip_whitespace_back(s, s.len() as int);
    if from < to {
        s.subrange(from, to)
    } else {
        Seq::empty()
    }
}

/// A text without the white space at its two ends.
pub fn trim(s: &str) -> (r: String)
    ensures
        r@ == trimmed(s@),
{
    let chars = chars_of(s);
    let n = chars.len();
    let mut from: usize = 0;
    while from < n && is_whitespace_char(chars[from])
        invariant
            from <= n,
            n == chars@.len(),
            skip_whitespace(chars@, 0) == skip_whitespace(chars@, from as int),
        decreases n - from,
    {
        from += 1;
    }
    let mut to: usize = n;
    while to > from && is_whitespace_char(chars[to - 1])
        invariant
            from <= to <= n,
            n == chars@.len(),
            skip_whitespace_back(chars@, n as int) == skip_whitespace_back(chars@, to as int),
        decreases to,
    {
        to -= 1;
    }
    proof {
        lemma_skip_back_bound(chars@, to as int);
    }
    string_of(slice_subrange(chars.as_slice(), from, to))
}

/// Skipping white space backwards never passes the start, nor goes forward.
proof fn lemma_skip_back_bound(s: Seq<char>, to: int)
    requires
        0 <= to <= s.len(),
    ensures
        0 <= skip_whitespace_back(s, to) <= to,
    decreases to,
{
    if 0 < to && is_whitespace(s[to - 1]) {
        lemma_skip_back_bound(s, to - 1);
    }
}

/// A text without its first `lead` and its last `tail` characters; nothing
/// where it has fewer.
pub open spec fn between(s: Seq<char>, lead: int, tail: int) -> Seq<char> {
    if 0 <= lead && 0 <= tail && lead + tail <= s.len() {
        s.subrange(lead, s.len() - tail)
    } else {
        Seq::empty()
    }
}

/// A text without its first `lead` and its last `tail` characters.
pub fn strip_marks(s: &str, lead: usize, tail: usize) -> (r: String)
    ensures
        r@ == between(s@, lead as int, tail as int),
{
    let chars = chars_of(s);
    let n = chars.len();
    if lead <= n && tail <= n - lead {
        string_of(slice_subrange(chars.as_slice(), lead, n - tail))
    } else {
        String::new()
    }
}

/// A text in lower case, as Unicode maps it.
pub uninterp spec fn lowercase(s: Seq<char>) -> Seq<char>;

/// A text in lower case.
///
/// Trusted: wraps std's `str::to_lowercase`, whose result depends on the
/// text alone.
#[verifier::external_body]
pub(crate) fn to_lowercase(s: &str) -> (r: String)
    ensures
        r@ == lowercase(s@),
{
    s.to_lowercase()
}

/// The text of an optional string slice.
pub open spec fn opt_str_view(s: Option<&str>) -> Option<Seq<char>> {
    match s {
        Some(t) => Some(t@),
        None => None,
    }
}

/// A copy of an optional string.
pub fn clone_opt(s: &Option<String>) -> (r: Option<String>)
    ensures
        r == *s,
{
    match s {
        Some(t) => Some(t.clone()),
        None => None,
    }
}

} // verus!
