//! Reading a selector list from its text: first into tokens, then into
//! complex selectors.
//!
//! The grammar is that of CSS selectors without escapes and comments: a
//! backslash ends a string in error and is no part of a name.

use vstd::prelude::*;
use vstd::slice::slice_subrange;

use crate::infer::is_digit;
use crate::select::{
    compound_view, is_selector_space, list_view, steps_view, AttrOperator, AttrTest,
    AttrTestView, Combinator, Complex, Selector, Simple, SimpleView, Step, StepView,
};
use crate::select::{lemma_match_all_union, match_all_spec, universal};
use crate::document::DocumentView;
use crate::model::ElementView;
use crate::text::{chars_of, string_of};

verus! {

/// A token of a selector's text.
#[derive(Debug, Clone)]
pub enum CssToken {
    /// A name.
    Ident(String),
    /// `#` and the name characters behind it.
    Hash(String),
    /// What stands between two quotes.
    Str(String),
    /// A pair of round brackets and what stands between them.
    Block,
    /// Any other character.
    Delim(char),
    /// One character of white space.
    Whitespace,
}

/// What a [`CssToken`] holds, as plain values.
pub enum CssTokenView {
    Ident(Seq<char>),
    Hash(Seq<char>),
    Str(Seq<char>),
    Block,
    Delim(char),
    Whitespace,
}

impl View for CssToken {
    type V = CssTokenView;

    open spec fn view(&self) -> CssTokenView {
        match self {
            CssToken::Ident(s) => CssTokenView::Ident(s@),
            CssToken::Hash(s) => CssTokenView::Hash(s@),
            CssToken::Str(s) => CssTokenView::Str(s@),
            CssToken::Block => CssTokenView::Block,
            CssToken::Delim(c) => CssTokenView::Delim(*c),
            CssToken::Whitespace => CssTokenView::Whitespace,
        }
    }
}

/// The plain values of a list of tokens.
pub open spec fn css_tokens_view(s: Seq<CssToken>) -> Seq<CssTokenView> {
    s.map_values(|t: CssToken| t@)
}

/// Whether a name can start with a character: a letter, `_`, or any
/// character beyond ASCII.
pub open spec fn is_name_start(c: char) -> bool {
    ('a' <= c <= 'z') || ('A' <= c <= 'Z') || c == '_' || c as u32 >= 0x80
}

/// Whether a name can go on with a character: what it can start with, a
/// digit, or `-`.
pub open spec fn is_name_char(c: char) -> bool {
    is_name_start(c) || is_digit(c) || c == '-'
}

/// How many name characters stand in a row from a place on.
pub open spec fn name_run(s: Seq<char>, from: int) -> int
    decreases s.len() - from,
{
    if 0 <= from < s.len() && is_name_char(s[from]) {
        1 + name_run(s, from + 1)
    } else {
        0
    }
}

/// Whether a text starts as a name does: with a character that a name can
/// start with, or with `-` before such a character or another `-`.
pub open spec fn starts_ident(s: Seq<char>) -> bool {
    s.len() > 0 && (is_name_start(s[0]) || (s[0] == '-' && s.len() > 1 && (is_name_start(s[1])
        || s[1] == '-')))
}

/// The place of the quote that ends a string, looked for from a place on.
/// There is none where the text ends, a line ends or a backslash stands
/// before it.
pub open spec fn string_end(s: Seq<char>, from: int, quote: char) -> Option<int>
    decreases s.len() - from,
{
    if from < 0 || from >= s.len() {
        None
    } else if s[from] == quote {
        Some(from)
    } else if s[from] == '\n' || s[from] == '\\' {
        None
    } else {
        string_end(s, from + 1, quote)
    }
}

/// The place behind the round bracket that closes a block, looked for from
/// a place on at which `depth` brackets are open.
pub open spec fn block_end(s: Seq<char>, from: int, depth: nat) -> Option<int>
    decreases s.len() - from,
{
    if from < 0 || from >= s.len() {
        None
    } else if s[from] == '(' {
        block_end(s, from + 1, depth + 1)
    } else if s[from] == ')' {
        if depth <= 1 {
            Some(from + 1)
        } else {
            block_end(s, from + 1, (depth - 1) as nat)
        }
    } else {
        block_end(s, from + 1, depth)
    }
}

/// The token that a text starts with, and how many characters it takes.
/// There is none where a string or a block does not end.
pub open spec fn first_token(s: Seq<char>) -> Option<(CssTokenView, int)> {
    let c = s[0];
    if is_selector_space(c) {
        Some((CssTokenView::Whitespace, 1))
    } else if c == '"' || c == '\'' {
        match string_end(s, 1, c) {
            Some(q) => Some((CssTokenView::Str(s.subrange(1, q)), q + 1)),
            None => None,
        }
    } else if c == '#' && s.len() > 1 && is_name_char(s[1]) {
        Some((CssTokenView::Hash(s.subrange(1, 1 + name_run(s, 1))), 1 + name_run(s, 1)))
    } else if starts_ident(s) {
        Some((CssTokenView::Ident(s.subrange(0, name_run(s, 0))), name_run(s, 0)))
    } else if c == '(' {
        match block_end(s, 1, 1) {
            Some(end) => Some((CssTokenView::Block, end)),
            None => None,
        }
    } else {
        Some((CssTokenView::Delim(c), 1))
    }
}

/// The tokens of a text, or none where a string or a block does not end.
pub open spec fn lex(s: Seq<char>) -> Option<Seq<CssTokenView>>
    decreases s.len(),
{
    if s.len() == 0 {
        Some(Seq::empty())
    } else {
        match first_token(s) {
            Some((t, n)) => if 0 < n <= s.len() {
                match lex(s.skip(n)) {
                    Some(rest) => Some(seq![t] + rest),
                    None => None,
                }
            } else {
                None
            },
            None => None,
        }
    }
}

/// A run of name characters ends within the text.
pub proof fn lemma_name_run_bound(s: Seq<char>, from: int)
    requires
        0 <= from <= s.len(),
    ensures
        0 <= name_run(s, from),
        from + name_run(s, from) <= s.len(),
        from < s.len() && is_name_char(s[from]) ==> name_run(s, from) >= 1,
    decreases s.len() - from,
{
    if from < s.len() && is_name_char(s[from]) {
        lemma_name_run_bound(s, from + 1);
    }
}

/// A string ends, if it does, at or behind the place from which its end is
/// looked for, and within the text.
pub proof fn lemma_string_end_bound(s: Seq<char>, from: int, quote: char)
    requires
        0 <= from,
    ensures
        string_end(s, from, quote) is Some ==> from <= string_end(s, from, quote)->0 < s.len(),
    decreases s.len() - from,
{
    if from < s.len() && s[from] != quote && s[from] != '\n' && s[from] != '\\' {
        lemma_string_end_bound(s, from + 1, quote);
    }
}

/// A block ends, if it does, behind the place from which its end is looked
/// for, and within the text.
pub proof fn lemma_block_end_bound(s: Seq<char>, from: int, depth: nat)
    requires
        0 <= from,
    ensures
        block_end(s, from, depth) is Some ==> from < block_end(s, from, depth)->0 <= s.len(),
    decreases s.len() - from,
{
    if from < s.len() {
        if s[from] == '(' {
            lemma_block_end_bound(s, from + 1, depth + 1);
        } else if s[from] == ')' {
            if depth > 1 {
                lemma_block_end_bound(s, from + 1, (depth - 1) as nat);
            }
        } else {
            lemma_block_end_bound(s, from + 1, depth);
        }
    }
}

/// The first token of a text takes at least one character and no more than
/// the text has.
pub proof fn lemma_first_token_bound(s: Seq<char>)
    requires
        s.len() > 0,
    ensures
        first_token(s) is Some ==> 0 < (first_token(s)->0).1 <= s.len(),
{
    lemma_name_run_bound(s, 0);
    lemma_name_run_bound(s, 1);
    lemma_string_end_bound(s, 1, s[0]);
    lemma_block_end_bound(s, 1, 1);
}

/// Whether a name can start with a character.
pub fn name_start(c: char) -> (r: bool)
    ensures
        r == is_name_start(c),
{
    ('a' <= c && c <= 'z') || ('A' <= c && c <= 'Z') || c == '_' || c as u32 >= 0x80
}

/// Whether a name can go on with a character.
pub fn name_char(c: char) -> (r: bool)
    ensures
        r == is_name_char(c),
{
    name_start(c) || ('0' <= c && c <= '9') || c == '-'
}

/// Counts the name characters that stand in a row from a place on.
fn count_name(s: &[char], from: usize) -> (n: usize)
    requires
        from <= s.len(),
    ensures
        n == name_run(s@, from as int),
        from + n <= s.len(),
{
    let mut i: usize = from;
    while i < s.len() && name_char(s[i])
        invariant
            from <= i <= s.len(),
            name_run(s@, from as int) == (i - from) + name_run(s@, i as int),
        decreases s.len() - i,
    {
        i += 1;
    }
    i - from
}

/// Looks for the quote that ends a string.
fn find_string_end(s: &[char], from: usize, quote: char) -> (r: Option<usize>)
    requires
        from <= s.len(),
    ensures
        match r {
            Some(q) => string_end(s@, from as int, quote) == Some(q as int) && from <= q < s.len(),
            None => string_end(s@, from as int, quote) is None,
        },
{
    let mut i: usize = from;
    while i < s.len()
        invariant
            from <= i <= s.len(),
            string_end(s@, from as int, quote) == string_end(s@, i as int, quote),
        decreases s.len() - i,
    {
        let c = s[i];
        if c == quote {
            return Some(i);
        }
        if c == '\n' || c == '\\' {
            return None;
        }
        i += 1;
    }
    None
}

/// Looks for the end of a block.
fn find_block_end(s: &[char], from: usize) -> (r: Option<usize>)
    requires
        1 <= from <= s.len(),
    ensures
        match r {
            Some(q) => block_end(s@, from as int, 1) == Some(q as int) && from < q <= s.len(),
            None => block_end(s@, from as int, 1) is None,
        },
{
    let mut i: usize = from;
    let mut depth: usize = 1;
    while i < s.len()
        invariant
            1 <= from <= i <= s.len(),
            1 <= depth <= 1 + (i - from),
            block_end(s@, from as int, 1) == block_end(s@, i as int, depth as nat),
        decreases s.len() - i,
    {
        let c = s[i];
        if c == '(' {
            depth += 1;
        } else if c == ')' {
            if depth <= 1 {
                return Some(i + 1);
            }
            depth -= 1;
        }
        i += 1;
    }
    None
}

/// The token that a text starts with, and how many characters it takes.
fn read_token(s: &[char]) -> (r: Option<(CssToken, usize)>)
    requires
        s.len() > 0,
    ensures
        match r {
            Some((t, n)) => first_token(s@) == Some((t@, n as int)) && 0 < n <= s.len(),
            None => first_token(s@) is None,
        },
{
    let c = s[0];
    proof {
        lemma_first_token_bound(s@);
    }
    if c == ' ' || c == '\t' || c == '\n' || c == '\r' || c == '\x0C' {
        Some((CssToken::Whitespace, 1))
    } else if c == '"' || c == '\'' {
        match find_string_end(s, 1, c) {
            Some(q) => Some((CssToken::Str(string_of(slice_subrange(s, 1, q))), q + 1)),
            None => None,
        }
    } else if c == '#' && s.len() > 1 && name_char(s[1]) {
        let n = count_name(s, 1);
        Some((CssToken::Hash(string_of(slice_subrange(s, 1, 1 + n))), 1 + n))
    } else if name_start(c) || (c == '-' && s.len() > 1 && (name_start(s[1]) || s[1] == '-')) {
        let n = count_name(s, 0);
        Some((CssToken::Ident(string_of(slice_subrange(s, 0, n))), n))
    } else if c == '(' {
        match find_block_end(s, 1) {
            Some(end) => Some((CssToken::Block, end)),
            None => None,
        }
    } else {
        Some((CssToken::Delim(c), 1))
    }
}

/// The tokens of a text, or none where a string or a block does not end.
pub fn tokenize(s: &[char]) -> (r: Option<Vec<CssToken>>)
    ensures
        match r {
            Some(tokens) => lex(s@) == Some(css_tokens_view(tokens@)),
            None => lex(s@) is None,
        },
{
    let n = s.len();
    let mut out: Vec<CssToken> = Vec::new();
    let mut i: usize = 0;
    assert(s@.skip(0) == s@);
    while i < n
        invariant
            i <= n,
            n == s.len(),
            lex(s@) == match lex(s@.skip(i as int)) {
                Some(rest) => Some(css_tokens_view(out@) + rest),
                None => None,
            },
        decreases n - i,
    {
        let rest = slice_subrange(s, i, n);
        assert(rest@ == s@.skip(i as int));
        match read_token(rest) {
            Some((t, len)) => {
                proof {
                    assert(s@.skip(i as int).skip(len as int) == s@.skip(i + len));
                    let ghost before = css_tokens_view(out@);
                    match lex(s@.skip(i + len)) {
                        Some(tail) => {
                            assert(before + (seq![t@] + tail) =~= before.push(t@) + tail);
                        },
                        None => {},
                    }
                    assert(css_tokens_view(out@.push(t)) =~= before.push(t@));
                }
                out.push(t);
                i += len;
            },
            None => {
                return None;
            },
        }
    }
    assert(css_tokens_view(out@) + Seq::<CssTokenView>::empty() =~= css_tokens_view(out@));
    Some(out)
}

/// Whether white space stands at a place.
pub open spec fn is_ws(t: Seq<CssTokenView>, i: int) -> bool {
    0 <= i < t.len() && t[i] is Whitespace
}

/// Whether the given character stands at a place as a token of its own.
pub open spec fn is_delim(t: Seq<CssTokenView>, i: int, c: char) -> bool {
    0 <= i < t.len() && t[i] == CssTokenView::Delim(c)
}

/// The name at a place, if a name stands there.
pub open spec fn ident_at(t: Seq<CssTokenView>, i: int) -> Option<Seq<char>> {
    if 0 <= i < t.len() && t[i] is Ident {
        Some(t[i]->Ident_0)
    } else {
        None
    }
}

/// What stands at a place where a name or `*` may stand: the name, or
/// nothing for `*`; none where neither stands there.
pub open spec fn name_or_star(t: Seq<CssTokenView>, i: int) -> Option<Option<Seq<char>>> {
    if ident_at(t, i) is Some {
        Some(ident_at(t, i))
    } else if is_delim(t, i, '*') {
        Some(None)
    } else {
        None
    }
}

/// The first place from `i` on that holds no white space.
pub open spec fn skip_ws(t: Seq<CssTokenView>, i: int) -> int
    decreases t.len() - i,
{
    if is_ws(t, i) {
        skip_ws(t, i + 1)
    } else {
        i
    }
}

/// The place behind the last token before `i` that is no white space.
pub open spec fn skip_ws_back(t: Seq<CssTokenView>, i: int) -> int
    decreases i,
{
    if i > 0 && is_ws(t, i - 1) {
        skip_ws_back(t, i - 1)
    } else {
        i
    }
}

/// A run of tokens without the white space at its two ends.
pub open spec fn trim_ws(t: Seq<CssTokenView>) -> Seq<CssTokenView> {
    let from = skip_ws(t, 0);
    let to = skip_ws_back(t, t.len() as int);
    if 0 <= from < to <= t.len() {
        t.subrange(from, to)
    } else {
        Seq::empty()
    }
}

/// The type selector at a place, if one stands there, and the place behind
/// it: a name or `*`, or either behind a prefix and `|`. The prefix is a
/// name, `*` for any namespace, or nothing.
pub open spec fn parse_type(t: Seq<CssTokenView>, i: int) -> Option<(SimpleView, int)> {
    if name_or_star(t, i) is Some && is_delim(t, i + 1, '|') && name_or_star(t, i + 2) is Some {
        Some(
            (
                SimpleView::Type { ns: name_or_star(t, i)->0, name: name_or_star(t, i + 2)->0 },
                i + 3,
            ),
        )
    } else if is_delim(t, i, '|') && name_or_star(t, i + 1) is Some {
        Some(
            (SimpleView::Type { ns: Some(Seq::empty()), name: name_or_star(t, i + 1)->0 }, i + 2),
        )
    } else if name_or_star(t, i) is Some {
        Some((SimpleView::Type { ns: None, name: name_or_star(t, i)->0 }, i + 1))
    } else {
        None
    }
}

/// The name of an attribute at a place, with its prefix if it has one, and
/// the place behind it. The prefixes `*` and nothing ask for no namespace.
pub open spec fn parse_attr_name(t: Seq<CssTokenView>, i: int) -> Option<
    (Option<Seq<char>>, Seq<char>, int),
> {
    if ident_at(t, i) is Some && is_delim(t, i + 1, '|') && ident_at(t, i + 2) is Some {
        Some((ident_at(t, i), ident_at(t, i + 2)->0, i + 3))
    } else if is_delim(t, i, '*') && is_delim(t, i + 1, '|') && ident_at(t, i + 2) is Some {
        Some((None, ident_at(t, i + 2)->0, i + 3))
    } else if is_delim(t, i, '|') && ident_at(t, i + 1) is Some {
        Some((None, ident_at(t, i + 1)->0, i + 2))
    } else if ident_at(t, i) is Some {
        Some((None, ident_at(t, i)->0, i + 1))
    } else {
        None
    }
}

/// The operator at a place, and the place behind it.
pub open spec fn parse_operator(t: Seq<CssTokenView>, i: int) -> Option<(AttrOperator, int)> {
    if is_delim(t, i, '=') {
        Some((AttrOperator::Equal, i + 1))
    } else if !is_delim(t, i + 1, '=') {
        None
    } else if is_delim(t, i, '~') {
        Some((AttrOperator::Includes, i + 2))
    } else if is_delim(t, i, '|') {
        Some((AttrOperator::DashMatch, i + 2))
    } else if is_delim(t, i, '^') {
        Some((AttrOperator::Prefix, i + 2))
    } else if is_delim(t, i, '*') {
        Some((AttrOperator::Substring, i + 2))
    } else if is_delim(t, i, '$') {
        Some((AttrOperator::Suffix, i + 2))
    } else {
        None
    }
}

/// The value at a place: a name or a string.
pub open spec fn value_at(t: Seq<CssTokenView>, i: int) -> Option<Seq<char>> {
    if 0 <= i < t.len() && t[i] is Ident {
        Some(t[i]->Ident_0)
    } else if 0 <= i < t.len() && t[i] is Str {
        Some(t[i]->Str_0)
    } else {
        None
    }
}

/// What a flag behind a value says of the case of letters: `i` ignores it,
/// `s` does not; another name is no flag.
pub open spec fn flag_of(name: Seq<char>) -> Option<bool> {
    if name == seq!['i'] || name == seq!['I'] {
        Some(true)
    } else if name == seq!['s'] || name == seq!['S'] {
        Some(false)
    } else {
        None
    }
}

/// What stands behind the name in an attribute selector, from the place
/// `k` on, and the place behind the closing bracket: nothing, or an
/// operator, a value and perhaps a flag, with white space between them or
/// not.
pub open spec fn parse_attr_test(t: Seq<CssTokenView>, k: int) -> Option<(AttrTestView, int)> {
    if is_delim(t, k, ']') {
        Some((AttrTestView::Exists, k + 1))
    } else {
        match parse_operator(t, k) {
            None => None,
            Some((op, after)) => {
                let m = skip_ws(t, after);
                match value_at(t, m) {
                    None => None,
                    Some(value) => {
                        let f = skip_ws(t, m + 1);
                        if ident_at(t, f) is Some {
                            match flag_of(ident_at(t, f)->0) {
                                None => None,
                                Some(ignore_case) => {
                                    let end = skip_ws(t, f + 1);
                                    if is_delim(t, end, ']') {
                                        Some(
                                            (
                                                AttrTestView::Value { op, value, ignore_case },
                                                end + 1,
                                            ),
                                        )
                                    } else {
                                        None
                                    }
                                },
                            }
                        } else if is_delim(t, f, ']') {
                            Some((AttrTestView::Value { op, value, ignore_case: false }, f + 1))
                        } else {
                            None
                        }
                    },
                }
            },
        }
    }
}

/// The attribute selector whose opening bracket stands at a place, and the
/// place behind its closing bracket.
pub open spec fn parse_attr(t: Seq<CssTokenView>, i: int) -> Option<(SimpleView, int)> {
    match parse_attr_name(t, skip_ws(t, i + 1)) {
        None => None,
        Some((ns, name, after)) => match parse_attr_test(t, skip_ws(t, after)) {
            None => None,
            Some((test, end)) => Some((SimpleView::Attribute { ns, name, test }, end)),
        },
    }
}

/// The place behind a pseudo-class or pseudo-element whose first colon
/// stands at a place: one or two colons, a name, and perhaps a block.
pub open spec fn parse_pseudo(t: Seq<CssTokenView>, i: int) -> Option<int> {
    let j = if is_delim(t, i + 1, ':') {
        i + 2
    } else {
        i + 1
    };
    if ident_at(t, j) is Some {
        if 0 <= j + 1 < t.len() && t[j + 1] is Block {
            Some(j + 2)
        } else {
            Some(j + 1)
        }
    } else {
        None
    }
}

/// Whether a condition other than a type selector can start at a place.
pub open spec fn starts_simple(t: Seq<CssTokenView>, i: int) -> bool {
    0 <= i < t.len() && (t[i] is Hash || is_delim(t, i, '.') || is_delim(t, i, '[') || is_delim(
        t,
        i,
        ':',
    ))
}

/// The condition, other than a type selector, that starts at a place, and
/// the place behind it.
pub open spec fn parse_simple(t: Seq<CssTokenView>, i: int) -> Option<(SimpleView, int)> {
    if 0 <= i < t.len() && t[i] is Hash {
        if starts_ident(t[i]->Hash_0) {
            Some((SimpleView::Id(t[i]->Hash_0), i + 1))
        } else {
            None
        }
    } else if is_delim(t, i, '.') {
        match ident_at(t, i + 1) {
            Some(name) => Some((SimpleView::Class(name), i + 2)),
            None => None,
        }
    } else if is_delim(t, i, '[') {
        parse_attr(t, i)
    } else if is_delim(t, i, ':') {
        match parse_pseudo(t, i) {
            Some(end) => Some((SimpleView::Pseudo, end)),
            None => None,
        }
    } else {
        None
    }
}

/// The conditions, other than type selectors, that stand in a row from a
/// place on, and the place behind them.
pub open spec fn parse_simples(t: Seq<CssTokenView>, i: int) -> Option<(Seq<SimpleView>, int)>
    decreases t.len() - i,
{
    if starts_simple(t, i) {
        match parse_simple(t, i) {
            Some((s, j)) => if i < j <= t.len() {
                match parse_simples(t, j) {
                    Some((rest, end)) => Some((seq![s] + rest, end)),
                    None => None,
                }
            } else {
                None
            },
            None => None,
        }
    } else {
        Some((Seq::empty(), i))
    }
}

/// The compound selector that starts at a place, and the place behind it:
/// a type selector or not, then conditions, and at least one of the two.
pub open spec fn parse_compound(t: Seq<CssTokenView>, i: int) -> Option<(Seq<SimpleView>, int)> {
    match parse_type(t, i) {
        Some((ty, j)) => match parse_simples(t, j) {
            Some((rest, end)) => Some((seq![ty] + rest, end)),
            None => None,
        },
        None => match parse_simples(t, i) {
            Some((rest, end)) => if rest.len() > 0 {
                Some((rest, end))
            } else {
                None
            },
            None => None,
        },
    }
}

/// The combinator that starts at a place, and the place behind it: `>`,
/// `+` or `~` with white space around it or not, or white space alone.
pub open spec fn parse_combinator(t: Seq<CssTokenView>, i: int) -> Option<(Combinator, int)> {
    let j = skip_ws(t, i);
    if is_delim(t, j, '>') {
        Some((Combinator::Child, skip_ws(t, j + 1)))
    } else if is_delim(t, j, '+') {
        Some((Combinator::NextSibling, skip_ws(t, j + 1)))
    } else if is_delim(t, j, '~') {
        Some((Combinator::LaterSibling, skip_ws(t, j + 1)))
    } else if j > i {
        Some((Combinator::Descendant, j))
    } else {
        None
    }
}

/// The compound selectors from a place to the end, the first of them tied
/// to what stands on its left by the given combinator.
pub open spec fn parse_steps(t: Seq<CssTokenView>, i: int, combinator: Combinator) -> Option<
    Seq<StepView>,
>
    decreases t.len() - i,
{
    match parse_compound(t, i) {
        None => None,
        Some((compound, j)) => {
            let step = StepView { combinator, compound };
            if j >= t.len() {
                Some(seq![step])
            } else {
                match parse_combinator(t, j) {
                    None => None,
                    Some((next, k)) => if i < k <= t.len() {
                        match parse_steps(t, k, next) {
                            Some(rest) => Some(seq![step] + rest),
                            None => None,
                        }
                    } else {
                        None
                    },
                }
            }
        },
    }
}

/// The complex selector that a run of tokens is, white space at its ends
/// set aside.
pub open spec fn parse_complex(piece: Seq<CssTokenView>) -> Option<Seq<StepView>> {
    parse_steps(trim_ws(piece), 0, Combinator::Descendant)
}

/// The place of the first comma from a place on; the length where there is
/// none.
pub open spec fn first_comma(t: Seq<CssTokenView>, from: int) -> int
    decreases t.len() - from,
{
    if from < 0 || from >= t.len() {
        t.len() as int
    } else if t[from] == CssTokenView::Delim(',') {
        from
    } else {
        first_comma(t, from + 1)
    }
}

/// The complex selectors that commas part a run of tokens into.
pub open spec fn parse_list(t: Seq<CssTokenView>) -> Option<Seq<Seq<StepView>>>
    decreases t.len(),
{
    let n = first_comma(t, 0);
    if 0 <= n <= t.len() {
        match parse_complex(t.take(n)) {
            None => None,
            Some(c) => if n >= t.len() {
                Some(seq![c])
            } else {
                match parse_list(t.skip(n + 1)) {
                    Some(rest) => Some(seq![c] + rest),
                    None => None,
                }
            },
        }
    } else {
        None
    }
}

/// The selector list that a text writes, or none where the text is none.
pub open spec fn parse_selector(s: Seq<char>) -> Option<Seq<Seq<StepView>>> {
    match lex(s) {
        Some(t) => parse_list(t),
        None => None,
    }
}

/// Whether white space stands at a place.
fn ws_at(t: &[CssToken], i: usize) -> (r: bool)
    ensures
        r == is_ws(css_tokens_view(t@), i as int),
{
    if i < t.len() {
        match &t[i] {
            CssToken::Whitespace => true,
            _ => false,
        }
    } else {
        false
    }
}

/// Whether the given character stands at a place as a token of its own.
fn delim_at(t: &[CssToken], i: usize, c: char) -> (r: bool)
    ensures
        r == is_delim(css_tokens_view(t@), i as int, c),
{
    if i < t.len() {
        match &t[i] {
            CssToken::Delim(d) => *d == c,
            _ => false,
        }
    } else {
        false
    }
}

/// The name at a place, if a name stands there.
fn ident_ref(t: &[CssToken], i: usize) -> (r: Option<&String>)
    ensures
        match r {
            Some(name) => ident_at(css_tokens_view(t@), i as int) == Some(name@) && i < t.len(),
            None => ident_at(css_tokens_view(t@), i as int) is None,
        },
{
    if i < t.len() {
        match &t[i] {
            CssToken::Ident(name) => Some(name),
            _ => None,
        }
    } else {
        None
    }
}

/// What stands at a place where a name or `*` may stand.
fn read_name_or_star(t: &[CssToken], i: usize) -> (r: Option<Option<String>>)
    ensures
        r.deep_view() == name_or_star(css_tokens_view(t@), i as int),
        r is Some ==> i < t.len(),
{
    match ident_ref(t, i) {
        Some(name) => Some(Some(name.clone())),
        None => if delim_at(t, i, '*') {
            Some(None)
        } else {
            None
        },
    }
}

/// The first place from `i` on that holds no white space.
fn pass_ws(t: &[CssToken], i: usize) -> (r: usize)
    requires
        i <= t.len(),
    ensures
        r == skip_ws(css_tokens_view(t@), i as int),
        i <= r <= t.len(),
{
    let mut j: usize = i;
    while ws_at(t, j)
        invariant
            i <= j <= t.len(),
            skip_ws(css_tokens_view(t@), i as int) == skip_ws(css_tokens_view(t@), j as int),
        decreases t.len() - j,
    {
        j += 1;
    }
    j
}

/// The place behind the last token before `i` that is no white space.
fn pass_ws_back(t: &[CssToken], i: usize) -> (r: usize)
    requires
        i <= t.len(),
    ensures
        r == skip_ws_back(css_tokens_view(t@), i as int),
        r <= i,
{
    let mut j: usize = i;
    while j > 0 && ws_at(t, j - 1)
        invariant
            j <= i <= t.len(),
            skip_ws_back(css_tokens_view(t@), i as int) == skip_ws_back(
                css_tokens_view(t@),
                j as int,
            ),
        decreases j,
    {
        j -= 1;
    }
    j
}

/// The type selector at a place, if one stands there.
fn read_type(t: &[CssToken], i: usize) -> (r: Option<(Simple, usize)>)
    requires
        i <= t.len(),
    ensures
        match r {
            Some((s, j)) => parse_type(css_tokens_view(t@), i as int) == Some((s@, j as int)) && i
                < j <= t.len(),
            None => parse_type(css_tokens_view(t@), i as int) is None,
        },
{
    let first = read_name_or_star(t, i);
    if first.is_some() && delim_at(t, i + 1, '|') {
        let second = read_name_or_star(t, i + 2);
        if let Some(name) = second {
            if let Some(ns) = first {
                return Some((Simple::Type { ns, name }, i + 3));
            }
        }
    }
    if delim_at(t, i, '|') {
        if let Some(name) = read_name_or_star(t, i + 1) {
            return Some((Simple::Type { ns: Some(String::new()), name }, i + 2));
        }
    }
    match first {
        Some(name) => Some((Simple::Type { ns: None, name }, i + 1)),
        None => None,
    }
}

/// The name of an attribute at a place, with its prefix if it has one.
fn read_attr_name(t: &[CssToken], i: usize) -> (r: Option<(Option<String>, String, usize)>)
    requires
        i <= t.len(),
    ensures
        match r {
            Some((ns, name, j)) => parse_attr_name(css_tokens_view(t@), i as int) == Some(
                (ns.deep_view(), name@, j as int),
            ) && i < j <= t.len(),
            None => parse_attr_name(css_tokens_view(t@), i as int) is None,
        },
{
    let first = ident_ref(t, i);
    if let Some(prefix) = first {
        if delim_at(t, i + 1, '|') {
            if let Some(name) = ident_ref(t, i + 2) {
                return Some((Some(prefix.clone()), name.clone(), i + 3));
            }
        }
    }
    if delim_at(t, i, '*') && delim_at(t, i + 1, '|') {
        if let Some(name) = ident_ref(t, i + 2) {
            return Some((None, name.clone(), i + 3));
        }
    }
    if delim_at(t, i, '|') {
        if let Some(name) = ident_ref(t, i + 1) {
            return Some((None, name.clone(), i + 2));
        }
    }
    match first {
        Some(name) => Some((None, name.clone(), i + 1)),
        None => None,
    }
}

/// The operator at a place.
fn read_operator(t: &[CssToken], i: usize) -> (r: Option<(AttrOperator, usize)>)
    requires
        i <= t.len(),
    ensures
        match r {
            Some((op, j)) => parse_operator(css_tokens_view(t@), i as int) == Some((op, j as int))
                && i < j <= t.len(),
            None => parse_operator(css_tokens_view(t@), i as int) is None,
        },
{
    if i >= t.len() {
        return None;
    }
    if delim_at(t, i, '=') {
        Some((AttrOperator::Equal, i + 1))
    } else if !delim_at(t, i + 1, '=') {
        None
    } else if delim_at(t, i, '~') {
        Some((AttrOperator::Includes, i + 2))
    } else if delim_at(t, i, '|') {
        Some((AttrOperator::DashMatch, i + 2))
    } else if delim_at(t, i, '^') {
        Some((AttrOperator::Prefix, i + 2))
    } else if delim_at(t, i, '*') {
        Some((AttrOperator::Substring, i + 2))
    } else if delim_at(t, i, '$') {
        Some((AttrOperator::Suffix, i + 2))
    } else {
        None
    }
}

/// The value at a place: a name or a string.
fn read_value(t: &[CssToken], i: usize) -> (r: Option<String>)
    ensures
        r.deep_view() == value_at(css_tokens_view(t@), i as int),
        r is Some ==> i < t.len(),
{
    if i < t.len() {
        match &t[i] {
            CssToken::Ident(v) => Some(v.clone()),
            CssToken::Str(v) => Some(v.clone()),
            _ => None,
        }
    } else {
        None
    }
}

/// What a flag behind a value says of the case of letters.
fn read_flag(name: &str) -> (r: Option<bool>)
    ensures
        r == flag_of(name@),
{
    let chars = chars_of(name);
    if chars.len() != 1 {
        return None;
    }
    let c = chars[0];
    proof {
        assert(name@ =~= seq![c]);
        assert(seq!['i'][0] == 'i' && seq!['I'][0] == 'I' && seq!['s'][0] == 's' && seq!['S'][0]
            == 'S');
    }
    if c == 'i' || c == 'I' {
        Some(true)
    } else if c == 's' || c == 'S' {
        Some(false)
    } else {
        None
    }
}

/// What stands behind the name in an attribute selector.
fn read_attr_test(t: &[CssToken], k: usize) -> (r: Option<(AttrTest, usize)>)
    requires
        k <= t.len(),
    ensures
        match r {
            Some((test, j)) => parse_attr_test(css_tokens_view(t@), k as int) == Some(
                (test@, j as int),
            ) && k < j <= t.len(),
            None => parse_attr_test(css_tokens_view(t@), k as int) is None,
        },
{
    if delim_at(t, k, ']') {
        return Some((AttrTest::Exists, k + 1));
    }
    let (op, after) = match read_operator(t, k) {
        Some(x) => x,
        None => {
            return None;
        },
    };
    let m = pass_ws(t, after);
    let value = match read_value(t, m) {
        Some(v) => v,
        None => {
            return None;
        },
    };
    let f = pass_ws(t, m + 1);
    match ident_ref(t, f) {
        Some(flag) => match read_flag(flag.as_str()) {
            None => None,
            Some(ignore_case) => {
                let end = pass_ws(t, f + 1);
                if delim_at(t, end, ']') {
                    Some((AttrTest::Value { op, value, ignore_case }, end + 1))
                } else {
                    None
                }
            },
        },
        None => if delim_at(t, f, ']') {
            Some((AttrTest::Value { op, value, ignore_case: false }, f + 1))
        } else {
            None
        },
    }
}

/// The attribute selector whose opening bracket stands at a place.
fn read_attr(t: &[CssToken], i: usize) -> (r: Option<(Simple, usize)>)
    requires
        i < t.len(),
    ensures
        match r {
            Some((s, j)) => parse_attr(css_tokens_view(t@), i as int) == Some((s@, j as int)) && i
                < j <= t.len(),
            None => parse_attr(css_tokens_view(t@), i as int) is None,
        },
{
    let start = pass_ws(t, i + 1);
    let (ns, name, after) = match read_attr_name(t, start) {
        Some(x) => x,
        None => {
            return None;
        },
    };
    let k = pass_ws(t, after);
    match read_attr_test(t, k) {
        Some((test, end)) => Some((Simple::Attribute { ns, name, test }, end)),
        None => None,
    }
}

/// The place behind a pseudo-class or pseudo-element.
fn read_pseudo(t: &[CssToken], i: usize) -> (r: Option<usize>)
    requires
        i < t.len(),
    ensures
        match r {
            Some(j) => parse_pseudo(css_tokens_view(t@), i as int) == Some(j as int) && i < j
                <= t.len(),
            None => parse_pseudo(css_tokens_view(t@), i as int) is None,
        },
{
    let j = if delim_at(t, i + 1, ':') {
        i + 2
    } else {
        i + 1
    };
    if ident_ref(t, j).is_some() {
        let block = if j + 1 < t.len() {
            match &t[j + 1] {
                CssToken::Block => true,
                _ => false,
            }
        } else {
            false
        };
        if block {
            Some(j + 2)
        } else {
            Some(j + 1)
        }
    } else {
        None
    }
}

/// Whether a text starts as a name does.
fn is_ident_text(name: &str) -> (r: bool)
    ensures
        r == starts_ident(name@),
{
    let c = chars_of(name);
    c.len() > 0 && (name_start(c[0]) || (c[0] == '-' && c.len() > 1 && (name_start(c[1]) || c[1]
        == '-')))
}

/// The condition, other than a type selector, that starts at a place.
fn read_simple(t: &[CssToken], i: usize) -> (r: Option<(Simple, usize)>)
    requires
        i < t.len(),
    ensures
        match r {
            Some((s, j)) => parse_simple(css_tokens_view(t@), i as int) == Some((s@, j as int))
                && i < j <= t.len(),
            None => parse_simple(css_tokens_view(t@), i as int) is None,
        },
{
    match &t[i] {
        CssToken::Hash(name) => {
            if is_ident_text(name.as_str()) {
                Some((Simple::Id(name.clone()), i + 1))
            } else {
                None
            }
        },
        CssToken::Delim(c) => {
            if *c == '.' {
                match ident_ref(t, i + 1) {
                    Some(name) => Some((Simple::Class(name.clone()), i + 2)),
                    None => None,
                }
            } else if *c == '[' {
                read_attr(t, i)
            } else if *c == ':' {
                match read_pseudo(t, i) {
                    Some(end) => Some((Simple::Pseudo, end)),
                    None => None,
                }
            } else {
                None
            }
        },
        _ => None,
    }
}

/// Whether a condition other than a type selector can start at a place.
fn simple_starts(t: &[CssToken], i: usize) -> (r: bool)
    ensures
        r == starts_simple(css_tokens_view(t@), i as int),
{
    if i < t.len() {
        match &t[i] {
            CssToken::Hash(_) => true,
            CssToken::Delim(c) => *c == '.' || *c == '[' || *c == ':',
            _ => false,
        }
    } else {
        false
    }
}

/// The conditions, other than type selectors, that stand in a row from a
/// place on, behind those that were read already.
fn read_simples(t: &[CssToken], i: usize, done: Vec<Simple>) -> (r: Option<(Vec<Simple>, usize)>)
    requires
        i <= t.len(),
    ensures
        match r {
            Some((all, j)) => parse_simples(css_tokens_view(t@), i as int) is Some
                && compound_view(all@) == compound_view(done@) + (parse_simples(
                css_tokens_view(t@),
                i as int,
            )->0).0 && (parse_simples(css_tokens_view(t@), i as int)->0).1 == j && i <= j
                <= t.len(),
            None => parse_simples(css_tokens_view(t@), i as int) is None,
        },
{
    let ghost tv = css_tokens_view(t@);
    let ghost start = compound_view(done@);
    let mut out = done;
    let mut j: usize = i;
    proof {
        match parse_simples(tv, i as int) {
            Some((rest, end)) => {
                assert(start + rest =~= compound_view(out@) + rest);
            },
            None => {},
        }
    }
    while simple_starts(t, j)
        invariant
            i <= j <= t.len(),
            tv == css_tokens_view(t@),
            start == compound_view(done@),
            match parse_simples(tv, j as int) {
                Some((rest, end)) => parse_simples(tv, i as int) is Some && start + (parse_simples(
                    tv,
                    i as int,
                )->0).0 == compound_view(out@) + rest && (parse_simples(tv, i as int)->0).1
                    == end,
                None => parse_simples(tv, i as int) is None,
            },
        decreases t.len() - j,
    {
        match read_simple(t, j) {
            Some((s, next)) => {
                proof {
                    match parse_simples(tv, next as int) {
                        Some((rest, end)) => {
                            assert(compound_view(out@) + (seq![s@] + rest) =~= compound_view(
                                out@.push(s),
                            ) + rest);
                        },
                        None => {},
                    }
                }
                out.push(s);
                j = next;
            },
            None => {
                return None;
            },
        }
    }
    proof {
        assert(parse_simples(tv, j as int) == Some((Seq::<SimpleView>::empty(), j as int)));
        assert(compound_view(out@) + Seq::<SimpleView>::empty() =~= compound_view(out@));
    }
    Some((out, j))
}

/// The compound selector that starts at a place.
fn read_compound(t: &[CssToken], i: usize) -> (r: Option<(Vec<Simple>, usize)>)
    requires
        i <= t.len(),
    ensures
        match r {
            Some((c, j)) => parse_compound(css_tokens_view(t@), i as int) == Some(
                (compound_view(c@), j as int),
            ) && i < j <= t.len(),
            None => parse_compound(css_tokens_view(t@), i as int) is None,
        },
{
    match read_type(t, i) {
        Some((ty, j)) => {
            let mut first: Vec<Simple> = Vec::new();
            first.push(ty);
            assert(compound_view(first@) =~= seq![ty@]);
            read_simples(t, j, first)
        },
        None => {
            let none: Vec<Simple> = Vec::new();
            assert(compound_view(none@) =~= Seq::<SimpleView>::empty());
            match read_simples(t, i, none) {
                Some((all, j)) => {
                    proof {
                        let rest = (parse_simples(css_tokens_view(t@), i as int)->0).0;
                        assert(Seq::<SimpleView>::empty() + rest =~= rest);
                        lemma_simples_advance(css_tokens_view(t@), i as int);
                    }
                    if all.len() > 0 {
                        Some((all, j))
                    } else {
                        None
                    }
                },
                None => None,
            }
        },
    }
}

/// Conditions that were read take tokens: where some were read, the place
/// behind them is behind the place at which they start.
pub proof fn lemma_simples_advance(t: Seq<CssTokenView>, i: int)
    requires
        0 <= i <= t.len(),
    ensures
        parse_simples(t, i) is Some ==> {
            &&& i <= (parse_simples(t, i)->0).1 <= t.len()
            &&& (parse_simples(t, i)->0).0.len() > 0 ==> i < (parse_simples(t, i)->0).1
        },
    decreases t.len() - i,
{
    if starts_simple(t, i) {
        match parse_simple(t, i) {
            Some((s, j)) => {
                if i < j <= t.len() {
                    lemma_simples_advance(t, j);
                }
            },
            None => {},
        }
    }
}

/// The combinator that starts at a place.
fn read_combinator(t: &[CssToken], i: usize) -> (r: Option<(Combinator, usize)>)
    requires
        i <= t.len(),
    ensures
        match r {
            Some((c, j)) => parse_combinator(css_tokens_view(t@), i as int) == Some((c, j as int))
                && i <= j <= t.len(),
            None => parse_combinator(css_tokens_view(t@), i as int) is None,
        },
{
    let j = pass_ws(t, i);
    if delim_at(t, j, '>') {
        Some((Combinator::Child, pass_ws(t, j + 1)))
    } else if delim_at(t, j, '+') {
        Some((Combinator::NextSibling, pass_ws(t, j + 1)))
    } else if delim_at(t, j, '~') {
        Some((Combinator::LaterSibling, pass_ws(t, j + 1)))
    } else if j > i {
        Some((Combinator::Descendant, j))
    } else {
        None
    }
}

/// The compound selectors of a run of tokens.
fn read_steps(t: &[CssToken]) -> (r: Option<Vec<Step>>)
    ensures
        match r {
            Some(steps) => parse_steps(css_tokens_view(t@), 0, Combinator::Descendant) == Some(
                steps_view(steps@),
            ),
            None => parse_steps(css_tokens_view(t@), 0, Combinator::Descendant) is None,
        },
{
    let ghost tv = css_tokens_view(t@);
    let ghost whole = parse_steps(tv, 0, Combinator::Descendant);
    let mut out: Vec<Step> = Vec::new();
    let mut i: usize = 0;
    let mut combinator = Combinator::Descendant;
    proof {
        match whole {
            Some(rest) => {
                assert(steps_view(out@) + rest =~= rest);
            },
            None => {},
        }
    }
    loop
        invariant
            i <= t.len(),
            tv == css_tokens_view(t@),
            whole == parse_steps(tv, 0, Combinator::Descendant),
            whole == match parse_steps(tv, i as int, combinator) {
                Some(rest) => Some(steps_view(out@) + rest),
                None => None,
            },
        decreases t.len() - i,
    {
        let (compound, j) = match read_compound(t, i) {
            Some(x) => x,
            None => {
                return None;
            },
        };
        let ghost before = steps_view(out@);
        let step = Step { combinator, compound };
        out.push(step);
        assert(steps_view(out@) =~= before.push(step@));
        if j >= t.len() {
            assert(before + seq![step@] =~= steps_view(out@));
            return Some(out);
        }
        match read_combinator(t, j) {
            Some((next, k)) => {
                if k <= i {
                    return None;
                }
                proof {
                    match parse_steps(tv, k as int, next) {
                        Some(rest) => {
                            assert(before + (seq![step@] + rest) =~= steps_view(out@) + rest);
                        },
                        None => {},
                    }
                }
                combinator = next;
                i = k;
            },
            None => {
                return None;
            },
        }
    }
}

/// The complex selector that a run of tokens is.
fn read_complex(piece: &[CssToken]) -> (r: Option<Complex>)
    ensures
        match r {
            Some(c) => parse_complex(css_tokens_view(piece@)) == Some(c@),
            None => parse_complex(css_tokens_view(piece@)) is None,
        },
{
    let from = pass_ws(piece, 0);
    let to = pass_ws_back(piece, piece.len());
    let (a, b) = if from < to {
        (from, to)
    } else {
        (0, 0)
    };
    let inner = slice_subrange(piece, a, b);
    assert(css_tokens_view(inner@) =~= trim_ws(css_tokens_view(piece@)));
    match read_steps(inner) {
        Some(steps) => Some(Complex { steps }),
        None => None,
    }
}

/// The place of the first comma from a place on.
fn find_comma(t: &[CssToken], from: usize) -> (r: usize)
    requires
        from <= t.len(),
    ensures
        r == first_comma(css_tokens_view(t@), from as int),
        from <= r <= t.len(),
{
    let mut i: usize = from;
    while i < t.len() && !delim_at(t, i, ',')
        invariant
            from <= i <= t.len(),
            first_comma(css_tokens_view(t@), from as int) == first_comma(
                css_tokens_view(t@),
                i as int,
            ),
        decreases t.len() - i,
    {
        i += 1;
    }
    i
}

/// The complex selectors that commas part a run of tokens into.
fn read_list(t: &[CssToken]) -> (r: Option<Vec<Complex>>)
    ensures
        match r {
            Some(list) => parse_list(css_tokens_view(t@)) == Some(list_view(list@)),
            None => parse_list(css_tokens_view(t@)) is None,
        },
{
    let ghost tv = css_tokens_view(t@);
    let n = t.len();
    let mut out: Vec<Complex> = Vec::new();
    let mut i: usize = 0;
    proof {
        assert(tv.skip(0) == tv);
        match parse_list(tv) {
            Some(rest) => {
                assert(list_view(out@) + rest =~= rest);
            },
            None => {},
        }
    }
    loop
        invariant
            i <= n,
            n == t.len(),
            tv == css_tokens_view(t@),
            parse_list(tv) == match parse_list(tv.skip(i as int)) {
                Some(rest) => Some(list_view(out@) + rest),
                None => None,
            },
        decreases n - i,
    {
        let rest = slice_subrange(t, i, n);
        assert(css_tokens_view(rest@) =~= tv.skip(i as int));
        let len = find_comma(rest, 0);
        let piece = slice_subrange(rest, 0, len);
        assert(css_tokens_view(piece@) =~= tv.skip(i as int).take(len as int));
        let complex = match read_complex(piece) {
            Some(c) => c,
            None => {
                return None;
            },
        };
        let ghost before = list_view(out@);
        out.push(complex);
        assert(list_view(out@) =~= before.push(complex@));
        if len >= rest.len() {
            assert(before + seq![complex@] =~= list_view(out@));
            return Some(out);
        }
        proof {
            assert(tv.skip(i as int).skip(len + 1) =~= tv.skip(i + len + 1));
            match parse_list(tv.skip(i + len + 1)) {
                Some(tail) => {
                    assert(before + (seq![complex@] + tail) =~= list_view(out@) + tail);
                },
                None => {},
            }
        }
        i = i + len + 1;
    }
}

/// A text that is no selector list.
#[derive(Debug, Clone, Copy, PartialEq, Eq, Structural)]
pub struct SelectorParseError;

impl Selector {
    /// Reads a selector list. Fails on every text that the grammar does not
    /// take, and on no other.
    pub fn new(s: &str) -> (r: Result<Selector, SelectorParseError>)
        ensures
            match r {
                Ok(selector) => parse_selector(s@) == Some(selector@),
                Err(_) => parse_selector(s@) is None,
            },
    {
        let chars = chars_of(s);
        let tokens = match tokenize(chars.as_slice()) {
            Some(t) => t,
            None => {
                return Err(SelectorParseError);
            },
        };
        match read_list(tokens.as_slice()) {
            Some(list) => Ok(Selector(list)),
            None => Err(SelectorParseError),
        }
    }
}

/// A run of name characters in a text is the same run in the text with
/// more behind it, where what comes behind starts with no name character.
proof fn lemma_name_run_stable(a: Seq<char>, x: Seq<char>, i: int)
    requires
        0 <= i <= a.len(),
        x.len() > 0,
        !is_name_char(x[0]),
    ensures
        name_run(a + x, i) == name_run(a, i),
    decreases a.len() - i,
{
    if i < a.len() {
        assert((a + x)[i] == a[i]);
        if is_name_char(a[i]) {
            lemma_name_run_stable(a, x, i + 1);
        }
    } else {
        assert((a + x)[i] == x[0]);
    }
}

/// A string that ends in a text ends at the same place in the text with
/// more behind it.
proof fn lemma_string_end_stable(a: Seq<char>, x: Seq<char>, i: int, quote: char)
    requires
        0 <= i,
        string_end(a, i, quote) is Some,
    ensures
        string_end(a + x, i, quote) == string_end(a, i, quote),
    decreases a.len() - i,
{
    if i < a.len() {
        assert((a + x)[i] == a[i]);
        if a[i] != quote && a[i] != '\n' && a[i] != '\\' {
            lemma_string_end_stable(a, x, i + 1, quote);
        }
    }
}

/// A block that ends in a text ends at the same place in the text with
/// more behind it.
proof fn lemma_block_end_stable(a: Seq<char>, x: Seq<char>, i: int, depth: nat)
    requires
        0 <= i,
        block_end(a, i, depth) is Some,
    ensures
        block_end(a + x, i, depth) == block_end(a, i, depth),
    decreases a.len() - i,
{
    if i < a.len() {
        assert((a + x)[i] == a[i]);
        if a[i] == '(' {
            lemma_block_end_stable(a, x, i + 1, depth + 1);
        } else if a[i] == ')' {
            if depth > 1 {
                lemma_block_end_stable(a, x, i + 1, (depth - 1) as nat);
            }
        } else {
            lemma_block_end_stable(a, x, i + 1, depth);
        }
    }
}

/// The first token of a text is the first token of the text with a comma
/// and more behind it.
proof fn lemma_first_token_stable(a: Seq<char>, x: Seq<char>)
    requires
        a.len() > 0,
        x.len() > 0,
        x[0] == ',',
        first_token(a) is Some,
    ensures
        first_token(a + x) == first_token(a),
{
    let s = a + x;
    let c = a[0];
    assert(s[0] == c);
    lemma_name_run_stable(a, x, 0);
    lemma_name_run_bound(a, 0);
    if a.len() > 1 {
        assert(s[1] == a[1]);
        lemma_name_run_stable(a, x, 1);
        lemma_name_run_bound(a, 1);
    } else {
        assert(s[1] == x[0]);
    }
    if is_selector_space(c) {
    } else if c == '"' || c == '\'' {
        lemma_string_end_stable(a, x, 1, c);
        lemma_string_end_bound(a, 1, c);
        assert(s.subrange(1, string_end(a, 1, c)->0) =~= a.subrange(1, string_end(a, 1, c)->0));
    } else if c == '#' && a.len() > 1 && is_name_char(a[1]) {
        assert(s.subrange(1, 1 + name_run(a, 1)) =~= a.subrange(1, 1 + name_run(a, 1)));
    } else if starts_ident(a) {
        assert(starts_ident(s));
        assert(s.subrange(0, name_run(a, 0)) =~= a.subrange(0, name_run(a, 0)));
    } else if c == '(' {
        assert(!starts_ident(s));
        lemma_block_end_stable(a, x, 1, 1);
    } else {
        assert(!starts_ident(s));
    }
}

/// The tokens of a text with a comma and more behind it are the tokens of
/// the text and then the tokens of what is behind it.
pub proof fn lemma_lex_concat(a: Seq<char>, x: Seq<char>)
    requires
        x.len() > 0,
        x[0] == ',',
        lex(a) is Some,
    ensures
        lex(a + x) == match lex(x) {
            Some(tx) => Some(lex(a)->0 + tx),
            None => None,
        },
    decreases a.len(),
{
    if a.len() == 0 {
        assert(a + x =~= x);
        match lex(x) {
            Some(tx) => {
                assert(lex(a)->0 + tx =~= tx);
            },
            None => {},
        }
    } else {
        lemma_first_token_stable(a, x);
        lemma_first_token_bound(a);
        let (t, n) = first_token(a)->0;
        assert((a + x).skip(n) =~= a.skip(n) + x);
        lemma_lex_concat(a.skip(n), x);
        match lex(x) {
            Some(tx) => {
                let rest = lex(a.skip(n))->0;
                assert(seq![t] + (rest + tx) =~= (seq![t] + rest) + tx);
            },
            None => {},
        }
    }
}

/// The tokens of a comma, a space and a text are a comma, white space, and
/// the tokens of the text.
pub proof fn lemma_lex_separator(b: Seq<char>)
    ensures
        lex(seq![',', ' '] + b) == match lex(b) {
            Some(tb) => Some(
                seq![CssTokenView::Delim(','), CssTokenView::Whitespace] + tb,
            ),
            None => None,
        },
{
    let s = seq![',', ' '] + b;
    assert(s[0] == ',' && s[1] == ' ');
    assert(first_token(s) == Some((CssTokenView::Delim(','), 1int)));
    let s1 = s.skip(1);
    assert(s1[0] == ' ');
    assert(first_token(s1) == Some((CssTokenView::Whitespace, 1int)));
    assert(s1.skip(1) =~= b);
    assert(lex(s1) == match lex(b) {
        Some(tb) => Some(seq![CssTokenView::Whitespace] + tb),
        None => None,
    });
    match lex(b) {
        Some(tb) => {
            assert(seq![CssTokenView::Delim(',')] + (seq![CssTokenView::Whitespace] + tb) =~= seq![
                CssTokenView::Delim(','),
                CssTokenView::Whitespace,
            ] + tb);
        },
        None => {},
    }
}

/// Skipping white space in a run of tokens with one token before it.
proof fn lemma_skip_ws_shift(w: CssTokenView, p: Seq<CssTokenView>, i: int)
    requires
        0 <= i <= p.len(),
    ensures
        skip_ws(seq![w] + p, i + 1) == 1 + skip_ws(p, i),
    decreases p.len() - i,
{
    let q = seq![w] + p;
    if i < p.len() {
        assert(q[i + 1] == p[i]);
        if is_ws(p, i) {
            lemma_skip_ws_shift(w, p, i + 1);
        }
    }
}

/// Skipping white space backwards in a run of tokens with white space
/// before it.
proof fn lemma_skip_ws_back_shift(p: Seq<CssTokenView>, i: int)
    requires
        0 <= i <= p.len(),
    ensures
        skip_ws_back(seq![CssTokenView::Whitespace] + p, i + 1) == if skip_ws_back(p, i) == 0 {
            0
        } else {
            1 + skip_ws_back(p, i)
        },
        0 <= skip_ws_back(p, i) <= i,
    decreases i,
{
    let q = seq![CssTokenView::Whitespace] + p;
    if i > 0 {
        assert(q[i] == p[i - 1]);
        if is_ws(p, i - 1) {
            lemma_skip_ws_back_shift(p, i - 1);
        }
    } else {
        assert(q[0] is Whitespace);
        assert(skip_ws_back(q, 1) == skip_ws_back(q, 0));
    }
}

/// Skipping white space stays within the run.
proof fn lemma_skip_ws_bound(p: Seq<CssTokenView>, i: int)
    requires
        0 <= i <= p.len(),
    ensures
        i <= skip_ws(p, i) <= p.len(),
    decreases p.len() - i,
{
    if is_ws(p, i) {
        lemma_skip_ws_bound(p, i + 1);
    }
}

/// White space before a run of tokens does not change the complex selector
/// that the run is.
pub proof fn lemma_complex_leading_ws(p: Seq<CssTokenView>)
    ensures
        parse_complex(seq![CssTokenView::Whitespace] + p) == parse_complex(p),
{
    let q = seq![CssTokenView::Whitespace] + p;
    assert(q[0] is Whitespace);
    lemma_skip_ws_shift(CssTokenView::Whitespace, p, 0);
    lemma_skip_ws_back_shift(p, p.len() as int);
    lemma_skip_ws_bound(p, 0);
    let from = skip_ws(p, 0);
    let to = skip_ws_back(p, p.len() as int);
    assert(skip_ws(q, 0) == 1 + from);
    if from < to {
        assert(q.subrange(1 + from, 1 + to) =~= p.subrange(from, to));
    }
    assert(trim_ws(q) =~= trim_ws(p));
}

/// The first comma of a run of tokens with one token, no comma, before it.
proof fn lemma_first_comma_shift(w: CssTokenView, p: Seq<CssTokenView>, i: int)
    requires
        0 <= i <= p.len(),
    ensures
        first_comma(seq![w] + p, i + 1) == 1 + first_comma(p, i),
        i <= first_comma(p, i) <= p.len(),
    decreases p.len() - i,
{
    let q = seq![w] + p;
    if i < p.len() {
        assert(q[i + 1] == p[i]);
        if p[i] != CssTokenView::Delim(',') {
            lemma_first_comma_shift(w, p, i + 1);
        }
    }
}

/// White space before a run of tokens does not change the selector list
/// that the run is.
pub proof fn lemma_list_leading_ws(p: Seq<CssTokenView>)
    ensures
        parse_list(seq![CssTokenView::Whitespace] + p) == parse_list(p),
{
    let q = seq![CssTokenView::Whitespace] + p;
    assert(q[0] == CssTokenView::Whitespace);
    lemma_first_comma_shift(CssTokenView::Whitespace, p, 0);
    let n = first_comma(p, 0);
    assert(first_comma(q, 0) == 1 + n);
    assert(q.take(1 + n) =~= seq![CssTokenView::Whitespace] + p.take(n));
    lemma_complex_leading_ws(p.take(n));
    if n < p.len() {
        assert(q.skip(n + 2) =~= p.skip(n + 1));
    }
}

/// The first comma of a run of tokens with a comma and more behind it.
proof fn lemma_first_comma_concat(u: Seq<CssTokenView>, y: Seq<CssTokenView>, i: int)
    requires
        0 <= i <= u.len(),
    ensures
        first_comma(u + seq![CssTokenView::Delim(',')] + y, i) == first_comma(u, i),
        i <= first_comma(u, i) <= u.len(),
    decreases u.len() - i,
{
    let q = u + seq![CssTokenView::Delim(',')] + y;
    if i < u.len() {
        assert(q[i] == u[i]);
        if u[i] != CssTokenView::Delim(',') {
            lemma_first_comma_concat(u, y, i + 1);
        }
    } else {
        assert(q[i] == CssTokenView::Delim(','));
    }
}

/// Two runs of tokens with a comma between them are the selector list of
/// the first and then the selector list of the second.
pub proof fn lemma_list_concat(u: Seq<CssTokenView>, y: Seq<CssTokenView>)
    requires
        parse_list(u) is Some,
        parse_list(y) is Some,
    ensures
        parse_list(u + seq![CssTokenView::Delim(',')] + y) == Some(
            parse_list(u)->0 + parse_list(y)->0,
        ),
    decreases u.len(),
{
    let q = u + seq![CssTokenView::Delim(',')] + y;
    lemma_first_comma_concat(u, y, 0);
    let n = first_comma(u, 0);
    assert(q.take(n) =~= u.take(n));
    let c = parse_complex(u.take(n))->0;
    if n >= u.len() {
        assert(q.skip(n + 1) =~= y);
    } else {
        assert(q.skip(n + 1) =~= u.skip(n + 1) + seq![CssTokenView::Delim(',')] + y);
        lemma_list_concat(u.skip(n + 1), y);
        let rest = parse_list(u.skip(n + 1))->0;
        assert(seq![c] + (rest + parse_list(y)->0) =~= (seq![c] + rest) + parse_list(y)->0);
    }
}

/// Two selector lists written one behind the other with `, ` between them
/// are one list: the first list and then the second.
pub proof fn lemma_selector_concat(a: Seq<char>, b: Seq<char>)
    requires
        parse_selector(a) is Some,
        parse_selector(b) is Some,
    ensures
        parse_selector(a + seq![',', ' '] + b) == Some(
            parse_selector(a)->0 + parse_selector(b)->0,
        ),
{
    let x = seq![',', ' '] + b;
    assert(x[0] == ',');
    lemma_lex_concat(a, x);
    lemma_lex_separator(b);
    let ta = lex(a)->0;
    let tb = lex(b)->0;
    let y = seq![CssTokenView::Whitespace] + tb;
    assert(a + seq![',', ' '] + b =~= a + x);
    assert(ta + (seq![CssTokenView::Delim(','), CssTokenView::Whitespace] + tb) =~= ta + seq![
        CssTokenView::Delim(','),
    ] + y);
    lemma_list_leading_ws(tb);
    lemma_list_concat(ta, y);
}

/// The text `*` is the selector list that matches every element.
pub proof fn lemma_parse_universal()
    ensures
        parse_selector("*"@) == Some(universal()),
{
    reveal_strlit("*");
    let s = "*"@;
    assert(s.len() == 1 && s[0] == '*');
    assert(first_token(s) == Some((CssTokenView::Delim('*'), 1int)));
    assert(s.skip(1).len() == 0);
    assert(lex(s.skip(1)) == Some(Seq::<CssTokenView>::empty()));
    let t = seq![CssTokenView::Delim('*')];
    assert(seq![CssTokenView::Delim('*')] + Seq::<CssTokenView>::empty() =~= t);
    assert(lex(s) == Some(t));
    assert(first_comma(t, 1) == 1);
    assert(first_comma(t, 0) == 1);
    assert(t.take(1) =~= t);
    assert(skip_ws(t, 0) == 0);
    assert(skip_ws_back(t, 1) == 1);
    assert(trim_ws(t) =~= t);
    assert(name_or_star(t, 0) == Some(None::<Seq<char>>));
    assert(parse_type(t, 0) == Some((SimpleView::Type { ns: None, name: None }, 1int)));
    assert(parse_simples(t, 1) == Some((Seq::<SimpleView>::empty(), 1int)));
    let compound = seq![SimpleView::Type { ns: None, name: None }];
    assert(seq![SimpleView::Type { ns: None, name: None }] + Seq::<SimpleView>::empty()
        =~= compound);
    assert(parse_compound(t, 0) == Some((compound, 1int)));
    let step = StepView { combinator: Combinator::Descendant, compound };
    assert(parse_steps(t, 0, Combinator::Descendant) == Some(seq![step]));
    assert(parse_complex(t) == Some(seq![step]));
    assert(parse_list(t) == Some(seq![seq![step]]));
    assert(seq![seq![step]] =~= universal());
    assert(universal()[0] =~= seq![step]);
}

/// What the text `*` matches from the top of a document is every element
/// of the document.
pub proof fn lemma_star_matches_all(v: DocumentView)
    requires
        v.wf(),
    ensures
        parse_selector("*"@) is Some,
        match_all_spec(v, parse_selector("*"@)->0, 0) == v.descendents(0),
{
    lemma_parse_universal();
    crate::select::lemma_universal_matches_all(v, 0);
}

/// What two selector lists written one behind the other with `, ` between
/// them match is what the one matches together with what the other matches.
pub proof fn lemma_comma_is_union(
    v: DocumentView,
    a: Seq<char>,
    b: Seq<char>,
    from: int,
    e: ElementView,
)
    requires
        parse_selector(a) is Some,
        parse_selector(b) is Some,
    ensures
        parse_selector(a + ", "@ + b) is Some,
        match_all_spec(v, parse_selector(a + ", "@ + b)->0, from).contains(e) <==> (
        match_all_spec(v, parse_selector(a)->0, from).contains(e) || match_all_spec(
            v,
            parse_selector(b)->0,
            from,
        ).contains(e)),
{
    reveal_strlit(", ");
    assert(", "@ =~= seq![',', ' ']);
    lemma_selector_concat(a, b);
    lemma_match_all_union(v, parse_selector(a)->0, parse_selector(b)->0, from, e);
}

/// The text `r > a` is the selector list of one complex selector: the
/// elements named `a` whose parent is an element named `r`.
pub proof fn lemma_parse_child_of()
    ensures
        parse_selector("r > a"@) == Some(
            seq![
                seq![
                    StepView {
                        combinator: Combinator::Descendant,
                        compound: seq![SimpleView::Type { ns: None, name: Some(seq!['r']) }],
                    },
                    StepView {
                        combinator: Combinator::Child,
                        compound: seq![SimpleView::Type { ns: None, name: Some(seq!['a']) }],
                    },
                ],
            ],
        ),
{
    reveal_strlit("r > a");
    let s = "r > a"@;
    assert(s.len() == 5 && s[0] == 'r' && s[1] == ' ' && s[2] == '>' && s[3] == ' ' && s[4] == 'a');
    let r = CssTokenView::Ident(seq!['r']);
    let a = CssTokenView::Ident(seq!['a']);
    let w = CssTokenView::Whitespace;
    let gt = CssTokenView::Delim('>');
    // The tokens, from the last to the first.
    let s5 = s.skip(5);
    assert(s5.len() == 0);
    assert(lex(s5) == Some(Seq::<CssTokenView>::empty()));
    let s4 = s.skip(4);
    assert(s4.len() == 1 && s4[0] == 'a');
    assert(name_run(s4, 1) == 0);
    assert(name_run(s4, 0) == 1);
    assert(s4.subrange(0, 1) =~= seq!['a']);
    assert(first_token(s4) == Some((a, 1int)));
    assert(s4.skip(1) =~= s5);
    assert(seq![a] + Seq::<CssTokenView>::empty() =~= seq![a]);
    assert(lex(s4) == Some(seq![a]));
    let s3 = s.skip(3);
    assert(s3.len() == 2 && s3[0] == ' ');
    assert(first_token(s3) == Some((w, 1int)));
    assert(s3.skip(1) =~= s4);
    assert(seq![w] + seq![a] =~= seq![w, a]);
    assert(lex(s3) == Some(seq![w, a]));
    let s2 = s.skip(2);
    assert(s2.len() == 3 && s2[0] == '>' && s2[1] == ' ');
    assert(!starts_ident(s2));
    assert(first_token(s2) == Some((gt, 1int)));
    assert(s2.skip(1) =~= s3);
    assert(seq![gt] + seq![w, a] =~= seq![gt, w, a]);
    assert(lex(s2) == Some(seq![gt, w, a]));
    let s1 = s.skip(1);
    assert(s1.len() == 4 && s1[0] == ' ');
    assert(first_token(s1) == Some((w, 1int)));
    assert(s1.skip(1) =~= s2);
    assert(seq![w] + seq![gt, w, a] =~= seq![w, gt, w, a]);
    assert(lex(s1) == Some(seq![w, gt, w, a]));
    assert(name_run(s, 1) == 0);
    assert(name_run(s, 0) == 1);
    assert(s.subrange(0, 1) =~= seq!['r']);
    assert(starts_ident(s));
    assert(first_token(s) == Some((r, 1int)));
    assert(seq![r] + seq![w, gt, w, a] =~= seq![r, w, gt, w, a]);
    let t = seq![r, w, gt, w, a];
    assert(lex(s) == Some(t));
    // The list: no comma, so one complex selector of all tokens.
    assert(t.len() == 5 && t[0] == r && t[1] == w && t[2] == gt && t[3] == w && t[4] == a);
    assert(first_comma(t, 5) == 5);
    assert(first_comma(t, 4) == 5);
    assert(first_comma(t, 3) == 5);
    assert(first_comma(t, 2) == 5);
    assert(first_comma(t, 1) == 5);
    assert(first_comma(t, 0) == 5);
    assert(t.take(5) =~= t);
    assert(skip_ws(t, 0) == 0);
    assert(skip_ws_back(t, 5) == 5);
    assert(trim_ws(t) =~= t);
    // The second compound.
    assert(name_or_star(t, 4) == Some(Some(seq!['a'])));
    assert(!is_delim(t, 5, '|'));
    assert(parse_type(t, 4) == Some((SimpleView::Type { ns: None, name: Some(seq!['a']) }, 5int)));
    assert(parse_simples(t, 5) == Some((Seq::<SimpleView>::empty(), 5int)));
    let ca = seq![SimpleView::Type { ns: None, name: Some(seq!['a']) }];
    assert(ca + Seq::<SimpleView>::empty() =~= ca);
    assert(parse_compound(t, 4) == Some((ca, 5int)));
    let step_a = StepView { combinator: Combinator::Child, compound: ca };
    assert(parse_steps(t, 4, Combinator::Child) == Some(seq![step_a]));
    // The combinator between the two.
    assert(skip_ws(t, 2) == 2);
    assert(skip_ws(t, 1) == 2);
    assert(skip_ws(t, 4) == 4);
    assert(skip_ws(t, 3) == 4);
    assert(parse_combinator(t, 1) == Some((Combinator::Child, 4int)));
    // The first compound.
    assert(name_or_star(t, 0) == Some(Some(seq!['r'])));
    assert(!is_delim(t, 1, '|'));
    assert(!is_delim(t, 0, '|'));
    assert(parse_type(t, 0) == Some((SimpleView::Type { ns: None, name: Some(seq!['r']) }, 1int)));
    assert(!starts_simple(t, 1));
    assert(parse_simples(t, 1) == Some((Seq::<SimpleView>::empty(), 1int)));
    let cr = seq![SimpleView::Type { ns: None, name: Some(seq!['r']) }];
    assert(cr + Seq::<SimpleView>::empty() =~= cr);
    assert(parse_compound(t, 0) == Some((cr, 1int)));
    let step_r = StepView { combinator: Combinator::Descendant, compound: cr };
    assert(seq![step_r] + seq![step_a] =~= seq![step_r, step_a]);
    assert(parse_steps(t, 0, Combinator::Descendant) == Some(seq![step_r, step_a]));
    assert(parse_complex(t) == Some(seq![step_r, step_a]));
    assert(parse_list(t) == Some(seq![seq![step_r, step_a]]));
}

/// The text `[id='y']` is the selector list of one complex selector: the
/// elements whose attribute `id`, without a namespace, has the value `y`.
pub proof fn lemma_parse_attribute_equals()
    ensures
        parse_selector("[id='y']"@) == Some(
            seq![
                seq![
                    StepView {
                        combinator: Combinator::Descendant,
                        compound: seq![
                            SimpleView::Attribute {
                                ns: None,
                                name: seq!['i', 'd'],
                                test: AttrTestView::Value {
                                    op: AttrOperator::Equal,
                                    value: seq!['y'],
                                    ignore_case: false,
                                },
                            },
                        ],
                    },
                ],
            ],
        ),
{
    reveal_strlit("[id='y']");
    let s = "[id='y']"@;
    assert(s.len() == 8 && s[0] == '[' && s[1] == 'i' && s[2] == 'd' && s[3] == '=');
    assert(s[4] == '\'' && s[5] == 'y' && s[6] == '\'' && s[7] == ']');
    let lb = CssTokenView::Delim('[');
    let id = CssTokenView::Ident(seq!['i', 'd']);
    let eq = CssTokenView::Delim('=');
    let y = CssTokenView::Str(seq!['y']);
    let rb = CssTokenView::Delim(']');
    // The tokens, from the last to the first.
    let s8 = s.skip(8);
    assert(s8.len() == 0);
    assert(lex(s8) == Some(Seq::<CssTokenView>::empty()));
    let s7 = s.skip(7);
    assert(s7.len() == 1 && s7[0] == ']');
    assert(!starts_ident(s7));
    assert(first_token(s7) == Some((rb, 1int)));
    assert(s7.skip(1) =~= s8);
    assert(seq![rb] + Seq::<CssTokenView>::empty() =~= seq![rb]);
    assert(lex(s7) == Some(seq![rb]));
    let s4 = s.skip(4);
    assert(s4.len() == 4 && s4[0] == '\'' && s4[1] == 'y' && s4[2] == '\'');
    assert(string_end(s4, 2, '\'') == Some(2int));
    assert(string_end(s4, 1, '\'') == Some(2int));
    assert(s4.subrange(1, 2) =~= seq!['y']);
    assert(first_token(s4) == Some((y, 3int)));
    assert(s4.skip(3) =~= s7);
    assert(seq![y] + seq![rb] =~= seq![y, rb]);
    assert(lex(s4) == Some(seq![y, rb]));
    let s3 = s.skip(3);
    assert(s3.len() == 5 && s3[0] == '=' && s3[1] == '\'');
    assert(!starts_ident(s3));
    assert(first_token(s3) == Some((eq, 1int)));
    assert(s3.skip(1) =~= s4);
    assert(seq![eq] + seq![y, rb] =~= seq![eq, y, rb]);
    assert(lex(s3) == Some(seq![eq, y, rb]));
    let s1 = s.skip(1);
    assert(s1.len() == 7 && s1[0] == 'i' && s1[1] == 'd' && s1[2] == '=');
    assert(name_run(s1, 2) == 0);
    assert(name_run(s1, 1) == 1);
    assert(name_run(s1, 0) == 2);
    assert(starts_ident(s1));
    assert(s1.subrange(0, 2) =~= seq!['i', 'd']);
    assert(first_token(s1) == Some((id, 2int)));
    assert(s1.skip(2) =~= s3);
    assert(seq![id] + seq![eq, y, rb] =~= seq![id, eq, y, rb]);
    assert(lex(s1) == Some(seq![id, eq, y, rb]));
    assert(!starts_ident(s));
    assert(first_token(s) == Some((lb, 1int)));
    assert(seq![lb] + seq![id, eq, y, rb] =~= seq![lb, id, eq, y, rb]);
    let t = seq![lb, id, eq, y, rb];
    assert(lex(s) == Some(t));
    // The list: no comma, so one complex selector of all tokens.
    assert(t.len() == 5 && t[0] == lb && t[1] == id && t[2] == eq && t[3] == y && t[4] == rb);
    assert(first_comma(t, 5) == 5);
    assert(first_comma(t, 4) == 5);
    assert(first_comma(t, 3) == 5);
    assert(first_comma(t, 2) == 5);
    assert(first_comma(t, 1) == 5);
    assert(first_comma(t, 0) == 5);
    assert(t.take(5) =~= t);
    assert(skip_ws(t, 0) == 0);
    assert(skip_ws_back(t, 5) == 5);
    assert(trim_ws(t) =~= t);
    // The attribute selector.
    assert(skip_ws(t, 1) == 1);
    assert(ident_at(t, 1) == Some(seq!['i', 'd']));
    assert(!is_delim(t, 2, '|'));
    assert(!is_delim(t, 1, '*'));
    assert(!is_delim(t, 1, '|'));
    assert(parse_attr_name(t, 1) == Some((None::<Seq<char>>, seq!['i', 'd'], 2int)));
    assert(skip_ws(t, 2) == 2);
    assert(!is_delim(t, 2, ']'));
    assert(parse_operator(t, 2) == Some((AttrOperator::Equal, 3int)));
    assert(skip_ws(t, 3) == 3);
    assert(value_at(t, 3) == Some(seq!['y']));
    assert(skip_ws(t, 4) == 4);
    assert(ident_at(t, 4) is None);
    let test = AttrTestView::Value { op: AttrOperator::Equal, value: seq!['y'], ignore_case: false };
    assert(parse_attr_test(t, 2) == Some((test, 5int)));
    let attr = SimpleView::Attribute { ns: None, name: seq!['i', 'd'], test };
    assert(parse_attr(t, 0) == Some((attr, 5int)));
    assert(parse_simple(t, 0) == Some((attr, 5int)));
    assert(parse_simples(t, 5) == Some((Seq::<SimpleView>::empty(), 5int)));
    assert(seq![attr] + Seq::<SimpleView>::empty() =~= seq![attr]);
    assert(starts_simple(t, 0));
    assert(parse_simples(t, 0) == Some((seq![attr], 5int)));
    assert(name_or_star(t, 0) is None);
    assert(!is_delim(t, 0, '|'));
    assert(parse_type(t, 0) is None);
    assert(parse_compound(t, 0) == Some((seq![attr], 5int)));
    let step = StepView { combinator: Combinator::Descendant, compound: seq![attr] };
    assert(parse_steps(t, 0, Combinator::Descendant) == Some(seq![step]));
    assert(parse_complex(t) == Some(seq![step]));
    assert(parse_list(t) == Some(seq![seq![step]]));
}

} // verus!
