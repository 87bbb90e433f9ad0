//! Writing a document back out as XML text.

use unic_ucd::GeneralCategory;
use vstd::prelude::*;

use crate::document::{DocumentDb, DocumentView, NodeType};
use crate::model::{attrs_view, text_or_empty, Attr, AttrView};
use crate::text::{chars_of, string_of};

verus! {

/// How the characters that XML reserves are written.
#[derive(Debug, Clone, Copy, PartialEq, Eq, Structural)]
pub enum EntityMode {
    /// By name: `&amp;`, `&lt;`, `&gt;`, and in attribute values `&apos;`
    /// and `&quot;`.
    Standard,
    /// By number, as every other character reference.
    Hex,
}

impl Default for EntityMode {
    fn default() -> (r: EntityMode)
        ensures
            r == EntityMode::Standard,
    {
        EntityMode::Standard
    }
}

/// How a document is written.
#[derive(Debug, Clone, Copy)]
pub struct Config {
    /// Nested elements are indented.
    pub is_pretty: bool,
    /// How many spaces one level of nesting indents by.
    pub indent: usize,
    /// How wide the name of an empty element without attributes is written,
    /// and how many spaces stand before the `/>` of one with attributes.
    pub end_pad: usize,
    /// The width above which attributes go on lines of their own.
    pub max_line_length: usize,
    pub entity_mode: EntityMode,
    /// Text stands on lines of its own, indented as elements are.
    pub indent_text_nodes: bool,
}

impl Default for Config {
    fn default() -> (r: Config)
        ensures
            r == (Config {
                is_pretty: false,
                indent: 0,
                end_pad: 0,
                max_line_length: 0,
                entity_mode: EntityMode::Standard,
                indent_text_nodes: false,
            }),
    {
        Config {
            is_pretty: false,
            indent: 0,
            end_pad: 0,
            max_line_length: 0,
            entity_mode: EntityMode::Standard,
            indent_text_nodes: false,
        }
    }
}

impl Config {
    /// Indented by two spaces, lines of up to 120 characters, text on lines
    /// of its own.
    pub fn default_pretty() -> (r: Config)
        ensures
            r == (Config {
                is_pretty: true,
                indent: 2,
                end_pad: 1,
                max_line_length: 120,
                entity_mode: EntityMode::Standard,
                indent_text_nodes: true,
            }),
    {
        Config {
            is_pretty: true,
            indent: 2,
            end_pad: 1,
            max_line_length: 120,
            entity_mode: EntityMode::Standard,
            indent_text_nodes: true,
        }
    }
}

/// Where the writer stands: whether what it writes goes on lines of its
/// own, and how far those lines are indented.
#[derive(Debug, Clone, Copy)]
pub struct State {
    pub is_pretty: bool,
    pub indent: usize,
}

/// Whether Unicode gives a character a general category of separators: a
/// space, a line or a paragraph separator.
pub uninterp spec fn is_separator_char(c: char) -> bool;

/// Whether Unicode gives a character one of the general categories that it
/// calls other: control, format, surrogate, private use, unassigned.
pub uninterp spec fn is_other_char(c: char) -> bool;

/// Trusted: `is_separator` of `unic_ucd::GeneralCategory::of` the
/// character. The answer depends on the character alone.
#[verifier::external_body]
fn separator_category(c: char) -> (r: bool)
    ensures
        r == is_separator_char(c),
{
    GeneralCategory::of(c).is_separator()
}

/// Trusted: `is_other` of `unic_ucd::GeneralCategory::of` the character.
/// The answer depends on the character alone.
#[verifier::external_body]
fn other_category(c: char) -> (r: bool)
    ensures
        r == is_other_char(c),
{
    GeneralCategory::of(c).is_other()
}

/// A run of spaces.
pub open spec fn spaces(n: int) -> Seq<char> {
    Seq::new(
        if n > 0 {
            n as nat
        } else {
            0
        },
        |i: int| ' ',
    )
}

/// A line break where one is due, nothing elsewhere.
pub open spec fn line_break(due: bool) -> Seq<char> {
    if due {
        seq!['\n']
    } else {
        Seq::empty()
    }
}

/// The upper-case hexadecimal digit of a number below 16.
pub open spec fn hex_digit(d: int) -> char {
    if d < 10 {
        ((48 + d) as u8) as char
    } else {
        ((55 + d) as u8) as char
    }
}

/// A number in upper-case hexadecimal digits, without leading zeros.
pub open spec fn hex_text(n: nat) -> Seq<char>
    decreases n,
{
    if n < 16 {
        seq![hex_digit(n as int)]
    } else {
        hex_text(n / 16).push(hex_digit((n % 16) as int))
    }
}

/// The numeric reference of a character: `&#x`, its code in at least four
/// hexadecimal digits, `;`.
pub open spec fn char_ref(c: char) -> Seq<char> {
    let digits = hex_text(c as u32 as nat);
    seq!['&', '#', 'x'] + Seq::new(
        if digits.len() < 4 {
            (4 - digits.len()) as nat
        } else {
            0
        },
        |i: int| '0',
    ) + digits + seq![';']
}

/// Whether a character is white space of ASCII: space, tab, line feed, form
/// feed, carriage return.
pub open spec fn is_ascii_space(c: char) -> bool {
    c == ' ' || c == '\t' || c == '\n' || c == '\x0C' || c == '\r'
}

/// Whether a character is written as a reference for what XML makes of it:
/// `&`, `<` and `>` everywhere, `'` and `"` in the value of an attribute.
pub open spec fn is_reserved(c: char, is_text: bool) -> bool {
    c == '&' || c == '<' || c == '>' || (!is_text && (c == '\'' || c == '"'))
}

/// The named reference of one of the five characters that have one.
pub open spec fn entity_of(c: char) -> Seq<char> {
    if c == '&' {
        "&amp;"@
    } else if c == '<' {
        "&lt;"@
    } else if c == '>' {
        "&gt;"@
    } else if c == '\'' {
        "&apos;"@
    } else {
        "&quot;"@
    }
}

/// Whether a character that XML does not reserve is written as a numeric
/// reference: it is a separator or of an other category, and is neither
/// white space of ASCII nor the no-break space.
pub open spec fn is_hidden(c: char) -> bool {
    (is_separator_char(c) || is_other_char(c)) && !is_ascii_space(c) && c != '\u{a0}'
}

/// How a character is written: a reserved character as its named
/// reference, or as its numeric reference in hexadecimal mode; a hidden
/// character as its numeric reference; every other character as it is.
pub open spec fn escaped_char(c: char, mode: EntityMode, is_text: bool) -> Seq<char> {
    if is_reserved(c, is_text) {
        if mode == EntityMode::Standard {
            entity_of(c)
        } else {
            char_ref(c)
        }
    } else if is_hidden(c) {
        char_ref(c)
    } else {
        seq![c]
    }
}

/// How a text is written: every character as [`escaped_char`] gives it.
pub open spec fn escaped(s: Seq<char>, mode: EntityMode, is_text: bool) -> Seq<char>
    decreases s.len(),
{
    if s.len() == 0 {
        Seq::empty()
    } else {
        escaped(s.drop_last(), mode, is_text) + escaped_char(s.last(), mode, is_text)
    }
}

/// Appends a text.
fn push_str(out: &mut Vec<char>, s: &str)
    ensures
        final(out)@ == old(out)@ + s@,
{
    let chars = chars_of(s);
    push_chars(out, chars.as_slice());
}

/// Appends characters.
fn push_chars(out: &mut Vec<char>, s: &[char])
    ensures
        final(out)@ == old(out)@ + s@,
{
    let mut i: usize = 0;
    while i < s.len()
        invariant
            i <= s.len(),
            out@ == old(out)@ + s@.take(i as int),
        decreases s.len() - i,
    {
        out.push(s[i]);
        assert(old(out)@ + s@.take(i + 1) =~= (old(out)@ + s@.take(i as int)).push(s@[i as int]));
        i += 1;
    }
    assert(s@.take(i as int) == s@);
}

/// Appends a run of one character.
fn push_repeated(out: &mut Vec<char>, c: char, n: usize)
    ensures
        final(out)@ == old(out)@ + Seq::new(n as nat, |i: int| c),
{
    let mut i: usize = 0;
    while i < n
        invariant
            i <= n,
            out@ == old(out)@ + Seq::new(i as nat, |k: int| c),
        decreases n - i,
    {
        out.push(c);
        assert(old(out)@ + Seq::new((i + 1) as nat, |k: int| c) =~= (old(out)@ + Seq::new(
            i as nat,
            |k: int| c,
        )).push(c));
        i += 1;
    }
}

/// Appends a run of spaces.
fn push_spaces(out: &mut Vec<char>, n: usize)
    ensures
        final(out)@ == old(out)@ + spaces(n as int),
{
    push_repeated(out, ' ', n);
}

/// Appends a line break where one is due.
fn push_break(out: &mut Vec<char>, due: bool)
    ensures
        final(out)@ == old(out)@ + line_break(due),
{
    if due {
        out.push('\n');
        assert(out@ =~= old(out)@ + line_break(due));
    } else {
        assert(out@ =~= old(out)@ + line_break(due));
    }
}

/// The upper-case hexadecimal digit of a number below 16.
fn digit_of(d: u32) -> (c: char)
    requires
        d < 16,
    ensures
        c == hex_digit(d as int),
{
    if d < 10 {
        ((48 + d) as u8) as char
    } else {
        ((55 + d) as u8) as char
    }
}

/// A number in upper-case hexadecimal digits, without leading zeros.
fn hex_of(n: u32) -> (r: Vec<char>)
    ensures
        r@ == hex_text(n as nat),
        1 <= r.len() <= 8,
    decreases n,
{
    if n < 16 {
        let mut r: Vec<char> = Vec::new();
        r.push(digit_of(n));
        assert(r@ =~= seq![hex_digit(n as int)]);
        r
    } else {
        let mut r = hex_of(n / 16);
        r.push(digit_of(n % 16));
        proof {
            lemma_hex_len(n as nat);
        }
        r
    }
}

/// A number below 16 to the power of `k` has at most `k` digits.
proof fn lemma_hex_len(n: nat)
    ensures
        hex_text(n).len() >= 1,
        n < 0x10 ==> hex_text(n).len() <= 1,
        n < 0x100 ==> hex_text(n).len() <= 2,
        n < 0x1000 ==> hex_text(n).len() <= 3,
        n < 0x10000 ==> hex_text(n).len() <= 4,
        n < 0x100000 ==> hex_text(n).len() <= 5,
        n < 0x1000000 ==> hex_text(n).len() <= 6,
        n < 0x10000000 ==> hex_text(n).len() <= 7,
        n < 0x100000000 ==> hex_text(n).len() <= 8,
    decreases n,
{
    if n >= 16 {
        lemma_hex_len(n / 16);
    }
}

/// Appends the numeric reference of a character.
fn push_char_ref(out: &mut Vec<char>, c: char)
    ensures
        final(out)@ == old(out)@ + char_ref(c),
{
    let digits = hex_of(c as u32);
    out.push('&');
    out.push('#');
    out.push('x');
    let zeros: usize = if digits.len() < 4 {
        4 - digits.len()
    } else {
        0
    };
    let ghost head = out@;
    assert(head =~= old(out)@ + seq!['&', '#', 'x']);
    push_repeated(out, '0', zeros);
    push_chars(out, digits.as_slice());
    out.push(';');
    assert(out@ =~= old(out)@ + char_ref(c));
}

/// Appends a character as it is written.
fn push_escaped_char(out: &mut Vec<char>, c: char, mode: EntityMode, is_text: bool)
    ensures
        final(out)@ == old(out)@ + escaped_char(c, mode, is_text),
{
    let reserved = c == '&' || c == '<' || c == '>' || (!is_text && (c == '\'' || c == '"'));
    let ascii_space = c == ' ' || c == '\t' || c == '\n' || c == '\x0C' || c == '\r';
    if reserved {
        match mode {
            EntityMode::Standard => {
                if c == '&' {
                    push_str(out, "&amp;");
                } else if c == '<' {
                    push_str(out, "&lt;");
                } else if c == '>' {
                    push_str(out, "&gt;");
                } else if c == '\'' {
                    push_str(out, "&apos;");
                } else {
                    push_str(out, "&quot;");
                }
            },
            EntityMode::Hex => {
                push_char_ref(out, c);
            },
        }
    } else if !ascii_space && c != '\u{a0}' && (separator_category(c) || other_category(c)) {
        push_char_ref(out, c);
    } else {
        out.push(c);
        assert(out@ =~= old(out)@ + seq![c]);
    }
}

/// Appends a text as it is written.
fn push_escaped(out: &mut Vec<char>, s: &str, mode: EntityMode, is_text: bool)
    ensures
        final(out)@ == old(out)@ + escaped(s@, mode, is_text),
{
    let chars = chars_of(s);
    let mut i: usize = 0;
    assert(old(out)@ + escaped(chars@.take(0), mode, is_text) =~= old(out)@);
    while i < chars.len()
        invariant
            i <= chars.len(),
            chars@ == s@,
            out@ == old(out)@ + escaped(chars@.take(i as int), mode, is_text),
        decreases chars.len() - i,
    {
        push_escaped_char(out, chars[i], mode, is_text);
        proof {
            assert(chars@.take(i + 1).drop_last() == chars@.take(i as int));
            assert(out@ =~= old(out)@ + escaped(chars@.take(i + 1), mode, is_text));
        }
        i += 1;
    }
    assert(chars@.take(i as int) == chars@);
}

/// A text as it is written: `&`, `<` and `>`, and outside text `'` and
/// `"`, as references; separators and characters of the other categories
/// as numeric references, but for the white space of ASCII and the no-break
/// space; everything else as it is.
pub fn process_entities(input: &str, mode: EntityMode, is_text: bool) -> (r: String)
    ensures
        r@ == escaped(input@, mode, is_text),
{
    let mut out: Vec<char> = Vec::new();
    push_escaped(&mut out, input, mode, is_text);
    assert(Seq::<char>::empty() + escaped(input@, mode, is_text) =~= escaped(
        input@,
        mode,
        is_text,
    ));
    string_of(out.as_slice())
}

/// The sum of two widths, or the greatest width where the sum is greater.
pub open spec fn width_sum(a: usize, b: usize) -> usize {
    if a + b > usize::MAX {
        usize::MAX
    } else {
        (a + b) as usize
    }
}

/// The sum of two widths, or the greatest width where the sum is greater.
fn add_width(a: usize, b: usize) -> (r: usize)
    ensures
        r == width_sum(a, b),
{
    if a > usize::MAX - b {
        usize::MAX
    } else {
        a + b
    }
}

/// The state one level of nesting further in, where the configuration
/// indents at all.
pub open spec fn indented(state: State, config: Config) -> State {
    if config.is_pretty {
        State { is_pretty: state.is_pretty, indent: width_sum(state.indent, config.indent) }
    } else {
        state
    }
}

/// How an attribute is written: its name, `="`, its value, `"`.
pub open spec fn attr_text(a: AttrView, mode: EntityMode) -> Seq<char> {
    a.name + seq!['=', '"'] + escaped(a.value, mode, false) + seq!['"']
}

/// The room that an attribute takes on a line: its name, its value, and
/// four characters more.
pub open spec fn attr_width(a: AttrView) -> int {
    (a.name.len() + a.value.len() + 4) as int
}

/// The room that attributes take on a line.
pub open spec fn attrs_width(attrs: Seq<AttrView>) -> int
    decreases attrs.len(),
{
    if attrs.len() == 0 {
        0
    } else {
        attrs_width(attrs.drop_last()) + attr_width(attrs.last())
    }
}

/// What stands between two attributes: a line break and the indentation of
/// the next level where they go on lines of their own, a space elsewhere.
pub open spec fn attr_separator(on_lines: bool, indent: usize) -> Seq<char> {
    if on_lines {
        seq!['\n'] + spaces(indent as int)
    } else {
        seq![' ']
    }
}

/// Attributes written one behind the other, with a separator between each
/// two.
pub open spec fn attrs_joined(attrs: Seq<AttrView>, separator: Seq<char>, mode: EntityMode) -> Seq<
    char,
>
    decreases attrs.len(),
{
    if attrs.len() == 0 {
        Seq::empty()
    } else if attrs.len() == 1 {
        attr_text(attrs[0], mode)
    } else {
        attrs_joined(attrs.drop_last(), separator, mode) + separator + attr_text(
            attrs.last(),
            mode,
        )
    }
}

/// Whether the attributes of an element go on lines of their own: the
/// writer breaks lines, and the name with all attributes is wider than a
/// line.
pub open spec fn attrs_on_lines(
    tag: Seq<char>,
    attrs: Seq<AttrView>,
    config: Config,
    state: State,
) -> bool {
    state.is_pretty && tag.len() + 2 + attrs_width(attrs) > config.max_line_length
}

/// The attributes of an element as they are written.
pub open spec fn attrs_text(
    tag: Seq<char>,
    attrs: Seq<AttrView>,
    config: Config,
    state: State,
) -> Seq<char> {
    attrs_joined(
        attrs,
        attr_separator(attrs_on_lines(tag, attrs, config, state), indented(state, config).indent),
        config.entity_mode,
    )
}

/// The start of a tag up to and without what closes it: the indentation,
/// `<`, the name, and the attributes if there are any. The first attribute
/// goes on a line of its own where the writer breaks lines and the name
/// with that attribute is wider than a line.
pub open spec fn tag_start(
    tag: Seq<char>,
    attrs: Seq<AttrView>,
    config: Config,
    state: State,
) -> Seq<char> {
    if attrs.len() == 0 {
        spaces(state.indent as int) + seq!['<'] + tag
    } else {
        spaces(state.indent as int) + seq!['<'] + tag + attr_separator(
            state.is_pretty && tag.len() + 2 + attr_width(attrs[0]) > config.max_line_length,
            width_sum(state.indent, config.indent),
        ) + attrs_text(tag, attrs, config, state)
    }
}

/// A name, with spaces before it where it is narrower than a width.
pub open spec fn padded_name(tag: Seq<char>, width: usize) -> Seq<char> {
    spaces(width - tag.len()) + tag
}

/// Whether a list of nodes holds text or CDATA.
pub open spec fn has_text(v: DocumentView, list: Seq<usize>) -> bool {
    exists|k: int|
        0 <= k < list.len() && (v.nodes[#[trigger] list[k] as int].node_type == NodeType::Text
            || v.nodes[list[k] as int].node_type == NodeType::CData)
}

/// The state in which the children of an element are written: no line
/// breaks where text stands among them and text is not to stand on lines
/// of its own; one level further in elsewhere.
pub open spec fn child_state(with_text: bool, config: Config, state: State) -> State {
    if with_text && !config.indent_text_nodes {
        State { is_pretty: false, indent: 0 }
    } else {
        indented(state, config)
    }
}

/// The indentation where what follows goes on a line of its own.
pub open spec fn lead_text(due: bool, indent: usize) -> Seq<char> {
    if due {
        spaces(indent as int)
    } else {
        Seq::empty()
    }
}

/// A body between an opening and a closing text, indented and followed by
/// a line break where it goes on a line of its own.
pub open spec fn framed(
    on_line: bool,
    indent: usize,
    open: Seq<char>,
    body: Seq<char>,
    close: Seq<char>,
) -> Seq<char> {
    lead_text(on_line, indent) + open + body + close + line_break(on_line)
}

/// A node that is no element as it is written. Text and CDATA stand on
/// lines of their own where text is indented, every other on a line of its
/// own where the writer breaks lines.
pub open spec fn leaf_text(
    node_type: NodeType,
    value: Seq<char>,
    config: Config,
    state: State,
) -> Seq<char> {
    let lead = config.indent_text_nodes && state.is_pretty;
    match node_type {
        NodeType::Text => framed(
            lead,
            state.indent,
            ""@,
            escaped(value, config.entity_mode, true),
            ""@,
        ),
        NodeType::CData => framed(lead, state.indent, "<![CDATA["@, value, "]]>"@),
        NodeType::Comment => framed(
            state.is_pretty,
            state.indent,
            "<!--"@,
            escaped(value, config.entity_mode, true),
            "-->"@,
        ),
        NodeType::ProcessingInstruction => framed(
            state.is_pretty,
            state.indent,
            "<?"@,
            value,
            "?>"@,
        ),
        NodeType::Declaration => framed(state.is_pretty, state.indent, "<?xml"@, value, "?>"@)
            + line_break(state.is_pretty),
        NodeType::Doctype => framed(state.is_pretty, state.indent, "<!DOCTYPE"@, value, ">"@),
        _ => Seq::empty(),
    }
}

/// An element without anything under it as it is written: with
/// attributes, the start of the tag, the padding and `/>`; without, the
/// padded name between `<` and `/>`.
pub open spec fn empty_element_text(
    tag: Seq<char>,
    attrs: Seq<AttrView>,
    config: Config,
    state: State,
) -> Seq<char> {
    if attrs.len() > 0 {
        tag_start(tag, attrs, config, state) + spaces(config.end_pad as int) + seq!['/', '>']
            + line_break(state.is_pretty)
    } else {
        spaces(state.indent as int) + seq!['<'] + padded_name(tag, config.end_pad) + seq![
            '/',
            '>',
        ] + line_break(state.is_pretty)
    }
}

/// Whether the tags of an element stand on lines of their own: the writer
/// breaks lines, and text is indented or there is none under the element.
pub open spec fn tags_on_lines(with_text: bool, config: Config, state: State) -> bool {
    (config.indent_text_nodes || !with_text) && state.is_pretty
}

/// The start tag of an element with something under it.
pub open spec fn open_text(
    tag: Seq<char>,
    attrs: Seq<AttrView>,
    config: Config,
    state: State,
    breaks: bool,
) -> Seq<char> {
    tag_start(tag, attrs, config, state) + seq!['>'] + line_break(breaks)
}

/// The end tag of an element.
pub open spec fn close_text(tag: Seq<char>, state: State, breaks: bool) -> Seq<char> {
    lead_text(breaks, state.indent) + seq!['<', '/'] + tag + seq!['>'] + line_break(
        breaks || state.is_pretty,
    )
}

/// A node as it is written, with all that stands under it.
pub open spec fn node_text(v: DocumentView, config: Config, state: State, id: int) -> Seq<char>
    decreases v.nodes.len() - id, 0int,
{
    if 0 <= id < v.nodes.len() {
        let row = v.nodes[id];
        if row.node_type == NodeType::Element {
            let tag = text_or_empty(row.node_name);
            let attrs = v.attrs(id);
            let list = v.child_ids(id);
            if list.len() == 0 {
                empty_element_text(tag, attrs, config, state)
            } else {
                let with_text = has_text(v, list);
                let breaks = tags_on_lines(with_text, config, state);
                open_text(tag, attrs, config, state, breaks) + children_text(
                    v,
                    config,
                    child_state(with_text, config, state),
                    id,
                    0,
                ) + close_text(tag, state, breaks)
            }
        } else {
            leaf_text(row.node_type, text_or_empty(row.node_value), config, state)
        }
    } else {
        Seq::empty()
    }
}

/// The children of a node from the one at place `k` on, as they are
/// written one behind the other.
pub open spec fn children_text(
    v: DocumentView,
    config: Config,
    state: State,
    parent: int,
    k: int,
) -> Seq<char>
    decreases v.nodes.len() - parent - 1, v.child_ids(parent).len() - k,
{
    let list = v.child_ids(parent);
    if 0 <= parent < v.nodes.len() && 0 <= k < list.len() {
        (if parent < list[k] < v.nodes.len() {
            node_text(v, config, state, list[k] as int)
        } else {
            Seq::empty()
        }) + children_text(v, config, state, parent, k + 1)
    } else {
        Seq::empty()
    }
}

/// A document as it is written: the nodes at its top, one behind the
/// other, each on lines of its own.
pub open spec fn document_text(v: DocumentView, config: Config) -> Seq<char> {
    children_text(v, config, State { is_pretty: true, indent: 0 }, 0, 0)
}

/// The room that attributes take on a line, or nothing where it is more
/// than a machine word counts.
fn measure_attrs(attrs: &Vec<Attr>, upto: usize) -> (r: Option<usize>)
    requires
        upto <= attrs.len(),
    ensures
        match r {
            Some(w) => w == attrs_width(attrs_view(attrs@).take(upto as int)),
            None => attrs_width(attrs_view(attrs@).take(upto as int)) > usize::MAX,
        },
{
    let ghost views = attrs_view(attrs@);
    let mut total: usize = 0;
    let mut i: usize = 0;
    assert(views.take(0) =~= Seq::<AttrView>::empty());
    while i < upto
        invariant
            i <= upto <= attrs.len(),
            views == attrs_view(attrs@),
            total == attrs_width(views.take(i as int)),
        decreases upto - i,
    {
        proof {
            assert(views.take(i + 1).drop_last() == views.take(i as int));
            assert(views.take(i + 1).last() == attrs[i as int]@);
            lemma_attrs_width_grows(views.take(upto as int), i + 1);
            assert(views.take(upto as int).take(i + 1) == views.take(i + 1));
        }
        let name = attrs[i].name.as_str().unicode_len();
        let value = attrs[i].value.as_str().unicode_len();
        if name > usize::MAX - 4 || value > usize::MAX - 4 - name || total > usize::MAX - 4 - name
            - value {
            return None;
        }
        total = total + name + value + 4;
        i += 1;
    }
    Some(total)
}

/// The room that the first attributes take is no more than the room that
/// all take.
proof fn lemma_attrs_width_grows(attrs: Seq<AttrView>, k: int)
    requires
        0 <= k <= attrs.len(),
    ensures
        0 <= attrs_width(attrs.take(k)) <= attrs_width(attrs),
    decreases attrs.len() - k,
{
    if k == attrs.len() {
        assert(attrs.take(k) == attrs);
        lemma_attrs_width_positive(attrs);
    } else {
        lemma_attrs_width_grows(attrs.drop_last(), k);
        assert(attrs.drop_last().take(k) == attrs.take(k));
    }
}

/// Attributes take no negative room.
proof fn lemma_attrs_width_positive(attrs: Seq<AttrView>)
    ensures
        0 <= attrs_width(attrs),
    decreases attrs.len(),
{
    if attrs.len() > 0 {
        lemma_attrs_width_positive(attrs.drop_last());
    }
}

/// Whether a name with the first attributes of a list is wider than a
/// line.
fn too_wide(tag: &str, attrs: &Vec<Attr>, upto: usize, config: &Config) -> (r: bool)
    requires
        upto <= attrs.len(),
    ensures
        r == (tag@.len() + 2 + attrs_width(attrs_view(attrs@).take(upto as int))
            > config.max_line_length),
{
    proof {
        lemma_attrs_width_positive(attrs_view(attrs@).take(upto as int));
    }
    let name = tag.unicode_len();
    match measure_attrs(attrs, upto) {
        Some(w) => {
            if name > usize::MAX - 2 || w > usize::MAX - 2 - name {
                true
            } else {
                name + 2 + w > config.max_line_length
            }
        },
        None => true,
    }
}

/// Appends what stands between two attributes.
fn push_separator(out: &mut Vec<char>, on_lines: bool, indent: usize)
    ensures
        final(out)@ == old(out)@ + attr_separator(on_lines, indent),
{
    if on_lines {
        out.push('\n');
        push_spaces(out, indent);
        assert(out@ =~= old(out)@ + attr_separator(on_lines, indent));
    } else {
        out.push(' ');
        assert(out@ =~= old(out)@ + attr_separator(on_lines, indent));
    }
}

/// Appends an attribute.
fn push_attr(out: &mut Vec<char>, attr: &Attr, mode: EntityMode)
    ensures
        final(out)@ == old(out)@ + attr_text(attr@, mode),
{
    push_str(out, attr.name.as_str());
    out.push('=');
    out.push('"');
    push_escaped(out, attr.value.as_str(), mode, false);
    out.push('"');
    assert(out@ =~= old(out)@ + attr_text(attr@, mode));
}

/// The state one level of nesting further in.
fn with_indent(state: State, config: &Config) -> (r: State)
    ensures
        r == indented(state, *config),
{
    if config.is_pretty {
        State { is_pretty: state.is_pretty, indent: add_width(state.indent, config.indent) }
    } else {
        state
    }
}

/// Appends the attributes of an element, on one line or on a line each.
pub fn fmt_attrs(out: &mut Vec<char>, tag: &str, config: &Config, state: State, attrs: &Vec<Attr>)
    ensures
        final(out)@ == old(out)@ + attrs_text(tag@, attrs_view(attrs@), *config, state),
{
    let ghost views = attrs_view(attrs@);
    assert(views.take(attrs.len() as int) == views);
    let on_lines = state.is_pretty && too_wide(tag, attrs, attrs.len(), config);
    let indent = with_indent(state, config).indent;
    let ghost separator = attr_separator(on_lines, indent);
    let mode = config.entity_mode;
    let mut i: usize = 0;
    assert(views.take(0) =~= Seq::<AttrView>::empty());
    assert(old(out)@ + attrs_joined(views.take(0), separator, mode) =~= old(out)@);
    while i < attrs.len()
        invariant
            i <= attrs.len(),
            views == attrs_view(attrs@),
            separator == attr_separator(on_lines, indent),
            out@ == old(out)@ + attrs_joined(views.take(i as int), separator, mode),
        decreases attrs.len() - i,
    {
        let ghost before = out@;
        if i > 0 {
            push_separator(out, on_lines, indent);
        }
        push_attr(out, &attrs[i], mode);
        proof {
            let now = views.take(i + 1);
            assert(now.drop_last() == views.take(i as int));
            assert(now.last() == attrs[i as int]@);
            if i == 0 {
                assert(now[0] == attrs[0]@);
                assert(attrs_joined(views.take(0), separator, mode) =~= Seq::<char>::empty());
            }
            assert(out@ =~= old(out)@ + attrs_joined(now, separator, mode));
        }
        i += 1;
    }
    assert(views.take(i as int) == views);
}

/// Appends the start of a tag up to and without what closes it.
fn push_tag_start(out: &mut Vec<char>, tag: &str, attrs: &Vec<Attr>, config: &Config, state: State)
    ensures
        final(out)@ == old(out)@ + tag_start(tag@, attrs_view(attrs@), *config, state),
{
    let ghost views = attrs_view(attrs@);
    push_spaces(out, state.indent);
    out.push('<');
    push_str(out, tag);
    if attrs.len() == 0 {
        assert(out@ =~= old(out)@ + tag_start(tag@, views, *config, state));
    } else {
        proof {
            assert(views.take(1).drop_last() =~= Seq::<AttrView>::empty());
            assert(views.take(1).last() == views[0]);
            assert(attrs_width(views.take(1).drop_last()) == 0);
            assert(attrs_width(views.take(1)) == attr_width(views[0]));
        }
        let first_on_line = state.is_pretty && too_wide(tag, attrs, 1, config);
        push_separator(out, first_on_line, add_width(state.indent, config.indent));
        fmt_attrs(out, tag, config, state, attrs);
        assert(out@ =~= old(out)@ + tag_start(tag@, views, *config, state));
    }
}

/// Whether text or CDATA stands among the nodes under a parent.
fn holds_text(db: &DocumentDb, parent: usize) -> (r: bool)
    requires
        db@.wf(),
        parent < db@.nodes.len(),
    ensures
        r == has_text(db@, db@.child_ids(parent as int)),
{
    let list = db.child_ids(parent);
    let mut k: usize = 0;
    while k < list.len()
        invariant
            k <= list.len(),
            db@.wf(),
            parent < db@.nodes.len(),
            list@ == db@.child_ids(parent as int),
            forall|j: int|
                0 <= j < k ==> !(db@.nodes[#[trigger] list@[j] as int].node_type == NodeType::Text
                    || db@.nodes[list@[j] as int].node_type == NodeType::CData),
        decreases list.len() - k,
    {
        assert(db@.is_node(db@.children[parent as int][k as int] as int));
        match db.node_type(list[k]) {
            Ok(NodeType::Text) | Ok(NodeType::CData) => {
                return true;
            },
            _ => {},
        }
        k += 1;
    }
    false
}

/// Appends the indentation where what follows goes on a line of its own.
fn push_lead(out: &mut Vec<char>, due: bool, indent: usize)
    ensures
        final(out)@ == old(out)@ + lead_text(due, indent),
{
    if due {
        push_spaces(out, indent);
    } else {
        assert(out@ =~= old(out)@ + Seq::<char>::empty());
    }
}

/// Appends a body between an opening and a closing text.
fn push_framed(
    out: &mut Vec<char>,
    on_line: bool,
    indent: usize,
    open: &str,
    body: &[char],
    close: &str,
)
    ensures
        final(out)@ == old(out)@ + framed(on_line, indent, open@, body@, close@),
{
    push_lead(out, on_line, indent);
    push_str(out, open);
    push_chars(out, body);
    push_str(out, close);
    push_break(out, on_line);
    assert(out@ =~= old(out)@ + framed(on_line, indent, open@, body@, close@));
}

/// The characters of a value as they stand in a node of a kind: text and
/// comments with their references, every other kind as it is.
fn leaf_body(node_type: NodeType, value: &str, mode: EntityMode) -> (r: Vec<char>)
    ensures
        r@ == if node_type == NodeType::Text || node_type == NodeType::Comment {
            escaped(value@, mode, true)
        } else {
            value@
        },
{
    match node_type {
        NodeType::Text | NodeType::Comment => {
            let mut body: Vec<char> = Vec::new();
            push_escaped(&mut body, value, mode, true);
            assert(body@ =~= escaped(value@, mode, true));
            body
        },
        _ => chars_of(value),
    }
}

/// Appends a node that is no element.
fn print_leaf(out: &mut Vec<char>, node_type: NodeType, value: &str, config: &Config, state: State)
    ensures
        final(out)@ == old(out)@ + leaf_text(node_type, value@, *config, state),
{
    let lead = config.indent_text_nodes && state.is_pretty;
    let body = leaf_body(node_type, value, config.entity_mode);
    match node_type {
        NodeType::Text => {
            push_framed(out, lead, state.indent, "", body.as_slice(), "");
        },
        NodeType::CData => {
            push_framed(out, lead, state.indent, "<![CDATA[", body.as_slice(), "]]>");
        },
        NodeType::Comment => {
            push_framed(out, state.is_pretty, state.indent, "<!--", body.as_slice(), "-->");
        },
        NodeType::ProcessingInstruction => {
            push_framed(out, state.is_pretty, state.indent, "<?", body.as_slice(), "?>");
        },
        NodeType::Declaration => {
            push_framed(out, state.is_pretty, state.indent, "<?xml", body.as_slice(), "?>");
            let ghost mid = out@;
            push_break(out, state.is_pretty);
            assert(out@ =~= old(out)@ + (framed(
                state.is_pretty,
                state.indent,
                "<?xml"@,
                value@,
                "?>"@,
            ) + line_break(state.is_pretty)));
        },
        NodeType::Doctype => {
            push_framed(out, state.is_pretty, state.indent, "<!DOCTYPE", body.as_slice(), ">");
        },
        _ => {
            assert(out@ =~= old(out)@ + Seq::<char>::empty());
        },
    }
}

/// Appends an element without anything under it.
fn print_empty_element(
    out: &mut Vec<char>,
    tag: &str,
    attrs: &Vec<Attr>,
    config: &Config,
    state: State,
)
    ensures
        final(out)@ == old(out)@ + empty_element_text(tag@, attrs_view(attrs@), *config, state),
{
    if attrs.len() > 0 {
        push_tag_start(out, tag, attrs, config, state);
        push_spaces(out, config.end_pad);
        out.push('/');
        out.push('>');
        push_break(out, state.is_pretty);
        assert(out@ =~= old(out)@ + empty_element_text(
            tag@,
            attrs_view(attrs@),
            *config,
            state,
        ));
    } else {
        push_spaces(out, state.indent);
        out.push('<');
        let width = tag.unicode_len();
        let pad: usize = if width < config.end_pad {
            config.end_pad - width
        } else {
            0
        };
        push_spaces(out, pad);
        assert(spaces(pad as int) =~= spaces(config.end_pad - tag@.len()));
        push_str(out, tag);
        out.push('/');
        out.push('>');
        push_break(out, state.is_pretty);
        assert(out@ =~= old(out)@ + empty_element_text(
            tag@,
            attrs_view(attrs@),
            *config,
            state,
        ));
    }
}

/// Appends the start tag of an element with something under it.
fn print_open(
    out: &mut Vec<char>,
    tag: &str,
    attrs: &Vec<Attr>,
    config: &Config,
    state: State,
    breaks: bool,
)
    ensures
        final(out)@ == old(out)@ + open_text(tag@, attrs_view(attrs@), *config, state, breaks),
{
    push_tag_start(out, tag, attrs, config, state);
    out.push('>');
    push_break(out, breaks);
    assert(out@ =~= old(out)@ + open_text(tag@, attrs_view(attrs@), *config, state, breaks));
}

/// Appends the end tag of an element.
fn print_close(out: &mut Vec<char>, tag: &str, state: State, breaks: bool)
    ensures
        final(out)@ == old(out)@ + close_text(tag@, state, breaks),
{
    push_lead(out, breaks, state.indent);
    out.push('<');
    out.push('/');
    push_str(out, tag);
    out.push('>');
    push_break(out, breaks || state.is_pretty);
    assert(out@ =~= old(out)@ + close_text(tag@, state, breaks));
}

/// Appends the nodes under a parent, one behind the other.
fn print_children(
    db: &DocumentDb,
    config: &Config,
    state: State,
    parent: usize,
    out: &mut Vec<char>,
)
    requires
        db@.wf(),
        parent < db@.nodes.len(),
    ensures
        final(out)@ == old(out)@ + children_text(db@, *config, state, parent as int, 0),
    decreases db@.nodes.len() - parent, 0int,
{
    let ghost v = db@;
    let list = db.child_ids(parent);
    let mut k: usize = 0;
    while k < list.len()
        invariant
            k <= list.len(),
            v == db@,
            v.wf(),
            parent < v.nodes.len(),
            list@ == v.child_ids(parent as int),
            old(out)@ + children_text(v, *config, state, parent as int, 0) == out@
                + children_text(v, *config, state, parent as int, k as int),
        decreases list.len() - k,
    {
        let child = list[k];
        proof {
            assert(v.is_node(v.children[parent as int][k as int] as int));
            assert(v.nodes[child as int].parent_node_id == parent);
            assert(parent < child);
        }
        let ghost before = out@;
        print_node(db, config, state, child, out);
        proof {
            let rest = children_text(v, *config, state, parent as int, k + 1);
            let this = node_text(v, *config, state, child as int);
            assert(before + (this + rest) =~= (before + this) + rest);
        }
        k += 1;
    }
    proof {
        assert(children_text(v, *config, state, parent as int, k as int) =~= Seq::<char>::empty());
        assert(out@ =~= old(out)@ + children_text(v, *config, state, parent as int, 0));
    }
}

/// Appends a node as it is written, with all that stands under it.
pub fn print_node(db: &DocumentDb, config: &Config, state: State, node_id: usize, out: &mut Vec<char>)
    requires
        db@.wf(),
        db@.is_node(node_id as int),
    ensures
        final(out)@ == old(out)@ + node_text(db@, *config, state, node_id as int),
    decreases db@.nodes.len() - node_id, 1int,
{
    let ghost v = db@;
    let node_type = match db.node_type(node_id) {
        Ok(t) => t,
        Err(_) => NodeType::Document,
    };
    match node_type {
        NodeType::Element => {
            let tag = match db.element(node_id) {
                Ok(e) => e.name,
                Err(_) => String::new(),
            };
            let attrs = db.attrs(node_id);
            if db.child_ids(node_id).len() == 0 {
                print_empty_element(out, tag.as_str(), &attrs, config, state);
            } else {
                let with_text = holds_text(db, node_id);
                let breaks = (config.indent_text_nodes || !with_text) && state.is_pretty;
                let inner = if with_text && !config.indent_text_nodes {
                    State { is_pretty: false, indent: 0 }
                } else {
                    with_indent(state, config)
                };
                print_open(out, tag.as_str(), &attrs, config, state, breaks);
                print_children(db, config, inner, node_id, out);
                print_close(out, tag.as_str(), state, breaks);
                assert(out@ =~= old(out)@ + node_text(v, *config, state, node_id as int));
            }
        },
        _ => {
            let value = match db.node_raw_value(node_id) {
                Ok(Some(t)) => t,
                _ => String::new(),
            };
            print_leaf(out, node_type, value.as_str(), config, state);
        },
    }
}

impl DocumentDb {
    /// The document as XML text, in the given style.
    pub fn to_string_pretty_with_config(&self, config: &Config) -> (r: String)
        requires
            self@.wf(),
        ensures
            r@ == document_text(self@, *config),
    {
        let mut out: Vec<char> = Vec::new();
        print_children(self, config, State { is_pretty: true, indent: 0 }, 0, &mut out);
        assert(out@ =~= document_text(self@, *config));
        string_of(out.as_slice())
    }

    /// The document as XML text, indented by two spaces.
    pub fn to_string_pretty(&self) -> (r: String)
        requires
            self@.wf(),
        ensures
            r@ == document_text(
                self@,
                (Config {
                    is_pretty: true,
                    indent: 2,
                    end_pad: 1,
                    max_line_length: 120,
                    entity_mode: EntityMode::Standard,
                    indent_text_nodes: true,
                }),
            ),
    {
        self.to_string_pretty_with_config(&Config::default_pretty())
    }
}

} // verus!
