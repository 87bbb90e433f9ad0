//! Reading an XML text into a document store.

use vstd::prelude::*;
use xmlparser::{ElementEnd, Token};

use crate::builder::{
    DocumentDbBuilder, InsertAttr, InsertAttrView, InsertNode, InsertNodeView, InsertRootElement,
    InsertRootElementView,
};
use crate::document::{DbError, DocumentDb, DocumentView, NodeType};
use crate::nesting::{
    lemma_read_follows_places, lemma_read_is_ordered, lemma_well_nested_is_read,
    positions_rise, well_nested,
};
use crate::text::{between, lowercase, opt_str_view, strip_marks, to_lowercase, trim, trimmed};

verus! {

/// How a text is read.
#[derive(Debug, Clone, Copy)]
pub struct ParseOptions {
    /// Text, CDATA and comments lose the white space at their ends.
    pub ignore_whitespace: bool,
    /// Every value is classified as it is stored.
    pub infer_types: bool,
    /// Names, prefixes and text are stored in lower case, and names are
    /// matched in lower case.
    pub case_insensitive: bool,
}

impl Default for ParseOptions {
    fn default() -> (r: ParseOptions)
        ensures
            !r.ignore_whitespace,
            !r.infer_types,
            !r.case_insensitive,
    {
        ParseOptions { ignore_whitespace: false, infer_types: false, case_insensitive: false }
    }
}

/// What the reader is inside of: the document itself, the root element, or
/// another element, named by its id.
#[derive(Debug, Clone, Copy, PartialEq, Eq, Structural)]
pub enum ParserStateValue {
    Document,
    Root,
    Element(usize),
}

/// Where the reader stands: the elements that are open, outermost first,
/// each with the order that its next child gets, and the order that the
/// next node at the top of the document gets.
#[derive(Debug)]
pub struct ParserState {
    frames: Vec<(ParserStateValue, usize)>,
    context_order: usize,
}

/// What a [`ParserState`] holds, as plain values.
pub struct ParserStateView {
    pub frames: Seq<(ParserStateValue, usize)>,
    pub context_order: usize,
}

impl ParserStateView {
    /// What the reader is inside of.
    pub open spec fn current(self) -> ParserStateValue {
        if self.frames.len() > 0 {
            self.frames.last().0
        } else {
            ParserStateValue::Document
        }
    }

    /// The order that the next child gets.
    pub open spec fn current_order(self) -> usize {
        if self.frames.len() > 0 {
            self.frames.last().1
        } else {
            self.context_order
        }
    }

    /// The id of the node that the next child belongs to.
    pub open spec fn parent_node_id(self) -> usize {
        match self.current() {
            ParserStateValue::Document => 0,
            ParserStateValue::Root => 1,
            ParserStateValue::Element(v) => v,
        }
    }

    /// The state after one more child.
    pub open spec fn incremented(self) -> ParserStateView {
        if self.frames.len() > 0 {
            ParserStateView {
                frames: self.frames.update(
                    self.frames.len() - 1,
                    (self.frames.last().0, (self.frames.last().1 + 1) as usize),
                ),
                ..self
            }
        } else {
            ParserStateView { context_order: (self.context_order + 1) as usize, ..self }
        }
    }

    /// The state inside one more element, which has no child yet.
    pub open spec fn pushed(self, value: ParserStateValue) -> ParserStateView {
        ParserStateView { frames: self.frames.push((value, 0)), ..self }
    }

    /// The state outside the innermost element; the same state where no
    /// element is open.
    pub open spec fn popped(self) -> ParserStateView {
        if self.frames.len() > 0 {
            ParserStateView { frames: self.frames.drop_last(), ..self }
        } else {
            self
        }
    }

    /// The state before anything was read.
    pub open spec fn initial() -> ParserStateView {
        ParserStateView { frames: Seq::empty(), context_order: 0 }
    }
}

impl View for ParserState {
    type V = ParserStateView;

    closed spec fn view(&self) -> ParserStateView {
        ParserStateView { frames: self.frames@, context_order: self.context_order }
    }
}

impl Default for ParserState {
    fn default() -> (r: ParserState)
        ensures
            r@ == ParserStateView::initial(),
    {
        ParserState { frames: Vec::new(), context_order: 0 }
    }
}

impl ParserState {
    /// What the reader is inside of.
    pub fn current(&self) -> (r: ParserStateValue)
        ensures
            r == self@.current(),
    {
        let n = self.frames.len();
        if n > 0 {
            self.frames[n - 1].0
        } else {
            ParserStateValue::Document
        }
    }

    /// The order that the next child gets.
    pub fn current_order(&self) -> (r: usize)
        ensures
            r == self@.current_order(),
    {
        let n = self.frames.len();
        if n > 0 {
            self.frames[n - 1].1
        } else {
            self.context_order
        }
    }

    /// Counts one more child.
    pub fn increment_order(&mut self)
        requires
            old(self)@.current_order() < usize::MAX,
        ensures
            final(self)@ == old(self)@.incremented(),
    {
        let n = self.frames.len();
        if n > 0 {
            let frame = self.frames[n - 1];
            self.frames[n - 1] = (frame.0, frame.1 + 1);
            assert(self@.frames =~= old(self)@.incremented().frames);
        } else {
            self.context_order += 1;
        }
    }

    /// The id of the node that the next child belongs to.
    pub fn parent_node_id(&self) -> (r: usize)
        ensures
            r == self@.parent_node_id(),
    {
        match self.current() {
            ParserStateValue::Document => 0,
            ParserStateValue::Root => 1,
            ParserStateValue::Element(v) => v,
        }
    }

    /// Enters an element.
    pub fn push(&mut self, value: ParserStateValue)
        ensures
            final(self)@ == old(self)@.pushed(value),
    {
        self.frames.push((value, 0));
    }

    /// Leaves the innermost element, if one is open.
    pub fn pop(&mut self)
        ensures
            final(self)@ == old(self)@.popped(),
    {
        self.frames.pop();
    }
}

/// What the reader sends the writer: one row each.
#[derive(Debug)]
pub enum Message {
    InsertNode(InsertNode),
    InsertAttr(InsertAttr),
    InsertRootElement(InsertRootElement),
}

/// What a [`Message`] holds, as plain values.
pub enum MessageView {
    InsertNode(InsertNodeView),
    InsertAttr(InsertAttrView),
    InsertRootElement(InsertRootElementView),
}

impl View for Message {
    type V = MessageView;

    open spec fn view(&self) -> MessageView {
        match self {
            Message::InsertNode(m) => MessageView::InsertNode(m@),
            Message::InsertAttr(m) => MessageView::InsertAttr(m@),
            Message::InsertRootElement(m) => MessageView::InsertRootElement(m@),
        }
    }
}

impl DeepView for Message {
    type V = MessageView;

    open spec fn deep_view(&self) -> MessageView {
        self@
    }
}

/// A text as it is stored: trimmed where white space is ignored, then in
/// lower case where case is.
pub open spec fn mutated(text: Seq<char>, options: ParseOptions) -> Seq<char> {
    let t = if options.ignore_whitespace {
        trimmed(text)
    } else {
        text
    };
    if options.case_insensitive {
        lowercase(t)
    } else {
        t
    }
}

/// A text as it is stored.
pub fn mutate_text(text: &str, options: &ParseOptions) -> (r: String)
    ensures
        r@ == mutated(text@, *options),
{
    match (options.ignore_whitespace, options.case_insensitive) {
        (true, true) => to_lowercase(trim(text).as_str()),
        (true, false) => trim(text),
        (false, true) => to_lowercase(text),
        (false, false) => text.to_owned(),
    }
}

/// A token of `xmlparser`. Nothing of it is read but through the functions
/// below.
#[verifier::external_type_specification]
#[verifier::external_body]
pub struct ExToken<'a>(xmlparser::Token<'a>);

/// Where the tokenizer gave a text up: the line and the column, both
/// counted from 1.
#[derive(Debug, Clone, Copy, PartialEq, Eq, Structural)]
pub struct XmlError {
    pub row: u32,
    pub col: u32,
}

/// The kinds of token that a text is cut into.
#[derive(Debug, Clone, Copy, PartialEq, Eq, Structural)]
pub enum TokenKind {
    Declaration,
    ProcessingInstruction,
    Comment,
    DtdStart,
    EmptyDtd,
    EntityDeclaration,
    DtdEnd,
    ElementStart,
    Attribute,
    /// The `>` that ends a start tag: the element stays open.
    ElementOpen,
    /// An end tag, or the `/>` of an element without content.
    ElementClose,
    Text,
    Cdata,
}

/// A token as plain values: its kind, the byte offset at which it starts,
/// and the parts of it that are stored. A part that the kind does not have
/// is empty.
#[derive(Debug, Clone)]
pub struct XmlToken {
    pub kind: TokenKind,
    pub position: usize,
    /// The namespace prefix of an element or attribute.
    pub prefix: String,
    /// The local name of an element or attribute.
    pub local: String,
    /// The value of an attribute; the text of a comment, of character data
    /// or of a CDATA section; the whole of a declaration, a processing
    /// instruction or the start of a document type, with its marks.
    pub text: String,
}

/// What an [`XmlToken`] holds, as plain values.
pub struct XmlTokenView {
    pub kind: TokenKind,
    pub position: usize,
    pub prefix: Seq<char>,
    pub local: Seq<char>,
    pub text: Seq<char>,
}

impl View for XmlToken {
    type V = XmlTokenView;

    open spec fn view(&self) -> XmlTokenView {
        XmlTokenView {
            kind: self.kind,
            position: self.position,
            prefix: self.prefix@,
            local: self.local@,
            text: self.text@,
        }
    }
}

/// What a token of `xmlparser` holds, as plain values.
pub uninterp spec fn token_model(t: Token) -> XmlTokenView;

/// What `xmlparser` cuts a text into, in order: tokens, and where it gives
/// the text up, the place at which it does.
pub uninterp spec fn xml_tokens(input: Seq<char>) -> Seq<Result<XmlTokenView, XmlError>>;

/// Trusted: everything that iterating `xmlparser::Tokenizer::from(input)`
/// yields, in order, an error reduced to the place that its `pos` gives.
/// The contract says that this sequence depends on the text alone, and that
/// each token starts behind the start of the one before it: the tokenizer
/// reads forward only, and every token takes at least one byte.
#[verifier::external_body]
fn raw_tokens<'a>(input: &'a str) -> (r: Vec<Result<Token<'a>, XmlError>>)
    ensures
        r@.len() == xml_tokens(input@).len(),
        forall|i: int|
            0 <= i < r@.len() ==> match #[trigger] r@[i] {
                Ok(t) => xml_tokens(input@)[i] == Ok::<XmlTokenView, XmlError>(token_model(t)),
                Err(e) => xml_tokens(input@)[i] == Err::<XmlTokenView, XmlError>(e),
            },
        forall|i: int, j: int|
            0 <= i < j < r@.len() && r@[i] is Ok && r@[j] is Ok ==> token_model(
                (#[trigger] r@[i])->Ok_0,
            ).position < token_model((#[trigger] r@[j])->Ok_0).position,
{
    xmlparser::Tokenizer::from(input).map(
        |r| r.map_err(|e| XmlError { row: e.pos().row, col: e.pos().col }),
    ).collect()
}

/// Trusted: which variant of `xmlparser::Token` a token is; of
/// `ElementEnd`, whether its `end` is `Open`.
#[verifier::external_body]
fn token_kind(t: &Token) -> (r: TokenKind)
    ensures
        r == token_model(*t).kind,
{
    match t {
        Token::Declaration { .. } => TokenKind::Declaration,
        Token::ProcessingInstruction { .. } => TokenKind::ProcessingInstruction,
        Token::Comment { .. } => TokenKind::Comment,
        Token::DtdStart { .. } => TokenKind::DtdStart,
        Token::EmptyDtd { .. } => TokenKind::EmptyDtd,
        Token::EntityDeclaration { .. } => TokenKind::EntityDeclaration,
        Token::DtdEnd { .. } => TokenKind::DtdEnd,
        Token::ElementStart { .. } => TokenKind::ElementStart,
        Token::Attribute { .. } => TokenKind::Attribute,
        Token::ElementEnd { end: ElementEnd::Open, .. } => TokenKind::ElementOpen,
        Token::ElementEnd { .. } => TokenKind::ElementClose,
        Token::Text { .. } => TokenKind::Text,
        Token::Cdata { .. } => TokenKind::Cdata,
    }
}

/// Trusted: the start of `xmlparser::Token::span`, the byte offset at which
/// the token begins in the text.
#[verifier::external_body]
fn token_position(t: &Token) -> (r: usize)
    ensures
        r == token_model(*t).position,
{
    t.span().start()
}

/// Trusted: the field `prefix` of an `ElementStart` or `Attribute` token;
/// empty for every other.
#[verifier::external_body]
fn token_prefix(t: &Token) -> (r: String)
    ensures
        r@ == token_model(*t).prefix,
{
    match t {
        Token::ElementStart { prefix, .. } | Token::Attribute { prefix, .. } => prefix.to_string(),
        _ => String::new(),
    }
}

/// Trusted: the field `local` of an `ElementStart` or `Attribute` token;
/// empty for every other.
#[verifier::external_body]
fn token_local(t: &Token) -> (r: String)
    ensures
        r@ == token_model(*t).local,
{
    match t {
        Token::ElementStart { local, .. } | Token::Attribute { local, .. } => local.to_string(),
        _ => String::new(),
    }
}

/// Trusted: the field `value` of an `Attribute` token; the field `text` of
/// a `Comment`, `Text` or `Cdata` token; the field `span` of a
/// `Declaration`, `ProcessingInstruction`, `DtdStart` or `EmptyDtd` token;
/// empty for every other.
#[verifier::external_body]
fn token_text(t: &Token) -> (r: String)
    ensures
        r@ == token_model(*t).text,
{
    match t {
        Token::Attribute { value, .. } => value.to_string(),
        Token::Comment { text, .. } | Token::Text { text } | Token::Cdata { text, .. } => {
            text.to_string()
        },
        Token::Declaration { span, .. } | Token::ProcessingInstruction { span, .. } => {
            span.to_string()
        },
        Token::DtdStart { span, .. } | Token::EmptyDtd { span, .. } => span.to_string(),
        _ => String::new(),
    }
}

/// Why a text could not be read into a store.
#[derive(Debug)]
pub enum Error {
    /// The text is no XML that the tokenizer accepts.
    Xml(XmlError),
    /// The store refused a row.
    Db(DbError),
    /// The bytes are no UTF-8.
    Utf8,
    /// The writer was gone while rows were still being sent to it.
    Channel,
}

/// The plain values of a list of tokens.
pub open spec fn tokens_view(tokens: Seq<XmlToken>) -> Seq<XmlTokenView> {
    tokens.map_values(|t: XmlToken| t@)
}

/// The first place at which a text was given up, if it was.
pub open spec fn first_error(items: Seq<Result<XmlTokenView, XmlError>>) -> Option<XmlError>
    decreases items.len(),
{
    if items.len() == 0 {
        None
    } else {
        match first_error(items.drop_last()) {
            Some(e) => Some(e),
            None => match items.last() {
                Err(e) => Some(e),
                Ok(_) => None,
            },
        }
    }
}

/// The tokens of a text that was not given up.
pub open spec fn all_tokens(items: Seq<Result<XmlTokenView, XmlError>>) -> Seq<XmlTokenView> {
    items.map_values(|r: Result<XmlTokenView, XmlError>| r->Ok_0)
}

/// An error among the first items is the first error of all.
proof fn lemma_first_error_prefix(items: Seq<Result<XmlTokenView, XmlError>>, k: int)
    requires
        0 <= k <= items.len(),
        first_error(items.take(k)) is Some,
    ensures
        first_error(items) == first_error(items.take(k)),
    decreases items.len() - k,
{
    if k == items.len() {
        assert(items.take(k) == items);
    } else {
        assert(items.take(k + 1).drop_last() == items.take(k));
        lemma_first_error_prefix(items, k + 1);
    }
}

/// The plain tokens of a text, or the place at which the tokenizer gave it
/// up. The tokens stand at rising places of the text.
pub fn tokenize(input: &str) -> (r: Result<Vec<XmlToken>, Error>)
    ensures
        match first_error(xml_tokens(input@)) {
            Some(e) => r == Err::<Vec<XmlToken>, Error>(Error::Xml(e)),
            None => r is Ok && tokens_view(r->Ok_0@) == all_tokens(xml_tokens(input@)),
        },
        r is Ok ==> positions_rise(tokens_view(r->Ok_0@)),
{
    let raw = raw_tokens(input);
    let ghost items = xml_tokens(input@);
    let mut tokens: Vec<XmlToken> = Vec::new();
    let mut i: usize = 0;
    assert(items.take(0) == Seq::<Result<XmlTokenView, XmlError>>::empty());
    while i < raw.len()
        invariant
            i <= raw.len(),
            tokens.len() == i,
            items == xml_tokens(input@),
            raw@.len() == items.len(),
            forall|k: int|
                0 <= k < raw@.len() ==> match #[trigger] raw@[k] {
                    Ok(t) => items[k] == Ok::<XmlTokenView, XmlError>(token_model(t)),
                    Err(e) => items[k] == Err::<XmlTokenView, XmlError>(e),
                },
            first_error(items.take(i as int)) is None,
            forall|k: int| 0 <= k < i ==> items[k] == Ok::<XmlTokenView, XmlError>(#[trigger] tokens[k]@),
            forall|k: int|
                0 <= k < i ==> (#[trigger] raw@[k]) is Ok && tokens[k]@ == token_model(
                    raw@[k]->Ok_0,
                ),
            forall|a: int, b: int|
                0 <= a < b < raw@.len() && raw@[a] is Ok && raw@[b] is Ok ==> token_model(
                    (#[trigger] raw@[a])->Ok_0,
                ).position < token_model((#[trigger] raw@[b])->Ok_0).position,
        decreases raw.len() - i,
    {
        assert(items.take(i + 1).drop_last() == items.take(i as int));
        match &raw[i] {
            Ok(t) => {
                tokens.push(
                    XmlToken {
                        kind: token_kind(t),
                        position: token_position(t),
                        prefix: token_prefix(t),
                        local: token_local(t),
                        text: token_text(t),
                    },
                );
            },
            Err(e) => {
                proof {
                    lemma_first_error_prefix(items, i + 1);
                }
                return Err(Error::Xml(*e));
            },
        }
        i += 1;
    }
    assert(items.take(i as int) == items);
    assert(tokens_view(tokens@) =~= all_tokens(items));
    assert forall|a: int, b: int| 0 <= a < b < tokens_view(tokens@).len() implies (
    #[trigger] tokens_view(tokens@)[a]).position < (#[trigger] tokens_view(tokens@)[b]).position by {
        assert(raw@[a] is Ok && raw@[b] is Ok);
        assert(tokens_view(tokens@)[a] == tokens[a]@);
        assert(tokens_view(tokens@)[b] == tokens[b]@);
    }
    Ok(tokens)
}

/// The prefix of a name as it is stored: none where the name has none.
pub open spec fn stored_prefix(prefix: Seq<char>, options: ParseOptions) -> Option<Seq<char>> {
    if prefix.len() > 0 {
        Some(mutated(prefix, options))
    } else {
        None
    }
}

/// The message for a node that is no element: it gets the next free id and
/// goes under the node that the reader is inside of.
pub open spec fn node_message(
    node_type: NodeType,
    value: Option<Seq<char>>,
    position: usize,
    state: ParserStateView,
    next_id: usize,
) -> MessageView {
    MessageView::InsertNode(
        InsertNodeView {
            node_id: next_id,
            parent_node_id: state.parent_node_id(),
            node_type,
            node_ns: None,
            node_name: None,
            node_value: value,
            buffer_position: position,
            node_order: state.current_order(),
        },
    )
}

/// The message for the start of an element. At the top of the document it
/// fills in the row of the root; elsewhere it stores an element under the
/// next free id.
pub open spec fn start_message(
    local_name: Seq<char>,
    prefix: Option<Seq<char>>,
    position: usize,
    state: ParserStateView,
    next_id: usize,
) -> MessageView {
    if state.current() == ParserStateValue::Document {
        MessageView::InsertRootElement(
            InsertRootElementView {
                node_ns: prefix,
                node_name: Some(local_name),
                buffer_position: position,
                node_order: state.current_order(),
            },
        )
    } else {
        MessageView::InsertNode(
            InsertNodeView {
                node_id: next_id,
                parent_node_id: state.parent_node_id(),
                node_type: NodeType::Element,
                node_ns: prefix,
                node_name: Some(local_name),
                node_value: None,
                buffer_position: position,
                node_order: state.current_order(),
            },
        )
    }
}

/// The state after the start of an element: one more child where the
/// reader was, and the reader inside the new element.
pub open spec fn start_state(state: ParserStateView, next_id: usize) -> ParserStateView {
    if state.current() == ParserStateValue::Document {
        state.incremented().pushed(ParserStateValue::Root)
    } else {
        state.incremented().pushed(ParserStateValue::Element(next_id))
    }
}

/// The next free id after the start of an element: the root has its id
/// already, every other element takes one.
pub open spec fn start_next_id(state: ParserStateView, next_id: usize) -> usize {
    if state.current() == ParserStateValue::Document {
        next_id
    } else {
        (next_id + 1) as usize
    }
}

/// Whether a token brings a node that is no element.
pub open spec fn is_plain_node(kind: TokenKind) -> bool {
    matches!(
        kind,
        TokenKind::Declaration | TokenKind::ProcessingInstruction | TokenKind::Comment
            | TokenKind::DtdStart | TokenKind::EmptyDtd | TokenKind::Text | TokenKind::Cdata
    )
}

/// The message that a token gives rise to, if it gives rise to one.
///
/// A declaration keeps what stands between `<?xml` and `?>`, a processing
/// instruction what stands between `<?` and `?>`, a document type what
/// stands between `<!DOCTYPE` and the `[` or `>` that follows its name and
/// ids. A comment keeps its text, trimmed where white space is ignored. Text and CDATA are stored as
/// [`mutated`] gives them. An element's and an attribute's name and prefix
/// are stored as [`mutated`] gives them, an attribute's value as it is.
pub open spec fn token_message(
    token: XmlTokenView,
    options: ParseOptions,
    state: ParserStateView,
    next_id: usize,
) -> Option<MessageView> {
    match token.kind {
        TokenKind::Declaration => Some(
            node_message(
                NodeType::Declaration,
                Some(between(token.text, 5, 2)),
                token.position,
                state,
                next_id,
            ),
        ),
        TokenKind::ProcessingInstruction => Some(
            node_message(
                NodeType::ProcessingInstruction,
                Some(between(token.text, 2, 2)),
                token.position,
                state,
                next_id,
            ),
        ),
        TokenKind::Comment => Some(
            node_message(
                NodeType::Comment,
                Some(
                    if options.ignore_whitespace {
                        trimmed(token.text)
                    } else {
                        token.text
                    },
                ),
                token.position,
                state,
                next_id,
            ),
        ),
        TokenKind::DtdStart | TokenKind::EmptyDtd => Some(
            node_message(
                NodeType::Doctype,
                Some(between(token.text, 9, 1)),
                token.position,
                state,
                next_id,
            ),
        ),
        TokenKind::Text => Some(
            node_message(
                NodeType::Text,
                Some(mutated(token.text, options)),
                token.position,
                state,
                next_id,
            ),
        ),
        TokenKind::Cdata => Some(
            node_message(
                NodeType::CData,
                Some(mutated(token.text, options)),
                token.position,
                state,
                next_id,
            ),
        ),
        TokenKind::ElementStart => Some(
            start_message(
                mutated(token.local, options),
                stored_prefix(token.prefix, options),
                token.position,
                state,
                next_id,
            ),
        ),
        TokenKind::Attribute => Some(
            MessageView::InsertAttr(
                InsertAttrView {
                    parent_node_id: state.parent_node_id(),
                    attr_ns: stored_prefix(token.prefix, options),
                    attr_name: if token.local.len() > 0 {
                        mutated(token.local, options)
                    } else {
                        Seq::empty()
                    },
                    attr_value: token.text,
                    buffer_position: token.position,
                    attr_order: state.current_order(),
                },
            ),
        ),
        _ => None,
    }
}

/// Where the reader stands after a token.
pub open spec fn state_after(token: XmlTokenView, state: ParserStateView, next_id: usize) -> ParserStateView {
    if is_plain_node(token.kind) || token.kind == TokenKind::Attribute {
        state.incremented()
    } else if token.kind == TokenKind::ElementStart {
        start_state(state, next_id)
    } else if token.kind == TokenKind::ElementClose {
        state.popped()
    } else {
        state
    }
}

/// The next free id after a token.
pub open spec fn next_id_after(token: XmlTokenView, state: ParserStateView, next_id: usize) -> usize {
    if is_plain_node(token.kind) {
        (next_id + 1) as usize
    } else if token.kind == TokenKind::ElementStart {
        start_next_id(state, next_id)
    } else {
        next_id
    }
}

/// The message for the start of an element, with the reader moved inside
/// the element.
pub fn parse_start_event(
    local_name: &str,
    prefix: Option<&str>,
    position: usize,
    parser_state: &mut ParserState,
    node_id_count: &mut usize,
) -> (msg: Message)
    requires
        old(parser_state)@.current_order() < usize::MAX,
        *old(node_id_count) < usize::MAX,
    ensures
        msg@ == start_message(
            local_name@,
            opt_str_view(prefix),
            position,
            old(parser_state)@,
            *old(node_id_count),
        ),
        final(parser_state)@ == start_state(old(parser_state)@, *old(node_id_count)),
        *final(node_id_count) == start_next_id(old(parser_state)@, *old(node_id_count)),
{
    let parent_node_id = parser_state.parent_node_id();
    let ns = match prefix {
        Some(p) => Some(p.to_owned()),
        None => None,
    };
    match parser_state.current() {
        ParserStateValue::Document => {
            let msg = Message::InsertRootElement(
                InsertRootElement::new(
                    ns,
                    Some(local_name.to_owned()),
                    position,
                    parser_state.current_order(),
                ),
            );
            parser_state.increment_order();
            parser_state.push(ParserStateValue::Root);
            msg
        },
        _ => {
            let node_id = *node_id_count;
            let msg = Message::InsertNode(
                InsertNode::new(
                    node_id,
                    parent_node_id,
                    NodeType::Element,
                    ns,
                    Some(local_name.to_owned()),
                    None,
                    position,
                    parser_state.current_order(),
                ),
            );
            *node_id_count += 1;
            parser_state.increment_order();
            parser_state.push(ParserStateValue::Element(node_id));
            msg
        },
    }
}

/// The message for a node that is no element, with one more child counted
/// where the reader is.
fn plain_node_event(
    node_type: NodeType,
    value: Option<String>,
    position: usize,
    parser_state: &mut ParserState,
    node_id_count: &mut usize,
) -> (msg: Message)
    requires
        old(parser_state)@.current_order() < usize::MAX,
        *old(node_id_count) < usize::MAX,
    ensures
        msg@ == node_message(
            node_type,
            value.deep_view(),
            position,
            old(parser_state)@,
            *old(node_id_count),
        ),
        final(parser_state)@ == old(parser_state)@.incremented(),
        *final(node_id_count) == *old(node_id_count) + 1,
{
    let msg = Message::InsertNode(
        InsertNode::new(
            *node_id_count,
            parser_state.parent_node_id(),
            node_type,
            None,
            None,
            value,
            position,
            parser_state.current_order(),
        ),
    );
    *node_id_count += 1;
    parser_state.increment_order();
    msg
}

/// Takes one token: gives the message that it gives rise to, if any, and
/// moves the reader on.
pub fn parse_token(
    token: &XmlToken,
    options: &ParseOptions,
    parser_state: &mut ParserState,
    node_id_count: &mut usize,
) -> (msg: Option<Message>)
    requires
        old(parser_state)@.current_order() < usize::MAX,
        *old(node_id_count) < usize::MAX,
    ensures
        msg.deep_view() == token_message(
            token@,
            *options,
            old(parser_state)@,
            *old(node_id_count),
        ),
        final(parser_state)@ == state_after(token@, old(parser_state)@, *old(node_id_count)),
        *final(node_id_count) == next_id_after(token@, old(parser_state)@, *old(node_id_count)),
{
    match token.kind {
        TokenKind::Declaration => Some(
            plain_node_event(
                NodeType::Declaration,
                Some(strip_marks(token.text.as_str(), 5, 2)),
                token.position,
                parser_state,
                node_id_count,
            ),
        ),
        TokenKind::ProcessingInstruction => Some(
            plain_node_event(
                NodeType::ProcessingInstruction,
                Some(strip_marks(token.text.as_str(), 2, 2)),
                token.position,
                parser_state,
                node_id_count,
            ),
        ),
        TokenKind::Comment => {
            let text = if options.ignore_whitespace {
                trim(token.text.as_str())
            } else {
                token.text.clone()
            };
            Some(
                plain_node_event(
                    NodeType::Comment,
                    Some(text),
                    token.position,
                    parser_state,
                    node_id_count,
                ),
            )
        },
        TokenKind::DtdStart | TokenKind::EmptyDtd => Some(
            plain_node_event(
                NodeType::Doctype,
                Some(strip_marks(token.text.as_str(), 9, 1)),
                token.position,
                parser_state,
                node_id_count,
            ),
        ),
        TokenKind::EntityDeclaration => None,
        TokenKind::DtdEnd => None,
        TokenKind::ElementStart => {
            let local = mutate_text(token.local.as_str(), options);
            let prefix = if token.prefix.as_str().unicode_len() > 0 {
                Some(mutate_text(token.prefix.as_str(), options))
            } else {
                None
            };
            let prefix_ref = match &prefix {
                Some(p) => Some(p.as_str()),
                None => None,
            };
            Some(
                parse_start_event(
                    local.as_str(),
                    prefix_ref,
                    token.position,
                    parser_state,
                    node_id_count,
                ),
            )
        },
        TokenKind::Attribute => {
            let prefix = if token.prefix.as_str().unicode_len() > 0 {
                Some(mutate_text(token.prefix.as_str(), options))
            } else {
                None
            };
            let local = if token.local.as_str().unicode_len() > 0 {
                mutate_text(token.local.as_str(), options)
            } else {
                String::new()
            };
            let msg = Message::InsertAttr(
                InsertAttr::new(
                    parser_state.parent_node_id(),
                    prefix,
                    local,
                    token.text.clone(),
                    token.position,
                    parser_state.current_order(),
                ),
            );
            parser_state.increment_order();
            Some(msg)
        },
        TokenKind::ElementOpen => None,
        TokenKind::ElementClose => {
            parser_state.pop();
            None
        },
        TokenKind::Text => {
            let text = mutate_text(token.text.as_str(), options);
            Some(
                plain_node_event(
                    NodeType::Text,
                    Some(text),
                    token.position,
                    parser_state,
                    node_id_count,
                ),
            )
        },
        TokenKind::Cdata => {
            let text = mutate_text(token.text.as_str(), options);
            Some(
                plain_node_event(
                    NodeType::CData,
                    Some(text),
                    token.position,
                    parser_state,
                    node_id_count,
                ),
            )
        },
    }
}

/// What the writer makes of a message: the store with the row, or the
/// reason why the store refuses it.
pub open spec fn apply(db: DocumentView, infer_types: bool, msg: MessageView) -> Result<
    DocumentView,
    DbError,
> {
    match msg {
        MessageView::InsertNode(m) => match db.node_refusal(
            m.node_id as int,
            m.row(infer_types),
        ) {
            Some(e) => Err(e),
            None => Ok(db.with_node(m.row(infer_types))),
        },
        MessageView::InsertAttr(m) => match db.attr_refusal(m.row(infer_types)) {
            Some(e) => Err(e),
            None => Ok(db.with_attr(m.row(infer_types))),
        },
        MessageView::InsertRootElement(m) => if m.node_name is Some && db.accepts_root() {
            Ok(db.with_root(m.node_ns, m.node_name->0, m.buffer_position, m.node_order))
        } else {
            Err(DbError::Constraint)
        },
    }
}

/// Hands one message to the writer.
pub fn apply_message(builder: &mut DocumentDbBuilder, msg: Message) -> (r: Result<(), DbError>)
    requires
        old(builder).db@.wf(),
    ensures
        final(builder).db@.wf(),
        final(builder).infer_types == old(builder).infer_types,
        match apply(old(builder).db@, old(builder).infer_types, msg@) {
            Ok(db) => r is Ok && final(builder).db@ == db,
            Err(e) => r == Err::<(), DbError>(e) && final(builder).db@ == old(builder).db@,
        },
{
    match msg {
        Message::InsertNode(m) => builder.insert_node(m),
        Message::InsertAttr(m) => builder.insert_attr(m),
        Message::InsertRootElement(m) => builder.insert_root_element(m),
    }
}

/// A reading under way: the store so far, where the reader stands, and the
/// next free node id.
pub struct IngestView {
    pub db: DocumentView,
    pub state: ParserStateView,
    pub next_id: usize,
}

impl IngestView {
    /// A reading before its first token. The store's two rows are there, so
    /// the first free id is 2.
    pub open spec fn start(db: DocumentView) -> IngestView {
        IngestView { db, state: ParserStateView::initial(), next_id: 2 }
    }

    /// The reading after one more token, or why it ends: the store refused
    /// the row that the token brought, or a counter has no next value.
    pub open spec fn token(self, token: XmlTokenView) -> Result<IngestView, Error> {
        if self.state.current_order() == usize::MAX || self.next_id == usize::MAX {
            Err(Error::Db(DbError::Constraint))
        } else {
            let state = state_after(token, self.state, self.next_id);
            let next_id = next_id_after(token, self.state, self.next_id);
            match token_message(token, self.db.options, self.state, self.next_id) {
                None => Ok(IngestView { db: self.db, state, next_id }),
                Some(m) => match apply(self.db, self.db.options.infer_types, m) {
                    Ok(db) => Ok(IngestView { db, state, next_id }),
                    Err(e) => Err(Error::Db(e)),
                },
            }
        }
    }

    /// The reading after a run of tokens, or why it ended at the first token
    /// that could not be taken.
    pub open spec fn tokens(self, tokens: Seq<XmlTokenView>) -> Result<IngestView, Error>
        decreases tokens.len(),
    {
        if tokens.len() == 0 {
            Ok(self)
        } else {
            match self.tokens(tokens.drop_last()) {
                Ok(s) => s.token(tokens.last()),
                Err(e) => Err(e),
            }
        }
    }

    /// A reading that ended after the first tokens has ended for all.
    pub proof fn lemma_error_stays(self, tokens: Seq<XmlTokenView>, k: int)
        requires
            0 <= k <= tokens.len(),
            self.tokens(tokens.take(k)) is Err,
        ensures
            self.tokens(tokens) == self.tokens(tokens.take(k)),
        decreases tokens.len() - k,
    {
        if k == tokens.len() {
            assert(tokens.take(k) == tokens);
        } else {
            assert(tokens.take(k + 1).drop_last() == tokens.take(k));
            self.lemma_error_stays(tokens, k + 1);
        }
    }

    /// A store that kept its rules keeps them through any run of tokens.
    pub proof fn lemma_tokens_wf(self, tokens: Seq<XmlTokenView>)
        requires
            self.db.wf(),
        ensures
            self.tokens(tokens) is Ok ==> (self.tokens(tokens)->Ok_0).db.wf(),
        decreases tokens.len(),
    {
        if tokens.len() > 0 {
            self.lemma_tokens_wf(tokens.drop_last());
            if self.tokens(tokens.drop_last()) is Ok {
                let s = self.tokens(tokens.drop_last())->Ok_0;
                let token = tokens.last();
                match token_message(token, s.db.options, s.state, s.next_id) {
                    Some(MessageView::InsertNode(m)) => {
                        if s.db.node_refusal(m.node_id as int, m.row(s.db.options.infer_types))
                            is None {
                            s.db.lemma_with_node_wf(m.row(s.db.options.infer_types));
                        }
                    },
                    Some(MessageView::InsertAttr(m)) => {
                        if s.db.attr_refusal(m.row(s.db.options.infer_types)) is None {
                            s.db.lemma_with_attr_wf(m.row(s.db.options.infer_types));
                        }
                    },
                    Some(MessageView::InsertRootElement(m)) => {
                        if m.node_name is Some && s.db.accepts_root() {
                            s.db.lemma_with_root_wf(
                                m.node_ns,
                                m.node_name->0,
                                m.buffer_position,
                                m.node_order,
                            );
                        }
                    },
                    None => {},
                }
            }
        }
    }
}

/// Reads a run of tokens into a store: each token's row is written as the
/// token is taken. The store comes back where every row was taken; the
/// first row that the store refuses ends the reading with the store's
/// reason. Into a new store, a run is read to its end where its elements
/// nest as in a document, and only there; and in the store that comes back
/// the children of each node differ in `node_order`.
pub fn ingest(db: DocumentDb, tokens: &[XmlToken]) -> (r: Result<DocumentDb, Error>)
    requires
        db@.wf(),
    ensures
        match IngestView::start(db@).tokens(tokens_view(tokens@)) {
            Ok(s) => r is Ok && r->Ok_0@ == s.db,
            Err(e) => r == Err::<DocumentDb, Error>(e),
        },
        r is Ok ==> r->Ok_0@.wf(),
        db@ == DocumentView::empty(db@.options) && tokens.len() + 3 < usize::MAX && well_nested(
            tokens_view(tokens@),
            tokens.len() as int,
        ) ==> r is Ok,
        db@ == DocumentView::empty(db@.options) && r is Ok ==> r->Ok_0@.strictly_ordered()
            && well_nested(tokens_view(tokens@), tokens.len() as int),
        db@ == DocumentView::empty(db@.options) && r is Ok && positions_rise(tokens_view(tokens@))
            ==> r->Ok_0@.order_follows_places(),
{
    let ghost owed = db@ == DocumentView::empty(db@.options) && tokens.len() + 3 < usize::MAX
        && well_nested(tokens_view(tokens@), tokens.len() as int);
    proof {
        if owed {
            lemma_well_nested_is_read(db@.options, tokens_view(tokens@));
        }
        if db@ == DocumentView::empty(db@.options) && IngestView::start(db@).tokens(
            tokens_view(tokens@),
        ) is Ok {
            lemma_read_is_ordered(db@.options, tokens_view(tokens@));
            if positions_rise(tokens_view(tokens@)) {
                lemma_read_follows_places(db@.options, tokens_view(tokens@));
            }
        }
    }
    let options = db.options();
    let ghost db0 = db@;
    let ghost start = IngestView::start(db0);
    let ghost all = tokens_view(tokens@);
    let mut builder = DocumentDbBuilder::new(db, options.infer_types);
    let mut parser_state = ParserState::default();
    let mut node_id_count: usize = 2;
    let mut i: usize = 0;
    assert(all.take(0) == Seq::<XmlTokenView>::empty());
    while i < tokens.len()
        invariant
            i <= tokens.len(),
            all == tokens_view(tokens@),
            db0 == db@,
            start == IngestView::start(db0),
            owed == (db@ == DocumentView::empty(db@.options) && tokens.len() + 3 < usize::MAX
                && well_nested(tokens_view(tokens@), tokens.len() as int)),
            owed ==> start.tokens(all) is Ok,
            db@ == DocumentView::empty(db@.options) && start.tokens(all) is Ok ==> (start.tokens(
                all,
            )->Ok_0).db.strictly_ordered() && well_nested(all, all.len() as int),
            db@ == DocumentView::empty(db@.options) && start.tokens(all) is Ok && positions_rise(
                all,
            ) ==> (start.tokens(all)->Ok_0).db.order_follows_places(),
            builder.db@.wf(),
            builder.db@.options == options,
            builder.infer_types == options.infer_types,
            start.tokens(all.take(i as int)) == Ok::<IngestView, Error>(
                IngestView { db: builder.db@, state: parser_state@, next_id: node_id_count },
            ),
        decreases tokens.len() - i,
    {
        let ghost before = IngestView {
            db: builder.db@,
            state: parser_state@,
            next_id: node_id_count,
        };
        proof {
            assert(all.take(i + 1).drop_last() == all.take(i as int));
            assert(all.take(i + 1).last() == tokens[i as int]@);
            assert(start.tokens(all.take(i + 1)) == before.token(tokens[i as int]@));
        }
        if parser_state.current_order() == usize::MAX || node_id_count == usize::MAX {
            proof {
                start.lemma_error_stays(all, i + 1);
            }
            return Err(Error::Db(DbError::Constraint));
        }
        let msg = parse_token(&tokens[i], &options, &mut parser_state, &mut node_id_count);
        if let Some(m) = msg {
            match apply_message(&mut builder, m) {
                Ok(()) => {},
                Err(e) => {
                    proof {
                        start.lemma_error_stays(all, i + 1);
                    }
                    return Err(Error::Db(e));
                },
            }
        }
        i += 1;
    }
    assert(all.take(i as int) == all);
    Ok(builder.commit())
}

/// What reading a text into a store gives: the place at which the
/// tokenizer gave the text up, if it did; else what reading its tokens
/// gives.
pub open spec fn parse_spec(db: DocumentView, items: Seq<Result<XmlTokenView, XmlError>>) -> Result<
    DocumentView,
    Error,
> {
    match first_error(items) {
        Some(e) => Err(Error::Xml(e)),
        None => match IngestView::start(db).tokens(all_tokens(items)) {
            Ok(s) => Ok(s.db),
            Err(e) => Err(e),
        },
    }
}

/// Whether reading a text into a new store is owed success: the tokenizer
/// does not give the text up, and the elements of its tokens nest as in a
/// document.
pub open spec fn reads_well(items: Seq<Result<XmlTokenView, XmlError>>) -> bool {
    &&& first_error(items) is None
    &&& items.len() + 3 < usize::MAX
    &&& well_nested(all_tokens(items), items.len() as int)
}

/// Reads an XML text into a store. Nothing is kept of a text that the
/// tokenizer gives up or of which the store refuses a row. No row is
/// refused where the store is new and the elements of the text nest as in
/// a document; and in a store that was new, the children of each node then
/// differ in `node_order`, and their order is that in which they stand in
/// the text.
pub fn parse(db: DocumentDb, input: &str) -> (r: Result<DocumentDb, Error>)
    requires
        db@.wf(),
    ensures
        match parse_spec(db@, xml_tokens(input@)) {
            Ok(v) => r is Ok && r->Ok_0@ == v,
            Err(e) => r == Err::<DocumentDb, Error>(e),
        },
        r is Ok ==> r->Ok_0@.wf(),
        db@ == DocumentView::empty(db@.options) && reads_well(xml_tokens(input@)) ==> r is Ok,
        db@ == DocumentView::empty(db@.options) && r is Ok ==> r->Ok_0@.strictly_ordered()
            && r->Ok_0@.order_follows_places(),
{
    match tokenize(input) {
        Ok(tokens) => ingest(db, tokens.as_slice()),
        Err(e) => Err(e),
    }
}

} // verus!
