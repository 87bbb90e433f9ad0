//! Matching CSS selectors against the elements of a store.

use selectors::attr::{AttrSelectorOperator, CaseSensitivity};
use vstd::prelude::*;

use crate::document::{lemma_filter_take_step, DocumentDb, DocumentView};
use crate::model::{elements_view, Element, ElementView};
use crate::text::{
    ascii_fold, chars_of, fold_ascii, is_whitespace, is_whitespace_char, is_word_ignoring_case,
    opt_str_view,
};

verus! {

/// How a compound selector stands to the one on its left.
#[derive(Debug, Clone, Copy, PartialEq, Eq, Structural)]
pub enum Combinator {
    /// `a > b`: the element's parent matches the left side.
    Child,
    /// `a b`: an ancestor of the element matches the left side.
    Descendant,
    /// `a + b`: the element before it among its siblings matches the left
    /// side.
    NextSibling,
    /// `a ~ b`: an element before it among its siblings matches the left
    /// side.
    LaterSibling,
}

/// How the value of an attribute is held against the value in a selector.
#[derive(Debug, Clone, Copy, PartialEq, Eq, Structural)]
pub enum AttrOperator {
    /// `=`: the two are the same.
    Equal,
    /// `~=`: one of the words of the attribute's value is the value.
    Includes,
    /// `|=`: the attribute's value is the value, or starts with it and a
    /// hyphen.
    DashMatch,
    /// `^=`: the attribute's value starts with the value.
    Prefix,
    /// `*=`: the attribute's value holds the value.
    Substring,
    /// `$=`: the attribute's value ends with the value.
    Suffix,
}

/// What an attribute selector asks of the attribute's value.
#[derive(Debug, Clone)]
pub enum AttrTest {
    /// `[name]`: nothing; the attribute is there.
    Exists,
    /// `[name op value]`, with `i` behind the value where the case of ASCII
    /// letters is to be ignored.
    Value { op: AttrOperator, value: String, ignore_case: bool },
}

/// What an [`AttrTest`] holds, as plain values.
pub enum AttrTestView {
    Exists,
    Value { op: AttrOperator, value: Seq<char>, ignore_case: bool },
}

impl View for AttrTest {
    type V = AttrTestView;

    open spec fn view(&self) -> AttrTestView {
        match self {
            AttrTest::Exists => AttrTestView::Exists,
            AttrTest::Value { op, value, ignore_case } => AttrTestView::Value {
                op: *op,
                value: value@,
                ignore_case: *ignore_case,
            },
        }
    }
}

/// One condition on an element.
#[derive(Debug, Clone)]
pub enum Simple {
    /// A name, `*`, or either behind a namespace prefix and `|`. Without a
    /// prefix, and with the prefix `*`, any namespace will do.
    Type { ns: Option<String>, name: Option<String> },
    /// `#id`.
    Id(String),
    /// `.class`.
    Class(String),
    /// `[name]` and `[name op value]`, the name behind a namespace prefix
    /// or not.
    Attribute { ns: Option<String>, name: String, test: AttrTest },
    /// A pseudo-class or pseudo-element. It matches nothing.
    Pseudo,
}

/// What a [`Simple`] holds, as plain values.
pub enum SimpleView {
    Type { ns: Option<Seq<char>>, name: Option<Seq<char>> },
    Id(Seq<char>),
    Class(Seq<char>),
    Attribute { ns: Option<Seq<char>>, name: Seq<char>, test: AttrTestView },
    Pseudo,
}

impl View for Simple {
    type V = SimpleView;

    open spec fn view(&self) -> SimpleView {
        match self {
            Simple::Type { ns, name } => SimpleView::Type {
                ns: ns.deep_view(),
                name: name.deep_view(),
            },
            Simple::Id(id) => SimpleView::Id(id@),
            Simple::Class(c) => SimpleView::Class(c@),
            Simple::Attribute { ns, name, test } => SimpleView::Attribute {
                ns: ns.deep_view(),
                name: name@,
                test: test@,
            },
            Simple::Pseudo => SimpleView::Pseudo,
        }
    }
}

/// The plain values of a list of conditions.
pub open spec fn compound_view(s: Seq<Simple>) -> Seq<SimpleView> {
    s.map_values(|x: Simple| x@)
}

/// A compound selector, the conditions that one element has to meet, with
/// the combinator that ties it to the compound on its left. The combinator
/// of the leftmost compound says nothing.
#[derive(Debug, Clone)]
pub struct Step {
    pub combinator: Combinator,
    pub compound: Vec<Simple>,
}

/// What a [`Step`] holds, as plain values.
pub struct StepView {
    pub combinator: Combinator,
    pub compound: Seq<SimpleView>,
}

impl View for Step {
    type V = StepView;

    open spec fn view(&self) -> StepView {
        StepView { combinator: self.combinator, compound: compound_view(self.compound@) }
    }
}

/// The plain values of a list of steps.
pub open spec fn steps_view(s: Seq<Step>) -> Seq<StepView> {
    s.map_values(|x: Step| x@)
}

/// A complex selector: compound selectors from left to right.
#[derive(Debug, Clone)]
pub struct Complex {
    pub steps: Vec<Step>,
}

impl View for Complex {
    type V = Seq<StepView>;

    open spec fn view(&self) -> Seq<StepView> {
        steps_view(self.steps@)
    }
}

/// The plain values of a list of complex selectors.
pub open spec fn list_view(s: Seq<Complex>) -> Seq<Seq<StepView>> {
    s.map_values(|x: Complex| x@)
}

/// A selector list. An element matches it if it matches one of its complex
/// selectors.
#[derive(Debug, Clone)]
pub struct Selector(pub Vec<Complex>);

impl View for Selector {
    type V = Seq<Seq<StepView>>;

    open spec fn view(&self) -> Seq<Seq<StepView>> {
        list_view(self.0@)
    }
}

/// Whether two texts are the same, the case of ASCII letters set aside or
/// not.
pub open spec fn text_eq(a: Seq<char>, b: Seq<char>, ignore_case: bool) -> bool {
    if ignore_case {
        is_word_ignoring_case(a, b)
    } else {
        a == b
    }
}

/// Whether a character parts the words of an attribute's value for `~=`:
/// space, tab, line feed, carriage return, form feed.
pub open spec fn is_selector_space(c: char) -> bool {
    c == ' ' || c == '\t' || c == '\n' || c == '\r' || c == '\x0C'
}

/// Whether a value in a selector can match nothing under an operator: the
/// empty value under `^=`, `*=` and `$=`; under `~=` the empty value and one
/// that holds a space.
pub open spec fn never_matches(op: AttrOperator, value: Seq<char>) -> bool {
    match op {
        AttrOperator::Equal | AttrOperator::DashMatch => false,
        AttrOperator::Includes => value.len() == 0 || exists|i: int|
            0 <= i < value.len() && is_selector_space(#[trigger] value[i]),
        AttrOperator::Prefix | AttrOperator::Substring | AttrOperator::Suffix => value.len() == 0,
    }
}

/// Whether the value `e` of an attribute stands to the value `s` of a
/// selector as the operator says.
pub open spec fn operator_holds(
    op: AttrOperator,
    e: Seq<char>,
    s: Seq<char>,
    ignore_case: bool,
) -> bool {
    match op {
        AttrOperator::Equal => text_eq(e, s, ignore_case),
        AttrOperator::Prefix => e.len() >= s.len() && text_eq(
            e.take(s.len() as int),
            s,
            ignore_case,
        ),
        AttrOperator::Suffix => e.len() >= s.len() && text_eq(
            e.skip(e.len() - s.len()),
            s,
            ignore_case,
        ),
        AttrOperator::Substring => exists|i: int|
            0 <= i <= e.len() - s.len() && text_eq(
                #[trigger] e.subrange(i, i + s.len()),
                s,
                ignore_case,
            ),
        AttrOperator::Includes => exists|i: int|
            0 <= i <= e.len() - s.len() && text_eq(
                #[trigger] e.subrange(i, i + s.len()),
                s,
                ignore_case,
            ) && (i == 0 || is_selector_space(e[i - 1])) && (i + s.len() == e.len()
                || is_selector_space(e[i + s.len()])),
        AttrOperator::DashMatch => text_eq(e, s, ignore_case) || (e.len() > s.len() && e[s.len() as int]
            == '-' && text_eq(e.take(s.len() as int), s, ignore_case)),
    }
}

/// Whether the value of an attribute passes the test of a selector.
pub open spec fn test_holds(test: AttrTestView, value: Seq<char>) -> bool {
    match test {
        AttrTestView::Exists => true,
        AttrTestView::Value { op, value: wanted, ignore_case } => !never_matches(op, wanted)
            && operator_holds(op, value, wanted, ignore_case),
    }
}

/// Whether a word stands in a text at a place: white space or an end of
/// the text on both its sides, and none within.
pub open spec fn class_token_at(value: Seq<char>, name: Seq<char>, i: int, ignore_case: bool) -> bool {
    &&& 0 <= i
    &&& i + name.len() <= value.len()
    &&& name.len() > 0
    &&& forall|k: int| i <= k < i + name.len() ==> !is_whitespace(#[trigger] value[k])
    &&& text_eq(value.subrange(i, i + name.len()), name, ignore_case)
    &&& (i == 0 || is_whitespace(value[i - 1]))
    &&& (i + name.len() == value.len() || is_whitespace(value[i + name.len()]))
}

/// Whether one of the words of a text, as white space parts them, is the
/// given name.
pub open spec fn has_class_token(value: Seq<char>, name: Seq<char>, ignore_case: bool) -> bool {
    exists|i: int| class_token_at(value, name, i, ignore_case)
}

/// Whether an element meets one condition.
pub open spec fn simple_matches(v: DocumentView, e: int, s: SimpleView) -> bool {
    match s {
        SimpleView::Type { ns, name } => {
            &&& ns is Some ==> v.nodes[e].node_ns == ns
            &&& name is Some ==> v.element(e).name == v.normalized(name->0)
        },
        SimpleView::Id(id) => match v.attr_by_name(e, "id"@, None) {
            Some(a) => a.value == id,
            None => false,
        },
        SimpleView::Class(c) => match v.attr_by_name(e, "class"@, None) {
            Some(a) => has_class_token(a.value, c, false),
            None => false,
        },
        SimpleView::Attribute { ns, name, test } => match v.attr_by_name(e, name, ns) {
            Some(a) => test_holds(test, a.value),
            None => false,
        },
        SimpleView::Pseudo => false,
    }
}

/// Whether an element meets all conditions of a compound selector.
pub open spec fn compound_matches(v: DocumentView, e: int, compound: Seq<SimpleView>) -> bool {
    forall|i: int| 0 <= i < compound.len() ==> simple_matches(v, e, #[trigger] compound[i])
}

/// The children of the parent of a node.
pub open spec fn siblings(v: DocumentView, e: int) -> Seq<usize> {
    v.children[v.nodes[e].parent_node_id as int]
}

/// Whether an element matches the compound selectors up to the one at
/// place `k`, taken as one complex selector: it meets the compound at `k`,
/// and where that is not the leftmost, the element that the combinator
/// points to matches the compounds up to the one before.
pub open spec fn matches_upto(v: DocumentView, e: int, steps: Seq<StepView>, k: int) -> bool
    decreases k, 0int,
{
    &&& 0 <= k < steps.len()
    &&& v.is_element(e)
    &&& compound_matches(v, e, steps[k].compound)
    &&& k > 0 ==> match steps[k].combinator {
        Combinator::Child => {
            let p = v.nodes[e].parent_node_id as int;
            v.is_element(p) && matches_upto(v, p, steps, k - 1)
        },
        Combinator::Descendant => ancestor_matches(v, e, steps, k - 1),
        Combinator::NextSibling => match v.prev_sibling_element(e) {
            Some(s) => matches_upto(v, s as int, steps, k - 1),
            None => false,
        },
        Combinator::LaterSibling => earlier_matches(
            v,
            siblings(v, e),
            v.sibling_index(e),
            steps,
            k - 1,
        ),
    }
}

/// Whether an element above a node, at any height, matches the compound
/// selectors up to the one at place `k`.
pub open spec fn ancestor_matches(v: DocumentView, id: int, steps: Seq<StepView>, k: int) -> bool
    decreases k, id + 1,
{
    &&& 0 <= k
    &&& v.is_node(id)
    &&& {
        let p = v.nodes[id].parent_node_id as int;
        ||| matches_upto(v, p, steps, k)
        ||| (p < id && ancestor_matches(v, p, steps, k))
    }
}

/// Whether a node before a place in a list matches the compound selectors
/// up to the one at place `k`.
pub open spec fn earlier_matches(
    v: DocumentView,
    list: Seq<usize>,
    at: int,
    steps: Seq<StepView>,
    k: int,
) -> bool
    decreases k, at + 1,
{
    &&& 0 <= k
    &&& 0 < at <= list.len()
    &&& {
        ||| matches_upto(v, list[at - 1] as int, steps, k)
        ||| earlier_matches(v, list, at - 1, steps, k)
    }
}

/// Whether an element matches a complex selector.
pub open spec fn complex_matches(v: DocumentView, e: int, steps: Seq<StepView>) -> bool {
    steps.len() > 0 && matches_upto(v, e, steps, steps.len() - 1)
}

/// Whether an element matches one of the complex selectors of a list.
pub open spec fn selector_matches(v: DocumentView, e: int, list: Seq<Seq<StepView>>) -> bool {
    exists|i: int| 0 <= i < list.len() && complex_matches(v, e, #[trigger] list[i])
}

/// The elements under a node that match a selector list, in rising order of
/// their ids.
pub open spec fn match_all_spec(v: DocumentView, list: Seq<Seq<StepView>>, from: int) -> Seq<
    ElementView,
> {
    v.descendents(from).filter(|e: ElementView| selector_matches(v, e.node_id as int, list))
}

/// The first of the elements under a node that match a selector list.
pub open spec fn match_one_spec(v: DocumentView, list: Seq<Seq<StepView>>, from: int) -> Option<
    ElementView,
> {
    if match_all_spec(v, list, from).len() > 0 {
        Some(match_all_spec(v, list, from)[0])
    } else {
        None
    }
}

/// Trusted: what `selectors::attr::AttrSelectorOperator::eval_str` says of
/// an attribute's value and a selector's value. The crate compares bytes;
/// on two texts that gives what [`operator_holds`] states over their
/// characters. The values that [`never_matches`] names are left out: the
/// crate's parser never hands them to this function.
#[verifier::external_body]
fn eval_operator(op: AttrOperator, e: &str, s: &str, ignore_case: bool) -> (r: bool)
    requires
        !never_matches(op, s@),
    ensures
        r == operator_holds(op, e@, s@, ignore_case),
{
    let operator = match op {
        AttrOperator::Equal => AttrSelectorOperator::Equal,
        AttrOperator::Includes => AttrSelectorOperator::Includes,
        AttrOperator::DashMatch => AttrSelectorOperator::DashMatch,
        AttrOperator::Prefix => AttrSelectorOperator::Prefix,
        AttrOperator::Substring => AttrSelectorOperator::Substring,
        AttrOperator::Suffix => AttrSelectorOperator::Suffix,
    };
    let case = if ignore_case {
        CaseSensitivity::AsciiCaseInsensitive
    } else {
        CaseSensitivity::CaseSensitive
    };
    operator.eval_str(e, s, case)
}

/// Trusted: what `selectors::attr::CaseSensitivity::eq` says of the bytes of
/// two texts: whether they are the same, the case of ASCII letters set
/// aside or not.
#[verifier::external_body]
fn case_eq(a: &str, b: &str, ignore_case: bool) -> (r: bool)
    ensures
        r == text_eq(a@, b@, ignore_case),
{
    let case = if ignore_case {
        CaseSensitivity::AsciiCaseInsensitive
    } else {
        CaseSensitivity::CaseSensitive
    };
    case.eq(a.as_bytes(), b.as_bytes())
}

/// Whether a value in a selector can match nothing under an operator.
pub fn can_never_match(op: AttrOperator, value: &str) -> (r: bool)
    ensures
        r == never_matches(op, value@),
{
    match op {
        AttrOperator::Equal | AttrOperator::DashMatch => false,
        AttrOperator::Includes => {
            let chars = chars_of(value);
            if chars.len() == 0 {
                return true;
            }
            let mut i: usize = 0;
            while i < chars.len()
                invariant
                    i <= chars.len(),
                    chars@ == value@,
                    op == AttrOperator::Includes,
                    forall|k: int| 0 <= k < i ==> !is_selector_space(#[trigger] chars@[k]),
                decreases chars.len() - i,
            {
                let c = chars[i];
                if c == ' ' || c == '\t' || c == '\n' || c == '\r' || c == '\x0C' {
                    assert(is_selector_space(value@[i as int]));
                    return true;
                }
                i += 1;
            }
            false
        },
        AttrOperator::Prefix | AttrOperator::Substring | AttrOperator::Suffix => value.is_empty(),
    }
}

/// Whether the value of an attribute passes the test of a selector.
pub fn eval_test(test: &AttrTest, value: &str) -> (r: bool)
    ensures
        r == test_holds(test@, value@),
{
    match test {
        AttrTest::Exists => true,
        AttrTest::Value { op, value: wanted, ignore_case } => {
            if can_never_match(*op, wanted.as_str()) {
                false
            } else {
                eval_operator(*op, value, wanted.as_str(), *ignore_case)
            }
        },
    }
}

/// Whether a word stands in a text at a place.
fn token_at(value: &[char], name: &[char], i: usize, ignore_case: bool) -> (r: bool)
    requires
        i + name.len() <= value.len(),
        name.len() > 0,
    ensures
        r == class_token_at(value@, name@, i as int, ignore_case),
{
    let end = i + name.len();
    if i > 0 && !is_whitespace_char(value[i - 1]) {
        return false;
    }
    if end < value.len() && !is_whitespace_char(value[end]) {
        return false;
    }
    let ghost part = value@.subrange(i as int, end as int);
    let mut k: usize = 0;
    while k < name.len()
        invariant
            k <= name.len(),
            end == i + name.len(),
            end <= value.len(),
            part == value@.subrange(i as int, end as int),
            forall|j: int| i <= j < i + k ==> !is_whitespace(#[trigger] value@[j]),
            forall|j: int|
                0 <= j < k ==> if ignore_case {
                    ascii_fold(#[trigger] part[j]) == ascii_fold(name@[j])
                } else {
                    part[j] == name@[j]
                },
        decreases name.len() - k,
    {
        let c = value[i + k];
        if is_whitespace_char(c) {
            return false;
        }
        let same = if ignore_case {
            fold_ascii(c) == fold_ascii(name[k])
        } else {
            c == name[k]
        };
        if !same {
            assert(part[k as int] == c);
            return false;
        }
        assert(part[k as int] == c);
        k += 1;
    }
    assert(text_eq(part, name@, ignore_case)) by {
        if !ignore_case {
            assert(part =~= name@);
        }
    }
    true
}

/// Whether one of the words of a text, as white space parts them, is the
/// given name.
pub fn has_token(value: &str, name: &str, ignore_case: bool) -> (r: bool)
    ensures
        r == has_class_token(value@, name@, ignore_case),
{
    let v = chars_of(value);
    let n = chars_of(name);
    if n.len() == 0 || n.len() > v.len() {
        return false;
    }
    let last = v.len() - n.len();
    let mut i: usize = 0;
    while i <= last
        invariant
            i <= last + 1,
            last == v.len() - n.len(),
            n.len() > 0,
            v@ == value@,
            n@ == name@,
            forall|j: int| 0 <= j < i ==> !class_token_at(v@, n@, j, ignore_case),
        decreases last + 1 - i,
    {
        if token_at(v.as_slice(), n.as_slice(), i, ignore_case) {
            return true;
        }
        i += 1;
    }
    false
}

/// An element of a store, as the matcher asks about it.
#[derive(Debug)]
pub struct ElementRef<'a> {
    pub element: Element,
    pub db: &'a DocumentDb,
}

impl<'a> ElementRef<'a> {
    /// Whether the record is that of an element of the store.
    pub open spec fn wf(&self) -> bool {
        &&& self.db@.wf()
        &&& self.db@.is_element(self.element.node_id as int)
        &&& self.element@ == self.db@.element(self.element.node_id as int)
    }

    /// The id of the element, as a position in the node table.
    pub open spec fn id(&self) -> int {
        self.element.node_id as int
    }

    /// The element with an id, if the id names one.
    pub fn new(db: &'a DocumentDb, node_id: usize) -> (r: Option<ElementRef<'a>>)
        requires
            db@.wf(),
        ensures
            r is Some <==> db@.is_element(node_id as int),
            r is Some ==> r->0.wf() && r->0.db == db && r->0.element.node_id == node_id,
    {
        match db.element(node_id) {
            Ok(element) => Some(ElementRef { element, db }),
            Err(_) => None,
        }
    }

    /// The parent, if it is an element.
    pub fn parent_element(&self) -> (r: Option<ElementRef<'a>>)
        requires
            self.wf(),
        ensures
            r is Some <==> self.db@.is_element(
                self.db@.nodes[self.id()].parent_node_id as int,
            ),
            r is Some ==> r->0.wf() && r->0.db == self.db && r->0.element.node_id
                == self.db@.nodes[self.id()].parent_node_id,
    {
        match self.db.parent_element_id(self.element.node_id) {
            Ok(p) => ElementRef::new(self.db, p),
            Err(_) => None,
        }
    }

    /// The nearest element before this one among the children of its
    /// parent.
    pub fn prev_sibling_element(&self) -> (r: Option<ElementRef<'a>>)
        requires
            self.wf(),
        ensures
            r is Some <==> self.db@.prev_sibling_element(self.id()) is Some,
            r is Some ==> r->0.wf() && r->0.db == self.db && Some(r->0.element.node_id)
                == self.db@.prev_sibling_element(self.id()),
    {
        match self.db.prev_sibling_element(self.element.node_id) {
            Some(s) => ElementRef::new(self.db, s),
            None => None,
        }
    }

    /// The nearest element after this one among the children of its parent.
    pub fn next_sibling_element(&self) -> (r: Option<ElementRef<'a>>)
        requires
            self.wf(),
        ensures
            r is Some <==> self.db@.next_sibling_element(self.id()) is Some,
            r is Some ==> r->0.wf() && r->0.db == self.db && Some(r->0.element.node_id)
                == self.db@.next_sibling_element(self.id()),
    {
        match self.db.next_sibling_element(self.element.node_id) {
            Some(s) => ElementRef::new(self.db, s),
            None => None,
        }
    }

    /// Whether the element has the name, letter for letter.
    pub fn has_local_name(&self, local_name: &str) -> (r: bool)
        ensures
            r == (self.element@.name == local_name@),
    {
        case_eq(self.element.name.as_str(), local_name, false)
    }

    /// Whether the element has the namespace prefix.
    pub fn has_namespace(&self, ns: &str) -> (r: bool)
        ensures
            r == (self.element@.ns == Some(ns@)),
    {
        match &self.element.ns {
            Some(own) => case_eq(own.as_str(), ns, false),
            None => false,
        }
    }

    /// Whether two elements have the same name.
    pub fn is_same_type(&self, other: &ElementRef) -> (r: bool)
        ensures
            r == (self.element@.name == other.element@.name),
    {
        self.element.name == other.element.name
    }

    /// Whether the element has an attribute with the name, under the
    /// namespace prefix if one is given, whose value passes the test.
    pub fn attr_matches(&self, ns: Option<&str>, local_name: &str, test: &AttrTest) -> (r: bool)
        requires
            self.wf(),
        ensures
            r == match self.db@.attr_by_name(self.id(), local_name@, opt_str_view(ns)) {
                Some(a) => test_holds(test@, a.value),
                None => false,
            },
    {
        match self.db.attr_by_name(self.element.node_id, local_name, ns) {
            Some(attr) => eval_test(test, attr.value.as_str()),
            None => false,
        }
    }

    /// Whether the element has the id.
    pub fn has_id(&self, id: &str, ignore_case: bool) -> (r: bool)
        requires
            self.wf(),
        ensures
            r == match self.db@.attr_by_name(self.id(), "id"@, None) {
                Some(a) => text_eq(a.value, id@, ignore_case),
                None => false,
            },
    {
        match self.db.attr_by_name(self.element.node_id, "id", None) {
            Some(attr) => case_eq(attr.value.as_str(), id, ignore_case),
            None => false,
        }
    }

    /// Whether one of the words of the element's `class` is the name.
    pub fn has_class(&self, name: &str, ignore_case: bool) -> (r: bool)
        requires
            self.wf(),
        ensures
            r == match self.db@.attr_by_name(self.id(), "class"@, None) {
                Some(a) => has_class_token(a.value, name@, ignore_case),
                None => false,
            },
    {
        match self.db.attr_by_name(self.element.node_id, "class", None) {
            Some(attr) => has_token(attr.value.as_str(), name, ignore_case),
            None => false,
        }
    }

    /// Whether nothing stands under the element.
    pub fn is_empty(&self) -> (r: bool)
        requires
            self.wf(),
        ensures
            r == !self.db@.has_children(self.id()),
    {
        !self.db.has_children(self.element.node_id)
    }

    /// Whether the element is the root of the document.
    pub fn is_root(&self) -> (r: bool)
        ensures
            r == (self.element.node_id == 1),
    {
        self.element.node_id == 1
    }

    /// Whether the element meets one condition.
    pub fn matches_simple(&self, s: &Simple) -> (r: bool)
        requires
            self.wf(),
        ensures
            r == simple_matches(self.db@, self.id(), s@),
    {
        match s {
            Simple::Type { ns, name } => {
                let ns_ok = match ns {
                    Some(p) => self.has_namespace(p.as_str()),
                    None => true,
                };
                let name_ok = match name {
                    Some(n) => {
                        let wanted = self.db.normalize_name(n.as_str());
                        self.has_local_name(wanted.as_str())
                    },
                    None => true,
                };
                ns_ok && name_ok
            },
            Simple::Id(id) => self.has_id(id.as_str(), false),
            Simple::Class(c) => self.has_class(c.as_str(), false),
            Simple::Attribute { ns, name, test } => {
                let prefix = match ns {
                    Some(p) => Some(p.as_str()),
                    None => None,
                };
                self.attr_matches(prefix, name.as_str(), test)
            },
            Simple::Pseudo => false,
        }
    }

    /// Whether the element meets all conditions of a compound selector.
    pub fn matches_compound(&self, compound: &Vec<Simple>) -> (r: bool)
        requires
            self.wf(),
        ensures
            r == compound_matches(self.db@, self.id(), compound_view(compound@)),
    {
        let mut i: usize = 0;
        while i < compound.len()
            invariant
                i <= compound.len(),
                self.wf(),
                forall|j: int|
                    0 <= j < i ==> simple_matches(
                        self.db@,
                        self.id(),
                        #[trigger] compound_view(compound@)[j],
                    ),
            decreases compound.len() - i,
        {
            if !self.matches_simple(&compound[i]) {
                assert(!simple_matches(self.db@, self.id(), compound_view(compound@)[i as int]));
                return false;
            }
            i += 1;
        }
        true
    }
}

/// Whether an element matches the compound selectors up to the one at
/// place `k`, taken as one complex selector.
pub fn element_matches_upto(db: &DocumentDb, e: usize, steps: &Vec<Step>, k: usize) -> (r: bool)
    requires
        db@.wf(),
        db@.is_element(e as int),
        k < steps.len(),
    ensures
        r == matches_upto(db@, e as int, steps_view(steps@), k as int),
    decreases k,
{
    let ghost v = db@;
    let ghost sv = steps_view(steps@);
    let this = match ElementRef::new(db, e) {
        Some(r) => r,
        None => {
            return false;
        },
    };
    assert(sv[k as int] == steps[k as int]@);
    if !this.matches_compound(&steps[k].compound) {
        return false;
    }
    if k == 0 {
        return true;
    }
    let parent = match db.parent_element_id(e) {
        Ok(p) => p,
        Err(_) => {
            return false;
        },
    };
    match steps[k].combinator {
        Combinator::Child => {
            if db.is_element(parent) {
                element_matches_upto(db, parent, steps, k - 1)
            } else {
                false
            }
        },
        Combinator::Descendant => {
            let mut cur: usize = e;
            loop
                invariant
                    v == db@,
                    sv == steps_view(steps@),
                    v.wf(),
                    0 < k < steps.len(),
                    v.is_element(e as int),
                    compound_matches(v, e as int, sv[k as int].compound),
                    sv[k as int].combinator == Combinator::Descendant,
                    v.is_node(cur as int),
                    ancestor_matches(v, e as int, sv, k - 1) == ancestor_matches(
                        v,
                        cur as int,
                        sv,
                        k - 1,
                    ),
                ensures
                    !ancestor_matches(v, e as int, sv, k - 1),
                decreases cur,
            {
                let p = match db.parent_element_id(cur) {
                    Ok(p) => p,
                    Err(_) => {
                        return false;
                    },
                };
                assert(p < cur) by {
                    assert(v.nodes[cur as int].parent_node_id < cur);
                }
                assert(ancestor_matches(v, cur as int, sv, k - 1) == (matches_upto(
                    v,
                    p as int,
                    sv,
                    k - 1,
                ) || ancestor_matches(v, p as int, sv, k - 1)));
                if db.is_element(p) && element_matches_upto(db, p, steps, k - 1) {
                    assert(matches_upto(v, e as int, sv, k as int));
                    return true;
                }
                if !db.is_node(p) {
                    assert(!ancestor_matches(v, p as int, sv, k - 1));
                    break;
                }
                cur = p;
            }
            false
        },
        Combinator::NextSibling => match db.prev_sibling_element(e) {
            Some(s) => element_matches_upto(db, s, steps, k - 1),
            None => false,
        },
        Combinator::LaterSibling => {
            let list = db.child_ids(parent);
            let mut at = db.sibling_place(e);
            while at > 0
                invariant
                    v == db@,
                    sv == steps_view(steps@),
                    v.wf(),
                    0 < k < steps.len(),
                    v.is_element(e as int),
                    compound_matches(v, e as int, sv[k as int].compound),
                    sv[k as int].combinator == Combinator::LaterSibling,
                    parent == v.nodes[e as int].parent_node_id,
                    parent < v.nodes.len(),
                    list@ == v.children[parent as int],
                    at <= list@.len(),
                    earlier_matches(v, list@, v.sibling_index(e as int), sv, k - 1)
                        == earlier_matches(v, list@, at as int, sv, k - 1),
                decreases at,
            {
                let c = list[at - 1];
                assert(v.is_node(v.children[parent as int][at - 1] as int));
                assert(earlier_matches(v, list@, at as int, sv, k - 1) == (matches_upto(
                    v,
                    c as int,
                    sv,
                    k - 1,
                ) || earlier_matches(v, list@, at - 1, sv, k - 1)));
                if db.is_element(c) && element_matches_upto(db, c, steps, k - 1) {
                    assert(matches_upto(v, e as int, sv, k as int));
                    return true;
                }
                at -= 1;
            }
            false
        },
    }
}

impl Complex {
    /// Whether an element matches the complex selector.
    pub fn matches(&self, db: &DocumentDb, e: usize) -> (r: bool)
        requires
            db@.wf(),
            db@.is_element(e as int),
        ensures
            r == complex_matches(db@, e as int, self@),
    {
        let n = self.steps.len();
        if n == 0 {
            false
        } else {
            element_matches_upto(db, e, &self.steps, n - 1)
        }
    }
}

impl Selector {
    /// Whether an element matches one of the complex selectors of the list.
    pub fn matches(&self, db: &DocumentDb, e: usize) -> (r: bool)
        requires
            db@.wf(),
            db@.is_element(e as int),
        ensures
            r == selector_matches(db@, e as int, self@),
    {
        let mut i: usize = 0;
        while i < self.0.len()
            invariant
                i <= self.0.len(),
                db@.wf(),
                db@.is_element(e as int),
                forall|j: int| 0 <= j < i ==> !complex_matches(db@, e as int, #[trigger] self@[j]),
            decreases self.0.len() - i,
        {
            assert(self@[i as int] == self.0[i as int]@);
            if self.0[i].matches(db, e) {
                return true;
            }
            i += 1;
        }
        false
    }

    /// The elements of the document that match, in rising order of their
    /// ids.
    pub fn match_all(&self, db: &DocumentDb) -> (r: Vec<Element>)
        requires
            db@.wf(),
        ensures
            elements_view(r@) == match_all_spec(db@, self@, 0),
    {
        self.match_all_from(db, 0)
    }

    /// The elements under a node that match, in rising order of their ids.
    pub fn match_all_from(&self, db: &DocumentDb, node_id: usize) -> (r: Vec<Element>)
        requires
            db@.wf(),
        ensures
            elements_view(r@) == match_all_spec(db@, self@, node_id as int),
    {
        let candidates = db.descendents(node_id);
        let ghost views = elements_view(candidates@);
        let ghost pred = |e: ElementView| selector_matches(db@, e.node_id as int, self@);
        let mut out: Vec<Element> = Vec::new();
        let mut i: usize = 0;
        proof {
            reveal(Seq::filter);
            assert(views.take(0) == Seq::<ElementView>::empty());
            assert(elements_view(out@) =~= views.take(0).filter(pred));
        }
        while i < candidates.len()
            invariant
                i <= candidates.len(),
                db@.wf(),
                views == elements_view(candidates@),
                views == db@.descendents(node_id as int),
                pred == |e: ElementView| selector_matches(db@, e.node_id as int, self@),
                elements_view(out@) == views.take(i as int).filter(pred),
            decreases candidates.len() - i,
        {
            proof {
                lemma_filter_take_step(views, pred, i as int);
                assert(views.contains(views[i as int]));
                db@.lemma_descendents_members(node_id as int, views[i as int]);
            }
            if self.matches(db, candidates[i].node_id) {
                let ghost before = out@;
                out.push(candidates[i].clone_element());
                assert(elements_view(out@) =~= elements_view(before).push(views[i as int]));
            }
            i += 1;
        }
        assert(views.take(i as int) == views);
        out
    }

    /// The first element of the document that matches, if one does.
    pub fn match_one(&self, db: &DocumentDb) -> (r: Option<Element>)
        requires
            db@.wf(),
        ensures
            r.deep_view() == match_one_spec(db@, self@, 0),
    {
        self.match_one_from(db, 0)
    }

    /// The first element under a node that matches, if one does.
    pub fn match_one_from(&self, db: &DocumentDb, node_id: usize) -> (r: Option<Element>)
        requires
            db@.wf(),
        ensures
            r.deep_view() == match_one_spec(db@, self@, node_id as int),
    {
        let candidates = db.descendents(node_id);
        let ghost views = elements_view(candidates@);
        let ghost pred = |e: ElementView| selector_matches(db@, e.node_id as int, self@);
        let mut i: usize = 0;
        proof {
            reveal(Seq::filter);
            assert(views.take(0) == Seq::<ElementView>::empty());
        }
        while i < candidates.len()
            invariant
                i <= candidates.len(),
                db@.wf(),
                views == elements_view(candidates@),
                views == db@.descendents(node_id as int),
                pred == |e: ElementView| selector_matches(db@, e.node_id as int, self@),
                views.take(i as int).filter(pred).len() == 0,
            decreases candidates.len() - i,
        {
            proof {
                lemma_filter_take_step(views, pred, i as int);
                assert(views.contains(views[i as int]));
                db@.lemma_descendents_members(node_id as int, views[i as int]);
            }
            if self.matches(db, candidates[i].node_id) {
                proof {
                    assert(views =~= views.take(i + 1) + views.skip(i + 1));
                    Seq::filter_distributes_over_add(views.take(i + 1), views.skip(i + 1), pred);
                    assert(views.take(i + 1).filter(pred)[0] == views[i as int]);
                }
                return Some(candidates[i].clone_element());
            }
            i += 1;
        }
        assert(views.take(i as int) == views);
        None
    }
}

/// An element above a node matches exactly if there is a node that the
/// node stands under, at any depth, and that matches.
pub proof fn lemma_ancestor_matches(v: DocumentView, id: int, steps: Seq<StepView>, k: int)
    requires
        v.wf(),
        0 <= k,
    ensures
        ancestor_matches(v, id, steps, k) <==> exists|a: int|
            v.is_under(a, id) && #[trigger] matches_upto(v, a, steps, k),
    decreases id,
{
    if v.is_node(id) {
        let p = v.nodes[id].parent_node_id as int;
        assert(p < id) by {
            if id >= 2 {
                assert(v.nodes[id].parent_node_id < id);
            }
        }
        if p >= 0 {
            lemma_ancestor_matches(v, p, steps, k);
        }
        if ancestor_matches(v, id, steps, k) {
            if matches_upto(v, p, steps, k) {
                assert(v.is_under(p, id) && matches_upto(v, p, steps, k));
            } else {
                let a = choose|a: int| v.is_under(a, p) && #[trigger] matches_upto(v, a, steps, k);
                assert(v.is_under(a, id) && matches_upto(v, a, steps, k));
            }
        }
        if exists|a: int| v.is_under(a, id) && #[trigger] matches_upto(v, a, steps, k) {
            let a = choose|a: int| v.is_under(a, id) && #[trigger] matches_upto(v, a, steps, k);
            if a != p {
                assert(v.is_under(a, p) && matches_upto(v, a, steps, k));
            }
        }
    }
}

/// A node before a place in a list matches exactly if one of the nodes
/// before that place matches.
pub proof fn lemma_earlier_matches(
    v: DocumentView,
    list: Seq<usize>,
    at: int,
    steps: Seq<StepView>,
    k: int,
)
    requires
        0 <= k,
        0 <= at <= list.len(),
    ensures
        earlier_matches(v, list, at, steps, k) <==> exists|j: int|
            0 <= j < at && #[trigger] matches_upto(v, list[j] as int, steps, k),
    decreases at,
{
    if at > 0 {
        lemma_earlier_matches(v, list, at - 1, steps, k);
        if earlier_matches(v, list, at, steps, k) {
            if matches_upto(v, list[at - 1] as int, steps, k) {
                assert(0 <= at - 1 < at && matches_upto(v, list[at - 1] as int, steps, k));
            } else {
                let j = choose|j: int|
                    0 <= j < at - 1 && #[trigger] matches_upto(v, list[j] as int, steps, k);
                assert(0 <= j < at && matches_upto(v, list[j] as int, steps, k));
            }
        }
        if exists|j: int| 0 <= j < at && #[trigger] matches_upto(v, list[j] as int, steps, k) {
            let j = choose|j: int|
                0 <= j < at && #[trigger] matches_upto(v, list[j] as int, steps, k);
            if j < at - 1 {
                assert(0 <= j < at - 1 && matches_upto(v, list[j] as int, steps, k));
            }
        }
    }
}

/// The selector list `*`: one complex selector of one compound that asks
/// nothing.
pub open spec fn universal() -> Seq<Seq<StepView>> {
    seq![
        seq![
            StepView {
                combinator: Combinator::Descendant,
                compound: seq![SimpleView::Type { ns: None, name: None }],
            },
        ],
    ]
}

/// A filter that keeps every item of a list gives the list.
pub proof fn lemma_filter_all<A>(s: Seq<A>, pred: spec_fn(A) -> bool)
    requires
        forall|i: int| 0 <= i < s.len() ==> pred(#[trigger] s[i]),
    ensures
        s.filter(pred) == s,
    decreases s.len(),
{
    reveal(Seq::filter);
    if s.len() > 0 {
        lemma_filter_all(s.drop_last(), pred);
        assert(s.drop_last().push(s.last()) =~= s);
    }
}

/// An element is among the matches of a selector list under a node exactly
/// if it is among the elements under the node and matches the list.
pub proof fn lemma_match_all_members(
    v: DocumentView,
    list: Seq<Seq<StepView>>,
    from: int,
    e: ElementView,
)
    ensures
        match_all_spec(v, list, from).contains(e) <==> (v.descendents(from).contains(e)
            && selector_matches(v, e.node_id as int, list)),
{
    let all = v.descendents(from);
    let pred = |x: ElementView| selector_matches(v, x.node_id as int, list);
    if all.filter(pred).contains(e) {
        all.lemma_filter_contains_rev(pred, e);
        let i = choose|i: int| 0 <= i < all.filter(pred).len() && all.filter(pred)[i] == e;
        all.lemma_filter_pred(pred, i);
    }
    if all.contains(e) && pred(e) {
        let k = choose|k: int| 0 <= k < all.len() && all[k] == e;
        all.lemma_filter_contains(pred, k);
    }
}

/// What `match_one` finds is among what `match_all` finds.
pub proof fn lemma_match_one_in_match_all(v: DocumentView, list: Seq<Seq<StepView>>, from: int)
    ensures
        match match_one_spec(v, list, from) {
            Some(x) => match_all_spec(v, list, from).contains(x),
            None => match_all_spec(v, list, from).len() == 0,
        },
{
    if match_all_spec(v, list, from).len() > 0 {
        assert(match_all_spec(v, list, from)[0] == match_one_spec(v, list, from)->0);
    }
}

/// The selector list `*` matches, from the top of the document, every
/// element of the document and nothing else.
pub proof fn lemma_universal_matches_all(v: DocumentView, e: int)
    requires
        v.wf(),
        0 <= e < v.nodes.len(),
    ensures
        match_all_spec(v, universal(), 0) == v.descendents(0),
        v.is_element(e) <==> match_all_spec(v, universal(), 0).contains(v.element(e)),
{
    let all = v.descendents(0);
    let pred = |x: ElementView| selector_matches(v, x.node_id as int, universal());
    assert forall|i: int| 0 <= i < all.len() implies pred(#[trigger] all[i]) by {
        assert(all.contains(all[i]));
        v.lemma_descendents_members(0, all[i]);
        let id = all[i].node_id as int;
        assert(compound_matches(v, id, universal()[0][0].compound));
        assert(matches_upto(v, id, universal()[0], 0));
        assert(complex_matches(v, id, universal()[0]));
    }
    lemma_filter_all(all, pred);
    v.lemma_descendents_members(0, v.element(e));
    if v.is_element(e) {
        v.lemma_all_under_sentinel(e);
    }
}

/// An element matches two selector lists put one behind the other exactly
/// if it matches one of them; so the matches of the joined list are the
/// matches of the one together with the matches of the other.
pub proof fn lemma_match_all_union(
    v: DocumentView,
    a: Seq<Seq<StepView>>,
    b: Seq<Seq<StepView>>,
    from: int,
    e: ElementView,
)
    ensures
        selector_matches(v, e.node_id as int, a + b) <==> (selector_matches(v, e.node_id as int, a)
            || selector_matches(v, e.node_id as int, b)),
        match_all_spec(v, a + b, from).contains(e) <==> (match_all_spec(v, a, from).contains(e)
            || match_all_spec(v, b, from).contains(e)),
{
    let id = e.node_id as int;
    if selector_matches(v, id, a + b) {
        let i = choose|i: int| 0 <= i < (a + b).len() && complex_matches(v, id, (a + b)[i]);
        if i < a.len() {
            assert(complex_matches(v, id, a[i]));
        } else {
            assert(complex_matches(v, id, b[i - a.len()]));
        }
    }
    if selector_matches(v, id, a) {
        let i = choose|i: int| 0 <= i < a.len() && complex_matches(v, id, a[i]);
        assert(complex_matches(v, id, (a + b)[i]));
    }
    if selector_matches(v, id, b) {
        let i = choose|i: int| 0 <= i < b.len() && complex_matches(v, id, b[i]);
        assert(complex_matches(v, id, (a + b)[i + a.len()]));
    }
    lemma_match_all_members(v, a + b, from, e);
    lemma_match_all_members(v, a, from, e);
    lemma_match_all_members(v, b, from, e);
}

} // verus!
