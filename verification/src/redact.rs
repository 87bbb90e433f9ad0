//! Overwriting the values of a document with placeholders of their kind.

use vstd::prelude::*;

use crate::document::{
    AttrRowView, DbError, DocumentDb, DocumentView, NodeRowView, NodeType,
};
use crate::infer::{
    all_digits, decimal_value, digit_run, infer_spec, is_decimal_number, is_digit, is_exponent,
    is_float_text, is_hex_digit, is_hyphenated_uuid, parse_u64, uuid_parses, without_plus,
    without_sign, Inferred, InferredType,
};
use crate::text::{all_whitespace, is_whitespace, is_word_ignoring_case};
use crate::model::text_or_empty;
use crate::text::{trim, trimmed};

verus! {

/// A rule for the elements of one name: what of them is left as it is.
#[derive(Debug, Clone)]
pub struct IgnoreRule {
    /// The name of the elements that the rule is for.
    pub match_tag: String,
    /// The element's own value and its text, CDATA and comments are left as
    /// they are.
    pub allow_value: bool,
    /// The attributes of these names are left as they are.
    pub allow_attrs: Vec<String>,
}

/// What an [`IgnoreRule`] holds, as plain values.
pub struct IgnoreRuleView {
    pub match_tag: Seq<char>,
    pub allow_value: bool,
    pub allow_attrs: Seq<Seq<char>>,
}

impl View for IgnoreRule {
    type V = IgnoreRuleView;

    open spec fn view(&self) -> IgnoreRuleView {
        IgnoreRuleView {
            match_tag: self.match_tag@,
            allow_value: self.allow_value,
            allow_attrs: self.allow_attrs@.map_values(|s: String| s@),
        }
    }
}

/// The plain values of a list of rules.
pub open spec fn rules_view(rules: Seq<IgnoreRule>) -> Seq<IgnoreRuleView> {
    rules.map_values(|r: IgnoreRule| r@)
}

/// Which values are rewritten from their own text instead of overwritten.
#[derive(Debug, Clone, Copy)]
pub struct Mask {
    /// A UUID becomes the version-5 UUID of its text under the seed of the
    /// pass, so that equal UUIDs stay equal.
    pub uuids: bool,
}

/// How a document is redacted.
#[derive(Debug, Clone)]
pub struct Options {
    pub ignore: Vec<IgnoreRule>,
    pub mask: Mask,
}

/// The text of the version-5 UUID of a name under a namespace.
pub uninterp spec fn uuid_v5(seed: u128, name: Seq<char>) -> Seq<char>;

/// Trusted: the hyphenated text of `uuid::Uuid::new_v5` for the namespace
/// with the given 128 bits and the bytes of the name. The result depends on
/// the two alone.
#[verifier::external_body]
fn uuid_v5_text(seed: u128, name: &str) -> (r: String)
    ensures
        r@ == uuid_v5(seed, name@),
{
    uuid::Uuid::new_v5(&uuid::Uuid::from_u128(seed), name.as_bytes()).to_string()
}

/// Trusted: the 128 bits of a fresh `uuid::Uuid::new_v4`. They are drawn at
/// random, so nothing is said of them.
#[verifier::external_body]
fn random_seed() -> u128 {
    uuid::Uuid::new_v4().as_u128()
}

/// What a value of a kind is overwritten with; nothing where values of the
/// kind are left as they are.
pub open spec fn scrub_value(
    ty: InferredType,
    text: Seq<char>,
    mask_uuids: bool,
    seed: u128,
) -> Option<Seq<char>> {
    match ty {
        InferredType::Empty | InferredType::Whitespace | InferredType::Boolean
        | InferredType::Json => None,
        InferredType::String => Some("[redacted]"@),
        InferredType::Int => Some("0"@),
        InferredType::Float => Some("0.123"@),
        InferredType::Uuid => if mask_uuids {
            Some(uuid_v5(seed, trimmed(text)))
        } else {
            Some("00000000-0000-0000-0000-000000000000"@)
        },
        InferredType::DateTime => Some("1970-01-01T00:00:00Z"@),
        InferredType::Time => Some("00:00:00"@),
        InferredType::Date => Some("1970-01-01"@),
        InferredType::Duration => Some("55:55:55"@),
    }
}

/// What a value of a kind is overwritten with.
pub fn scrub(ty: InferredType, text: &str, mask_uuids: bool, seed: u128) -> (r: Option<String>)
    ensures
        r.deep_view() == scrub_value(ty, text@, mask_uuids, seed),
{
    match ty {
        InferredType::Empty | InferredType::Whitespace | InferredType::Boolean
        | InferredType::Json => None,
        InferredType::String => Some("[redacted]".to_owned()),
        InferredType::Int => Some("0".to_owned()),
        InferredType::Float => Some("0.123".to_owned()),
        InferredType::Uuid => if mask_uuids {
            Some(uuid_v5_text(seed, trim(text).as_str()))
        } else {
            Some("00000000-0000-0000-0000-000000000000".to_owned())
        },
        InferredType::DateTime => Some("1970-01-01T00:00:00Z".to_owned()),
        InferredType::Time => Some("00:00:00".to_owned()),
        InferredType::Date => Some("1970-01-01".to_owned()),
        InferredType::Duration => Some("55:55:55".to_owned()),
    }
}

/// Whether a rule is for the elements of a name.
pub open spec fn any_rule(rules: Seq<IgnoreRuleView>, tag: Seq<char>) -> bool {
    exists|i: int| 0 <= i < rules.len() && (#[trigger] rules[i]).match_tag == tag
}

/// Whether the values of the elements of a name are left as they are: a
/// rule is for them, and every rule that is allows it.
pub open spec fn value_kept(rules: Seq<IgnoreRuleView>, tag: Seq<char>) -> bool {
    &&& any_rule(rules, tag)
    &&& forall|i: int|
        0 <= i < rules.len() && (#[trigger] rules[i]).match_tag == tag ==> rules[i].allow_value
}

/// Whether an attribute of the elements of a name is left as it is: a rule
/// is for them, and every rule that is names the attribute.
pub open spec fn attr_kept(rules: Seq<IgnoreRuleView>, tag: Seq<char>, attr: Seq<char>) -> bool {
    &&& any_rule(rules, tag)
    &&& forall|i: int|
        0 <= i < rules.len() && (#[trigger] rules[i]).match_tag == tag
            ==> rules[i].allow_attrs.contains(attr)
}

/// Whether a list of names holds a name.
fn holds_name(names: &Vec<String>, name: &str) -> (r: bool)
    ensures
        r == names@.map_values(|s: String| s@).contains(name@),
{
    let ghost views = names@.map_values(|s: String| s@);
    let mut i: usize = 0;
    while i < names.len()
        invariant
            i <= names.len(),
            views == names@.map_values(|s: String| s@),
            forall|k: int| 0 <= k < i ==> views[k] != name@,
        decreases names.len() - i,
    {
        if crate::text::str_eq(names[i].as_str(), name) {
            assert(views[i as int] == name@);
            return true;
        }
        i += 1;
    }
    false
}

/// Whether the values of the elements of a name are left as they are.
pub fn keeps_value(rules: &Vec<IgnoreRule>, tag: &str) -> (r: bool)
    ensures
        r == value_kept(rules_view(rules@), tag@),
{
    let ghost views = rules_view(rules@);
    let mut any = false;
    let mut i: usize = 0;
    while i < rules.len()
        invariant
            i <= rules.len(),
            views == rules_view(rules@),
            any == exists|k: int| 0 <= k < i && (#[trigger] views[k]).match_tag == tag@,
            forall|k: int|
                0 <= k < i && (#[trigger] views[k]).match_tag == tag@ ==> views[k].allow_value,
        decreases rules.len() - i,
    {
        if crate::text::str_eq(rules[i].match_tag.as_str(), tag) {
            assert(views[i as int].match_tag == tag@);
            if !rules[i].allow_value {
                return false;
            }
            any = true;
        }
        i += 1;
    }
    any
}

/// Whether an attribute of the elements of a name is left as it is.
pub fn keeps_attr(rules: &Vec<IgnoreRule>, tag: &str, attr: &str) -> (r: bool)
    ensures
        r == attr_kept(rules_view(rules@), tag@, attr@),
{
    let ghost views = rules_view(rules@);
    let mut any = false;
    let mut i: usize = 0;
    while i < rules.len()
        invariant
            i <= rules.len(),
            views == rules_view(rules@),
            any == exists|k: int| 0 <= k < i && (#[trigger] views[k]).match_tag == tag@,
            forall|k: int|
                0 <= k < i && (#[trigger] views[k]).match_tag == tag@
                    ==> views[k].allow_attrs.contains(attr@),
        decreases rules.len() - i,
    {
        if crate::text::str_eq(rules[i].match_tag.as_str(), tag) {
            assert(views[i as int].match_tag == tag@);
            if !holds_name(&rules[i].allow_attrs, attr) {
                return false;
            }
            any = true;
        }
        i += 1;
    }
    any
}

/// Whether a node is text, CDATA or a comment.
pub open spec fn is_text_like(t: NodeType) -> bool {
    t == NodeType::Text || t == NodeType::CData || t == NodeType::Comment
}

/// The element that decides over the value of a node: the node itself if
/// it is an element, its parent if it is text, CDATA or a comment under an
/// element. No element decides over any other node.
pub open spec fn owner(v: DocumentView, id: int) -> Option<int> {
    if v.is_element(id) {
        Some(id)
    } else if v.is_node(id) && is_text_like(v.nodes[id].node_type) && v.is_element(
        v.nodes[id].parent_node_id as int,
    ) {
        Some(v.nodes[id].parent_node_id as int)
    } else {
        None
    }
}

/// What the value of a node is overwritten with, if it is overwritten.
pub open spec fn node_scrub(
    v: DocumentView,
    rules: Seq<IgnoreRuleView>,
    mask_uuids: bool,
    seed: u128,
    id: int,
) -> Option<Seq<char>> {
    match owner(v, id) {
        Some(e) => if value_kept(rules, v.element(e).name) {
            None
        } else {
            match v.nodes[id].inferred_type {
                Some(ty) => scrub_value(
                    ty,
                    text_or_empty(v.nodes[id].node_value),
                    mask_uuids,
                    seed,
                ),
                None => None,
            }
        },
        None => None,
    }
}

/// What the value of an attribute is overwritten with, if it is
/// overwritten.
pub open spec fn attr_scrub(
    v: DocumentView,
    rules: Seq<IgnoreRuleView>,
    mask_uuids: bool,
    seed: u128,
    id: int,
) -> Option<Seq<char>> {
    let e = v.attr_row(id).parent_node_id as int;
    if v.is_attr(id) && v.is_element(e) && !attr_kept(
        rules,
        v.element(e).name,
        v.attr_row(id).attr_name,
    ) {
        match v.attr_row(id).inferred_type {
            Some(ty) => scrub_value(ty, v.attr_row(id).attr_value, mask_uuids, seed),
            None => None,
        }
    } else {
        None
    }
}

/// The row of a node after a redaction that goes by the document `v`.
pub open spec fn redacted_node(
    v: DocumentView,
    rules: Seq<IgnoreRuleView>,
    mask_uuids: bool,
    seed: u128,
    row: NodeRowView,
    id: int,
) -> NodeRowView {
    if 0 <= id < v.nodes.len() && node_scrub(v, rules, mask_uuids, seed, id) is Some {
        NodeRowView { node_value: node_scrub(v, rules, mask_uuids, seed, id), ..row }
    } else {
        row
    }
}

/// The row of an attribute after a redaction that goes by the document
/// `v`.
pub open spec fn redacted_attr(
    v: DocumentView,
    rules: Seq<IgnoreRuleView>,
    mask_uuids: bool,
    seed: u128,
    row: AttrRowView,
    id: int,
) -> AttrRowView {
    if attr_scrub(v, rules, mask_uuids, seed, id) is Some {
        AttrRowView { attr_value: attr_scrub(v, rules, mask_uuids, seed, id)->0, ..row }
    } else {
        row
    }
}

/// The document `out` after a redaction that goes by the document `v`:
/// every row of `out` whose id names, in `v`, a value to overwrite has the
/// placeholder for its value; everything else is as it was.
pub open spec fn redacted(
    v: DocumentView,
    out: DocumentView,
    rules: Seq<IgnoreRuleView>,
    mask_uuids: bool,
    seed: u128,
) -> DocumentView {
    DocumentView {
        nodes: Seq::new(
            out.nodes.len(),
            |i: int| redacted_node(v, rules, mask_uuids, seed, out.nodes[i], i),
        ),
        attrs: Seq::new(
            out.attrs.len(),
            |i: int| redacted_attr(v, rules, mask_uuids, seed, out.attrs[i], i + 1),
        ),
        ..out
    }
}

/// What the value of a node is overwritten with, if it is overwritten.
fn scrub_for_node(db: &DocumentDb, options: &Options, seed: u128, node_id: usize) -> (r: Option<
    String,
>)
    requires
        db@.wf(),
        node_id < db@.nodes.len(),
    ensures
        r.deep_view() == node_scrub(
            db@,
            rules_view(options.ignore@),
            options.mask.uuids,
            seed,
            node_id as int,
        ),
{
    let element = if db.is_element(node_id) {
        node_id
    } else if db.is_node(node_id) {
        let text_like = match db.node_type(node_id) {
            Ok(NodeType::Text) | Ok(NodeType::CData) | Ok(NodeType::Comment) => true,
            _ => false,
        };
        let parent = match db.parent_element_id(node_id) {
            Ok(p) => p,
            Err(_) => {
                return None;
            },
        };
        if text_like && db.is_element(parent) {
            parent
        } else {
            return None;
        }
    } else {
        return None;
    };
    let tag = match db.element(element) {
        Ok(e) => e.name,
        Err(_) => {
            return None;
        },
    };
    if keeps_value(&options.ignore, tag.as_str()) {
        return None;
    }
    let ty = match db.inferred_type(node_id) {
        Ok(t) => t,
        Err(_) => {
            return None;
        },
    };
    let value = match db.node_raw_value(node_id) {
        Ok(Some(v)) => v,
        _ => String::new(),
    };
    scrub(ty, value.as_str(), options.mask.uuids, seed)
}

/// What the value of an attribute is overwritten with, if it is
/// overwritten.
fn scrub_for_attr(db: &DocumentDb, options: &Options, seed: u128, attr_id: usize) -> (r: Option<
    String,
>)
    requires
        db@.wf(),
        db@.is_attr(attr_id as int),
    ensures
        r.deep_view() == attr_scrub(
            db@,
            rules_view(options.ignore@),
            options.mask.uuids,
            seed,
            attr_id as int,
        ),
{
    let parent = match db.attr_parent_id(attr_id) {
        Ok(p) => p,
        Err(_) => {
            return None;
        },
    };
    if !db.is_element(parent) {
        return None;
    }
    let tag = match db.element(parent) {
        Ok(e) => e.name,
        Err(_) => {
            return None;
        },
    };
    let attr = match db.attr(attr_id) {
        Ok(a) => a,
        Err(_) => {
            return None;
        },
    };
    if keeps_attr(&options.ignore, tag.as_str(), attr.name.as_str()) {
        return None;
    }
    let ty = match db.attr_inferred_type(attr_id) {
        Ok(t) => t,
        Err(_) => {
            return None;
        },
    };
    scrub(ty, attr.value.as_str(), options.mask.uuids, seed)
}

/// Redacts `out_db` by what `db` holds, under a given seed: for every
/// element of `db`, its own value, its text, CDATA and comments and its
/// attributes are overwritten in `out_db` by the placeholder of their
/// inferred type, but for what the rules for the element's name leave as
/// it is. Fails, and changes nothing, where `db` keeps no inferred types.
pub fn redact_with_seed(db: &DocumentDb, out_db: DocumentDb, options: &Options, seed: u128) -> (r:
    Result<DocumentDb, DbError>)
    requires
        db@.wf(),
        out_db@.wf(),
    ensures
        !db@.options.infer_types ==> r is Err && r->Err_0 == DbError::MissingColumn,
        db@.options.infer_types ==> r is Ok && r->Ok_0@ == redacted(
            db@,
            out_db@,
            rules_view(options.ignore@),
            options.mask.uuids,
            seed,
        ) && r->Ok_0@.wf(),
{
    if !db.options().infer_types {
        return Err(DbError::MissingColumn);
    }
    let ghost v = db@;
    let ghost out0 = out_db@;
    let ghost rules = rules_view(options.ignore@);
    let ghost mask = options.mask.uuids;
    let mut out = out_db;
    let n = db.node_count();
    let mut i: usize = 0;
    while i < n
        invariant
            i <= n,
            n == v.nodes.len(),
            v == db@,
            v.wf(),
            out@.wf(),
            rules == rules_view(options.ignore@),
            mask == options.mask.uuids,
            out@.nodes.len() == out0.nodes.len(),
            out@.attrs == out0.attrs,
            out@.children == out0.children,
            out@.attr_lists == out0.attr_lists,
            out@.options == out0.options,
            forall|k: int|
                0 <= k < out0.nodes.len() ==> #[trigger] out@.nodes[k] == if k < i {
                    redacted_node(v, rules, mask, seed, out0.nodes[k], k)
                } else {
                    out0.nodes[k]
                },
        decreases n - i,
    {
        if let Some(value) = scrub_for_node(db, options, seed, i) {
            out.set_node_value(i, value.as_str());
        }
        i += 1;
    }
    let m = db.attr_count();
    let mut a: usize = 0;
    while a < m
        invariant
            a <= m,
            m == v.attrs.len(),
            v == db@,
            v.wf(),
            out@.wf(),
            rules == rules_view(options.ignore@),
            mask == options.mask.uuids,
            out@.nodes == redacted(v, out0, rules, mask, seed).nodes,
            out@.attrs.len() == out0.attrs.len(),
            out@.children == out0.children,
            out@.attr_lists == out0.attr_lists,
            out@.options == out0.options,
            forall|k: int|
                0 <= k < out0.attrs.len() ==> #[trigger] out@.attrs[k] == if k < a {
                    redacted_attr(v, rules, mask, seed, out0.attrs[k], k + 1)
                } else {
                    out0.attrs[k]
                },
        decreases m - a,
    {
        if let Some(value) = scrub_for_attr(db, options, seed, a + 1) {
            out.set_attr_value(a + 1, value.as_str());
        }
        a += 1;
    }
    proof {
        assert(out@.attrs =~= redacted(v, out0, rules, mask, seed).attrs);
    }
    Ok(out)
}

/// Redacts `out_db` by what `db` holds, under a seed that is drawn once for
/// the pass. See [`redact_with_seed`] for what is overwritten.
pub fn redact(db: &DocumentDb, out_db: DocumentDb, options: &Options) -> (r: Result<
    DocumentDb,
    DbError,
>)
    requires
        db@.wf(),
        out_db@.wf(),
    ensures
        !db@.options.infer_types ==> r is Err && r->Err_0 == DbError::MissingColumn,
        db@.options.infer_types ==> r is Ok && r->Ok_0@.wf() && exists|seed: u128|
            r->Ok_0@ == #[trigger] redacted(
                db@,
                out_db@,
                rules_view(options.ignore@),
                options.mask.uuids,
                seed,
            ),
{
    let seed = random_seed();
    redact_with_seed(db, out_db, options, seed)
}

/// The placeholder of an integer is read as an integer again, and the
/// placeholder of a floating-point number as a floating-point number.
pub proof fn lemma_number_placeholders_keep_their_kind(mask_uuids: bool, seed: u128, text: Seq<char>)
    ensures
        scrub_value(InferredType::Int, text, mask_uuids, seed) is Some,
        infer_spec(scrub_value(InferredType::Int, text, mask_uuids, seed)->0) == Inferred::Int(0),
        scrub_value(InferredType::Float, text, mask_uuids, seed) is Some,
        infer_spec(scrub_value(InferredType::Float, text, mask_uuids, seed)->0) == Inferred::Float,
{
    reveal_strlit("0");
    reveal_strlit("0.123");
    reveal_strlit("true");
    reveal_strlit("false");
    let zero = "0"@;
    assert(zero.len() == 1 && zero[0] == '0');
    assert(!is_whitespace(zero[0]));
    assert(!all_whitespace(zero));
    assert(!is_word_ignoring_case(zero, "true"@));
    assert(!is_word_ignoring_case(zero, "false"@));
    assert(without_plus(zero) == zero);
    assert(is_digit(zero[0]));
    assert(all_digits(zero));
    assert(zero.drop_last().len() == 0);
    assert(decimal_value(zero.drop_last()) == 0);
    assert(decimal_value(zero) == 0);
    assert(parse_u64(zero) == Some(0u64));
    let f = "0.123"@;
    assert(f.len() == 5);
    assert(f[0] == '0' && f[1] == '.' && f[2] == '1' && f[3] == '2' && f[4] == '3');
    assert(!is_whitespace(f[0]));
    assert(!all_whitespace(f));
    assert(!is_word_ignoring_case(f, "true"@));
    assert(!is_word_ignoring_case(f, "false"@));
    assert(without_plus(f) == f);
    assert(!is_digit(f[1]));
    assert(!all_digits(f));
    assert(parse_u64(f) is None);
    assert(without_sign(f) == f);
    assert(digit_run(f, 5) == 0);
    assert(digit_run(f, 4) == 1);
    assert(digit_run(f, 3) == 2);
    assert(digit_run(f, 2) == 3);
    assert(digit_run(f, 1) == 0);
    assert(digit_run(f, 0) == 1);
    assert(is_decimal_number(f));
    assert(is_float_text(f));
}

/// The placeholder of a UUID that is not masked is read as a UUID again.
pub proof fn lemma_uuid_placeholder_keeps_its_kind(seed: u128, text: Seq<char>)
    ensures
        scrub_value(InferredType::Uuid, text, false, seed) is Some,
        infer_spec(scrub_value(InferredType::Uuid, text, false, seed)->0) == Inferred::Uuid,
{
    reveal_strlit("00000000-0000-0000-0000-000000000000");
    reveal_strlit("true");
    reveal_strlit("false");
    reveal_strlit("inf");
    reveal_strlit("infinity");
    reveal_strlit("nan");
    let z = "00000000-0000-0000-0000-000000000000"@;
    assert(z.len() == 36);
    assert forall|i: int| 0 <= i < 36 implies if i == 8 || i == 13 || i == 18 || i == 23 {
        #[trigger] z[i] == '-'
    } else {
        z[i] == '0'
    } by {
        assert(z[0] == '0' && z[1] == '0' && z[2] == '0' && z[3] == '0' && z[4] == '0');
        assert(z[5] == '0' && z[6] == '0' && z[7] == '0' && z[8] == '-' && z[9] == '0');
        assert(z[10] == '0' && z[11] == '0' && z[12] == '0' && z[13] == '-' && z[14] == '0');
        assert(z[15] == '0' && z[16] == '0' && z[17] == '0' && z[18] == '-' && z[19] == '0');
        assert(z[20] == '0' && z[21] == '0' && z[22] == '0' && z[23] == '-' && z[24] == '0');
        assert(z[25] == '0' && z[26] == '0' && z[27] == '0' && z[28] == '0' && z[29] == '0');
        assert(z[30] == '0' && z[31] == '0' && z[32] == '0' && z[33] == '0' && z[34] == '0');
        assert(z[35] == '0');
    }
    assert(is_hyphenated_uuid(z)) by {
        assert forall|i: int| 0 <= i < 36 implies if i == 8 || i == 13 || i == 18 || i == 23 {
            #[trigger] z[i] == '-'
        } else {
            is_hex_digit(z[i])
        } by {
            if !(i == 8 || i == 13 || i == 18 || i == 23) {
                assert(z[i] == '0');
            }
        }
    }
    assert(uuid_parses(z));
    assert(z[0] == '0' && z[8] == '-');
    assert(!is_whitespace(z[0]));
    assert(!all_whitespace(z));
    assert(!is_word_ignoring_case(z, "true"@));
    assert(!is_word_ignoring_case(z, "false"@));
    assert(without_plus(z) == z);
    assert(!is_digit(z[8]));
    assert(!all_digits(z));
    assert(parse_u64(z) is None);
    assert(without_sign(z) == z);
    assert(!is_word_ignoring_case(z, "inf"@));
    assert(!is_word_ignoring_case(z, "infinity"@));
    assert(!is_word_ignoring_case(z, "nan"@));
    assert(digit_run(z, 8) == 0);
    assert(z[7] == '0' && z[6] == '0' && z[5] == '0' && z[4] == '0');
    assert(z[3] == '0' && z[2] == '0' && z[1] == '0');
    assert(digit_run(z, 7) == 1);
    assert(digit_run(z, 6) == 2);
    assert(digit_run(z, 5) == 3);
    assert(digit_run(z, 4) == 4);
    assert(digit_run(z, 3) == 5);
    assert(digit_run(z, 2) == 6);
    assert(digit_run(z, 1) == 7);
    assert(digit_run(z, 0) == 8);
    assert(!is_exponent(z, 8));
    assert(!is_decimal_number(z));
    assert(!is_float_text(z));
}

} // verus!
