use xmlsql::model::Node;
use xmlsql::{parse_in_memory, DbError, InferredType, ParseOptions};

fn typed() -> ParseOptions {
    ParseOptions { ignore_whitespace: false, infer_types: true, case_insensitive: false }
}

#[test]
fn two_children_with_ids() {
    let db = parse_in_memory(r#"<r><a id="x"/><a id="y"/></r>"#, ParseOptions::default()).unwrap();
    assert_eq!(db.root().unwrap().name, "r");
    let children = db.children(1);
    assert_eq!(children.len(), 2);
    assert_eq!(children[0].name, "a");
    assert_eq!(children[1].name, "a");
    assert_eq!(children[0].node_id, 2);
    assert_eq!(children[1].node_id, 3);
    let first = db.attr_by_name(children[0].node_id, "id", None).unwrap();
    assert_eq!(first.value, "x");
    let second = db.attr_by_name(children[1].node_id, "id", None).unwrap();
    assert_eq!(second.value, "y");
}

#[test]
fn text_children_are_classified() {
    let db = parse_in_memory("<r><b>42</b><b>hi</b></r>", typed()).unwrap();
    let bs = db.children(1);
    assert_eq!(bs.len(), 2);
    let first = db.child_nodes(bs[0].node_id);
    let second = db.child_nodes(bs[1].node_id);
    assert_eq!(first.len(), 1);
    assert_eq!(second.len(), 1);
    assert!(matches!(&first[0], Node::Text(t) if t.value == "42"));
    assert_eq!(db.inferred_type(first[0].node_id()), Ok(InferredType::Int));
    assert_eq!(db.inferred_type(second[0].node_id()), Ok(InferredType::String));
}

#[test]
fn repeated_attribute_is_stored_twice() {
    let db = parse_in_memory(r#"<r x="yes" x="no"/>"#, ParseOptions::default()).unwrap();
    let attrs = db.attrs(1);
    assert_eq!(attrs.len(), 2);
    assert_ne!(attrs[0].attr_id, attrs[1].attr_id);
    assert_eq!(attrs[0].value, "yes");
    assert_eq!(attrs[1].value, "no");
    assert_eq!(db.attr_by_name(1, "x", None).unwrap().value, "yes");
}

#[test]
fn inferred_type_needs_inference() {
    let db = parse_in_memory("<r/>", ParseOptions::default()).unwrap();
    assert_eq!(db.inferred_type(1), Err(DbError::MissingColumn));
}

#[test]
fn a_long_document_is_read() {
    let mut text = String::from("<r>");
    for i in 0..20000 {
        text.push_str(&format!("<a n=\"{}\">{}</a>", i, i));
    }
    text.push_str("</r>");
    let db = parse_in_memory(&text, typed()).unwrap();
    assert_eq!(db.node_count(), 2 + 2 * 20000);
    assert_eq!(db.attr_count(), 20000);
    let children = db.children(1);
    assert_eq!(children.len(), 20000);
    assert_eq!(db.all_elements().len(), 20001);
    let last = children[19999].node_id;
    assert_eq!(db.attr_by_name(last, "n", None).unwrap().value, "19999");
    assert_eq!(db.inferred_type(last + 1), Ok(InferredType::Int));
    let found = xmlsql::Selector::new("r > a[n='12345']").unwrap().match_all(&db);
    assert_eq!(found.len(), 1);
}

#[test]
fn a_deep_document_is_read() {
    let depth = 2000;
    let mut text = String::new();
    for _ in 0..depth {
        text.push_str("<d>");
    }
    for _ in 0..depth {
        text.push_str("</d>");
    }
    let db = parse_in_memory(&text, ParseOptions::default()).unwrap();
    assert_eq!(db.node_count(), 1 + depth);
    assert_eq!(db.descendents(1).len(), depth - 1);
    assert_eq!(xmlsql::Selector::new("d d").unwrap().match_all(&db).len(), depth - 1);
    assert_eq!(db.parent_element_id(depth), Ok(depth - 1));
}
