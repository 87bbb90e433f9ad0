use xmlsql::builder::{DocumentDbBuilder, InsertAttr, InsertNode, InsertRootElement};
use xmlsql::document::{AttrRow, NodeRow};
use xmlsql::model::{Node, RawNode};
use xmlsql::{parse_in_memory, DbError, DocumentDb, NodeType, ParseOptions};

const SAMPLE: &str =
    "<?xml version=\"1.0\"?><!--top--><r k=\"v\"><a/>one<b><c/></b><![CDATA[two]]><!--in--></r><!--end-->";

fn sample() -> DocumentDb {
    parse_in_memory(SAMPLE, ParseOptions::default()).unwrap()
}

fn kinds(nodes: &[Node]) -> Vec<&'static str> {
    nodes
        .iter()
        .map(|n| match n {
            Node::Element(_) => "element",
            Node::Text(_) => "text",
            Node::Comment(_) => "comment",
            Node::CData(_) => "cdata",
            Node::Declaration(_) => "declaration",
            Node::Doctype(_) => "doctype",
            Node::ProcessingInstruction(_) => "pi",
        })
        .collect()
}

#[test]
fn new_store_has_the_two_reserved_rows() {
    let db = DocumentDb::create_in_memory(ParseOptions::default());
    assert_eq!(db.node_count(), 2);
    assert_eq!(db.element_count(), 1);
    assert_eq!(db.attr_count(), 0);
    assert_eq!(db.node_type(0), Ok(NodeType::Document));
    assert_eq!(db.node_type(1), Ok(NodeType::Element));
    assert_eq!(db.parent_element_id(0), Ok(0));
    assert_eq!(db.parent_element_id(1), Ok(0));
    assert!(db.root().is_err());
    assert!(db.all_elements().is_empty());
    assert!(db.all_nodes().is_empty());
    assert!(db.document_child_nodes().is_empty());
}

#[test]
fn counts_and_kinds() {
    let db = sample();
    assert_eq!(db.node_count(), 11);
    assert_eq!(db.element_count(), 4);
    assert_eq!(db.attr_count(), 1);
    assert_eq!(
        kinds(&db.document_child_nodes()),
        vec!["declaration", "comment", "element", "comment"]
    );
    assert_eq!(kinds(&db.child_nodes(1)), vec!["element", "text", "element", "cdata", "comment"]);
    assert_eq!(db.all_nodes().len(), 10);
    assert_eq!(db.all_elements().len(), 4);
}

#[test]
fn root_is_node_one() {
    let db = sample();
    let root = db.root().unwrap();
    assert_eq!(root.node_id, 1);
    assert_eq!(root.name, "r");
    assert_eq!(root.ns, None);
    assert_eq!(db.node_type(1), Ok(NodeType::Element));
    assert_eq!(db.parent_element_id(1), Ok(0));
}

#[test]
fn parents_exist_and_come_first() {
    let db = sample();
    for id in 1..db.node_count() {
        let parent = db.parent_element_id(id).unwrap();
        assert!(parent < db.node_count());
        assert!(parent < id);
    }
    assert_eq!(db.parent_element_id(99), Err(DbError::NotFound));
}

#[test]
fn children_are_in_document_order() {
    let db = sample();
    let names: Vec<String> = db.children(1).into_iter().map(|e| e.name).collect();
    assert_eq!(names, vec!["a", "b"]);
    let b = db.children_by_name(1, "b");
    assert_eq!(b.len(), 1);
    assert_eq!(db.children(b[0].node_id)[0].name, "c");
    assert!(db.children_by_name(1, "c").is_empty());
    assert!(db.children(99).is_empty());
    assert!(db.child_nodes(99).is_empty());
}

#[test]
fn children_by_name_is_a_part_of_children() {
    let db = parse_in_memory("<r><a/><b/><a/><c/><a/></r>", ParseOptions::default()).unwrap();
    let all: Vec<usize> = db.children(1).into_iter().map(|e| e.node_id).collect();
    let named: Vec<usize> = db.children_by_name(1, "a").into_iter().map(|e| e.node_id).collect();
    let filtered: Vec<usize> = db
        .children(1)
        .into_iter()
        .filter(|e| e.name == "a")
        .map(|e| e.node_id)
        .collect();
    assert_eq!(named, filtered);
    assert_eq!(named.len(), 3);
    assert!(named.iter().all(|id| all.contains(id)));
}

#[test]
fn siblings() {
    let db = sample();
    let kids: Vec<usize> = db.child_nodes(1).iter().map(|n| n.node_id()).collect();
    assert_eq!(db.prev_sibling_element_id(kids[0]), Err(DbError::NotFound));
    assert_eq!(db.next_sibling_element_id(kids[0]), Ok(kids[1]));
    assert_eq!(db.prev_sibling_element_id(kids[2]), Ok(kids[1]));
    assert_eq!(db.next_sibling_element_id(kids[4]), Err(DbError::NotFound));
    assert_eq!(db.prev_sibling_element(kids[2]), Some(kids[0]));
    assert_eq!(db.next_sibling_element(kids[0]), Some(kids[2]));
    assert_eq!(db.next_sibling_element(kids[2]), None);
    assert_eq!(db.prev_sibling_element_id(0), Err(DbError::NotFound));
    assert_eq!(db.next_sibling_element_id(99), Err(DbError::NotFound));
    let top: Vec<usize> = db.document_child_nodes().iter().map(|n| n.node_id()).collect();
    assert_eq!(db.prev_sibling_element_id(1), Ok(top[1]));
    assert_eq!(db.next_sibling_element_id(1), Ok(top[3]));
}

#[test]
fn descendents_hold_children_and_their_children() {
    let db = sample();
    let under: Vec<usize> = db.descendents(1).into_iter().map(|e| e.node_id).collect();
    for child in db.children(1) {
        assert!(under.contains(&child.node_id));
        for grandchild in db.children(child.node_id) {
            assert!(under.contains(&grandchild.node_id));
        }
    }
    assert!(!under.contains(&1));
    assert_eq!(under.len(), 3);
    let all: Vec<usize> = db.all_elements().into_iter().map(|e| e.node_id).collect();
    assert_eq!(all.len(), 4);
    assert!(all.windows(2).all(|w| w[0] < w[1]));
    assert_eq!(db.descendent_nodes(1).len(), 6);
    assert!(db.descendents(99).is_empty());
}

#[test]
fn single_row_reads() {
    let db = sample();
    assert!(db.element(1).is_ok());
    assert_eq!(db.element(0).err(), Some(DbError::NotFound));
    assert_eq!(db.element(2).err(), Some(DbError::NotFound));
    assert_eq!(db.element(99).err(), Some(DbError::NotFound));
    assert_eq!(db.node(0).err(), Some(DbError::NotFound));
    assert!(matches!(db.node(2), Ok(Node::Declaration(d)) if d.value == " version=\"1.0\""));
    assert!(matches!(db.node(3), Ok(Node::Comment(c)) if c.value == "top"));
    assert_eq!(db.node(99).err(), Some(DbError::NotFound));
    assert_eq!(db.node_raw_value(3), Ok(Some("top".to_string())));
    assert_eq!(db.node_raw_value(1), Ok(None));
    assert_eq!(db.node_raw_value(99), Err(DbError::NotFound));
    assert_eq!(db.attr_raw_value(1), Ok(Some("v".to_string())));
    assert_eq!(db.attr_raw_value(0), Err(DbError::NotFound));
    assert_eq!(db.attr_raw_value(2), Err(DbError::NotFound));
    assert_eq!(db.attr(1).unwrap().name, "k");
    assert_eq!(db.attr(2).err(), Some(DbError::NotFound));
    assert_eq!(db.attr_parent_id(1), Ok(1));
    assert_eq!(db.inferred_type(1), Err(DbError::MissingColumn));
    assert_eq!(db.attr_inferred_type(1), Err(DbError::MissingColumn));
}

#[test]
fn buffer_positions_are_byte_offsets() {
    let db = sample();
    assert_eq!(db.buffer_position(0), Ok(0));
    assert_eq!(db.buffer_position(2), Ok(0));
    assert_eq!(db.buffer_position(3), Ok(SAMPLE.find("<!--top").unwrap() as u64));
    assert_eq!(db.buffer_position(1), Ok(SAMPLE.find("<r").unwrap() as u64));
    assert_eq!(db.attr_buffer_position(1), Ok(SAMPLE.find("k=").unwrap() as u64));
    assert_eq!(db.buffer_position(99), Err(DbError::NotFound));
    assert_eq!(db.attr_buffer_position(0), Err(DbError::NotFound));
}

#[test]
fn has_children_counts_rows_with_that_parent() {
    let db = sample();
    assert!(db.has_children(0));
    assert!(db.has_children(1));
    let a = db.children_by_name(1, "a")[0].node_id;
    assert!(!db.has_children(a));
    assert!(!db.has_children(99));
}

#[test]
fn attr_by_name_and_namespaces() {
    let db =
        parse_in_memory(r#"<r a="1" p:a="2" b="3"/>"#, ParseOptions::default()).unwrap();
    assert_eq!(db.attrs(1).len(), 3);
    assert_eq!(db.attr_by_name(1, "a", None).unwrap().value, "1");
    assert_eq!(db.attr_by_name(1, "a", Some("")).unwrap().value, "1");
    let prefixed = db.attr_by_name(1, "a", Some("p")).unwrap();
    assert_eq!(prefixed.value, "2");
    assert_eq!(prefixed.ns.as_deref(), Some("p"));
    assert!(db.attr_by_name(1, "a", Some("q")).is_none());
    assert!(db.attr_by_name(1, "z", None).is_none());
    assert!(db.attr_by_name(99, "a", None).is_none());
    let found = db.attr_by_name(1, "b", None).unwrap();
    assert!(db.attrs(1).iter().any(|a| a.attr_id == found.attr_id && a.name == "b" && a.ns.is_none()));
}

#[test]
fn elements_matching_attr_value() {
    let db = parse_in_memory(
        r#"<r><a k="1"/><b k="2"/><c k="1" j="1"/><d j="1"/></r>"#,
        ParseOptions::default(),
    )
    .unwrap();
    let names: Vec<String> =
        db.elements_matching_attr_value("k", "1").into_iter().map(|e| e.name).collect();
    assert_eq!(names, vec!["a", "c"]);
    assert!(db.elements_matching_attr_value("k", "3").is_empty());
}

#[test]
fn raw_nodes_sort_into_records() {
    let raw = |node_type| RawNode {
        node_id: 5,
        node_type,
        ns: Some("p".to_string()),
        name: Some("n".to_string()),
        value: Some("v".to_string()),
    };
    assert!(matches!(Node::from(raw(NodeType::Element)), Node::Element(e) if e.name == "n" && e.ns.as_deref() == Some("p")));
    assert!(matches!(Node::from(raw(NodeType::Text)), Node::Text(t) if t.value == "v"));
    assert!(matches!(Node::from(raw(NodeType::CData)), Node::CData(t) if t.value == "v"));
    assert!(matches!(Node::from(raw(NodeType::Comment)), Node::Comment(t) if t.value == "v"));
    assert!(matches!(Node::from(raw(NodeType::Declaration)), Node::Declaration(_)));
    assert!(matches!(Node::from(raw(NodeType::Doctype)), Node::Doctype(_)));
    assert!(matches!(
        Node::from(raw(NodeType::ProcessingInstruction)),
        Node::ProcessingInstruction(_)
    ));
    let empty =
        RawNode { node_id: 7, node_type: NodeType::Text, ns: None, name: None, value: None };
    let node = Node::from(empty);
    assert_eq!(node.node_id(), 7);
    assert!(matches!(node, Node::Text(t) if t.value.is_empty()));
}

#[test]
fn node_type_codes() {
    let all = [
        NodeType::Document,
        NodeType::Element,
        NodeType::Text,
        NodeType::CData,
        NodeType::Comment,
        NodeType::Declaration,
        NodeType::Doctype,
        NodeType::ProcessingInstruction,
    ];
    for (code, kind) in all.into_iter().enumerate() {
        assert_eq!(u8::from(kind), code as u8);
        assert_eq!(NodeType::try_from(code as u8), Ok(kind));
    }
    assert_eq!(NodeType::try_from(8u8), Err(()));
    assert_eq!(NodeType::try_from(255u8), Err(()));
}

fn node(id: usize, parent: usize, kind: NodeType, name: Option<&str>, order: usize) -> InsertNode {
    InsertNode::new(id, parent, kind, None, name.map(|s| s.to_string()), None, 0, order)
}

#[test]
fn writer_refuses_rows_that_break_the_rules() {
    let db = DocumentDb::create_in_memory(ParseOptions::default());
    let mut w = DocumentDbBuilder::new(db, false);
    assert_eq!(w.insert_node(node(3, 0, NodeType::Comment, None, 0)), Err(DbError::Constraint));
    assert_eq!(w.insert_node(node(2, 7, NodeType::Comment, None, 0)), Err(DbError::Constraint));
    assert_eq!(w.insert_node(node(2, 0, NodeType::Document, None, 0)), Err(DbError::Constraint));
    assert_eq!(w.insert_node(node(2, 0, NodeType::Element, None, 0)), Err(DbError::Constraint));
    assert_eq!(w.insert_node(node(2, 1, NodeType::Text, None, 0)), Err(DbError::Constraint));
    assert_eq!(
        w.insert_attr(InsertAttr::new(0, None, "a".into(), "b".into(), 0, 0)),
        Err(DbError::Constraint)
    );
    assert_eq!(
        w.insert_root_element(InsertRootElement::new(None, None, 0, 0)),
        Err(DbError::Constraint)
    );
    assert_eq!(w.insert_node(node(2, 0, NodeType::Comment, None, 0)), Ok(()));
    assert_eq!(
        w.insert_root_element(InsertRootElement::new(None, Some("r".into()), 0, 1)),
        Ok(())
    );
    assert_eq!(
        w.insert_root_element(InsertRootElement::new(None, Some("again".into()), 0, 2)),
        Err(DbError::Constraint)
    );
    assert_eq!(w.insert_node(node(3, 1, NodeType::Element, Some("a"), 4)), Ok(()));
    assert_eq!(w.insert_node(node(3, 1, NodeType::Element, Some("b"), 5)), Err(DbError::Constraint));
    assert_eq!(w.insert_node(node(4, 1, NodeType::Element, Some("b"), 5)), Ok(()));
    assert_eq!(
        w.insert_attr(InsertAttr::new(2, None, "a".into(), "b".into(), 0, 0)),
        Err(DbError::Constraint)
    );
    assert_eq!(w.insert_attr(InsertAttr::new(3, None, "a".into(), "b".into(), 0, 0)), Ok(()));
    let db = w.commit();
    assert_eq!(db.node_count(), 5);
    assert_eq!(db.attr_count(), 1);
    assert_eq!(db.children(1).len(), 2);
    assert_eq!(db.document_child_nodes().len(), 2);
    assert_eq!(db.root().unwrap().name, "r");
}

#[test]
fn the_root_takes_any_order() {
    let db = DocumentDb::create_in_memory(ParseOptions::default());
    let mut w = DocumentDbBuilder::new(db, false);
    assert_eq!(w.insert_node(node(2, 0, NodeType::Comment, None, 5)), Ok(()));
    assert_eq!(w.insert_node(node(3, 0, NodeType::Comment, None, 1)), Ok(()));
    assert_eq!(
        w.insert_root_element(InsertRootElement::new(
            Some("p".into()),
            Some("r".into()),
            17,
            3
        )),
        Ok(())
    );
    let db = w.commit();
    assert_eq!(db.node_count(), 4);
    let row = db.node_row(1).unwrap();
    assert_eq!(row.node_type, NodeType::Element);
    assert_eq!(row.parent_node_id, 0);
    assert_eq!(row.node_ns.as_deref(), Some("p"));
    assert_eq!(row.node_name.as_deref(), Some("r"));
    assert_eq!(row.buffer_position, 17);
    assert_eq!(row.node_order, 3);
    assert_eq!(row.node_value, None);
    assert_eq!(db.node_row(2).unwrap().node_order, 5);
    assert_eq!(db.node_row(3).unwrap().node_order, 1);
    let top: Vec<usize> = db.document_child_nodes().iter().map(|n| n.node_id()).collect();
    assert_eq!(top, vec![3, 1, 2]);
    assert_eq!(db.prev_sibling_element_id(1), Ok(3));
    assert_eq!(db.next_sibling_element_id(1), Ok(2));
}

#[test]
fn nodes_take_any_order_and_children_stay_sorted() {
    let db = DocumentDb::create_in_memory(ParseOptions::default());
    let mut w = DocumentDbBuilder::new(db, false);
    assert_eq!(
        w.insert_root_element(InsertRootElement::new(None, Some("r".into()), 0, 0)),
        Ok(())
    );
    assert_eq!(w.insert_node(node(2, 1, NodeType::Element, Some("a"), 4)), Ok(()));
    assert_eq!(w.insert_node(node(3, 1, NodeType::Element, Some("b"), 2)), Ok(()));
    assert_eq!(w.insert_node(node(4, 1, NodeType::Element, Some("c"), 4)), Ok(()));
    assert_eq!(w.insert_node(node(5, 1, NodeType::Element, Some("d"), 0)), Ok(()));
    assert_eq!(w.insert_node(node(6, 1, NodeType::Element, Some("e"), 9)), Ok(()));
    assert_eq!(w.insert_node(node(7, 0, NodeType::Comment, None, 0)), Ok(()));
    let db = w.commit();
    let names: Vec<String> = db.children(1).into_iter().map(|e| e.name).collect();
    assert_eq!(names, vec!["d", "b", "a", "c", "e"]);
    let orders: Vec<usize> = db
        .child_nodes(1)
        .iter()
        .map(|n| db.node_row(n.node_id()).unwrap().node_order)
        .collect();
    assert_eq!(orders, vec![0, 2, 4, 4, 9]);
    let top: Vec<usize> = db.document_child_nodes().iter().map(|n| n.node_id()).collect();
    assert_eq!(top, vec![1, 7]);
    assert_eq!(db.prev_sibling_element(4), Some(2));
    assert_eq!(db.next_sibling_element(3), Some(2));
    let (nodes, attrs) = rows_of(&db);
    let back = DocumentDb::from_rows(ParseOptions::default(), nodes, attrs).unwrap();
    let again: Vec<String> = back.children(1).into_iter().map(|e| e.name).collect();
    assert_eq!(again, names);
}

#[test]
fn writer_and_store_must_agree_on_inference() {
    let db = DocumentDb::create_in_memory(ParseOptions::default());
    let mut w = DocumentDbBuilder::new(db, true);
    assert_eq!(w.insert_node(node(2, 0, NodeType::Comment, None, 0)), Err(DbError::MissingColumn));
    assert_eq!(
        w.insert_attr(InsertAttr::new(1, None, "a".into(), "b".into(), 0, 0)),
        Err(DbError::MissingColumn)
    );
}

fn rows_of(db: &DocumentDb) -> (Vec<NodeRow>, Vec<AttrRow>) {
    let nodes = (0..db.node_count()).map(|i| db.node_row(i).unwrap()).collect();
    let attrs = (1..=db.attr_count()).map(|i| db.attr_row(i).unwrap()).collect();
    (nodes, attrs)
}

#[test]
fn saved_rows_load_into_the_same_store() {
    for infer_types in [false, true] {
        let options = ParseOptions { ignore_whitespace: false, infer_types, case_insensitive: false };
        let db = parse_in_memory(SAMPLE, options).unwrap();
        let (nodes, attrs) = rows_of(&db);
        let back = DocumentDb::from_rows(options, nodes, attrs).unwrap();
        assert_eq!(back.node_count(), db.node_count());
        assert_eq!(back.attr_count(), db.attr_count());
        assert_eq!(back.to_string_pretty(), db.to_string_pretty());
        assert_eq!(kinds(&back.document_child_nodes()), kinds(&db.document_child_nodes()));
        assert_eq!(back.attr_by_name(1, "k", None).unwrap().value, "v");
    }
    let empty = DocumentDb::create_in_memory(ParseOptions::default());
    let (nodes, attrs) = rows_of(&empty);
    let back = DocumentDb::from_rows(ParseOptions::default(), nodes, attrs).unwrap();
    assert_eq!(back.node_count(), 2);
    assert!(back.root().is_err());
}

#[test]
fn rows_that_are_no_store_do_not_load() {
    let options = ParseOptions::default();
    let db = parse_in_memory(SAMPLE, options).unwrap();
    assert_eq!(DocumentDb::from_rows(options, vec![], vec![]).err(), Some(DbError::Constraint));
    let (mut nodes, attrs) = rows_of(&db);
    nodes[4].parent_node_id = 9;
    assert_eq!(
        DocumentDb::from_rows(options, nodes, attrs).err(),
        Some(DbError::Constraint)
    );
    let (mut nodes, attrs) = rows_of(&db);
    nodes[0].node_order = 3;
    assert!(DocumentDb::from_rows(options, nodes, attrs).is_err());
    let (nodes, mut attrs) = rows_of(&db);
    attrs[0].parent_node_id = 2;
    assert_eq!(
        DocumentDb::from_rows(options, nodes, attrs).err(),
        Some(DbError::Constraint)
    );
    let typed = ParseOptions { infer_types: true, ..options };
    let (nodes, attrs) = rows_of(&db);
    assert!(DocumentDb::from_rows(typed, nodes, attrs).is_err());
}
