use xmlsql::builder::InsertNode;
use xmlsql::model::Node;
use xmlsql::parse::{
    ingest, mutate_text, parse, parse_start_event, parse_token, tokenize, Message, ParserState,
    ParserStateValue, TokenKind, XmlToken,
};
use xmlsql::{
    parse_bytes_in_memory, parse_in_memory, DbError, DocumentDb, Error, InferredType, NodeType,
    ParseOptions,
};

fn options(ignore_whitespace: bool, infer_types: bool, case_insensitive: bool) -> ParseOptions {
    ParseOptions { ignore_whitespace, infer_types, case_insensitive }
}

#[test]
fn default_options_are_all_off() {
    let o = ParseOptions::default();
    assert!(!o.ignore_whitespace);
    assert!(!o.infer_types);
    assert!(!o.case_insensitive);
}

#[test]
fn parser_state_follows_the_open_elements() {
    let mut s = ParserState::default();
    assert_eq!(s.current(), ParserStateValue::Document);
    assert_eq!(s.parent_node_id(), 0);
    assert_eq!(s.current_order(), 0);
    s.increment_order();
    s.increment_order();
    assert_eq!(s.current_order(), 2);
    s.push(ParserStateValue::Root);
    assert_eq!(s.current(), ParserStateValue::Root);
    assert_eq!(s.parent_node_id(), 1);
    assert_eq!(s.current_order(), 0);
    s.increment_order();
    s.push(ParserStateValue::Element(9));
    assert_eq!(s.current(), ParserStateValue::Element(9));
    assert_eq!(s.parent_node_id(), 9);
    assert_eq!(s.current_order(), 0);
    s.pop();
    assert_eq!(s.parent_node_id(), 1);
    assert_eq!(s.current_order(), 1);
    s.pop();
    assert_eq!(s.current(), ParserStateValue::Document);
    assert_eq!(s.current_order(), 2);
    s.pop();
    assert_eq!(s.current(), ParserStateValue::Document);
    assert_eq!(s.current_order(), 2);
}

#[test]
fn mutate_text_by_options() {
    assert_eq!(mutate_text("  Ab C ", &options(true, false, true)), "ab c");
    assert_eq!(mutate_text("  Ab C ", &options(true, false, false)), "Ab C");
    assert_eq!(mutate_text("  Ab C ", &options(false, false, true)), "  ab c ");
    assert_eq!(mutate_text("  Ab C ", &options(false, false, false)), "  Ab C ");
    assert_eq!(mutate_text("ÄÖ", &options(false, false, true)), "äö");
}

#[test]
fn tokens_of_a_small_text() {
    let tokens = tokenize("<?xml version=\"1.0\"?><p:a k='v'>t<![CDATA[c]]><!--m--></p:a>").unwrap();
    let kinds: Vec<TokenKind> = tokens.iter().map(|t| t.kind).collect();
    assert_eq!(
        kinds,
        vec![
            TokenKind::Declaration,
            TokenKind::ElementStart,
            TokenKind::Attribute,
            TokenKind::ElementOpen,
            TokenKind::Text,
            TokenKind::Cdata,
            TokenKind::Comment,
            TokenKind::ElementClose,
        ]
    );
    assert_eq!(tokens[1].prefix, "p");
    assert_eq!(tokens[1].local, "a");
    assert_eq!(tokens[1].position, 21);
    assert_eq!(tokens[2].local, "k");
    assert_eq!(tokens[2].text, "v");
    assert_eq!(tokens[2].prefix, "");
    assert_eq!(tokens[4].text, "t");
    assert_eq!(tokens[5].text, "c");
    assert_eq!(tokens[6].text, "m");
    assert_eq!(tokens[0].text, "<?xml version=\"1.0\"?>");
    assert_eq!(tokens[3].text, "");
}

#[test]
fn doctype_tokens() {
    let tokens = tokenize("<!DOCTYPE a [<!ENTITY e 'x'>]><a/>").unwrap();
    let kinds: Vec<TokenKind> = tokens.iter().map(|t| t.kind).collect();
    assert_eq!(
        kinds,
        vec![
            TokenKind::DtdStart,
            TokenKind::EntityDeclaration,
            TokenKind::DtdEnd,
            TokenKind::ElementStart,
            TokenKind::ElementClose,
        ]
    );
    let empty = tokenize("<!DOCTYPE a><a/>").unwrap();
    assert_eq!(empty[0].kind, TokenKind::EmptyDtd);
    let db = parse_in_memory("<!DOCTYPE a [<!ENTITY e 'x'>]><a/>", ParseOptions::default()).unwrap();
    assert!(matches!(db.node(2), Ok(Node::Doctype(d)) if d.value == " a "));
    assert_eq!(db.node_count(), 3);
    let db = parse_in_memory("<!DOCTYPE a SYSTEM 'a.dtd'><a/>", ParseOptions::default()).unwrap();
    assert!(matches!(db.node(2), Ok(Node::Doctype(d)) if d.value == " a SYSTEM 'a.dtd'"));
    assert_eq!(db.node_count(), 3);
}

#[test]
fn declarations_and_instructions_keep_their_text() {
    let db = parse_in_memory(
        "<?xml version=\"1.0\" encoding=\"UTF-8\"?><?style sheet?><r><?p?></r>",
        ParseOptions::default(),
    )
    .unwrap();
    assert!(matches!(db.node(2), Ok(Node::Declaration(d)) if d.value == " version=\"1.0\" encoding=\"UTF-8\""));
    assert!(matches!(db.node(3), Ok(Node::ProcessingInstruction(p)) if p.value == "style sheet"));
    assert!(matches!(db.node(4), Ok(Node::ProcessingInstruction(p)) if p.value == "p"));
    assert_eq!(db.parent_element_id(4), Ok(1));
}

#[test]
fn malformed_text_is_refused() {
    for text in ["<a/><b/>", "<a x=1/>", "text", "<a>]]></a>", "<a></a>text"] {
        match parse_in_memory(text, ParseOptions::default()) {
            Err(Error::Xml(e)) => assert!(e.row >= 1 && e.col >= 1, "{:?}", text),
            other => panic!("{:?} gave {:?}", text, other.map(|_| ())),
        }
    }
    assert!(matches!(tokenize("<a x=1/>"), Err(Error::Xml(_))));
}

#[test]
fn error_position_is_where_the_tokenizer_stopped() {
    match parse_in_memory("<a>\n  <b x=1/>\n</a>", ParseOptions::default()) {
        Err(Error::Xml(e)) => {
            assert_eq!(e.row, 2);
            assert_eq!(e.col, 5);
        },
        other => panic!("{:?}", other.map(|_| ())),
    }
}

#[test]
fn bytes_that_are_no_utf8_are_refused() {
    assert!(matches!(
        parse_bytes_in_memory(&[b'<', b'a', 0xff, b'/', b'>'], ParseOptions::default()),
        Err(Error::Utf8)
    ));
    let db = parse_bytes_in_memory("<é/>".as_bytes(), ParseOptions::default()).unwrap();
    assert_eq!(db.root().unwrap().name, "é");
}

#[test]
fn empty_text_gives_an_empty_document() {
    let db = parse_in_memory("", ParseOptions::default()).unwrap();
    assert_eq!(db.node_count(), 2);
    assert!(db.root().is_err());
    let db = parse_in_memory("<!--only-->", ParseOptions::default()).unwrap();
    assert_eq!(db.node_count(), 3);
    assert!(db.root().is_err());
    assert_eq!(db.document_child_nodes().len(), 1);
}

#[test]
fn ids_rise_in_source_order() {
    let db = parse_in_memory("<r><a><b/></a>t<c/></r>", ParseOptions::default()).unwrap();
    let ids: Vec<usize> = db.all_nodes().iter().map(|n| n.node_id()).collect();
    assert_eq!(ids, vec![1, 2, 3, 4, 5]);
    assert_eq!(db.element(2).unwrap().name, "a");
    assert_eq!(db.element(3).unwrap().name, "b");
    assert!(matches!(db.node(4), Ok(Node::Text(_))));
    assert_eq!(db.element(5).unwrap().name, "c");
    assert_eq!(db.parent_element_id(3), Ok(2));
    assert_eq!(db.parent_element_id(5), Ok(1));
}

#[test]
fn sibling_orders_are_distinct() {
    let db = parse_in_memory(
        "<?xml version='1.0'?><!--a--><r x='1' y='2'><a/>t<b q='3'><c/><d/></b><!--z--></r><!--e-->",
        ParseOptions::default(),
    )
    .unwrap();
    for parent in 0..db.node_count() {
        let orders: Vec<usize> = db
            .child_nodes(parent)
            .iter()
            .map(|n| db.node_row(n.node_id()).unwrap().node_order)
            .collect();
        assert!(orders.windows(2).all(|w| w[0] < w[1]), "under {}: {:?}", parent, orders);
    }
    let attr_orders: Vec<usize> =
        db.attrs(1).iter().map(|a| db.attr_row(a.attr_id).unwrap().attr_order).collect();
    assert_eq!(attr_orders, vec![0, 1]);
}

#[test]
fn attributes_belong_to_elements() {
    let db = parse_in_memory(r#"<r a="1"><b c="2"/>t</r>"#, ParseOptions::default()).unwrap();
    for id in 1..=db.attr_count() {
        let parent = db.attr_parent_id(id).unwrap();
        assert_eq!(db.node_type(parent), Ok(NodeType::Element));
    }
}

#[test]
fn repeated_attribute_orders_differ() {
    let db = parse_in_memory(r#"<r x="yes" x="no"/>"#, ParseOptions::default()).unwrap();
    let a = db.attr_row(1).unwrap();
    let b = db.attr_row(2).unwrap();
    assert_ne!(a.attr_order, b.attr_order);
    assert_eq!(a.attr_name, "x");
    assert_eq!(b.attr_name, "x");
}

#[test]
fn white_space_is_trimmed_where_it_is_ignored() {
    let text = "<r> <a> x </a><!-- c --><![CDATA[ d ]]></r>";
    let kept = parse_in_memory(text, options(false, false, false)).unwrap();
    let trimmed = parse_in_memory(text, options(true, false, false)).unwrap();
    assert_eq!(kept.node_raw_value(2), Ok(Some(" ".to_string())));
    assert_eq!(trimmed.node_raw_value(2), Ok(Some("".to_string())));
    assert_eq!(kept.node_raw_value(4), Ok(Some(" x ".to_string())));
    assert_eq!(trimmed.node_raw_value(4), Ok(Some("x".to_string())));
    assert_eq!(trimmed.node_raw_value(5), Ok(Some("c".to_string())));
    assert_eq!(trimmed.node_raw_value(6), Ok(Some("d".to_string())));
    assert_eq!(kept.node_count(), trimmed.node_count());
}

#[test]
fn names_and_text_are_lowered_where_case_is_ignored() {
    let db = parse_in_memory(
        r#"<R><P:Aa Kk="Vv">TeXt</P:Aa><!--CoM--></R>"#,
        options(false, false, true),
    )
    .unwrap();
    assert_eq!(db.root().unwrap().name, "r");
    let a = &db.children(1)[0];
    assert_eq!(a.name, "aa");
    assert_eq!(a.ns.as_deref(), Some("p"));
    let attr = db.attr_by_name(a.node_id, "KK", None).unwrap();
    assert_eq!(attr.name, "kk");
    assert_eq!(attr.value, "Vv");
    assert_eq!(db.children_by_name(1, "AA").len(), 1);
    assert_eq!(db.node_raw_value(3), Ok(Some("text".to_string())));
    assert_eq!(db.node_raw_value(4), Ok(Some("CoM".to_string())));
    assert_eq!(db.elements_matching_attr_value("KK", "Vv").len(), 1);
}

#[test]
fn values_are_classified_as_they_are_stored() {
    let db = parse_in_memory(
        r#"<r n="7" e="" t="true"><a>2022-01-01</a> <b/></r>"#,
        options(false, true, false),
    )
    .unwrap();
    assert_eq!(db.inferred_type(0), Ok(InferredType::Empty));
    assert_eq!(db.inferred_type(1), Ok(InferredType::Empty));
    assert_eq!(db.inferred_type(2), Ok(InferredType::Empty));
    assert_eq!(db.inferred_type(3), Ok(InferredType::Date));
    assert_eq!(db.inferred_type(4), Ok(InferredType::Whitespace));
    assert_eq!(db.inferred_type(99), Err(DbError::NotFound));
    assert_eq!(db.attr_inferred_type(1), Ok(InferredType::Int));
    assert_eq!(db.attr_inferred_type(2), Ok(InferredType::Empty));
    assert_eq!(db.attr_inferred_type(3), Ok(InferredType::Boolean));
    assert_eq!(db.attr_inferred_type(4), Err(DbError::NotFound));
}

fn token(kind: TokenKind, prefix: &str, local: &str, text: &str, position: usize) -> XmlToken {
    XmlToken {
        kind,
        position,
        prefix: prefix.to_string(),
        local: local.to_string(),
        text: text.to_string(),
    }
}

#[test]
fn tokens_become_messages() {
    let o = ParseOptions::default();
    let mut state = ParserState::default();
    let mut next = 2usize;
    let m = parse_token(&token(TokenKind::Comment, "", "", "c", 0), &o, &mut state, &mut next);
    assert!(matches!(m, Some(Message::InsertNode(n)) if n.node_id == 2 && n.parent_node_id == 0 && n.node_order == 0 && n.node_value.as_deref() == Some("c")));
    assert_eq!(next, 3);
    let m = parse_token(&token(TokenKind::ElementStart, "p", "r", "", 8), &o, &mut state, &mut next);
    assert!(matches!(m, Some(Message::InsertRootElement(r)) if r.node_name.as_deref() == Some("r") && r.node_ns.as_deref() == Some("p") && r.node_order == 1 && r.buffer_position == 8));
    assert_eq!(next, 3);
    assert_eq!(state.current(), ParserStateValue::Root);
    let m = parse_token(&token(TokenKind::Attribute, "", "k", "v", 11), &o, &mut state, &mut next);
    assert!(matches!(m, Some(Message::InsertAttr(a)) if a.parent_node_id == 1 && a.attr_name == "k" && a.attr_value == "v" && a.attr_order == 0 && a.attr_ns.is_none()));
    assert!(parse_token(&token(TokenKind::ElementOpen, "", "", "", 0), &o, &mut state, &mut next).is_none());
    let m = parse_token(&token(TokenKind::ElementStart, "", "a", "", 20), &o, &mut state, &mut next);
    assert!(matches!(m, Some(Message::InsertNode(n)) if n.node_id == 3 && n.parent_node_id == 1 && n.node_order == 1 && matches!(n.node_type, NodeType::Element)));
    assert_eq!(state.current(), ParserStateValue::Element(3));
    assert_eq!(next, 4);
    assert!(parse_token(&token(TokenKind::ElementClose, "", "", "", 0), &o, &mut state, &mut next).is_none());
    assert_eq!(state.current(), ParserStateValue::Root);
    assert_eq!(state.current_order(), 2);
    for kind in [TokenKind::EntityDeclaration, TokenKind::DtdEnd] {
        assert!(parse_token(&token(kind, "", "", "", 0), &o, &mut state, &mut next).is_none());
    }
    assert_eq!(next, 4);
    let m = parse_token(&token(TokenKind::EmptyDtd, "", "", "<!DOCTYPE r>", 0), &o, &mut state, &mut next);
    assert!(matches!(m, Some(Message::InsertNode(n)) if n.node_id == 4 && matches!(n.node_type, NodeType::Doctype) && n.node_value.as_deref() == Some(" r")));
    let m = parse_token(&token(TokenKind::Declaration, "", "", "<?x", 0), &o, &mut state, &mut next);
    assert!(matches!(m, Some(Message::InsertNode(n)) if n.node_value.as_deref() == Some("")));
}

#[test]
fn start_event_fills_the_root_first() {
    let mut state = ParserState::default();
    let mut next = 2usize;
    let first = parse_start_event("r", None, 0, &mut state, &mut next);
    assert!(matches!(first, Message::InsertRootElement(_)));
    let second = parse_start_event("a", Some("p"), 3, &mut state, &mut next);
    assert!(matches!(second, Message::InsertNode(InsertNode { node_id: 2, parent_node_id: 1, .. })));
    assert_eq!(next, 3);
    assert_eq!(state.parent_node_id(), 2);
}

#[test]
fn ingest_of_given_tokens() {
    let tokens = vec![
        token(TokenKind::ElementStart, "", "r", "", 0),
        token(TokenKind::ElementOpen, "", "", "", 2),
        token(TokenKind::Text, "", "", "hi", 3),
        token(TokenKind::ElementClose, "", "", "", 5),
    ];
    let db = ingest(DocumentDb::create_in_memory(ParseOptions::default()), &tokens).unwrap();
    assert_eq!(db.root().unwrap().name, "r");
    assert_eq!(db.node_raw_value(2), Ok(Some("hi".to_string())));
    let second_root = vec![
        token(TokenKind::ElementStart, "", "r", "", 0),
        token(TokenKind::ElementClose, "", "", "", 2),
        token(TokenKind::ElementStart, "", "s", "", 4),
    ];
    assert!(matches!(
        ingest(DocumentDb::create_in_memory(ParseOptions::default()), &second_root),
        Err(Error::Db(DbError::Constraint))
    ));
    let stray = vec![token(TokenKind::Attribute, "", "k", "v", 0)];
    assert!(matches!(
        ingest(DocumentDb::create_in_memory(ParseOptions::default()), &stray),
        Err(Error::Db(DbError::Constraint))
    ));
}

#[test]
fn parse_into_a_given_store() {
    let db = DocumentDb::create_in_memory(options(false, true, false));
    let db = parse(db, "<r>1.5</r>").unwrap();
    assert_eq!(db.inferred_type(2), Ok(InferredType::Float));
}

const TEXTS: [&str; 6] = [
    "<?xml version=\"1.0\"?><!DOCTYPE r [<!ENTITY e 'x'><!--d--><?p q?>]><r a=\"1\" b='2'>t<a/><![CDATA[c]]><!--m--><?pi x?><b  c = \"d\" >u</b ></r><!--e--><?z?>",
    "\u{feff}<r>\n <a/>\n <b/>\n</r>\n",
    "<r><a><b><c/></b></a><a/>é<a x=\"é\"/></r>",
    "<!--only-->",
    "",
    "<r/>",
];

#[test]
fn tokens_stand_at_rising_places() {
    for text in TEXTS {
        let tokens = tokenize(text).unwrap();
        for pair in tokens.windows(2) {
            assert!(pair[0].position < pair[1].position, "{:?}: {:?}", text, pair);
        }
    }
}

#[test]
fn sibling_order_is_the_order_in_the_text() {
    for text in TEXTS {
        let db = parse_in_memory(text, ParseOptions::default()).unwrap();
        for parent in 0..db.node_count() {
            let rows: Vec<(usize, usize)> = db
                .child_nodes(parent)
                .iter()
                .map(|n| {
                    let row = db.node_row(n.node_id()).unwrap();
                    (row.node_order, row.buffer_position)
                })
                .collect();
            for pair in rows.windows(2) {
                assert!(pair[0].0 < pair[1].0, "{:?} under {}: {:?}", text, parent, rows);
                assert!(pair[0].1 < pair[1].1, "{:?} under {}: {:?}", text, parent, rows);
            }
        }
    }
}
