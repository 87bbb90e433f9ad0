use xmlsql::model::Node;
use xmlsql::redact::{redact, redact_with_seed, scrub, IgnoreRule, Mask, Options};
use xmlsql::{parse_in_memory, DbError, DocumentDb, InferredType, ParseOptions};

fn typed(text: &str) -> DocumentDb {
    let options =
        ParseOptions { ignore_whitespace: false, infer_types: true, case_insensitive: false };
    parse_in_memory(text, options).unwrap()
}

fn plain() -> Options {
    Options { ignore: vec![], mask: Mask { uuids: false } }
}

fn text_of(db: &DocumentDb, parent: usize) -> Vec<String> {
    db.child_nodes(parent)
        .into_iter()
        .filter_map(|n| match n {
            Node::Text(t) => Some(t.value),
            Node::Comment(t) => Some(t.value),
            Node::CData(t) => Some(t.value),
            _ => None,
        })
        .collect()
}

#[test]
fn text_is_overwritten_by_kind() {
    let text = "<r><b>42</b><b>hi</b></r>";
    let out = redact(&typed(text), typed(text), &plain()).unwrap();
    let bs = out.children(1);
    assert_eq!(text_of(&out, bs[0].node_id), vec!["0"]);
    assert_eq!(text_of(&out, bs[1].node_id), vec!["[redacted]"]);
}

#[test]
fn every_kind_has_its_placeholder() {
    assert_eq!(scrub(InferredType::Empty, "", false, 0), None);
    assert_eq!(scrub(InferredType::Whitespace, "  ", false, 0), None);
    assert_eq!(scrub(InferredType::Boolean, "true", false, 0), None);
    assert_eq!(scrub(InferredType::Json, "{}", false, 0), None);
    assert_eq!(scrub(InferredType::String, "x", false, 0).unwrap(), "[redacted]");
    assert_eq!(scrub(InferredType::Int, "9", false, 0).unwrap(), "0");
    assert_eq!(scrub(InferredType::Float, "9.5", false, 0).unwrap(), "0.123");
    assert_eq!(
        scrub(InferredType::Uuid, "67e55044-10b1-426f-9247-bb680e5fe0c8", false, 0).unwrap(),
        "00000000-0000-0000-0000-000000000000"
    );
    assert_eq!(
        scrub(InferredType::DateTime, "2022-01-01T12:13:14Z", false, 0).unwrap(),
        "1970-01-01T00:00:00Z"
    );
    assert_eq!(scrub(InferredType::Time, "12:13:14", false, 0).unwrap(), "00:00:00");
    assert_eq!(scrub(InferredType::Date, "2022-01-01", false, 0).unwrap(), "1970-01-01");
    assert_eq!(scrub(InferredType::Duration, "P1D", false, 0).unwrap(), "55:55:55");
}

#[test]
fn masked_uuid_is_the_v5_of_its_trimmed_text() {
    let written = " 67e55044-10b1-426f-9247-bb680e5fe0c8 ";
    let seed = 0x6ba7b8109dad11d180b400c04fd430c8u128;
    let masked = scrub(InferredType::Uuid, written, true, seed).unwrap();
    let expected =
        uuid::Uuid::new_v5(&uuid::Uuid::from_u128(seed), written.trim().as_bytes()).to_string();
    assert_eq!(masked, expected);
    assert_ne!(masked, written.trim());
    assert_eq!(masked, scrub(InferredType::Uuid, written.trim(), true, seed).unwrap());
    assert_ne!(masked, scrub(InferredType::Uuid, written, true, seed + 1).unwrap());
    assert_eq!(masked.len(), 36);
}

#[test]
fn masking_keeps_equal_uuids_equal() {
    let text = "<r><a>67e55044-10b1-426f-9247-bb680e5fe0c8</a>\
                <b k=\"67e55044-10b1-426f-9247-bb680e5fe0c8\"/>\
                <c>00000000-0000-0000-0000-000000000001</c></r>";
    let options = Options { ignore: vec![], mask: Mask { uuids: true } };
    let out = redact_with_seed(&typed(text), typed(text), &options, 7).unwrap();
    let kids = out.children(1);
    let a = text_of(&out, kids[0].node_id);
    let k = out.attr_by_name(kids[1].node_id, "k", None).unwrap().value;
    let c = text_of(&out, kids[2].node_id);
    assert_eq!(a[0], k);
    assert_ne!(a[0], c[0]);
    assert_ne!(a[0], "67e55044-10b1-426f-9247-bb680e5fe0c8");
}

#[test]
fn attributes_comments_and_cdata_are_overwritten() {
    let text = "<r n=\"5\" s=\"word\" e=\"\"><!--note--><![CDATA[1.5]]><a>2020-01-02</a></r>";
    let out = redact(&typed(text), typed(text), &plain()).unwrap();
    assert_eq!(out.attr_by_name(1, "n", None).unwrap().value, "0");
    assert_eq!(out.attr_by_name(1, "s", None).unwrap().value, "[redacted]");
    assert_eq!(out.attr_by_name(1, "e", None).unwrap().value, "");
    assert_eq!(text_of(&out, 1), vec!["[redacted]", "0.123"]);
    let a = out.children(1)[0].node_id;
    assert_eq!(text_of(&out, a), vec!["1970-01-01"]);
}

#[test]
fn rules_leave_values_and_attributes() {
    let text = "<r><a x=\"1\" y=\"2\">3</a><b x=\"4\">5</b></r>";
    let options = Options {
        ignore: vec![IgnoreRule {
            match_tag: "a".to_string(),
            allow_value: true,
            allow_attrs: vec!["x".to_string()],
        }],
        mask: Mask { uuids: false },
    };
    let out = redact(&typed(text), typed(text), &options).unwrap();
    let kids = out.children(1);
    assert_eq!(text_of(&out, kids[0].node_id), vec!["3"]);
    assert_eq!(out.attr_by_name(kids[0].node_id, "x", None).unwrap().value, "1");
    assert_eq!(out.attr_by_name(kids[0].node_id, "y", None).unwrap().value, "0");
    assert_eq!(text_of(&out, kids[1].node_id), vec!["0"]);
    assert_eq!(out.attr_by_name(kids[1].node_id, "x", None).unwrap().value, "0");
}

#[test]
fn several_rules_allow_only_what_all_allow() {
    let text = "<r><a x=\"1\" y=\"2\">3</a></r>";
    let rule = |allow_value: bool, attrs: &[&str]| IgnoreRule {
        match_tag: "a".to_string(),
        allow_value,
        allow_attrs: attrs.iter().map(|s| s.to_string()).collect(),
    };
    let options = Options {
        ignore: vec![rule(true, &["x", "y"]), rule(false, &["x"])],
        mask: Mask { uuids: false },
    };
    let out = redact(&typed(text), typed(text), &options).unwrap();
    let a = out.children(1)[0].node_id;
    assert_eq!(text_of(&out, a), vec!["0"]);
    assert_eq!(out.attr_by_name(a, "x", None).unwrap().value, "1");
    assert_eq!(out.attr_by_name(a, "y", None).unwrap().value, "0");
}

#[test]
fn redaction_needs_inferred_types() {
    let untyped = parse_in_memory("<r>1</r>", ParseOptions::default()).unwrap();
    let target = parse_in_memory("<r>1</r>", ParseOptions::default()).unwrap();
    assert_eq!(redact(&untyped, target, &plain()).err(), Some(DbError::MissingColumn));
}

#[test]
fn redacting_twice_changes_nothing_more() {
    let text = "<r a=\"x\"><b>42</b>tail</r>";
    let once = redact(&typed(text), typed(text), &plain()).unwrap();
    let twice = redact(&typed(text), redact(&typed(text), typed(text), &plain()).unwrap(), &plain())
        .unwrap();
    assert_eq!(text_of(&once, 1), text_of(&twice, 1));
    assert_eq!(
        once.attr_by_name(1, "a", None).unwrap().value,
        twice.attr_by_name(1, "a", None).unwrap().value
    );
}

#[test]
fn each_pass_draws_its_own_seed() {
    let text = "<r>67e55044-10b1-426f-9247-bb680e5fe0c8</r>";
    let options = Options { ignore: vec![], mask: Mask { uuids: true } };
    let one = redact(&typed(text), typed(text), &options).unwrap();
    let two = redact(&typed(text), typed(text), &options).unwrap();
    let a = text_of(&one, 1);
    let b = text_of(&two, 1);
    assert_eq!(a[0].len(), 36);
    assert_ne!(a[0], "67e55044-10b1-426f-9247-bb680e5fe0c8");
    assert_ne!(a[0], b[0]);
}
