use xmlsql::writer::{process_entities, Config, EntityMode};
use xmlsql::{parse_in_memory, ParseOptions};

#[test]
fn default_pretty_values() {
    let c = Config::default_pretty();
    assert!(c.is_pretty);
    assert_eq!(c.indent, 2);
    assert_eq!(c.end_pad, 1);
    assert_eq!(c.max_line_length, 120);
    assert_eq!(c.entity_mode, EntityMode::Standard);
    assert!(c.indent_text_nodes);
    let d = Config::default();
    assert!(!d.is_pretty);
    assert_eq!(d.indent, 0);
    assert_eq!(d.entity_mode, EntityMode::default());
}

#[test]
fn pretty_document() {
    let db = parse_in_memory(r#"<r><a id="x"/><b>hi</b></r>"#, ParseOptions::default()).unwrap();
    assert_eq!(
        db.to_string_pretty(),
        "<r>\n  <a id=\"x\" />\n  <b>\n    hi\n  </b>\n</r>\n"
    );
}

#[test]
fn plain_document() {
    let db = parse_in_memory(r#"<r><a id="x"/><b>hi</b></r>"#, ParseOptions::default()).unwrap();
    assert_eq!(
        db.to_string_pretty_with_config(&Config::default()),
        "<r>\n<a\nid=\"x\"/>\n<b>hi</b>\n</r>\n"
    );
    let wide = Config { max_line_length: 80, ..Config::default() };
    assert_eq!(
        db.to_string_pretty_with_config(&wide),
        "<r>\n<a id=\"x\"/>\n<b>hi</b>\n</r>\n"
    );
}

#[test]
fn empty_element_name_is_padded() {
    let db = parse_in_memory("<r><a/></r>", ParseOptions::default()).unwrap();
    let config = Config { end_pad: 3, ..Config::default_pretty() };
    assert_eq!(db.to_string_pretty_with_config(&config), "<r>\n  <  a/>\n</r>\n");
}

#[test]
fn comments_cdata_and_text_are_written() {
    let db = parse_in_memory(
        "<!--top--><r><![CDATA[1 < 2]]><!-- in --><a>x &amp; y</a></r>",
        ParseOptions::default(),
    )
    .unwrap();
    assert_eq!(
        db.to_string_pretty(),
        "<!--top-->\n<r>\n  <![CDATA[1 < 2]]>\n  <!-- in -->\n  <a>\n    x &amp;amp; y\n  </a>\n</r>\n"
    );
}

#[test]
fn long_attribute_lists_break_lines() {
    let db = parse_in_memory(
        r#"<r aaaa="1111" bbbb="2222" cccc="3333"/>"#,
        ParseOptions::default(),
    )
    .unwrap();
    let narrow = Config { max_line_length: 20, ..Config::default_pretty() };
    assert_eq!(
        db.to_string_pretty_with_config(&narrow),
        "<r aaaa=\"1111\"\n  bbbb=\"2222\"\n  cccc=\"3333\" />\n"
    );
    let tiny = Config { max_line_length: 5, ..Config::default_pretty() };
    assert_eq!(
        db.to_string_pretty_with_config(&tiny),
        "<r\n  aaaa=\"1111\"\n  bbbb=\"2222\"\n  cccc=\"3333\" />\n"
    );
    assert_eq!(
        db.to_string_pretty(),
        "<r aaaa=\"1111\" bbbb=\"2222\" cccc=\"3333\" />\n"
    );
}

#[test]
fn reserved_characters() {
    let s = "a<b>&'\"";
    assert_eq!(process_entities(s, EntityMode::Standard, true), "a&lt;b&gt;&amp;'\"");
    assert_eq!(
        process_entities(s, EntityMode::Standard, false),
        "a&lt;b&gt;&amp;&apos;&quot;"
    );
    assert_eq!(process_entities(s, EntityMode::Hex, true), "a&#x003C;b&#x003E;&#x0026;'\"");
    assert_eq!(
        process_entities(s, EntityMode::Hex, false),
        "a&#x003C;b&#x003E;&#x0026;&#x0027;&#x0022;"
    );
}

#[test]
fn hidden_characters_become_references() {
    let mode = EntityMode::Standard;
    assert_eq!(process_entities("\u{1}", mode, true), "&#x0001;");
    assert_eq!(process_entities("\u{7f}", mode, true), "&#x007F;");
    assert_eq!(process_entities("\u{2028}", mode, true), "&#x2028;");
    assert_eq!(process_entities("\u{2003}", mode, true), "&#x2003;");
    assert_eq!(process_entities("\u{e000}", mode, true), "&#xE000;");
    assert_eq!(process_entities("\u{10ffff}", mode, true), "&#x10FFFF;");
    assert_eq!(process_entities("\u{200b}", mode, true), "&#x200B;");
}

#[test]
fn plain_characters_stay() {
    let mode = EntityMode::Standard;
    assert_eq!(process_entities("", mode, true), "");
    assert_eq!(process_entities("plain text", mode, true), "plain text");
    assert_eq!(process_entities("a\tb\nc\rd\u{c}e", mode, false), "a\tb\nc\rd\u{c}e");
    assert_eq!(process_entities("\u{a0}", mode, true), "\u{a0}");
    assert_eq!(process_entities("é漢\u{1f600}", mode, true), "é漢\u{1f600}");
}

#[test]
fn declaration_instruction_and_doctype_are_written() {
    let db = parse_in_memory(
        "<?xml version=\"1.0\"?><!DOCTYPE r><?go now?><r/>",
        ParseOptions::default(),
    )
    .unwrap();
    assert_eq!(
        db.to_string_pretty(),
        "<?xml version=\"1.0\"?>\n\n<!DOCTYPE r>\n<?go now?>\n<r/>\n"
    );
}
