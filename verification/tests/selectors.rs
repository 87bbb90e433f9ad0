use xmlsql::model::Element;
use xmlsql::select::{
    AttrOperator, AttrTest, Combinator, Complex, ElementRef, Simple, Step,
};
use xmlsql::{parse_in_memory, DocumentDb, ParseOptions, Selector};

fn doc(text: &str) -> DocumentDb {
    parse_in_memory(text, ParseOptions::default()).unwrap()
}

fn names(found: &[Element]) -> Vec<String> {
    found.iter().map(|e| e.name.clone()).collect()
}

fn ids(found: &[Element]) -> Vec<usize> {
    found.iter().map(|e| e.node_id).collect()
}

fn all(db: &DocumentDb, selector: &str) -> Vec<Element> {
    Selector::new(selector).unwrap().match_all(db)
}

#[test]
fn attribute_value_selects_second_child() {
    let db = doc(r#"<r><a id="x"/><a id="y"/></r>"#);
    let found = all(&db, "[id='y']");
    assert_eq!(found.len(), 1);
    assert_eq!(found[0].name, "a");
    assert_eq!(found[0].node_id, db.children(1)[1].node_id);
}

#[test]
fn child_combinator_skips_grandchildren() {
    let db = doc("<r><a/><b><a/></b></r>");
    let found = all(&db, "r > a");
    assert_eq!(ids(&found), vec![2]);
    let anywhere = all(&db, "r a");
    assert_eq!(ids(&anywhere), vec![2, 4]);
}

#[test]
fn universal_selector_finds_every_element() {
    let db = doc("<r><a/>text<b><c/></b><!-- note --></r>");
    let found = all(&db, "*");
    assert_eq!(names(&found), vec!["r", "a", "b", "c"]);
    assert_eq!(found.len(), db.all_elements().len());
}

#[test]
fn list_is_the_union_of_its_members() {
    let db = doc(r#"<r><a/><b k="1"/><c/><a k="2"/></r>"#);
    let left = ids(&all(&db, "a"));
    let right = ids(&all(&db, "[k]"));
    let both = ids(&all(&db, "a, [k]"));
    assert_eq!(left, vec![2, 5]);
    assert_eq!(right, vec![3, 5]);
    assert_eq!(both, vec![2, 3, 5]);
}

#[test]
fn match_one_is_the_first_of_match_all() {
    let db = doc("<r><a/><b/><a/></r>");
    let selector = Selector::new("a").unwrap();
    let first = selector.match_one(&db).unwrap();
    let every = selector.match_all(&db);
    assert_eq!(first.node_id, every[0].node_id);
    assert!(Selector::new("zzz").unwrap().match_one(&db).is_none());
}

#[test]
fn match_from_a_node_stays_under_it() {
    let db = doc("<r><a><c/></a><b><c/></b></r>");
    let b = db.children_by_name(1, "b")[0].node_id;
    let found = Selector::new("c").unwrap().match_all_from(&db, b);
    assert_eq!(found.len(), 1);
    assert_eq!(db.parent_element_id(found[0].node_id), Ok(b));
    let one = Selector::new("c").unwrap().match_one_from(&db, b).unwrap();
    assert_eq!(one.node_id, found[0].node_id);
}

#[test]
fn id_and_class_selectors() {
    let db = doc(r#"<r><a id="one" class="x  big"/><a class="bigger"/><a class="big y"/></r>"#);
    assert_eq!(ids(&all(&db, "#one")), vec![2]);
    assert_eq!(ids(&all(&db, ".big")), vec![2, 4]);
    assert_eq!(ids(&all(&db, "a.big.x")), vec![2]);
    assert_eq!(ids(&all(&db, ".bi")), Vec::<usize>::new());
}

#[test]
fn attribute_operators() {
    let db = doc(
        r#"<r><a v="en-US"/><a v="en"/><a v="green tea"/><a v="ENglish"/><a w=""/></r>"#,
    );
    assert_eq!(ids(&all(&db, "[v=en]")), vec![3]);
    assert_eq!(ids(&all(&db, "[v|=en]")), vec![2, 3]);
    assert_eq!(ids(&all(&db, "[v^=en]")), vec![2, 3]);
    assert_eq!(ids(&all(&db, "[v^=en i]")), vec![2, 3, 5]);
    assert_eq!(ids(&all(&db, "[v$='tea']")), vec![4]);
    assert_eq!(ids(&all(&db, "[v*=\"n t\"]")), vec![4]);
    assert_eq!(ids(&all(&db, "[v~=tea]")), vec![4]);
    assert_eq!(ids(&all(&db, "[v~=gree]")), Vec::<usize>::new());
    assert_eq!(ids(&all(&db, "[v]")), vec![2, 3, 4, 5]);
    assert_eq!(ids(&all(&db, "[ w ]")), vec![6]);
    assert_eq!(ids(&all(&db, "[w='']")), vec![6]);
}

#[test]
fn empty_values_never_match_partial_operators() {
    let db = doc(r#"<r><a v="x"/><a v=""/></r>"#);
    assert_eq!(ids(&all(&db, "[v^='']")), Vec::<usize>::new());
    assert_eq!(ids(&all(&db, "[v$='']")), Vec::<usize>::new());
    assert_eq!(ids(&all(&db, "[v*='']")), Vec::<usize>::new());
    assert_eq!(ids(&all(&db, "[v~='']")), Vec::<usize>::new());
    assert_eq!(ids(&all(&db, "[v~='a b']")), Vec::<usize>::new());
    assert_eq!(ids(&all(&db, "[v='']")), vec![3]);
}

#[test]
fn sibling_combinators() {
    let db = doc("<r><a/>text<b/><c/><b/></r>");
    assert_eq!(names(&all(&db, "a + b")), vec!["b"]);
    assert_eq!(ids(&all(&db, "a + b")), vec![4]);
    assert_eq!(ids(&all(&db, "a ~ b")), vec![4, 6]);
    assert_eq!(ids(&all(&db, "c + b")), vec![6]);
    assert_eq!(ids(&all(&db, "b + a")), Vec::<usize>::new());
    assert_eq!(ids(&all(&db, "a~c")), vec![5]);
}

#[test]
fn longer_chains() {
    let db = doc("<r><a><b><c/></b></a><b><c/></b></r>");
    assert_eq!(ids(&all(&db, "a c")), vec![4]);
    assert_eq!(ids(&all(&db, "r > b > c")), vec![6]);
    assert_eq!(ids(&all(&db, "r b c")), vec![4, 6]);
    assert_eq!(ids(&all(&db, "a > c")), Vec::<usize>::new());
    assert_eq!(ids(&all(&db, "a + b > c")), vec![6]);
}

#[test]
fn namespace_prefixes() {
    let db = doc(r#"<r><p:a p:k="1" k="2"/><a/><q:a/></r>"#);
    assert_eq!(ids(&all(&db, "a")), vec![2, 3, 4]);
    assert_eq!(ids(&all(&db, "p|a")), vec![2]);
    assert_eq!(ids(&all(&db, "*|a")), vec![2, 3, 4]);
    assert_eq!(ids(&all(&db, "q|*")), vec![4]);
    assert_eq!(ids(&all(&db, "[p|k='1']")), vec![2]);
    assert_eq!(ids(&all(&db, "[k='2']")), vec![2]);
    assert_eq!(ids(&all(&db, "[k='1']")), Vec::<usize>::new());
}

#[test]
fn pseudo_classes_parse_and_never_match() {
    let db = doc("<r><a/></r>");
    assert!(all(&db, ":root").is_empty());
    assert!(all(&db, "a:first-child").is_empty());
    assert!(all(&db, "a::before").is_empty());
    assert!(all(&db, "a:nth-child(2n + 1)").is_empty());
    assert_eq!(ids(&all(&db, "a:hover, r")), vec![1]);
}

#[test]
fn texts_that_are_no_selectors() {
    for text in [
        "", " ", ",", "a,", ",a", "a >", "> a", "a > > b", "[", "[a", "[a=]", "[a=1]", "[=a]",
        "a[b='c", "#", "#1a", ".", ".1", "a b,", "a:", "a::", ":(x)", "a)", "a|", "[a b]",
        "[a=b c]", "a\\b", "'a'", "a + ", "a.b c.", "*a", "a*",
    ] {
        assert!(Selector::new(text).is_err(), "{:?} was read", text);
    }
}

#[test]
fn texts_that_are_selectors() {
    for text in [
        "a", " a ", "*", "a b", "a>b", "a  >  b", "a+b", "a~b", "a , b", "a,b", "a.b#c[d]",
        "[a]", "[ a = b ]", "[a='b' i]", "[a=\"b\"s]", "-a", "--a", "_a", "a-1", "é", "#a-b",
        ".a.b", "ns|a", "*|*", "|a", "a:not(b, c)", "[x|=y]", "[*|a]", "[|a]",
    ] {
        assert!(Selector::new(text).is_ok(), "{:?} was refused", text);
    }
}

#[test]
fn case_insensitive_store_lowers_selector_names() {
    let options =
        ParseOptions { ignore_whitespace: false, infer_types: false, case_insensitive: true };
    let db = parse_in_memory(r#"<R><A Id="X"/></R>"#, options).unwrap();
    assert_eq!(db.root().unwrap().name, "r");
    assert_eq!(ids(&all(&db, "A")), vec![2]);
    assert_eq!(ids(&all(&db, "[ID]")), vec![2]);
    assert_eq!(ids(&all(&db, "[id=X]")), vec![2]);
    assert_eq!(ids(&all(&db, "[id=x]")), Vec::<usize>::new());
}

#[test]
fn element_ref_answers_about_its_element() {
    let db = doc(r#"<r><p:a id="one" class="x y">t</p:a><b/><c k="v"/></r>"#);
    assert!(ElementRef::new(&db, 0).is_none());
    assert!(ElementRef::new(&db, 3).is_none());
    assert!(ElementRef::new(&db, 99).is_none());
    let root = ElementRef::new(&db, 1).unwrap();
    assert!(root.is_root());
    assert!(!root.is_empty());
    assert!(root.parent_element().is_none());
    assert!(root.prev_sibling_element().is_none());
    let a = ElementRef::new(&db, 2).unwrap();
    assert!(!a.is_root());
    assert!(!a.is_empty());
    assert_eq!(a.parent_element().unwrap().element.node_id, 1);
    assert!(a.has_local_name("a"));
    assert!(!a.has_local_name("A"));
    assert!(a.has_namespace("p"));
    assert!(!a.has_namespace(""));
    assert!(a.has_id("one", false));
    assert!(!a.has_id("ONE", false));
    assert!(a.has_id("ONE", true));
    assert!(a.has_class("y", false));
    assert!(!a.has_class("Y", false));
    assert!(a.has_class("Y", true));
    assert!(!a.has_class("x y", false));
    assert!(!a.has_class("", false));
    let b = a.next_sibling_element().unwrap();
    assert_eq!(b.element.name, "b");
    assert!(b.is_empty());
    assert!(!b.has_namespace("p"));
    assert!(!b.has_id("one", false));
    assert_eq!(b.prev_sibling_element().unwrap().element.node_id, 2);
    let c = b.next_sibling_element().unwrap();
    assert!(c.next_sibling_element().is_none());
    assert!(c.is_same_type(&ElementRef::new(&db, c.element.node_id).unwrap()));
    assert!(!c.is_same_type(&b));
    assert!(c.attr_matches(None, "k", &AttrTest::Exists));
    assert!(!c.attr_matches(Some("p"), "k", &AttrTest::Exists));
    assert!(!c.attr_matches(None, "j", &AttrTest::Exists));
    let equals = |value: &str| AttrTest::Value {
        op: AttrOperator::Equal,
        value: value.to_string(),
        ignore_case: false,
    };
    assert!(c.attr_matches(None, "k", &equals("v")));
    assert!(!c.attr_matches(None, "k", &equals("w")));
}

#[test]
fn selectors_built_by_hand() {
    let db = doc("<r><a/><b><a/></b></r>");
    let name = |n: &str| Step {
        combinator: Combinator::Child,
        compound: vec![Simple::Type { ns: None, name: Some(n.to_string()) }],
    };
    let selector = Selector(vec![Complex { steps: vec![name("b"), name("a")] }]);
    assert_eq!(ids(&selector.match_all(&db)), vec![4]);
    assert!(selector.matches(&db, 4));
    assert!(!selector.matches(&db, 2));
    let nothing = Selector(vec![]);
    assert!(nothing.match_all(&db).is_empty());
    let no_steps = Selector(vec![Complex { steps: vec![] }]);
    assert!(no_steps.match_all(&db).is_empty());
    let pseudo = Selector(vec![Complex {
        steps: vec![Step { combinator: Combinator::Descendant, compound: vec![Simple::Pseudo] }],
    }]);
    assert!(pseudo.match_one(&db).is_none());
}
