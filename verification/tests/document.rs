use genconf::document::{load_documents, merge_document_text};
use genconf::merge::{merge_documents, merge_value, merge_yaml};
use genconf::yaml::Yaml;

fn text(s: &str) -> Yaml {
    Yaml::Text(s.to_string())
}

fn number(s: &str) -> Yaml {
    Yaml::Number(s.to_string())
}

fn mapping(entries: Vec<(Yaml, Yaml)>) -> Yaml {
    Yaml::Mapping(entries)
}

fn texts(items: &[&str]) -> Vec<String> {
    items.iter().map(|t| t.to_string()).collect()
}

#[test]
fn later_documents_override_earlier_ones() {
    let loaded = load_documents(&texts(&[
        "values:\n  user: app\n  startsecs: 0\ntemplate: worker.conf\n",
        "values:\n  startsecs: 10\n",
    ]))
    .unwrap();
    assert_eq!(
        loaded,
        mapping(vec![
            (
                text("values"),
                mapping(vec![(text("user"), text("app")), (text("startsecs"), number("10"))])
            ),
            (text("template"), text("worker.conf")),
        ])
    );
}

#[test]
fn no_documents_give_an_empty_mapping() {
    assert_eq!(load_documents(&Vec::new()).unwrap(), Yaml::Mapping(Vec::new()));
}

#[test]
fn first_unparsable_document_is_named() {
    let err = load_documents(&texts(&["a: 1\n", "a: [\n", "b: {\n"])).unwrap_err();
    assert_eq!(err.document, 1);
}

#[test]
fn unparsable_text_leaves_the_value_unchanged() {
    let mut value = mapping(vec![(text("a"), number("1"))]);
    let err = merge_document_text(&mut value, "a: [\n", 4).unwrap_err();
    assert_eq!(err.document, 4);
    assert_eq!(value, mapping(vec![(text("a"), number("1"))]));

    merge_document_text(&mut value, "b: two\n", 5).unwrap();
    assert_eq!(value, mapping(vec![(text("a"), number("1")), (text("b"), text("two"))]));
}

#[test]
fn parsed_numbers_keep_their_text() {
    let loaded = load_documents(&texts(&["n: 1.50\nm: -3\n"])).unwrap();
    assert_eq!(
        loaded,
        mapping(vec![(text("n"), number("1.5")), (text("m"), number("-3"))])
    );
}

#[test]
fn float_zero_keys_are_one_key() {
    let loaded = load_documents(&texts(&["0.0: a\n", "-0.0: b\n"])).unwrap();
    assert_eq!(loaded, mapping(vec![(number("0.0"), text("b"))]));
    assert!(number("0.0").same_as(&number("-0.0")));
    assert!(!number("0").same_as(&number("0.0")));
}

#[test]
fn mapping_keys_are_equal_whatever_their_order() {
    let first_key = mapping(vec![(text("a"), number("1")), (text("b"), number("2"))]);
    let second_key = mapping(vec![(text("b"), number("2")), (text("a"), number("1"))]);
    assert!(first_key.same_as(&second_key));
    assert!(!first_key.same_as(&mapping(vec![(text("a"), number("1"))])));

    let base = mapping(vec![(first_key.deep_clone(), text("x"))]);
    let over = mapping(vec![(second_key, text("y"))]);
    assert_eq!(merge_value(base, over), mapping(vec![(first_key, text("y"))]));
}

#[test]
fn merging_twice_equals_merging_once() {
    let base = mapping(vec![
        (text("a"), mapping(vec![(text("x"), number("1"))])),
        (text("b"), number("2")),
    ]);
    let over = mapping(vec![
        (text("a"), mapping(vec![(text("y"), number("3"))])),
        (text("c"), Yaml::List(vec![number("4")])),
    ]);
    let mut once = base.deep_clone();
    merge_yaml(&mut once, over.deep_clone());
    let mut twice = once.deep_clone();
    merge_yaml(&mut twice, over.deep_clone());
    assert_eq!(twice, once);
    assert_eq!(merge_value(over.deep_clone(), over.deep_clone()), over);
    assert_eq!(merge_documents(vec![over.deep_clone(), over.deep_clone()]), over);
}
