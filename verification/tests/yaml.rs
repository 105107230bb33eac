use genconf::merge::{merge_documents, merge_yaml};
use genconf::text::trim;
use genconf::yaml::{Yaml, value_as_string};

fn text(s: &str) -> Yaml {
    Yaml::Text(s.to_string())
}

fn number(n: i64) -> Yaml {
    Yaml::Number(serde_yaml_ng::Number::from(n).to_string())
}

fn mapping(entries: Vec<(&str, Yaml)>) -> Yaml {
    Yaml::Mapping(entries.into_iter().map(|(k, v)| (text(k), v)).collect())
}

#[test]
fn scalar_values_as_strings() {
    assert_eq!(value_as_string(&text("a b")), "a b");
    assert_eq!(value_as_string(&Yaml::Bool(true)), "true");
    assert_eq!(value_as_string(&Yaml::Bool(false)), "false");
    assert_eq!(value_as_string(&number(-12)), "-12");
    assert_eq!(value_as_string(&Yaml::Number(serde_yaml_ng::Number::from(1.5).to_string())), "1.5");
    assert_eq!(value_as_string(&Yaml::Null), "");
}

#[test]
fn compound_values_as_yaml_text() {
    assert_eq!(value_as_string(&Yaml::List(vec![text("a"), number(2)])), "- a\n- 2");
    assert_eq!(value_as_string(&mapping(vec![("k", text("v"))])), "k: v");
    assert_eq!(
        value_as_string(&Yaml::Tagged("Thing".to_string(), Box::new(text("x")))),
        "!Thing x"
    );
}

#[test]
fn trims_unicode_white_space() {
    assert_eq!(trim(" \t a b \u{3000}\n"), "a b");
    assert_eq!(trim(" \u{85} "), "");
    assert_eq!(trim(""), "");
}

#[test]
fn override_replaces_scalars_and_merges_mappings() {
    let mut base = mapping(vec![
        ("values", mapping(vec![("user", text("app")), ("startsecs", number(0))])),
        ("template", text("worker.conf")),
    ]);
    let over = mapping(vec![
        ("values", mapping(vec![("startsecs", number(10)), ("extra", Yaml::Bool(true))])),
        ("configs", Yaml::List(vec![mapping(vec![("name", text("worker-prod"))])])),
    ]);

    merge_yaml(&mut base, over);

    assert_eq!(
        base,
        mapping(vec![
            (
                "values",
                mapping(vec![
                    ("user", text("app")),
                    ("startsecs", number(10)),
                    ("extra", Yaml::Bool(true)),
                ])
            ),
            ("template", text("worker.conf")),
            ("configs", Yaml::List(vec![mapping(vec![("name", text("worker-prod"))])])),
        ])
    );
}

#[test]
fn non_mapping_override_replaces_value() {
    let mut base = mapping(vec![("a", number(1))]);
    merge_yaml(&mut base, Yaml::List(vec![number(2)]));
    assert_eq!(base, Yaml::List(vec![number(2)]));

    let mut base = Yaml::List(vec![number(1)]);
    merge_yaml(&mut base, mapping(vec![("a", number(2))]));
    assert_eq!(base, mapping(vec![("a", number(2))]));

    let mut base = mapping(vec![("a", mapping(vec![("b", number(1))]))]);
    merge_yaml(&mut base, mapping(vec![("a", Yaml::Null)]));
    assert_eq!(base, mapping(vec![("a", Yaml::Null)]));
}

#[test]
fn merges_documents_in_order() {
    let first = mapping(vec![("a", number(1)), ("b", number(1))]);
    let second = mapping(vec![("b", number(2)), ("c", number(2))]);
    let third = mapping(vec![("c", number(3))]);

    assert_eq!(
        merge_documents(vec![first, second, third]),
        mapping(vec![("a", number(1)), ("b", number(2)), ("c", number(3))])
    );
    assert_eq!(merge_documents(Vec::new()), Yaml::Mapping(Vec::new()));
}

#[test]
fn single_document_is_unchanged() {
    let document = mapping(vec![("a", Yaml::List(vec![number(1)])), ("b", mapping(vec![]))]);
    let copy = document.deep_clone();

    assert_eq!(merge_documents(vec![document]), copy);
}

#[test]
fn equality_and_tags() {
    let a = mapping(vec![("a", number(1))]);
    assert!(a.same_as(&mapping(vec![("a", number(1))])));
    assert!(!a.same_as(&mapping(vec![("a", number(2))])));
    assert!(Yaml::Tagged("t".to_string(), Box::new(Yaml::Null)).has_named_tags());
    assert!(!Yaml::List(vec![Yaml::Tagged(String::new(), Box::new(Yaml::Null))]).has_named_tags());
}
