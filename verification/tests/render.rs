use genconf::config::{Config, ConfigItem};
use genconf::render::{apply_filter, apply_values, get_values, render_item};
use genconf::values::ValuesMap;
use genconf::yaml::Yaml;

fn string_value(value: &str) -> Yaml {
    Yaml::Text(value.to_string())
}

fn bool_value(value: bool) -> Yaml {
    Yaml::Bool(value)
}

fn number_value(value: i64) -> Yaml {
    Yaml::Number(serde_yaml_ng::Number::from(value).to_string())
}

fn make_config(values: ValuesMap) -> Config {
    Config {
        path_to_target: String::new(),
        path_to_template: String::new(),
        template: "template.conf".to_string(),
        target_extension: "conf".to_string(),
        clean_target: false,
        values,
        configs: Vec::new(),
    }
}

fn make_item(name: &str, values: ValuesMap) -> ConfigItem {
    ConfigItem {
        name: name.to_string(),
        template: None,
        values,
    }
}

#[test]
fn applies_plain_variables() {
    let mut values = ValuesMap::new();
    values.insert(
        "command_args".to_string(),
        string_value("queue:consume default"),
    );

    let rendered = apply_values("command={{ command_args }}", &values);

    assert_eq!(rendered, "command=queue:consume default");
}

#[test]
fn merges_shared_and_local_values_with_local_override() {
    let mut shared = ValuesMap::new();
    shared.insert("startsecs".to_string(), number_value(0));
    shared.insert("user".to_string(), string_value("app"));

    let mut local = ValuesMap::new();
    local.insert("startsecs".to_string(), number_value(5));

    let config = make_config(shared);
    let item = make_item("worker", local);

    let values = get_values(&config.values, &item);

    assert_eq!(values.get("user"), Some(&string_value("app")));
    assert_eq!(values.get("startsecs"), Some(&number_value(5)));
}

#[test]
fn injects_name_from_config_item() {
    let config = make_config(ValuesMap::new());
    let item = make_item("worker-default", ValuesMap::new());

    let values = get_values(&config.values, &item);
    let rendered = apply_values("[program:{{ name }}]", &values);

    assert_eq!(rendered, "[program:worker-default]");
}

#[test]
fn applies_lower_filter() {
    let mut values = ValuesMap::new();
    values.insert("autostart".to_string(), bool_value(true));

    let rendered = apply_values("autostart={{ autostart | lower }}", &values);

    assert_eq!(rendered, "autostart=true");
}

#[test]
fn leaves_missing_values_unchanged() {
    let values = ValuesMap::new();

    let rendered = apply_values("user={{ missing }}", &values);

    assert_eq!(rendered, "user={{ missing }}");
}

#[test]
fn applies_upper_and_lower_filters_to_text() {
    let mut values = ValuesMap::new();
    values.insert("user".to_string(), string_value("App"));

    assert_eq!(apply_values("{{user|upper}}", &values), "APP");
    assert_eq!(apply_values("{{ user|lower }}", &values), "app");
    assert_eq!(apply_values("{{user   |   upper}}", &values), "APP");
}

#[test]
fn unknown_filter_leaves_placeholder() {
    let mut values = ValuesMap::new();
    values.insert("user".to_string(), string_value("app"));

    assert_eq!(apply_values("a {{ user | title }} b", &values), "a {{ user | title }} b");
}

#[test]
fn malformed_placeholders_stay_as_written() {
    let mut values = ValuesMap::new();
    values.insert("user".to_string(), string_value("app"));

    for template in ["{{ user }", "{ user }}", "{{ }}", "{{ user | }}", "{{ us er }}", "{{ user. }}"] {
        assert_eq!(apply_values(template, &values), template);
    }
}

#[test]
fn placeholder_after_extra_brace() {
    let mut values = ValuesMap::new();
    values.insert("user".to_string(), string_value("app"));

    assert_eq!(apply_values("{{{ user }}}", &values), "{app}");
}

#[test]
fn unicode_white_space_inside_placeholder() {
    let mut values = ValuesMap::new();
    values.insert("user".to_string(), string_value("app"));

    assert_eq!(apply_values("{{\u{3000}user\u{a0}}}", &values), "app");
    assert_eq!(apply_values("{{\tuser\n|\rupper }}", &values), "APP");
}

#[test]
fn replaces_every_placeholder_in_order() {
    let mut values = ValuesMap::new();
    values.insert("a".to_string(), string_value("1"));
    values.insert("b-2".to_string(), number_value(-7));
    values.insert("c_3".to_string(), Yaml::Null);

    assert_eq!(
        apply_values("x={{a}} y={{ b-2 }} z=[{{c_3}}] {{a}}", &values),
        "x=1 y=-7 z=[] 1"
    );
}

#[test]
fn renders_without_values_unchanged() {
    let values = ValuesMap::new();
    let template = "[program:{{ name }}]\nautostart={{ autostart | lower }}\n";

    assert_eq!(apply_values(template, &values), template);
}

#[test]
fn apply_filter_cases() {
    assert_eq!(apply_filter("Ab".to_string(), None), Some("Ab".to_string()));
    assert_eq!(apply_filter("Ab".to_string(), Some("lower")), Some("ab".to_string()));
    assert_eq!(apply_filter("Ab".to_string(), Some("upper")), Some("AB".to_string()));
    assert_eq!(apply_filter("Ab".to_string(), Some("Upper")), None);
    assert_eq!(apply_filter("Straße".to_string(), Some("upper")), Some("STRASSE".to_string()));
}

#[test]
fn item_name_can_be_overridden_by_local_values() {
    let mut local = ValuesMap::new();
    local.insert("name".to_string(), string_value("other"));
    let config = make_config(ValuesMap::new());
    let item = make_item("worker", local);

    assert_eq!(render_item(&config, &item, "{{ name }}"), "other");
}

#[test]
fn renders_item_with_shared_and_local_values() {
    let mut shared = ValuesMap::new();
    shared.insert("python_bin".to_string(), string_value("/usr/bin/python3"));
    shared.insert("console".to_string(), string_value("/srv/app/bin/console"));
    shared.insert("user".to_string(), string_value("app"));
    shared.insert("autostart".to_string(), bool_value(true));
    shared.insert("startsecs".to_string(), number_value(0));

    let mut local = ValuesMap::new();
    local.insert("command_args".to_string(), string_value("queue:consume default"));
    local.insert("startsecs".to_string(), number_value(5));

    let config = make_config(shared);
    let item = make_item("worker-default", local);
    let template = "[program:{{ name }}]\ncommand={{ python_bin }} {{ console }} {{ command_args }}\nautostart={{ autostart | lower }}\nuser={{ user }}\nstartsecs={{ startsecs }}\n";

    assert_eq!(
        render_item(&config, &item, template),
        "[program:worker-default]\ncommand=/usr/bin/python3 /srv/app/bin/console queue:consume default\nautostart=true\nuser=app\nstartsecs=5\n"
    );
}

#[test]
fn text_without_placeholders_is_kept() {
    let mut values = ValuesMap::new();
    values.insert("x".to_string(), string_value("1"));
    let template = "no { x } placeholders { {x} } here\n";

    assert_eq!(apply_values(template, &values), template);
}
