use utility_belt::config::Config;
use utility_belt::parse::parse_str;

fn test_ini() -> &'static str {
    "[DEFAULT]\nvar1 = val1\n\n[Group A]\nvar2 = value two\nvar 3 = value = three\n"
}

fn test2_ini() -> &'static str {
    "[Group A]\nvar 3 = value = four\n"
}

fn parsed() -> Config {
    parse_str(test_ini(), "tests/test.ini").unwrap()
}

#[test]
fn parse_variables() {
    let conf = parsed();

    assert_eq!(conf.value_of("DEFAULT", "var1"), "val1");
    assert_eq!(conf.value_of("Group A", "var2"), "value two");
    assert_eq!(conf.value_of("Group A", "var 3"), "value = three");
}

#[test]
fn merge_configs() {
    let conf = parsed().merge_with(parse_str(test2_ini(), "tests/test2.ini").unwrap());

    assert_eq!(conf.value_of("DEFAULT", "var1"), "val1");
    assert_eq!(conf.value_of("Group A", "var2"), "value two");
    assert_eq!(conf.value_of("Group A", "var 3"), "value = four");
}

#[test]
fn test_write_to_file() {
    let conf = Config::default()
        .set_default("var1", "value")
        .set("Some Group", "my variable", "my value");

    let text = conf.to_ini_string();
    println!("* conf: {:?}", text);

    let read_conf = parse_str(&text, "writing_test_config_file.txt").unwrap();
    assert_eq!(read_conf.get_default("var1"), Some(&"value".to_string()));
    assert_eq!(
        read_conf.get("Some Group", "my variable"),
        Some(&"my value".to_string())
    );
}

#[test]
fn get_default_group() {
    let conf = parsed();

    assert_eq!(conf.get_default("var1"), Some(&"val1".to_string()));
    assert_eq!(conf.get_default("nothing"), None);
}

#[test]
fn get_group() {
    let conf = parsed();

    assert_eq!(conf.get("Group A", "var2"), Some(&"value two".to_string()));
    assert_eq!(conf.get("Group A", "var1"), None);
}

#[test]
fn get_nonexistent_group_is_none() {
    let conf = parsed();

    assert!(conf.get("Not a group", "var1").is_none());
}

#[test]
fn set_default_values() {
    let conf = Config::default()
        .set_default("var1", "default value")
        .set_default("some-var", "my-value")
        .merge_with(parsed());

    assert_eq!(conf.value_of("DEFAULT", "var1"), "val1");
    assert_eq!(conf.value_of("DEFAULT", "some-var"), "my-value");
}

#[test]
fn last_write_wins_within_one_file() {
    let conf = parse_str("a = 1\na = 2\n[G]\nk = u\nk = w\n", "x.ini").unwrap();

    assert_eq!(conf.get_default("a"), Some(&"2".to_string()));
    assert_eq!(conf.get("G", "k"), Some(&"w".to_string()));
}

#[test]
fn set_overrides_previous_value() {
    let conf = Config::default().set("G", "k", "one").set("G", "k", "two");

    assert_eq!(conf.get("G", "k"), Some(&"two".to_string()));
}

#[test]
fn merge_prefers_other_and_keeps_the_rest() {
    let a = Config::default()
        .set("G", "shared", "from a")
        .set("G", "only a", "kept");
    let b = Config::default()
        .set("G", "shared", "from b")
        .set("H", "only b", "added");
    let merged = a.merge_with(b);

    assert_eq!(merged.get("G", "shared"), Some(&"from b".to_string()));
    assert_eq!(merged.get("G", "only a"), Some(&"kept".to_string()));
    assert_eq!(merged.get("H", "only b"), Some(&"added".to_string()));
    assert_eq!(merged.get("H", "shared"), None);
}

#[test]
fn value_keeps_inner_equal_signs() {
    let conf = parse_str("var 3 = value = three\n", "eq.ini").unwrap();

    assert_eq!(conf.get_default("var 3"), Some(&"value = three".to_string()));
}

#[test]
fn get_default_agrees_with_get() {
    let conf = parsed().set_default("extra", "added");

    assert_eq!(conf.get_default("var1"), conf.get("DEFAULT", "var1"));
    assert_eq!(conf.get_default("extra"), conf.get("DEFAULT", "extra"));
    assert_eq!(conf.get_default("nothing"), conf.get("DEFAULT", "nothing"));
}

#[test]
fn empty_value_is_allowed() {
    let conf = parse_str("key =\n", "empty.ini").unwrap();

    assert_eq!(conf.get_default("key"), Some(&"".to_string()));
}

#[test]
fn reopening_a_group_resumes_it() {
    let conf = parse_str("[G]\na = 1\n[H]\nb = 2\n[G]\nc = 3\n", "re.ini").unwrap();

    assert_eq!(conf.get("G", "a"), Some(&"1".to_string()));
    assert_eq!(conf.get("G", "c"), Some(&"3".to_string()));
    assert_eq!(conf.get("H", "b"), Some(&"2".to_string()));
    let groups = conf.groups();
    assert_eq!(groups, vec!["G".to_string(), "H".to_string()]);
}

#[test]
fn groups_and_variables_enumerate_once() {
    let conf = parsed();

    let groups = conf.groups();
    assert_eq!(groups, vec!["DEFAULT".to_string(), "Group A".to_string()]);

    let vars = conf.variables_in_group("Group A");
    assert_eq!(vars, vec!["var2".to_string(), "var 3".to_string()]);

    let pairs = conf.group_by_key_value("Group A");
    assert_eq!(
        pairs,
        vec![
            ("var2".to_string(), "value two".to_string()),
            ("var 3".to_string(), "value = three".to_string()),
        ]
    );
}

#[test]
fn render_exact_text() {
    let conf = Config::default()
        .set("G", "a", "1")
        .set("G", "b", "2")
        .set_default("x", "y");

    assert_eq!(conf.to_ini_string(), "[G]\na = 1\nb = 2\n[DEFAULT]\nx = y\n");
}

#[test]
fn render_keeps_last_value_only() {
    let conf = Config::default().set("G", "k", "one").set("G", "k", "two");

    assert_eq!(conf.to_ini_string(), "[G]\nk = two\n");
}
