use earth::merge_env;
use earth::Environment;
use earth::Item;
use earth::Table;

fn text(s: &str) -> Item {
    Item::String(s.to_string())
}

fn table_of(pairs: Vec<(&str, Item)>) -> Table {
    let mut table = Table::new();
    for (k, v) in pairs {
        table.insert(k.to_string(), v);
    }
    table
}

fn env_of(pairs: &[(&str, &str)]) -> Environment {
    let mut env = Environment::new();
    for (k, v) in pairs {
        env.set(k.to_string(), v.to_string());
    }
    env
}

#[test]
fn environment_keeps_the_last_value_set() {
    let mut env = Environment::new();
    assert_eq!(env.get("A"), None);
    env.set("A".to_string(), "1".to_string());
    env.set("B".to_string(), "2".to_string());
    env.set("A".to_string(), "3".to_string());
    assert_eq!(env.get("A"), Some("3"));
    assert_eq!(env.get("B"), Some("2"));
    assert_eq!(env.get("a"), None);
}

#[test]
fn matching_variable_overwrites_the_leaf() {
    let mut left = table_of(vec![("port", Item::Integer(8080))]);
    merge_env(&mut left, "APP_", &env_of(&[("APP_PORT", "9000")]));
    assert_eq!(left, table_of(vec![("port", Item::Integer(9000))]));
}

#[test]
fn without_a_variable_the_leaf_stays() {
    let mut left = table_of(vec![("port", Item::Integer(8080))]);
    merge_env(&mut left, "APP_", &env_of(&[("PORT", "1"), ("APP_PORTS", "2"), ("app_port", "3")]));
    assert_eq!(left, table_of(vec![("port", Item::Integer(8080))]));
    merge_env(&mut left, "APP_", &Environment::new());
    assert_eq!(left, table_of(vec![("port", Item::Integer(8080))]));
}

#[test]
fn names_are_put_in_upper_case() {
    let mut left = table_of(vec![("moon_servers", text("a")), ("Name", text("b"))]);
    let env = env_of(&[("APP_MOON_SERVERS", "x"), ("APP_NAME", "y")]);
    merge_env(&mut left, "app_", &env);
    assert_eq!(left, table_of(vec![("moon_servers", text("x")), ("Name", text("y"))]));
}

#[test]
fn upper_case_goes_beyond_ascii() {
    let mut left = table_of(vec![("straße", text("a")), ("é", text("b"))]);
    let env = env_of(&[("STRASSE", "x"), ("É", "y")]);
    merge_env(&mut left, "", &env);
    assert_eq!(left, table_of(vec![("straße", text("x")), ("é", text("y"))]));
}

#[test]
fn nested_keys_are_joined_by_underscores() {
    let mut left = table_of(vec![
        ("port", Item::Integer(1)),
        (
            "proxy",
            Item::Table(table_of(vec![
                ("host", text("h")),
                ("auth", Item::Table(table_of(vec![("user", text("u")), ("pass", text("p"))]))),
            ])),
        ),
    ]);
    let env = env_of(&[
        ("APP_PROXY_HOST", "example.org"),
        ("APP_PROXY_AUTH_USER", "root"),
        ("APP_HOST", "wrong"),
        ("APP_PROXY_USER", "wrong"),
        ("APP_AUTH_USER", "wrong"),
    ]);
    merge_env(&mut left, "APP_", &env);
    let expected = table_of(vec![
        ("port", Item::Integer(1)),
        (
            "proxy",
            Item::Table(table_of(vec![
                ("host", text("example.org")),
                ("auth", Item::Table(table_of(vec![("user", text("root")), ("pass", text("p"))]))),
            ])),
        ),
    ]);
    assert_eq!(left, expected);
}

#[test]
fn tables_are_never_overwritten_whole() {
    let mut left = table_of(vec![("proxy", Item::Table(table_of(vec![("host", text("h"))])))]);
    merge_env(&mut left, "APP_", &env_of(&[("APP_PROXY", "gone"), ("APP_PROXY_", "gone")]));
    assert_eq!(left, table_of(vec![("proxy", Item::Table(table_of(vec![("host", text("h"))])))]));
}

#[test]
fn values_are_coerced() {
    let mut left = table_of(vec![
        ("a", text("")),
        ("b", text("")),
        ("c", text("")),
        ("d", text("")),
        ("e", Item::Integer(0)),
        ("f", Item::Integer(0)),
    ]);
    let env = env_of(&[("A", "true"), ("B", "42"), ("C", "1.5"), ("D", "x,y"), ("E", "word"), ("F", "")]);
    merge_env(&mut left, "", &env);
    let expected = table_of(vec![
        ("a", Item::Boolean(true)),
        ("b", Item::Integer(42)),
        ("c", Item::Float("1.5".to_string())),
        ("d", Item::Array(vec![text("x"), text("y")])),
        ("e", text("word")),
        ("f", Item::Boolean(true)),
    ]);
    assert_eq!(left, expected);
}

#[test]
fn an_array_is_a_leaf() {
    let mut left = table_of(vec![("servers", Item::Array(vec![text("a")]))]);
    merge_env(&mut left, "", &env_of(&[("SERVERS", "b,c")]));
    assert_eq!(left, table_of(vec![("servers", Item::Array(vec![text("b"), text("c")]))]));
}

#[test]
fn no_key_comes_or_goes() {
    let mut left = table_of(vec![("a", Item::Integer(1)), ("b", Item::Integer(2))]);
    merge_env(&mut left, "X_", &env_of(&[("X_A", "10"), ("X_C", "30")]));
    assert_eq!(left.keys(), vec!["a".to_string(), "b".to_string()]);
    assert_eq!(left.get("a"), Some(&Item::Integer(10)));
    assert_eq!(left.get("b"), Some(&Item::Integer(2)));
}

#[test]
fn root_is_part_of_the_name() {
    let mut left = table_of(vec![("port", Item::Integer(1))]);
    merge_env(&mut left, "my.app-", &env_of(&[("MY.APP-PORT", "2")]));
    assert_eq!(left.get("port"), Some(&Item::Integer(2)));
}
