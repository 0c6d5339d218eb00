use earth::arg_v2toml;
use earth::ConfigError;
use earth::Item;
use earth::Table;

fn text(s: &str) -> Item {
    Item::String(s.to_string())
}

fn tokens(words: &[&str]) -> Vec<String> {
    words.iter().map(|w| w.to_string()).collect()
}

fn table_of(pairs: Vec<(&str, Item)>) -> Table {
    let mut table = Table::new();
    for (k, v) in pairs {
        table.insert(k.to_string(), v);
    }
    table
}

#[test]
fn no_tokens_no_keys() {
    assert_eq!(arg_v2toml(&[]), Ok(Table::new()));
}

#[test]
fn option_takes_the_next_token() {
    let table = arg_v2toml(&tokens(&["--port", "8087"])).unwrap();
    assert_eq!(table, table_of(vec![("port", Item::Integer(8087))]));
}

#[test]
fn several_options() {
    let table = arg_v2toml(&tokens(&[
        "--port",
        "8087",
        "--moon_servers",
        "http://54.238.42.65:9007/moon,",
        "--proxy./sds/sds",
        "moon",
    ]))
    .unwrap();
    let expected = table_of(vec![
        ("port", Item::Integer(8087)),
        ("moon_servers", Item::Array(vec![text("http://54.238.42.65:9007/moon")])),
        ("proxy", Item::Table(table_of(vec![("/sds/sds", text("moon"))]))),
    ]);
    assert_eq!(table, expected);
}

#[test]
fn option_before_an_option_is_a_flag() {
    let table = arg_v2toml(&tokens(&["--verbose", "--port", "1"])).unwrap();
    assert_eq!(
        table,
        table_of(vec![("verbose", Item::Boolean(true)), ("port", Item::Integer(1))])
    );
}

#[test]
fn flags_in_a_row() {
    let table = arg_v2toml(&tokens(&["--a", "--b", "--c", "x"])).unwrap();
    assert_eq!(
        table,
        table_of(vec![("a", Item::Boolean(true)), ("b", Item::Boolean(true)), ("c", text("x"))])
    );
}

#[test]
fn option_as_last_token_is_malformed() {
    assert_eq!(arg_v2toml(&tokens(&["--port"])), Err(ConfigError::MalformedArguments));
    assert_eq!(
        arg_v2toml(&tokens(&["--port", "1", "--verbose"])),
        Err(ConfigError::MalformedArguments)
    );
    assert_eq!(arg_v2toml(&tokens(&["--a", "--b"])), Err(ConfigError::MalformedArguments));
}

#[test]
fn other_tokens_are_passed_over() {
    let table = arg_v2toml(&tokens(&["run", "-v", "--port", "1", "extra", "-", "--name", "x", "tail"]))
        .unwrap();
    assert_eq!(table, table_of(vec![("port", Item::Integer(1)), ("name", text("x"))]));
    assert_eq!(arg_v2toml(&tokens(&["only", "words"])), Ok(Table::new()));
}

#[test]
fn value_is_consumed_with_its_option() {
    let table = arg_v2toml(&tokens(&["--a", "-b", "--c", "d"])).unwrap();
    assert_eq!(table, table_of(vec![("a", text("-b")), ("c", text("d"))]));
}

#[test]
fn later_option_wins() {
    let table = arg_v2toml(&tokens(&["--port", "1", "--port", "2"])).unwrap();
    assert_eq!(table, table_of(vec![("port", Item::Integer(2))]));
}

#[test]
fn dotted_options_share_a_table() {
    let table = arg_v2toml(&tokens(&["--proxy.host", "x", "--proxy.port", "1080"])).unwrap();
    let proxy = table_of(vec![("host", text("x")), ("port", Item::Integer(1080))]);
    assert_eq!(table, table_of(vec![("proxy", Item::Table(proxy))]));
}

#[test]
fn dotted_path_scenario() {
    let table = arg_v2toml(&tokens(&["--proxy.host", "x"])).unwrap();
    let expected = table_of(vec![("proxy", Item::Table(table_of(vec![("host", text("x"))])))]);
    assert_eq!(table, expected);
}

#[test]
fn option_through_a_leaf_is_a_type_mismatch() {
    assert_eq!(
        arg_v2toml(&tokens(&["--a", "1", "--a.b", "2"])),
        Err(ConfigError::TypeMismatch("a".to_string()))
    );
    assert_eq!(
        arg_v2toml(&tokens(&["--a.b", "1", "--a.b.c", "2"])),
        Err(ConfigError::TypeMismatch("a.b".to_string()))
    );
}

#[test]
fn two_hyphens_alone_name_the_empty_path() {
    let table = arg_v2toml(&tokens(&["--", "x"])).unwrap();
    assert_eq!(table, table_of(vec![("", text("x"))]));
}

#[test]
fn empty_value_is_a_switch() {
    let table = arg_v2toml(&tokens(&["--debug", ""])).unwrap();
    assert_eq!(table, table_of(vec![("debug", Item::Boolean(true))]));
}
