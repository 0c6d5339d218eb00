use earth::insert_at;
use earth::set_option;
use earth::ConfigError;
use earth::Item;
use earth::Table;

fn text(s: &str) -> Item {
    Item::String(s.to_string())
}

fn table_of(pairs: Vec<(&str, Item)>) -> Table {
    let mut table = Table::new();
    for (k, v) in pairs {
        table.insert(k.to_string(), v);
    }
    table
}

#[test]
fn plain_key_is_stored_directly() {
    let mut config = Table::new();
    assert_eq!(set_option(&mut config, "port", "8087"), Ok(()));
    assert_eq!(config, table_of(vec![("port", Item::Integer(8087))]));
}

#[test]
fn plain_key_overwrites_any_entry() {
    let mut config = table_of(vec![
        ("a", Item::Table(table_of(vec![("x", Item::Integer(1))]))),
        ("b", Item::Integer(2)),
    ]);
    assert_eq!(set_option(&mut config, "a", "moon"), Ok(()));
    assert_eq!(set_option(&mut config, "b", "true"), Ok(()));
    assert_eq!(config, table_of(vec![("a", text("moon")), ("b", Item::Boolean(true))]));
}

#[test]
fn dotted_path_makes_a_nested_table() {
    let mut config = Table::new();
    assert_eq!(set_option(&mut config, "proxy.host", "x"), Ok(()));
    let expected = table_of(vec![("proxy", Item::Table(table_of(vec![("host", text("x"))])))]);
    assert_eq!(config, expected);
}

#[test]
fn dotted_path_keeps_unrelated_keys() {
    let mut config = table_of(vec![
        ("name", text("earth")),
        (
            "proxy",
            Item::Table(table_of(vec![("port", Item::Integer(1080)), ("host", text("old"))])),
        ),
    ]);
    assert_eq!(set_option(&mut config, "proxy.host", "x"), Ok(()));
    let expected = table_of(vec![
        ("name", text("earth")),
        (
            "proxy",
            Item::Table(table_of(vec![("port", Item::Integer(1080)), ("host", text("x"))])),
        ),
    ]);
    assert_eq!(config, expected);
}

#[test]
fn deep_path_makes_every_table_on_the_way() {
    let mut config = Table::new();
    assert_eq!(set_option(&mut config, "a.b.c.d", "1"), Ok(()));
    let d = table_of(vec![("d", Item::Integer(1))]);
    let c = table_of(vec![("c", Item::Table(d))]);
    let b = table_of(vec![("b", Item::Table(c))]);
    assert_eq!(config, table_of(vec![("a", Item::Table(b))]));
    assert_eq!(set_option(&mut config, "a.b.e", "2"), Ok(()));
    let b = config.get("a").unwrap().as_table().unwrap().get("b").unwrap().as_table().unwrap();
    assert_eq!(b.keys(), vec!["c".to_string(), "e".to_string()]);
    assert_eq!(b.get("e"), Some(&Item::Integer(2)));
}

#[test]
fn only_the_first_point_splits_a_level() {
    let mut config = Table::new();
    assert_eq!(set_option(&mut config, "proxy./sds/sds", "moon"), Ok(()));
    let expected = table_of(vec![("proxy", Item::Table(table_of(vec![("/sds/sds", text("moon"))])))]);
    assert_eq!(config, expected);
}

#[test]
fn empty_segments_are_keys_like_any_other() {
    let mut config = Table::new();
    assert_eq!(set_option(&mut config, "a.", "1"), Ok(()));
    assert_eq!(set_option(&mut config, ".b", "2"), Ok(()));
    assert_eq!(set_option(&mut config, "", "3"), Ok(()));
    let expected = table_of(vec![
        ("a", Item::Table(table_of(vec![("", Item::Integer(1))]))),
        ("", Item::Integer(3)),
    ]);
    assert_eq!(config, expected);
}

#[test]
fn path_through_a_leaf_is_a_type_mismatch() {
    let mut config = table_of(vec![("port", Item::Integer(8080))]);
    let before = config.clone();
    assert_eq!(
        set_option(&mut config, "port.x", "1"),
        Err(ConfigError::TypeMismatch("port".to_string()))
    );
    assert_eq!(config, before);
}

#[test]
fn mismatch_names_the_whole_path_to_the_leaf() {
    let mut config = Table::new();
    assert_eq!(set_option(&mut config, "a.b.c", "1"), Ok(()));
    let before = config.clone();
    assert_eq!(
        set_option(&mut config, "a.b.c.d.e", "2"),
        Err(ConfigError::TypeMismatch("a.b.c".to_string()))
    );
    assert_eq!(config, before);
    assert_eq!(
        insert_at(&mut config, "a.b.c.d", Item::Array(vec![])),
        Err(ConfigError::TypeMismatch("a.b.c".to_string()))
    );
    assert_eq!(config, before);
}

#[test]
fn array_is_no_table_either() {
    let mut config = table_of(vec![("list", Item::Array(vec![Item::Integer(1)]))]);
    assert_eq!(
        set_option(&mut config, "list.0", "1"),
        Err(ConfigError::TypeMismatch("list".to_string()))
    );
}

#[test]
fn insert_at_takes_any_value() {
    let mut config = Table::new();
    let inner = table_of(vec![("k", Item::Boolean(true))]);
    assert_eq!(insert_at(&mut config, "a.b", Item::Table(inner.clone())), Ok(()));
    assert_eq!(insert_at(&mut config, "a.b.j", Item::Float("0.5".to_string())), Ok(()));
    let b = config.get("a").unwrap().as_table().unwrap().get("b").unwrap().as_table().unwrap();
    assert_eq!(b.get("k"), Some(&Item::Boolean(true)));
    assert_eq!(b.get("j"), Some(&Item::Float("0.5".to_string())));
}

#[test]
fn set_option_coerces_its_value() {
    let mut config = Table::new();
    assert_eq!(set_option(&mut config, "a", "1,2"), Ok(()));
    assert_eq!(set_option(&mut config, "b", "1.5"), Ok(()));
    assert_eq!(set_option(&mut config, "c", ""), Ok(()));
    assert_eq!(set_option(&mut config, "d", "x y"), Ok(()));
    let expected = table_of(vec![
        ("a", Item::Array(vec![Item::Integer(1), Item::Integer(2)])),
        ("b", Item::Float("1.5".to_string())),
        ("c", Item::Boolean(true)),
        ("d", text("x y")),
    ]);
    assert_eq!(config, expected);
}
