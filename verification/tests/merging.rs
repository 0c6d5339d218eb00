use earth::merge_toml;
use earth::Item;
use earth::Table;

fn text(s: &str) -> Item {
    Item::String(s.to_string())
}

fn table_of(pairs: Vec<(&str, Item)>) -> Table {
    let mut table = Table::new();
    for (k, v) in pairs {
        table.insert(k.to_string(), v);
    }
    table
}

fn sample() -> Table {
    table_of(vec![
        ("name", text("earth")),
        ("port", Item::Integer(8080)),
        ("ratio", Item::Float("0.5".to_string())),
        ("debug", Item::Boolean(false)),
        ("servers", Item::Array(vec![text("a"), text("b")])),
        (
            "proxy",
            Item::Table(table_of(vec![
                ("host", text("h")),
                ("auth", Item::Table(table_of(vec![("user", text("u"))]))),
            ])),
        ),
    ])
}

#[test]
fn empty_overlay_is_a_no_op() {
    let mut left = sample();
    merge_toml(&mut left, &Table::new());
    assert_eq!(left, sample());
}

#[test]
fn empty_base_becomes_the_overlay() {
    let mut left = Table::new();
    merge_toml(&mut left, &sample());
    assert_eq!(left, sample());
}

#[test]
fn overlay_is_copied_not_shared() {
    let mut left = Table::new();
    let mut right = sample();
    merge_toml(&mut left, &right);
    right.insert("name".to_string(), text("changed"));
    assert_eq!(left, sample());
}

#[test]
fn overlay_wins_on_scalars() {
    let mut left = table_of(vec![("port", Item::Integer(8080)), ("name", text(""))]);
    let right = table_of(vec![("port", Item::Integer(8087))]);
    merge_toml(&mut left, &right);
    assert_eq!(left.get("port"), Some(&Item::Integer(8087)));
    assert_eq!(left.get("name"), Some(&text("")));
    assert_eq!(left.len(), 2);
}

#[test]
fn overlay_may_change_the_type_of_a_leaf() {
    let mut left = table_of(vec![("port", Item::Integer(8080))]);
    let right = table_of(vec![("port", text("eighty"))]);
    merge_toml(&mut left, &right);
    assert_eq!(left, table_of(vec![("port", text("eighty"))]));
}

#[test]
fn tables_under_one_key_are_merged() {
    let mut left = table_of(vec![(
        "a",
        Item::Table(table_of(vec![("x", Item::Integer(1)), ("y", Item::Integer(2))])),
    )]);
    let right = table_of(vec![("a", Item::Table(table_of(vec![("x", Item::Integer(9))])))]);
    merge_toml(&mut left, &right);
    let expected = table_of(vec![(
        "a",
        Item::Table(table_of(vec![("x", Item::Integer(9)), ("y", Item::Integer(2))])),
    )]);
    assert_eq!(left, expected);
}

#[test]
fn merge_goes_all_the_way_down() {
    let mut left = sample();
    let right = table_of(vec![(
        "proxy",
        Item::Table(table_of(vec![(
            "auth",
            Item::Table(table_of(vec![("pass", text("p")), ("user", text("v"))])),
        )])),
    )]);
    merge_toml(&mut left, &right);
    let proxy = left.get("proxy").unwrap().as_table().unwrap();
    assert_eq!(proxy.get("host"), Some(&text("h")));
    let auth = proxy.get("auth").unwrap().as_table().unwrap();
    assert_eq!(auth.get("user"), Some(&text("v")));
    assert_eq!(auth.get("pass"), Some(&text("p")));
    assert_eq!(auth.len(), 2);
    assert_eq!(left.len(), 6);
    assert_eq!(left.get("name"), Some(&text("earth")));
}

#[test]
fn new_keys_and_new_tables_come_in() {
    let mut left = table_of(vec![("a", Item::Integer(1))]);
    let right = table_of(vec![
        ("b", Item::Integer(2)),
        ("t", Item::Table(table_of(vec![("u", Item::Table(table_of(vec![("v", text("w"))])))]))),
    ]);
    merge_toml(&mut left, &right);
    let expected = table_of(vec![
        ("a", Item::Integer(1)),
        ("b", Item::Integer(2)),
        ("t", Item::Table(table_of(vec![("u", Item::Table(table_of(vec![("v", text("w"))])))]))),
    ]);
    assert_eq!(left, expected);
}

#[test]
fn leaf_over_a_table_replaces_it() {
    let mut left = sample();
    let right = table_of(vec![("proxy", text("none"))]);
    merge_toml(&mut left, &right);
    assert_eq!(left.get("proxy"), Some(&text("none")));
}

#[test]
fn table_over_a_leaf_replaces_it() {
    let mut left = sample();
    let right = table_of(vec![("port", Item::Table(table_of(vec![("http", Item::Integer(80))])))]);
    merge_toml(&mut left, &right);
    assert_eq!(
        left.get("port"),
        Some(&Item::Table(table_of(vec![("http", Item::Integer(80))])))
    );
    assert_eq!(left.get("name"), Some(&text("earth")));
}

#[test]
fn arrays_are_replaced_not_joined() {
    let mut left = sample();
    let right = table_of(vec![("servers", Item::Array(vec![text("c")]))]);
    merge_toml(&mut left, &right);
    assert_eq!(left.get("servers"), Some(&Item::Array(vec![text("c")])));
}

#[test]
fn merging_twice_changes_nothing_more() {
    let mut once = sample();
    let right = table_of(vec![
        ("port", Item::Integer(1)),
        ("proxy", Item::Table(table_of(vec![("host", text("z"))]))),
    ]);
    merge_toml(&mut once, &right);
    let mut twice = once.clone();
    merge_toml(&mut twice, &right);
    assert_eq!(once, twice);
}
