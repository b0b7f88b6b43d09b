use std::collections::{BTreeMap, HashMap};

use squaredb_fm::record::Record;
use squaredb_fm::res::create_response;
use squaredb_fm::table::Table;

fn pairs(v: &[(&str, &str)]) -> Vec<(String, String)> {
    v.iter().map(|(a, b)| (a.to_string(), b.to_string())).collect()
}

#[test]
fn response_with_a_description() {
    assert_eq!(
        create_response("404", "missing", Some("no such table")),
        pairs(&[
            ("result", ""),
            ("StatusCode", "404"),
            ("msg", "missing"),
            ("description", "no such table"),
        ])
    );
}

#[test]
fn response_without_a_description() {
    assert_eq!(
        create_response("200", "ok", None),
        pairs(&[
            ("result", ""),
            ("StatusCode", "200"),
            ("msg", "ok"),
            ("description", "No description for that Error"),
        ])
    );
}

#[test]
fn table_from_parts() {
    let mut defaults = HashMap::new();
    defaults.insert("qty".to_string(), "1".to_string());
    let t = Table::new(
        "orders",
        vec!["item".to_string(), "qty".to_string()],
        defaults.clone(),
        vec!["item".to_string()],
        vec![],
        HashMap::new(),
    );
    assert_eq!(t.name, "orders");
    assert_eq!(t.row_names, vec!["item".to_string(), "qty".to_string()]);
    assert_eq!(t.default_values, defaults);
    assert_eq!(t.required_columns, vec!["item".to_string()]);
}

#[test]
fn default_table_is_empty() {
    let t = Table::default_table();
    assert_eq!(t.name, "default");
    assert!(t.row_names.is_empty() && t.default_values.is_empty() && t.data_types.is_empty());
}

#[test]
fn new_record_is_unbound() {
    let mut m = BTreeMap::new();
    m.insert("item".to_string(), "pen".to_string());
    let r = Record::new(m.clone());
    assert_eq!(r.inner, m);
    assert_eq!(r.path, "");
    assert_eq!(r.index, -1);
    assert!(!r.is_bound());
    assert!(Record::located(m, "0.rdb".to_string(), 3).is_bound());
}
