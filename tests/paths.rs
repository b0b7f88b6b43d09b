use squaredb_fm::disk::Disk;
use squaredb_fm::path::{decimal_string, format_path, join_path, numbered_name};

#[test]
fn join_path_inserts_one_separator() {
    assert_eq!(join_path("/data", "shop"), "/data/shop");
    assert_eq!(join_path("", "x"), "/x");
}

#[test]
fn format_path_prefixes_the_database_directory() {
    assert_eq!(format_path("/data", &["shop", "orders"]), "/data/sq/dbd/shop/orders");
    assert_eq!(format_path("data", &[]), "data/sq/dbd");
}

#[test]
fn decimal_numerals() {
    assert_eq!(decimal_string(0), "0");
    assert_eq!(decimal_string(7), "7");
    assert_eq!(decimal_string(10), "10");
    assert_eq!(decimal_string(524288), "524288");
    assert_eq!(decimal_string(u64::MAX), "18446744073709551615");
}

#[test]
fn numbered_file_names() {
    assert_eq!(numbered_name(0, ".rdb"), "0.rdb");
    assert_eq!(numbered_name(12, ".db"), "12.db");
}

#[test]
fn engine_paths_follow_the_layout() {
    let d = Disk::new("s3cret".to_string(), Some("/data".to_string()));
    assert_eq!(d.database_path("shop"), "/data/sq/dbd/shop");
    assert_eq!(d.table_path("shop", "orders"), "/data/sq/dbd/shop/orders");
    assert_eq!(d.schema_path("shop", "orders"), "/data/sq/dbd/shop/orders/orders.ifrm");
    assert_eq!(d.segment_path("shop", "orders", 3), "/data/sq/dbd/shop/orders/3.rdb");
    assert_eq!(d.format_path(&["shop"]), "/data/sq/dbd/shop");
}

#[test]
fn engine_root_defaults_to_data() {
    let d = Disk::new("k".to_string(), None);
    assert_eq!(d.database_path("a"), "data/sq/dbd/a");
}
