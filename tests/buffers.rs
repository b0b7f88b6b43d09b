use squaredb_fm::err::FmError;
use squaredb_fm::memtable::Memtable;
use squaredb_fm::sstable::{key_bytes, SStable};

#[test]
fn keys_count_up_from_one() {
    let mut m = Memtable::new(10);
    m.write_table("t");
    assert_eq!(m.write_record("t", "a".to_string()), Ok(1));
    assert_eq!(m.write_record("t", "b".to_string()), Ok(2));
    assert_eq!(m.write_record("t", "c".to_string()), Ok(3));
    assert_eq!(
        m.read_table("t"),
        Some(vec![(1, "a".to_string()), (2, "b".to_string()), (3, "c".to_string())])
    );
}

#[test]
fn writing_to_an_unknown_table_fails() {
    let mut m = Memtable::new(10);
    assert_eq!(m.write_record("t", "a".to_string()), Err(FmError::TableNotFoundInMemory));
    assert_eq!(m.flush_table("t"), Err(FmError::TableNotFoundInMemory));
    assert_eq!(m.read_table("t"), None);
}

#[test]
fn buffer_is_full_at_capacity() {
    let mut m = Memtable::new(2);
    m.write_table("t");
    assert!(!m.is_full("t"));
    m.write_record("t", "a".to_string()).unwrap();
    assert!(!m.is_full("t"));
    m.write_record("t", "b".to_string()).unwrap();
    assert!(m.is_full("t"));
    assert!(!m.is_full("u"));
}

#[test]
fn flush_empties_and_restarts_keys() {
    let mut m = Memtable::new(2);
    m.write_table("t");
    m.write_record("t", "a".to_string()).unwrap();
    assert_eq!(m.flush_table("t"), Ok(()));
    assert_eq!(m.read_table("t"), Some(vec![]));
    assert_eq!(m.write_record("t", "b".to_string()), Ok(1));
}

#[test]
fn register_and_remove_tables() {
    let mut m = Memtable::new(3);
    m.write_table("a");
    m.write_table("b");
    assert!(m.exist_table("a") && m.exist_table("b"));
    m.write_record("a", "x".to_string()).unwrap();
    m.delete_table("a");
    assert!(!m.exist_table("a"));
    assert!(m.exist_table("b"));
    m.delete_table("a");
    m.write_record("b", "y".to_string()).unwrap();
    m.write_table("b");
    assert_eq!(m.read_table("b"), Some(vec![(1, "y".to_string())]));
    assert_eq!(m.capacity_of(), 3);
}

#[test]
fn collapse_keeps_the_first_of_each_repeat() {
    let data = vec![
        (1, "a".to_string()),
        (2, "a".to_string()),
        (3, "b".to_string()),
        (4, "a".to_string()),
        (5, "a".to_string()),
    ];
    assert_eq!(
        SStable::collapse(&data),
        vec![(1, "a".to_string()), (3, "b".to_string()), (4, "a".to_string())]
    );
    assert_eq!(SStable::collapse(&vec![]), vec![]);
}

#[test]
fn run_bytes_are_bincode_pairs() {
    let data = vec![(1, "ab".to_string()), (2, "ab".to_string()), (258, "c".to_string())];
    let (path, bytes) = SStable::to_sstable(&data, "/r/t", 4).unwrap();
    assert_eq!(path, "/r/t/lev0/4.db");
    let mut want: Vec<u8> = vec![0, 0, 0, 0, 0, 0, 0, 1, 2, 0, 0, 0, 0, 0, 0, 0, b'a', b'b'];
    want.extend_from_slice(&[0, 0, 0, 0, 0, 0, 1, 2, 1, 0, 0, 0, 0, 0, 0, 0, b'c']);
    assert_eq!(bytes, want);
}

#[test]
fn empty_snapshot_gives_an_empty_run() {
    let (path, bytes) = SStable::to_sstable(&vec![], "t", 0).unwrap();
    assert_eq!(path, "t/lev0/0.db");
    assert!(bytes.is_empty());
}

#[test]
fn keys_are_written_big_endian() {
    assert_eq!(key_bytes(1), vec![0, 0, 0, 0, 0, 0, 0, 1]);
    assert_eq!(key_bytes(0x0102_0304_0506_0708), vec![1, 2, 3, 4, 5, 6, 7, 8]);
    assert!(key_bytes(255) < key_bytes(256));
}
