use std::collections::BTreeMap;

use squaredb_fm::disk::{
    Config, Disk, Fetch, Probe, RecordWrite, SegmentLayout, MAX_RECORDS, SEGMENT_LIMIT,
};
use squaredb_fm::err::FmError;
use squaredb_fm::record::Record;

fn layout(segments: usize, active_size: u64, runs: u64) -> SegmentLayout {
    SegmentLayout { records: 0, segments, active_size, runs }
}

fn small_engine(capacity: usize) -> Disk {
    Disk::with_config(
        "s3cret".to_string(),
        Some("/data".to_string()),
        Config { capacity, segment_limit: SEGMENT_LIMIT, max_records: MAX_RECORDS },
    )
}

/// Writes `texts` as records and returns the segment text they were appended to.
fn write_all(d: &mut Disk, texts: &[&str]) -> (String, Vec<RecordWrite>) {
    let mut segment = String::new();
    let mut writes = Vec::new();
    for t in texts {
        let w = d
            .write_record("shop", "orders", t, true, &layout(1, segment.len() as u64, 0))
            .unwrap();
        segment.push_str(&w.line);
        writes.push(w);
    }
    (segment, writes)
}

#[test]
fn worked_example_flushes_once_after_the_second_write() {
    let mut d = small_engine(2);
    assert_eq!(d.schema_path("shop", "orders"), "/data/sq/dbd/shop/orders/orders.ifrm");
    let (schema_path, _cipher) = d.write_table("shop", "orders", "{\"name\":\"orders\"}");
    assert_eq!(schema_path, "/data/sq/dbd/shop/orders/orders.ifrm");
    d.commit_table("shop", "orders", true).unwrap();
    let table = d.table_path("shop", "orders");
    let mut runs = 0;
    for i in 0..3 {
        let w = d
            .write_record("shop", "orders", "{\"item\":\"pen\"}", true, &layout(1, 0, runs))
            .unwrap();
        if i < 2 {
            assert!(w.run.is_none());
        } else {
            let (path, bytes) = w.run.expect("third write flushes");
            assert_eq!(path, "/data/sq/dbd/shop/orders/lev0/0.db");
            assert!(!bytes.is_empty());
            runs += 1;
        }
        assert_eq!(w.segment, "/data/sq/dbd/shop/orders/0.rdb");
    }
    assert_eq!(runs, 1);
    assert_eq!(d.buffered(&table).unwrap().len(), 1);
}

#[test]
fn capacity_plus_one_writes_flush_exactly_once() {
    let mut d = small_engine(10);
    let mut flushes = 0;
    for i in 0..11u64 {
        let w = d.write_record("shop", "orders", "r", true, &layout(0, 0, 0)).unwrap();
        if w.run.is_some() {
            flushes += 1;
            assert_eq!(i, 10);
        }
    }
    assert_eq!(flushes, 1);
    let buf = d.buffered(&d.table_path("shop", "orders")).unwrap();
    assert_eq!(buf.len(), 1);
    assert_eq!(buf[0].0, 1);
}

#[test]
fn keys_follow_the_buffer() {
    let mut d = small_engine(3);
    let keys: Vec<u64> = (0..7)
        .map(|_| d.write_record("db", "t", "x", true, &layout(0, 0, 0)).unwrap().key)
        .collect();
    assert_eq!(keys, vec![1, 2, 3, 1, 2, 3, 1]);
}

#[test]
fn flushed_run_collapses_repeats() {
    let mut d = small_engine(2);
    d.write_record("db", "t", "same", true, &layout(0, 0, 0)).unwrap();
    d.write_record("db", "t", "same", true, &layout(0, 0, 0)).unwrap();
    let w = d.write_record("db", "t", "other", true, &layout(0, 0, 5)).unwrap();
    let (path, bytes) = w.run.unwrap();
    assert_eq!(path, "/data/sq/dbd/db/t/lev0/5.db");
    let cipher_len = d.codec().encrypt("same").unwrap().len();
    assert_eq!(bytes.len(), 16 + cipher_len);
    assert_eq!(&bytes[0..8], &[0, 0, 0, 0, 0, 0, 0, 1]);
    assert_eq!(&bytes[8..16], &[cipher_len as u8, 0, 0, 0, 0, 0, 0, 0]);
}

#[test]
fn writing_to_a_missing_table_is_not_found() {
    let mut d = small_engine(2);
    let r = d.write_record("shop", "nope", "x", false, &layout(0, 0, 0));
    assert_eq!(r.err(), Some(FmError::NotFound));
    assert!(!d.has_buffer(&d.table_path("shop", "nope")));
}

#[test]
fn segment_rotation_in_write() {
    let mut d = small_engine(10);
    let w = d.write_record("s", "t", "x", true, &layout(0, 0, 0)).unwrap();
    assert_eq!(w.segment, "/data/sq/dbd/s/t/0.rdb");
    let w = d.write_record("s", "t", "x", true, &layout(2, SEGMENT_LIMIT, 0)).unwrap();
    assert_eq!(w.segment, "/data/sq/dbd/s/t/2.rdb");
    let w = d.write_record("s", "t", "x", true, &layout(2, 10, 0)).unwrap();
    assert_eq!(w.segment, "/data/sq/dbd/s/t/1.rdb");
    assert!(w.line.ends_with('\n'));
}

#[test]
fn every_written_record_reads_back_once() {
    let mut d = small_engine(2);
    let texts = ["a", "b", "c", "d", "e"];
    let (segment, _) = write_all(&mut d, &texts);
    let path = d.segment_path("shop", "orders", 0);
    let lines = d.read_record(&vec![(path.clone(), segment)]).unwrap();
    assert_eq!(lines.len(), 5);
    for (i, l) in lines.iter().enumerate() {
        assert_eq!(l.text, texts[i]);
        assert_eq!(l.path, path);
        assert_eq!(l.index, i);
    }
}

#[test]
fn read_spans_segments_in_order() {
    let mut d = small_engine(4);
    let (s0, _) = write_all(&mut d, &["a", "b"]);
    let (s1, _) = write_all(&mut d, &["c"]);
    let files = vec![("0.rdb".to_string(), s0), ("1.rdb".to_string(), s1)];
    let lines = d.read_record(&files).unwrap();
    let got: Vec<(String, String, usize)> =
        lines.into_iter().map(|l| (l.text, l.path, l.index)).collect();
    assert_eq!(
        got,
        vec![
            ("a".to_string(), "0.rdb".to_string(), 0),
            ("b".to_string(), "0.rdb".to_string(), 1),
            ("c".to_string(), "1.rdb".to_string(), 0),
        ]
    );
}

#[test]
fn one_corrupt_line_fails_the_whole_read() {
    let mut d = small_engine(4);
    let (mut segment, _) = write_all(&mut d, &["a", "b"]);
    segment.push_str("garbage\n");
    let r = d.read_record(&vec![("0.rdb".to_string(), segment)]);
    assert_eq!(r.err(), Some(FmError::DecryptionError));
    let r = d.read_record(&vec![("0.rdb".to_string(), "caf\u{e9}\n".to_string())]);
    assert_eq!(r.err(), Some(FmError::DecryptionError));
}

#[test]
fn another_key_cannot_read_records() {
    let mut d = small_engine(4);
    let (segment, _) = write_all(&mut d, &["secret record"]);
    let other = Disk::new("wrong".to_string(), Some("/data".to_string()));
    let r = other.read_record(&vec![("0.rdb".to_string(), segment)]);
    assert_eq!(r.err(), Some(FmError::DecryptionError));
}

#[test]
fn update_replaces_the_slot_and_keeps_the_count() {
    let mut d = small_engine(4);
    let (segment, _) = write_all(&mut d, &["a", "b", "c"]);
    let path = "/data/sq/dbd/shop/orders/0.rdb".to_string();
    let read = d.read_record(&vec![(path.clone(), segment.clone())]).unwrap();
    let old = Record::located(BTreeMap::new(), read[1].path.clone(), read[1].index);
    let updated = d.update_record(&old, "B", &segment).unwrap();
    let again = d.read_record(&vec![(path, updated)]).unwrap();
    let texts: Vec<&str> = again.iter().map(|l| l.text.as_str()).collect();
    assert_eq!(texts, vec!["a", "B", "c"]);
    assert_eq!(again[1].index, 1);
}

#[test]
fn delete_removes_one_and_keeps_the_order() {
    let mut d = small_engine(4);
    let (segment, _) = write_all(&mut d, &["a", "b", "c", "d"]);
    let path = "/data/sq/dbd/shop/orders/0.rdb".to_string();
    let read = d.read_record(&vec![(path.clone(), segment.clone())]).unwrap();
    let old = Record::located(BTreeMap::new(), read[1].path.clone(), read[1].index);
    let remaining = d.delete_record(&old, &segment).unwrap();
    let again = d.read_record(&vec![(path, remaining)]).unwrap();
    let texts: Vec<&str> = again.iter().map(|l| l.text.as_str()).collect();
    assert_eq!(texts, vec!["a", "c", "d"]);
}

#[test]
fn delete_of_the_only_record_leaves_an_empty_segment() {
    let mut d = small_engine(4);
    let (segment, _) = write_all(&mut d, &["a"]);
    let old = Record::located(BTreeMap::new(), "0.rdb".to_string(), 0);
    let remaining = d.delete_record(&old, &segment).unwrap();
    assert_eq!(remaining, "");
    assert!(d.read_record(&vec![("0.rdb".to_string(), remaining)]).unwrap().is_empty());
}

#[test]
fn mutating_needs_a_valid_provenance() {
    let mut d = small_engine(4);
    let (segment, _) = write_all(&mut d, &["a"]);
    let unbound = Record::new(BTreeMap::new());
    assert_eq!(d.update_record(&unbound, "x", &segment), Err(FmError::NotFound));
    assert_eq!(d.delete_record(&unbound, &segment), Err(FmError::NotFound));
    let past_end = Record::located(BTreeMap::new(), "0.rdb".to_string(), 5);
    assert_eq!(d.update_record(&past_end, "x", &segment), Err(FmError::NotFound));
    let trailing = Record::located(BTreeMap::new(), "0.rdb".to_string(), 1);
    assert_eq!(d.delete_record(&trailing, &segment), Err(FmError::NotFound));
    let bound = Record::located(BTreeMap::new(), "0.rdb".to_string(), 0);
    assert_eq!(d.update_record(&bound, "x", "caf\u{e9}"), Err(FmError::DecryptionError));
}

#[test]
fn schema_round_trip() {
    let d = small_engine(2);
    let schema = "{\"name\":\"orders\",\"row_names\":[]}";
    let (_, cipher) = d.write_table("shop", "orders", schema);
    assert_ne!(cipher, schema);
    assert_eq!(d.read_table(&Fetch::Content(cipher)), Ok(schema.to_string()));
}

#[test]
fn schema_read_stages() {
    let d = small_engine(2);
    assert_eq!(d.read_table(&Fetch::Absent), Err(FmError::TableNotFound));
    assert_eq!(d.read_table(&Fetch::Failed), Err(FmError::TableReadError));
    assert_eq!(
        d.read_table(&Fetch::Content("plain text".to_string())),
        Err(FmError::DecryptionError)
    );
    let other = Disk::new("other".to_string(), None);
    let (_, cipher) = other.write_table("a", "b", "schema");
    assert_eq!(d.read_table(&Fetch::Content(cipher)), Err(FmError::DecryptionError));
}

#[test]
fn committing_a_table_registers_its_buffer() {
    let mut d = small_engine(2);
    assert_eq!(d.commit_table("shop", "orders", false), Err(FmError::TableCreationError));
    assert!(!d.has_buffer("/data/sq/dbd/shop/orders"));
    assert_eq!(d.commit_table("shop", "orders", true), Ok(()));
    assert!(d.has_buffer("/data/sq/dbd/shop/orders"));
    assert_eq!(d.buffered("/data/sq/dbd/shop/orders"), Some(vec![]));
}

#[test]
fn deleting_a_table() {
    let mut d = small_engine(2);
    d.write_record("shop", "orders", "x", true, &layout(0, 0, 0)).unwrap();
    let table = d.table_path("shop", "orders");
    assert_eq!(d.delete_table("shop", "orders", false, false), Err(FmError::NotFound));
    assert_eq!(d.delete_table("shop", "orders", true, false), Err(FmError::TableDeletionError));
    assert!(d.has_buffer(&table));
    assert_eq!(d.delete_table("shop", "orders", true, true), Ok(()));
    assert!(!d.has_buffer(&table));
    assert_eq!(d.delete_table("shop", "orders", true, true), Ok(()));
}

#[test]
fn renaming_onto_an_existing_database_fails() {
    let d = small_engine(2);
    assert_eq!(d.rename_database("a", "b", true, true), Err(FmError::DatabaseRenameError));
    assert_eq!(d.rename_database("a", "b", false, false), Err(FmError::NotFound));
    assert_eq!(
        d.rename_database("a", "b", true, false),
        Ok(("/data/sq/dbd/a".to_string(), "/data/sq/dbd/b".to_string()))
    );
}

#[test]
fn database_and_table_stage_errors() {
    let d = small_engine(2);
    assert_eq!(d.exist_table(&Probe::Absent), Err(FmError::TableNotFound));
    assert_eq!(d.exist_table(&Probe::Found), Ok(()));
    assert_eq!(
        d.exist_table(&Probe::Failed("denied".to_string())),
        Err(FmError::OsError("denied".to_string()))
    );
    assert_eq!(d.exist_database(&Probe::Absent), Err(FmError::DatabaseNotFound));
    assert_eq!(d.exist_database(&Probe::Found), Ok(()));
    assert_eq!(
        d.exist_database(&Probe::Failed("io".to_string())),
        Err(FmError::OsError("io".to_string()))
    );
    assert_eq!(d.write_database(false), Err(FmError::DatabaseCreationError));
    assert_eq!(d.write_database(true), Ok(()));
    assert_eq!(d.read_database(false, None), Err(FmError::NotFound));
    assert_eq!(d.read_database(true, None), Err(FmError::DatabaseReadError));
    assert_eq!(
        d.read_database(true, Some(vec!["orders".to_string()])),
        Ok(vec!["orders".to_string()])
    );
    assert_eq!(d.delete_database(false, true), Err(FmError::NotFound));
    assert_eq!(d.delete_database(true, false), Err(FmError::DatabaseDeletionError));
    assert_eq!(d.delete_database(true, true), Ok(()));
}

#[test]
fn standard_configuration() {
    let c = Config::default();
    assert_eq!(c.capacity, 10);
    assert_eq!(c.segment_limit, 524288);
    assert_eq!(c.max_records, u64::MAX);
}

#[test]
fn writes_beyond_the_record_cap_fail() {
    let mut d = Disk::with_config(
        "k".to_string(),
        None,
        Config { capacity: 4, segment_limit: SEGMENT_LIMIT, max_records: 3 },
    );
    let under = SegmentLayout { records: 2, segments: 1, active_size: 0, runs: 0 };
    assert!(d.write_record("db", "t", "x", true, &under).is_ok());
    let at = SegmentLayout { records: 3, segments: 1, active_size: 0, runs: 0 };
    let r = d.write_record("db", "t", "y", true, &at);
    assert_eq!(r.err(), Some(FmError::RecordLimitExceeded));
    assert_eq!(d.buffered(&d.table_path("db", "t")).unwrap().len(), 1);
}

#[test]
fn committing_again_keeps_the_buffer() {
    let mut d = small_engine(4);
    d.write_record("shop", "orders", "x", true, &layout(0, 0, 0)).unwrap();
    assert_eq!(d.commit_table("shop", "orders", true), Ok(()));
    assert_eq!(d.buffered(&d.table_path("shop", "orders")).unwrap().len(), 1);
}
