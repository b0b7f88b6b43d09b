use squaredb_fm::err::FmError;
use squaredb_fm::lines::FsApi;

fn owned(v: &[&str]) -> Vec<String> {
    v.iter().map(|s| s.to_string()).collect()
}

#[test]
fn split_keeps_a_trailing_empty_piece() {
    assert_eq!(FsApi::split_lines("a\nb\n"), owned(&["a", "b", ""]));
    assert_eq!(FsApi::split_lines(""), owned(&[""]));
    assert_eq!(FsApi::split_lines("abc"), owned(&["abc"]));
    assert_eq!(FsApi::split_lines("\n\n"), owned(&["", "", ""]));
}

#[test]
fn join_is_the_inverse_of_split() {
    for s in ["a\nb\n", "", "x", "\n", "a\n\nb"] {
        assert_eq!(FsApi::join_lines(&FsApi::split_lines(s)), s);
    }
    assert_eq!(FsApi::join_lines(&Vec::new()), "");
}

#[test]
fn update_line_replaces_one_line() {
    assert_eq!(FsApi::update_line("a\nb\nc\n", 1, "X"), Ok("a\nX\nc\n".to_string()));
    assert_eq!(FsApi::update_line("a\nb\n", 0, "Y"), Ok("Y\nb\n".to_string()));
}

#[test]
fn update_line_out_of_range_is_not_found() {
    assert_eq!(FsApi::update_line("a\nb\n", 3, "X"), Err(FmError::NotFound));
    assert_eq!(FsApi::update_line("", 1, "X"), Err(FmError::NotFound));
}

#[test]
fn delete_line_removes_one_line() {
    assert_eq!(FsApi::delete_line("a\nb\nc\n", 1), Ok("a\nc\n".to_string()));
    assert_eq!(FsApi::delete_line("a\nb\nc\n", 0), Ok("b\nc\n".to_string()));
    assert_eq!(FsApi::delete_line("a\nb\nc\n", 9), Err(FmError::NotFound));
}

#[test]
fn segment_names_are_filtered_in_order() {
    let entries = owned(&["orders.ifrm", "0.rdb", "lev0", "1.rdb", "x.rdbx", ".rdb"]);
    assert_eq!(FsApi::segment_names(&entries), owned(&["0.rdb", "1.rdb", ".rdb"]));
    assert!(FsApi::is_segment_name("12.rdb"));
    assert!(!FsApi::is_segment_name("rdb"));
}

#[test]
fn rotation_picks_the_segment() {
    assert_eq!(FsApi::target_segment(0, 0, 524288), 0);
    assert_eq!(FsApi::target_segment(1, 100, 524288), 0);
    assert_eq!(FsApi::target_segment(3, 524287, 524288), 2);
    assert_eq!(FsApi::target_segment(3, 524288, 524288), 3);
}

#[test]
fn split_and_edit_text_of_any_characters() {
    assert_eq!(FsApi::split_lines("caf\u{e9}\n\u{3bb}x"), owned(&["caf\u{e9}", "\u{3bb}x"]));
    assert_eq!(
        FsApi::update_line("\u{e9}\nb\n", 1, "\u{3bb}"),
        Ok("\u{e9}\n\u{3bb}\n".to_string())
    );
    assert_eq!(FsApi::delete_line("\u{e9}\nb\n", 0), Ok("b\n".to_string()));
}
