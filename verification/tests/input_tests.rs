use rs_termeter::input::{add_row, classify_line, is_whitespace, split_fields, LineKind, RowOutcome};
use rs_termeter::text::{chars_to_string, str_chars};

fn data(line: &str) -> (String, Vec<String>) {
    match classify_line(line) {
        LineKind::Data { trimmed, fields } => (trimmed, fields),
        LineKind::Skip => panic!("line skipped: {:?}", line),
    }
}

#[test]
fn blank_lines_and_comments_are_skipped() {
    assert!(matches!(classify_line(""), LineKind::Skip));
    assert!(matches!(classify_line("   \t"), LineKind::Skip));
    assert!(matches!(classify_line("# header"), LineKind::Skip));
    assert!(matches!(classify_line("  // note"), LineKind::Skip));
    assert!(!matches!(classify_line("/ 3"), LineKind::Skip));
}

#[test]
fn fields_split_at_commas_semicolons_and_spaces() {
    let (t, f) = data("  1, 2;3\t4  ");
    assert_eq!(t, "1, 2;3\t4");
    assert_eq!(f, vec!["1", "2", "3", "4"]);
}

#[test]
fn a_line_of_delimiters_has_no_fields() {
    let (t, f) = data(",,;");
    assert_eq!(t, ",,;");
    assert!(f.is_empty());
}

#[test]
fn unicode_whitespace_is_trimmed_from_fields() {
    let (_, f) = data("1,\u{a0}2\u{a0},x");
    assert_eq!(f, vec!["1", "2", "x"]);
}

#[test]
fn split_matches_std_split_trim_filter() {
    for line in ["a,b", " a ;; b ", "1.5 -2e3,,x", "\u{2003}q,", "", ","] {
        let expected: Vec<String> = line
            .split(|c: char| c == ',' || c == ';' || c.is_ascii_whitespace())
            .map(|s| s.trim())
            .filter(|s| !s.is_empty())
            .map(|s| s.to_string())
            .collect();
        let got: Vec<String> = split_fields(&str_chars(line)).iter().map(chars_to_string).collect();
        assert_eq!(got, expected, "line {:?}", line);
    }
}

#[test]
fn is_whitespace_agrees_with_std() {
    for u in 0u32..0x3100 {
        if let Some(c) = char::from_u32(u) {
            assert_eq!(is_whitespace(c), c.is_whitespace());
        }
    }
}

#[test]
fn rows_gather_into_columns() {
    let mut cols: Vec<Vec<i32>> = Vec::new();
    assert!(matches!(add_row(&mut cols, vec![1, 2]), RowOutcome::Added));
    assert!(matches!(add_row(&mut cols, vec![3, 4]), RowOutcome::Added));
    assert_eq!(cols, vec![vec![1, 3], vec![2, 4]]);
}

#[test]
fn rows_of_another_width_are_refused() {
    let mut cols: Vec<Vec<i32>> = Vec::new();
    add_row(&mut cols, vec![1, 2]);
    match add_row(&mut cols, vec![5, 6, 7]) {
        RowOutcome::Mismatch { expected, got } => {
            assert_eq!(expected, 2);
            assert_eq!(got, 3);
        }
        _ => panic!("expected a mismatch"),
    }
    assert_eq!(cols, vec![vec![1], vec![2]]);
}

#[test]
fn empty_rows_are_ignored() {
    let mut cols: Vec<Vec<i32>> = Vec::new();
    assert!(matches!(add_row(&mut cols, vec![]), RowOutcome::Empty));
    assert!(cols.is_empty());
    add_row(&mut cols, vec![9]);
    assert!(matches!(add_row(&mut cols, vec![]), RowOutcome::Empty));
    assert_eq!(cols, vec![vec![9]]);
}
