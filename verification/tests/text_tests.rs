use rs_termeter::text::{chars_to_string, decimal_chars, str_chars, truncate};

#[test]
fn truncate_keeps_short_strings() {
    assert_eq!(truncate("hello", 40), "hello");
    assert_eq!(truncate("hello", 5), "hello");
    assert_eq!(truncate("", 0), "");
}

#[test]
fn truncate_cuts_long_strings_and_marks_the_cut() {
    assert_eq!(truncate("hello world", 5), "hello…");
    assert_eq!(truncate("abc", 0), "…");
    let long = "x".repeat(50);
    assert_eq!(truncate(&long, 40), format!("{}…", "x".repeat(40)));
}

#[test]
fn truncate_counts_bytes_at_character_boundaries() {
    // "é" is two bytes
    assert_eq!(truncate("éé", 2), "é…");
    assert_eq!(truncate("aé", 3), "aé");
}

#[test]
fn decimal_numerals() {
    let s = |n: usize| chars_to_string(&decimal_chars(n));
    assert_eq!(s(0), "0");
    assert_eq!(s(7), "7");
    assert_eq!(s(10), "10");
    assert_eq!(s(12345), "12345");
    assert_eq!(s(usize::MAX), usize::MAX.to_string());
}

#[test]
fn chars_round_trip() {
    let v = str_chars("a┤é");
    assert_eq!(v, vec!['a', '┤', 'é']);
    assert_eq!(chars_to_string(&v), "a┤é");
}
