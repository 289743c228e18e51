use rs_termeter::titles::{chart_title, label_and_value, series_names};

#[test]
fn unnamed_series_are_numbered_from_one() {
    let given = vec!["latency".to_string()];
    assert_eq!(series_names(&given, 3), vec!["latency", "y2", "y3"]);
    assert_eq!(series_names(&vec![], 1), vec!["y1"]);
    assert_eq!(series_names(&vec!["a".to_string(), "b".to_string()], 1), vec!["a"]);
}

#[test]
fn titles_default_to_the_input_name() {
    assert_eq!(chart_title("My data", "-"), "My data");
    assert_eq!(chart_title("", "-"), "stdin");
    assert_eq!(chart_title("", "data.txt"), "data.txt");
    assert_eq!(chart_title("", "--"), "--");
}

#[test]
fn labelled_entries_need_two_fields() {
    let f = vec!["apples".to_string(), "3".to_string()];
    assert_eq!(label_and_value(&f), Some(("apples".to_string(), "3".to_string())));
    assert_eq!(label_and_value(&vec!["x".to_string()]), None);
    assert_eq!(label_and_value(&vec!["a".to_string(), "b".to_string(), "c".to_string()]), None);
}
