use rs_termeter::graph::{graph_size, label_rows, Plot, PlotSeries};

#[test]
fn graph_size_leaves_room_for_axes() {
    assert_eq!(graph_size(Some((80, 24)), 1, false), (67, 15));
    assert_eq!(graph_size(Some((80, 24)), 2, true), (56, 12));
    assert_eq!(graph_size(Some((10, 5)), 1, false), (10, 4));
    assert_eq!(graph_size(Some((0, 0)), 3, true), (10, 4));
    assert_eq!(graph_size(Some((120, 40)), 3, false), (107, 25));
}

#[test]
fn unknown_terminal_counts_as_80_by_24() {
    assert_eq!(graph_size(None, 1, false), (67, 15));
}

#[test]
fn label_rows_spread_from_bottom_to_top() {
    assert_eq!(label_rows(15), vec![0, 3, 7, 10, 14]);
    assert_eq!(label_rows(5), vec![0, 1, 2, 3, 4]);
    assert_eq!(label_rows(3), vec![0, 1, 2]);
    assert_eq!(label_rows(1), vec![0]);
    assert_eq!(label_rows(0), Vec::<usize>::new());
}

fn series(name: &str, points: Vec<(usize, usize)>) -> PlotSeries {
    PlotSeries { name: name.to_string(), points }
}

#[test]
fn one_series_renders_without_colours() {
    let plot = Plot {
        width: 2,
        height: 1,
        dual_axis: false,
        series: vec![series("y1", vec![(0, 0), (3, 3)])],
        left_labels: vec!["lo".to_string()],
        right_labels: vec![],
    };
    let expected = "       lo ┤\u{2860}\u{280A}\n          └──\n          01\n";
    assert_eq!(plot.render(), expected);
}

#[test]
fn rows_without_labels_are_blank_on_the_left() {
    let plot = Plot {
        width: 1,
        height: 7,
        dual_axis: false,
        series: vec![series("y1", vec![(0, 0)])],
        left_labels: (0..5).map(|k| format!("L{}", k)).collect(),
        right_labels: vec![],
    };
    let text = plot.render();
    let lines: Vec<&str> = text.lines().collect();
    assert_eq!(lines.len(), 9);
    // label rows of a 7-row graph: 0, 1, 3, 4, 6 from the bottom
    assert_eq!(lines[0], "       L4 ┤\u{2800}");
    assert_eq!(lines[1], "          ┤\u{2800}");
    assert_eq!(lines[2], "       L3 ┤\u{2800}");
    assert_eq!(lines[3], "       L2 ┤\u{2800}");
    assert_eq!(lines[4], "          ┤\u{2800}");
    assert_eq!(lines[5], "       L1 ┤\u{2800}");
    assert_eq!(lines[6], "       L0 ┤\u{2840}");
    assert_eq!(lines[7], "          └─");
    assert_eq!(lines[8], "          00");
}

#[test]
fn two_series_use_colours_and_a_legend() {
    let plot = Plot {
        width: 2,
        height: 1,
        dual_axis: true,
        series: vec![
            series("a", vec![(0, 0), (1, 0)]),
            series("b", vec![(0, 0), (0, 1), (3, 3)]),
        ],
        left_labels: vec!["0.00".to_string()],
        right_labels: vec!["5.00".to_string()],
    };
    let text = plot.render();
    let expected = String::new()
        + "     0.00 ┤"
        // cell 0: a lights (0,0),(1,0) = 0x40|0x80; b lights (0,0),(0,1),(1,2) = 0x40|0x04|0x10
        + "\x1b[37m\u{28D4}\x1b[0m"
        // cell 1: only b: (2,2),(3,3) = 0x02|0x08
        + "\x1b[33m\u{280A}\x1b[0m"
        + "├ 5.00     \n"
        + "          └──┘\n"
        + "          02\n"
        + "\n"
        + "  \x1b[36m━━\x1b[0m a\n"
        + "  \x1b[33m━━\x1b[0m b\n";
    assert_eq!(text, expected);
}

#[test]
fn long_sample_numbers_push_past_the_width() {
    let plot = Plot {
        width: 1,
        height: 1,
        dual_axis: false,
        series: vec![series("y1", (0..12).map(|_| (0, 0)).collect())],
        left_labels: vec!["x".to_string()],
        right_labels: vec![],
    };
    let text = plot.render();
    assert!(text.ends_with("          011\n"));
}
