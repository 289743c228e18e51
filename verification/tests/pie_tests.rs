use rs_termeter::pie::{pie_legend, pie_size, PieRaster};

#[test]
fn pie_size_fits_the_terminal_and_is_even() {
    assert_eq!(pie_size(Some((80, 24))), 40);
    assert_eq!(pie_size(Some((0, 0))), 20);
    assert_eq!(pie_size(Some((57, 100))), 20);
    assert_eq!(pie_size(Some((200, 30))), 52);
    assert_eq!(pie_size(Some((91, 100))), 54);
    assert_eq!(pie_size(None), 40);
}

#[test]
fn pie_cells_become_half_blocks() {
    let raster = PieRaster {
        diameter: 2,
        cells: vec![vec![Some(0), None], vec![Some(0), Some(1)]],
    };
    let legend = vec!["A".to_string(), "B".to_string()];
    let expected = "  \x1b[31m█\x1b[0m\x1b[32m▄\x1b[0m   A\n       B\n";
    assert_eq!(raster.render(&legend), expected);
}

#[test]
fn two_slices_in_one_cell_use_a_background_colour() {
    let raster = PieRaster {
        diameter: 2,
        cells: vec![vec![Some(2), Some(7)], vec![Some(13), None]],
    };
    let expected = "  \x1b[33;42m▀\x1b[0m\x1b[92m▀\x1b[0m\n";
    assert_eq!(raster.render(&vec![]), expected);
}

#[test]
fn empty_raster_and_legend_only() {
    let raster = PieRaster { diameter: 0, cells: vec![] };
    let legend = vec!["x".to_string()];
    assert_eq!(raster.render(&legend), "     x\n");
}

#[test]
fn legend_lines_match_the_format() {
    let names = vec!["apple".to_string(), "kiwi".to_string()];
    let pcts = vec![format!("{:.2}", 75.0), format!("{:.2}", 25.0)];
    let vals = vec!["3.00".to_string(), "1.00".to_string()];
    let lines = pie_legend(&names, &pcts, &vals);
    let reset = "\x1b[0m";
    assert_eq!(
        lines[0],
        format!("\x1b[{}m██{} {:<width$}  {:>6.2}%  ({})", 31, reset, "apple", 75.0, "3.00", width = 5)
    );
    assert_eq!(
        lines[1],
        format!("\x1b[{}m██{} {:<width$}  {:>6.2}%  ({})", 32, reset, "kiwi", 25.0, "1.00", width = 5)
    );
}

#[test]
fn legend_colours_cycle_after_twelve() {
    let names: Vec<String> = (0..13).map(|i| format!("s{}", i)).collect();
    let pcts: Vec<String> = (0..13).map(|_| "1.00".to_string()).collect();
    let vals = pcts.clone();
    let lines = pie_legend(&names, &pcts, &vals);
    assert!(lines[6].starts_with("\x1b[91m"));
    assert!(lines[11].starts_with("\x1b[96m"));
    assert!(lines[12].starts_with("\x1b[31m"));
}
