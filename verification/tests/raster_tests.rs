use rs_termeter::raster::{draw_line, new_grid, plot_series};

fn lit(grid: &[Vec<bool>]) -> Vec<(usize, usize)> {
    let mut v = Vec::new();
    for (x, col) in grid.iter().enumerate() {
        for (y, &b) in col.iter().enumerate() {
            if b {
                v.push((x, y));
            }
        }
    }
    v
}

#[test]
fn horizontal_line_lights_every_column() {
    let mut g = new_grid(6, 3);
    draw_line(&mut g, 1, 2, 4, 2, 6, 3);
    assert_eq!(lit(&g), vec![(1, 2), (2, 2), (3, 2), (4, 2)]);
}

#[test]
fn vertical_line_drawn_downwards() {
    let mut g = new_grid(3, 5);
    draw_line(&mut g, 1, 4, 1, 0, 3, 5);
    assert_eq!(lit(&g), vec![(1, 0), (1, 1), (1, 2), (1, 3), (1, 4)]);
}

#[test]
fn shallow_line_matches_bresenham() {
    let mut g = new_grid(8, 4);
    draw_line(&mut g, 0, 0, 6, 2, 8, 4);
    // classic Bresenham from (0,0) to (6,2)
    assert_eq!(
        lit(&g),
        vec![(0, 0), (1, 0), (2, 1), (3, 1), (4, 1), (5, 2), (6, 2)]
    );
}

#[test]
fn steep_line_is_connected_and_ends_at_both_points() {
    let mut g = new_grid(4, 10);
    draw_line(&mut g, 3, 0, 0, 9, 4, 10);
    let pts = lit(&g);
    assert_eq!(pts.len(), 10);
    assert!(g[3][0] && g[0][9]);
    // one pixel per row, columns never step by more than one
    for y in 0..10 {
        assert_eq!(pts.iter().filter(|p| p.1 == y).count(), 1);
    }
}

#[test]
fn single_point_line() {
    let mut g = new_grid(2, 2);
    draw_line(&mut g, 1, 1, 1, 1, 2, 2);
    assert_eq!(lit(&g), vec![(1, 1)]);
}

#[test]
fn pixels_outside_the_limits_are_left_alone() {
    let mut g = new_grid(6, 6);
    draw_line(&mut g, 0, 0, 5, 5, 3, 6);
    assert_eq!(lit(&g), vec![(0, 0), (1, 1), (2, 2)]);
}

#[test]
fn drawing_keeps_pixels_already_lit() {
    let mut g = new_grid(4, 4);
    g[3][0] = true;
    draw_line(&mut g, 0, 3, 1, 3, 4, 4);
    assert_eq!(lit(&g), vec![(0, 3), (1, 3), (3, 0)]);
}

#[test]
fn series_joins_consecutive_samples() {
    let g = plot_series(&vec![(0, 0), (2, 0), (2, 2)], 4, 4);
    assert_eq!(lit(&g), vec![(0, 0), (1, 0), (2, 0), (2, 1), (2, 2)]);
}

#[test]
fn single_sample_series_lights_one_pixel() {
    let g = plot_series(&vec![(3, 1)], 8, 4);
    assert_eq!(lit(&g), vec![(3, 1)]);
}

#[test]
fn empty_series_lights_nothing() {
    let g = plot_series(&vec![], 4, 4);
    assert_eq!(g.len(), 4);
    assert!(lit(&g).is_empty());
}
