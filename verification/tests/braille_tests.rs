use rs_termeter::braille::{braille_char, grid_cell_code};
use rs_termeter::raster::new_grid;

#[test]
fn braille_characters_start_at_u2800() {
    assert_eq!(braille_char(0), '\u{2800}');
    assert_eq!(braille_char(0xFF), '\u{28FF}');
    assert_eq!(braille_char(0x01), '⠁');
}

#[test]
fn each_dot_has_its_own_bit() {
    // (dx, row from the top) -> bit, with pixel row = base + 3 - row
    let dots = [
        (0, 0, 0x01),
        (0, 1, 0x02),
        (0, 2, 0x04),
        (1, 0, 0x08),
        (1, 1, 0x10),
        (1, 2, 0x20),
        (0, 3, 0x40),
        (1, 3, 0x80),
    ];
    for &(dx, dy, bit) in dots.iter() {
        let mut g = new_grid(4, 8);
        g[2 + dx][4 + 3 - dy] = true;
        assert_eq!(grid_cell_code(&g, 2, 4, 4, 8), bit);
    }
}

#[test]
fn full_cell_and_neighbours() {
    let mut g = new_grid(4, 8);
    for x in 0..2 {
        for y in 0..4 {
            g[x][y] = true;
        }
    }
    assert_eq!(grid_cell_code(&g, 0, 0, 4, 8), 0xFF);
    assert_eq!(grid_cell_code(&g, 2, 0, 4, 8), 0);
    assert_eq!(grid_cell_code(&g, 0, 4, 4, 8), 0);
}

#[test]
fn pixels_beyond_the_limits_do_not_count() {
    let g = vec![vec![true; 8]; 4];
    assert_eq!(grid_cell_code(&g, 2, 4, 3, 6), 0x04 | 0x40);
}
