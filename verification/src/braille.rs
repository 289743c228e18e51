//! Braille cells: each terminal cell shows a block of two pixel columns by
//! four pixel rows as one of the 256 braille patterns from U+2800.
use vstd::prelude::*;
use crate::raster::pixel;

verus! {

/// The code point of the empty braille pattern.
pub const BRAILLE_OFFSET: u32 = 0x2800;

/// The pattern number of a braille cell from its eight dots, each given as
/// (column, row from the top): dots (0,0), (0,1), (0,2), (1,0), (1,1), (1,2),
/// (0,3), (1,3) are the bits 0x01 to 0x80 in this order.
pub open spec fn dots_code(
    d00: bool,
    d01: bool,
    d02: bool,
    d10: bool,
    d11: bool,
    d12: bool,
    d03: bool,
    d13: bool,
) -> u32 {
    ((if d00 {
        0x01u32
    } else {
        0
    }) + (if d01 {
        0x02u32
    } else {
        0
    }) + (if d02 {
        0x04u32
    } else {
        0
    }) + (if d10 {
        0x08u32
    } else {
        0
    }) + (if d11 {
        0x10u32
    } else {
        0
    }) + (if d12 {
        0x20u32
    } else {
        0
    }) + (if d03 {
        0x40u32
    } else {
        0
    }) + (if d13 {
        0x80u32
    } else {
        0
    })) as u32
}

/// The pattern number of the cell whose left pixel column is `cx` and whose
/// bottom pixel row is `cy`, where `on` says which pixels are lit; the cell's
/// top row is `cy + 3`.
pub open spec fn cell_code(on: spec_fn(int, int) -> bool, cx: int, cy: int) -> u32 {
    dots_code(
        on(cx, cy + 3),
        on(cx, cy + 2),
        on(cx, cy + 1),
        on(cx + 1, cy + 3),
        on(cx + 1, cy + 2),
        on(cx + 1, cy + 1),
        on(cx, cy),
        on(cx + 1, cy),
    )
}

/// The pixel is on the `pw` by `ph` grid and lit.
pub open spec fn dot_on(grid: Seq<Vec<bool>>, pw: int, ph: int, x: int, y: int) -> bool {
    0 <= x < pw && 0 <= y < ph && pixel(grid, x, y)
}

/// The braille character of pattern number `code`.
pub open spec fn braille(code: u32) -> char {
    (BRAILLE_OFFSET + code) as char
}

/// A cell's pattern number is below 256, and it tells each of the eight dots:
/// two cells with the same number show the same dots.
pub proof fn lemma_dots_code_injective(
    a0: bool,
    a1: bool,
    a2: bool,
    a3: bool,
    a4: bool,
    a5: bool,
    a6: bool,
    a7: bool,
    b0: bool,
    b1: bool,
    b2: bool,
    b3: bool,
    b4: bool,
    b5: bool,
    b6: bool,
    b7: bool,
)
    ensures
        dots_code(a0, a1, a2, a3, a4, a5, a6, a7) < 256,
        dots_code(a0, a1, a2, a3, a4, a5, a6, a7) == dots_code(b0, b1, b2, b3, b4, b5, b6, b7)
            ==> (a0 == b0 && a1 == b1 && a2 == b2 && a3 == b3 && a4 == b4 && a5 == b5 && a6 == b6
            && a7 == b7),
{
    lemma_dots_code_bits(a0, a1, a2, a3, a4, a5, a6, a7);
    lemma_dots_code_bits(b0, b1, b2, b3, b4, b5, b6, b7);
}

proof fn lemma_dots_code_bits(
    a0: bool,
    a1: bool,
    a2: bool,
    a3: bool,
    a4: bool,
    a5: bool,
    a6: bool,
    a7: bool,
)
    ensures
        dots_code(a0, a1, a2, a3, a4, a5, a6, a7) < 256,
        a0 == (dots_code(a0, a1, a2, a3, a4, a5, a6, a7) & 0x01 != 0),
        a1 == (dots_code(a0, a1, a2, a3, a4, a5, a6, a7) & 0x02 != 0),
        a2 == (dots_code(a0, a1, a2, a3, a4, a5, a6, a7) & 0x04 != 0),
        a3 == (dots_code(a0, a1, a2, a3, a4, a5, a6, a7) & 0x08 != 0),
        a4 == (dots_code(a0, a1, a2, a3, a4, a5, a6, a7) & 0x10 != 0),
        a5 == (dots_code(a0, a1, a2, a3, a4, a5, a6, a7) & 0x20 != 0),
        a6 == (dots_code(a0, a1, a2, a3, a4, a5, a6, a7) & 0x40 != 0),
        a7 == (dots_code(a0, a1, a2, a3, a4, a5, a6, a7) & 0x80 != 0),
{
    let c = dots_code(a0, a1, a2, a3, a4, a5, a6, a7);
    assert(c < 256 && a0 == (c & 0x01 != 0) && a1 == (c & 0x02 != 0) && a2 == (c & 0x04 != 0)
        && a3 == (c & 0x08 != 0) && a4 == (c & 0x10 != 0) && a5 == (c & 0x20 != 0) && a6 == (c
        & 0x40 != 0) && a7 == (c & 0x80 != 0)) by (bit_vector)
        requires
            c == ((if a0 {
                0x01u32
            } else {
                0
            }) + (if a1 {
                0x02u32
            } else {
                0
            }) + (if a2 {
                0x04u32
            } else {
                0
            }) + (if a3 {
                0x08u32
            } else {
                0
            }) + (if a4 {
                0x10u32
            } else {
                0
            }) + (if a5 {
                0x20u32
            } else {
                0
            }) + (if a6 {
                0x40u32
            } else {
                0
            }) + (if a7 {
                0x80u32
            } else {
                0
            })) as u32,
    ;
}

/// The bit of the braille dot in column `dx` (0 or 1) and row `dy` counted
/// from the top (0 to 3), after Unicode's numbering of the eight dots: dots 1
/// to 3 down the left column, 4 to 6 down the right, 7 and 8 at the bottom.
pub open spec fn dot_bit(dx: int, dy: int) -> u32 {
    if dx == 0 {
        if dy == 0 {
            0x01
        } else if dy == 1 {
            0x02
        } else if dy == 2 {
            0x04
        } else {
            0x40
        }
    } else {
        if dy == 0 {
            0x08
        } else if dy == 1 {
            0x10
        } else if dy == 2 {
            0x20
        } else {
            0x80
        }
    }
}

/// A cell's pattern shows exactly its lit pixels: the pixel in column
/// `cx + dx` and row `cy + dy` (rows counted upward, so the cell's top row is
/// `cy + 3`) sets the dot in column `dx` and row `3 - dy` from the top; the
/// pattern is empty exactly when none of its pixels is lit; and the empty
/// pattern is U+2800.
pub proof fn lemma_cell_code_dots(on: spec_fn(int, int) -> bool, cx: int, cy: int)
    ensures
        cell_code(on, cx, cy) < 256,
        forall|dx: int, dy: int|
            0 <= dx < 2 && 0 <= dy < 4 ==> ((cell_code(on, cx, cy) & #[trigger] dot_bit(dx, 3 - dy))
                != 0 <==> on(cx + dx, cy + dy)),
        cell_code(on, cx, cy) == 0 <==> (forall|dx: int, dy: int|
            0 <= dx < 2 && 0 <= dy < 4 ==> !#[trigger] on(cx + dx, cy + dy)),
        braille(0) == '\u{2800}',
{
    let a0 = on(cx, cy + 3);
    let a1 = on(cx, cy + 2);
    let a2 = on(cx, cy + 1);
    let a3 = on(cx + 1, cy + 3);
    let a4 = on(cx + 1, cy + 2);
    let a5 = on(cx + 1, cy + 1);
    let a6 = on(cx, cy);
    let a7 = on(cx + 1, cy);
    lemma_dots_code_bits(a0, a1, a2, a3, a4, a5, a6, a7);
    let c = cell_code(on, cx, cy);
    assert(c == dots_code(a0, a1, a2, a3, a4, a5, a6, a7));
    assert forall|dx: int, dy: int| 0 <= dx < 2 && 0 <= dy < 4 implies ((c & #[trigger] dot_bit(
        dx,
        3 - dy,
    )) != 0 <==> on(cx + dx, cy + dy)) by {
        if dx == 0 {
            if dy == 0 {
                assert(cx + dx == cx && cy + dy == cy);
            } else if dy == 1 {
                assert(cy + dy == cy + 1);
            } else if dy == 2 {
                assert(cy + dy == cy + 2);
            } else {
                assert(cy + dy == cy + 3);
            }
        } else {
            if dy == 0 {
                assert(cx + dx == cx + 1 && cy + dy == cy);
            } else if dy == 1 {
                assert(cx + dx == cx + 1 && cy + dy == cy + 1);
            } else if dy == 2 {
                assert(cx + dx == cx + 1 && cy + dy == cy + 2);
            } else {
                assert(cx + dx == cx + 1 && cy + dy == cy + 3);
            }
        }
    }
    if c == 0 {
        assert forall|dx: int, dy: int| 0 <= dx < 2 && 0 <= dy < 4 implies !#[trigger] on(
            cx + dx,
            cy + dy,
        ) by {
            let b = dot_bit(dx, 3 - dy);
            assert((c & b) == 0) by (bit_vector)
                requires
                    c == 0,
            ;
        }
    } else {
        assert(a0 || a1 || a2 || a3 || a4 || a5 || a6 || a7) by {
            if !(a0 || a1 || a2 || a3 || a4 || a5 || a6 || a7) {
                assert(c == 0);
            }
        }
        if a0 {
            assert(on(cx + 0, cy + 3));
        } else if a1 {
            assert(on(cx + 0, cy + 2));
        } else if a2 {
            assert(on(cx + 0, cy + 1));
        } else if a3 {
            assert(on(cx + 1, cy + 3));
        } else if a4 {
            assert(on(cx + 1, cy + 2));
        } else if a5 {
            assert(on(cx + 1, cy + 1));
        } else if a6 {
            assert(on(cx + 0, cy + 0));
        } else {
            assert(on(cx + 1, cy + 0));
        }
    }
    assert(braille(0) == (0x2800u32) as char);
}

/// The pixel `(x, y)` is lit on a grid of at least `pw` columns of at least
/// `ph` rows, and lies in the first `pw` columns and `ph` rows.
fn lit(grid: &Vec<Vec<bool>>, x: usize, y: usize, pw: usize, ph: usize) -> (b: bool)
    requires
        pw <= grid@.len(),
        forall|a: int| 0 <= a < pw ==> ph <= (#[trigger] grid@[a])@.len(),
    ensures
        b == dot_on(grid@, pw as int, ph as int, x as int, y as int),
{
    x < pw && y < ph && grid[x][y]
}

/// The pattern number of the cell with left pixel column `cx` and bottom pixel
/// row `cy` on the grid, counting only pixels in its first `pw` columns and
/// `ph` rows.
pub fn grid_cell_code(grid: &Vec<Vec<bool>>, cx: usize, cy: usize, pw: usize, ph: usize) -> (code:
    u32)
    requires
        pw <= grid@.len(),
        forall|a: int| 0 <= a < pw ==> ph <= (#[trigger] grid@[a])@.len(),
        cx + 1 <= usize::MAX,
        cy + 3 <= usize::MAX,
    ensures
        code == cell_code(|x: int, y: int| dot_on(grid@, pw as int, ph as int, x, y), cx as int, cy as int),
        code < 256,
{
    let mut code: u32 = 0;
    if lit(grid, cx, cy + 3, pw, ph) {
        code = code + 0x01;
    }
    if lit(grid, cx, cy + 2, pw, ph) {
        code = code + 0x02;
    }
    if lit(grid, cx, cy + 1, pw, ph) {
        code = code + 0x04;
    }
    if lit(grid, cx + 1, cy + 3, pw, ph) {
        code = code + 0x08;
    }
    if lit(grid, cx + 1, cy + 2, pw, ph) {
        code = code + 0x10;
    }
    if lit(grid, cx + 1, cy + 1, pw, ph) {
        code = code + 0x20;
    }
    if lit(grid, cx, cy, pw, ph) {
        code = code + 0x40;
    }
    if lit(grid, cx + 1, cy, pw, ph) {
        code = code + 0x80;
    }
    code
}

/// `char::from_u32` of std: the character whose code point is `v`, or `None`
/// where `v` is a surrogate or lies above U+10FFFF, as std documents it.
#[verifier::external_body]
fn char_from_u32(v: u32) -> (c: Option<char>)
    ensures
        (v <= 0xD7FF || (0xE000 <= v && v <= 0x10FFFF)) ==> c == Some(v as char),
        !(v <= 0xD7FF || (0xE000 <= v && v <= 0x10FFFF)) ==> c is None,
{
    char::from_u32(v)
}

/// The braille character of pattern number `code`.
pub fn braille_char(code: u32) -> (c: char)
    requires
        code < 256,
    ensures
        c == braille(code),
{
    match char_from_u32(BRAILLE_OFFSET + code) {
        Some(c) => c,
        None => ' ',
    }
}

} // verus!
