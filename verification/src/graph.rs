//! The braille line graph: its size on the terminal, where its axis labels
//! go, and its rendering as text.
use vstd::prelude::*;
use vstd::arithmetic::div_mod::lemma_div_is_ordered;
use vstd::arithmetic::div_mod::lemma_div_plus_one;
use vstd::arithmetic::div_mod::lemma_div_multiples_vanish;
use crate::braille::braille;
use crate::braille::braille_char;
use crate::braille::cell_code;
use crate::braille::dot_bit;
use crate::braille::lemma_cell_code_dots;
use crate::braille::dot_on;
use crate::braille::grid_cell_code;
use crate::raster::in_grid;
use crate::raster::pixel;
use crate::raster::plot_series;
use crate::raster::samples_fit;
use crate::raster::series_lit;
use crate::text::decimal;
use crate::text::decimal_chars;
use crate::text::pad_left;
use crate::text::pad_right;
use crate::text::push_padded_left;
use crate::text::push_padded_right;
use crate::text::push_repeat;
use crate::text::push_str;
use crate::text::repeat_char;
use crate::text::str_chars;
use crate::text::chars_to_string;

verus! {

/// `a - b`, or zero where `b` exceeds `a`.
pub open spec fn saturating_sub(a: int, b: int) -> int {
    if a >= b {
        a - b
    } else {
        0
    }
}

/// The larger of two integers.
pub open spec fn max_int(a: int, b: int) -> int {
    if a >= b {
        a
    } else {
        b
    }
}

/// The graph's width in cells on a terminal `term_width` columns wide: what
/// is left after the left axis (12 columns) and the right margin, which is
/// 12 columns for a second axis and 1 otherwise, and at least 10.
pub open spec fn graph_width(term_width: int, dual_axis: bool) -> int {
    let right_margin = if dual_axis {
        12int
    } else {
        1int
    };
    max_int(saturating_sub(term_width, 12 + right_margin), 10)
}

/// The graph's height in cells on a terminal `term_height` rows high: what is
/// left after 6 rows and 3 more for each series, and at least 4.
pub open spec fn graph_height(term_height: int, series_count: int) -> int {
    max_int(saturating_sub(term_height, 6 + series_count * 3), 4)
}

/// The terminal's size, or 80 columns by 24 rows where it is not known.
pub open spec fn terminal_or_default(term: Option<(u16, u16)>) -> (int, int) {
    match term {
        Some((w, h)) => (w as int, h as int),
        None => (80, 24),
    }
}

/// The graph's width and height in braille cells on a terminal of the given
/// size (80 by 24 where it is not known), showing `series_count` series.
pub fn graph_size(term: Option<(u16, u16)>, series_count: usize, dual_axis: bool) -> (size: (
    usize,
    usize,
))
    requires
        6 + series_count * 3 <= usize::MAX,
    ensures
        size.0 == graph_width(terminal_or_default(term).0, dual_axis),
        size.1 == graph_height(terminal_or_default(term).1, series_count as int),
        size.0 >= 10,
        size.1 >= 4,
{
    let (term_width, term_height) = match term {
        Some(size) => size,
        None => (80u16, 24u16),
    };
    let right_margin: usize = if dual_axis {
        12
    } else {
        1
    };
    let tw = term_width as usize;
    let th = term_height as usize;
    let avail_w: usize = if tw >= 12 + right_margin {
        tw - (12 + right_margin)
    } else {
        0
    };
    let width: usize = if avail_w >= 10 {
        avail_w
    } else {
        10
    };
    let reserve: usize = 6 + series_count * 3;
    let avail_h: usize = if th >= reserve {
        th - reserve
    } else {
        0
    };
    let height: usize = if avail_h >= 4 {
        avail_h
    } else {
        4
    };
    (width, height)
}

/// How many rows of a graph `h` cells high carry a label on the value axis:
/// five, or every row of a lower graph.
pub open spec fn label_count(h: int) -> int {
    if h < 5 {
        h
    } else {
        5
    }
}

/// The row, counted from the bottom, of label `k`: the labels are spread
/// evenly from the bottom row to the top row.
pub open spec fn label_row(h: int, k: int) -> int {
    if label_count(h) == 1 {
        0
    } else {
        k * (h - 1) / (label_count(h) - 1)
    }
}

/// The labelled rows of a graph `h` cells high, from the bottom up.
pub open spec fn label_rows_seq(h: int) -> Seq<int> {
    Seq::new(label_count(h) as nat, |k: int| label_row(h, k))
}

/// The rows, counted from the bottom, that carry a label on the value axis.
pub fn label_rows(height: usize) -> (rows: Vec<usize>)
    requires
        4 * height <= usize::MAX,
    ensures
        rows@.len() == label_count(height as int),
        forall|k: int| 0 <= k < rows@.len() ==> #[trigger] rows@[k] == label_row(height as int, k),
{
    let count: usize = if height < 5 {
        height
    } else {
        5
    };
    let mut rows: Vec<usize> = Vec::new();
    for i in 0..count
        invariant
            count == label_count(height as int),
            4 * height <= usize::MAX,
            rows@.len() == i,
            forall|k: int| 0 <= k < i ==> #[trigger] rows@[k] == label_row(height as int, k),
    {
        if count == 1 {
            rows.push(0);
        } else {
            assert(i * (height - 1) <= 4 * height) by (nonlinear_arith)
                requires
                    i < 5,
                    height >= 1,
            ;
            let v = i * (height - 1) / (count - 1);
            rows.push(v);
        }
    }
    rows
}

/// The labelled rows begin at the bottom row, end at the top row, rise
/// strictly from one label to the next, and stay inside the graph.
pub proof fn lemma_label_rows(h: int)
    requires
        h >= 1,
    ensures
        label_row(h, 0) == 0,
        label_row(h, label_count(h) - 1) == h - 1,
        forall|k1: int, k2: int|
            0 <= k1 < k2 < label_count(h) ==> #[trigger] label_row(h, k1) < #[trigger] label_row(
                h,
                k2,
            ),
        forall|k: int| 0 <= k < label_count(h) ==> 0 <= #[trigger] label_row(h, k) < h,
{
    let n = label_count(h);
    if n > 1 {
        let d = n - 1;
        assert(0 * (h - 1) == 0);
        assert((n - 1) * (h - 1) / d == h - 1) by {
            lemma_div_multiples_vanish(h - 1, d);
            assert(d * (h - 1) == (n - 1) * (h - 1)) by (nonlinear_arith)
                requires
                    d == n - 1,
            ;
        }
        assert forall|k1: int, k2: int| 0 <= k1 < k2 < n implies #[trigger] label_row(h, k1)
            < #[trigger] label_row(h, k2) by {
            let a = k1 * (h - 1);
            assert(k2 * (h - 1) >= (k1 + 1) * (h - 1)) by (nonlinear_arith)
                requires
                    k1 + 1 <= k2,
                    h >= 1,
            ;
            assert((k1 + 1) * (h - 1) == k1 * (h - 1) + (h - 1)) by (nonlinear_arith);
            assert(a + d <= k2 * (h - 1));
            lemma_div_plus_one(a, d);
            lemma_div_is_ordered(d + a, k2 * (h - 1), d);
        }
        assert forall|k: int| 0 <= k < n implies 0 <= #[trigger] label_row(h, k) < h by {
            assert(0 <= k * (h - 1) <= (n - 1) * (h - 1)) by (nonlinear_arith)
                requires
                    0 <= k < n,
                    h >= 1,
            ;
            lemma_div_is_ordered(k * (h - 1), (n - 1) * (h - 1), d);
            lemma_div_is_ordered(0, k * (h - 1), d);
        }
    }
}

/// The first position at which `v` occurs in `s`, if it occurs.
pub open spec fn position_of(s: Seq<int>, v: int) -> Option<int>
    decreases s.len(),
{
    if s.len() == 0 {
        None
    } else {
        match position_of(s.drop_last(), v) {
            Some(k) => Some(k),
            None => if s.last() == v {
                Some(s.len() - 1)
            } else {
                None
            },
        }
    }
}

proof fn lemma_position_of_bounds(s: Seq<int>, v: int)
    ensures
        position_of(s, v) matches Some(k) ==> 0 <= k < s.len() && s[k] == v,
    decreases s.len(),
{
    if s.len() > 0 {
        lemma_position_of_bounds(s.drop_last(), v);
    }
}

/// The label slot, if any, of row `y` (counted from the bottom) of a graph
/// `height` cells high.
fn find_label(rows: &Vec<usize>, height: usize, y: usize) -> (slot: Option<usize>)
    requires
        rows@.len() == label_count(height as int),
        forall|k: int| 0 <= k < rows@.len() ==> #[trigger] rows@[k] == label_row(height as int, k),
    ensures
        match slot {
            Some(k) => position_of(label_rows_seq(height as int), y as int) == Some(k as int),
            None => position_of(label_rows_seq(height as int), y as int) is None,
        },
{
    let ghost all = label_rows_seq(height as int);
    let n = rows.len();
    for k in 0..n
        invariant
            n == rows@.len(),
            n == all.len(),
            all == label_rows_seq(height as int),
            forall|j: int| 0 <= j < rows@.len() ==> #[trigger] rows@[j] == label_row(height as int, j),
            position_of(all.take(k as int), y as int) is None,
    {
        assert(all.take(k + 1).drop_last() == all.take(k as int));
        if rows[k] == y {
            proof {
                assert(position_of(all.take(k + 1), y as int) == Some(k as int));
                lemma_position_of_prefix(all, (k + 1) as int, y as int);
            }
            return Some(k);
        }
    }
    assert(all.take(n as int) == all);
    None
}

/// Where `v` first occurs in a prefix of `s`, there it first occurs in `s`.
proof fn lemma_position_of_prefix(s: Seq<int>, n: int, v: int)
    requires
        0 <= n <= s.len(),
        position_of(s.take(n), v) is Some,
    ensures
        position_of(s, v) == position_of(s.take(n), v),
    decreases s.len() - n,
{
    if n < s.len() {
        assert(s.take(n + 1).drop_last() == s.take(n));
        lemma_position_of_prefix(s, n + 1, v);
    } else {
        assert(s.take(n) == s);
    }
}

/// The escape sequence that ends a colour.
pub const RESET: &'static str = "\x1b[0m";

/// The escape sequence that shows overlapping series in white.
pub const OVERLAP_COLOR: &'static str = "\x1b[37m";

/// The colour of series `i`: cyan, yellow, green and magenta in turn.
pub open spec fn series_color(i: int) -> Seq<char> {
    let k = i % 4;
    if k == 0 {
        "\x1b[36m"@
    } else if k == 1 {
        "\x1b[33m"@
    } else if k == 2 {
        "\x1b[32m"@
    } else {
        "\x1b[35m"@
    }
}

/// Appends the colour of series `i`.
fn push_series_color(out: &mut Vec<char>, i: usize)
    ensures
        final(out)@ == old(out)@ + series_color(i as int),
{
    let k = i % 4;
    if k == 0 {
        push_str(out, "\x1b[36m");
    } else if k == 1 {
        push_str(out, "\x1b[33m");
    } else if k == 2 {
        push_str(out, "\x1b[32m");
    } else {
        push_str(out, "\x1b[35m");
    }
}

/// The bitwise union of the pattern numbers in `s`.
pub open spec fn merged_code(s: Seq<(int, u32)>) -> u32
    decreases s.len(),
{
    if s.len() == 0 {
        0
    } else {
        merged_code(s.drop_last()) | s.last().1
    }
}

/// One series of a graph, laid out on the pixel grid.
pub struct PlotSeries {
    /// The name shown in the legend.
    pub name: String,
    /// The pixel `(column, row)` of each sample, row 0 at the bottom.
    pub points: Vec<(usize, usize)>,
}

/// A braille line graph whose samples are placed on the pixel grid: `width`
/// by `height` cells, each cell two pixels wide and four high.
pub struct Plot {
    /// Columns of cells.
    pub width: usize,
    /// Rows of cells.
    pub height: usize,
    /// Whether the graph has a second value axis on the right.
    pub dual_axis: bool,
    /// The series, drawn in this order.
    pub series: Vec<PlotSeries>,
    /// The texts of the labels on the left axis, one for each of [`label_rows`].
    pub left_labels: Vec<String>,
    /// The texts of the labels on the right axis, one for each of
    /// [`label_rows`], where the graph has a second axis.
    pub right_labels: Vec<String>,
}

impl Plot {
    /// Pixel columns.
    pub open spec fn pixel_width(&self) -> int {
        2 * self.width
    }

    /// Pixel rows.
    pub open spec fn pixel_height(&self) -> int {
        4 * self.height
    }

    /// The graph can be rendered: it has a series, every sample lies on the
    /// pixel grid, there is a label text for each labelled row on each axis,
    /// and the grid is small enough to address.
    pub open spec fn wf(&self) -> bool {
        &&& self.series@.len() >= 1
        &&& 6 * self.width <= isize::MAX
        &&& 12 * self.height <= isize::MAX
        &&& forall|i: int|
            0 <= i < self.series@.len() ==> samples_fit(
                (#[trigger] self.series@[i]).points@,
                self.pixel_width(),
                self.pixel_height(),
            )
        &&& self.left_labels@.len() == label_count(self.height as int)
        &&& self.dual_axis ==> self.right_labels@.len() == label_count(self.height as int)
    }

    /// The pixels that series `i` lights.
    pub open spec fn lit(&self, i: int) -> spec_fn(int, int) -> bool {
        |x: int, y: int|
            series_lit(self.series@[i].points@, self.pixel_width(), self.pixel_height(), x, y)
    }

    /// The pattern number of series `i` in the cell in column `c` of text row
    /// `r` (row 0 at the top).
    pub open spec fn code(&self, i: int, c: int, r: int) -> u32 {
        cell_code(self.lit(i), 2 * c, (self.height - 1 - r) * 4)
    }

    /// The series among the first `k` that show dots in cell `(c, r)`, each
    /// with its pattern number there.
    pub open spec fn shown(&self, c: int, r: int, k: int) -> Seq<(int, u32)>
        decreases k,
    {
        if k <= 0 {
            seq![]
        } else {
            let prev = self.shown(c, r, k - 1);
            if self.code(k - 1, c, r) != 0 {
                prev.push((k - 1, self.code(k - 1, c, r)))
            } else {
                prev
            }
        }
    }

    /// The text of cell `(c, r)`: with one series its braille pattern; with
    /// several, the pattern of the one series that shows there in its colour,
    /// the union of all patterns in white where they overlap, or the empty
    /// pattern.
    pub open spec fn cell_text(&self, c: int, r: int) -> Seq<char> {
        if self.series@.len() > 1 {
            let s = self.shown(c, r, self.series@.len() as int);
            if s.len() == 0 {
                seq![braille(0)]
            } else if s.len() == 1 {
                series_color(s[0].0) + seq![braille(s[0].1)] + RESET@
            } else {
                OVERLAP_COLOR@ + seq![braille(merged_code(s))] + RESET@
            }
        } else {
            seq![braille(self.code(0, c, r))]
        }
    }

    /// The first `c` cells of text row `r`.
    pub open spec fn cells_text(&self, r: int, c: int) -> Seq<char>
        decreases c,
    {
        if c <= 0 {
            seq![]
        } else {
            self.cells_text(r, c - 1) + self.cell_text(c - 1, r)
        }
    }

    /// Text row `r` (row 0 at the top): the left label or blanks, the axis,
    /// the cells, and on a second axis its label.
    pub open spec fn row_text(&self, r: int) -> Seq<char> {
        let y = self.height - 1 - r;
        self.left_text(y) + " ┤"@ + self.cells_text(r, self.width as int) + self.right_text(y)
            + seq!['\n']
    }

    /// The label slot of row `y`, counted from the bottom.
    pub open spec fn slot(&self, y: int) -> Option<int> {
        position_of(label_rows_seq(self.height as int), y)
    }

    /// The left axis label of row `y` (counted from the bottom), right-aligned
    /// in nine columns, or nine blanks.
    pub open spec fn left_text(&self, y: int) -> Seq<char> {
        match self.slot(y) {
            Some(k) => pad_left(self.left_labels@[k]@, 9),
            None => repeat_char(' ', 9),
        }
    }

    /// On a second axis, its line and the label of row `y` left-aligned in
    /// nine columns; nothing otherwise.
    pub open spec fn right_text(&self, y: int) -> Seq<char> {
        if self.dual_axis {
            "├ "@ + match self.slot(y) {
                Some(k) => pad_right(self.right_labels@[k]@, 9),
                None => Seq::<char>::empty(),
            }
        } else {
            Seq::<char>::empty()
        }
    }

    /// The first `r` text rows.
    pub open spec fn rows_text(&self, r: int) -> Seq<char>
        decreases r,
    {
        if r <= 0 {
            seq![]
        } else {
            self.rows_text(r - 1) + self.row_text(r - 1)
        }
    }

    /// The line under the graph.
    pub open spec fn bottom_text(&self) -> Seq<char> {
        "          └"@ + repeat_char('─', self.width as nat) + (if self.dual_axis {
            seq!['┘']
        } else {
            Seq::<char>::empty()
        }) + seq!['\n']
    }

    /// The most samples in any of the first `k` series.
    pub open spec fn max_samples(&self, k: int) -> int
        decreases k,
    {
        if k <= 0 {
            0
        } else {
            max_int(self.max_samples(k - 1), self.series@[k - 1].points@.len() as int)
        }
    }

    /// The sample numbers under the graph: 0 at the left, the last sample
    /// number of the longest series at the right.
    pub open spec fn x_labels_text(&self) -> Seq<char> {
        let n = self.max_samples(self.series@.len() as int);
        if n > 0 {
            let last = decimal((n - 1) as nat);
            "          0"@ + pad_left(last, saturating_sub(self.width as int, last.len() as int) as nat)
                + seq!['\n']
        } else {
            Seq::<char>::empty()
        }
    }

    /// The legend line of series `i`: a stroke in its colour and its name.
    pub open spec fn legend_line(&self, i: int) -> Seq<char> {
        "  "@ + series_color(i) + "━━"@ + RESET@ + seq![' '] + self.series@[i].name@ + seq!['\n']
    }

    /// The legend lines of the first `k` series.
    pub open spec fn legend_lines(&self, k: int) -> Seq<char>
        decreases k,
    {
        if k <= 0 {
            seq![]
        } else {
            self.legend_lines(k - 1) + self.legend_line(k - 1)
        }
    }

    /// The legend, shown only when there are several series.
    pub open spec fn legend_text(&self) -> Seq<char> {
        if self.series@.len() > 1 {
            seq!['\n'] + self.legend_lines(self.series@.len() as int)
        } else {
            Seq::<char>::empty()
        }
    }

    /// The whole graph as text.
    pub open spec fn text(&self) -> Seq<char> {
        self.rows_text(self.height as int) + self.bottom_text() + self.x_labels_text()
            + self.legend_text()
    }

    /// `g` is the pixel grid of series `i`.
    pub open spec fn grid_of(&self, i: int, g: Seq<Vec<bool>>) -> bool {
        &&& g.len() == self.pixel_width()
        &&& forall|x: int| 0 <= x < self.pixel_width() ==> (#[trigger] g[x])@.len() == self.pixel_height()
        &&& forall|x: int, y: int|
            in_grid(g, x, y) ==> (#[trigger] pixel(g, x, y) <==> series_lit(
                self.series@[i].points@,
                self.pixel_width(),
                self.pixel_height(),
                x,
                y,
            ))
    }

    /// `grids` holds the pixel grid of each series.
    pub open spec fn grids_of(&self, grids: Seq<Vec<Vec<bool>>>) -> bool {
        &&& grids.len() == self.series@.len()
        &&& forall|i: int| 0 <= i < grids.len() ==> self.grid_of(i, (#[trigger] grids[i])@)
    }

    /// The pixel grid of each series.
    fn series_grids(&self) -> (grids: Vec<Vec<Vec<bool>>>)
        requires
            self.wf(),
        ensures
            self.grids_of(grids@),
    {
        let pw = self.width * 2;
        let ph = self.height * 4;
        let mut grids: Vec<Vec<Vec<bool>>> = Vec::new();
        let n = self.series.len();
        for i in 0..n
            invariant
                n == self.series@.len(),
                pw == self.pixel_width(),
                ph == self.pixel_height(),
                self.wf(),
                grids@.len() == i,
                forall|k: int| 0 <= k < i ==> self.grid_of(k, (#[trigger] grids@[k])@),
        {
            let g = plot_series(&self.series[i].points, pw, ph);
            grids.push(g);
            assert(grids@[i as int] == g);
        }
        grids
    }

    proof fn lemma_grid_code(&self, i: int, g: Seq<Vec<bool>>, c: int, r: int)
        requires
            self.grid_of(i, g),
        ensures
            cell_code(
                |x: int, y: int| dot_on(g, self.pixel_width(), self.pixel_height(), x, y),
                2 * c,
                (self.height - 1 - r) * 4,
            ) == self.code(i, c, r),
    {
        let f = |x: int, y: int| dot_on(g, self.pixel_width(), self.pixel_height(), x, y);
        assert forall|x: int, y: int| #[trigger] f(x, y) == self.lit(i)(x, y) by {
            if 0 <= x < self.pixel_width() && 0 <= y < self.pixel_height() {
                assert(in_grid(g, x, y));
            }
        }
        assert(f =~= self.lit(i));
    }

    /// Appends the text of cell `(c, r)`.
    fn push_cell(&self, grids: &Vec<Vec<Vec<bool>>>, c: usize, r: usize, out: &mut Vec<char>)
        requires
            self.wf(),
            self.grids_of(grids@),
            c < self.width,
            r < self.height,
        ensures
            final(out)@ == old(out)@ + self.cell_text(c as int, r as int),
    {
        let pw = self.width * 2;
        let ph = self.height * 4;
        let cx = c * 2;
        let cy = (self.height - 1 - r) * 4;
        let n = self.series.len();
        if n > 1 {
            let mut codes: Vec<(usize, u32)> = Vec::new();
            for si in 0..n
                invariant
                    n == self.series@.len(),
                    pw == self.pixel_width(),
                    ph == self.pixel_height(),
                    cx == 2 * c,
                    cy == (self.height - 1 - r) * 4,
                    self.wf(),
                    self.grids_of(grids@),
                    c < self.width,
                    r < self.height,
                    codes@.len() == self.shown(c as int, r as int, si as int).len(),
                    forall|k: int|
                        0 <= k < codes@.len() ==> (#[trigger] codes@[k]).0 == self.shown(
                            c as int,
                            r as int,
                            si as int,
                        )[k].0 && codes@[k].1 == self.shown(c as int, r as int, si as int)[k].1
                            && codes@[k].1 < 256,
            {
                let ghost g = grids@[si as int]@;
                assert(self.grid_of(si as int, g));
                let code = grid_cell_code(&grids[si], cx, cy, pw, ph);
                proof {
                    self.lemma_grid_code(si as int, g, c as int, r as int);
                }
                if code != 0 {
                    codes.push((si, code));
                }
            }
            let ghost s = self.shown(c as int, r as int, n as int);
            if codes.len() == 0 {
                out.push(braille_char(0));
            } else if codes.len() == 1 {
                let (si, code) = codes[0];
                push_series_color(out, si);
                out.push(braille_char(code));
                push_str(out, RESET);
            } else {
                let mut merged: u32 = 0;
                let m = codes.len();
                for k in 0..m
                    invariant
                        m == codes@.len(),
                        m == s.len(),
                        forall|j: int|
                            0 <= j < codes@.len() ==> (#[trigger] codes@[j]).1 == s[j].1
                                && codes@[j].1 < 256,
                        merged == merged_code(s.take(k as int)),
                        merged < 256,
                {
                    let code = codes[k].1;
                    assert(s.take(k + 1).drop_last() == s.take(k as int));
                    assert((merged | code) < 256) by (bit_vector)
                        requires
                            merged < 256,
                            code < 256,
                    ;
                    merged = merged | code;
                }
                assert(s.take(m as int) == s);
                push_str(out, OVERLAP_COLOR);
                out.push(braille_char(merged));
                push_str(out, RESET);
            }
        } else {
            let ghost g = grids@[0]@;
            assert(self.grid_of(0, g));
            let code = grid_cell_code(&grids[0], cx, cy, pw, ph);
            proof {
                self.lemma_grid_code(0, g, c as int, r as int);
            }
            out.push(braille_char(code));
        }
    }

    /// Appends text row `r`.
    fn push_row(&self, grids: &Vec<Vec<Vec<bool>>>, rows: &Vec<usize>, r: usize, out: &mut Vec<char>)
        requires
            self.wf(),
            self.grids_of(grids@),
            r < self.height,
            rows@.len() == label_count(self.height as int),
            forall|k: int| 0 <= k < rows@.len() ==> #[trigger] rows@[k] == label_row(self.height as int, k),
        ensures
            final(out)@ == old(out)@ + self.row_text(r as int),
    {
        let y = self.height - 1 - r;
        let slot = find_label(rows, self.height, y);
        let ghost s0 = out@;
        self.push_left(slot, y, out);
        push_str(out, " ┤");
        let ghost s1 = out@;
        for c in 0..self.width
            invariant
                self.wf(),
                self.grids_of(grids@),
                r < self.height,
                out@ == s1 + self.cells_text(r as int, c as int),
        {
            self.push_cell(grids, c, r, out);
        }
        let ghost s2 = out@;
        self.push_right(slot, y, out);
        let ghost s3 = out@;
        out.push('\n');
        proof {
            assert(s1 == s0 + self.left_text(y as int) + " ┤"@);
            assert(s2 == s1 + self.cells_text(r as int, self.width as int));
            assert(s3 == s2 + self.right_text(y as int));
            assert(out@ == s0 + self.row_text(r as int));
        }
    }

    /// Appends the left label of row `y`, whose label slot is `slot`.
    fn push_left(&self, slot: Option<usize>, y: usize, out: &mut Vec<char>)
        requires
            self.wf(),
            match slot {
                Some(k) => self.slot(y as int) == Some(k as int),
                None => self.slot(y as int) is None,
            },
        ensures
            final(out)@ == old(out)@ + self.left_text(y as int),
    {
        proof {
            lemma_position_of_bounds(label_rows_seq(self.height as int), y as int);
        }
        match slot {
            Some(k) => {
                let label = str_chars(self.left_labels[k].as_str());
                push_padded_left(out, &label, 9);
            },
            None => {
                push_repeat(out, ' ', 9);
            },
        }
    }

    /// Appends, on a second axis, its line and the label of row `y`, whose
    /// label slot is `slot`.
    fn push_right(&self, slot: Option<usize>, y: usize, out: &mut Vec<char>)
        requires
            self.wf(),
            match slot {
                Some(k) => self.slot(y as int) == Some(k as int),
                None => self.slot(y as int) is None,
            },
        ensures
            final(out)@ == old(out)@ + self.right_text(y as int),
    {
        proof {
            lemma_position_of_bounds(label_rows_seq(self.height as int), y as int);
        }
        if self.dual_axis {
            push_str(out, "├ ");
            match slot {
                Some(k) => {
                    let label = str_chars(self.right_labels[k].as_str());
                    push_padded_right(out, &label, 9);
                },
                None => {},
            }
        }
    }

    /// Appends the line under the graph.
    fn push_bottom(&self, out: &mut Vec<char>)
        ensures
            final(out)@ == old(out)@ + self.bottom_text(),
    {
        push_str(out, "          └");
        push_repeat(out, '─', self.width);
        if self.dual_axis {
            out.push('┘');
        }
        out.push('\n');
    }

    /// The most samples in any series.
    fn most_samples(&self) -> (n: usize)
        ensures
            n == self.max_samples(self.series@.len() as int),
    {
        let mut n: usize = 0;
        for i in 0..self.series.len()
            invariant
                n == self.max_samples(i as int),
        {
            let len = self.series[i].points.len();
            if len > n {
                n = len;
            }
        }
        n
    }

    /// Appends the sample numbers under the graph.
    fn push_x_labels(&self, out: &mut Vec<char>)
        ensures
            final(out)@ == old(out)@ + self.x_labels_text(),
    {
        let n = self.most_samples();
        if n > 0 {
            let last = decimal_chars(n - 1);
            let padding: usize = if self.width >= last.len() {
                self.width - last.len()
            } else {
                0
            };
            push_str(out, "          0");
            push_padded_left(out, &last, padding);
            out.push('\n');
        }
    }

    /// Appends the legend.
    fn push_legend(&self, out: &mut Vec<char>)
        ensures
            final(out)@ == old(out)@ + self.legend_text(),
    {
        if self.series.len() > 1 {
            out.push('\n');
            let ghost start = out@;
            for i in 0..self.series.len()
                invariant
                    out@ == start + self.legend_lines(i as int),
            {
                push_str(out, "  ");
                push_series_color(out, i);
                push_str(out, "━━");
                push_str(out, RESET);
                out.push(' ');
                push_str(out, self.series[i].name.as_str());
                out.push('\n');
            }
        }
    }

    /// Renders the graph: a row of text for each row of cells, from the top,
    /// with the value labels on the left (and on the right with a second
    /// axis), then the axis line, the sample numbers, and with several series
    /// a legend.
    pub fn render(&self) -> (text: String)
        requires
            self.wf(),
        ensures
            text@ == self.text(),
    {
        let grids = self.series_grids();
        let rows = label_rows(self.height);
        let mut out: Vec<char> = Vec::new();
        for r in 0..self.height
            invariant
                self.wf(),
                self.grids_of(grids@),
                rows@.len() == label_count(self.height as int),
                forall|k: int|
                    0 <= k < rows@.len() ==> #[trigger] rows@[k] == label_row(self.height as int, k),
                out@ == self.rows_text(r as int),
        {
            self.push_row(&grids, &rows, r, &mut out);
        }
        self.push_bottom(&mut out);
        self.push_x_labels(&mut out);
        self.push_legend(&mut out);
        chars_to_string(&out)
    }
}

/// In a strictly increasing sequence, each element is found at its own
/// position, and a value that is no element is not found.
proof fn lemma_position_of_increasing(s: Seq<int>, v: int)
    requires
        forall|a: int, b: int| 0 <= a < b < s.len() ==> #[trigger] s[a] < #[trigger] s[b],
    ensures
        forall|k: int| 0 <= k < s.len() && s[k] == v ==> position_of(s, v) == Some(k),
        (forall|k: int| 0 <= k < s.len() ==> s[k] != v) ==> position_of(s, v) is None,
    decreases s.len(),
{
    if s.len() > 0 {
        let t = s.drop_last();
        assert forall|a: int, b: int| 0 <= a < b < t.len() implies #[trigger] t[a] < #[trigger] t[b] by {
            assert(t[a] == s[a] && t[b] == s[b]);
        }
        lemma_position_of_increasing(t, v);
        lemma_position_of_bounds(t, v);
        if s.last() == v {
            assert forall|k: int| 0 <= k < t.len() implies t[k] != v by {
                assert(s[k] < s[s.len() - 1]);
            }
        }
        assert forall|k: int| 0 <= k < s.len() && s[k] == v implies position_of(s, v) == Some(k) by {
            if k < t.len() {
                assert(t[k] == v);
            } else {
                assert forall|j: int| 0 <= j < t.len() implies t[j] != v by {
                    assert(s[j] < s[k]);
                }
            }
        }
        if forall|k: int| 0 <= k < s.len() ==> s[k] != v {
            assert forall|k: int| 0 <= k < t.len() implies t[k] != v by {
                assert(t[k] == s[k]);
            }
        }
    }
}

/// The axis labels are listed from the bottom up: labelled row
/// `label_row(h, k)` shows `left_labels[k]` right-aligned in nine columns on
/// the left and, on a second axis, `right_labels[k]` left-aligned in nine
/// columns on the right.
pub proof fn lemma_axis_labels(p: &Plot, k: int)
    requires
        p.height >= 1,
        0 <= k < label_count(p.height as int),
    ensures
        p.left_text(label_row(p.height as int, k)) == pad_left(p.left_labels@[k]@, 9),
        p.dual_axis ==> p.right_text(label_row(p.height as int, k)) == "├ "@ + pad_right(
            p.right_labels@[k]@,
            9,
        ),
        !p.dual_axis ==> p.right_text(label_row(p.height as int, k)) == Seq::<char>::empty(),
        p.row_text(p.height - 1 - label_row(p.height as int, k)) == pad_left(p.left_labels@[k]@, 9)
            + " ┤"@ + p.cells_text(p.height - 1 - label_row(p.height as int, k), p.width as int)
            + p.right_text(label_row(p.height as int, k)) + seq!['\n'],
{
    let h = p.height as int;
    let rows = label_rows_seq(h);
    lemma_label_rows(h);
    assert forall|a: int, b: int| 0 <= a < b < rows.len() implies #[trigger] rows[a] < #[trigger] rows[b] by {
        assert(label_row(h, a) < label_row(h, b));
    }
    lemma_position_of_increasing(rows, label_row(h, k));
    assert(rows[k] == label_row(h, k));
    assert(p.slot(label_row(h, k)) == Some(k));
    assert(p.height - 1 - (p.height - 1 - label_row(h, k)) == label_row(h, k));
}

/// A row that carries no label shows nine blanks on the left and, on a second
/// axis, only the axis line on the right.
pub proof fn lemma_unlabelled_row(p: &Plot, y: int)
    requires
        p.height >= 1,
        0 <= y < p.height,
        forall|k: int| 0 <= k < label_count(p.height as int) ==> label_row(p.height as int, k) != y,
    ensures
        p.left_text(y) == repeat_char(' ', 9),
        p.dual_axis ==> p.right_text(y) == "├ "@,
        !p.dual_axis ==> p.right_text(y) == Seq::<char>::empty(),
{
    let h = p.height as int;
    let rows = label_rows_seq(h);
    lemma_label_rows(h);
    assert forall|a: int, b: int| 0 <= a < b < rows.len() implies #[trigger] rows[a] < #[trigger] rows[b] by {
        assert(label_row(h, a) < label_row(h, b));
    }
    lemma_position_of_increasing(rows, y);
    assert forall|k: int| 0 <= k < rows.len() implies rows[k] != y by {
        assert(rows[k] == label_row(h, k));
    }
    assert(p.slot(y) is None);
    assert("├ "@ + Seq::<char>::empty() == "├ "@);
}

/// Each pixel shows in exactly one place: pixel `(x, y)` of series `i` is
/// the dot in column `x % 2` and row `3 - y % 4` (from the top) of the cell in
/// column `x / 2` of text row `height - 1 - y / 4`, counted from the top; that
/// dot is set exactly when the series lights the pixel.
pub proof fn lemma_pixel_in_cell(p: &Plot, i: int, x: int, y: int)
    requires
        0 <= x < p.pixel_width(),
        0 <= y < p.pixel_height(),
    ensures
        (p.code(i, x / 2, p.height - 1 - y / 4) & dot_bit(x % 2, 3 - y % 4)) != 0 <==> series_lit(
            p.series@[i].points@,
            p.pixel_width(),
            p.pixel_height(),
            x,
            y,
        ),
{
    let c = x / 2;
    let r = p.height - 1 - y / 4;
    let cy = (p.height - 1 - r) * 4;
    assert(cy == (y / 4) * 4);
    lemma_cell_code_dots(p.lit(i), 2 * c, cy);
    assert(2 * c + x % 2 == x);
    assert(cy + y % 4 == y);
    assert(0 <= x % 2 < 2 && 0 <= y % 4 < 4);
    let dx = x % 2;
    let dy = y % 4;
    assert((cell_code(p.lit(i), 2 * c, cy) & dot_bit(dx, 3 - dy)) != 0 <==> p.lit(i)(2 * c + dx, cy + dy));
}

/// The series shown in a cell are exactly those, among the first `k`, whose
/// pattern there is not empty, in order, each with its pattern.
pub proof fn lemma_shown(p: &Plot, c: int, r: int, k: int)
    requires
        k >= 0,
    ensures
        forall|j: int|
            0 <= j < p.shown(c, r, k).len() ==> {
                let e = #[trigger] p.shown(c, r, k)[j];
                &&& 0 <= e.0 < k
                &&& e.1 == p.code(e.0, c, r)
                &&& e.1 != 0
            },
        forall|j1: int, j2: int|
            0 <= j1 < j2 < p.shown(c, r, k).len() ==> #[trigger] p.shown(c, r, k)[j1].0
                < #[trigger] p.shown(c, r, k)[j2].0,
        forall|i: int|
            0 <= i < k && p.code(i, c, r) != 0 ==> exists|j: int|
                0 <= j < p.shown(c, r, k).len() && #[trigger] p.shown(c, r, k)[j].0 == i,
    decreases k,
{
    if k > 0 {
        lemma_shown(p, c, r, k - 1);
        let prev = p.shown(c, r, k - 1);
        let cur = p.shown(c, r, k);
        if p.code(k - 1, c, r) != 0 {
            assert(cur == prev.push((k - 1, p.code(k - 1, c, r))));
            assert forall|i: int| 0 <= i < k && p.code(i, c, r) != 0 implies exists|j: int|
                0 <= j < cur.len() && #[trigger] cur[j].0 == i by {
                if i < k - 1 {
                    let j = choose|j: int| 0 <= j < prev.len() && #[trigger] prev[j].0 == i;
                    assert(cur[j] == prev[j]);
                } else {
                    assert(cur[prev.len() as int].0 == i);
                }
            }
            assert forall|j1: int, j2: int| 0 <= j1 < j2 < cur.len() implies #[trigger] cur[j1].0
                < #[trigger] cur[j2].0 by {
                if j2 < prev.len() {
                    assert(cur[j1] == prev[j1] && cur[j2] == prev[j2]);
                } else {
                    assert(cur[j1] == prev[j1]);
                }
            }
        } else {
            assert forall|i: int| 0 <= i < k && p.code(i, c, r) != 0 implies exists|j: int|
                0 <= j < cur.len() && #[trigger] cur[j].0 == i by {
                let j = choose|j: int| 0 <= j < prev.len() && #[trigger] prev[j].0 == i;
            }
        }
    }
}

/// With several series, a cell where no series shows is the empty pattern; a
/// cell where exactly one series `i` shows is that series' pattern in its
/// colour; a cell where two or more show is their union in white, which holds
/// every dot of every series there. With one series, a cell is that series'
/// pattern, uncoloured.
pub proof fn lemma_cell_colours(p: &Plot, c: int, r: int)
    ensures
        p.series@.len() <= 1 ==> p.cell_text(c, r) == seq![braille(p.code(0, c, r))],
        p.series@.len() > 1 && (forall|i: int| 0 <= i < p.series@.len() ==> p.code(i, c, r) == 0)
            ==> p.cell_text(c, r) == seq![braille(0)],
        forall|i: int|
            0 <= i < p.series@.len() && p.series@.len() > 1 && p.code(i, c, r) != 0 && (forall|
                j: int,
            |
                0 <= j < p.series@.len() && j != i ==> p.code(j, c, r) == 0) ==> #[trigger] p.code(
                i,
                c,
                r,
            ) == p.code(i, c, r) && p.cell_text(c, r) == series_color(i) + seq![
                braille(p.code(i, c, r)),
            ] + RESET@,
        forall|i1: int, i2: int|
            #![trigger p.code(i1, c, r), p.code(i2, c, r)]
            0 <= i1 < i2 < p.series@.len() && p.code(i1, c, r) != 0 && p.code(i2, c, r) != 0 ==> {
                let m = merged_code(p.shown(c, r, p.series@.len() as int));
                &&& p.cell_text(c, r) == OVERLAP_COLOR@ + seq![braille(m)] + RESET@
                &&& (m & p.code(i1, c, r)) == p.code(i1, c, r)
                &&& (m & p.code(i2, c, r)) == p.code(i2, c, r)
            },
{
    let n = p.series@.len() as int;
    lemma_shown(p, c, r, n);
    let s = p.shown(c, r, n);
    lemma_merged_code(s);
    if n > 1 {
        if forall|i: int| 0 <= i < n ==> p.code(i, c, r) == 0 {
            if s.len() > 0 {
                assert(p.code(s[0].0, c, r) != 0);
            }
        }
        assert forall|i: int|
            0 <= i < n && n > 1 && p.code(i, c, r) != 0 && (forall|j: int|
                0 <= j < n && j != i ==> p.code(j, c, r) == 0) implies #[trigger] p.code(i, c, r)
            == p.code(i, c, r) && p.cell_text(c, r) == series_color(i) + seq![
            braille(p.code(i, c, r)),
        ] + RESET@ by {
            let j = choose|j: int| 0 <= j < s.len() && #[trigger] s[j].0 == i;
            if s.len() > 1 {
                let other = if j == 0 {
                    1int
                } else {
                    0int
                };
                assert(s[other].0 != s[j].0);
                assert(p.code(s[other].0, c, r) != 0);
            }
            assert(s.len() == 1);
            assert(j == 0);
        }
        assert forall|i1: int, i2: int|
            #![trigger p.code(i1, c, r), p.code(i2, c, r)]
            0 <= i1 < i2 < n && p.code(i1, c, r) != 0 && p.code(i2, c, r) != 0 implies {
                let m = merged_code(s);
                &&& p.cell_text(c, r) == OVERLAP_COLOR@ + seq![braille(m)] + RESET@
                &&& (m & p.code(i1, c, r)) == p.code(i1, c, r)
                &&& (m & p.code(i2, c, r)) == p.code(i2, c, r)
            } by {
            let j1 = choose|j: int| 0 <= j < s.len() && #[trigger] s[j].0 == i1;
            let j2 = choose|j: int| 0 <= j < s.len() && #[trigger] s[j].0 == i2;
            assert(j1 != j2);
            assert(s.len() >= 2);
            let m = merged_code(s);
            assert((m & s[j1].1) == s[j1].1);
            assert((m & s[j2].1) == s[j2].1);
        }
    }
}

/// The union of the patterns holds every one of them, and holds no dot
/// outside a mask that holds them all.
pub proof fn lemma_merged_code(s: Seq<(int, u32)>)
    ensures
        forall|j: int| 0 <= j < s.len() ==> (merged_code(s) & #[trigger] s[j].1) == s[j].1,
        forall|m: u32|
            (forall|j: int| 0 <= j < s.len() ==> (#[trigger] s[j].1 & m) == s[j].1) ==> (
            #[trigger] (merged_code(s) & m)) == merged_code(s),
    decreases s.len(),
{
    if s.len() > 0 {
        let t = s.drop_last();
        lemma_merged_code(t);
        let a = merged_code(t);
        let b = s.last().1;
        assert forall|j: int| 0 <= j < s.len() implies (merged_code(s) & #[trigger] s[j].1) == s[j].1 by {
            if j < t.len() {
                let v = t[j].1;
                assert((a & v) == v);
                assert(((a | b) & v) == v) by (bit_vector)
                    requires
                        (a & v) == v,
                ;
                assert(s[j] == t[j]);
            } else {
                assert(((a | b) & b) == b) by (bit_vector);
            }
        }
        assert forall|m: u32|
            (forall|j: int| 0 <= j < s.len() ==> (#[trigger] s[j].1 & m) == s[j].1) implies (
            #[trigger] (merged_code(s) & m)) == merged_code(s) by {
            assert forall|j: int| 0 <= j < t.len() implies (#[trigger] t[j].1 & m) == t[j].1 by {
                assert(s[j] == t[j]);
            }
            assert((a & m) == a);
            assert((b & m) == b) by {
                assert(s[s.len() - 1].1 == b);
            }
            assert(((a | b) & m) == (a | b)) by (bit_vector)
                requires
                    (a & m) == a,
                    (b & m) == b,
            ;
        }
    } else {
        assert forall|m: u32|
            (forall|j: int| 0 <= j < s.len() ==> (#[trigger] s[j].1 & m) == s[j].1) implies (
            #[trigger] (merged_code(s) & m)) == merged_code(s) by {
            assert((0u32 & m) == 0u32) by (bit_vector);
        }
    }
}

/// The longest series counts as many samples as one of the series (none when
/// there are none), and at least as many as each.
pub proof fn lemma_max_samples(p: &Plot, k: int)
    requires
        0 <= k <= p.series@.len(),
    ensures
        forall|i: int| 0 <= i < k ==> p.max_samples(k) >= (#[trigger] p.series@[i]).points@.len(),
        k == 0 ==> p.max_samples(k) == 0,
        k > 0 ==> exists|i: int|
            0 <= i < k && p.max_samples(k) == (#[trigger] p.series@[i]).points@.len(),
    decreases k,
{
    if k > 0 {
        lemma_max_samples(p, k - 1);
    }
}

/// Series `i` has the colour of series `i + 4`, and the first four series
/// have four different colours.
pub proof fn lemma_series_colors(i: int)
    requires
        i >= 0,
    ensures
        series_color(i) == series_color(i + 4),
        forall|a: int, b: int| 0 <= a < b < 4 ==> series_color(a) != series_color(b),
{
    reveal_strlit("\x1b[36m");
    reveal_strlit("\x1b[33m");
    reveal_strlit("\x1b[32m");
    reveal_strlit("\x1b[35m");
    assert((i + 4) % 4 == i % 4);
    assert forall|a: int, b: int| 0 <= a < b < 4 implies series_color(a) != series_color(b) by {
        assert(series_color(a)[3] != series_color(b)[3]);
    }
}

/// On a terminal of a known size, the graph takes the width left after 13
/// columns (24 with a second axis) and the height left after 6 rows and 3 for
/// each series, but never less than 10 columns and 4 rows.
pub proof fn lemma_graph_size(tw: int, th: int, n: int)
    requires
        tw >= 0,
        th >= 0,
        n >= 0,
    ensures
        tw - 13 >= 10 ==> graph_width(tw, false) == tw - 13,
        tw - 13 < 10 ==> graph_width(tw, false) == 10,
        tw - 24 >= 10 ==> graph_width(tw, true) == tw - 24,
        tw - 24 < 10 ==> graph_width(tw, true) == 10,
        th - 6 - 3 * n >= 4 ==> graph_height(th, n) == th - 6 - 3 * n,
        th - 6 - 3 * n < 4 ==> graph_height(th, n) == 4,
        terminal_or_default(None) == (80int, 24int),
{
}

} // verus!
