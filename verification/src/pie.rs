//! The pie chart: its size on the terminal, its legend, and its rendering as
//! half-block characters, two sub-pixel rows to a line of text.
use vstd::prelude::*;
use crate::graph::max_int;
use crate::graph::saturating_sub;
use crate::graph::terminal_or_default;
use crate::graph::RESET;
use crate::text::chars_to_string;
use crate::text::decimal;
use crate::text::pad_left;
use crate::text::pad_right;
use crate::text::push_decimal;
use crate::text::push_padded_left;
use crate::text::push_padded_right;
use crate::text::push_repeat;
use crate::text::push_str;
use crate::text::repeat_char;
use crate::text::str_chars;

verus! {

/// The pie's diameter in terminal columns for a terminal of the given size:
/// the width left after 36 columns for the legend (at least 20), or twice the
/// height left after 4 rows (at least 10), whichever is smaller, at least 10,
/// and rounded down to an even number.
pub open spec fn pie_diameter(term_width: int, term_height: int) -> int {
    let max_w = max_int(saturating_sub(term_width, 36), 20);
    let max_h = max_int(saturating_sub(term_height, 4), 10);
    let d0 = if max_w <= max_h * 2 {
        max_w
    } else {
        max_h * 2
    };
    let d1 = if d0 < 10 {
        10
    } else {
        d0
    };
    if d1 % 2 != 0 {
        d1 - 1
    } else {
        d1
    }
}

/// The pie's diameter in terminal columns (and sub-pixel rows) on a terminal
/// of the given size (80 by 24 where it is not known).
pub fn pie_size(term: Option<(u16, u16)>) -> (d: usize)
    ensures
        d == pie_diameter(terminal_or_default(term).0, terminal_or_default(term).1),
{
    let (term_width, term_height) = match term {
        Some(size) => size,
        None => (80u16, 24u16),
    };
    let tw = term_width as usize;
    let th = term_height as usize;
    let avail_w: usize = if tw >= 36 {
        tw - 36
    } else {
        0
    };
    let max_w: usize = if avail_w >= 20 {
        avail_w
    } else {
        20
    };
    let avail_h: usize = if th >= 4 {
        th - 4
    } else {
        0
    };
    let max_h: usize = if avail_h >= 10 {
        avail_h
    } else {
        10
    };
    let mut d: usize = if max_w <= max_h * 2 {
        max_w
    } else {
        max_h * 2
    };
    if d < 10 {
        d = 10;
    }
    if d % 2 != 0 {
        d = d - 1;
    }
    d
}

/// The diameter is even, at least 20, and fits both in the width left for the
/// pie and in twice the height left for it.
pub proof fn lemma_pie_diameter(term_width: int, term_height: int)
    ensures
        pie_diameter(term_width, term_height) % 2 == 0,
        pie_diameter(term_width, term_height) >= 20,
        pie_diameter(term_width, term_height) <= max_int(saturating_sub(term_width, 36), 20),
        pie_diameter(term_width, term_height) <= 2 * max_int(saturating_sub(term_height, 4), 10),
        pie_diameter(term_width, term_height) + 1 >= if max_int(saturating_sub(term_width, 36), 20)
            <= 2 * max_int(saturating_sub(term_height, 4), 10) {
            max_int(saturating_sub(term_width, 36), 20)
        } else {
            2 * max_int(saturating_sub(term_height, 4), 10)
        },
        terminal_or_default(None) == (80int, 24int),
{
}

/// Slice `i` has the colours of slice `i + 12`; the first twelve slices have
/// twelve different foreground colours, 31 to 36 and then 91 to 96, and each
/// background colour is its foreground colour plus ten.
pub proof fn lemma_slice_colors(i: int)
    requires
        i >= 0,
    ensures
        fg_color(i) == fg_color(i + 12),
        bg_color(i) == fg_color(i) + 10,
        (31 <= fg_color(i) <= 36) || (91 <= fg_color(i) <= 96),
        forall|a: int, b: int| 0 <= a < b < 12 ==> fg_color(a) != fg_color(b),
{
    assert((i + 12) % 12 == i % 12);
}

/// The longest name has as many characters as one of the names (none when
/// there are none), and at least as many as each.
pub proof fn lemma_longest_name(names: Seq<String>, k: int)
    requires
        0 <= k <= names.len(),
    ensures
        forall|i: int| 0 <= i < k ==> longest_name(names, k) >= (#[trigger] names[i])@.len(),
        k == 0 ==> longest_name(names, k) == 0,
        k > 0 ==> exists|i: int| 0 <= i < k && longest_name(names, k) == (#[trigger] names[i])@.len(),
    decreases k,
{
    if k > 0 {
        lemma_longest_name(names, k - 1);
        if names[k - 1]@.len() >= longest_name(names, k - 1) {
            assert(longest_name(names, k) == names[k - 1]@.len());
        } else {
            let i = choose|i: int|
                0 <= i < k - 1 && longest_name(names, k - 1) == (#[trigger] names[i])@.len();
            assert(longest_name(names, k) == names[i]@.len());
        }
    }
}

/// The foreground colour code of slice `i`: 31 to 36, then 91 to 96, in turn.
pub open spec fn fg_color(i: int) -> nat {
    let k = i % 12;
    if k < 6 {
        (31 + k) as nat
    } else {
        (85 + k) as nat
    }
}

/// The background colour code of slice `i`, the counterpart of [`fg_color`].
pub open spec fn bg_color(i: int) -> nat {
    fg_color(i) + 10
}

fn fg_code(i: usize) -> (c: usize)
    ensures
        c == fg_color(i as int),
{
    let k = i % 12;
    if k < 6 {
        31 + k
    } else {
        85 + k
    }
}

/// The escape sequence that sets foreground colour `fg`.
pub open spec fn fg_seq(fg: nat) -> Seq<char> {
    "\x1b["@ + decimal(fg) + seq!['m']
}

/// The text for one column of a line: the slice (if any) of the upper and of
/// the lower sub-pixel, as a coloured half or full block, or a blank outside
/// the circle.
pub open spec fn pie_cell(upper: Option<usize>, lower: Option<usize>) -> Seq<char> {
    match (upper, lower) {
        (None, None) => seq![' '],
        (Some(i), None) => fg_seq(fg_color(i as int)) + seq!['▀'] + RESET@,
        (None, Some(j)) => fg_seq(fg_color(j as int)) + seq!['▄'] + RESET@,
        (Some(i), Some(j)) => if i == j {
            fg_seq(fg_color(i as int)) + seq!['█'] + RESET@
        } else {
            "\x1b["@ + decimal(fg_color(i as int)) + seq![';'] + decimal(bg_color(j as int))
                + seq!['m', '▀'] + RESET@
        },
    }
}

/// A pie chart on a square of sub-pixels: `cells[y][x]` is the slice that
/// covers the sub-pixel in row `y` (from the top) and column `x`, or `None`
/// outside the circle.
pub struct PieRaster {
    /// Sub-pixel rows and columns.
    pub diameter: usize,
    /// The slice of each sub-pixel, row by row.
    pub cells: Vec<Vec<Option<usize>>>,
}

impl PieRaster {
    /// The raster is `diameter` rows of `diameter` sub-pixels each.
    pub open spec fn wf(&self) -> bool {
        &&& self.cells@.len() == self.diameter
        &&& forall|y: int|
            0 <= y < self.diameter ==> (#[trigger] self.cells@[y])@.len() == self.diameter
    }

    /// The slice of sub-pixel `(x, y)`.
    pub open spec fn at(&self, x: int, y: int) -> Option<usize> {
        self.cells@[y]@[x]
    }

    /// The first `x` columns of line `row`, which shows sub-pixel rows
    /// `2 * row` and `2 * row + 1`.
    pub open spec fn line_cells(&self, row: int, x: int) -> Seq<char>
        decreases x,
    {
        if x <= 0 {
            seq![]
        } else {
            self.line_cells(row, x - 1) + pie_cell(self.at(x - 1, 2 * row), self.at(x - 1, 2 * row + 1))
        }
    }

    /// Line `row` of the chart: a margin, the pie, and beside it legend line
    /// `row` if there is one.
    pub open spec fn line_text(&self, legend: Seq<String>, row: int) -> Seq<char> {
        "  "@ + self.line_cells(row, self.diameter as int) + (if row < legend.len() {
            "   "@ + legend[row]@
        } else {
            Seq::<char>::empty()
        }) + seq!['\n']
    }

    /// The first `n` lines of the chart.
    pub open spec fn lines_text(&self, legend: Seq<String>, n: int) -> Seq<char>
        decreases n,
    {
        if n <= 0 {
            seq![]
        } else {
            self.lines_text(legend, n - 1) + self.line_text(legend, n - 1)
        }
    }

    /// The legend lines from `from` up to `to`, each indented past the pie.
    pub open spec fn overflow_text(&self, legend: Seq<String>, from: int, to: int) -> Seq<char>
        decreases to - from,
    {
        if to <= from {
            seq![]
        } else {
            self.overflow_text(legend, from, to - 1) + repeat_char(
                ' ',
                (2 + self.diameter + 3) as nat,
            ) + legend[to - 1]@ + seq!['\n']
        }
    }

    /// The whole chart: `diameter / 2` lines with the legend beside them, then
    /// the legend lines that did not fit beside the pie.
    pub open spec fn text(&self, legend: Seq<String>) -> Seq<char> {
        let h = self.diameter / 2;
        self.lines_text(legend, h as int) + self.overflow_text(legend, h as int, legend.len() as int)
    }

    /// Appends the text of one column of a line.
    fn push_cell(upper: Option<usize>, lower: Option<usize>, out: &mut Vec<char>)
        ensures
            final(out)@ == old(out)@ + pie_cell(upper, lower),
    {
        match (upper, lower) {
            (None, None) => {
                out.push(' ');
            },
            (Some(i), None) => {
                push_str(out, "\x1b[");
                push_decimal(out, fg_code(i));
                out.push('m');
                out.push('▀');
                push_str(out, RESET);
            },
            (None, Some(j)) => {
                push_str(out, "\x1b[");
                push_decimal(out, fg_code(j));
                out.push('m');
                out.push('▄');
                push_str(out, RESET);
            },
            (Some(i), Some(j)) => {
                if i == j {
                    push_str(out, "\x1b[");
                    push_decimal(out, fg_code(i));
                    out.push('m');
                    out.push('█');
                    push_str(out, RESET);
                } else {
                    push_str(out, "\x1b[");
                    push_decimal(out, fg_code(i));
                    out.push(';');
                    push_decimal(out, fg_code(j) + 10);
                    out.push('m');
                    out.push('▀');
                    push_str(out, RESET);
                }
            },
        }
    }

    /// Appends line `row` of the chart.
    fn push_line(&self, legend: &Vec<String>, row: usize, out: &mut Vec<char>)
        requires
            self.wf(),
            row < self.diameter / 2,
        ensures
            final(out)@ == old(out)@ + self.line_text(legend@, row as int),
    {
        let ghost s0 = out@;
        push_str(out, "  ");
        let ghost s1 = out@;
        for x in 0..self.diameter
            invariant
                self.wf(),
                row < self.diameter / 2,
                out@ == s1 + self.line_cells(row as int, x as int),
        {
            let upper = self.cells[2 * row][x];
            let lower = self.cells[2 * row + 1][x];
            PieRaster::push_cell(upper, lower, out);
        }
        let ghost s2 = out@;
        if row < legend.len() {
            push_str(out, "   ");
            push_str(out, legend[row].as_str());
        }
        let ghost s3 = out@;
        out.push('\n');
        proof {
            assert(s2 == s0 + "  "@ + self.line_cells(row as int, self.diameter as int));
            assert(out@ == s3 + seq!['\n']);
        }
    }

    /// Renders the chart with the given legend lines beside it: each line of
    /// text shows two rows of sub-pixels as half blocks, upper in the
    /// foreground and lower in the background colour.
    pub fn render(&self, legend: &Vec<String>) -> (text: String)
        requires
            self.wf(),
            2 + self.diameter + 3 <= usize::MAX,
        ensures
            text@ == self.text(legend@),
    {
        let h = self.diameter / 2;
        let mut out: Vec<char> = Vec::new();
        for row in 0..h
            invariant
                self.wf(),
                h == self.diameter / 2,
                out@ == self.lines_text(legend@, row as int),
        {
            self.push_line(legend, row, &mut out);
        }
        let ghost s0 = out@;
        if legend.len() > h {
            let n = legend.len();
            for k in h..n
                invariant
                    n == legend@.len(),
                    2 + self.diameter + 3 <= usize::MAX,
                    out@ == s0 + self.overflow_text(legend@, h as int, k as int),
            {
                push_repeat(&mut out, ' ', 2 + self.diameter + 3);
                push_str(&mut out, legend[k].as_str());
                out.push('\n');
            }
        }
        chars_to_string(&out)
    }
}

/// The first `n` columns of a line of text drawn from two rows of
/// sub-pixels, `upper` above `lower`.
pub open spec fn pair_cells(upper: Seq<Option<usize>>, lower: Seq<Option<usize>>, n: int) -> Seq<char>
    decreases n,
{
    if n <= 0 {
        seq![]
    } else {
        pair_cells(upper, lower, n - 1) + pie_cell(upper[n - 1], lower[n - 1])
    }
}

proof fn lemma_line_cells_pair(r: &PieRaster, row: int, x: int)
    requires
        0 <= x,
    ensures
        r.line_cells(row, x) == pair_cells(r.cells@[2 * row]@, r.cells@[2 * row + 1]@, x),
    decreases x,
{
    if x > 0 {
        lemma_line_cells_pair(r, row, x - 1);
    }
}

/// Every row of sub-pixels is drawn once, in text line `y / 2`: text line
/// `row` draws sub-pixel row `2 * row` in its upper halves and `2 * row + 1`
/// in its lower halves, column by column.
pub proof fn lemma_pie_rows(r: &PieRaster, y: int)
    requires
        r.wf(),
        0 <= y < 2 * (r.diameter / 2),
    ensures
        y % 2 == 0 ==> r.line_cells(y / 2, r.diameter as int) == pair_cells(
            r.cells@[y]@,
            r.cells@[y + 1]@,
            r.diameter as int,
        ),
        y % 2 == 1 ==> r.line_cells(y / 2, r.diameter as int) == pair_cells(
            r.cells@[y - 1]@,
            r.cells@[y]@,
            r.diameter as int,
        ),
{
    lemma_line_cells_pair(r, y / 2, r.diameter as int);
}

/// The number of characters in the longest of the first `k` names.
pub open spec fn longest_name(names: Seq<String>, k: int) -> int
    decreases k,
{
    if k <= 0 {
        0
    } else {
        max_int(longest_name(names, k - 1), names[k - 1]@.len() as int)
    }
}

/// Legend line `i`: a block in the slice's colour, the name left-aligned to
/// the longest name, the percentage right-aligned in six columns, and the
/// value in brackets.
pub open spec fn legend_line(names: Seq<String>, percents: Seq<String>, values: Seq<String>, i: int) -> Seq<char> {
    fg_seq(fg_color(i)) + "██"@ + RESET@ + seq![' '] + pad_right(
        names[i]@,
        longest_name(names, names.len() as int) as nat,
    ) + "  "@ + pad_left(percents[i]@, 6) + "%  ("@ + values[i]@ + seq![')']
}

/// The legend of a pie chart, one line for each slice, from the slices' names
/// and their percentages and values already written out.
pub fn pie_legend(names: &Vec<String>, percents: &Vec<String>, values: &Vec<String>) -> (lines: Vec<
    String,
>)
    requires
        percents@.len() == names@.len(),
        values@.len() == names@.len(),
    ensures
        lines@.len() == names@.len(),
        forall|i: int|
            0 <= i < lines@.len() ==> (#[trigger] lines@[i])@ == legend_line(
                names@,
                percents@,
                values@,
                i,
            ),
{
    let n = names.len();
    let mut width: usize = 0;
    for i in 0..n
        invariant
            n == names@.len(),
            width == longest_name(names@, i as int),
    {
        let len = str_chars(names[i].as_str()).len();
        if len > width {
            width = len;
        }
    }
    let mut lines: Vec<String> = Vec::new();
    for i in 0..n
        invariant
            n == names@.len(),
            percents@.len() == n,
            values@.len() == n,
            width == longest_name(names@, n as int),
            lines@.len() == i,
            forall|k: int|
                0 <= k < i ==> (#[trigger] lines@[k])@ == legend_line(names@, percents@, values@, k),
    {
        let mut out: Vec<char> = Vec::new();
        push_str(&mut out, "\x1b[");
        push_decimal(&mut out, fg_code(i));
        out.push('m');
        push_str(&mut out, "██");
        push_str(&mut out, RESET);
        out.push(' ');
        let name = str_chars(names[i].as_str());
        push_padded_right(&mut out, &name, width);
        push_str(&mut out, "  ");
        let pct = str_chars(percents[i].as_str());
        push_padded_left(&mut out, &pct, 6);
        push_str(&mut out, "%  (");
        push_str(&mut out, values[i].as_str());
        out.push(')');
        let line = chars_to_string(&out);
        lines.push(line);
        assert(lines@[i as int]@ == legend_line(names@, percents@, values@, i as int));
    }
    lines
}

} // verus!
