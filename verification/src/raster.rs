//! Pixel grids and Bresenham line drawing.
//!
//! A grid is stored column-major: `grid[x][y]` is the pixel in column `x`
//! and row `y`, row 0 being the bottom of the plot.
use vstd::prelude::*;

verus! {

/// Absolute value of an integer.
pub open spec fn abs_int(v: int) -> int {
    if v < 0 {
        -v
    } else {
        v
    }
}

/// The direction (+1 or -1) in which the walk moves a coordinate from `a` toward `b`.
pub open spec fn step_toward(a: int, b: int) -> int {
    if a < b {
        1
    } else {
        -1
    }
}

/// How far the coordinate `a` has moved from `a0` in the direction of `a1`.
pub open spec fn advanced(a0: int, a1: int, a: int) -> int {
    if a0 < a1 {
        a - a0
    } else {
        a0 - a
    }
}

/// One iteration of the walk from `(x, y)` with error term `err`, on the line
/// from `(x0, y0)` to `(x1, y1)`: the next point and the next error term.
pub open spec fn walk_step(x0: int, y0: int, x1: int, y1: int, x: int, y: int, err: int) -> (
    int,
    int,
    int,
) {
    let dx = abs_int(x1 - x0);
    let dy = -abs_int(y1 - y0);
    let e2 = 2 * err;
    let moves_x = e2 >= dy;
    let moves_y = e2 <= dx;
    let err1 = if moves_x {
        err + dy
    } else {
        err
    };
    let err2 = if moves_y {
        err1 + dx
    } else {
        err1
    };
    (
        if moves_x {
            x + step_toward(x0, x1)
        } else {
            x
        },
        if moves_y {
            y + step_toward(y0, y1)
        } else {
            y
        },
        err2,
    )
}

/// The points that the walk visits from `(x, y)`, at most `fuel` steps, until it
/// reaches `(x1, y1)`.
pub open spec fn walk(
    x0: int,
    y0: int,
    x1: int,
    y1: int,
    x: int,
    y: int,
    err: int,
    fuel: nat,
) -> Seq<(int, int)>
    decreases fuel,
{
    if fuel == 0 || (x == x1 && y == y1) {
        seq![(x, y)]
    } else {
        let (nx, ny, ne) = walk_step(x0, y0, x1, y1, x, y, err);
        seq![(x, y)] + walk(x0, y0, x1, y1, nx, ny, ne, (fuel - 1) as nat)
    }
}

/// The Bresenham line from `(x0, y0)` to `(x1, y1)`: the points in the order
/// in which they are drawn.
pub open spec fn line_points(x0: int, y0: int, x1: int, y1: int) -> Seq<(int, int)> {
    let dx = abs_int(x1 - x0);
    let dy = -abs_int(y1 - y0);
    walk(x0, y0, x1, y1, x0, y0, dx + dy, (dx - dy) as nat)
}

/// What holds of every state the walk passes through.
pub open spec fn walk_state(x0: int, y0: int, x1: int, y1: int, x: int, y: int, err: int) -> bool {
    let dx = abs_int(x1 - x0);
    let ky = abs_int(y1 - y0);
    let i = advanced(x0, x1, x);
    let j = advanced(y0, y1, y);
    &&& 0 <= i <= dx
    &&& 0 <= j <= ky
    &&& err == dx * (j + 1) - ky * (i + 1)
    &&& -3 * ky <= 2 * err <= 3 * dx
}

/// The point has advanced from the start point toward the end point, in each
/// coordinate, no farther than the end point.
pub open spec fn in_span(x0: int, y0: int, x1: int, y1: int, p: (int, int)) -> bool {
    &&& 0 <= advanced(x0, x1, p.0) <= abs_int(x1 - x0)
    &&& 0 <= advanced(y0, y1, p.1) <= abs_int(y1 - y0)
}

/// Steps that remain to the end point, counting a diagonal step twice.
pub open spec fn walk_distance(x0: int, y0: int, x1: int, y1: int, x: int, y: int) -> int {
    (abs_int(x1 - x0) - advanced(x0, x1, x)) + (abs_int(y1 - y0) - advanced(y0, y1, y))
}

proof fn lemma_mul_step(a: int, b: int)
    by (nonlinear_arith)
    ensures
        a * (b + 1) == a * b + a,
{
}

proof fn lemma_mul_le(a: int, b: int, c: int)
    by (nonlinear_arith)
    requires
        0 <= a,
        b <= c,
    ensures
        a * b <= a * c,
{
}

/// A step of the walk keeps the walk's state invariant, brings it closer to the
/// end point, and moves each coordinate by at most one toward the end point.
proof fn lemma_walk_step(x0: int, y0: int, x1: int, y1: int, x: int, y: int, err: int)
    requires
        walk_state(x0, y0, x1, y1, x, y, err),
        !(x == x1 && y == y1),
    ensures
        ({
            let (nx, ny, ne) = walk_step(x0, y0, x1, y1, x, y, err);
            &&& walk_state(x0, y0, x1, y1, nx, ny, ne)
            &&& walk_distance(x0, y0, x1, y1, nx, ny) < walk_distance(x0, y0, x1, y1, x, y)
            &&& (nx == x || nx == x + step_toward(x0, x1))
            &&& (ny == y || ny == y + step_toward(y0, y1))
            &&& (nx != x || ny != y)
        }),
{
    let dx = abs_int(x1 - x0);
    let ky = abs_int(y1 - y0);
    let i = advanced(x0, x1, x);
    let j = advanced(y0, y1, y);
    let e2 = 2 * err;
    let moves_x = e2 >= -ky;
    let moves_y = e2 <= dx;
    lemma_mul_step(dx, j + 1);
    lemma_mul_step(ky, i + 1);
    if i == dx {
        // then j < ky, and the walk may not move x past x1
        assert(x == x1);
        assert(j < ky);
        lemma_mul_le(dx, j + 1, ky);
        lemma_mul_step(ky, dx);
        assert(dx * (j + 1) <= dx * ky);
        assert(ky * (dx + 1) == ky * dx + ky);
        assert(dx * ky == ky * dx) by (nonlinear_arith);
        assert(!moves_x);
    }
    if j == ky {
        assert(y == y1);
        assert(i < dx);
        lemma_mul_le(ky, i + 1, dx);
        lemma_mul_step(dx, ky);
        assert(dx * ky == ky * dx) by (nonlinear_arith);
        assert(!moves_y);
    }
}

/// The walk, from any state of the line's walk with enough fuel, ends at the
/// line's end point; every step moves each coordinate by at most one toward it.
proof fn lemma_walk_shape(x0: int, y0: int, x1: int, y1: int, x: int, y: int, err: int, fuel: nat)
    requires
        walk_state(x0, y0, x1, y1, x, y, err),
        fuel >= walk_distance(x0, y0, x1, y1, x, y),
    ensures
        ({
            let w = walk(x0, y0, x1, y1, x, y, err, fuel);
            &&& w.len() >= 1
            &&& w[0] == (x, y)
            &&& w.last() == (x1, y1)
            &&& forall|k: int|
                0 <= k < w.len() ==> in_span(x0, y0, x1, y1, #[trigger] w[k])
            &&& forall|k: int|
                0 <= k < w.len() - 1 ==> {
                    &&& (#[trigger] w[k + 1].0 == w[k].0 || w[k + 1].0 == w[k].0 + step_toward(
                        x0,
                        x1,
                    ))
                    &&& (w[k + 1].1 == w[k].1 || w[k + 1].1 == w[k].1 + step_toward(y0, y1))
                    &&& w[k + 1] != w[k]
                }
        }),
    decreases fuel,
{
    let w = walk(x0, y0, x1, y1, x, y, err, fuel);
    if x == x1 && y == y1 {
    } else {
        lemma_walk_step(x0, y0, x1, y1, x, y, err);
        let (nx, ny, ne) = walk_step(x0, y0, x1, y1, x, y, err);
        assert(fuel > 0) by {
            assert(walk_distance(x0, y0, x1, y1, x, y) > 0);
        }
        lemma_walk_shape(x0, y0, x1, y1, nx, ny, ne, (fuel - 1) as nat);
        let rest = walk(x0, y0, x1, y1, nx, ny, ne, (fuel - 1) as nat);
        assert(w == seq![(x, y)] + rest);
        assert forall|k: int| 0 <= k < w.len() - 1 implies {
            &&& (#[trigger] w[k + 1].0 == w[k].0 || w[k + 1].0 == w[k].0 + step_toward(x0, x1))
            &&& (w[k + 1].1 == w[k].1 || w[k + 1].1 == w[k].1 + step_toward(y0, y1))
            &&& w[k + 1] != w[k]
        } by {
            if k > 0 {
                let kk = k - 1;
                assert(w[k] == rest[kk]);
                assert(w[k + 1] == rest[kk + 1]);
                assert(rest[kk + 1].0 == rest[kk].0 || rest[kk + 1].0 == rest[kk].0 + step_toward(
                    x0,
                    x1,
                ));
            } else {
                assert(w[0] == (x, y));
                assert(w[1] == rest[0]);
            }
        }
        assert forall|k: int| 0 <= k < w.len() implies in_span(x0, y0, x1, y1, #[trigger] w[k]) by {
            if k > 0 {
                assert(w[k] == rest[k - 1]);
            }
        }
    }
}

/// The line's first point is its start point and its last point is its end point.
pub proof fn lemma_line_endpoints(x0: int, y0: int, x1: int, y1: int)
    ensures
        line_points(x0, y0, x1, y1).len() >= 1,
        line_points(x0, y0, x1, y1)[0] == (x0, y0),
        line_points(x0, y0, x1, y1).last() == (x1, y1),
{
    lemma_line_start_state(x0, y0, x1, y1);
    let dx = abs_int(x1 - x0);
    let dy = -abs_int(y1 - y0);
    lemma_walk_shape(x0, y0, x1, y1, x0, y0, dx + dy, (dx - dy) as nat);
}

proof fn lemma_line_start_state(x0: int, y0: int, x1: int, y1: int)
    ensures
        walk_state(x0, y0, x1, y1, x0, y0, abs_int(x1 - x0) - abs_int(y1 - y0)),
        walk_distance(x0, y0, x1, y1, x0, y0) == abs_int(x1 - x0) + abs_int(y1 - y0),
{
    let dx = abs_int(x1 - x0);
    let ky = abs_int(y1 - y0);
    assert(dx * 1 == dx && ky * 1 == ky);
}

/// The line is connected: each point after the first is one of the eight
/// neighbours of the point before it, one step closer to the end point in
/// `x`, in `y` or in both.
pub proof fn lemma_line_connected(x0: int, y0: int, x1: int, y1: int)
    ensures
        forall|k: int|
            0 <= k < line_points(x0, y0, x1, y1).len() - 1 ==> {
                let p = line_points(x0, y0, x1, y1)[k];
                let q = #[trigger] line_points(x0, y0, x1, y1)[k + 1];
                &&& (q.0 == p.0 || q.0 == p.0 + step_toward(x0, x1))
                &&& (q.1 == p.1 || q.1 == p.1 + step_toward(y0, y1))
                &&& q != p
            },
{
    lemma_line_start_state(x0, y0, x1, y1);
    let dx = abs_int(x1 - x0);
    let dy = -abs_int(y1 - y0);
    lemma_walk_shape(x0, y0, x1, y1, x0, y0, dx + dy, (dx - dy) as nat);
}

/// Every point of the line lies in the rectangle spanned by its two end points.
pub proof fn lemma_line_in_box(x0: int, y0: int, x1: int, y1: int)
    ensures
        forall|k: int|
            0 <= k < line_points(x0, y0, x1, y1).len() ==> {
                let p = #[trigger] line_points(x0, y0, x1, y1)[k];
                &&& (x0 <= p.0 <= x1 || x1 <= p.0 <= x0)
                &&& (y0 <= p.1 <= y1 || y1 <= p.1 <= y0)
            },
{
    lemma_line_start_state(x0, y0, x1, y1);
    let dx = abs_int(x1 - x0);
    let dy = -abs_int(y1 - y0);
    lemma_walk_shape(x0, y0, x1, y1, x0, y0, dx + dy, (dx - dy) as nat);
    let w = line_points(x0, y0, x1, y1);
    assert forall|k: int| 0 <= k < w.len() implies {
        let p = #[trigger] w[k];
        &&& (x0 <= p.0 <= x1 || x1 <= p.0 <= x0)
        &&& (y0 <= p.1 <= y1 || y1 <= p.1 <= y0)
    } by {
        assert(in_span(x0, y0, x1, y1, w[k]));
    }
}

/// The pixel in column `x` and row `y` of a column-major grid.
pub open spec fn pixel(grid: Seq<Vec<bool>>, x: int, y: int) -> bool {
    grid[x]@[y]
}

/// `grid` has the same columns as `before`, each of the same height.
pub open spec fn same_shape(grid: Seq<Vec<bool>>, before: Seq<Vec<bool>>) -> bool {
    &&& grid.len() == before.len()
    &&& forall|x: int| 0 <= x < before.len() ==> (#[trigger] grid[x])@.len() == before[x]@.len()
}

/// The pixel `(x, y)` lies in the grid's columns and rows.
pub open spec fn in_grid(grid: Seq<Vec<bool>>, x: int, y: int) -> bool {
    0 <= x < grid.len() && 0 <= y < grid[x]@.len()
}

/// Bresenham line drawing on the pixel grid.
///
/// Sets every pixel of [`line_points`] from `(x0, y0)` to `(x1, y1)` that lies
/// in the first `max_x` columns and the first `max_y` rows; leaves every other
/// pixel as it was.
pub fn draw_line(
    grid: &mut [Vec<bool>],
    x0: usize,
    y0: usize,
    x1: usize,
    y1: usize,
    max_x: usize,
    max_y: usize,
)
    requires
        max_x <= old(grid)@.len(),
        forall|x: int| 0 <= x < max_x ==> max_y <= (#[trigger] old(grid)@[x])@.len(),
        x0 <= isize::MAX,
        x1 <= isize::MAX,
        y0 <= isize::MAX,
        y1 <= isize::MAX,
        3 * abs_int(x1 - x0) <= isize::MAX,
        3 * abs_int(y1 - y0) <= isize::MAX,
    ensures
        same_shape(final(grid)@, old(grid)@),
        forall|x: int, y: int|
            in_grid(old(grid)@, x, y) ==> (#[trigger] pixel(final(grid)@, x, y) <==> (pixel(
                old(grid)@,
                x,
                y,
            ) || (x < max_x && y < max_y && line_points(x0 as int, y0 as int, x1 as int, y1 as int).contains((x, y))))),
        x0 < max_x && y0 < max_y ==> pixel(final(grid)@, x0 as int, y0 as int),
        x1 < max_x && y1 < max_y ==> pixel(final(grid)@, x1 as int, y1 as int),
{
    let ghost before = grid@;
    let ghost (gx0, gy0, gx1, gy1) = (x0 as int, y0 as int, x1 as int, y1 as int);
    let ghost pts = line_points(gx0, gy0, gx1, gy1);
    proof {
        lemma_line_endpoints(gx0, gy0, gx1, gy1);
        assert(pts[0] == (gx0, gy0));
        assert(pts[pts.len() - 1] == (gx1, gy1));
    }
    let mut x: isize = x0 as isize;
    let mut y: isize = y0 as isize;
    let tx: isize = x1 as isize;
    let ty: isize = y1 as isize;
    let dx: isize = if tx >= x { tx - x } else { x - tx };
    let dy: isize = if ty >= y { -(ty - y) } else { -(y - ty) };
    let sx: isize = if x < tx { 1 } else { -1 };
    let sy: isize = if y < ty { 1 } else { -1 };
    let mut err: isize = dx + dy;
    let ghost mut visited: Seq<(int, int)> = Seq::empty();
    let ghost mut fuel: nat = (dx - dy) as nat;
    proof {
        lemma_line_start_state(gx0, gy0, gx1, gy1);
    }
    loop
        invariant_except_break
            walk_state(gx0, gy0, gx1, gy1, x as int, y as int, err as int),
            fuel >= walk_distance(gx0, gy0, gx1, gy1, x as int, y as int),
            pts == visited + walk(gx0, gy0, gx1, gy1, x as int, y as int, err as int, fuel),
            forall|a: int, b: int|
                in_grid(before, a, b) ==> (#[trigger] pixel(grid@, a, b) <==> (pixel(before, a, b)
                    || (a < max_x && b < max_y && visited.contains((a, b))))),
        invariant
            gx0 == x0 && gy0 == y0 && gx1 == x1 && gy1 == y1,
            tx == x1 && ty == y1,
            dx == abs_int(gx1 - gx0),
            dy == -abs_int(gy1 - gy0),
            sx == step_toward(gx0, gx1),
            sy == step_toward(gy0, gy1),
            pts == line_points(gx0, gy0, gx1, gy1),
            max_x <= before.len(),
            forall|a: int| 0 <= a < max_x ==> max_y <= (#[trigger] before[a])@.len(),
            3 * abs_int(gx1 - gx0) <= isize::MAX,
            3 * abs_int(gy1 - gy0) <= isize::MAX,
            same_shape(grid@, before),
        ensures
            forall|a: int, b: int|
                in_grid(before, a, b) ==> (#[trigger] pixel(grid@, a, b) <==> (pixel(before, a, b)
                    || (a < max_x && b < max_y && pts.contains((a, b))))),
        decreases walk_distance(gx0, gy0, gx1, gy1, x as int, y as int),
    {
        let ghost cur = (x as int, y as int);
        let ghost g0 = grid@;
        if x >= 0 && (x as usize) < max_x && y >= 0 && (y as usize) < max_y {
            grid[x as usize][y as usize] = true;
        }
        proof {
            let ov = visited;
            visited = visited.push(cur);
            assert forall|a: int, b: int| in_grid(before, a, b) implies (#[trigger] pixel(
                grid@,
                a,
                b,
            ) <==> (pixel(before, a, b) || (a < max_x && b < max_y && visited.contains(
                (a, b),
            )))) by {
                assert(pixel(g0, a, b) <==> (pixel(before, a, b) || (a < max_x && b < max_y
                    && ov.contains((a, b)))));
                if (a, b) == cur {
                    assert(visited[ov.len() as int] == cur);
                } else {
                    assert(pixel(grid@, a, b) == pixel(g0, a, b));
                    if visited.contains((a, b)) {
                        let k = choose|k: int| 0 <= k < visited.len() && visited[k] == (a, b);
                        assert(k < ov.len());
                        assert(ov[k] == (a, b));
                    }
                    if ov.contains((a, b)) {
                        let k = choose|k: int| 0 <= k < ov.len() && ov[k] == (a, b);
                        assert(visited[k] == (a, b));
                    }
                }
            }
        }
        if x == tx && y == ty {
            proof {
                assert(pts == visited);
            }
            break;
        }
        proof {
            lemma_walk_step(gx0, gy0, gx1, gy1, x as int, y as int, err as int);
        }
        let e2 = 2 * err;
        if e2 >= dy {
            err = err + dy;
            x = x + sx;
        }
        if e2 <= dx {
            err = err + dx;
            y = y + sy;
        }
        proof {
            fuel = (fuel - 1) as nat;
        }
    }
    proof {
        if x0 < max_x && y0 < max_y {
            assert(in_grid(before, gx0, gy0));
            assert(pts.contains((gx0, gy0)));
        }
        if x1 < max_x && y1 < max_y {
            assert(in_grid(before, gx1, gy1));
            assert(pts.contains((gx1, gy1)));
        }
    }
}

/// A column of `h` pixels, all of them off.
fn off_column(h: usize) -> (column: Vec<bool>)
    ensures
        column@.len() == h,
        forall|b: int| 0 <= b < h ==> !#[trigger] column@[b],
{
    let mut column: Vec<bool> = Vec::new();
    for y in 0..h
        invariant
            column@.len() == y,
            forall|b: int| 0 <= b < y ==> !#[trigger] column@[b],
    {
        column.push(false);
    }
    column
}

/// A grid of `w` columns of `h` pixels each, all of them off.
pub fn new_grid(w: usize, h: usize) -> (grid: Vec<Vec<bool>>)
    ensures
        grid@.len() == w,
        forall|x: int| 0 <= x < w ==> (#[trigger] grid@[x])@.len() == h,
        forall|x: int, y: int| in_grid(grid@, x, y) ==> !#[trigger] pixel(grid@, x, y),
{
    let mut grid: Vec<Vec<bool>> = Vec::new();
    for x in 0..w
        invariant
            grid@.len() == x,
            forall|a: int| 0 <= a < x ==> (#[trigger] grid@[a])@.len() == h,
            forall|a: int, b: int| in_grid(grid@, a, b) ==> !#[trigger] pixel(grid@, a, b),
    {
        let column = off_column(h);
        let ghost g0 = grid@;
        let ghost col = column@;
        grid.push(column);
        assert forall|a: int, b: int| in_grid(grid@, a, b) implies !#[trigger] pixel(grid@, a, b) by {
            if a < x {
                assert(grid@[a] == g0[a]);
                assert(in_grid(g0, a, b));
                assert(!pixel(g0, a, b));
            } else {
                assert(grid@[a]@ == col);
                assert(!col[b]);
            }
        }
    }
    grid
}

/// Sample `i` of the series is the pixel `(x, y)`.
pub open spec fn is_sample(pts: Seq<(usize, usize)>, i: int, x: int, y: int) -> bool {
    0 <= i < pts.len() && pts[i].0 == x && pts[i].1 == y
}

/// The segment that joins sample `i - 1` to sample `i` passes through `(x, y)`.
pub open spec fn on_segment(pts: Seq<(usize, usize)>, i: int, x: int, y: int) -> bool {
    1 <= i < pts.len() && line_points(
        pts[i - 1].0 as int,
        pts[i - 1].1 as int,
        pts[i].0 as int,
        pts[i].1 as int,
    ).contains((x, y))
}

/// The pixels that a series lights on a `pw` by `ph` grid: its samples, and
/// the lines that join each sample to the next.
pub open spec fn series_lit(pts: Seq<(usize, usize)>, pw: int, ph: int, x: int, y: int) -> bool {
    &&& 0 <= x < pw
    &&& 0 <= y < ph
    &&& (exists|i: int| #[trigger] is_sample(pts, i, x, y)) || (exists|i: int|
        #[trigger] on_segment(pts, i, x, y))
}

/// Every sample of the series lies on the `pw` by `ph` grid.
pub open spec fn samples_fit(pts: Seq<(usize, usize)>, pw: int, ph: int) -> bool {
    forall|i: int| 0 <= i < pts.len() ==> #[trigger] pts[i].0 < pw && pts[i].1 < ph
}

/// The grid of a series: each sample lit, and each sample joined to the next
/// by a Bresenham line.
pub fn plot_series(pts: &Vec<(usize, usize)>, pw: usize, ph: usize) -> (grid: Vec<Vec<bool>>)
    requires
        samples_fit(pts@, pw as int, ph as int),
        3 * pw <= isize::MAX,
        3 * ph <= isize::MAX,
    ensures
        grid@.len() == pw,
        forall|x: int| 0 <= x < pw ==> (#[trigger] grid@[x])@.len() == ph,
        forall|x: int, y: int|
            in_grid(grid@, x, y) ==> (#[trigger] pixel(grid@, x, y) <==> series_lit(
                pts@,
                pw as int,
                ph as int,
                x,
                y,
            )),
{
    let mut grid = new_grid(pw, ph);
    let n = pts.len();
    for i in 0..n
        invariant
            n == pts@.len(),
            samples_fit(pts@, pw as int, ph as int),
            grid@.len() == pw,
            forall|x: int| 0 <= x < pw ==> (#[trigger] grid@[x])@.len() == ph,
            forall|x: int, y: int|
                in_grid(grid@, x, y) ==> (#[trigger] pixel(grid@, x, y) <==> exists|k: int|
                    0 <= k < i && #[trigger] is_sample(pts@, k, x, y)),
    {
        let (col, row) = pts[i];
        let ghost g0 = grid@;
        if col < pw && row < ph {
            grid[col][row] = true;
        }
        assert forall|x: int, y: int| in_grid(grid@, x, y) implies (#[trigger] pixel(grid@, x, y)
            <==> exists|k: int| 0 <= k < i + 1 && #[trigger] is_sample(pts@, k, x, y)) by {
            if x == col && y == row {
                assert(is_sample(pts@, i as int, x, y));
            } else {
                assert(pixel(grid@, x, y) == pixel(g0, x, y));
                if exists|k: int| 0 <= k < i + 1 && #[trigger] is_sample(pts@, k, x, y) {
                    let k = choose|k: int| 0 <= k < i + 1 && #[trigger] is_sample(pts@, k, x, y);
                    assert(k != i);
                }
            }
        }
    }
    let mut i: usize = 1;
    while i < n
        invariant
            1 <= i,
            i <= n || n == 0,
            n == pts@.len(),
            samples_fit(pts@, pw as int, ph as int),
            3 * pw <= isize::MAX,
            3 * ph <= isize::MAX,
            grid@.len() == pw,
            forall|x: int| 0 <= x < pw ==> (#[trigger] grid@[x])@.len() == ph,
            forall|x: int, y: int|
                in_grid(grid@, x, y) ==> (#[trigger] pixel(grid@, x, y) <==> ((exists|k: int|
                    #[trigger] is_sample(pts@, k, x, y)) || exists|k: int|
                    k < i && #[trigger] on_segment(pts@, k, x, y))),
        decreases n - i,
    {
        let (c0, r0) = pts[i - 1];
        let (c1, r1) = pts[i];
        let ghost g0 = grid@;
        assert(c0 < pw && r0 < ph && c1 < pw && r1 < ph) by {
            assert(pts@[i - 1].0 < pw && pts@[i - 1].1 < ph);
            assert(pts@[i as int].0 < pw && pts@[i as int].1 < ph);
        }
        draw_line(grid.as_mut_slice(), c0, r0, c1, r1, pw, ph);
        assert forall|x: int, y: int| in_grid(grid@, x, y) implies (#[trigger] pixel(grid@, x, y)
            <==> ((exists|k: int| #[trigger] is_sample(pts@, k, x, y)) || exists|k: int|
            k < i + 1 && #[trigger] on_segment(pts@, k, x, y))) by {
            assert(in_grid(g0, x, y));
            if line_points(c0 as int, r0 as int, c1 as int, r1 as int).contains((x, y)) {
                assert(on_segment(pts@, i as int, x, y));
            }
            if exists|k: int| k < i + 1 && #[trigger] on_segment(pts@, k, x, y) {
                let k = choose|k: int| k < i + 1 && #[trigger] on_segment(pts@, k, x, y);
                if k == i {
                    assert(line_points(c0 as int, r0 as int, c1 as int, r1 as int).contains(
                        (x, y),
                    ));
                }
            }
        }
        i = i + 1;
    }
    assert forall|x: int, y: int| in_grid(grid@, x, y) implies (#[trigger] pixel(grid@, x, y)
        <==> series_lit(pts@, pw as int, ph as int, x, y)) by {
        if exists|k: int| #[trigger] on_segment(pts@, k, x, y) {
            let k = choose|k: int| #[trigger] on_segment(pts@, k, x, y);
            assert(k < i);
        }
    }
    grid
}

/// A series lights, on its grid, every sample and every point of the
/// Bresenham line from each sample to the next, whichever way the line runs;
/// and it lights nothing else.
pub proof fn lemma_series_lit(pts: Seq<(usize, usize)>, pw: int, ph: int)
    ensures
        forall|i: int, x: int, y: int|
            1 <= i < pts.len() && 0 <= x < pw && 0 <= y < ph && #[trigger] line_points(
                pts[i - 1].0 as int,
                pts[i - 1].1 as int,
                pts[i].0 as int,
                pts[i].1 as int,
            ).contains((x, y)) ==> series_lit(pts, pw, ph, x, y),
        forall|i: int|
            0 <= i < pts.len() && pts[i].0 < pw && pts[i].1 < ph ==> series_lit(
                pts,
                pw,
                ph,
                #[trigger] pts[i].0 as int,
                pts[i].1 as int,
            ),
        forall|x: int, y: int|
            #[trigger] series_lit(pts, pw, ph, x, y) ==> 0 <= x < pw && 0 <= y < ph && ((exists|i: int|
                0 <= i < pts.len() && pts[i].0 == x && pts[i].1 == y) || (exists|i: int|
                1 <= i < pts.len() && line_points(
                    pts[i - 1].0 as int,
                    pts[i - 1].1 as int,
                    #[trigger] pts[i].0 as int,
                    pts[i].1 as int,
                ).contains((x, y)))),
{
    assert forall|i: int, x: int, y: int|
        1 <= i < pts.len() && 0 <= x < pw && 0 <= y < ph && #[trigger] line_points(
            pts[i - 1].0 as int,
            pts[i - 1].1 as int,
            pts[i].0 as int,
            pts[i].1 as int,
        ).contains((x, y)) implies series_lit(pts, pw, ph, x, y) by {
        assert(on_segment(pts, i, x, y));
    }
    assert forall|i: int| 0 <= i < pts.len() && pts[i].0 < pw && pts[i].1 < ph implies series_lit(
        pts,
        pw,
        ph,
        #[trigger] pts[i].0 as int,
        pts[i].1 as int,
    ) by {
        assert(is_sample(pts, i, pts[i].0 as int, pts[i].1 as int));
    }
    assert forall|x: int, y: int| #[trigger] series_lit(pts, pw, ph, x, y) implies 0 <= x < pw && 0
        <= y < ph && ((exists|i: int| 0 <= i < pts.len() && pts[i].0 == x && pts[i].1 == y) || (exists|i: int|
        1 <= i < pts.len() && line_points(
            pts[i - 1].0 as int,
            pts[i - 1].1 as int,
            #[trigger] pts[i].0 as int,
            pts[i].1 as int,
        ).contains((x, y)))) by {
        if exists|i: int| #[trigger] is_sample(pts, i, x, y) {
            let i = choose|i: int| #[trigger] is_sample(pts, i, x, y);
            assert(0 <= i < pts.len() && pts[i].0 == x && pts[i].1 == y);
        } else {
            let i = choose|i: int| #[trigger] on_segment(pts, i, x, y);
            assert(1 <= i < pts.len() && line_points(
                pts[i - 1].0 as int,
                pts[i - 1].1 as int,
                pts[i].0 as int,
                pts[i].1 as int,
            ).contains((x, y)));
        }
    }
}

} // verus!
