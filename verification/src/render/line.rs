use vstd::prelude::*;

use crate::render::graphics::Point;

verus! {

pub open spec fn abs(v: int) -> int {
    if v < 0 {
        -v
    } else {
        v
    }
}

/// Horizontal extent of the line from `a` to `b`.
pub open spec fn line_dx(a: Point, b: Point) -> int {
    abs(b.x - a.x)
}

/// Negated vertical extent of the line from `a` to `b`.
pub open spec fn line_dy(a: Point, b: Point) -> int {
    -abs(b.y - a.y)
}

pub open spec fn line_sx(a: Point, b: Point) -> int {
    if a.x < b.x {
        1
    } else {
        -1
    }
}

pub open spec fn line_sy(a: Point, b: Point) -> int {
    if a.y < b.y {
        1
    } else {
        -1
    }
}

/// The error term at the first pixel.
pub open spec fn line_start_error(a: Point, b: Point) -> int {
    line_dx(a, b) + line_dy(a, b)
}

pub open spec fn fits_i32(v: int) -> bool {
    i32::MIN <= v <= i32::MAX
}

/// The differences between the ends of the line from `a` to `b`, and their absolute
/// values, fit in an `i32`.
pub open spec fn line_extents_fit(a: Point, b: Point) -> bool {
    &&& abs(b.x - a.x) <= i32::MAX
    &&& abs(b.y - a.y) <= i32::MAX
}

/// The error term of Bresenham's algorithm at pixel (x, y) of the line from `a` to `b`.
pub open spec fn error_at(a: Point, b: Point, x: int, y: int) -> int {
    line_dx(a, b) * (1 + steps_y(a, b, y)) + line_dy(a, b) * (1 + steps_x(a, b, x))
}

/// The arithmetic of the step from pixel `p` of the line from `a` to `b` stays within
/// `i32`: the doubled error term, and each update of the error term that the step makes
/// before it either moves on or finds the line's end.
pub open spec fn step_fits(a: Point, b: Point, p: (int, int)) -> bool {
    let dx = line_dx(a, b);
    let dy = line_dy(a, b);
    let e = error_at(a, b, p.0, p.1);
    let moves_x = 2 * e >= dy;
    let e1 = if moves_x {
        e + dy
    } else {
        e
    };
    &&& fits_i32(2 * e)
    &&& (moves_x && p.0 != b.x ==> fits_i32(e + dy))
    &&& (!(moves_x && p.0 == b.x) && 2 * e <= dx && p.1 != b.y ==> fits_i32(e1 + dx))
}

/// Drawing the line from `a` to `b` stays within `i32` arithmetic: its extents fit, and
/// so does the step from each of its pixels.
pub open spec fn line_fits(a: Point, b: Point) -> bool {
    &&& line_extents_fit(a, b)
    &&& forall|k: int|
        0 <= k < line_path(a, b).len() ==> step_fits(a, b, #[trigger] line_path(a, b)[k])
}

/// Scanning the line from `apex` toward the row of `b` stays within `i32` arithmetic in
/// its steps: the step from each pixel that such a scan reads fits. Those are the first
/// pixel and each one that follows a pixel before `b`'s row.
#[verifier::opaque]
pub open spec fn edge_fits(apex: Point, b: Point) -> bool {
    forall|k: int|
        0 <= k < line_path(apex, b).len() && (k == 0 || steps_y(apex, b, line_path(apex, b)[k - 1].1)
            < steps_y(apex, b, b.y as int)) ==> step_fits(apex, b, #[trigger] line_path(apex, b)[k])
}

/// One step of Bresenham's algorithm from pixel (x, y) with error term `e`:
/// `None` where the line ends at (x, y), else the next pixel and error term.
pub open spec fn line_step(a: Point, b: Point, x: int, y: int, e: int) -> Option<(int, int, int)> {
    let dx = line_dx(a, b);
    let dy = line_dy(a, b);
    let moves_x = 2 * e >= dy;
    let moves_y = 2 * e <= dx;
    if (moves_x && x == b.x) || (moves_y && y == b.y) {
        None
    } else {
        Some(
            (
                if moves_x {
                    x + line_sx(a, b)
                } else {
                    x
                },
                if moves_y {
                    y + line_sy(a, b)
                } else {
                    y
                },
                e + (if moves_x {
                    dy
                } else {
                    0
                }) + (if moves_y {
                    dx
                } else {
                    0
                }),
            ),
        )
    }
}

/// The pixels visited from state (x, y, e), for at most `fuel` pixels.
pub open spec fn line_trace(a: Point, b: Point, x: int, y: int, e: int, fuel: nat) -> Seq<
    (int, int),
>
    decreases fuel,
{
    if fuel == 0 {
        Seq::empty()
    } else {
        match line_step(a, b, x, y, e) {
            None => seq![(x, y)],
            Some(s) => seq![(x, y)] + line_trace(a, b, s.0, s.1, s.2, (fuel - 1) as nat),
        }
    }
}

/// The pixels of the line from `a` to `b`, in the order Bresenham's algorithm
/// visits them.
pub open spec fn line_path(a: Point, b: Point) -> Seq<(int, int)> {
    line_trace(
        a,
        b,
        a.x as int,
        a.y as int,
        line_start_error(a, b),
        (line_dx(a, b) - line_dy(a, b) + 1) as nat,
    )
}

/// Horizontal steps taken from `a` to reach column x.
pub open spec fn steps_x(a: Point, b: Point, x: int) -> int {
    if a.x < b.x {
        x - a.x
    } else {
        a.x - x
    }
}

/// Vertical steps taken from `a` to reach row y.
pub open spec fn steps_y(a: Point, b: Point, y: int) -> int {
    if a.y < b.y {
        y - a.y
    } else {
        a.y - y
    }
}

/// Steps left before both coordinates reach `b`.
pub open spec fn steps_left(a: Point, b: Point, x: int, y: int) -> int {
    (line_dx(a, b) - steps_x(a, b, x)) + (-line_dy(a, b) - steps_y(a, b, y))
}

/// (x, y, e) is a state that Bresenham's algorithm reaches from `a`: the pixel lies
/// between `a` and `b`, the error term is the implicit line function, and it is
/// bounded by three halves of the extents.
pub open spec fn on_track(a: Point, b: Point, x: int, y: int, e: int) -> bool {
    let dx = line_dx(a, b);
    let dy = line_dy(a, b);
    let i = steps_x(a, b, x);
    let j = steps_y(a, b, y);
    &&& 0 <= i <= dx
    &&& 0 <= j <= -dy
    &&& e == dx * (1 + j) + dy * (1 + i)
    &&& 3 * dy <= 2 * e <= 3 * dx
    &&& (dx >= -dy ==> 2 * e >= dy)
    &&& (-dy >= dx ==> 2 * e <= dx)
}

pub proof fn lemma_start_on_track(a: Point, b: Point)
    ensures
        on_track(a, b, a.x as int, a.y as int, line_start_error(a, b)),
        steps_left(a, b, a.x as int, a.y as int) == line_dx(a, b) - line_dy(a, b),
{
}

pub proof fn lemma_step_on_track(a: Point, b: Point, x: int, y: int, e: int)
    requires
        on_track(a, b, x, y, e),
        line_step(a, b, x, y, e) is Some,
    ensures
        ({
            let s = line_step(a, b, x, y, e)->0;
            &&& on_track(a, b, s.0, s.1, s.2)
            &&& steps_left(a, b, s.0, s.1) < steps_left(a, b, x, y)
            &&& abs(s.0 - x) <= 1
            &&& abs(s.1 - y) <= 1
            &&& (s.0, s.1) != (x, y)
        }),
{
    let dx = line_dx(a, b);
    let dy = line_dy(a, b);
    let i = steps_x(a, b, x);
    let j = steps_y(a, b, y);
    let mx = 2 * e >= dy;
    let my = 2 * e <= dx;
    let i2 = if mx {
        i + 1
    } else {
        i
    };
    let j2 = if my {
        j + 1
    } else {
        j
    };
    let e2 = e + (if mx {
        dy
    } else {
        0
    }) + (if my {
        dx
    } else {
        0
    });
    if my {
        assert(dx * (1 + (j + 1)) == dx * (1 + j) + dx) by (nonlinear_arith);
    }
    if mx {
        assert(dy * (1 + (i + 1)) == dy * (1 + i) + dy) by (nonlinear_arith);
    }
}

pub proof fn lemma_stop_at_end(a: Point, b: Point, x: int, y: int, e: int)
    requires
        on_track(a, b, x, y, e),
        line_step(a, b, x, y, e) is None,
    ensures
        x == b.x,
        y == b.y,
{
    let dx = line_dx(a, b);
    let dy = line_dy(a, b);
    let i = steps_x(a, b, x);
    let j = steps_y(a, b, y);
    let big_dy = -dy;
    if 2 * e >= dy && x == b.x {
        assert(i == dx);
        if j < big_dy {
            assert(dx * j <= dx * (big_dy - 1)) by (nonlinear_arith)
                requires
                    0 <= dx,
                    j <= big_dy - 1,
            ;
            assert(e == dx + dx * j - big_dy - big_dy * dx) by (nonlinear_arith)
                requires
                    e == dx * (1 + j) + dy * (1 + i),
                    i == dx,
                    big_dy == -dy,
            ;
            assert(dx * (big_dy - 1) == dx * big_dy - dx) by (nonlinear_arith);
            assert(big_dy * dx == dx * big_dy) by (nonlinear_arith);
        }
        assert(j == big_dy);
    } else {
        assert(2 * e <= dx && y == b.y);
        assert(j == big_dy);
        if i < dx {
            assert(big_dy * i <= big_dy * (dx - 1)) by (nonlinear_arith)
                requires
                    0 <= big_dy,
                    i <= dx - 1,
            ;
            assert(e == dx + dx * big_dy - big_dy - big_dy * i) by (nonlinear_arith)
                requires
                    e == dx * (1 + j) + dy * (1 + i),
                    j == big_dy,
                    big_dy == -dy,
            ;
            assert(big_dy * (dx - 1) == big_dy * dx - big_dy) by (nonlinear_arith);
            assert(big_dy * dx == dx * big_dy) by (nonlinear_arith);
        }
        assert(i == dx);
    }
}

pub proof fn lemma_end_stops(a: Point, b: Point, x: int, y: int, e: int)
    requires
        on_track(a, b, x, y, e),
        x == b.x,
        y == b.y,
    ensures
        line_step(a, b, x, y, e) is None,
{
}

/// With enough fuel, the trace does not depend on how much fuel is given.
pub proof fn lemma_trace_fuel(a: Point, b: Point, x: int, y: int, e: int, f1: nat, f2: nat)
    requires
        on_track(a, b, x, y, e),
        f1 > steps_left(a, b, x, y),
        f2 > steps_left(a, b, x, y),
    ensures
        line_trace(a, b, x, y, e, f1) == line_trace(a, b, x, y, e, f2),
    decreases f1,
{
    match line_step(a, b, x, y, e) {
        None => {},
        Some(s) => {
            lemma_step_on_track(a, b, x, y, e);
            lemma_trace_fuel(a, b, s.0, s.1, s.2, (f1 - 1) as nat, (f2 - 1) as nat);
        },
    }
}

/// The shape of a trace from a reachable state: it starts at (x, y), ends at `b`,
/// moves by one pixel (in each coordinate) per step without standing still,
/// and stays between the current pixel and `b`.
pub proof fn lemma_trace_shape(a: Point, b: Point, x: int, y: int, e: int, fuel: nat)
    requires
        on_track(a, b, x, y, e),
        fuel > steps_left(a, b, x, y),
    ensures
        ({
            let t = line_trace(a, b, x, y, e, fuel);
            &&& t.len() >= 1
            &&& t[0] == (x, y)
            &&& t.last() == (b.x as int, b.y as int)
            &&& forall|k: int|
                0 <= k < t.len() - 1 ==> {
                    &&& abs(#[trigger] t[k + 1].0 - t[k].0) <= 1
                    &&& abs(t[k + 1].1 - t[k].1) <= 1
                    &&& t[k + 1] != t[k]
                }
            &&& forall|k: int|
                0 <= k < t.len() ==> {
                    &&& steps_x(a, b, x) <= steps_x(a, b, #[trigger] t[k].0) <= line_dx(a, b)
                    &&& steps_y(a, b, y) <= steps_y(a, b, t[k].1) <= -line_dy(a, b)
                }
            &&& forall|j1: int, j2: int|
                0 <= j1 <= j2 < t.len() ==> {
                    &&& steps_x(a, b, #[trigger] t[j1].0) <= steps_x(a, b, #[trigger] t[j2].0)
                    &&& steps_y(a, b, t[j1].1) <= steps_y(a, b, t[j2].1)
                }
        }),
    decreases fuel,
{
    let t = line_trace(a, b, x, y, e, fuel);
    match line_step(a, b, x, y, e) {
        None => {
            lemma_stop_at_end(a, b, x, y, e);
            assert(t =~= seq![(x, y)]);
        },
        Some(s) => {
            lemma_step_on_track(a, b, x, y, e);
            let rest = line_trace(a, b, s.0, s.1, s.2, (fuel - 1) as nat);
            lemma_trace_shape(a, b, s.0, s.1, s.2, (fuel - 1) as nat);
            assert(t =~= seq![(x, y)] + rest);
            assert forall|k: int| 0 <= k < t.len() - 1 implies {
                &&& abs(#[trigger] t[k + 1].0 - t[k].0) <= 1
                &&& abs(t[k + 1].1 - t[k].1) <= 1
                &&& t[k + 1] != t[k]
            } by {
                if k > 0 {
                    let kk = k - 1;
                    assert(t[k] == rest[kk]);
                    assert(t[k + 1] == rest[kk + 1]);
                    assert(abs(rest[kk + 1].0 - rest[kk].0) <= 1);
                } else {
                    assert(t[1] == rest[0]);
                }
            }
            assert forall|k: int| 0 <= k < t.len() implies {
                &&& steps_x(a, b, x) <= steps_x(a, b, #[trigger] t[k].0) <= line_dx(a, b)
                &&& steps_y(a, b, y) <= steps_y(a, b, t[k].1) <= -line_dy(a, b)
            } by {
                if k > 0 {
                    assert(t[k] == rest[k - 1]);
                }
            }
            assert forall|j1: int, j2: int| 0 <= j1 <= j2 < t.len() implies {
                &&& steps_x(a, b, #[trigger] t[j1].0) <= steps_x(a, b, #[trigger] t[j2].0)
                &&& steps_y(a, b, t[j1].1) <= steps_y(a, b, t[j2].1)
            } by {
                if j2 > 0 {
                    assert(t[j2] == rest[j2 - 1]);
                    if j1 > 0 {
                        assert(t[j1] == rest[j1 - 1]);
                        assert(steps_x(a, b, rest[j1 - 1].0) <= steps_x(a, b, rest[j2 - 1].0));
                    } else {
                        assert(steps_x(a, b, rest[0].0) <= steps_x(a, b, rest[j2 - 1].0));
                    }
                }
            }
        },
    }
}

/// The line from `a` to `b` starts at `a`, ends at `b`, moves by at most one pixel in
/// each coordinate per step and never stands still, and every pixel lies in the
/// bounding box of `a` and `b`.
pub proof fn lemma_line_path_shape(a: Point, b: Point)
    ensures
        ({
            let p = line_path(a, b);
            &&& p.len() >= 1
            &&& p[0] == (a.x as int, a.y as int)
            &&& p.last() == (b.x as int, b.y as int)
            &&& forall|k: int|
                0 <= k < p.len() - 1 ==> {
                    &&& abs(#[trigger] p[k + 1].0 - p[k].0) <= 1
                    &&& abs(p[k + 1].1 - p[k].1) <= 1
                    &&& p[k + 1] != p[k]
                }
            &&& forall|k: int|
                0 <= k < p.len() ==> {
                    &&& (a.x <= (#[trigger] p[k]).0 <= b.x || b.x <= p[k].0 <= a.x)
                    &&& (a.y <= p[k].1 <= b.y || b.y <= p[k].1 <= a.y)
                }
            &&& forall|j1: int, j2: int|
                #![trigger p[j1], p[j2]]
                0 <= j1 <= j2 < p.len() ==> {
                    &&& steps_x(a, b, p[j1].0) <= steps_x(a, b, p[j2].0)
                    &&& steps_y(a, b, p[j1].1) <= steps_y(a, b, p[j2].1)
                }
        }),
{
    lemma_start_on_track(a, b);
    let p = line_path(a, b);
    lemma_trace_shape(
        a,
        b,
        a.x as int,
        a.y as int,
        line_start_error(a, b),
        (line_dx(a, b) - line_dy(a, b) + 1) as nat,
    );
    assert forall|k: int| 0 <= k < p.len() implies {
        &&& (a.x <= (#[trigger] p[k]).0 <= b.x || b.x <= p[k].0 <= a.x)
        &&& (a.y <= p[k].1 <= b.y || b.y <= p[k].1 <= a.y)
    } by {
        assert(0 <= steps_x(a, b, p[k].0) <= line_dx(a, b));
        assert(0 <= steps_y(a, b, p[k].1) <= -line_dy(a, b));
    }
}

/// From a reachable state, a line that is at least as wide as it is tall moves one
/// column per pixel, and one at least as tall as it is wide moves one row per pixel,
/// so the trace holds one pixel per column (row) still to go.
pub proof fn lemma_trace_len(a: Point, b: Point, x: int, y: int, e: int, fuel: nat)
    requires
        on_track(a, b, x, y, e),
        fuel > steps_left(a, b, x, y),
    ensures
        line_dx(a, b) >= -line_dy(a, b) ==> line_trace(a, b, x, y, e, fuel).len() == line_dx(a, b)
            - steps_x(a, b, x) + 1,
        -line_dy(a, b) >= line_dx(a, b) ==> line_trace(a, b, x, y, e, fuel).len() == -line_dy(a, b)
            - steps_y(a, b, y) + 1,
    decreases fuel,
{
    match line_step(a, b, x, y, e) {
        None => {
            lemma_stop_at_end(a, b, x, y, e);
        },
        Some(s) => {
            lemma_step_on_track(a, b, x, y, e);
            lemma_trace_len(a, b, s.0, s.1, s.2, (fuel - 1) as nat);
        },
    }
}

/// The line from `a` to `b` has one pixel more than the larger of its extents.
pub proof fn lemma_line_path_len(a: Point, b: Point)
    ensures
        line_path(a, b).len() == (if line_dx(a, b) >= -line_dy(a, b) {
            line_dx(a, b)
        } else {
            -line_dy(a, b)
        }) + 1,
{
    lemma_start_on_track(a, b);
    lemma_trace_len(
        a,
        b,
        a.x as int,
        a.y as int,
        line_start_error(a, b),
        (line_dx(a, b) - line_dy(a, b) + 1) as nat,
    );
}

/// Every pixel of a trace from a reachable state is reached with the error term that
/// `error_at` gives it.
proof fn lemma_trace_on_track(a: Point, b: Point, x: int, y: int, e: int, fuel: nat)
    requires
        on_track(a, b, x, y, e),
    ensures
        forall|k: int|
            0 <= k < line_trace(a, b, x, y, e, fuel).len() ==> {
                let p = #[trigger] line_trace(a, b, x, y, e, fuel)[k];
                on_track(a, b, p.0, p.1, error_at(a, b, p.0, p.1))
            },
    decreases fuel,
{
    if fuel > 0 {
        match line_step(a, b, x, y, e) {
            None => {},
            Some(s) => {
                lemma_step_on_track(a, b, x, y, e);
                lemma_trace_on_track(a, b, s.0, s.1, s.2, (fuel - 1) as nat);
                let t = line_trace(a, b, x, y, e, fuel);
                let rest = line_trace(a, b, s.0, s.1, s.2, (fuel - 1) as nat);
                assert(t == seq![(x, y)] + rest);
                assert forall|k: int| 0 <= k < t.len() implies {
                    let p = #[trigger] t[k];
                    on_track(a, b, p.0, p.1, error_at(a, b, p.0, p.1))
                } by {
                    if k > 0 {
                        assert(t[k] == rest[k - 1]);
                    }
                }
            },
        }
    }
}

/// A line whose extents are each at most a third of `i32::MAX` fits, and so does every
/// scan along it: the doubled error term stays within three times an extent.
pub proof fn lemma_short_line_fits(a: Point, b: Point)
    requires
        3 * abs(b.x - a.x) <= i32::MAX,
        3 * abs(b.y - a.y) <= i32::MAX,
    ensures
        line_fits(a, b),
        edge_fits(a, b),
{
    lemma_start_on_track(a, b);
    lemma_trace_on_track(
        a,
        b,
        a.x as int,
        a.y as int,
        line_start_error(a, b),
        (line_dx(a, b) - line_dy(a, b) + 1) as nat,
    );
    let path = line_path(a, b);
    assert forall|k: int| 0 <= k < path.len() implies step_fits(a, b, #[trigger] path[k]) by {
        let p = path[k];
        assert(on_track(a, b, p.0, p.1, error_at(a, b, p.0, p.1)));
    }
    reveal(edge_fits);
}

/// A horizontal line fits when twice its length fits, a vertical one when twice its
/// negated length does: the error term stays at the one extent that is not zero.
pub proof fn lemma_axis_line_fits(a: Point, b: Point)
    requires
        (a.y == b.y && 2 * abs(b.x - a.x) <= i32::MAX) || (a.x == b.x && 2 * abs(b.y - a.y)
            <= -i32::MIN),
    ensures
        line_fits(a, b),
        edge_fits(a, b),
{
    lemma_line_path_shape(a, b);
    let path = line_path(a, b);
    assert forall|k: int| 0 <= k < path.len() implies step_fits(a, b, #[trigger] path[k]) by {
        let p = path[k];
        let i = steps_x(a, b, p.0);
        let j = steps_y(a, b, p.1);
        if a.y == b.y {
            assert(p.1 == a.y);
            assert(line_dy(a, b) * (1 + i) == 0) by (nonlinear_arith)
                requires
                    line_dy(a, b) == 0,
            ;
            assert(j == 0);
            assert(line_dx(a, b) * (1 + j) == line_dx(a, b)) by (nonlinear_arith)
                requires
                    j == 0,
            ;
            assert(error_at(a, b, p.0, p.1) == line_dx(a, b));
        } else {
            assert(p.0 == a.x);
            assert(line_dx(a, b) * (1 + j) == 0) by (nonlinear_arith)
                requires
                    line_dx(a, b) == 0,
            ;
            assert(i == 0);
            assert(line_dy(a, b) * (1 + i) == line_dy(a, b)) by (nonlinear_arith)
                requires
                    i == 0,
            ;
            assert(error_at(a, b, p.0, p.1) == line_dy(a, b));
        }
    }
    reveal(edge_fits);
}

/// How far pixel (x, y) lies off the ideal line from `a` to `b`, times the line's
/// width and height: for a line at least as wide as tall it is the line's width times
/// the rows between the pixel and the ideal line in the pixel's column; for one at
/// least as tall as wide, its height times the columns between them in the pixel's row.
pub open spec fn line_offset(a: Point, b: Point, x: int, y: int) -> int {
    line_dx(a, b) * steps_y(a, b, y) + line_dy(a, b) * steps_x(a, b, x)
}

/// A pixel within half a pixel of the ideal line along the line's shorter extent.
pub open spec fn near_line(a: Point, b: Point, x: int, y: int) -> bool {
    let m = if line_dx(a, b) >= -line_dy(a, b) {
        line_dx(a, b)
    } else {
        -line_dy(a, b)
    };
    -m <= 2 * line_offset(a, b, x, y) <= m
}

proof fn lemma_offset_error(a: Point, b: Point, x: int, y: int, e: int)
    requires
        on_track(a, b, x, y, e),
    ensures
        line_offset(a, b, x, y) == e - line_dx(a, b) - line_dy(a, b),
{
    let dx = line_dx(a, b);
    let dy = line_dy(a, b);
    let i = steps_x(a, b, x);
    let j = steps_y(a, b, y);
    assert(dx * (1 + j) + dy * (1 + i) == dx + dy + dx * j + dy * i) by (nonlinear_arith);
}

/// Every pixel of a trace from a reachable state near the line is near the line.
proof fn lemma_trace_near(a: Point, b: Point, x: int, y: int, e: int, fuel: nat)
    requires
        on_track(a, b, x, y, e),
        near_line(a, b, x, y),
    ensures
        forall|k: int|
            0 <= k < line_trace(a, b, x, y, e, fuel).len() ==> {
                let p = #[trigger] line_trace(a, b, x, y, e, fuel)[k];
                near_line(a, b, p.0, p.1)
            },
    decreases fuel,
{
    if fuel > 0 {
        match line_step(a, b, x, y, e) {
            None => {},
            Some(s) => {
                lemma_step_on_track(a, b, x, y, e);
                lemma_offset_error(a, b, x, y, e);
                lemma_offset_error(a, b, s.0, s.1, s.2);
                lemma_trace_near(a, b, s.0, s.1, s.2, (fuel - 1) as nat);
                let t = line_trace(a, b, x, y, e, fuel);
                let rest = line_trace(a, b, s.0, s.1, s.2, (fuel - 1) as nat);
                assert(t == seq![(x, y)] + rest);
                assert forall|k: int| 0 <= k < t.len() implies {
                    let p = #[trigger] t[k];
                    near_line(a, b, p.0, p.1)
                } by {
                    if k > 0 {
                        assert(t[k] == rest[k - 1]);
                    }
                }
            },
        }
    }
}

/// Bresenham's algorithm draws the pixels nearest the ideal line: every pixel of the
/// line lies within half a pixel of it along the shorter extent, within half a row for
/// a line at least as wide as tall, within half a column for one at least as tall as
/// wide.
pub proof fn lemma_line_pixels_nearest(a: Point, b: Point)
    ensures
        forall|k: int|
            0 <= k < line_path(a, b).len() ==> {
                let p = #[trigger] line_path(a, b)[k];
                near_line(a, b, p.0, p.1)
            },
{
    lemma_start_on_track(a, b);
    lemma_offset_error(a, b, a.x as int, a.y as int, line_start_error(a, b));
    lemma_trace_near(
        a,
        b,
        a.x as int,
        a.y as int,
        line_start_error(a, b),
        (line_dx(a, b) - line_dy(a, b) + 1) as nat,
    );
}

/// An iterator over the pixels of the line from `a` to `b` (Bresenham's algorithm).
/// A line whose ends coincide yields no pixel.
pub struct LineIter {
    pub a: Point,
    pub b: Point,
    dx: i32,
    dy: i32,
    sx: i32,
    sy: i32,
    error: i32,
    x: i32,
    y: i32,
    prev_x: i32,
    prev_y: i32,
}

impl LineIter {
    pub closed spec fn wf(&self) -> bool {
        &&& line_extents_fit(self.a, self.b)
        &&& self.dx == line_dx(self.a, self.b)
        &&& self.dy == line_dy(self.a, self.b)
        &&& self.sx == line_sx(self.a, self.b)
        &&& self.sy == line_sy(self.a, self.b)
        &&& on_track(self.a, self.b, self.x as int, self.y as int, self.error as int)
    }

    /// The line's first end.
    pub closed spec fn start(&self) -> Point {
        self.a
    }

    /// The line's last end.
    pub closed spec fn end(&self) -> Point {
        self.b
    }

    /// The pixels that the iterator has yet to yield, in order.
    pub closed spec fn remaining(&self) -> Seq<(int, int)> {
        if self.prev_x == self.b.x && self.prev_y == self.b.y {
            Seq::empty()
        } else {
            line_trace(
                self.a,
                self.b,
                self.x as int,
                self.y as int,
                self.error as int,
                (steps_left(self.a, self.b, self.x as int, self.y as int) + 1) as nat,
            )
        }
    }

    pub fn new(a: Point, b: Point) -> (it: Self)
        requires
            line_extents_fit(a, b),
        ensures
            it.wf(),
            it.start() == a,
            it.end() == b,
            it.remaining() == (if a.x == b.x && a.y == b.y {
                Seq::<(int, int)>::empty()
            } else {
                line_path(a, b)
            }),
    {
        let ddx = b.x - a.x;
        let dx = if ddx < 0 {
            -ddx
        } else {
            ddx
        };
        let sx = match a.x < b.x {
            true => 1,
            false => -1,
        };
        let ddy = b.y - a.y;
        let dy = if ddy < 0 {
            ddy
        } else {
            -ddy
        };
        let sy = match a.y < b.y {
            true => 1,
            false => -1,
        };
        proof {
            lemma_start_on_track(a, b);
        }
        LineIter {
            a,
            b,
            dx,
            dy,
            sx,
            sy,
            error: dx + dy,
            x: a.x,
            y: a.y,
            prev_x: a.x,
            prev_y: a.y,
        }
    }

    /// Yields the next pixel of the line, or `None` once the line is exhausted. The
    /// arithmetic of the step from the pixel yielded must fit in an `i32`.
    pub fn next(&mut self) -> (r: Option<Point>)
        requires
            old(self).wf(),
            old(self).remaining().len() > 0 ==> step_fits(
                old(self).start(),
                old(self).end(),
                old(self).remaining()[0],
            ),
        ensures
            final(self).wf(),
            final(self).start() == old(self).start(),
            final(self).end() == old(self).end(),
            match r {
                None => old(self).remaining().len() == 0 && final(self).remaining() == old(
                    self,
                ).remaining(),
                Some(p) => old(self).remaining().len() > 0 && (p.x as int, p.y as int) == old(
                    self,
                ).remaining()[0] && final(self).remaining() == old(self).remaining().drop_first(),
            },
    {
        if self.prev_x == self.b.x && self.prev_y == self.b.y {
            return None;
        }
        let ghost a = self.a;
        let ghost b = self.b;
        let ghost x0 = self.x as int;
        let ghost y0 = self.y as int;
        let ghost e0 = self.error as int;
        let ghost fuel = (steps_left(a, b, x0, y0) + 1) as nat;
        assert(old(self).remaining() == line_trace(a, b, x0, y0, e0, fuel));
        assert(old(self).remaining()[0] == (x0, y0));
        assert(e0 == error_at(a, b, x0, y0));
        let last_point = Point { x: self.x, y: self.y };
        self.prev_x = last_point.x;
        self.prev_y = last_point.y;
        let e2 = 2 * self.error;
        if e2 >= self.dy {
            if self.x == self.b.x {
                proof {
                    lemma_stop_at_end(a, b, x0, y0, e0);
                }
                assert(old(self).remaining() =~= seq![(x0, y0)]);
                return Some(last_point);
            }
            self.error = self.error + self.dy;
            self.x = self.x + self.sx;
        }
        if e2 <= self.dx {
            if self.y == self.b.y {
                proof {
                    lemma_stop_at_end(a, b, x0, y0, e0);
                }
                assert(old(self).remaining() =~= seq![(x0, y0)]);
                return Some(last_point);
            }
            self.error = self.error + self.dx;
            self.y = self.y + self.sy;
        }
        proof {
            lemma_step_on_track(a, b, x0, y0, e0);
            let s = line_step(a, b, x0, y0, e0)->0;
            assert(s == (self.x as int, self.y as int, self.error as int));
            if x0 == b.x && y0 == b.y {
                lemma_end_stops(a, b, x0, y0, e0);
            }
            lemma_trace_fuel(
                a,
                b,
                s.0,
                s.1,
                s.2,
                (fuel - 1) as nat,
                (steps_left(a, b, s.0, s.1) + 1) as nat,
            );
            assert(old(self).remaining() == seq![(x0, y0)] + line_trace(
                a,
                b,
                s.0,
                s.1,
                s.2,
                (fuel - 1) as nat,
            ));
            assert(self.remaining() =~= old(self).remaining().drop_first());
        }
        Some(last_point)
    }
}

} // verus!
