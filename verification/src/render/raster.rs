use vstd::prelude::*;

use vstd::arithmetic::div_mod::{lemma_fundamental_div_mod, lemma_mod_bound};

use crate::render::graphics::Point;
use crate::render::line::{
    abs, edge_fits, fits_i32, lemma_line_path_shape, line_extents_fit, line_path, step_fits,
    steps_y,
};

verus! {

pub open spec fn min(a: int, b: int) -> int {
    if a <= b {
        a
    } else {
        b
    }
}

pub open spec fn max(a: int, b: int) -> int {
    if a >= b {
        a
    } else {
        b
    }
}

/// The smallest interval holding two optional intervals.
pub open spec fn join(e: Option<(int, int)>, f: Option<(int, int)>) -> Option<(int, int)> {
    match e {
        None => f,
        Some(a) => match f {
            None => e,
            Some(b) => Some((min(a.0, b.0), max(a.1, b.1))),
        },
    }
}

/// Column `x` lies in the interval `e`.
pub open spec fn in_extent(e: Option<(int, int)>, x: int) -> bool {
    match e {
        Some(s) => s.0 <= x <= s.1,
        None => false,
    }
}

/// The leftmost and rightmost columns of the points of `p` on row `r`, if any.
pub open spec fn row_extent(p: Seq<(int, int)>, r: int) -> Option<(int, int)>
    decreases p.len(),
{
    if p.len() == 0 {
        None
    } else {
        let e = row_extent(p.drop_last(), r);
        if p.last().1 == r {
            join(e, Some((p.last().0, p.last().0)))
        } else {
            e
        }
    }
}

/// The pixels of row `y` from column `x0` to column `x1`, in either order.
pub open spec fn hspan(x0: int, x1: int, y: int) -> Set<(int, int)> {
    Set::new(|p: (int, int)| p.1 == y && min(x0, x1) <= p.0 <= max(x0, x1))
}

/// The extent on row `r` of the two edges from `apex` to `b1` and to `b2`.
pub open spec fn edge_span(apex: Point, b1: Point, b2: Point, r: int) -> Option<(int, int)> {
    join(row_extent(line_path(apex, b1), r), row_extent(line_path(apex, b2), r))
}

/// The rows from the apex's up to (not including) row `y`, each spanning the
/// extent of the two edges on that row.
pub open spec fn rows_before(apex: Point, b1: Point, b2: Point, y: int) -> Set<(int, int)> {
    Set::new(
        |p: (int, int)|
            0 <= steps_y(apex, b1, p.1) < steps_y(apex, b1, y) && in_extent(
                edge_span(apex, b1, b2, p.1),
                p.0,
            ),
    )
}

/// The pixels that the scan-line fill of a triangle with a flat side paints: the rows
/// from the apex's toward the flat side each span the extent of the two edges on that
/// row, and the flat side's row spans from `b1` to `b2`.
pub open spec fn flat_region(apex: Point, b1: Point, b2: Point) -> Set<(int, int)> {
    rows_before(apex, b1, b2, b1.y as int).union(hspan(b1.x as int, b2.x as int, b1.y as int))
}

/// What a scan-line fill of a flat-sided triangle paints when it scans toward the flat
/// side with rows increasing (`downward`) or decreasing: the whole triangle if the apex
/// lies on the side the scan starts from, else only the flat side's row.
pub open spec fn flat_fill(apex: Point, b1: Point, b2: Point, downward: bool) -> Set<(int, int)> {
    if (downward && apex.y < b1.y) || (!downward && apex.y > b1.y) {
        flat_region(apex, b1, b2)
    } else {
        hspan(b1.x as int, b2.x as int, b1.y as int)
    }
}

pub proof fn lemma_join_assoc(a: Option<(int, int)>, b: Option<(int, int)>, c: Option<(int, int)>)
    ensures
        join(join(a, b), c) == join(a, join(b, c)),
        join(a, b) == join(b, a),
        join(a, None) == a,
{
}

/// Appending a point changes the extent of row `r` only if the point lies on it.
pub proof fn lemma_row_extent_push(p: Seq<(int, int)>, q: (int, int), r: int)
    ensures
        row_extent(p.push(q), r) == (if q.1 == r {
            join(row_extent(p, r), Some((q.0, q.0)))
        } else {
            row_extent(p, r)
        }),
{
    assert(p.push(q).drop_last() =~= p);
}

/// The extent of a row over a concatenation joins the extents over the parts.
pub proof fn lemma_row_extent_concat(p: Seq<(int, int)>, q: Seq<(int, int)>, r: int)
    ensures
        row_extent(p + q, r) == join(row_extent(p, r), row_extent(q, r)),
    decreases q.len(),
{
    if q.len() == 0 {
        assert(p + q =~= p);
    } else {
        lemma_row_extent_concat(p, q.drop_last(), r);
        assert((p + q).drop_last() =~= p + q.drop_last());
        assert((p + q).last() == q.last());
        lemma_join_assoc(row_extent(p, r), row_extent(q.drop_last(), r), Some((q.last().0, q.last().0)));
    }
}

/// A point on row `r` lies within the row's extent.
pub proof fn lemma_row_extent_contains(p: Seq<(int, int)>, j: int, r: int)
    requires
        0 <= j < p.len(),
        p[j].1 == r,
    ensures
        in_extent(row_extent(p, r), p[j].0),
    decreases p.len(),
{
    if j < p.len() - 1 {
        lemma_row_extent_contains(p.drop_last(), j, r);
    }
}

/// Points after index `k` that lie off row `r` do not change its extent.
pub proof fn lemma_row_extent_prefix(p: Seq<(int, int)>, k: int, r: int)
    requires
        0 <= k <= p.len(),
        forall|j: int| k <= j < p.len() ==> #[trigger] p[j].1 != r,
    ensures
        row_extent(p, r) == row_extent(p.take(k), r),
    decreases p.len(),
{
    if k == p.len() {
        assert(p.take(k) =~= p);
    } else {
        lemma_row_extent_prefix(p.drop_last(), k, r);
        assert(p.drop_last().take(k) =~= p.take(k));
    }
}

/// An interval absorbs a point that it already holds.
pub proof fn lemma_join_absorb(x: int, e: Option<(int, int)>)
    requires
        in_extent(e, x),
    ensures
        join(Some((x, x)), e) == e,
{
}

/// What one scan of row `r` along an edge from `apex` to `b` establishes. Before the
/// scan, `k` pixels of the edge had been read, the last of them (or the apex, if none)
/// being `p` on row `r`, and all earlier ones on rows before `r`. The scan then read
/// `n` more, all on row `r` but the last, `q`. Then `q` lies on the next row, every
/// pixel after it lies beyond row `r`, and the edge's extent on row `r` is that of `p`
/// joined with that of the scanned pixels.
pub proof fn lemma_edge_scan(apex: Point, b: Point, r: int, k: int, n: int, p: Point, q: Point)
    requires
        apex.y != b.y,
        0 <= steps_y(apex, b, r) < steps_y(apex, b, b.y as int),
        0 <= k <= line_path(apex, b).len(),
        (k == 0 && p == apex) || (1 <= k && (p.x as int, p.y as int) == line_path(apex, b)[k - 1]),
        p.y == r,
        forall|j: int|
            0 <= j < k - 1 ==> steps_y(apex, b, #[trigger] line_path(apex, b)[j].1) < steps_y(
                apex,
                b,
                r,
            ),
        1 <= n <= line_path(apex, b).skip(k).len(),
        line_path(apex, b).skip(k)[n - 1] == (q.x as int, q.y as int),
        q.y != r,
        forall|j: int| 0 <= j < n - 1 ==> #[trigger] line_path(apex, b).skip(k)[j].1 == r,
    ensures
        steps_y(apex, b, q.y as int) == steps_y(apex, b, r) + 1,
        (q.x as int, q.y as int) == line_path(apex, b)[k + n - 1],
        forall|j: int|
            0 <= j < k + n - 1 ==> steps_y(apex, b, #[trigger] line_path(apex, b)[j].1) < steps_y(
                apex,
                b,
                q.y as int,
            ),
        join(Some((p.x as int, p.x as int)), row_extent(line_path(apex, b).skip(k).take(n), r))
            == join(Some((p.x as int, p.x as int)), row_extent(line_path(apex, b), r)),
        in_extent(row_extent(line_path(apex, b), r), p.x as int),
{
    let path = line_path(apex, b);
    let rem = path.skip(k);
    lemma_line_path_shape(apex, b);
    assert(forall|j: int| 0 <= j < rem.len() ==> #[trigger] rem[j] == path[k + j]);
    assert(path[0] == (apex.x as int, apex.y as int));
    let k1 = k + n;
    // the pixel before q lies on row r
    if n == 1 && k == 0 {
        assert(rem[0] == path[0]);
        assert(false);
    }
    if n >= 2 {
        assert(rem[n - 2].1 == r);
        assert(path[k1 - 2] == rem[n - 2]);
    } else {
        assert(path[k1 - 2] == path[k - 1]);
    }
    assert(path[k1 - 2].1 == r);
    assert(path[k1 - 1] == rem[n - 1]);
    assert(steps_y(apex, b, path[k1 - 2].1) <= steps_y(apex, b, path[k1 - 1].1));
    assert(abs(path[(k1 - 2) + 1].1 - path[k1 - 2].1) <= 1);
    // every later pixel lies beyond row r
    assert forall|j: int| k1 <= j < path.len() implies #[trigger] path[j].1 != r by {
        assert(steps_y(apex, b, path[k1 - 1].1) <= steps_y(apex, b, path[j].1));
    }
    lemma_row_extent_prefix(path, k1, r);
    assert(path.take(k1) =~= path.take(k) + rem.take(n));
    lemma_row_extent_concat(path.take(k), rem.take(n), r);
    // the pixels before p lie before row r
    if k >= 1 {
        let before = path.take(k - 1);
        assert forall|j: int| 0 <= j < before.len() implies #[trigger] before[j].1 != r by {
            assert(before[j] == path[j]);
        }
        lemma_row_extent_prefix(before, 0, r);
        assert(before.take(0) =~= Seq::<(int, int)>::empty());
        assert(path.take(k) =~= before.push(path[k - 1]));
        lemma_row_extent_push(before, path[k - 1], r);
        lemma_row_extent_contains(path, k - 1, r);
        lemma_join_assoc(
            Some((p.x as int, p.x as int)),
            Some((p.x as int, p.x as int)),
            row_extent(rem.take(n), r),
        );
    } else {
        assert(path.take(0) =~= Seq::<(int, int)>::empty());
        lemma_row_extent_contains(path, 0, r);
    }
    assert forall|j: int| 0 <= j < k1 - 1 implies steps_y(apex, b, #[trigger] path[j].1) < steps_y(
        apex,
        b,
        q.y as int,
    ) by {
        if j >= k {
            assert(path[j] == rem[j - k]);
        } else if j == k - 1 {
        }
    }
}

/// The step from each pixel of `rem` (pixels of the line from `a` to `b`) that a scan of
/// row `r` reads fits: the first pixel, and each one that follows a pixel on row `r`.
#[verifier::opaque]
pub open spec fn scan_fits(a: Point, b: Point, rem: Seq<(int, int)>, r: int) -> bool {
    forall|j: int|
        0 <= j < rem.len() && (j == 0 || rem[j - 1].1 == r) ==> step_fits(a, b, #[trigger] rem[j])
}

/// During a scan of the edge from `apex` toward the row of `b`, a scan of row `r`
/// before `b`'s row starts after `k` pixels were read, the last of them (or the apex, if
/// none) being `p` on row `r`. If the edge fits, the step from each pixel that this scan
/// reads fits.
pub proof fn lemma_scan_steps_fit(apex: Point, b: Point, k: int, r: int, p: Point)
    requires
        edge_fits(apex, b),
        0 <= k <= line_path(apex, b).len(),
        (k == 0 && p == apex) || (1 <= k && (p.x as int, p.y as int) == line_path(apex, b)[k - 1]),
        p.y == r,
        steps_y(apex, b, r) < steps_y(apex, b, b.y as int),
    ensures
        scan_fits(apex, b, line_path(apex, b).skip(k), r),
{
    reveal(edge_fits);
    reveal(scan_fits);
    let path = line_path(apex, b);
    let rem = path.skip(k);
    assert forall|j: int| 0 <= j < rem.len() && (j == 0 || rem[j - 1].1 == r) implies step_fits(
        apex,
        b,
        #[trigger] rem[j],
    ) by {
        assert(rem[j] == path[k + j]);
        if j > 0 {
            assert(rem[j - 1] == path[k + j - 1]);
        }
    }
}

/// Point `p`, at position `i` of a list, comes before point `q`, at position `j`, when
/// sorting by row and keeping list order within a row.
pub open spec fn sorts_before(p: Point, i: int, q: Point, j: int) -> bool {
    p.y < q.y || (p.y == q.y && i < j)
}

/// The three points ordered by row; points on one row keep their order.
pub open spec fn sort_by_row(v0: Point, v1: Point, v2: Point) -> (Point, Point, Point) {
    if sorts_before(v0, 0, v1, 1) {
        if sorts_before(v1, 1, v2, 2) {
            (v0, v1, v2)
        } else if sorts_before(v0, 0, v2, 2) {
            (v0, v2, v1)
        } else {
            (v2, v0, v1)
        }
    } else {
        if sorts_before(v0, 0, v2, 2) {
            (v1, v0, v2)
        } else if sorts_before(v1, 1, v2, 2) {
            (v1, v2, v0)
        } else {
            (v2, v1, v0)
        }
    }
}

/// Division rounded toward zero, for a positive divisor.
pub open spec fn trunc_div(a: int, d: int) -> int {
    if a >= 0 {
        a / d
    } else {
        -((-a) / d)
    }
}

/// The column where the row of the middle vertex `s1` meets the edge from `s0` to
/// `s2`, rounded toward `s0`'s column.
pub open spec fn split_x(s0: Point, s1: Point, s2: Point) -> int {
    s0.x + trunc_div((s2.x - s0.x) * (s1.y - s0.y), s2.y - s0.y)
}

/// The point where the middle vertex's row cuts the long edge of a triangle.
pub open spec fn split_point(s0: Point, s1: Point, s2: Point) -> Point {
    Point { x: split_x(s0, s1, s2) as i32, y: s1.y }
}

/// The split point lies on the long edge from the top vertex `s0` to the bottom vertex
/// `s2`, on the middle vertex's row: its column differs by less than one from the column
/// where that row meets the edge, s0.x + (s2.x − s0.x)·(s1.y − s0.y)/(s2.y − s0.y), and
/// lies between that column and s0's, so between the columns of `s0` and `s2`.
pub proof fn lemma_split_point_on_long_edge(s0: Point, s1: Point, s2: Point)
    requires
        s0.y < s1.y < s2.y,
    ensures
        ({
            let d = s2.y - s0.y;
            let num = (s2.x - s0.x) * (s1.y - s0.y);
            let v4 = split_point(s0, s1, s2);
            let q = v4.x - s0.x;
            &&& v4.y == s1.y
            &&& -d < num - d * q < d
            &&& (num >= 0 ==> 0 <= d * q <= num)
            &&& (num <= 0 ==> num <= d * q <= 0)
            &&& min(s0.x as int, s2.x as int) <= v4.x <= max(s0.x as int, s2.x as int)
        }),
{
    let d = s2.y - s0.y;
    let dx = s2.x - s0.x;
    let dy = s1.y - s0.y;
    let num = dx * dy;
    let t = trunc_div(num, d);
    if num >= 0 {
        lemma_fundamental_div_mod(num, d);
        lemma_mod_bound(num, d);
        assert(t == num / d);
        assert(0 <= dx) by (nonlinear_arith)
            requires
                num == dx * dy,
                0 <= num,
                0 < dy,
        ;
        assert(num / d <= dx) by (nonlinear_arith)
            requires
                num == dx * dy,
                0 <= dx,
                0 < dy < d,
        ;
        assert(0 <= num / d) by (nonlinear_arith)
            requires
                0 <= num,
                0 < d,
        ;
    } else {
        lemma_fundamental_div_mod(-num, d);
        lemma_mod_bound(-num, d);
        assert(t == -((-num) / d));
        assert(dx < 0) by (nonlinear_arith)
            requires
                num == dx * dy,
                num < 0,
                0 < dy,
        ;
        assert(-num == (-dx) * dy) by (nonlinear_arith)
            requires
                num == dx * dy,
        ;
        assert((-num) / d <= -dx) by (nonlinear_arith)
            requires
                -num == (-dx) * dy,
                0 <= -dx,
                0 < dy < d,
        ;
        assert(0 <= (-num) / d) by (nonlinear_arith)
            requires
                0 <= -num,
                0 < d,
        ;
        assert(d * t == -(d * ((-num) / d))) by (nonlinear_arith)
            requires
                t == -((-num) / d),
        ;
    }
    assert(split_x(s0, s1, s2) == s0.x + t);
    assert(min(s0.x as int, s2.x as int) <= s0.x + t <= max(s0.x as int, s2.x as int));
    assert(split_point(s0, s1, s2).x == s0.x + t);
}

/// A flat fill from `apex`, off the row of `b1` and `b2`, stays within `i32` arithmetic:
/// both edges' extents and scans fit (see `edge_fits`), and no vertex lies in column
/// `i32::MAX`, so that every row can be drawn through its last column.
pub open spec fn flat_fits(apex: Point, b1: Point, b2: Point) -> bool {
    &&& line_extents_fit(apex, b1)
    &&& line_extents_fit(apex, b2)
    &&& edge_fits(apex, b1)
    &&& edge_fits(apex, b2)
    &&& apex.x < i32::MAX
    &&& b1.x < i32::MAX
    &&& b2.x < i32::MAX
}

/// Filling the triangle stays within `i32` arithmetic. With the vertices sorted by row
/// as in `triangle_region`: a triangle on one row needs every column below `i32::MAX`;
/// one with a flat side needs its flat fill to fit; otherwise the differences between
/// the top and bottom vertices must fit, and so must both fills meeting at the split
/// point.
pub open spec fn triangle_fits(v0: Point, v1: Point, v2: Point) -> bool {
    let (s0, s1, s2) = sort_by_row(v0, v1, v2);
    if v0.y == v1.y && v1.y == v2.y {
        v0.x < i32::MAX && v1.x < i32::MAX && v2.x < i32::MAX
    } else if s1.y == s2.y {
        flat_fits(s0, s1, s2)
    } else if s0.y == s1.y {
        flat_fits(s2, s0, s1)
    } else {
        let v4 = split_point(s0, s1, s2);
        &&& fits_i32(s2.x - s0.x)
        &&& fits_i32(s2.y - s0.y)
        &&& flat_fits(s0, s1, v4)
        &&& flat_fits(s2, s1, v4)
    }
}

/// The pixels that filling a triangle paints. If all three vertices lie on one row, it
/// is that row from the leftmost to the rightmost vertex. Otherwise the vertices are
/// sorted by row: if the lower two share a row, it is one flat fill from the top vertex;
/// if the upper two do, one flat fill from the bottom vertex; otherwise the middle
/// vertex's row cuts the triangle at the split point into a fill from the top vertex
/// and one from the bottom vertex.
pub open spec fn triangle_region(v0: Point, v1: Point, v2: Point) -> Set<(int, int)> {
    let (s0, s1, s2) = sort_by_row(v0, v1, v2);
    if v0.y == v1.y && v1.y == v2.y {
        hspan(
            min(min(v0.x as int, v1.x as int), v2.x as int),
            max(max(v0.x as int, v1.x as int), v2.x as int),
            v0.y as int,
        )
    } else if s1.y == s2.y {
        flat_region(s0, s1, s2)
    } else if s0.y == s1.y {
        flat_region(s2, s0, s1)
    } else {
        let v4 = split_point(s0, s1, s2);
        flat_region(s0, s1, v4).union(flat_region(s2, s1, v4))
    }
}

/// A flat fill paints both ends of its flat side, and its apex unless the apex lies
/// on the flat side's row.
pub proof fn lemma_flat_region_corners(apex: Point, b1: Point, b2: Point)
    requires
        b1.y == b2.y,
    ensures
        flat_region(apex, b1, b2).contains((b1.x as int, b1.y as int)),
        flat_region(apex, b1, b2).contains((b2.x as int, b2.y as int)),
        apex.y != b1.y ==> flat_region(apex, b1, b2).contains((apex.x as int, apex.y as int)),
{
    assert(hspan(b1.x as int, b2.x as int, b1.y as int).contains((b1.x as int, b1.y as int)));
    assert(hspan(b1.x as int, b2.x as int, b1.y as int).contains((b2.x as int, b2.y as int)));
    if apex.y != b1.y {
        lemma_line_path_shape(apex, b1);
        lemma_line_path_shape(apex, b2);
        lemma_row_extent_contains(line_path(apex, b1), 0, apex.y as int);
        lemma_row_extent_contains(line_path(apex, b2), 0, apex.y as int);
        assert(rows_before(apex, b1, b2, b1.y as int).contains((apex.x as int, apex.y as int)));
    }
}

/// A line drawn from `a` to `b` covers both of its ends.
pub proof fn lemma_line_covers_ends(a: Point, b: Point)
    ensures
        line_path(a, b).to_set().contains((a.x as int, a.y as int)),
        line_path(a, b).to_set().contains((b.x as int, b.y as int)),
{
    lemma_line_path_shape(a, b);
    let p = line_path(a, b);
    assert(p[0] == (a.x as int, a.y as int));
    assert(p[p.len() - 1] == (b.x as int, b.y as int));
}

/// Filling a triangle covers all three of its vertices.
pub proof fn lemma_triangle_covers_vertices(v0: Point, v1: Point, v2: Point)
    ensures
        triangle_region(v0, v1, v2).contains((v0.x as int, v0.y as int)),
        triangle_region(v0, v1, v2).contains((v1.x as int, v1.y as int)),
        triangle_region(v0, v1, v2).contains((v2.x as int, v2.y as int)),
{
    let (s0, s1, s2) = sort_by_row(v0, v1, v2);
    if v0.y == v1.y && v1.y == v2.y {
    } else if s1.y == s2.y {
        lemma_flat_region_corners(s0, s1, s2);
    } else if s0.y == s1.y {
        lemma_flat_region_corners(s2, s0, s1);
    } else {
        let v4 = split_point(s0, s1, s2);
        lemma_flat_region_corners(s0, s1, v4);
        lemma_flat_region_corners(s2, s1, v4);
    }
}

/// Swapping the two ends of the flat side does not change a flat fill.
pub proof fn lemma_flat_region_swap(apex: Point, b1: Point, b2: Point)
    requires
        b1.y == b2.y,
    ensures
        flat_region(apex, b1, b2) == flat_region(apex, b2, b1),
{
    assert forall|r: int| edge_span(apex, b1, b2, r) == edge_span(apex, b2, b1, r) by {
        lemma_join_assoc(row_extent(line_path(apex, b1), r), row_extent(line_path(apex, b2), r), None);
    }
    assert(rows_before(apex, b1, b2, b1.y as int) =~= rows_before(apex, b2, b1, b2.y as int));
    assert(hspan(b1.x as int, b2.x as int, b1.y as int) =~= hspan(
        b2.x as int,
        b1.x as int,
        b2.y as int,
    ));
}

/// Filling a triangle paints the same pixels whatever the order in which its vertices
/// are given, and whether the fill fits does not depend on that order either.
pub proof fn lemma_triangle_order(v0: Point, v1: Point, v2: Point)
    ensures
        triangle_region(v0, v2, v1) == triangle_region(v0, v1, v2),
        triangle_region(v1, v0, v2) == triangle_region(v0, v1, v2),
        triangle_region(v1, v2, v0) == triangle_region(v0, v1, v2),
        triangle_region(v2, v0, v1) == triangle_region(v0, v1, v2),
        triangle_region(v2, v1, v0) == triangle_region(v0, v1, v2),
        triangle_fits(v0, v2, v1) == triangle_fits(v0, v1, v2),
        triangle_fits(v1, v0, v2) == triangle_fits(v0, v1, v2),
        triangle_fits(v1, v2, v0) == triangle_fits(v0, v1, v2),
        triangle_fits(v2, v0, v1) == triangle_fits(v0, v1, v2),
        triangle_fits(v2, v1, v0) == triangle_fits(v0, v1, v2),
{
    if v1.y == v2.y {
        lemma_flat_region_swap(v0, v1, v2);
    }
    if v0.y == v2.y {
        lemma_flat_region_swap(v1, v0, v2);
    }
    if v0.y == v1.y {
        lemma_flat_region_swap(v2, v0, v1);
    }
}

/// Point `p` lies in the smallest rectangle holding the three points.
pub open spec fn in_bounding_box(v0: Point, v1: Point, v2: Point, p: (int, int)) -> bool {
    &&& min(min(v0.x as int, v1.x as int), v2.x as int) <= p.0 <= max(
        max(v0.x as int, v1.x as int),
        v2.x as int,
    )
    &&& min(min(v0.y as int, v1.y as int), v2.y as int) <= p.1 <= max(
        max(v0.y as int, v1.y as int),
        v2.y as int,
    )
}

/// An optional interval that, if present, lies within [lo, hi].
pub open spec fn extent_within(e: Option<(int, int)>, lo: int, hi: int) -> bool {
    match e {
        Some(s) => lo <= s.0 && s.1 <= hi,
        None => true,
    }
}

proof fn lemma_row_extent_within(p: Seq<(int, int)>, r: int, lo: int, hi: int)
    requires
        forall|k: int| 0 <= k < p.len() ==> lo <= (#[trigger] p[k]).0 <= hi,
    ensures
        extent_within(row_extent(p, r), lo, hi),
    decreases p.len(),
{
    if p.len() > 0 {
        let q = p.drop_last();
        assert forall|k: int| 0 <= k < q.len() implies lo <= (#[trigger] q[k]).0 <= hi by {
            assert(q[k] == p[k]);
        }
        lemma_row_extent_within(q, r, lo, hi);
        assert(p.last() == p[p.len() - 1]);
    }
}

/// A flat fill paints nothing outside the smallest rectangle holding its apex and the
/// two ends of its flat side.
pub proof fn lemma_flat_region_in_box(apex: Point, b1: Point, b2: Point, p: (int, int))
    requires
        b1.y == b2.y,
        flat_region(apex, b1, b2).contains(p),
    ensures
        in_bounding_box(apex, b1, b2, p),
{
    if !hspan(b1.x as int, b2.x as int, b1.y as int).contains(p) {
        let path1 = line_path(apex, b1);
        let path2 = line_path(apex, b2);
        lemma_line_path_shape(apex, b1);
        lemma_line_path_shape(apex, b2);
        let lo = min(min(apex.x as int, b1.x as int), b2.x as int);
        let hi = max(max(apex.x as int, b1.x as int), b2.x as int);
        assert forall|k: int| 0 <= k < path1.len() implies lo <= (#[trigger] path1[k]).0 <= hi by {}
        assert forall|k: int| 0 <= k < path2.len() implies lo <= (#[trigger] path2[k]).0 <= hi by {}
        lemma_row_extent_within(path1, p.1, lo, hi);
        lemma_row_extent_within(path2, p.1, lo, hi);
        assert(rows_before(apex, b1, b2, b1.y as int).contains(p));
    }
}

/// Filling a triangle paints nothing outside the smallest rectangle holding its three
/// vertices.
pub proof fn lemma_triangle_in_box(v0: Point, v1: Point, v2: Point, p: (int, int))
    requires
        triangle_region(v0, v1, v2).contains(p),
    ensures
        in_bounding_box(v0, v1, v2, p),
{
    let (s0, s1, s2) = sort_by_row(v0, v1, v2);
    assert(in_bounding_box(s0, s1, s2, p) == in_bounding_box(v0, v1, v2, p));
    if v0.y == v1.y && v1.y == v2.y {
    } else if s1.y == s2.y {
        lemma_flat_region_in_box(s0, s1, s2, p);
    } else if s0.y == s1.y {
        lemma_flat_region_in_box(s2, s0, s1, p);
    } else {
        let v4 = split_point(s0, s1, s2);
        lemma_split_point_on_long_edge(s0, s1, s2);
        if flat_region(s0, s1, v4).contains(p) {
            lemma_flat_region_in_box(s0, s1, v4, p);
        } else {
            lemma_flat_region_in_box(s2, s1, v4, p);
        }
    }
}

} // verus!
