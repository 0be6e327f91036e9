use vstd::prelude::*;

use vstd::arithmetic::div_mod::{
    lemma_fundamental_div_mod, lemma_fundamental_div_mod_converse, lemma_mod_bound,
};

use crate::render::line::{
    edge_fits, error_at, fits_i32, lemma_axis_line_fits, lemma_line_path_shape,
    lemma_short_line_fits, lemma_start_on_track, lemma_step_on_track, line_dx, line_dy,
    line_extents_fit, line_fits, line_path, line_step, line_sx, line_sy, line_trace, on_track,
    step_fits, steps_left, steps_y, LineIter,
};
use crate::render::raster::{
    edge_span, flat_fill, flat_fits, flat_region, hspan, join, lemma_edge_scan,
    lemma_join_absorb, lemma_join_assoc, lemma_row_extent_push, lemma_scan_steps_fit, row_extent,
    rows_before, scan_fits, sort_by_row, split_point, triangle_fits, triangle_region, trunc_div,
};

verus! {

/// An RGB colour whose channels are each at most 255.
#[derive(Clone, Copy)]
pub struct Color {
    r: u32,
    g: u32,
    b: u32,
}

impl View for Color {
    type V = (u32, u32, u32);

    closed spec fn view(&self) -> (u32, u32, u32) {
        (self.r, self.g, self.b)
    }
}

/// The 0x00RRGGBB word of a colour.
pub open spec fn pack_rgb(r: int, g: int, b: int) -> int {
    b + g * 256 + r * 65536
}

impl Color {
    #[verifier::type_invariant]
    spec fn channels_fit(self) -> bool {
        self.r <= 255 && self.g <= 255 && self.b <= 255
    }

    /// Pure red, (255, 0, 0).
    pub fn red() -> (c: Self)
        ensures
            c@ == (255u32, 0u32, 0u32),
    {
        Color { r: 255, g: 0, b: 0 }
    }

    /// Pure green, (0, 255, 0).
    pub fn green() -> (c: Self)
        ensures
            c@ == (0u32, 255u32, 0u32),
    {
        Color { r: 0, g: 255, b: 0 }
    }

    /// Pure blue, (0, 0, 255).
    pub fn blue() -> (c: Self)
        ensures
            c@ == (0u32, 0u32, 255u32),
    {
        Color { r: 0, g: 0, b: 255 }
    }

    /// Each channel is reduced modulo 255.
    pub fn new(r: u32, g: u32, b: u32) -> (c: Self)
        ensures
            c@ == (r % 255, g % 255, b % 255),
    {
        Color { r: r % 255, g: g % 255, b: b % 255 }
    }
}

/// The frame-buffer word of a colour: blue in the low byte, then green, then red.
pub open spec fn color_word(c: Color) -> u32 {
    pack_rgb(c@.0 as int, c@.1 as int, c@.2 as int) as u32
}

impl From<Color> for u32 {
    fn from(value: Color) -> (w: u32) {
        proof {
            use_type_invariant(value);
        }
        let (r, g, b) = (value.r, value.g, value.b);
        assert(b | (g << 8u32) | (r << 16u32) == b + g * 256 + r * 65536) by (bit_vector)
            requires
                r <= 255,
                g <= 255,
                b <= 255,
        ;
        b | (g << 8) | (r << 16)
    }
}

impl vstd::std_specs::convert::FromSpecImpl<Color> for u32 {
    open spec fn obeys_from_spec() -> bool {
        true
    }

    open spec fn from_spec(v: Color) -> u32 {
        color_word(v)
    }
}

/// A pixel position; coordinates may lie outside the frame.
#[derive(Clone, Copy, Debug)]
pub struct Point {
    pub x: i32,
    pub y: i32,
}

impl Point {
    pub fn new(x: i32, y: i32) -> (p: Self)
        ensures
            p.x == x,
            p.y == y,
    {
        Point { x, y }
    }
}

/// The frame with every pixel whose (column, row) lies in `region` set to `c`.
pub open spec fn fill(buf: Seq<u32>, w: int, region: Set<(int, int)>, c: u32) -> Seq<u32> {
    Seq::new(
        buf.len(),
        |i: int|
            if region.contains((i % w, i / w)) {
                c
            } else {
                buf[i]
            },
    )
}

/// Pixel coordinates are compared as `i32`, so only frames whose sides fit in an
/// `i32` can be drawn on pixel by pixel.
pub open spec fn addressable(w: int, h: int) -> bool {
    w <= i32::MAX && h <= i32::MAX
}

/// The effect of plotting every point of `region` in colour word `c`: points outside
/// the frame are skipped.
pub open spec fn paint(buf: Seq<u32>, w: int, h: int, region: Set<(int, int)>, c: u32) -> Seq<u32> {
    if addressable(w, h) {
        fill(buf, w, region, c)
    } else {
        buf
    }
}

/// Plotting can be done in any grouping: two paintings in one colour are one
/// painting of the union.
pub proof fn lemma_paint_union(
    buf: Seq<u32>,
    w: int,
    h: int,
    s1: Set<(int, int)>,
    s2: Set<(int, int)>,
    c: u32,
)
    ensures
        paint(paint(buf, w, h, s1, c), w, h, s2, c) == paint(buf, w, h, s1.union(s2), c),
{
    assert(paint(paint(buf, w, h, s1, c), w, h, s2, c) =~= paint(buf, w, h, s1.union(s2), c));
}

/// The index of a pixel inside a `w`-wide frame of `h` rows decodes to a column and a
/// row inside the frame.
pub proof fn lemma_index_coords(i: int, w: int, h: int)
    requires
        0 <= w,
        0 <= h,
        0 <= i < w * h,
    ensures
        w > 0,
        0 <= i % w < w,
        0 <= i / w < h,
        i == i % w + (i / w) * w,
{
    if w == 0 {
        assert(w * h == 0);
    }
    lemma_fundamental_div_mod(i, w);
    lemma_mod_bound(i, w);
    let q = i / w;
    let r = i % w;
    assert(i == w * q + r);
    assert(w * q == q * w) by (nonlinear_arith);
    assert(0 <= q) by (nonlinear_arith)
        requires
            i == w * q + r,
            0 <= r < w,
            0 <= i,
            w > 0,
    ;
    assert(q < h) by (nonlinear_arith)
        requires
            i == w * q + r,
            0 <= r < w,
            i < w * h,
            w > 0,
    ;
}

/// A column and row inside a `w`-wide frame encode to an index that decodes back.
pub proof fn lemma_coords_index(x: int, y: int, w: int)
    requires
        0 <= x < w,
    ensures
        (x + y * w) % w == x,
        (x + y * w) / w == y,
{
    lemma_fundamental_div_mod_converse(x + y * w, w, y, x);
}

/// Reads pixels of a line until one off row `row`, widening [lo, hi] by the columns of
/// those on the row; returns that pixel and the widened interval.
fn scan_row(it: &mut LineIter, row: i32, lo: i32, hi: i32) -> (res: (Point, i32, i32))
    requires
        old(it).wf(),
        exists|j: int| 0 <= j < old(it).remaining().len() && #[trigger] old(it).remaining()[j].1 != row,
        forall|j: int| 0 <= j < old(it).remaining().len() ==> #[trigger] old(it).remaining()[j].0 < i32::MAX,
        scan_fits(old(it).start(), old(it).end(), old(it).remaining(), row as int),
        lo <= hi < i32::MAX,
    ensures
        final(it).wf(),
        final(it).start() == old(it).start(),
        final(it).end() == old(it).end(),
        ({
            let rem = old(it).remaining();
            let n = rem.len() - final(it).remaining().len();
            &&& 1 <= n <= rem.len()
            &&& final(it).remaining() == rem.skip(n)
            &&& rem[n - 1] == (res.0.x as int, res.0.y as int)
            &&& res.0.y != row
            &&& forall|j: int| 0 <= j < n - 1 ==> #[trigger] rem[j].1 == row
            &&& Some((res.1 as int, res.2 as int)) == join(
                Some((lo as int, hi as int)),
                row_extent(rem.take(n), row as int),
            )
            &&& res.1 <= res.2 < i32::MAX
        }),
{
    let ghost rem = it.remaining();
    let mut min_x = lo;
    let mut max_x = hi;
    let ghost mut n: int = 0;
    proof {
        reveal(scan_fits);
    }
    assert(rem.take(0) =~= Seq::<(int, int)>::empty());
    loop
        invariant
            it.wf(),
            it.start() == old(it).start(),
            it.end() == old(it).end(),
            rem == old(it).remaining(),
            exists|j: int| 0 <= j < rem.len() && #[trigger] rem[j].1 != row,
            forall|j: int| 0 <= j < rem.len() ==> #[trigger] rem[j].0 < i32::MAX,
            forall|j: int|
                0 <= j < rem.len() && (j == 0 || rem[j - 1].1 == row) ==> step_fits(
                    it.start(),
                    it.end(),
                    #[trigger] rem[j],
                ),
            0 <= n <= rem.len(),
            it.remaining() == rem.skip(n),
            forall|j: int| 0 <= j < n ==> #[trigger] rem[j].1 == row,
            Some((min_x as int, max_x as int)) == join(
                Some((lo as int, hi as int)),
                row_extent(rem.take(n), row as int),
            ),
            min_x <= max_x < i32::MAX,
        decreases it.remaining().len(),
    {
        let ghost before = it.remaining();
        proof {
            if n < rem.len() {
                assert(before[0] == rem[n]);
                if n > 0 {
                    assert(rem[n - 1].1 == row);
                }
            }
        }
        match it.next() {
            Some(new_p) => {
                proof {
                    assert(rem[n] == before[0]);
                    assert(rem.take(n + 1) =~= rem.take(n).push(rem[n]));
                    lemma_row_extent_push(rem.take(n), rem[n], row as int);
                    lemma_join_assoc(
                        Some((lo as int, hi as int)),
                        row_extent(rem.take(n), row as int),
                        Some((new_p.x as int, new_p.x as int)),
                    );
                    assert(it.remaining() =~= rem.skip(n + 1));
                    n = n + 1;
                }
                if new_p.y != row {
                    return (new_p, min_x, max_x);
                }
                max_x = if max_x >= new_p.x {
                    max_x
                } else {
                    new_p.x
                };
                min_x = if min_x <= new_p.x {
                    min_x
                } else {
                    new_p.x
                };
            },
            None => {
                proof {
                    let j = choose|j: int| 0 <= j < rem.len() && #[trigger] rem[j].1 != row;
                    assert(rem[j].1 == row);
                }
                return (Point { x: 0, y: row }, min_x, max_x);
            },
        }
    }
}

/// The frame with the `w` × `h` block of `src` (stored row by row) copied to the
/// rectangle whose top-left corner is (x, y).
pub open spec fn blit(buf: Seq<u32>, bw: int, x: int, y: int, w: int, h: int, src: Seq<u32>) -> Seq<
    u32,
> {
    Seq::new(
        buf.len(),
        |i: int|
            if x <= i % bw < x + w && y <= i / bw < y + h {
                src[(i / bw - y) * w + (i % bw - x)]
            } else {
                buf[i]
            },
    )
}

/// The pixels of the `w` × `h` rectangle whose top-left corner is (x, y).
pub open spec fn rect(x: int, y: int, w: int, h: int) -> Set<(int, int)> {
    Set::new(|p: (int, int)| x <= p.0 < x + w && y <= p.1 < y + h)
}

/// The colour word of the test pattern at column x, row y: red and green follow the
/// column and the row, blue their product, each modulo 255.
pub open spec fn pattern_word(x: int, y: int) -> u32 {
    pack_rgb(x % 255, y % 255, (x * y) % 255) as u32
}

/// The test pattern over `n` pixels of a frame `bw` pixels wide, row by row.
pub open spec fn test_pattern(bw: int, n: int) -> Seq<u32> {
    Seq::new(n as nat, |i: int| pattern_word(i % bw, i / bw))
}

/// Reading a pixel of a frame by its column and row: after filling a region, a pixel
/// of the region holds the fill word and any other pixel keeps its word.
pub proof fn lemma_fill_pixel(
    buf: Seq<u32>,
    w: int,
    h: int,
    region: Set<(int, int)>,
    c: u32,
    x: int,
    y: int,
)
    requires
        buf.len() == w * h,
        0 <= x < w,
        0 <= y < h,
    ensures
        fill(buf, w, region, c).len() == buf.len(),
        0 <= x + y * w < buf.len(),
        fill(buf, w, region, c)[x + y * w] == (if region.contains((x, y)) {
            c
        } else {
            buf[x + y * w]
        }),
{
    assert(x + y * w < w * h) by (nonlinear_arith)
        requires
            0 <= x < w,
            0 <= y < h,
    ;
    assert(0 <= x + y * w) by (nonlinear_arith)
        requires
            0 <= x,
            0 <= y,
            0 < w,
    ;
    lemma_coords_index(x, y, w);
}

/// Plotting a region in a frame whose sides fit in an `i32`: a pixel of the region that
/// lies in the frame gets the colour word, any other pixel keeps its word. In a frame
/// too large to address nothing changes.
pub proof fn lemma_paint_pixel(
    buf: Seq<u32>,
    w: int,
    h: int,
    region: Set<(int, int)>,
    c: u32,
    x: int,
    y: int,
)
    requires
        buf.len() == w * h,
        0 <= x < w,
        0 <= y < h,
    ensures
        paint(buf, w, h, region, c).len() == buf.len(),
        0 <= x + y * w < buf.len(),
        paint(buf, w, h, region, c)[x + y * w] == (if addressable(w, h) && region.contains((x, y)) {
            c
        } else {
            buf[x + y * w]
        }),
{
    lemma_fill_pixel(buf, w, h, region, c, x, y);
}

/// Copying a `w` × `h` block to the rectangle at (x, y) of a frame `bw` wide and `bh`
/// high: the pixel at column x + col, row y + row receives the block's word at row
/// `row`, column `col`.
pub proof fn lemma_blit_inside(
    buf: Seq<u32>,
    bw: int,
    bh: int,
    x: int,
    y: int,
    w: int,
    h: int,
    src: Seq<u32>,
    col: int,
    row: int,
)
    requires
        buf.len() == bw * bh,
        0 <= x,
        0 <= y,
        x + w <= bw,
        y + h <= bh,
        src.len() == w * h,
        0 <= col < w,
        0 <= row < h,
    ensures
        blit(buf, bw, x, y, w, h, src).len() == buf.len(),
        0 <= (x + col) + (y + row) * bw < buf.len(),
        0 <= row * w + col < src.len(),
        blit(buf, bw, x, y, w, h, src)[(x + col) + (y + row) * bw] == src[row * w + col],
{
    lemma_fill_pixel(buf, bw, bh, Set::empty(), 0, x + col, y + row);
    lemma_coords_index(x + col, y + row, bw);
    assert(row * w + col < w * h) by (nonlinear_arith)
        requires
            0 <= col < w,
            0 <= row < h,
    ;
    assert(0 <= row * w) by (nonlinear_arith)
        requires
            0 <= row,
            0 <= col < w,
    ;
}

/// Copying a block leaves every pixel of the frame outside the target rectangle as it
/// was, and the frame's size unchanged.
pub proof fn lemma_blit_outside(
    buf: Seq<u32>,
    bw: int,
    bh: int,
    x: int,
    y: int,
    w: int,
    h: int,
    src: Seq<u32>,
    px: int,
    py: int,
)
    requires
        buf.len() == bw * bh,
        0 <= px < bw,
        0 <= py < bh,
        !(x <= px < x + w && y <= py < y + h),
    ensures
        blit(buf, bw, x, y, w, h, src).len() == buf.len(),
        0 <= px + py * bw < buf.len(),
        blit(buf, bw, x, y, w, h, src)[px + py * bw] == buf[px + py * bw],
{
    lemma_fill_pixel(buf, bw, bh, Set::empty(), 0, px, py);
    lemma_coords_index(px, py, bw);
}

/// Filling the `w` × `h` rectangle at (x, y): a pixel at column x + col, row y + row
/// with col < w and row < h gets the fill word; a pixel in any other column or row keeps
/// its word.
pub proof fn lemma_rect_pixel(
    buf: Seq<u32>,
    bw: int,
    bh: int,
    x: int,
    y: int,
    w: int,
    h: int,
    c: u32,
    px: int,
    py: int,
)
    requires
        buf.len() == bw * bh,
        0 <= px < bw,
        0 <= py < bh,
    ensures
        0 <= px + py * bw < buf.len(),
        (x <= px < x + w && y <= py < y + h) ==> fill(buf, bw, rect(x, y, w, h), c)[px + py
            * bw] == c,
        !(x <= px < x + w && y <= py < y + h) ==> fill(buf, bw, rect(x, y, w, h), c)[px + py
            * bw] == buf[px + py * bw],
{
    lemma_fill_pixel(buf, bw, bh, rect(x, y, w, h), c, px, py);
}

/// The test pattern's pixel at column x, row y holds red x mod 255, green y mod 255 and
/// blue (x · y) mod 255, in the word's bytes from high to low.
pub proof fn lemma_test_pattern_pixel(bw: int, bh: int, x: int, y: int)
    requires
        0 <= x < bw,
        0 <= y < bh,
    ensures
        0 <= x + y * bw < bw * bh,
        test_pattern(bw, bw * bh)[x + y * bw] % 256 == (x * y) % 255,
        (test_pattern(bw, bw * bh)[x + y * bw] / 256) % 256 == y % 255,
        test_pattern(bw, bw * bh)[x + y * bw] / 65536 == x % 255,
{
    lemma_fill_pixel(Seq::new((bw * bh) as nat, |i: int| 0u32), bw, bh, Set::empty(), 0, x, y);
    lemma_coords_index(x, y, bw);
    let r = x % 255;
    let g = y % 255;
    let b = (x * y) % 255;
    assert(0 <= x * y) by (nonlinear_arith)
        requires
            0 <= x,
            0 <= y,
    ;
    assert(test_pattern(bw, bw * bh)[x + y * bw] == pattern_word(x, y));
    assert(pattern_word(x, y) == b + g * 256 + r * 65536);
    lemma_fundamental_div_mod_converse(b + g * 256 + r * 65536, 256, g + r * 256, b);
    lemma_fundamental_div_mod_converse(g + r * 256, 256, r, g);
    lemma_fundamental_div_mod_converse(b + g * 256 + r * 65536, 65536, r, b + g * 256);
}

/// The three vertices sorted by row, those on one row keeping their order.
fn sort_vertices(verts: &[Point; 3]) -> (r: (Point, Point, Point))
    ensures
        r == sort_by_row(verts[0], verts[1], verts[2]),
{
    let mut s0 = verts[0];
    let mut s1 = verts[1];
    let mut s2 = verts[2];
    if s1.y < s0.y {
        let t = s0;
        s0 = s1;
        s1 = t;
    }
    if s2.y < s1.y {
        let t = s1;
        s1 = s2;
        s2 = t;
        if s1.y < s0.y {
            let t = s0;
            s0 = s1;
            s1 = t;
        }
    }
    (s0, s1, s2)
}

/// The point where the row of the middle vertex `s1` cuts the edge from the top vertex
/// `s0` to the bottom vertex `s2`.
fn split_at_middle_row(s0: Point, s1: Point, s2: Point) -> (v4: Point)
    requires
        s0.y < s1.y < s2.y,
        fits_i32(s2.x - s0.x),
        fits_i32(s2.y - s0.y),
    ensures
        v4 == split_point(s0, s1, s2),
{
    let dx3 = (s2.x as i64) - (s0.x as i64);
    let dy2 = (s1.y as i64) - (s0.y as i64);
    let dy3 = (s2.y as i64) - (s0.y as i64);
    assert(-0x4000_0000_0000_0000 <= dx3 * dy2 <= 0x4000_0000_0000_0000) by (nonlinear_arith)
        requires
            -0x8000_0000 <= dx3 <= 0x7fff_ffff,
            0 < dy2 <= 0x7fff_ffff,
    ;
    let num = dx3 * dy2;
    let q: i64 = if num >= 0 {
        num / dy3
    } else {
        -((-num) / dy3)
    };
    proof {
        let ni = num as int;
        let di = dy3 as int;
        let xi = dx3 as int;
        let yi = dy2 as int;
        assert(ni == xi * yi);
        if num >= 0 {
            assert(0 <= xi) by (nonlinear_arith)
                requires
                    ni == xi * yi,
                    0 <= ni,
                    0 < yi,
            ;
            assert(ni / di <= xi) by (nonlinear_arith)
                requires
                    ni == xi * yi,
                    0 <= xi,
                    0 < yi < di,
            ;
            assert(0 <= ni / di) by (nonlinear_arith)
                requires
                    0 <= ni,
                    0 < di,
            ;
        } else {
            assert(xi < 0) by (nonlinear_arith)
                requires
                    ni == xi * yi,
                    ni < 0,
                    0 < yi,
            ;
            assert(-ni == (-xi) * yi) by (nonlinear_arith)
                requires
                    ni == xi * yi,
            ;
            assert((-ni) / di <= -xi) by (nonlinear_arith)
                requires
                    -ni == (-xi) * yi,
                    0 <= -xi,
                    0 < yi < di,
            ;
            assert(0 <= (-ni) / di) by (nonlinear_arith)
                requires
                    0 <= -ni,
                    0 < di,
            ;
        }
        assert(q == trunc_div(xi * yi, di));
    }
    Point { x: s0.x + q as i32, y: s1.y }
}

/// Reading back a plotted pixel gives its colour, and plotting one pixel leaves every
/// other pixel as it was.
pub proof fn lemma_plot_then_read(buf: Seq<u32>, w: int, h: int, x: int, y: int, c: u32, i: int)
    requires
        0 <= w,
        0 <= h,
        buf.len() == w * h,
        addressable(w, h),
        0 <= x < w,
        0 <= y < h,
        0 <= i < buf.len(),
    ensures
        x + y * w < buf.len(),
        paint(buf, w, h, set![(x, y)], c)[x + y * w] == c,
        i != x + y * w ==> paint(buf, w, h, set![(x, y)], c)[i] == buf[i],
{
    assert(x + y * w < w * h) by (nonlinear_arith)
        requires
            0 <= x < w,
            0 <= y < h,
    ;
    lemma_coords_index(x, y, w);
    lemma_index_coords(i, w, h);
    if i != x + y * w && (i % w, i / w) == (x, y) {
        assert(i == x + y * w);
    }
}

/// The word of a colour holds its channels: blue in the low byte, then green, then
/// red, so the channels can be read back from it.
pub proof fn lemma_color_word_channels(c: Color)
    requires
        c@.0 <= 255,
        c@.1 <= 255,
        c@.2 <= 255,
    ensures
        color_word(c) % 256 == c@.2,
        (color_word(c) / 256) % 256 == c@.1,
        color_word(c) / 65536 == c@.0,
{
    let (r, g, b) = (c@.0 as int, c@.1 as int, c@.2 as int);
    assert(pack_rgb(r, g, b) == b + g * 256 + r * 65536);
    vstd::arithmetic::div_mod::lemma_fundamental_div_mod_converse(b + g * 256 + r * 65536, 256, g + r * 256, b);
    vstd::arithmetic::div_mod::lemma_fundamental_div_mod_converse(g + r * 256, 256, r, g);
    vstd::arithmetic::div_mod::lemma_fundamental_div_mod_converse(b + g * 256 + r * 65536, 65536, r, b + g * 256);
}

/// A frame buffer of `width` × `height` pixels stored row by row, each pixel a
/// 0x00RRGGBB word.
pub struct Graphics {
    buf: Vec<u32>,
    width: u32,
    height: u32,
}

impl Graphics {
    /// The buffer holds exactly `width` × `height` pixels, a count that fits in a `u32`.
    pub closed spec fn wf(&self) -> bool {
        &&& self.buf.len() == self.width * self.height
        &&& self.width * self.height <= u32::MAX
    }

    /// The pixels, row by row.
    pub closed spec fn pixels(&self) -> Seq<u32> {
        self.buf@
    }

    /// The number of columns.
    pub closed spec fn cols(&self) -> int {
        self.width as int
    }

    /// The number of rows.
    pub closed spec fn rows(&self) -> int {
        self.height as int
    }

    /// Wraps a frame of `width` × `height` pixels stored row by row.
    pub fn new(buf: Vec<u32>, width: u32, height: u32) -> (g: Self)
        requires
            buf.len() == width * height,
            width * height <= u32::MAX,
        ensures
            g.wf(),
            g.pixels() == buf@,
            g.cols() == width,
            g.rows() == height,
    {
        Graphics { buf, width, height }
    }

    /// The pixels, row by row.
    pub fn buffer(&self) -> (b: &Vec<u32>)
        requires
            self.wf(),
        ensures
            b@ == self.pixels(),
            b@.len() == self.cols() * self.rows(),
    {
        &self.buf
    }

    pub fn width(&self) -> (w: u32)
        ensures
            w == self.cols(),
    {
        self.width
    }

    pub fn height(&self) -> (h: u32)
        ensures
            h == self.rows(),
    {
        self.height
    }

    fn get_idx(&self, x: u32, y: u32) -> (idx: usize)
        requires
            self.wf(),
            x < self.cols(),
            y < self.rows(),
        ensures
            idx == x + y * self.cols(),
            idx < self.pixels().len(),
    {
        proof {
            let w = self.width as int;
            let h = self.height as int;
            assert(x + y * w < w * h) by (nonlinear_arith)
                requires
                    x < w,
                    y < h,
                    0 <= x,
                    0 <= y,
            ;
        }
        (x + y * self.width) as usize
    }

    fn in_bounds(&self, x: i32, y: i32) -> (r: bool)
        ensures
            r == (addressable(self.cols(), self.rows()) && 0 <= x < self.cols() && 0 <= y
                < self.rows()),
    {
        let wide = self.width <= 0x7fff_ffffu32 && self.height <= 0x7fff_ffffu32;
        wide && x >= 0 && x < self.width as i32 && y >= 0 && y < self.height as i32
    }

    /// Sets the pixel at (x, y) to `color` if it lies in the frame.
    pub fn set_pixel(&mut self, x: i32, y: i32, color: Color)
        requires
            old(self).wf(),
        ensures
            final(self).wf(),
            final(self).cols() == old(self).cols(),
            final(self).rows() == old(self).rows(),
            final(self).pixels() == paint(
                old(self).pixels(),
                old(self).cols(),
                old(self).rows(),
                set![(x as int, y as int)],
                color_word(color),
            ),
    {
        let ghost w = self.width as int;
        let ghost h = self.height as int;
        let ghost region = set![(x as int, y as int)];
        match self.in_bounds(x, y) {
            true => {
                let idx = self.get_idx(x as u32, y as u32);
                let word = u32::from(color);
                self.buf.set(idx, word);
                proof {
                    assert forall|i: int| 0 <= i < self.buf@.len() implies #[trigger] self.buf@[i]
                        == fill(old(self).buf@, w, region, word)[i] by {
                        lemma_index_coords(i, w, h);
                        if i == idx {
                            lemma_coords_index(x as int, y as int, w);
                        }
                    }
                    assert(self.buf@ =~= fill(old(self).buf@, w, region, word));
                }
            },
            false => {
                proof {
                    if addressable(w, h) {
                        assert forall|i: int| 0 <= i < self.buf@.len() implies #[trigger] self.buf@[i]
                            == fill(old(self).buf@, w, region, color_word(color))[i] by {
                            lemma_index_coords(i, w, h);
                        }
                        assert(self.buf@ =~= fill(old(self).buf@, w, region, color_word(color)));
                    }
                }
            },
        }
    }

    /// Sets every pixel to `color`.
    pub fn clear(&mut self, color: Color)
        requires
            old(self).wf(),
        ensures
            final(self).wf(),
            final(self).cols() == old(self).cols(),
            final(self).rows() == old(self).rows(),
            final(self).pixels() == Seq::new(
                old(self).pixels().len(),
                |i: int| color_word(color),
            ),
    {
        let word = u32::from(color);
        let n = self.buf.len();
        let mut i: usize = 0;
        while i < n
            invariant
                n == self.buf@.len(),
                n == old(self).buf@.len(),
                self.width == old(self).width,
                self.height == old(self).height,
                i <= n,
                word == color_word(color),
                forall|k: int| 0 <= k < i ==> self.buf@[k] == word,
            decreases n - i,
        {
            self.buf.set(i, word);
            i = i + 1;
        }
        assert(self.buf@ =~= Seq::new(n as nat, |i: int| color_word(color)));
    }

    /// Draws the line from `a` to `b` with Bresenham's algorithm; pixels outside the
    /// frame are skipped.
    pub fn draw_line(&mut self, a: Point, b: Point, color: Color)
        requires
            old(self).wf(),
            line_fits(a, b),
        ensures
            final(self).wf(),
            final(self).cols() == old(self).cols(),
            final(self).rows() == old(self).rows(),
            final(self).pixels() == paint(
                old(self).pixels(),
                old(self).cols(),
                old(self).rows(),
                line_path(a, b).to_set(),
                color_word(color),
            ),
    {
        let ghost w = self.cols();
        let ghost h = self.rows();
        let ghost c = color_word(color);
        let ghost start = self.pixels();
        let ddx = b.x - a.x;
        let dx = if ddx < 0 {
            -ddx
        } else {
            ddx
        };
        let sx = match a.x < b.x {
            true => 1,
            false => -1,
        };
        let ddy = b.y - a.y;
        let dy = if ddy < 0 {
            ddy
        } else {
            -ddy
        };
        let sy = match a.y < b.y {
            true => 1,
            false => -1,
        };
        let mut error = dx + dy;
        let mut x = a.x;
        let mut y = a.y;
        let ghost mut done: Seq<(int, int)> = Seq::empty();
        let ghost mut fuel: nat = (line_dx(a, b) - line_dy(a, b) + 1) as nat;
        proof {
            lemma_start_on_track(a, b);
            assert(paint(start, w, h, done.to_set(), c) =~= start);
        }
        loop
            invariant_except_break
                on_track(a, b, x as int, y as int, error as int),
                fuel > steps_left(a, b, x as int, y as int),
                line_path(a, b) == done + line_trace(a, b, x as int, y as int, error as int, fuel),
                self.pixels() == paint(start, w, h, done.to_set(), c),
            invariant
                self.wf(),
                self.cols() == w,
                self.rows() == h,
                c == color_word(color),
                line_fits(a, b),
                dx == line_dx(a, b),
                dy == line_dy(a, b),
                sx == line_sx(a, b),
                sy == line_sy(a, b),
            ensures
                self.pixels() == paint(start, w, h, line_path(a, b).to_set(), c),
            decreases steps_left(a, b, x as int, y as int),
        {
            let ghost x0 = x as int;
            let ghost y0 = y as int;
            let ghost e0 = error as int;
            let ghost before = self.pixels();
            proof {
                let t = line_trace(a, b, x0, y0, e0, fuel);
                assert(t[0] == (x0, y0));
                assert(line_path(a, b)[done.len() as int] == t[0]);
                assert(step_fits(a, b, line_path(a, b)[done.len() as int]));
                assert(e0 == error_at(a, b, x0, y0));
            }
            self.set_pixel(x, y, color);
            proof {
                lemma_paint_union(start, w, h, done.to_set(), set![(x0, y0)], c);
                assert(done.to_set().union(set![(x0, y0)]) =~= done.push((x0, y0)).to_set()) by {
                    done.lemma_push_to_set_commute((x0, y0));
                }
                done = done.push((x0, y0));
            }
            let e2 = 2 * error;
            if e2 >= dy {
                if x == b.x {
                    assert(line_step(a, b, x0, y0, e0) is None);
                    assert(line_trace(a, b, x0, y0, e0, fuel) =~= seq![(x0, y0)]);
                    assert(line_path(a, b) =~= done);
                    break;
                }
                error = error + dy;
                x = x + sx;
            }
            if e2 <= dx {
                if y == b.y {
                    assert(line_step(a, b, x0, y0, e0) is None);
                    assert(line_trace(a, b, x0, y0, e0, fuel) =~= seq![(x0, y0)]);
                    assert(line_path(a, b) =~= done);
                    break;
                }
                error = error + dx;
                y = y + sy;
            }
            proof {
                lemma_step_on_track(a, b, x0, y0, e0);
                let s = line_step(a, b, x0, y0, e0)->0;
                assert(s == (x as int, y as int, error as int));
                assert(line_trace(a, b, x0, y0, e0, fuel) == seq![(x0, y0)] + line_trace(
                    a,
                    b,
                    s.0,
                    s.1,
                    s.2,
                    (fuel - 1) as nat,
                ));
                assert(line_path(a, b) =~= done + line_trace(a, b, s.0, s.1, s.2, (fuel - 1) as nat));
                fuel = (fuel - 1) as nat;
            }
        }
    }

    /// Draws row `y` from column `x0` to column `x1` (in either order); pixels outside
    /// the frame are skipped.
    fn draw_line_horizontal(&mut self, x0: i32, x1: i32, y: i32, color: Color)
        requires
            old(self).wf(),
            x0 < i32::MAX,
            x1 < i32::MAX,
        ensures
            final(self).wf(),
            final(self).cols() == old(self).cols(),
            final(self).rows() == old(self).rows(),
            final(self).pixels() == paint(
                old(self).pixels(),
                old(self).cols(),
                old(self).rows(),
                hspan(x0 as int, x1 as int, y as int),
                color_word(color),
            ),
    {
        let ghost w = self.cols();
        let ghost h = self.rows();
        let ghost c = color_word(color);
        let ghost start = self.pixels();
        let (lo, hi) = if x0 < x1 {
            (x0, x1)
        } else {
            (x1, x0)
        };
        let mut x = lo;
        proof {
            let none = Set::new(|p: (int, int)| p.1 == y && lo <= p.0 < lo);
            assert(paint(start, w, h, none, c) =~= start);
        }
        while x < hi + 1
            invariant
                self.wf(),
                self.cols() == w,
                self.rows() == h,
                c == color_word(color),
                lo <= x <= hi + 1,
                hi < i32::MAX,
                self.pixels() == paint(
                    start,
                    w,
                    h,
                    Set::new(|p: (int, int)| p.1 == y && lo <= p.0 < x),
                    c,
                ),
            decreases hi + 1 - x,
        {
            self.set_pixel(x, y, color);
            proof {
                let done = Set::new(|p: (int, int)| p.1 == y && lo <= p.0 < x);
                lemma_paint_union(start, w, h, done, set![(x as int, y as int)], c);
                assert(done.union(set![(x as int, y as int)]) =~= Set::new(
                    |p: (int, int)| p.1 == y && lo <= p.0 < x + 1,
                ));
            }
            x = x + 1;
        }
        assert(Set::new(|p: (int, int)| p.1 == y && lo <= p.0 < x) =~= hspan(
            x0 as int,
            x1 as int,
            y as int,
        ));
    }

    /// Fills a triangle with a flat side by scan lines: from the apex's row toward the
    /// row of `b1` and `b2`, scanning with rows increasing (`downward`) or decreasing,
    /// each row spans the pixels of the two edges on it; the flat side's row spans from
    /// `b1` to `b2`. If the apex does not lie on the side the scan starts from, only the
    /// flat side's row is drawn.
    fn fill_flat(&mut self, apex: Point, b1: Point, b2: Point, downward: bool, color: Color)
        requires
            old(self).wf(),
            b1.y == b2.y,
            line_extents_fit(apex, b1),
            line_extents_fit(apex, b2),
            b1.x < i32::MAX,
            b2.x < i32::MAX,
            (downward && apex.y < b1.y) || (!downward && apex.y > b1.y) ==> {
                &&& apex.x < i32::MAX
                &&& edge_fits(apex, b1)
                &&& edge_fits(apex, b2)
            },
        ensures
            final(self).wf(),
            final(self).cols() == old(self).cols(),
            final(self).rows() == old(self).rows(),
            final(self).pixels() == paint(
                old(self).pixels(),
                old(self).cols(),
                old(self).rows(),
                flat_fill(apex, b1, b2, downward),
                color_word(color),
            ),
    {
        let ghost w = self.cols();
        let ghost h = self.rows();
        let ghost c = color_word(color);
        let ghost start = self.pixels();
        let ghost path1 = line_path(apex, b1);
        let ghost path2 = line_path(apex, b2);
        let mut v1v2 = LineIter::new(apex, b1);
        let mut v1v3 = LineIter::new(apex, b2);
        let mut current_y = apex.y;
        let mut p1: Point = apex;
        let mut p2: Point = apex;
        let ghost proper = (downward && apex.y < b1.y) || (!downward && apex.y > b1.y);
        let ghost mut k1: int = 0;
        let ghost mut k2: int = 0;
        proof {
            assert(paint(start, w, h, rows_before(apex, b1, b2, apex.y as int), c) =~= start);
        }
        while (downward && current_y < b1.y) || (!downward && current_y > b1.y)
            invariant
                self.wf(),
                self.cols() == w,
                self.rows() == h,
                c == color_word(color),
                b1.y == b2.y,
                line_extents_fit(apex, b1),
                line_extents_fit(apex, b2),
                proper ==> apex.x < i32::MAX && edge_fits(apex, b1) && edge_fits(apex, b2),
                b1.x < i32::MAX,
                b2.x < i32::MAX,
                path1 == line_path(apex, b1),
                path2 == line_path(apex, b2),
                proper == ((downward && apex.y < b1.y) || (!downward && apex.y > b1.y)),
                !proper ==> current_y == apex.y,
                proper ==> downward == (apex.y < b1.y),
                0 <= steps_y(apex, b1, current_y as int) <= steps_y(apex, b1, b1.y as int),
                v1v2.wf(),
                v1v2.start() == apex,
                v1v2.end() == b1,
                v1v3.wf(),
                v1v3.start() == apex,
                v1v3.end() == b2,
                p1.y == current_y,
                p2.y == current_y,
                apex.y != b1.y ==> {
                    &&& 0 <= k1 <= path1.len()
                    &&& 0 <= k2 <= path2.len()
                    &&& v1v2.remaining() == path1.skip(k1)
                    &&& v1v3.remaining() == path2.skip(k2)
                    &&& (k1 == 0 && p1 == apex) || (1 <= k1 && (p1.x as int, p1.y as int)
                        == path1[k1 - 1])
                    &&& (k2 == 0 && p2 == apex) || (1 <= k2 && (p2.x as int, p2.y as int)
                        == path2[k2 - 1])
                    &&& forall|j: int|
                        0 <= j < k1 - 1 ==> steps_y(apex, b1, #[trigger] path1[j].1) < steps_y(
                            apex,
                            b1,
                            current_y as int,
                        )
                    &&& forall|j: int|
                        0 <= j < k2 - 1 ==> steps_y(apex, b1, #[trigger] path2[j].1) < steps_y(
                            apex,
                            b1,
                            current_y as int,
                        )
                },
                self.pixels() == paint(start, w, h, rows_before(apex, b1, b2, current_y as int), c),
            decreases steps_y(apex, b1, b1.y as int) - steps_y(apex, b1, current_y as int),
        {
            let ghost r = current_y as int;
            let ghost p1s = p1;
            let ghost p2s = p2;
            let ghost k1s = k1;
            let ghost k2s = k2;
            proof {
                assert(proper);
                lemma_line_path_shape(apex, b1);
                lemma_line_path_shape(apex, b2);
                if k1 == path1.len() {
                    assert(path1[k1 - 1] == path1.last());
                }
                if k2 == path2.len() {
                    assert(path2[k2 - 1] == path2.last());
                }
                let rem1 = v1v2.remaining();
                assert(rem1[rem1.len() - 1] == path1.last());
                assert(forall|j: int|
                    0 <= j < rem1.len() ==> #[trigger] rem1[j] == path1[k1 + j]);
                let rem2 = v1v3.remaining();
                assert(rem2[rem2.len() - 1] == path2.last());
                assert(forall|j: int|
                    0 <= j < rem2.len() ==> #[trigger] rem2[j] == path2[k2 + j]);
                assert(steps_y(apex, b1, r) < steps_y(apex, b1, b1.y as int));
                lemma_scan_steps_fit(apex, b1, k1, r, p1);
                lemma_scan_steps_fit(apex, b2, k2, r, p2);
            }
            let mut max_x = if p1.x >= p2.x {
                p1.x
            } else {
                p2.x
            };
            let mut min_x = if p1.x <= p2.x {
                p1.x
            } else {
                p2.x
            };
            let ghost rem1 = v1v2.remaining();
            let (np1, lo1, hi1) = scan_row(&mut v1v2, current_y, min_x, max_x);
            p1 = np1;
            min_x = lo1;
            max_x = hi1;
            let ghost n1 = rem1.len() - v1v2.remaining().len();
            let ghost rem2 = v1v3.remaining();
            let (np2, lo2, hi2) = scan_row(&mut v1v3, current_y, min_x, max_x);
            p2 = np2;
            min_x = lo2;
            max_x = hi2;
            let ghost n2 = rem2.len() - v1v3.remaining().len();
            proof {
                k1 = k1s + n1;
                k2 = k2s + n2;
                lemma_edge_scan(apex, b1, r, k1s, n1, p1s, np1);
                lemma_edge_scan(apex, b2, r, k2s, n2, p2s, np2);
                assert(v1v2.remaining() =~= path1.skip(k1));
                assert(v1v3.remaining() =~= path2.skip(k2));
                let s1 = Some((p1s.x as int, p1s.x as int));
                let s2 = Some((p2s.x as int, p2s.x as int));
                let r1 = row_extent(rem1.take(n1), r);
                let r2 = row_extent(rem2.take(n2), r);
                let f1 = row_extent(path1, r);
                let f2 = row_extent(path2, r);
                lemma_join_absorb(p1s.x as int, f1);
                lemma_join_absorb(p2s.x as int, f2);
                assert(join(s1, r1) == f1);
                assert(join(s2, r2) == f2);
                lemma_join_assoc(join(s1, s2), r1, r2);
                lemma_join_assoc(s1, s2, join(r1, r2));
                lemma_join_assoc(s2, r1, r2);
                lemma_join_assoc(r1, s2, r2);
                lemma_join_assoc(s1, r1, join(s2, r2));
                assert(join(s2, join(r1, r2)) == join(r1, join(s2, r2)));
                assert(Some((lo2 as int, hi2 as int)) == edge_span(apex, b1, b2, r));
            }
            self.draw_line_horizontal(min_x, max_x, current_y, color);
            proof {
                lemma_paint_union(
                    start,
                    w,
                    h,
                    rows_before(apex, b1, b2, r),
                    hspan(min_x as int, max_x as int, r),
                    c,
                );
                assert(rows_before(apex, b1, b2, r).union(hspan(min_x as int, max_x as int, r))
                    =~= rows_before(apex, b1, b2, np1.y as int));
            }
            current_y = p1.y;
        }
        proof {
            if proper {
                assert(current_y == b1.y);
            } else {
                assert(rows_before(apex, b1, b2, current_y as int) =~= Set::empty());
            }
        }
        self.draw_line_horizontal(b1.x, b2.x, b1.y, color);
        proof {
            lemma_paint_union(
                start,
                w,
                h,
                rows_before(apex, b1, b2, current_y as int),
                hspan(b1.x as int, b2.x as int, b1.y as int),
                c,
            );
            if !proper {
                assert(Set::<(int, int)>::empty().union(hspan(b1.x as int, b2.x as int, b1.y as int))
                    =~= hspan(b1.x as int, b2.x as int, b1.y as int));
            }
        }
    }

    /// Fills a triangle whose lower two vertices `v2`, `v3` share a row, scanning with
    /// rows increasing from the top vertex `v1`. If `v1` does not lie above that row,
    /// only the row from `v2` to `v3` is drawn.
    fn draw_triangle_bf(&mut self, v1: Point, v2: Point, v3: Point, color: Color)
        requires
            old(self).wf(),
            v2.y == v3.y,
            line_extents_fit(v1, v2),
            line_extents_fit(v1, v3),
            v2.x < i32::MAX,
            v3.x < i32::MAX,
            v1.y < v2.y ==> v1.x < i32::MAX && edge_fits(v1, v2) && edge_fits(v1, v3),
        ensures
            final(self).wf(),
            final(self).cols() == old(self).cols(),
            final(self).rows() == old(self).rows(),
            final(self).pixels() == paint(
                old(self).pixels(),
                old(self).cols(),
                old(self).rows(),
                flat_fill(v1, v2, v3, true),
                color_word(color),
            ),
    {
        self.fill_flat(v1, v2, v3, true, color);
    }

    /// Fills a triangle whose upper two vertices `v1`, `v2` share a row, scanning with
    /// rows decreasing from the bottom vertex `v3`. If `v3` does not lie below that row,
    /// only the row from `v1` to `v2` is drawn.
    fn draw_triangle_tf(&mut self, v1: Point, v2: Point, v3: Point, color: Color)
        requires
            old(self).wf(),
            v1.y == v2.y,
            line_extents_fit(v3, v1),
            line_extents_fit(v3, v2),
            v1.x < i32::MAX,
            v2.x < i32::MAX,
            v3.y > v1.y ==> v3.x < i32::MAX && edge_fits(v3, v1) && edge_fits(v3, v2),
        ensures
            final(self).wf(),
            final(self).cols() == old(self).cols(),
            final(self).rows() == old(self).rows(),
            final(self).pixels() == paint(
                old(self).pixels(),
                old(self).cols(),
                old(self).rows(),
                flat_fill(v3, v1, v2, false),
                color_word(color),
            ),
    {
        self.fill_flat(v3, v1, v2, false, color);
    }

    /// Fills the triangle with the given vertices by scan lines (see
    /// `triangle_region`); pixels outside the frame are skipped.
    pub fn draw_triangle_direct(&mut self, verts: &[Point; 3], color: Color)
        requires
            old(self).wf(),
            triangle_fits(verts[0], verts[1], verts[2]),
        ensures
            final(self).wf(),
            final(self).cols() == old(self).cols(),
            final(self).rows() == old(self).rows(),
            final(self).pixels() == paint(
                old(self).pixels(),
                old(self).cols(),
                old(self).rows(),
                triangle_region(verts[0], verts[1], verts[2]),
                color_word(color),
            ),
    {
        let ghost w = self.cols();
        let ghost h = self.rows();
        let ghost c = color_word(color);
        let ghost start = self.pixels();
        let (s0, s1, s2) = sort_vertices(verts);
        if s0.y == s2.y {
            // all three on one row: the row from the leftmost to the rightmost vertex
            let lo = if s0.x <= s1.x && s0.x <= s2.x {
                s0.x
            } else if s1.x <= s2.x {
                s1.x
            } else {
                s2.x
            };
            let hi = if s0.x >= s1.x && s0.x >= s2.x {
                s0.x
            } else if s1.x >= s2.x {
                s1.x
            } else {
                s2.x
            };
            self.draw_line_horizontal(lo, hi, s0.y, color);
            assert(hspan(lo as int, hi as int, s0.y as int) =~= triangle_region(
                verts[0],
                verts[1],
                verts[2],
            ));
        } else if s1.y == s2.y {
            self.draw_triangle_bf(s0, s1, s2, color);
        } else if s0.y == s1.y {
            self.draw_triangle_tf(s0, s1, s2, color);
        } else {
            let v4 = split_at_middle_row(s0, s1, s2);
            self.draw_triangle_bf(s0, s1, v4, color);
            self.draw_triangle_tf(s1, v4, s2, color);
            proof {
                lemma_paint_union(start, w, h, flat_region(s0, s1, v4), flat_region(s2, s1, v4), c);
            }
        }
    }

    /// Copies `cols`, a `w` × `h` block stored row by row, to the rectangle whose
    /// top-left corner is (x, y).
    pub fn set_pixels(&mut self, x: u32, y: u32, w: u32, h: u32, cols: &[u32])
        requires
            old(self).wf(),
            cols@.len() == w * h,
            x + w <= old(self).cols(),
            y + h <= old(self).rows(),
        ensures
            final(self).wf(),
            final(self).cols() == old(self).cols(),
            final(self).rows() == old(self).rows(),
            final(self).pixels() == blit(
                old(self).pixels(),
                old(self).cols(),
                x as int,
                y as int,
                w as int,
                h as int,
                cols@,
            ),
    {
        let ghost bw = self.cols();
        let ghost bh = self.rows();
        let ghost start = self.pixels();
        proof {
            assert(w * h <= bw * bh) by (nonlinear_arith)
                requires
                    x + w <= bw,
                    y + h <= bh,
                    0 <= x,
                    0 <= y,
            ;
        }
        let mut r: u32 = 0;
        while r < h
            invariant
                self.wf(),
                self.cols() == bw,
                self.rows() == bh,
                start.len() == self.pixels().len(),
                cols@.len() == w * h,
                w * h <= bw * bh,
                x + w <= bw,
                y + h <= bh,
                r <= h,
                forall|i: int|
                    0 <= i < self.pixels().len() ==> #[trigger] self.pixels()[i] == (if x <= i % bw
                        < x + w && y <= i / bw < y + r {
                        cols@[(i / bw - y) * w + (i % bw - x)]
                    } else {
                        start[i]
                    }),
            decreases h - r,
        {
            proof {
                assert(x + (y + r) * bw <= bw * bh) by (nonlinear_arith)
                    requires
                        x + w <= bw,
                        y + r < bh,
                        0 <= w,
                ;
            }
            let idx = (x + (y + r) * self.width) as usize;
            let mut c: u32 = 0;
            while c < w
                invariant
                    self.wf(),
                    self.cols() == bw,
                    self.rows() == bh,
                    start.len() == self.pixels().len(),
                    cols@.len() == w * h,
                    w * h <= bw * bh,
                    x + w <= bw,
                    y + h <= bh,
                    r < h,
                    c <= w,
                    idx == x + (y + r) * bw,
                    forall|i: int|
                        0 <= i < self.pixels().len() ==> #[trigger] self.pixels()[i] == (if (x <= i
                            % bw < x + w && y <= i / bw < y + r) || (i / bw == y + r && x <= i % bw
                            < x + c) {
                            cols@[(i / bw - y) * w + (i % bw - x)]
                        } else {
                            start[i]
                        }),
                decreases w - c,
            {
                proof {
                    assert(idx + c < bw * bh) by (nonlinear_arith)
                        requires
                            idx == x + (y + r) * bw,
                            c < w,
                            x + w <= bw,
                            y + r < bh,
                    ;
                    assert(r * w + c < w * h) by (nonlinear_arith)
                        requires
                            r < h,
                            c < w,
                    ;
                }
                let k = (r as usize) * (w as usize) + (c as usize);
                let v = cols[k];
                let ghost before = self.pixels();
                self.buf.set(idx + c as usize, v);
                proof {
                    let j = idx + c;
                    lemma_coords_index(x + c, (y + r) as int, bw);
                    assert(j == (x + c) + (y + r) * bw) by (nonlinear_arith)
                        requires
                            idx == x + (y + r) * bw,
                            j == idx + c,
                    ;
                    assert forall|i: int| 0 <= i < self.pixels().len() implies #[trigger] self.pixels()[i]
                        == (if (x <= i % bw < x + w && y <= i / bw < y + r) || (i / bw == y + r && x
                        <= i % bw < x + c + 1) {
                        cols@[(i / bw - y) * w + (i % bw - x)]
                    } else {
                        start[i]
                    }) by {
                        lemma_index_coords(i, bw, bh);
                        if i != j {
                            assert(self.pixels()[i] == before[i]);
                            if i / bw == y + r && i % bw == x + c {
                                assert(i == (x + c) + (y + r) * bw);
                            }
                        }
                    }
                }
                c = c + 1;
            }
            r = r + 1;
        }
        assert(self.pixels() =~= blit(start, bw, x as int, y as int, w as int, h as int, cols@));
    }

    /// Fills the `w` × `h` rectangle whose top-left corner is (x, y) with `color`.
    pub fn draw_rect(&mut self, x: u32, y: u32, w: u32, h: u32, color: Color)
        requires
            old(self).wf(),
            x + w <= old(self).cols(),
            y + h <= old(self).rows(),
        ensures
            final(self).wf(),
            final(self).cols() == old(self).cols(),
            final(self).rows() == old(self).rows(),
            final(self).pixels() == fill(
                old(self).pixels(),
                old(self).cols(),
                rect(x as int, y as int, w as int, h as int),
                color_word(color),
            ),
    {
        let ghost bw = self.cols();
        let ghost bh = self.rows();
        let ghost start = self.pixels();
        let word = u32::from(color);
        let mut r: u32 = 0;
        while r < h
            invariant
                self.wf(),
                self.cols() == bw,
                self.rows() == bh,
                start.len() == self.pixels().len(),
                word == color_word(color),
                x + w <= bw,
                y + h <= bh,
                r <= h,
                forall|i: int|
                    0 <= i < self.pixels().len() ==> #[trigger] self.pixels()[i] == (if x <= i % bw
                        < x + w && y <= i / bw < y + r {
                        word
                    } else {
                        start[i]
                    }),
            decreases h - r,
        {
            proof {
                assert(x + (y + r) * bw <= bw * bh) by (nonlinear_arith)
                    requires
                        x + w <= bw,
                        y + r < bh,
                        0 <= w,
                ;
            }
            let idx = (x + (y + r) * self.width) as usize;
            let mut c: u32 = 0;
            while c < w
                invariant
                    self.wf(),
                    self.cols() == bw,
                    self.rows() == bh,
                    start.len() == self.pixels().len(),
                    word == color_word(color),
                    x + w <= bw,
                    y + h <= bh,
                    r < h,
                    c <= w,
                    idx == x + (y + r) * bw,
                    forall|i: int|
                        0 <= i < self.pixels().len() ==> #[trigger] self.pixels()[i] == (if (x <= i
                            % bw < x + w && y <= i / bw < y + r) || (i / bw == y + r && x <= i % bw
                            < x + c) {
                            word
                        } else {
                            start[i]
                        }),
                decreases w - c,
            {
                proof {
                    assert(idx + c < bw * bh) by (nonlinear_arith)
                        requires
                            idx == x + (y + r) * bw,
                            c < w,
                            x + w <= bw,
                            y + r < bh,
                    ;
                }
                let ghost before = self.pixels();
                self.buf.set(idx + c as usize, word);
                proof {
                    let j = idx + c;
                    lemma_coords_index(x + c, (y + r) as int, bw);
                    assert forall|i: int| 0 <= i < self.pixels().len() implies #[trigger] self.pixels()[i]
                        == (if (x <= i % bw < x + w && y <= i / bw < y + r) || (i / bw == y + r && x
                        <= i % bw < x + c + 1) {
                        word
                    } else {
                        start[i]
                    }) by {
                        lemma_index_coords(i, bw, bh);
                        if i != j {
                            assert(self.pixels()[i] == before[i]);
                            if i / bw == y + r && i % bw == x + c {
                                assert(i == (x + c) + (y + r) * bw);
                            }
                        }
                    }
                }
                c = c + 1;
            }
            r = r + 1;
        }
        assert(self.pixels() =~= fill(start, bw, rect(x as int, y as int, w as int, h as int), word));
    }

    /// Paints the test pattern: the pixel at column x, row y gets red x % 255, green
    /// y % 255 and blue (x · y) % 255.
    pub fn draw_test_pattern(&mut self)
        requires
            old(self).wf(),
        ensures
            final(self).wf(),
            final(self).cols() == old(self).cols(),
            final(self).rows() == old(self).rows(),
            final(self).pixels() == test_pattern(old(self).cols(), old(self).pixels().len() as int),
    {
        let ghost bw = self.cols();
        let ghost bh = self.rows();
        let n = self.width * self.height;
        let mut index: u32 = 0;
        while index < n
            invariant
                self.wf(),
                self.cols() == bw,
                self.rows() == bh,
                n == bw * bh,
                n == self.pixels().len(),
                self.width == bw,
                index <= n,
                forall|k: int| 0 <= k < index ==> #[trigger] self.pixels()[k] == pattern_word(k % bw, k / bw),
            decreases n - index,
        {
            proof {
                lemma_index_coords(index as int, bw, bh);
            }
            let y = index / self.width;
            let x = index % self.width;
            proof {
                assert(x * y < bw * bh) by (nonlinear_arith)
                    requires
                        x < bw,
                        y < bh,
                ;
            }
            let red = x % 255;
            let green = y % 255;
            let blue = (x * y) % 255;
            let word = u32::from(Color::new(red, green, blue));
            self.buf.set(index as usize, word);
            index = index + 1;
        }
        assert(self.pixels() =~= test_pattern(bw, n as int));
    }

    /// Whether `draw_triangle_direct` accepts these vertices (see `triangle_fits`).
    pub fn triangle_in_range(verts: &[Point; 3]) -> (r: bool)
        ensures
            r == triangle_fits(verts[0], verts[1], verts[2]),
    {
        let (s0, s1, s2) = sort_vertices(verts);
        if s0.y == s2.y {
            s0.x < i32::MAX && s1.x < i32::MAX && s2.x < i32::MAX
        } else if s1.y == s2.y {
            flat_in_range(s0, s1, s2)
        } else if s0.y == s1.y {
            flat_in_range(s2, s0, s1)
        } else {
            let dx = (s2.x as i64) - (s0.x as i64);
            let dy = (s2.y as i64) - (s0.y as i64);
            if dx < -0x8000_0000 || dx > 0x7fff_ffff || dy > 0x7fff_ffff {
                return false;
            }
            let v4 = split_at_middle_row(s0, s1, s2);
            flat_in_range(s0, s1, v4) && flat_in_range(s2, s1, v4)
        }
    }

    /// Whether `draw_line` accepts these ends (see `line_fits`).
    pub fn line_in_range(a: Point, b: Point) -> (r: bool)
        ensures
            r == line_fits(a, b),
    {
        extents_in_range(a, b) && (is_short(a, b) || path_in_range(a, b, false))
    }
}

/// Whether the extents of the line from `a` to `b` fit (see `line_extents_fit`).
fn extents_in_range(a: Point, b: Point) -> (r: bool)
    ensures
        r == line_extents_fit(a, b),
{
    let ddx = (b.x as i64) - (a.x as i64);
    let ddy = (b.y as i64) - (a.y as i64);
    -0x7fff_ffff <= ddx && ddx <= 0x7fff_ffff && -0x7fff_ffff <= ddy && ddy <= 0x7fff_ffff
}

/// Whether a flat fill from `apex` toward the row of `b1` and `b2` fits (see
/// `flat_fits`).
fn flat_in_range(apex: Point, b1: Point, b2: Point) -> (r: bool)
    ensures
        r == flat_fits(apex, b1, b2),
{
    extents_in_range(apex, b1) && extents_in_range(apex, b2) && (is_short(apex, b1)
        || path_in_range(apex, b1, true)) && (is_short(apex, b2) || path_in_range(apex, b2, true))
        && apex.x < i32::MAX && b1.x < i32::MAX && b2.x < i32::MAX
}

/// Whether the line from `a` to `b` and every scan along it fit for a reason that needs
/// no walk along it: both extents are at most a third of `i32::MAX`, or the line is
/// horizontal or vertical and twice its length fits.
fn is_short(a: Point, b: Point) -> (r: bool)
    ensures
        r ==> line_fits(a, b) && edge_fits(a, b),
{
    let ddx = (b.x as i64) - (a.x as i64);
    let ddy = (b.y as i64) - (a.y as i64);
    let dx = if ddx < 0 {
        -ddx
    } else {
        ddx
    };
    let dy = if ddy < 0 {
        -ddy
    } else {
        ddy
    };
    if 3 * dx <= 0x7fff_ffff && 3 * dy <= 0x7fff_ffff {
        proof {
            lemma_short_line_fits(a, b);
        }
        true
    } else if (dy == 0 && 2 * dx <= 0x7fff_ffff) || (dx == 0 && 2 * dy <= 0x8000_0000) {
        proof {
            lemma_axis_line_fits(a, b);
        }
        true
    } else {
        false
    }
}

/// Whether the arithmetic of the step from pixel (x, y), with error term `e`, of the
/// line from `a` to `b` stays within `i32` (see `step_fits`); `dx` and `dy` are the
/// line's extents as `line_dx` and `line_dy` give them.
fn step_in_range(a: Point, b: Point, dx: i64, dy: i64, x: i64, y: i64, e: i64) -> (r: bool)
    requires
        line_extents_fit(a, b),
        dx == line_dx(a, b),
        dy == line_dy(a, b),
        on_track(a, b, x as int, y as int, e as int),
    ensures
        r == step_fits(a, b, (x as int, y as int)),
{
    let e2 = 2 * e;
    if e2 < -0x8000_0000 || e2 > 0x7fff_ffff {
        return false;
    }
    let mut e1 = e;
    if e2 >= dy {
        if x == b.x as i64 {
            return true;
        }
        e1 = e + dy;
        if e1 < -0x8000_0000 || e1 > 0x7fff_ffff {
            return false;
        }
    }
    if e2 <= dx {
        if y == b.y as i64 {
            return true;
        }
        let e3 = e1 + dx;
        if e3 < -0x8000_0000 || e3 > 0x7fff_ffff {
            return false;
        }
    }
    true
}

/// Walks the line from `a` to `b` and tells whether the step from each pixel fits: from
/// every pixel (`line_fits`, its extents aside), or from each pixel that a scan toward
/// `b`'s row reads (`edge_fits`).
#[verifier::spinoff_prover]
#[verifier::rlimit(40)]
fn path_in_range(a: Point, b: Point, edge: bool) -> (r: bool)
    requires
        line_extents_fit(a, b),
    ensures
        r == (if edge {
            edge_fits(a, b)
        } else {
            line_fits(a, b)
        }),
{
    let ddx = (b.x as i64) - (a.x as i64);
    let dx = if ddx < 0 {
        -ddx
    } else {
        ddx
    };
    let ddy = (b.y as i64) - (a.y as i64);
    let dy = if ddy < 0 {
        ddy
    } else {
        -ddy
    };
    let sx: i64 = if a.x < b.x {
        1
    } else {
        -1
    };
    let sy: i64 = if a.y < b.y {
        1
    } else {
        -1
    };
    let bx = b.x as i64;
    let by = b.y as i64;
    let mut x = a.x as i64;
    let mut y = a.y as i64;
    let mut e = dx + dy;
    let ghost path = line_path(a, b);
    let ghost mut done: Seq<(int, int)> = Seq::empty();
    let ghost mut fuel: nat = (line_dx(a, b) - line_dy(a, b) + 1) as nat;
    proof {
        lemma_start_on_track(a, b);
        lemma_line_path_shape(a, b);
        reveal(edge_fits);
        assert(path == done + line_trace(a, b, x as int, y as int, e as int, fuel));
    }
    loop
        invariant
            line_extents_fit(a, b),
            path == line_path(a, b),
            dx == line_dx(a, b),
            dy == line_dy(a, b),
            sx == line_sx(a, b),
            sy == line_sy(a, b),
            bx == b.x,
            by == b.y,
            on_track(a, b, x as int, y as int, e as int),
            fuel > steps_left(a, b, x as int, y as int),
            path == done + line_trace(a, b, x as int, y as int, e as int, fuel),
            forall|j: int| 0 <= j < done.len() ==> step_fits(a, b, #[trigger] done[j]),
            edge ==> forall|j: int|
                0 <= j < done.len() ==> steps_y(a, b, (#[trigger] done[j]).1) < steps_y(
                    a,
                    b,
                    b.y as int,
                ),
        decreases steps_left(a, b, x as int, y as int),
    {
        let ghost k = done.len() as int;
        let ghost x0 = x as int;
        let ghost y0 = y as int;
        let ghost e0 = e as int;
        proof {
            lemma_line_path_shape(a, b);
            let t = line_trace(a, b, x0, y0, e0, fuel);
            assert(t[0] == (x0, y0));
            assert(path[k] == (x0, y0));
            assert(forall|j: int| 0 <= j < k ==> #[trigger] path[j] == done[j]);
            if k > 0 {
                assert(path[k - 1] == done[k - 1]);
            }
        }
        if !step_in_range(a, b, dx, dy, x, y, e) {
            proof {
                reveal(edge_fits);
                assert(!step_fits(a, b, path[k]));
            }
            return false;
        }
        if edge && y == by {
            proof {
                reveal(edge_fits);
                assert forall|j: int|
                    0 <= j < path.len() && (j == 0 || steps_y(a, b, path[j - 1].1) < steps_y(
                        a,
                        b,
                        b.y as int,
                    )) implies step_fits(a, b, #[trigger] path[j]) by {
                    if j > k {
                        assert(steps_y(a, b, path[k].1) <= steps_y(a, b, path[j - 1].1));
                    }
                }
            }
            return true;
        }
        let e2 = 2 * e;
        if e2 >= dy {
            if x == bx {
                proof {
                    reveal(edge_fits);
                    assert(line_step(a, b, x0, y0, e0) is None);
                    assert(line_trace(a, b, x0, y0, e0, fuel) =~= seq![(x0, y0)]);
                    assert(path.len() == k + 1);
                }
                return true;
            }
            e = e + dy;
            x = x + sx;
        }
        if e2 <= dx {
            if y == by {
                proof {
                    reveal(edge_fits);
                    assert(line_step(a, b, x0, y0, e0) is None);
                    assert(line_trace(a, b, x0, y0, e0, fuel) =~= seq![(x0, y0)]);
                    assert(path.len() == k + 1);
                }
                return true;
            }
            e = e + dx;
            y = y + sy;
        }
        proof {
            lemma_step_on_track(a, b, x0, y0, e0);
            let s = line_step(a, b, x0, y0, e0)->0;
            assert(s == (x as int, y as int, e as int));
            assert(line_trace(a, b, x0, y0, e0, fuel) == seq![(x0, y0)] + line_trace(
                a,
                b,
                s.0,
                s.1,
                s.2,
                (fuel - 1) as nat,
            ));
            if edge {
                assert(steps_y(a, b, y0) < steps_y(a, b, b.y as int)) by {
                    assert(0 <= steps_y(a, b, y0) <= -line_dy(a, b));
                }
            }
            done = done.push((x0, y0));
            assert(path =~= done + line_trace(a, b, s.0, s.1, s.2, (fuel - 1) as nat));
            fuel = (fuel - 1) as nat;
        }
    }
}

} // verus!
