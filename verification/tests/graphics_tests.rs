use soft_raster::render::graphics::{Color, Graphics, Point};
use soft_raster::render::line::LineIter;

const BG: u32 = 0x0011_2233;

fn frame(w: u32, h: u32) -> Graphics {
    Graphics::new(vec![BG; (w * h) as usize], w, h)
}

/// The (column, row) of every pixel that holds `word`, in row-major order.
fn painted(g: &Graphics, word: u32) -> Vec<(i32, i32)> {
    let w = g.width() as usize;
    let mut out = Vec::new();
    for (i, v) in g.buffer().iter().enumerate() {
        if *v == word {
            out.push(((i % w) as i32, (i / w) as i32));
        }
    }
    out.sort();
    out
}

fn sorted(mut v: Vec<(i32, i32)>) -> Vec<(i32, i32)> {
    v.sort();
    v
}

#[test]
fn color_new_reduces_channels_mod_255() {
    let c = Color::new(300, 255, 10);
    assert_eq!(u32::from(c), (45 << 16) | 10);
    assert_eq!(u32::from(Color::new(1, 2, 3)), 0x0001_0203);
}

#[test]
fn named_colors_pack_as_rgb_words() {
    assert_eq!(u32::from(Color::red()), 0x00FF_0000);
    assert_eq!(u32::from(Color::green()), 0x0000_FF00);
    assert_eq!(u32::from(Color::blue()), 0x0000_00FF);
}

#[test]
fn color_word_channels_read_back() {
    let w = u32::from(Color::new(12, 34, 56));
    assert_eq!(w % 256, 56);
    assert_eq!((w / 256) % 256, 34);
    assert_eq!(w / 65536, 12);
}

#[test]
fn point_new_keeps_coordinates() {
    let p = Point::new(-3, 7);
    assert_eq!((p.x, p.y), (-3, 7));
}

#[test]
fn new_frame_keeps_buffer_and_size() {
    let g = Graphics::new(vec![1, 2, 3, 4, 5, 6], 3, 2);
    assert_eq!(g.width(), 3);
    assert_eq!(g.height(), 2);
    assert_eq!(g.buffer(), &vec![1, 2, 3, 4, 5, 6]);
}

#[test]
fn set_pixel_then_read_back() {
    let mut g = frame(4, 3);
    g.set_pixel(2, 1, Color::red());
    assert_eq!(g.buffer()[2 + 4], 0x00FF_0000);
    assert_eq!(painted(&g, 0x00FF_0000), vec![(2, 1)]);
    assert_eq!(g.buffer().iter().filter(|v| **v == BG).count(), 11);
}

#[test]
fn set_pixel_outside_frame_is_skipped() {
    let mut g = frame(4, 3);
    g.set_pixel(-1, 0, Color::red());
    g.set_pixel(4, 0, Color::red());
    g.set_pixel(0, 3, Color::red());
    g.set_pixel(0, -5, Color::red());
    assert!(g.buffer().iter().all(|v| *v == BG));
}

#[test]
fn clear_sets_every_pixel() {
    let mut g = frame(5, 4);
    g.set_pixel(1, 1, Color::green());
    g.clear(Color::blue());
    assert_eq!(g.buffer(), &vec![0xFF; 20]);
}

#[test]
fn draw_line_shallow() {
    let mut g = frame(8, 8);
    g.draw_line(Point::new(0, 0), Point::new(5, 2), Color::red());
    assert_eq!(painted(&g, 0x00FF_0000), sorted(vec![(0, 0), (1, 0), (2, 1), (3, 1), (4, 2), (5, 2)]));
}

#[test]
fn draw_line_steep_leftward() {
    let mut g = frame(8, 8);
    g.draw_line(Point::new(2, 0), Point::new(0, 5), Color::red());
    assert_eq!(painted(&g, 0x00FF_0000), sorted(vec![(2, 0), (2, 1), (1, 2), (1, 3), (0, 4), (0, 5)]));
}

#[test]
fn draw_line_upward_covers_both_ends() {
    let mut g = frame(8, 8);
    g.draw_line(Point::new(7, 7), Point::new(0, 2), Color::red());
    assert_eq!(
        painted(&g, 0x00FF_0000),
        sorted(vec![(7, 7), (6, 6), (5, 6), (4, 5), (3, 4), (2, 3), (1, 3), (0, 2)])
    );
}

#[test]
fn draw_line_single_point() {
    let mut g = frame(8, 8);
    g.draw_line(Point::new(3, 3), Point::new(3, 3), Color::red());
    assert_eq!(painted(&g, 0x00FF_0000), vec![(3, 3)]);
}

#[test]
fn draw_line_partly_outside_frame() {
    let mut g = frame(4, 4);
    g.draw_line(Point::new(-2, -1), Point::new(3, 9), Color::red());
    assert_eq!(painted(&g, 0x00FF_0000), sorted(vec![(0, 2), (0, 3)]));
}

#[test]
fn line_iter_yields_the_drawn_line() {
    let mut it = LineIter::new(Point::new(0, 0), Point::new(5, 2));
    let mut got = Vec::new();
    while let Some(p) = it.next() {
        got.push((p.x, p.y));
    }
    assert_eq!(got, vec![(0, 0), (1, 0), (2, 1), (3, 1), (4, 2), (5, 2)]);
    assert!(it.next().is_none());
}

#[test]
fn line_iter_matches_draw_line() {
    let ends = [((7, 7), (0, 2)), ((2, 0), (0, 5)), ((4, 1), (1, 1)), ((-2, -1), (3, 9))];
    for ((ax, ay), (bx, by)) in ends {
        let mut it = LineIter::new(Point::new(ax, ay), Point::new(bx, by));
        let mut got = Vec::new();
        while let Some(p) = it.next() {
            got.push((p.x, p.y));
        }
        let mut g = Graphics::new(vec![0; 400], 20, 20);
        g.draw_line(Point::new(ax + 5, ay + 5), Point::new(bx + 5, by + 5), Color::red());
        let shifted: Vec<(i32, i32)> = got.iter().map(|(x, y)| (x + 5, y + 5)).collect();
        assert_eq!(painted(&g, 0x00FF_0000), sorted(shifted));
        assert_eq!(got.first(), Some(&(ax, ay)));
        assert_eq!(got.last(), Some(&(bx, by)));
    }
}

#[test]
fn line_iter_with_equal_ends_yields_nothing() {
    let mut it = LineIter::new(Point::new(3, 3), Point::new(3, 3));
    assert!(it.next().is_none());
    assert!(it.next().is_none());
}

#[test]
fn line_iter_steps_are_adjacent() {
    let mut it = LineIter::new(Point::new(-9, 4), Point::new(13, -6));
    let mut prev = it.next().unwrap();
    let mut count = 1;
    while let Some(p) = it.next() {
        assert!((p.x - prev.x).abs() <= 1 && (p.y - prev.y).abs() <= 1);
        assert!(p.x != prev.x || p.y != prev.y);
        prev = p;
        count += 1;
    }
    assert_eq!((prev.x, prev.y), (13, -6));
    assert_eq!(count, 23);
}

#[test]
fn draw_rect_fills_the_rectangle() {
    let mut g = frame(6, 5);
    g.draw_rect(1, 2, 3, 2, Color::green());
    assert_eq!(
        painted(&g, 0x0000_FF00),
        sorted(vec![(1, 2), (2, 2), (3, 2), (1, 3), (2, 3), (3, 3)])
    );
}

#[test]
fn draw_rect_empty() {
    let mut g = frame(6, 5);
    g.draw_rect(6, 0, 0, 5, Color::green());
    assert!(g.buffer().iter().all(|v| *v == BG));
}

#[test]
fn set_pixels_copies_a_block() {
    let mut g = frame(5, 4);
    g.set_pixels(2, 1, 3, 2, &[10, 11, 12, 20, 21, 22]);
    let b = g.buffer();
    assert_eq!(&b[5 + 2..5 + 5], &[10, 11, 12]);
    assert_eq!(&b[10 + 2..10 + 5], &[20, 21, 22]);
    assert_eq!(b.iter().filter(|v| **v == BG).count(), 14);
}

#[test]
fn test_pattern_values() {
    let mut g = frame(300, 2);
    g.draw_test_pattern();
    let b = g.buffer();
    assert_eq!(b[0], 0);
    assert_eq!(b[7], 7 << 16);
    assert_eq!(b[300 + 7], (7 << 16) | (1 << 8) | 7);
    assert_eq!(b[300 + 260], (5 << 16) | (1 << 8) | 5);
    assert_eq!(b[300 + 255], (1 << 8));
}

#[test]
fn triangle_general() {
    let mut g = frame(8, 8);
    g.draw_triangle_direct(&[Point::new(1, 1), Point::new(6, 3), Point::new(2, 6)], Color::blue());
    assert_eq!(
        painted(&g, 0xFF),
        sorted(vec![
            (1, 1), (1, 2), (1, 3), (1, 4), (2, 1), (2, 2), (2, 3), (2, 4), (2, 5), (2, 6),
            (3, 2), (3, 3), (3, 4), (3, 5), (4, 2), (4, 3), (4, 4), (5, 3), (5, 4), (6, 3),
        ])
    );
}

#[test]
fn triangle_flat_top() {
    let mut g = frame(8, 8);
    g.draw_triangle_direct(&[Point::new(0, 0), Point::new(6, 0), Point::new(3, 5)], Color::blue());
    assert_eq!(
        painted(&g, 0xFF),
        sorted(vec![
            (0, 0), (1, 0), (1, 1), (1, 2), (2, 0), (2, 1), (2, 2), (2, 3), (2, 4), (3, 0),
            (3, 1), (3, 2), (3, 3), (3, 4), (3, 5), (4, 0), (4, 1), (4, 2), (4, 3), (4, 4),
            (5, 0), (5, 1), (5, 2), (6, 0),
        ])
    );
}

#[test]
fn triangle_flat_bottom() {
    let mut g = frame(8, 8);
    g.draw_triangle_direct(&[Point::new(3, 0), Point::new(0, 5), Point::new(7, 5)], Color::blue());
    assert_eq!(
        painted(&g, 0xFF),
        sorted(vec![
            (0, 5), (1, 3), (1, 4), (1, 5), (2, 1), (2, 2), (2, 3), (2, 4), (2, 5), (3, 0),
            (3, 1), (3, 2), (3, 3), (3, 4), (3, 5), (4, 1), (4, 2), (4, 3), (4, 4), (4, 5),
            (5, 2), (5, 3), (5, 4), (5, 5), (6, 4), (6, 5), (7, 5),
        ])
    );
}

#[test]
fn triangle_partly_outside_frame() {
    let mut g = frame(8, 8);
    g.draw_triangle_direct(&[Point::new(-2, -1), Point::new(9, 4), Point::new(3, 10)], Color::blue());
    let got = painted(&g, 0xFF);
    assert_eq!(got.len(), 49);
    assert!(got.contains(&(0, 0)) && got.contains(&(7, 6)) && !got.contains(&(7, 7)));
}

#[test]
fn triangle_vertical_edge() {
    let mut g = frame(8, 8);
    g.draw_triangle_direct(&[Point::new(5, 1), Point::new(5, 7), Point::new(1, 4)], Color::blue());
    assert_eq!(
        painted(&g, 0xFF),
        sorted(vec![
            (1, 4), (2, 3), (2, 4), (2, 5), (3, 3), (3, 4), (3, 5), (4, 2), (4, 3), (4, 4),
            (4, 5), (4, 6), (5, 1), (5, 2), (5, 3), (5, 4), (5, 5), (5, 6), (5, 7),
        ])
    );
}

#[test]
fn triangle_on_one_row_spans_all_three_vertices() {
    let mut g = frame(8, 8);
    g.draw_triangle_direct(&[Point::new(1, 2), Point::new(5, 2), Point::new(6, 2)], Color::blue());
    assert_eq!(painted(&g, 0xFF), vec![(1, 2), (2, 2), (3, 2), (4, 2), (5, 2), (6, 2)]);
    let mut g = frame(8, 8);
    g.draw_triangle_direct(&[Point::new(4, 0), Point::new(0, 0), Point::new(7, 0)], Color::blue());
    assert_eq!(painted(&g, 0xFF), (0..8).map(|x| (x, 0)).collect::<Vec<_>>());
}

#[test]
fn triangle_result_does_not_depend_on_vertex_order() {
    let tris = [
        [(1, 1), (6, 3), (2, 6)],
        [(0, 1), (6, 1), (3, 5)],
        [(3, 0), (0, 6), (7, 6)],
        [(2, 4), (6, 4), (5, 4)],
    ];
    for t in tris {
        let p = [Point::new(t[0].0, t[0].1), Point::new(t[1].0, t[1].1), Point::new(t[2].0, t[2].1)];
        let mut first = frame(8, 8);
        first.draw_triangle_direct(&p, Color::blue());
        let want = painted(&first, 0xFF);
        for order in [[0, 2, 1], [1, 0, 2], [1, 2, 0], [2, 0, 1], [2, 1, 0]] {
            let mut g = frame(8, 8);
            g.draw_triangle_direct(&[p[order[0]], p[order[1]], p[order[2]]], Color::blue());
            assert_eq!(painted(&g, 0xFF), want);
        }
    }
}

#[test]
fn triangle_covers_its_vertices() {
    let tris = [
        [(1, 1), (6, 3), (2, 6)],
        [(6, 6), (0, 1), (3, 3)],
        [(0, 7), (7, 7), (4, 0)],
        [(2, 2), (2, 5), (6, 2)],
    ];
    for t in tris {
        let mut g = frame(8, 8);
        let pts = [Point::new(t[0].0, t[0].1), Point::new(t[1].0, t[1].1), Point::new(t[2].0, t[2].1)];
        g.draw_triangle_direct(&pts, Color::blue());
        let got = painted(&g, 0xFF);
        for v in t {
            assert!(got.contains(&v));
        }
    }
}

#[test]
fn line_range_check() {
    assert!(Graphics::line_in_range(Point::new(0, 0), Point::new(715_827_882, -715_827_882)));
    // long horizontal and vertical lines fit as long as twice their length does
    assert!(Graphics::line_in_range(Point::new(0, 0), Point::new(715_827_883, 0)));
    assert!(Graphics::line_in_range(Point::new(0, 0), Point::new(1_000_000_000, 0)));
    assert!(Graphics::line_in_range(Point::new(5, 0), Point::new(5, -1_073_741_824)));
    assert!(!Graphics::line_in_range(Point::new(0, 0), Point::new(1_073_741_824, 0)));
    assert!(!Graphics::line_in_range(Point::new(5, 0), Point::new(5, 1_073_741_825)));
    // a steep line whose first doubled error term leaves i32
    assert!(!Graphics::line_in_range(Point::new(0, 0), Point::new(1, 2_000_000_000)));
    // extents that do not fit
    assert!(!Graphics::line_in_range(Point::new(i32::MIN, 0), Point::new(i32::MAX, 0)));
}

#[test]
fn triangle_range_check() {
    assert!(Graphics::triangle_in_range(&[Point::new(1, 1), Point::new(6, 3), Point::new(2, 6)]));
    assert!(!Graphics::triangle_in_range(&[Point::new(i32::MAX, 1), Point::new(i32::MAX, 3), Point::new(i32::MAX, 6)]));
    assert!(!Graphics::triangle_in_range(&[Point::new(0, 0), Point::new(0, 1), Point::new(1_100_000_000, 0)]));
    // one row: only the columns matter
    assert!(Graphics::triangle_in_range(&[Point::new(-5, 5), Point::new(1_000_000_000, 5), Point::new(3, 5)]));
    assert!(!Graphics::triangle_in_range(&[Point::new(-5, 5), Point::new(i32::MAX, 5), Point::new(3, 5)]));
    // the order of the vertices does not matter
    assert!(!Graphics::triangle_in_range(&[Point::new(0, 1), Point::new(1_100_000_000, 0), Point::new(0, 0)]));
    assert!(Graphics::triangle_in_range(&[Point::new(6, 3), Point::new(2, 6), Point::new(1, 1)]));
}

#[test]
fn line_pixels_lie_within_half_a_pixel_of_the_line() {
    let ends: [((i64, i64), (i64, i64)); 5] =
        [((0, 0), (7, 3)), ((2, 9), (-3, -4)), ((5, 5), (5, -6)), ((-4, 1), (9, 1)), ((3, 3), (-8, 7))];
    for ((ax, ay), (bx, by)) in ends {
        let dx = (bx - ax).abs();
        let big_dy = (by - ay).abs();
        let m = dx.max(big_dy);
        let mut it = LineIter::new(Point::new(ax as i32, ay as i32), Point::new(bx as i32, by as i32));
        let mut n = 0;
        while let Some(p) = it.next() {
            let i = (p.x as i64 - ax).abs();
            let j = (p.y as i64 - ay).abs();
            let offset = dx * j - big_dy * i;
            assert!(-m <= 2 * offset && 2 * offset <= m);
            n += 1;
        }
        if (ax, ay) != (bx, by) {
            assert_eq!(n, m + 1);
        }
    }
}
