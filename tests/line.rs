use embedded_graphics::geometry::{Point, Size};
use embedded_graphics::line::{resolve_directions, Line, Pixel};
use embedded_graphics::pixelcolor::BinaryColor;
use embedded_graphics::style::Style;

fn collect(line: &Line<BinaryColor>) -> Vec<Pixel<BinaryColor>> {
    let mut it = line.into_iter();
    let mut out = Vec::new();
    while let Some(p) = it.next() {
        out.push(p);
    }
    out
}

fn points(line: &Line<BinaryColor>) -> Vec<(i32, i32)> {
    collect(line).iter().map(|Pixel(p, _)| (p.x, p.y)).collect()
}

fn test_expected_line(start: Point, end: Point, expected: &[(i32, i32)]) {
    let line = Line::new(start, end).style(Style::stroke_color(BinaryColor::On));
    let mut expected_iter = expected.iter();
    let mut it = line.into_iter();
    while let Some(Pixel(coord, _)) = it.next() {
        match expected_iter.next() {
            Some(point) => assert_eq!(coord, Point::new(point.0, point.1)),
            // expected runs out of points before line does
            None => unreachable!(),
        }
    }
    // check that expected has no points left
    assert!(expected_iter.next().is_none())
}

#[test]
fn bounding_box() {
    let start = Point::new(10, 10);
    let end = Point::new(20, 20);

    let line: Line<BinaryColor> = Line::new(start, end);
    let backwards_line: Line<BinaryColor> = Line::new(end, start);

    assert_eq!(line.top_left(), start);
    assert_eq!(line.bottom_right(), end);
    assert_eq!(line.size(), Size::new(10, 10));

    assert_eq!(backwards_line.top_left(), start);
    assert_eq!(backwards_line.bottom_right(), end);
    assert_eq!(backwards_line.size(), Size::new(10, 10));
}

#[test]
fn draws_no_dot() {
    let start = Point::new(10, 10);
    let end = Point::new(10, 10);
    let expected = [];
    test_expected_line(start, end, &expected);
}

#[test]
fn draws_short_correctly() {
    let start = Point::new(2, 3);
    let end = Point::new(3, 2);
    let expected = [(2, 3), (3, 2)];
    test_expected_line(start, end, &expected);
}

#[test]
fn draws_octant_1_correctly() {
    let start = Point::new(10, 10);
    let end = Point::new(15, 13);
    let expected = [(10, 10), (11, 11), (12, 11), (13, 12), (14, 12), (15, 13)];
    test_expected_line(start, end, &expected);
}

#[test]
fn draws_octant_2_correctly() {
    let start = Point::new(10, 10);
    let end = Point::new(13, 15);
    let expected = [(10, 10), (11, 11), (11, 12), (12, 13), (12, 14), (13, 15)];
    test_expected_line(start, end, &expected);
}

#[test]
fn draws_octant_3_correctly() {
    let start = Point::new(10, 10);
    let end = Point::new(7, 15);
    let expected = [(10, 10), (9, 11), (9, 12), (8, 13), (8, 14), (7, 15)];
    test_expected_line(start, end, &expected);
}

#[test]
fn draws_octant_4_correctly() {
    let start = Point::new(10, 10);
    let end = Point::new(5, 13);
    let expected = [(10, 10), (9, 11), (8, 11), (7, 12), (6, 12), (5, 13)];
    test_expected_line(start, end, &expected);
}

#[test]
fn draws_octant_5_correctly() {
    let start = Point::new(10, 10);
    let end = Point::new(5, 7);
    let expected = [(10, 10), (9, 9), (8, 9), (7, 8), (6, 8), (5, 7)];
    test_expected_line(start, end, &expected);
}

#[test]
fn draws_octant_6_correctly() {
    let start = Point::new(10, 10);
    let end = Point::new(7, 5);
    let expected = [(10, 10), (9, 9), (9, 8), (8, 7), (8, 6), (7, 5)];
    test_expected_line(start, end, &expected);
}

#[test]
fn draws_octant_7_correctly() {
    let start = Point::new(10, 10);
    let end = Point::new(13, 5);
    let expected = [(10, 10), (11, 9), (11, 8), (12, 7), (12, 6), (13, 5)];
    test_expected_line(start, end, &expected);
}

#[test]
fn draws_octant_8_correctly() {
    let start = Point::new(10, 10);
    let end = Point::new(15, 7);
    let expected = [(10, 10), (11, 9), (12, 9), (13, 8), (14, 8), (15, 7)];
    test_expected_line(start, end, &expected);
}

#[test]
fn reversed_line_draws_same_points_backwards() {
    let expected = [(15, 13), (14, 12), (13, 12), (12, 11), (11, 11), (10, 10)];
    test_expected_line(Point::new(15, 13), Point::new(10, 10), &expected);
}

#[test]
fn zero_length_thick_line_draws_nothing() {
    let line = Line::new(Point::new(4, 4), Point::new(4, 4))
        .stroke_color(Some(BinaryColor::On))
        .fill_color(Some(BinaryColor::Off))
        .stroke_width(7);
    assert!(collect(&line).is_empty());
}

#[test]
fn zero_width_draws_nothing() {
    let line = Line::new(Point::new(0, 0), Point::new(9, 4))
        .stroke_color(Some(BinaryColor::On))
        .stroke_width(0);
    assert!(collect(&line).is_empty());
}

#[test]
fn transparent_stroke_draws_nothing() {
    let line: Line<BinaryColor> = Line::new(Point::new(0, 0), Point::new(9, 4)).stroke_width(3);
    assert!(collect(&line).is_empty());
}

#[test]
fn thick_horizontal_line_has_three_pixel_sections() {
    let line = Line::new(Point::new(0, 0), Point::new(10, 0))
        .stroke_color(Some(BinaryColor::On))
        .fill_color(Some(BinaryColor::Off))
        .stroke_width(3);
    let pixels = collect(&line);
    assert_eq!(pixels.len(), 33);
    let first: Vec<(i32, i32, BinaryColor)> = pixels[..3].iter().map(|Pixel(p, c)| (p.x, p.y, *c)).collect();
    assert_eq!(
        first,
        vec![(0, 0, BinaryColor::On), (0, -1, BinaryColor::On), (0, 1, BinaryColor::Off)]
    );
}

#[test]
fn thick_sloped_line_sections() {
    let line = Line::new(Point::new(0, 0), Point::new(10, 4))
        .stroke_color(Some(BinaryColor::On))
        .fill_color(Some(BinaryColor::Off))
        .stroke_width(4);
    let pts = points(&line);
    assert_eq!(pts.len(), 33);
    assert_eq!(&pts[..9], &[(0, 0), (0, -1), (0, 1), (1, 0), (1, -1), (1, 1), (2, 1), (2, 0), (2, 2)]);
}

#[test]
fn wider_stroke_never_draws_fewer() {
    let mut last = 0;
    for w in 0..8u8 {
        let line = Line::new(Point::new(3, -2), Point::new(-9, 5))
            .stroke_color(Some(BinaryColor::On))
            .fill_color(Some(BinaryColor::Off))
            .stroke_width(w);
        let n = collect(&line).len();
        assert!(n >= last);
        last = n;
    }
    assert!(last > 13);
}

#[test]
fn rederived_streams_agree() {
    let line = Line::new(Point::new(1, 2), Point::new(-6, 9))
        .stroke_color(Some(BinaryColor::On))
        .fill_color(Some(BinaryColor::Off))
        .stroke_width(5);
    let a: Vec<(i32, i32, BinaryColor)> = collect(&line).iter().map(|Pixel(p, c)| (p.x, p.y, *c)).collect();
    let b: Vec<(i32, i32, BinaryColor)> = collect(&line).iter().map(|Pixel(p, c)| (p.x, p.y, *c)).collect();
    assert!(!a.is_empty());
    assert_eq!(a, b);
}

#[test]
fn finished_stream_stays_finished() {
    let line = Line::new(Point::new(0, 0), Point::new(2, 1)).style(Style::stroke_color(BinaryColor::On));
    let mut it = line.into_iter();
    let mut n = 0;
    while it.next().is_some() {
        n += 1;
    }
    assert_eq!(n, 3);
    assert!(it.next().is_none());
    assert!(it.next().is_none());
}

#[test]
fn directions_per_quadrant() {
    let o = Point::new(0, 0);
    let (d, p, s) = resolve_directions(o, Point::new(5, -3));
    assert_eq!((d, p, s), (Point::new(1, -1), Point::new(-1, -1), 1));
    let (d, p, s) = resolve_directions(o, Point::new(3, 5));
    assert_eq!((d, p, s), (Point::new(1, 1), Point::new(1, -1), 1));
    let (d, p, s) = resolve_directions(o, Point::new(-5, 3));
    assert_eq!((d, p, s), (Point::new(-1, 1), Point::new(1, 1), 1));
    let (d, p, s) = resolve_directions(o, Point::new(-3, -5));
    assert_eq!((d, p, s), (Point::new(-1, -1), Point::new(-1, 1), 1));
    assert_eq!((p.x * s, p.y * s), (d.y, -d.x));
}

#[test]
fn translate_moves_both_ends() {
    let line: Line<BinaryColor> = Line::new(Point::new(5, 10), Point::new(15, 20)).stroke_width(3);
    let moved = line.translate(Point::new(10, 10));
    assert_eq!(moved.start, Point::new(15, 20));
    assert_eq!(moved.end, Point::new(25, 30));
    assert_eq!(moved.style.stroke_width, 3);

    let mut line = line;
    line.translate_mut(Point::new(-5, 1));
    assert_eq!(line.start, Point::new(0, 11));
    assert_eq!(line.end, Point::new(10, 21));
}

#[test]
fn builders_set_style() {
    let mut line = Line::new(Point::new(0, 0), Point::new(1, 1))
        .stroke_color(Some(BinaryColor::On))
        .fill_color(Some(BinaryColor::Off))
        .stroke_width(9);
    assert_eq!(line.style.stroke_color, Some(BinaryColor::On));
    assert_eq!(line.style.fill_color, Some(BinaryColor::Off));
    assert_eq!(line.style.stroke_width, 9);
    assert!(!line.show_extra_perp);
    line.show_extra_perp(true);
    assert!(line.show_extra_perp);
    let d: Style<BinaryColor> = Style::default();
    assert_eq!(d.stroke_width, 1);
    assert_eq!(d.stroke_color, None);
}

#[test]
fn tie_breaks_depend_on_direction() {
    let forward = [(0, 0), (1, 0), (2, 1)];
    test_expected_line(Point::new(0, 0), Point::new(2, 1), &forward);
    let backward = [(2, 1), (1, 1), (0, 0)];
    test_expected_line(Point::new(2, 1), Point::new(0, 0), &backward);
}

#[test]
fn one_pixel_stroke_draws_one_pixel_per_step() {
    let line = Line::new(Point::new(-7, 3), Point::new(20, -5)).style(Style::stroke_color(BinaryColor::On));
    let pts = points(&line);
    assert_eq!(pts.len(), 28);
    assert_eq!(pts[0], (-7, 3));
    assert_eq!(pts[27], (20, -5));
}

#[test]
fn sweep_stops_at_coordinate_range() {
    let line = Line::new(Point::new(0, i32::MAX), Point::new(10, i32::MAX))
        .stroke_color(Some(BinaryColor::On))
        .fill_color(Some(BinaryColor::Off))
        .stroke_width(3);
    // the fill side would lie below the largest coordinate
    assert_eq!(collect(&line).len(), 22);
}

#[test]
fn translated_line_draws_translated_pixels() {
    let line = Line::new(Point::new(3, -2), Point::new(-9, 5))
        .stroke_color(Some(BinaryColor::On))
        .fill_color(Some(BinaryColor::Off))
        .stroke_width(4);
    let by = Point::new(100, -40);
    let moved = line.translate(by);
    let a: Vec<(i32, i32, BinaryColor)> = collect(&line).iter().map(|Pixel(p, c)| (p.x + by.x, p.y + by.y, *c)).collect();
    let b: Vec<(i32, i32, BinaryColor)> = collect(&moved).iter().map(|Pixel(p, c)| (p.x, p.y, *c)).collect();
    assert!(!a.is_empty());
    assert_eq!(a, b);
}

#[test]
fn mirrored_end_mirrors_the_walk() {
    let reference = Line::new(Point::new(10, 10), Point::new(15, 13)).style(Style::stroke_color(BinaryColor::On));
    let mirrored = Line::new(Point::new(10, 10), Point::new(5, 13)).style(Style::stroke_color(BinaryColor::On));
    let expected: Vec<(i32, i32)> = points(&reference).iter().map(|&(x, y)| (20 - x, y)).collect();
    assert_eq!(points(&mirrored), expected);
}

#[test]
fn pixel_count_within_bound() {
    for w in 0..6u8 {
        let line = Line::new(Point::new(0, 0), Point::new(7, -3))
            .stroke_color(Some(BinaryColor::On))
            .fill_color(Some(BinaryColor::Off))
            .stroke_width(w);
        assert!(collect(&line).len() <= 8 * (2 * w as usize + 1));
    }
}
