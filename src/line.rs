//! The line primitive and its pixel stream.
//!
//! A line is drawn by a Bresenham walk from its start to its end point. At
//! each position of that walk a perpendicular sweep lays down the pixels of
//! one cross-section of the stroke: first the centre pixel and the pixels to
//! the left of the direction of travel, in the stroke colour, then the pixels
//! to the right, in the fill colour.
//!
//! The positions of the walk are given in closed form by `walk_point`; the
//! laws at the end of this file state what a line draws in its terms: one
//! section per position in walk order (`lemma_sections`), the exact pixels of
//! a one pixel wide stroke (`lemma_one_pixel_stroke`), and how drawing
//! behaves under reversal, mirroring, translation and wider strokes.
//!
//! Each edge of a sweep measures its distance from the centre pixel itself,
//! starting from zero at every position of the walk; it does not inherit the
//! walk's error. So a one pixel wide stroke draws exactly the centre pixel of
//! every position. The left edge draws while its distance is at most the
//! bound, the right edge only while its distance stays below it, so that a
//! stroke of even width gets its extra pixel on the left.
//!
//! The walk takes exactly `max(|dx|, |dy|)` steps and then stands on the end
//! point, so every line, however long, is drawn whole. All arithmetic is done
//! on 64-bit integers; an edge of a sweep that would leave the `i32`
//! coordinate range stops there.
use vstd::prelude::*;
use crate::geometry::{Point, Size, span};
use crate::style::Style;

verus! {

/// A coloured pixel, as handed to a display.
#[derive(Debug, Clone, Copy)]
pub struct Pixel<C>(pub Point, pub C);

/// Line primitive.
#[derive(Debug, Clone, Copy)]
pub struct Line<C> {
    /// Start point.
    pub start: Point,
    /// End point.
    pub end: Point,
    /// How the line is painted.
    pub style: Style<C>,
    /// Debugging switch; it has no effect on the pixels drawn.
    pub show_extra_perp: bool,
}

pub open spec fn min_i32(a: i32, b: i32) -> i32 {
    if a <= b { a } else { b }
}

pub open spec fn max_i32(a: i32, b: i32) -> i32 {
    if a <= b { b } else { a }
}

/// Top-left corner of the box spanned by two points.
pub open spec fn top_left_of(a: Point, b: Point) -> Point {
    Point { x: min_i32(a.x, b.x), y: min_i32(a.y, b.y) }
}

/// Bottom-right corner of the box spanned by two points.
pub open spec fn bottom_right_of(a: Point, b: Point) -> Point {
    Point { x: max_i32(a.x, b.x), y: max_i32(a.y, b.y) }
}

/// `p + by` fits the coordinate range.
pub open spec fn can_translate(p: Point, by: Point) -> bool {
    i32::MIN <= p.x + by.x <= i32::MAX && i32::MIN <= p.y + by.y <= i32::MAX
}

pub open spec fn translated(p: Point, by: Point) -> Point {
    Point { x: (p.x + by.x) as i32, y: (p.y + by.y) as i32 }
}

impl<C: Copy> Line<C> {
    /// The line with both end points moved by `by`.
    pub open spec fn moved_by(self, by: Point) -> Line<C> {
        Line { start: translated(self.start, by), end: translated(self.end, by), ..self }
    }

    /// Creates a line from `start` to `end` with the default style.
    pub fn new(start: Point, end: Point) -> (r: Line<C>)
        ensures
            r.start == start,
            r.end == end,
            r.style.stroke_color.is_none(),
            r.style.fill_color.is_none(),
            r.style.stroke_width == 1,
            !r.show_extra_perp,
    {
        Line { start, end, style: Style::default(), show_extra_perp: false }
    }

    /// Sets the debugging switch.
    pub fn show_extra_perp(&mut self, show: bool) -> (r: &mut Line<C>)
        ensures
            *r == (Line { show_extra_perp: show, ..*old(self) }),
            *final(self) == *final(r),
    {
        self.show_extra_perp = show;
        self
    }

    /// Replaces the whole style.
    pub fn style(self, style: Style<C>) -> (r: Line<C>)
        ensures
            r == (Line { style, ..self }),
    {
        Line { style, ..self }
    }

    /// Replaces the stroke colour.
    pub fn stroke_color(self, color: Option<C>) -> (r: Line<C>)
        ensures
            r == (Line { style: Style { stroke_color: color, ..self.style }, ..self }),
    {
        let mut r = self;
        r.style.stroke_color = color;
        r
    }

    /// Replaces the stroke width.
    pub fn stroke_width(self, width: u8) -> (r: Line<C>)
        ensures
            r == (Line { style: Style { stroke_width: width, ..self.style }, ..self }),
    {
        let mut r = self;
        r.style.stroke_width = width;
        r
    }

    /// Replaces the fill colour.
    pub fn fill_color(self, color: Option<C>) -> (r: Line<C>)
        ensures
            r == (Line { style: Style { fill_color: color, ..self.style }, ..self }),
    {
        let mut r = self;
        r.style.fill_color = color;
        r
    }

    /// Top-left corner of the bounding box.
    pub fn top_left(&self) -> (r: Point)
        ensures
            r == top_left_of(self.start, self.end),
    {
        let x = if self.start.x <= self.end.x { self.start.x } else { self.end.x };
        let y = if self.start.y <= self.end.y { self.start.y } else { self.end.y };
        Point::new(x, y)
    }

    /// Extent of the bounding box.
    pub fn size(&self) -> (r: Size)
        ensures
            r.width == span(self.start.x, self.end.x),
            r.height == span(self.start.y, self.end.y),
    {
        Size::from_bounding_box(self.start, self.end)
    }

    /// Bottom-right corner of the bounding box: the top-left corner moved by the size.
    pub fn bottom_right(&self) -> (r: Point)
        ensures
            r == bottom_right_of(self.start, self.end),
    {
        let tl = self.top_left();
        let s = self.size();
        Point::new((tl.x as i64 + s.width as i64) as i32, (tl.y as i64 + s.height as i64) as i32)
    }

    /// A copy of the line moved by `by`, with the same style.
    pub fn translate(&self, by: Point) -> (r: Line<C>)
        requires
            can_translate(self.start, by),
            can_translate(self.end, by),
        ensures
            r == self.moved_by(by),
    {
        Line {
            start: Point::new(self.start.x + by.x, self.start.y + by.y),
            end: Point::new(self.end.x + by.x, self.end.y + by.y),
            ..*self
        }
    }

    /// Moves the line by `by` in place, keeping its style.
    pub fn translate_mut(&mut self, by: Point) -> (r: &mut Line<C>)
        requires
            can_translate(old(self).start, by),
            can_translate(old(self).end, by),
        ensures
            *r == old(self).moved_by(by),
            *final(self) == *final(r),
    {
        self.start = Point::new(self.start.x + by.x, self.start.y + by.y);
        self.end = Point::new(self.end.x + by.x, self.end.y + by.y);
        self
    }
}

/// The bounding box does not depend on the direction in which a line is traversed.
pub proof fn lemma_bounding_box_reversal(start: Point, end: Point)
    ensures
        top_left_of(start, end) == top_left_of(end, start),
        top_left_of(start, end) == (Point { x: min_i32(start.x, end.x), y: min_i32(start.y, end.y) }),
        bottom_right_of(start, end) == bottom_right_of(end, start),
        span(start.x, end.x) == span(end.x, start.x),
        span(start.y, end.y) == span(end.y, start.y),
{
}

// ---------------------------------------------------------------- width bound

/// `r` is `sqrt(n)` rounded to the nearest integer. (A square root of an
/// integer never lies exactly halfway between two integers.)
pub open spec fn is_rounded_root(n: int, r: int) -> bool {
    r >= 0 && n <= r * r + r && (r == 0 || (r - 1) * (r - 1) + (r - 1) < n)
}

/// `sqrt(n)` rounded to the nearest integer.
pub open spec fn rounded_root(n: int) -> int
    decreases n,
{
    if n <= 0 {
        0
    } else {
        let r = rounded_root(n - 1);
        if n <= r * r + r { r } else { r + 1 }
    }
}

pub proof fn lemma_rounded_root(n: int)
    requires
        n >= 0,
    ensures
        is_rounded_root(n, rounded_root(n)),
    decreases n,
{
    if n > 0 {
        lemma_rounded_root(n - 1);
        let r = rounded_root(n - 1);
        assert((r + 1) * (r + 1) + (r + 1) == r * r + r + 2 * r + 2) by (nonlinear_arith);
        assert(r * r + r == (r + 1 - 1) * (r + 1 - 1) + (r + 1 - 1));
    }
}

pub proof fn lemma_rounded_root_unique(n: int, r1: int, r2: int)
    requires
        is_rounded_root(n, r1),
        is_rounded_root(n, r2),
    ensures
        r1 == r2,
{
    if r1 < r2 {
        assert(r1 * r1 + r1 <= (r2 - 1) * (r2 - 1) + (r2 - 1)) by (nonlinear_arith)
            requires r1 + 1 <= r2, r1 >= 0;
    } else if r2 < r1 {
        assert(r2 * r2 + r2 <= (r1 - 1) * (r1 - 1) + (r1 - 1)) by (nonlinear_arith)
            requires r2 + 1 <= r1, r2 >= 0;
    }
}

pub proof fn lemma_rounded_root_monotone(n1: int, n2: int)
    requires
        0 <= n1 <= n2,
    ensures
        rounded_root(n1) <= rounded_root(n2),
{
    lemma_rounded_root(n1);
    lemma_rounded_root(n2);
    let r1 = rounded_root(n1);
    let r2 = rounded_root(n2);
    if r1 > r2 {
        assert(r2 * r2 + r2 <= (r1 - 1) * (r1 - 1) + (r1 - 1)) by (nonlinear_arith)
            requires r2 + 1 <= r1, r2 >= 0;
    }
}

proof fn lemma_rounded_root_bound(n: int)
    requires
        0 <= n <= 0x4_0000_0000_0000_0000_0000,
    ensures
        rounded_root(n) <= 0x200_0000_0000,
{
    lemma_rounded_root(n);
    let r = rounded_root(n);
    if r > 0x200_0000_0000 {
        assert((r - 1) * (r - 1) + (r - 1) >= 0x4_0000_0000_0000_0000_0000) by (nonlinear_arith)
            requires r - 1 >= 0x200_0000_0000;
    }
}

/// Rounded square root of `n`, by bisection.
fn rounded_root_exec(n: u128) -> (r: u64)
    requires
        n <= 0x4_0000_0000_0000_0000_0000,
    ensures
        r == rounded_root(n as int),
        r <= 0x200_0000_0000,
{
    let mut lo: u128 = 0;
    let mut hi: u128 = 0x200_0000_0000;
    assert(hi * hi + hi >= n) by (nonlinear_arith)
        requires hi == 0x200_0000_0000, n <= 0x4_0000_0000_0000_0000_0000;
    while lo < hi
        invariant
            lo <= hi <= 0x200_0000_0000,
            n <= hi * hi + hi,
            lo == 0 || (lo - 1) * (lo - 1) + (lo - 1) < n,
        decreases hi - lo,
    {
        let mid: u128 = lo + (hi - lo) / 2;
        assert(mid * mid <= 0x4_0000_0000_0000_0000_0000) by (nonlinear_arith)
            requires mid <= 0x200_0000_0000;
        if mid * mid + mid >= n {
            hi = mid;
        } else {
            lo = mid + 1;
        }
    }
    proof {
        lemma_rounded_root(n as int);
        lemma_rounded_root_unique(n as int, lo as int, rounded_root(n as int));
    }
    lo as u64
}

/// The sweep bound of a line: `stroke_width * sqrt(dx^2 + dy^2)`, rounded.
pub open spec fn width_bound(w: int, dx: int, dy: int) -> int {
    rounded_root(w * w * (dx * dx + dy * dy))
}

// ------------------------------------------------------------ directions

/// Unit step of travel from `start` towards `end`, one sign per axis.
pub open spec fn travel_direction(start: Point, end: Point) -> Point {
    Point { x: if start.x >= end.x { -1i32 } else { 1i32 }, y: if start.y >= end.y { -1i32 } else { 1i32 } }
}

/// How far the minor coordinate has moved after `i` steps of a walk of `a`
/// major and `b` minor steps in all: `i * b / a` rounded to the nearest
/// integer, halves rounded down.
pub open spec fn minor_steps(a: int, b: int, i: int) -> int {
    (2 * i * b + a - 1) / (2 * a)
}

/// The `i`-th position of the walk from `start` to `end`: the coordinate of
/// the longer axis moves by `i` towards the end, the other by
/// `minor_steps(..)`.
pub open spec fn walk_point(start: Point, end: Point, i: int) -> Point {
    let dx = span(start.x, end.x);
    let dy = span(start.y, end.y);
    let d = travel_direction(start, end);
    if dx >= dy {
        Point { x: (start.x + d.x * i) as i32, y: (start.y + d.y * minor_steps(dx, dy, i)) as i32 }
    } else {
        Point { x: (start.x + d.x * minor_steps(dy, dx, i)) as i32, y: (start.y + d.y * i) as i32 }
    }
}

proof fn lemma_minor_steps(a: int, b: int, k: int, m: int)
    requires
        a >= 1,
        -a < 2 * (k * b - m * a) <= a,
    ensures
        m == minor_steps(a, b, k),
{
    let x = 2 * k * b + a - 1;
    let d = 2 * a;
    assert(m * d <= x < m * d + d) by (nonlinear_arith)
        requires -a < 2 * (k * b - m * a) <= a, x == 2 * k * b + a - 1, d == 2 * a;
    vstd::arithmetic::div_mod::lemma_fundamental_div_mod_converse(x, d, m, x - m * d);
}

/// `-1` where the line is steep (`|dy| > |dx|`), `1` otherwise.
pub open spec fn steepness(start: Point, end: Point) -> i32 {
    if span(start.y, end.y) > span(start.x, end.x) { -1i32 } else { 1i32 }
}

/// The sign correction and the perpendicular direction of each quadrant.
pub open spec fn perpendicular_of(start: Point, end: Point) -> (i32, Point) {
    let sw = steepness(start, end);
    let n = (-sw) as i32;
    match (start.x >= end.x, start.y >= end.y) {
        (false, true) => (sw, Point { x: n, y: n }),
        (false, false) => (n, Point { x: n, y: sw }),
        (true, false) => (sw, Point { x: sw, y: sw }),
        (true, true) => (n, Point { x: sw, y: n }),
    }
}

/// Resolves the direction of travel, the perpendicular direction and the
/// sign correction for a line from `start` to `end`. The perpendicular
/// direction, corrected by the sign, is the direction of travel turned a
/// quarter towards the left, in every octant.
pub fn resolve_directions(start: Point, end: Point) -> (r: (Point, Point, i32))
    ensures
        r.0 == travel_direction(start, end),
        (r.2, r.1) == perpendicular_of(start, end),
        r.1.x * r.2 == r.0.y,
        r.1.y * r.2 == -r.0.x,
{
    let dx: i64 = if start.x <= end.x { end.x as i64 - start.x as i64 } else { start.x as i64 - end.x as i64 };
    let dy: i64 = if start.y <= end.y { end.y as i64 - start.y as i64 } else { start.y as i64 - end.y as i64 };
    let sw: i32 = if dy > dx { -1 } else { 1 };
    let n: i32 = -sw;
    assert(sw * sw == 1 && n * n == 1 && sw * n == -1 && n * sw == -1) by (nonlinear_arith)
        requires sw == 1 || sw == -1, n == -sw;
    let left = start.x >= end.x;
    let up = start.y >= end.y;
    let direction = Point::new(if left { -1 } else { 1 }, if up { -1 } else { 1 });
    let (swap, perp) = if !left && up {
        (sw, Point::new(n, n))
    } else if !left && !up {
        (n, Point::new(n, sw))
    } else if left && !up {
        (sw, Point::new(sw, sw))
    } else {
        (n, Point::new(sw, n))
    };
    (direction, perp, swap)
}

// -------------------------------------------------------------- the walks

/// The constants of one line's walk. `a` and `b` are the larger and the
/// smaller of `|dx|` and `|dy|`; the main walk moves by `maj` at every step
/// and also by `min` on a diagonal step; the left edge of a sweep moves by
/// `pmaj` and `pmin` in the same way, the right edge by their opposites;
/// `width` bounds twice the distance, scaled by the line's length, that a
/// sweep may reach from its centre.
#[derive(Debug, Clone, Copy)]
struct Geometry {
    a: i64,
    b: i64,
    maj_x: i64,
    maj_y: i64,
    min_x: i64,
    min_y: i64,
    pmaj_x: i64,
    pmaj_y: i64,
    pmin_x: i64,
    pmin_y: i64,
    width: i64,
}

spec fn unit(v: i64) -> bool {
    -1 <= v <= 1
}

impl Geometry {
    spec fn wf(self) -> bool {
        &&& 0 <= self.b <= self.a <= 0x1_0000_0000
        &&& 0 <= self.width <= 0x200_0000_0000
        &&& unit(self.maj_x) && unit(self.maj_y) && unit(self.min_x) && unit(self.min_y)
        &&& unit(self.pmaj_x) && unit(self.pmaj_y) && unit(self.pmin_x) && unit(self.pmin_y)
        &&& -1 <= self.maj_x + self.min_x <= 1 && -1 <= self.maj_y + self.min_y <= 1
        &&& -1 <= self.pmaj_x + self.pmin_x <= 1 && -1 <= self.pmaj_y + self.pmin_y <= 1
    }
}

/// Whether a Bresenham step with error `e` also moves along the minor axis.
pub open spec fn takes_minor(e: int, a: int, b: int, inclusive: bool) -> bool {
    if inclusive { e >= a - 2 * b } else { e > a - 2 * b }
}

/// The Bresenham error after a step.
pub open spec fn next_error(e: int, a: int, b: int, inclusive: bool) -> int {
    if takes_minor(e, a, b, inclusive) { e - 2 * a + 2 * b } else { e + 2 * b }
}

/// One edge of a sweep: its position, its Bresenham error, twice its scaled
/// distance from the centre, and whether it has stopped.
#[derive(Debug, Clone, Copy)]
struct Cursor {
    x: i64,
    y: i64,
    err: i64,
    acc: i64,
    done: bool,
}

spec fn cursor_wf(g: Geometry, c: Cursor) -> bool {
    &&& -g.a <= c.err <= g.a
    &&& 0 <= c.acc <= g.width + 2 * g.a + 2 * g.b
    &&& -0x2_0000_0000 - c.acc <= c.x <= 0x2_0000_0000 + c.acc
    &&& -0x2_0000_0000 - c.acc <= c.y <= 0x2_0000_0000 + c.acc
}

spec fn fits(c: Cursor) -> bool {
    i32::MIN <= c.x <= i32::MAX && i32::MIN <= c.y <= i32::MAX
}

/// A cursor one perpendicular step further out, on the left edge or on the
/// right one. Ties of the error go to the minor axis on the right edge only.
spec fn advance(g: Geometry, c: Cursor, left: bool) -> Cursor {
    let m = takes_minor(c.err as int, g.a as int, g.b as int, !left);
    let sx = g.pmaj_x + if m { g.pmin_x as int } else { 0 };
    let sy = g.pmaj_y + if m { g.pmin_y as int } else { 0 };
    Cursor {
        x: (if left { c.x + sx } else { c.x - sx }) as i64,
        y: (if left { c.y + sy } else { c.y - sy }) as i64,
        err: next_error(c.err as int, g.a as int, g.b as int, !left) as i64,
        acc: (c.acc + 2 * g.a + if m { 2 * g.b } else { 0 }) as i64,
        done: c.done,
    }
}

spec fn centred(x: i64, y: i64) -> Cursor {
    Cursor { x, y, err: 0, acc: 0, done: false }
}

spec fn pixel_at<C>(c: Cursor, color: C) -> Pixel<C> {
    Pixel(Point { x: c.x as i32, y: c.y as i32 }, color)
}

pub open spec fn clip(v: int) -> nat {
    if v < 0 { 0 } else { v as nat }
}

/// Pixels still to come from the left edge: the edge position is drawn
/// while its distance is within the bound, and then moves outwards.
spec fn left_seq<C>(g: Geometry, c: Cursor, color: C) -> Seq<Pixel<C>>
    decreases clip(g.width + 1 - c.acc),
{
    if c.done || !g.wf() || g.a < 1 || c.acc < 0 || c.acc > g.width || !fits(c) {
        seq![]
    } else {
        seq![pixel_at(c, color)] + left_seq(g, advance(g, c, true), color)
    }
}

/// Pixels still to come from the right edge: the edge moves outwards and is
/// drawn while its distance stays strictly within the bound.
spec fn right_seq<C>(g: Geometry, c: Cursor, color: C) -> Seq<Pixel<C>>
    decreases clip(g.width + 1 - c.acc),
{
    let n = advance(g, c, false);
    if c.done || !g.wf() || g.a < 1 || c.acc < 0 || c.acc > g.width || n.acc >= g.width || !fits(n) {
        seq![]
    } else {
        seq![pixel_at(n, color)] + right_seq(g, n, color)
    }
}

fn advance_exec(g: &Geometry, c: &Cursor, left: bool) -> (r: Cursor)
    requires
        g.wf(),
        g.a >= 1,
        cursor_wf(*g, *c),
        c.acc <= g.width,
    ensures
        r == advance(*g, *c, left),
        cursor_wf(*g, r),
        r.acc >= c.acc + 2 * g.a,
{
    let m = if left { c.err > g.a - 2 * g.b } else { c.err >= g.a - 2 * g.b };
    let sx: i64 = g.pmaj_x + if m { g.pmin_x } else { 0 };
    let sy: i64 = g.pmaj_y + if m { g.pmin_y } else { 0 };
    let (x, y) = if left { (c.x + sx, c.y + sy) } else { (c.x - sx, c.y - sy) };
    let err = if m { c.err - 2 * g.a + 2 * g.b } else { c.err + 2 * g.b };
    let acc = c.acc + 2 * g.a + if m { 2 * g.b } else { 0 };
    Cursor { x, y, err, acc, done: c.done }
}

fn fits_exec(c: &Cursor) -> (r: bool)
    ensures
        r == fits(*c),
{
    c.x >= i32::MIN as i64 && c.x <= i32::MAX as i64 && c.y >= i32::MIN as i64 && c.y <= i32::MAX as i64
}

/// One pull from a pixel stream: the first pixel that was to come is handed
/// out and removed, or, when none was to come, nothing is.
pub open spec fn pulled<T>(before: Seq<T>, after: Seq<T>, r: Option<T>) -> bool {
    if before.len() == 0 {
        r == None::<T> && after.len() == 0
    } else {
        r == Some(before[0]) && after == before.drop_first()
    }
}

/// The cross-section of a line at one position of its walk.
#[derive(Debug, Clone, Copy)]
pub struct PerpLineIterator<C> {
    geometry: Geometry,
    stroke: Option<C>,
    fill: Option<C>,
    left: Cursor,
    right: Cursor,
}

/// A sweep centred on `(x, y)`, not yet started.
spec fn arm<C>(g: Geometry, stroke: Option<C>, fill: Option<C>, x: i64, y: i64) -> PerpLineIterator<C> {
    PerpLineIterator { geometry: g, stroke, fill, left: centred(x, y), right: centred(x, y) }
}

impl<C: Copy> PerpLineIterator<C> {
    pub closed spec fn wf(self) -> bool {
        &&& self.geometry.wf()
        &&& !self.left.done ==> self.geometry.a >= 1 && cursor_wf(self.geometry, self.left)
        &&& !self.right.done ==> {
            &&& self.geometry.a >= 1
            &&& cursor_wf(self.geometry, self.right)
            &&& self.right.acc <= self.geometry.width
        }
    }

    /// The pixels still to come: the left edge in the stroke colour, then
    /// the right edge in the fill colour. Without a stroke colour there are
    /// none; without a fill colour the right edge has none.
    pub closed spec fn rest(self) -> Seq<Pixel<C>> {
        let l = match self.stroke {
            Some(c) => left_seq(self.geometry, self.left, c),
            None => seq![],
        };
        let r = match (self.stroke, self.fill) {
            (Some(_), Some(f)) => right_seq(self.geometry, self.right, f),
            _ => seq![],
        };
        l + r
    }

    /// Both sweeps belong to the same line.
    pub closed spec fn same_line(self, other: Self) -> bool {
        self.geometry == other.geometry && self.stroke == other.stroke && self.fill == other.fill
    }

    /// The sweep has a stroke colour; without one it draws nothing.
    pub closed spec fn paints(self) -> bool {
        self.stroke.is_some()
    }

    /// The next pixel of the cross-section.
    pub fn next(&mut self) -> (r: Option<Pixel<C>>)
        requires
            old(self).wf(),
        ensures
            final(self).wf(),
            final(self).same_line(*old(self)),
            !old(self).paints() ==> r.is_none() && *final(self) == *old(self),
            pulled(old(self).rest(), final(self).rest(), r),
    {
        let stroke = match self.stroke {
            Some(c) => c,
            None => {
                return None;
            },
        };
        let ghost r0 = match (self.stroke, self.fill) {
            (Some(_), Some(f)) => right_seq(self.geometry, self.right, f),
            _ => seq![],
        };
        if !self.left.done {
            if self.left.acc <= self.geometry.width && fits_exec(&self.left) {
                let p = Pixel(Point::new(self.left.x as i32, self.left.y as i32), stroke);
                let ghost l1 = left_seq(self.geometry, advance(self.geometry, self.left, true), stroke);
                self.left = advance_exec(&self.geometry, &self.left, true);
                assert((seq![p] + l1 + r0).drop_first() =~= l1 + r0);
                return Some(p);
            }
            self.left.done = true;
        }
        assert(self.rest() =~= r0);
        let fill = match self.fill {
            Some(f) => f,
            None => {
                return None;
            },
        };
        if !self.right.done {
            let n = advance_exec(&self.geometry, &self.right, false);
            if n.acc < self.geometry.width && fits_exec(&n) {
                self.right = n;
                let p = Pixel(Point::new(n.x as i32, n.y as i32), fill);
                assert(self.rest() =~= right_seq(self.geometry, n, fill));
                assert(r0.drop_first() =~= self.rest());
                return Some(p);
            }
            self.right.done = true;
        }
        assert(self.rest() =~= seq![]);
        None
    }
}

spec fn stream_rest<C: Copy>(it: LineIterator<C>) -> Seq<Pixel<C>>
    decreases clip(it.geometry.a - it.steps),
{
    let tail = if it.done || !it.geometry.wf() || it.steps < 0 || it.steps >= it.geometry.a {
        seq![]
    } else {
        stream_rest(it.stepped())
    };
    it.perp.rest() + tail
}

/// `k` steps along the unit `u` of one axis.
spec fn scale(k: int, u: i64) -> int {
    if u == 1 { k } else if u == -1 { -k } else { 0 }
}

proof fn lemma_scale(k: int, u: i64)
    requires
        u == 1 || u == -1,
    ensures
        scale(k, u) == u * k,
{
    if u == 1 {
        assert(1 * k == k);
    } else {
        assert(-1 * k == -k);
    }
}

/// Where the main walk stands: `r` minor steps and `a - steps` major steps
/// remain until the end point, and the error records how far the position
/// lies from the ideal line.
spec fn walk_invariant(g: Geometry, end: Point, x: i64, y: i64, err: i64, steps: i64, r: int) -> bool {
    let rest = g.a - steps;
    &&& end.x - x == scale(rest, g.maj_x) + scale(r, g.min_x)
    &&& end.y - y == scale(rest, g.maj_y) + scale(r, g.min_y)
    &&& err == 2 * (r * g.a - rest * g.b)
    &&& 0 <= r <= g.b
}

/// Pixel iterator for each pixel in the line: a Bresenham walk from the
/// start to the end point, with a fresh sweep at each of its positions.
#[derive(Clone, Copy)]
pub struct LineIterator<C> {
    geometry: Geometry,
    stroke: Option<C>,
    fill: Option<C>,
    start: Point,
    end: Point,
    minor_left: Ghost<int>,
    x: i64,
    y: i64,
    err: i64,
    steps: i64,
    done: bool,
    perp: PerpLineIterator<C>,
}

impl<C: Copy> LineIterator<C> {
    pub closed spec fn wf(self) -> bool {
        let g = self.geometry;
        &&& g.wf()
        &&& self.perp.wf()
        &&& self.perp.geometry == g && self.perp.stroke == self.stroke && self.perp.fill == self.fill
        &&& 0 <= self.steps <= g.a
        &&& !self.done ==> self.steps < g.a
        &&& -g.a <= self.err <= g.a
        &&& g.a >= 1 ==> -g.a < self.err
        &&& -0x8000_0000 - self.steps <= self.x <= 0x8000_0000 + self.steps
        &&& -0x8000_0000 - self.steps <= self.y <= 0x8000_0000 + self.steps
        &&& g == shape(self.start, self.end, g.width as int)
        &&& walk_invariant(g, self.end, self.x, self.y, self.err, self.steps, self.minor_left@)
    }


    /// One step of the main walk, with a new sweep at the new position.
    spec fn stepped(self) -> Self {
        let g = self.geometry;
        let m = takes_minor(self.err as int, g.a as int, g.b as int, false);
        let x = (self.x + g.maj_x + if m { g.min_x as int } else { 0 }) as i64;
        let y = (self.y + g.maj_y + if m { g.min_y as int } else { 0 }) as i64;
        LineIterator {
            minor_left: Ghost(if m { self.minor_left@ - 1 } else { self.minor_left@ }),
            x,
            y,
            err: next_error(self.err as int, g.a as int, g.b as int, false) as i64,
            steps: (self.steps + 1) as i64,
            done: self.steps + 1 >= g.a,
            perp: arm(g, self.stroke, self.fill, x, y),
            ..self
        }
    }

    /// The pixels still to come: the rest of the current sweep, then the
    /// sweeps of the remaining positions of the walk.
    pub closed spec fn rest(self) -> Seq<Pixel<C>> {
        stream_rest(self)
    }

    /// The main walk stays within the bounding box of the line and stands
    /// on the end point once all its steps are taken.
    proof fn lemma_on_segment(self)
        requires
            self.wf(),
        ensures
            min_i32(self.start.x, self.end.x) <= self.x <= max_i32(self.start.x, self.end.x),
            min_i32(self.start.y, self.end.y) <= self.y <= max_i32(self.start.y, self.end.y),
            self.steps == self.geometry.a ==> self.x == self.end.x && self.y == self.end.y,
    {
        let g = self.geometry;
        let (a, b, r, e) = (g.a as int, g.b as int, self.minor_left@, self.err as int);
        if self.steps == g.a && a >= 1 {
            assert(r == 0) by (nonlinear_arith)
                requires e == 2 * (r * a - 0 * b), -a <= e <= a, a >= 1, r >= 0;
        }
    }

    /// The main walk stands on `walk_point(start, end, steps)`.
    proof fn lemma_walk_point(self)
        requires
            self.wf(),
            self.geometry.a >= 1,
        ensures
            (Point { x: self.x as i32, y: self.y as i32 }) == walk_point(self.start, self.end, self.steps as int),
    {
        self.lemma_on_segment();
        let g = self.geometry;
        let (a, b, k, r) = (g.a as int, g.b as int, self.steps as int, self.minor_left@);
        let m = b - r;
        assert(2 * (r * a - (a - k) * b) == 2 * (k * b - m * a)) by (nonlinear_arith)
            requires m == b - r;
        lemma_minor_steps(a, b, k, m);
        let d = travel_direction(self.start, self.end);
        lemma_scale(k, d.x as i64);
        lemma_scale(m, d.x as i64);
        lemma_scale(k, d.y as i64);
        lemma_scale(m, d.y as i64);
    }

    proof fn lemma_stepped_wf(self)
        requires
            self.wf(),
            !self.done,
        ensures
            self.stepped().wf(),
    {
        let g = self.geometry;
        let (a, b, rest, r, e) = (g.a as int, g.b as int, g.a - self.steps, self.minor_left@, self.err as int);
        if takes_minor(e, a, b, false) {
            assert(r >= 1) by (nonlinear_arith)
                requires e == 2 * (r * a - rest * b), e > a - 2 * b, rest >= 1, b >= 0, a >= 1;
            assert(2 * ((r - 1) * a - (rest - 1) * b) == e - 2 * a + 2 * b) by (nonlinear_arith)
                requires e == 2 * (r * a - rest * b);
        } else {
            assert(2 * (r * a - (rest - 1) * b) == e + 2 * b) by (nonlinear_arith)
                requires e == 2 * (r * a - rest * b);
        }
    }

    fn step(&mut self)
        requires
            old(self).wf(),
            !old(self).done,
        ensures
            *final(self) == old(self).stepped(),
            final(self).wf(),
    {
        let g = self.geometry;
        let m = self.err > g.a - 2 * g.b;
        proof {
            self.lemma_stepped_wf();
        }
        self.minor_left = Ghost(if m { self.minor_left@ - 1 } else { self.minor_left@ });
        self.x = self.x + g.maj_x + if m { g.min_x } else { 0 };
        self.y = self.y + g.maj_y + if m { g.min_y } else { 0 };
        self.err = if m { self.err - 2 * g.a + 2 * g.b } else { self.err + 2 * g.b };
        self.steps = self.steps + 1;
        self.done = self.steps >= g.a;
        self.perp = PerpLineIterator {
            geometry: g,
            stroke: self.stroke,
            fill: self.fill,
            left: Cursor { x: self.x, y: self.y, err: 0, acc: 0, done: false },
            right: Cursor { x: self.x, y: self.y, err: 0, acc: 0, done: false },
        };
    }

    /// The next pixel of the line.
    pub fn next(&mut self) -> (r: Option<Pixel<C>>)
        requires
            old(self).wf(),
        ensures
            final(self).wf(),
            pulled(old(self).rest(), final(self).rest(), r),
    {
        loop
            invariant
                self.wf(),
                self.rest() == old(self).rest(),
            decreases self.geometry.a - self.steps,
        {
            let ghost before = *self;
            let p = self.perp.next();
            let ghost tail = if before.done {
                seq![]
            } else {
                stream_rest(before.stepped())
            };
            assert(before.rest() == before.perp.rest() + tail);
            assert(self.rest() == self.perp.rest() + tail);
            if p.is_some() {
                assert(before.perp.rest().len() > 0);
                assert(before.rest()[0] == before.perp.rest()[0]);
                assert(self.rest() =~= before.rest().drop_first());
                return p;
            }
            assert(self.rest() =~= tail);
            if self.done {
                return None;
            }
            self.step();
        }
    }
}

/// Larger and smaller of two values.
pub open spec fn larger(p: int, q: int) -> int {
    if p >= q { p } else { q }
}

pub open spec fn smaller(p: int, q: int) -> int {
    if p >= q { q } else { p }
}

/// The constants of the walk from `start` to `end`, with the sweep bound `width`.
spec fn shape(start: Point, end: Point, width: int) -> Geometry {
    let dx = span(start.x, end.x);
    let dy = span(start.y, end.y);
    let d = travel_direction(start, end);
    let ux = d.y as i64;
    let uy = -d.x;
    let shallow = dx >= dy;
    Geometry {
        a: larger(dx, dy) as i64,
        b: smaller(dx, dy) as i64,
        maj_x: if shallow { d.x as i64 } else { 0 },
        maj_y: if shallow { 0 } else { d.y as i64 },
        min_x: if shallow { 0 } else { d.x as i64 },
        min_y: if shallow { d.y as i64 } else { 0 },
        pmaj_x: if shallow { 0 } else { ux },
        pmaj_y: if shallow { uy as i64 } else { 0 },
        pmin_x: if shallow { ux } else { 0 },
        pmin_y: if shallow { 0 } else { uy as i64 },
        width: width as i64,
    }
}

/// The constants of the walk of a line.
spec fn line_geometry<C>(l: Line<C>) -> Geometry {
    shape(l.start, l.end, width_bound(l.style.stroke_width as int, span(l.start.x, l.end.x), span(l.start.y, l.end.y)))
}

/// The stream of a line before its first pixel.
spec fn initial<C>(l: Line<C>) -> LineIterator<C> {
    let g = line_geometry(l);
    let blank = l.start == l.end || l.style.stroke_width == 0 || l.style.stroke_color.is_none();
    let c = Cursor { x: l.start.x as i64, y: l.start.y as i64, err: 0, acc: 0, done: blank };
    LineIterator {
        geometry: g,
        stroke: l.style.stroke_color,
        fill: l.style.fill_color,
        start: l.start,
        end: l.end,
        minor_left: Ghost(g.b as int),
        x: l.start.x as i64,
        y: l.start.y as i64,
        err: 0,
        steps: 0,
        done: blank,
        perp: PerpLineIterator {
            geometry: g,
            stroke: l.style.stroke_color,
            fill: l.style.fill_color,
            left: c,
            right: c,
        },
    }
}

impl<C: Copy> Line<C> {
    /// The line with another stroke width.
    pub open spec fn with_width(self, w: u8) -> Line<C> {
        Line { style: Style { stroke_width: w, ..self.style }, ..self }
    }

    /// A line of zero length, of zero width or without a stroke colour
    /// draws nothing.
    pub open spec fn is_blank(self) -> bool {
        self.start == self.end || self.style.stroke_width == 0 || self.style.stroke_color.is_none()
    }

    /// Every pixel the line draws, in order.
    pub closed spec fn pixels(self) -> Seq<Pixel<C>> {
        stream_rest(initial(self))
    }

    /// A fresh stream of the line's pixels. The line itself is left as it
    /// is, so a second call starts the stream over.
    pub fn into_iter(&self) -> (r: LineIterator<C>)
        ensures
            r.wf(),
            r.rest() == self.pixels(),
            self.is_blank() ==> r.rest().len() == 0,
    {
        let (d, pd, swap) = resolve_directions(self.start, self.end);
        let dx: i64 = if self.start.x <= self.end.x {
            self.end.x as i64 - self.start.x as i64
        } else {
            self.start.x as i64 - self.end.x as i64
        };
        let dy: i64 = if self.start.y <= self.end.y {
            self.end.y as i64 - self.start.y as i64
        } else {
            self.start.y as i64 - self.end.y as i64
        };
        let shallow = dx >= dy;
        let (a, b) = if shallow { (dx, dy) } else { (dy, dx) };
        let ux: i64 = (pd.x * swap) as i64;
        let uy: i64 = (pd.y * swap) as i64;
        let w: u128 = self.style.stroke_width as u128;
        let dxu: u128 = dx as u128;
        let dyu: u128 = dy as u128;
        assert(dxu * dxu <= 0x1_0000_0000_0000_0000 && dyu * dyu <= 0x1_0000_0000_0000_0000)
            by (nonlinear_arith)
            requires dxu <= 0x1_0000_0000, dyu <= 0x1_0000_0000;
        let sq: u128 = dxu * dxu + dyu * dyu;
        assert(w * w <= 0x1_0000) by (nonlinear_arith)
            requires w <= 0xff;
        assert(w * w * sq <= 0x4_0000_0000_0000_0000_0000) by (nonlinear_arith)
            requires w * w <= 0x1_0000, sq <= 0x2_0000_0000_0000_0000;
        let n: u128 = w * w * sq;
        let width = rounded_root_exec(n) as i64;
        let g = Geometry {
            a,
            b,
            maj_x: if shallow { d.x as i64 } else { 0 },
            maj_y: if shallow { 0 } else { d.y as i64 },
            min_x: if shallow { 0 } else { d.x as i64 },
            min_y: if shallow { d.y as i64 } else { 0 },
            pmaj_x: if shallow { 0 } else { ux },
            pmaj_y: if shallow { uy } else { 0 },
            pmin_x: if shallow { ux } else { 0 },
            pmin_y: if shallow { 0 } else { uy },
            width,
        };
        assert(g == line_geometry(*self));
        let blank = self.start == self.end || self.style.stroke_width == 0 || self.style.stroke_color.is_none();
        let c = Cursor { x: self.start.x as i64, y: self.start.y as i64, err: 0, acc: 0, done: blank };
        let r = LineIterator {
            geometry: g,
            stroke: self.style.stroke_color,
            fill: self.style.fill_color,
            start: self.start,
            end: self.end,
            minor_left: Ghost(b as int),
            x: self.start.x as i64,
            y: self.start.y as i64,
            err: 0,
            steps: 0,
            done: blank,
            perp: PerpLineIterator {
                geometry: g,
                stroke: self.style.stroke_color,
                fill: self.style.fill_color,
                left: c,
                right: c,
            },
        };
        assert(r == initial(*self));
        proof {
            lemma_initial_wf(*self);
            if blank {
                assert(r.perp.rest() =~= seq![]);
            }
        }
        r
    }
}

// ------------------------------------------------------------------- laws

proof fn lemma_blank_draws_nothing<C: Copy>(l: Line<C>)
    requires
        l.is_blank(),
    ensures
        l.pixels() =~= Seq::<Pixel<C>>::empty(),
{
    let it = initial(l);
    assert(it.perp.rest() =~= Seq::<Pixel<C>>::empty());
    assert(stream_rest(it) =~= it.perp.rest());
}

/// A line whose end is its start draws no pixel, whatever its stroke.
pub proof fn lemma_zero_length_draws_nothing<C: Copy>(l: Line<C>)
    requires
        l.start == l.end,
    ensures
        l.pixels().len() == 0,
{
    lemma_blank_draws_nothing(l);
}

/// A line with a stroke width of zero draws no pixel.
pub proof fn lemma_zero_width_draws_nothing<C: Copy>(l: Line<C>)
    requires
        l.style.stroke_width == 0,
    ensures
        l.pixels().len() == 0,
{
    lemma_blank_draws_nothing(l);
}

/// The debugging switch has no effect on the pixels drawn.
pub proof fn lemma_switch_draws_same<C: Copy>(l: Line<C>, show: bool)
    ensures
        (Line { show_extra_perp: show, ..l }).pixels() == l.pixels(),
{
    assert(initial(Line { show_extra_perp: show, ..l }) == initial(l));
}

/// Two streams derived from the same line yield the same pixels in the same
/// order.
pub proof fn lemma_streams_of_one_line_agree<C: Copy>(l: Line<C>, s1: LineIterator<C>, s2: LineIterator<C>)
    requires
        s1.rest() == l.pixels(),
        s2.rest() == l.pixels(),
    ensures
        s1.rest() == s2.rest(),
{
}

proof fn lemma_left_wider<C>(g1: Geometry, g2: Geometry, c: Cursor, color: C)
    requires
        g2 == (Geometry { width: g2.width, ..g1 }),
        g1.width <= g2.width,
        g2.wf(),
    ensures
        left_seq(g1, c, color).len() <= left_seq(g2, c, color).len(),
    decreases clip(g1.width + 1 - c.acc),
{
    if left_seq(g1, c, color).len() > 0 {
        assert(advance(g1, c, true) == advance(g2, c, true));
        lemma_left_wider(g1, g2, advance(g1, c, true), color);
    }
}

proof fn lemma_right_wider<C>(g1: Geometry, g2: Geometry, c: Cursor, color: C)
    requires
        g2 == (Geometry { width: g2.width, ..g1 }),
        g1.width <= g2.width,
        g2.wf(),
    ensures
        right_seq(g1, c, color).len() <= right_seq(g2, c, color).len(),
    decreases clip(g1.width + 1 - c.acc),
{
    if right_seq(g1, c, color).len() > 0 {
        assert(advance(g1, c, false) == advance(g2, c, false));
        lemma_right_wider(g1, g2, advance(g1, c, false), color);
    }
}

proof fn lemma_stream_wider<C: Copy>(s1: LineIterator<C>, s2: LineIterator<C>)
    requires
        s2.geometry == (Geometry { width: s2.geometry.width, ..s1.geometry }),
        s2 == (LineIterator {
            geometry: s2.geometry,
            perp: PerpLineIterator { geometry: s2.geometry, ..s1.perp },
            ..s1
        }),
        s1.perp.geometry == s1.geometry,
        s1.geometry.width <= s2.geometry.width,
        s2.geometry.wf(),
    ensures
        stream_rest(s1).len() <= stream_rest(s2).len(),
    decreases clip(s1.geometry.a - s1.steps),
{
    let (g1, g2) = (s1.geometry, s2.geometry);
    match s1.perp.stroke {
        Some(c) => {
            lemma_left_wider(g1, g2, s1.perp.left, c);
        },
        None => {},
    }
    match (s1.perp.stroke, s1.perp.fill) {
        (Some(_), Some(f)) => {
            lemma_right_wider(g1, g2, s1.perp.right, f);
        },
        _ => {},
    }
    assert(s1.perp.rest().len() <= s2.perp.rest().len());
    if !(s1.done || !g1.wf() || s1.steps < 0 || s1.steps >= g1.a) {
        lemma_stream_wider(s1.stepped(), s2.stepped());
    }
}

/// A wider stroke never draws fewer pixels: for a fixed line, the number of
/// pixels does not decrease as the stroke width grows.
pub proof fn lemma_wider_stroke_draws_no_fewer<C: Copy>(l: Line<C>, w1: u8, w2: u8)
    requires
        w1 <= w2,
    ensures
        l.with_width(w1).pixels().len() <= l.with_width(w2).pixels().len(),
{
    let (l1, l2) = (l.with_width(w1), l.with_width(w2));
    if l1.is_blank() {
        lemma_blank_draws_nothing(l1);
    } else {
        let dx = span(l.start.x, l.end.x);
        let dy = span(l.start.y, l.end.y);
        let sq = dx * dx + dy * dy;
        let (v1, v2) = (w1 as int, w2 as int);
        assert(0 <= v1 * v1 * sq <= v2 * v2 * sq) by (nonlinear_arith)
            requires 0 <= v1 <= v2, sq >= 0;
        assert(dx * dx <= 0x1_0000_0000_0000_0000 && dy * dy <= 0x1_0000_0000_0000_0000)
            by (nonlinear_arith)
            requires 0 <= dx <= 0x1_0000_0000, 0 <= dy <= 0x1_0000_0000;
        assert(v2 * v2 * sq <= 0x4_0000_0000_0000_0000_0000) by (nonlinear_arith)
            requires 0 <= v2 <= 0xff, 0 <= sq <= 0x2_0000_0000_0000_0000;
        lemma_rounded_root_monotone(v1 * v1 * sq, v2 * v2 * sq);
        lemma_rounded_root_bound(v2 * v2 * sq);
        lemma_rounded_root(v1 * v1 * sq);
        assert(line_geometry(l1).width == rounded_root(v1 * v1 * sq));
        assert(line_geometry(l2).width == rounded_root(v2 * v2 * sq));
        lemma_stream_wider(initial(l1), initial(l2));
    }
}

proof fn lemma_initial_wf<C: Copy>(l: Line<C>)
    ensures
        initial(l).wf(),
        0 <= width_bound(l.style.stroke_width as int, span(l.start.x, l.end.x), span(l.start.y, l.end.y))
            <= 0x200_0000_0000,
{
    let dx = span(l.start.x, l.end.x);
    let dy = span(l.start.y, l.end.y);
    let v = l.style.stroke_width as int;
    let sq = dx * dx + dy * dy;
    assert(dx * dx <= 0x1_0000_0000_0000_0000 && dy * dy <= 0x1_0000_0000_0000_0000) by (nonlinear_arith)
        requires 0 <= dx <= 0x1_0000_0000, 0 <= dy <= 0x1_0000_0000;
    assert(0 <= v * v * sq <= 0x4_0000_0000_0000_0000_0000) by (nonlinear_arith)
        requires 0 <= v <= 0xff, 0 <= sq <= 0x2_0000_0000_0000_0000;
    lemma_rounded_root_bound(v * v * sq);
    lemma_rounded_root(v * v * sq);
    let g = line_geometry(l);
    assert(g.b * g.a == g.a * g.b) by (nonlinear_arith);
    assert(walk_invariant(g, l.end, l.start.x as i64, l.start.y as i64, 0, 0, g.b as int));
}

proof fn lemma_unit_width_bound(dx: int, dy: int)
    requires
        0 <= dx,
        0 <= dy,
        larger(dx, dy) >= 1,
    ensures
        0 <= width_bound(1, dx, dy) < 2 * larger(dx, dy),
{
    let n = 1 * 1 * (dx * dx + dy * dy);
    let a = larger(dx, dy);
    lemma_rounded_root(n);
    let w = rounded_root(n);
    assert(n <= 2 * a * a) by (nonlinear_arith)
        requires 0 <= dx <= a, 0 <= dy <= a, n == 1 * 1 * (dx * dx + dy * dy);
    if w >= 2 * a {
        assert((w - 1) * (w - 1) + (w - 1) >= 2 * a * a) by (nonlinear_arith)
            requires w >= 2 * a, a >= 1;
    }
}

proof fn lemma_thin_stream<C: Copy>(it: LineIterator<C>, c: C)
    requires
        it.wf(),
        it.stroke == Some(c),
        it.geometry.width < 2 * it.geometry.a,
        it.done <==> it.steps == it.geometry.a,
        it.perp.left == centred(it.x, it.y),
        it.perp.right == centred(it.x, it.y),
    ensures
        stream_rest(it).len() == it.geometry.a - it.steps + 1,
        forall|i: int| 0 <= i <= it.geometry.a - it.steps ==>
            stream_rest(it)[i] == Pixel(walk_point(it.start, it.end, it.steps + i), c),
        stream_rest(it).last().0 == it.end,
    decreases it.geometry.a - it.steps,
{
    it.lemma_on_segment();
    it.lemma_walk_point();
    let g = it.geometry;
    let p = pixel_at(it.perp.left, c);
    assert(left_seq(g, advance(g, it.perp.left, true), c) =~= seq![]);
    assert(right_seq(g, it.perp.right, c) =~= seq![]);
    match it.fill {
        Some(f) => {
            assert(right_seq(g, it.perp.right, f) =~= seq![]);
        },
        None => {},
    }
    assert(it.perp.rest() =~= seq![p]);
    if it.steps < g.a {
        it.lemma_stepped_wf();
        let t = stream_rest(it.stepped());
        lemma_thin_stream(it.stepped(), c);
        assert(stream_rest(it) == seq![p] + t);
        assert((seq![p] + t).last() == t.last());
        assert forall|i: int| 0 <= i <= it.geometry.a - it.steps implies
            stream_rest(it)[i] == Pixel(walk_point(it.start, it.end, it.steps + i), c) by {
            if i > 0 {
                assert(stream_rest(it)[i] == t[i - 1]);
            }
        }
    } else {
        assert(stream_rest(it) =~= seq![p]);
    }
}

/// A one pixel wide stroke draws exactly one pixel, in the stroke colour,
/// at each position of the walk and in the order of the walk:
/// `max(|dx|, |dy|) + 1` pixels, the `i`-th on `walk_point(start, end, i)`,
/// the first on the start point and the last on the end point. The fill
/// colour plays no part.
pub proof fn lemma_one_pixel_stroke<C: Copy>(l: Line<C>)
    requires
        l.style.stroke_width == 1,
        l.style.stroke_color.is_some(),
        l.start != l.end,
    ensures
        l.pixels().len() == larger(span(l.start.x, l.end.x), span(l.start.y, l.end.y)) + 1,
        forall|i: int| 0 <= i < l.pixels().len() ==>
            l.pixels()[i] == Pixel(walk_point(l.start, l.end, i), l.style.stroke_color.unwrap()),
        l.pixels()[0].0 == l.start,
        l.pixels().last().0 == l.end,
{
    let dx = span(l.start.x, l.end.x);
    let dy = span(l.start.y, l.end.y);
    lemma_initial_wf(l);
    lemma_unit_width_bound(dx, dy);
    let c = l.style.stroke_color.unwrap();
    lemma_thin_stream(initial(l), c);
}

impl<C: Copy> Line<C> {
    /// The cross-section drawn at the `i`-th position of the walk.
    pub closed spec fn section(self, i: int) -> Seq<Pixel<C>> {
        let p = walk_point(self.start, self.end, i);
        arm(line_geometry(self), self.style.stroke_color, self.style.fill_color, p.x as i64, p.y as i64).rest()
    }
}

/// Number of positions of the walk of a line, less one.
pub open spec fn walk_len<C>(l: Line<C>) -> int {
    larger(span(l.start.x, l.end.x), span(l.start.y, l.end.y))
}

/// The sections of the positions from `i` to the last one, in order.
pub open spec fn sections_from<C: Copy>(l: Line<C>, i: int) -> Seq<Pixel<C>>
    decreases clip(walk_len(l) + 1 - i),
{
    if i < 0 || i > walk_len(l) {
        seq![]
    } else {
        l.section(i) + sections_from(l, i + 1)
    }
}

/// The first `j` pixels of `s` are in the stroke colour, the rest in the fill colour.
pub open spec fn colour_split<C>(s: Seq<Pixel<C>>, j: int, stroke: Option<C>, fill: Option<C>) -> bool {
    &&& 1 <= j <= s.len()
    &&& forall|k: int| 0 <= k < j ==> stroke == Some(#[trigger] s[k].1)
    &&& forall|k: int| j <= k < s.len() ==> fill == Some(#[trigger] s[k].1)
}

/// The `i`-th section of a line starts on the `i`-th walk position in the
/// stroke colour, has its stroke pixels before its fill pixels, and holds at
/// most `2 * stroke_width + 1` pixels.
pub open spec fn section_shape<C: Copy>(l: Line<C>, i: int) -> bool {
    let s = l.section(i);
    &&& 1 <= s.len() <= 2 * l.style.stroke_width + 1
    &&& s[0] == Pixel(walk_point(l.start, l.end, i), l.style.stroke_color.unwrap())
    &&& exists|j: int| colour_split(s, j, l.style.stroke_color, l.style.fill_color)
}

proof fn lemma_left_colour<C>(g: Geometry, c: Cursor, col: C)
    ensures
        forall|k: int| 0 <= k < left_seq(g, c, col).len() ==> #[trigger] left_seq(g, c, col)[k].1 == col,
    decreases clip(g.width + 1 - c.acc),
{
    let sq = left_seq(g, c, col);
    if sq.len() > 0 {
        let n = advance(g, c, true);
        lemma_left_colour(g, n, col);
        assert forall|k: int| 0 <= k < sq.len() implies #[trigger] sq[k].1 == col by {
            if k > 0 {
                assert(sq[k] == left_seq(g, n, col)[k - 1]);
            }
        }
    }
}

proof fn lemma_right_colour<C>(g: Geometry, c: Cursor, col: C)
    ensures
        forall|k: int| 0 <= k < right_seq(g, c, col).len() ==> #[trigger] right_seq(g, c, col)[k].1 == col,
    decreases clip(g.width + 1 - c.acc),
{
    let sq = right_seq(g, c, col);
    if sq.len() > 0 {
        let n = advance(g, c, false);
        lemma_right_colour(g, n, col);
        assert forall|k: int| 0 <= k < sq.len() implies #[trigger] sq[k].1 == col by {
            if k > 0 {
                assert(sq[k] == right_seq(g, n, col)[k - 1]);
            }
        }
    }
}

proof fn lemma_left_len<C>(g: Geometry, c: Cursor, col: C)
    requires
        g.wf(),
        g.a >= 1,
        c.acc >= 0,
    ensures
        left_seq(g, c, col).len() * (2 * g.a) <= clip(g.width - c.acc + 2 * g.a),
    decreases clip(g.width + 1 - c.acc),
{
    if left_seq(g, c, col).len() > 0 {
        let n = advance(g, c, true);
        lemma_left_len(g, n, col);
        let (l2, a) = (left_seq(g, n, col).len() as int, g.a as int);
        assert((1 + l2) * (2 * a) == 2 * a + l2 * (2 * a)) by (nonlinear_arith);
    }
}

proof fn lemma_right_len<C>(g: Geometry, c: Cursor, col: C)
    requires
        g.wf(),
        g.a >= 1,
        c.acc >= 0,
    ensures
        right_seq(g, c, col).len() * (2 * g.a) <= clip(g.width - c.acc),
    decreases clip(g.width + 1 - c.acc),
{
    if right_seq(g, c, col).len() > 0 {
        let n = advance(g, c, false);
        lemma_right_len(g, n, col);
        let (l2, a) = (right_seq(g, n, col).len() as int, g.a as int);
        assert((1 + l2) * (2 * a) == 2 * a + l2 * (2 * a)) by (nonlinear_arith);
    }
}

proof fn lemma_width_bound_le(w: int, dx: int, dy: int)
    requires
        0 <= w,
        0 <= dx,
        0 <= dy,
        larger(dx, dy) >= 1,
    ensures
        width_bound(w, dx, dy) <= 2 * w * larger(dx, dy),
{
    let a = larger(dx, dy);
    let n = w * w * (dx * dx + dy * dy);
    assert(0 <= n <= 4 * w * w * a * a) by (nonlinear_arith)
        requires 0 <= dx <= a, 0 <= dy <= a, n == w * w * (dx * dx + dy * dy), w >= 0;
    lemma_rounded_root(n);
    let r = rounded_root(n);
    if r > 2 * w * a {
        assert((r - 1) * (r - 1) + (r - 1) >= 4 * w * w * a * a) by (nonlinear_arith)
            requires r >= 2 * w * a + 1, w >= 0, a >= 1;
    }
}

proof fn lemma_section_shape<C: Copy>(l: Line<C>, i: int)
    requires
        !l.is_blank(),
        0 <= i <= walk_len(l),
    ensures
        section_shape(l, i),
{
    lemma_initial_wf(l);
    let g = line_geometry(l);
    let w = l.style.stroke_width as int;
    lemma_width_bound_le(w, span(l.start.x, l.end.x), span(l.start.y, l.end.y));
    let p = walk_point(l.start, l.end, i);
    let c = centred(p.x as i64, p.y as i64);
    let col = l.style.stroke_color.unwrap();
    let left = left_seq(g, c, col);
    lemma_left_colour(g, c, col);
    lemma_left_len(g, c, col);
    let a = g.a as int;
    let ll = left.len() as int;
    assert(ll <= w + 1) by (nonlinear_arith)
        requires ll * (2 * a) <= g.width + 2 * a, g.width <= 2 * w * a, a >= 1;
    let s = l.section(i);
    match l.style.fill_color {
        Some(f) => {
            let right = right_seq(g, c, f);
            lemma_right_colour(g, c, f);
            lemma_right_len(g, c, f);
            let rl = right.len() as int;
            assert(rl <= w) by (nonlinear_arith)
                requires rl * (2 * a) <= g.width, g.width <= 2 * w * a, a >= 1;
            assert(s == left + right);
            assert(colour_split(s, ll, l.style.stroke_color, l.style.fill_color));
        },
        None => {
            assert(s =~= left);
            assert(colour_split(s, ll, l.style.stroke_color, l.style.fill_color));
        },
    }
}

proof fn lemma_stream_sections<C: Copy>(l: Line<C>, it: LineIterator<C>)
    requires
        !l.is_blank(),
        it.wf(),
        it.start == l.start,
        it.end == l.end,
        it.geometry == line_geometry(l),
        it.stroke == l.style.stroke_color,
        it.fill == l.style.fill_color,
        it.perp == arm(it.geometry, it.stroke, it.fill, it.x, it.y),
        it.done <==> it.steps == it.geometry.a,
    ensures
        stream_rest(it) == sections_from(l, it.steps as int),
    decreases it.geometry.a - it.steps,
{
    it.lemma_on_segment();
    it.lemma_walk_point();
    assert(it.perp.rest() == l.section(it.steps as int));
    if it.steps < it.geometry.a {
        it.lemma_stepped_wf();
        lemma_stream_sections(l, it.stepped());
    } else {
        assert(sections_from(l, it.steps + 1) =~= seq![]);
    }
}

/// A line draws its cross-sections one after the other: one section for each
/// position of its walk, in the order of the walk from the start point to the
/// end point. Each section starts on its walk position in the stroke colour,
/// draws its stroke-coloured pixels (the left edge) before its fill-coloured
/// ones (the right edge), and holds at most `2 * stroke_width + 1` pixels.
pub proof fn lemma_sections<C: Copy>(l: Line<C>)
    requires
        !l.is_blank(),
    ensures
        l.pixels() == sections_from(l, 0),
        forall|i: int| 0 <= i <= walk_len(l) ==> section_shape(l, i),
{
    lemma_initial_wf(l);
    lemma_stream_sections(l, initial(l));
    assert forall|i: int| 0 <= i <= walk_len(l) implies section_shape(l, i) by {
        lemma_section_shape(l, i);
    }
}

/// A pixel moved by `by`, keeping its colour.
pub open spec fn shifted<C>(q: Pixel<C>, by: Point) -> Pixel<C> {
    Pixel(translated(q.0, by), q.1)
}

/// `p` lies at least `m` away from the limits of the coordinate range.
pub open spec fn well_inside(p: Point, m: int) -> bool {
    i32::MIN + m <= p.x <= i32::MAX - m && i32::MIN + m <= p.y <= i32::MAX - m
}

spec fn shift(c: Cursor, by: Point) -> Cursor {
    Cursor { x: (c.x + by.x) as i64, y: (c.y + by.y) as i64, ..c }
}

/// A cursor no further from the centre `(cx, cy)` than its distance allows.
spec fn near(g: Geometry, c: Cursor, cx: int, cy: int) -> bool {
    &&& 2 * g.a * (c.x - cx) <= c.acc && 2 * g.a * (cx - c.x) <= c.acc
    &&& 2 * g.a * (c.y - cy) <= c.acc && 2 * g.a * (cy - c.y) <= c.acc
}

proof fn lemma_near_fits(g: Geometry, c: Cursor, cx: int, cy: int, by: Point)
    requires
        g.a >= 1,
        near(g, c, cx, cy),
        0 <= c.acc <= 510 * g.a,
        well_inside(Point { x: cx as i32, y: cy as i32 }, 512),
        well_inside(Point { x: (cx + by.x) as i32, y: (cy + by.y) as i32 }, 512),
        i32::MIN <= cx + by.x <= i32::MAX && i32::MIN <= cy + by.y <= i32::MAX,
        i32::MIN <= cx <= i32::MAX && i32::MIN <= cy <= i32::MAX,
    ensures
        fits(c),
        fits(shift(c, by)),
{
    let a = g.a as int;
    assert(-255 <= c.x - cx <= 255 && -255 <= c.y - cy <= 255) by (nonlinear_arith)
        requires
            2 * a * (c.x - cx) <= c.acc, 2 * a * (cx - c.x) <= c.acc,
            2 * a * (c.y - cy) <= c.acc, 2 * a * (cy - c.y) <= c.acc,
            c.acc <= 510 * a, a >= 1;
}

proof fn lemma_near_advance(g: Geometry, c: Cursor, cx: int, cy: int, left: bool)
    requires
        g.wf(),
        g.a >= 1,
        near(g, c, cx, cy),
        0 <= c.acc <= g.width,
        -0x1_0000_0000 <= c.x <= 0x1_0000_0000 && -0x1_0000_0000 <= c.y <= 0x1_0000_0000,
    ensures
        near(g, advance(g, c, left), cx, cy),
        advance(g, c, left).acc >= c.acc + 2 * g.a,
{
    let n = advance(g, c, left);
    let a = g.a as int;
    assert(near(g, n, cx, cy)) by (nonlinear_arith)
        requires
            near(g, c, cx, cy), a == g.a, a >= 1,
            -1 <= n.x - c.x <= 1, -1 <= n.y - c.y <= 1, n.acc >= c.acc + 2 * a;
}

proof fn lemma_left_shift<C>(g: Geometry, c: Cursor, col: C, cx: int, cy: int, by: Point)
    requires
        g.wf(),
        g.a >= 1,
        g.width <= 510 * g.a,
        0 <= c.acc,
        near(g, c, cx, cy),
        -0x1_0000_0000 <= c.x <= 0x1_0000_0000 && -0x1_0000_0000 <= c.y <= 0x1_0000_0000,
        well_inside(Point { x: cx as i32, y: cy as i32 }, 512),
        well_inside(Point { x: (cx + by.x) as i32, y: (cy + by.y) as i32 }, 512),
        i32::MIN <= cx + by.x <= i32::MAX && i32::MIN <= cy + by.y <= i32::MAX,
        i32::MIN <= cx <= i32::MAX && i32::MIN <= cy <= i32::MAX,
    ensures
        left_seq(g, shift(c, by), col) == left_seq(g, c, col).map_values(|q: Pixel<C>| shifted(q, by)),
    decreases clip(g.width + 1 - c.acc),
{
    let s0 = left_seq(g, c, col);
    let s1 = left_seq(g, shift(c, by), col);
    if c.acc <= g.width && !c.done {
        lemma_near_fits(g, c, cx, cy, by);
        lemma_near_advance(g, c, cx, cy, true);
        let n = advance(g, c, true);
        assert(advance(g, shift(c, by), true) == shift(n, by));
        lemma_left_shift(g, n, col, cx, cy, by);
        assert(s1 =~= s0.map_values(|q: Pixel<C>| shifted(q, by)));
    } else {
        assert(s0 =~= seq![]);
        assert(s1 =~= seq![]);
    }
}

proof fn lemma_right_shift<C>(g: Geometry, c: Cursor, col: C, cx: int, cy: int, by: Point)
    requires
        g.wf(),
        g.a >= 1,
        g.width <= 510 * g.a,
        0 <= c.acc,
        near(g, c, cx, cy),
        -0x1_0000_0000 <= c.x <= 0x1_0000_0000 && -0x1_0000_0000 <= c.y <= 0x1_0000_0000,
        well_inside(Point { x: cx as i32, y: cy as i32 }, 512),
        well_inside(Point { x: (cx + by.x) as i32, y: (cy + by.y) as i32 }, 512),
        i32::MIN <= cx + by.x <= i32::MAX && i32::MIN <= cy + by.y <= i32::MAX,
        i32::MIN <= cx <= i32::MAX && i32::MIN <= cy <= i32::MAX,
    ensures
        right_seq(g, shift(c, by), col) == right_seq(g, c, col).map_values(|q: Pixel<C>| shifted(q, by)),
    decreases clip(g.width + 1 - c.acc),
{
    let s0 = right_seq(g, c, col);
    let s1 = right_seq(g, shift(c, by), col);
    if c.acc <= g.width && !c.done {
        lemma_near_advance(g, c, cx, cy, false);
        let n = advance(g, c, false);
        assert(advance(g, shift(c, by), false) == shift(n, by));
        if n.acc < g.width {
            lemma_near_fits(g, n, cx, cy, by);
            lemma_right_shift(g, n, col, cx, cy, by);
            assert(s1 =~= s0.map_values(|q: Pixel<C>| shifted(q, by)));
        } else {
            assert(s0 =~= seq![]);
            assert(s1 =~= seq![]);
        }
    } else {
        assert(s0 =~= seq![]);
        assert(s1 =~= seq![]);
    }
}

proof fn lemma_minor_steps_range(a: int, b: int, i: int)
    requires
        a >= 1,
        0 <= b <= a,
        0 <= i <= a,
    ensures
        0 <= minor_steps(a, b, i) <= b,
{
    let x = 2 * i * b + a - 1;
    let d = 2 * a;
    assert(0 <= x < d * (b + 1)) by (nonlinear_arith)
        requires x == 2 * i * b + a - 1, d == 2 * a, 0 <= i <= a, 0 <= b, a >= 1;
    vstd::arithmetic::div_mod::lemma_fundamental_div_mod(x, d);
    vstd::arithmetic::div_mod::lemma_mod_pos_bound(x, d);
    let q = x / d;
    assert(0 <= q <= b) by (nonlinear_arith)
        requires x == d * q + x % d, 0 <= x % d < d, 0 <= x < d * (b + 1), d >= 2;
}

/// The walk positions lie in the bounding box of the line.
proof fn lemma_walk_point_in_box(start: Point, end: Point, i: int)
    requires
        start != end,
        0 <= i <= larger(span(start.x, end.x), span(start.y, end.y)),
    ensures
        ({
            let dx = span(start.x, end.x);
            let dy = span(start.y, end.y);
            let d = travel_direction(start, end);
            let (px, py) = if dx >= dy {
                (start.x + d.x * i, start.y + d.y * minor_steps(dx, dy, i))
            } else {
                (start.x + d.x * minor_steps(dy, dx, i), start.y + d.y * i)
            };
            &&& min_i32(start.x, end.x) <= px <= max_i32(start.x, end.x)
            &&& min_i32(start.y, end.y) <= py <= max_i32(start.y, end.y)
        }),
{
    let dx = span(start.x, end.x);
    let dy = span(start.y, end.y);
    let d = travel_direction(start, end);
    if dx >= dy {
        lemma_minor_steps_range(dx, dy, i);
        lemma_scale(i, d.x as i64);
        lemma_scale(minor_steps(dx, dy, i), d.y as i64);
    } else {
        lemma_minor_steps_range(dy, dx, i);
        lemma_scale(i, d.y as i64);
        lemma_scale(minor_steps(dy, dx, i), d.x as i64);
    }
}

proof fn lemma_section_shift<C: Copy>(l: Line<C>, by: Point, i: int)
    requires
        !l.is_blank(),
        0 <= i <= walk_len(l),
        can_translate(l.start, by),
        can_translate(l.end, by),
        well_inside(l.start, 512),
        well_inside(l.end, 512),
        well_inside(translated(l.start, by), 512),
        well_inside(translated(l.end, by), 512),
    ensures
        l.moved_by(by).section(i) == l.section(i).map_values(|q: Pixel<C>| shifted(q, by)),
{
    let m = l.moved_by(by);
    lemma_initial_wf(l);
    let g = line_geometry(l);
    assert(line_geometry(m) == g);
    let w = l.style.stroke_width as int;
    lemma_width_bound_le(w, span(l.start.x, l.end.x), span(l.start.y, l.end.y));
    assert(g.width <= 510 * g.a) by (nonlinear_arith)
        requires g.width <= 2 * w * g.a, 0 <= w <= 255, g.a >= 1;
    lemma_walk_point_in_box(l.start, l.end, i);
    let p = walk_point(l.start, l.end, i);
    assert(walk_point(m.start, m.end, i) == translated(p, by));
    let (cx, cy) = (p.x as int, p.y as int);
    let c = centred(p.x as i64, p.y as i64);
    assert(centred((p.x + by.x) as i64, (p.y + by.y) as i64) == shift(c, by));
    let f = |q: Pixel<C>| shifted(q, by);
    let col = l.style.stroke_color.unwrap();
    let ga = g.a as int;
    assert(2 * ga * (c.x - cx) == 0 && 2 * ga * (cx - c.x) == 0) by (nonlinear_arith)
        requires c.x - cx == 0;
    assert(2 * ga * (c.y - cy) == 0 && 2 * ga * (cy - c.y) == 0) by (nonlinear_arith)
        requires c.y - cy == 0;
    assert(near(g, c, cx, cy));
    lemma_left_shift(g, c, col, cx, cy, by);
    match l.style.fill_color {
        Some(fc) => {
            lemma_right_shift(g, c, fc, cx, cy, by);
            let (a0, b0) = (left_seq(g, c, col), right_seq(g, c, fc));
            assert((a0 + b0).map_values(f) =~= a0.map_values(f) + b0.map_values(f));
        },
        None => {
            let a0 = left_seq(g, c, col);
            assert((a0 + seq![]).map_values(f) =~= a0.map_values(f) + seq![]);
        },
    }
}

proof fn lemma_sections_shift<C: Copy>(l: Line<C>, by: Point, i: int)
    requires
        !l.is_blank(),
        0 <= i,
        can_translate(l.start, by),
        can_translate(l.end, by),
        well_inside(l.start, 512),
        well_inside(l.end, 512),
        well_inside(translated(l.start, by), 512),
        well_inside(translated(l.end, by), 512),
    ensures
        sections_from(l.moved_by(by), i) == sections_from(l, i).map_values(|q: Pixel<C>| shifted(q, by)),
    decreases clip(walk_len(l) + 1 - i),
{
    let m = l.moved_by(by);
    let f = |q: Pixel<C>| shifted(q, by);
    assert(walk_len(m) == walk_len(l));
    if i <= walk_len(l) {
        lemma_section_shift(l, by, i);
        lemma_sections_shift(l, by, i + 1);
        let (a0, b0) = (l.section(i), sections_from(l, i + 1));
        assert((a0 + b0).map_values(f) =~= a0.map_values(f) + b0.map_values(f));
    } else {
        assert(sections_from(l, i).map_values(f) =~= seq![]);
    }
}

/// Moving a line moves every pixel it draws by the same amount, keeping
/// their order and colours, as long as both lines keep 512 away from the
/// limits of the coordinate range (where a sweep edge would stop).
pub proof fn lemma_translate_pixels<C: Copy>(l: Line<C>, by: Point)
    requires
        can_translate(l.start, by),
        can_translate(l.end, by),
        well_inside(l.start, 512),
        well_inside(l.end, 512),
        well_inside(translated(l.start, by), 512),
        well_inside(translated(l.end, by), 512),
    ensures
        l.moved_by(by).pixels() == l.pixels().map_values(|q: Pixel<C>| shifted(q, by)),
{
    let m = l.moved_by(by);
    if l.is_blank() {
        lemma_blank_draws_nothing(l);
        lemma_blank_draws_nothing(m);
        assert(l.pixels().map_values(|q: Pixel<C>| shifted(q, by)) =~= seq![]);
    } else {
        lemma_sections(l);
        lemma_sections(m);
        lemma_sections_shift(l, by, 0);
    }
}

proof fn lemma_sections_len<C: Copy>(l: Line<C>, i: int)
    requires
        !l.is_blank(),
        0 <= i,
    ensures
        sections_from(l, i).len() <= clip(walk_len(l) + 1 - i) * (2 * l.style.stroke_width + 1),
    decreases clip(walk_len(l) + 1 - i),
{
    if i <= walk_len(l) {
        lemma_section_shape(l, i);
        lemma_sections_len(l, i + 1);
        let (k, w) = (walk_len(l) + 1 - i, 2 * l.style.stroke_width + 1);
        assert((k - 1) * w + w == k * w) by (nonlinear_arith);
    }
}

/// A line draws at most `2 * stroke_width + 1` pixels at each of the
/// `max(|dx|, |dy|) + 1` positions of its walk.
pub proof fn lemma_pixel_count_bound<C: Copy>(l: Line<C>)
    ensures
        l.pixels().len() <= (walk_len(l) + 1) * (2 * l.style.stroke_width + 1),
{
    if l.is_blank() {
        lemma_blank_draws_nothing(l);
        assert(0 <= (walk_len(l) + 1) * (2 * l.style.stroke_width + 1)) by (nonlinear_arith)
            requires walk_len(l) >= 0;
    } else {
        lemma_sections(l);
        lemma_sections_len(l, 0);
    }
}

/// The rounding of the minor coordinate never meets an exact half along
/// the walk of `a` major and `b` minor steps.
pub open spec fn tie_free(a: int, b: int) -> bool {
    forall|i: int| 0 <= i <= a ==> 2 * a * #[trigger] minor_steps(a, b, i) != 2 * i * b - a
}

proof fn lemma_minor_steps_reversed(a: int, b: int, i: int)
    requires
        a >= 1,
        0 <= b <= a,
        0 <= i <= a,
        2 * a * minor_steps(a, b, i) != 2 * i * b - a,
    ensures
        minor_steps(a, b, a - i) == b - minor_steps(a, b, i),
{
    let q = minor_steps(a, b, i);
    let x = 2 * i * b + a - 1;
    let d = 2 * a;
    vstd::arithmetic::div_mod::lemma_fundamental_div_mod(x, d);
    vstd::arithmetic::div_mod::lemma_mod_pos_bound(x, d);
    assert(d * q <= x < d * q + d);
    assert(-a < 2 * ((a - i) * b - (b - q) * a) <= a) by (nonlinear_arith)
        requires d * q <= x, x < d * q + d, x == 2 * i * b + a - 1, d == 2 * a, 2 * a * q != 2 * i * b - a;
    lemma_minor_steps(a, b, a - i, b - q);
}

/// Drawn backwards, a line without exact halves along its walk visits the
/// same positions in the reverse order.
pub proof fn lemma_walk_reversed(start: Point, end: Point, i: int)
    requires
        start != end,
        0 <= i <= larger(span(start.x, end.x), span(start.y, end.y)),
        tie_free(larger(span(start.x, end.x), span(start.y, end.y)), smaller(span(start.x, end.x), span(start.y, end.y))),
    ensures
        walk_point(end, start, larger(span(start.x, end.x), span(start.y, end.y)) - i) == walk_point(start, end, i),
{
    let dx = span(start.x, end.x);
    let dy = span(start.y, end.y);
    let (a, b) = (larger(dx, dy), smaller(dx, dy));
    lemma_minor_steps_reversed(a, b, i);
    lemma_walk_point_in_box(start, end, i);
    lemma_walk_point_in_box(end, start, a - i);
    let d = travel_direction(start, end);
    let e = travel_direction(end, start);
    lemma_scale(i, d.x as i64);
    lemma_scale(i, d.y as i64);
    lemma_scale(a - i, e.x as i64);
    lemma_scale(a - i, e.y as i64);
    lemma_scale(minor_steps(a, b, i), d.x as i64);
    lemma_scale(minor_steps(a, b, i), d.y as i64);
    lemma_scale(b - minor_steps(a, b, i), e.x as i64);
    lemma_scale(b - minor_steps(a, b, i), e.y as i64);
}

/// A one pixel wide line without exact halves along its walk, drawn from its
/// end to its start, draws the same pixels in the reverse order.
pub proof fn lemma_one_pixel_reversal<C: Copy>(l: Line<C>)
    requires
        l.style.stroke_width == 1,
        l.style.stroke_color.is_some(),
        l.start != l.end,
        tie_free(walk_len(l), smaller(span(l.start.x, l.end.x), span(l.start.y, l.end.y))),
    ensures
        (Line { start: l.end, end: l.start, ..l }).pixels() == l.pixels().reverse(),
{
    let r = Line { start: l.end, end: l.start, ..l };
    lemma_one_pixel_stroke(l);
    lemma_one_pixel_stroke(r);
    let n = l.pixels().len();
    assert forall|i: int| 0 <= i < n implies r.pixels()[i] == l.pixels().reverse()[i] by {
        lemma_walk_reversed(l.start, l.end, n - 1 - i);
    }
    assert(r.pixels() =~= l.pixels().reverse());
}

/// `p` mirrored across the vertical line through `o`.
pub open spec fn mirror_x(o: Point, p: Point) -> Point {
    Point { x: (2 * o.x - p.x) as i32, y: p.y }
}

/// `p` mirrored across the horizontal line through `o`.
pub open spec fn mirror_y(o: Point, p: Point) -> Point {
    Point { x: p.x, y: (2 * o.y - p.y) as i32 }
}

/// `p` mirrored across the diagonal through `o`.
pub open spec fn mirror_diagonal(o: Point, p: Point) -> Point {
    Point { x: (o.x + p.y - o.y) as i32, y: (o.y + p.x - o.x) as i32 }
}

proof fn lemma_minor_steps_zero(a: int, i: int)
    requires
        a >= 1,
    ensures
        minor_steps(a, 0, i) == 0,
{
    assert(2 * i * 0 + a - 1 == 0 * (2 * a) + (a - 1)) by (nonlinear_arith);
    vstd::arithmetic::div_mod::lemma_fundamental_div_mod_converse(2 * i * 0 + a - 1, 2 * a, 0, a - 1);
}

proof fn lemma_minor_steps_full(a: int, i: int)
    requires
        a >= 1,
    ensures
        minor_steps(a, a, i) == i,
{
    assert(2 * i * a + a - 1 == i * (2 * a) + (a - 1)) by (nonlinear_arith);
    vstd::arithmetic::div_mod::lemma_fundamental_div_mod_converse(2 * i * a + a - 1, 2 * a, i, a - 1);
}

proof fn lemma_walk_scales(s: Point, e: Point, i: int)
    requires
        s != e,
        0 <= i <= larger(span(s.x, e.x), span(s.y, e.y)),
    ensures
        ({
            let dx = span(s.x, e.x);
            let dy = span(s.y, e.y);
            let d = travel_direction(s, e);
            &&& scale(i, d.x as i64) == d.x * i && scale(i, d.y as i64) == d.y * i
            &&& scale(minor_steps(dx, dy, i), d.y as i64) == d.y * minor_steps(dx, dy, i)
            &&& scale(minor_steps(dy, dx, i), d.x as i64) == d.x * minor_steps(dy, dx, i)
            &&& dx == 0 ==> minor_steps(dy, dx, i) == 0
            &&& dy == 0 ==> minor_steps(dx, dy, i) == 0
            &&& dx == dy ==> minor_steps(dx, dy, i) == i
        }),
{
    let dx = span(s.x, e.x);
    let dy = span(s.y, e.y);
    let d = travel_direction(s, e);
    lemma_walk_point_in_box(s, e, i);
    lemma_scale(i, d.x as i64);
    lemma_scale(i, d.y as i64);
    lemma_scale(minor_steps(dx, dy, i), d.y as i64);
    lemma_scale(minor_steps(dy, dx, i), d.x as i64);
    if dx == 0 {
        lemma_minor_steps_zero(dy, i);
    }
    if dy == 0 {
        lemma_minor_steps_zero(dx, i);
    }
    if dx == dy {
        lemma_minor_steps_full(dx, i);
    }
}

/// Mirroring the end point across the vertical line through the start
/// mirrors every position of the walk.
pub proof fn lemma_walk_mirror_x(s: Point, e: Point, i: int)
    requires
        s != e,
        0 <= i <= larger(span(s.x, e.x), span(s.y, e.y)),
        i32::MIN <= 2 * s.x - e.x <= i32::MAX,
    ensures
        walk_point(s, mirror_x(s, e), i) == mirror_x(s, walk_point(s, e, i)),
{
    let m = mirror_x(s, e);
    lemma_walk_point_in_box(s, e, i);
    lemma_walk_point_in_box(s, m, i);
    lemma_walk_scales(s, e, i);
    lemma_walk_scales(s, m, i);
}

/// Mirroring the end point across the horizontal line through the start
/// mirrors every position of the walk.
pub proof fn lemma_walk_mirror_y(s: Point, e: Point, i: int)
    requires
        s != e,
        0 <= i <= larger(span(s.x, e.x), span(s.y, e.y)),
        i32::MIN <= 2 * s.y - e.y <= i32::MAX,
    ensures
        walk_point(s, mirror_y(s, e), i) == mirror_y(s, walk_point(s, e, i)),
{
    let m = mirror_y(s, e);
    lemma_walk_point_in_box(s, e, i);
    lemma_walk_point_in_box(s, m, i);
    lemma_walk_scales(s, e, i);
    lemma_walk_scales(s, m, i);
}

/// Mirroring the end point across the diagonal through the start mirrors
/// every position of the walk.
pub proof fn lemma_walk_mirror_diagonal(s: Point, e: Point, i: int)
    requires
        s != e,
        0 <= i <= larger(span(s.x, e.x), span(s.y, e.y)),
        i32::MIN <= s.x + e.y - s.y <= i32::MAX,
        i32::MIN <= s.y + e.x - s.x <= i32::MAX,
    ensures
        walk_point(s, mirror_diagonal(s, e), i) == mirror_diagonal(s, walk_point(s, e, i)),
{
    let m = mirror_diagonal(s, e);
    lemma_walk_point_in_box(s, e, i);
    lemma_walk_point_in_box(s, m, i);
    lemma_walk_scales(s, e, i);
    lemma_walk_scales(s, m, i);
}

} // verus!
