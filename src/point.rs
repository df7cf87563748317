use vstd::prelude::*;

use crate::bbox::Bbox;

verus! {

/// Bound on coordinates for which squared distances are computed exactly.
pub const COORD_LIMIT: i64 = 1073741824;

/// Bound on coordinates for which line-side tests are computed exactly.
pub const WIDE_LIMIT: i64 = 2147483648;

/// A position in the plane, in fixed-point coordinate units.
#[derive(Debug, Clone, Copy, PartialEq, Eq, Structural)]
pub struct Point {
    pub x: i64,
    pub y: i64,
}

/// A displacement between two points.
#[derive(Debug, Clone, Copy, PartialEq, Eq, Structural)]
pub struct Vec2 {
    pub x: i64,
    pub y: i64,
}

/// Squared Euclidean distance between two points.
pub open spec fn dist_sq(p: Point, q: Point) -> int {
    (p.x - q.x) * (p.x - q.x) + (p.y - q.y) * (p.y - q.y)
}

impl Point {
    /// Both coordinates lie in `[-lim, lim]`.
    pub open spec fn within(self, lim: int) -> bool {
        -lim <= self.x <= lim && -lim <= self.y <= lim
    }

    pub fn distance_squared(&self, point: &Point) -> (r: i128)
        requires
            self.within(COORD_LIMIT as int),
            point.within(COORD_LIMIT as int),
        ensures
            r == dist_sq(*self, *point),
    {
        let dx = (self.x - point.x) as i128;
        let dy = (self.y - point.y) as i128;
        proof {
            lemma_square_bound(dx as int);
            lemma_square_bound(dy as int);
        }
        dx * dx + dy * dy
    }

    /// The displacement from `other` to `self`.
    pub fn vector_from(&self, other: &Point) -> (r: Vec2)
        requires
            self.within(COORD_LIMIT as int),
            other.within(COORD_LIMIT as int),
        ensures
            r.x == self.x - other.x,
            r.y == self.y - other.y,
    {
        Vec2 { x: self.x - other.x, y: self.y - other.y }
    }
}

impl Vec2 {
    pub open spec fn dot_spec(self, o: Vec2) -> int {
        self.x * o.x + self.y * o.y
    }

    /// Both components lie in `[-2 * COORD_LIMIT, 2 * COORD_LIMIT]`.
    pub open spec fn bounded(self) -> bool {
        -WIDE_LIMIT <= self.x <= WIDE_LIMIT && -WIDE_LIMIT <= self.y <= WIDE_LIMIT
    }

    pub fn length_squared(&self) -> (r: i128)
        requires
            self.bounded(),
        ensures
            r == self.dot_spec(*self),
    {
        self.dot(self)
    }

    pub fn dot(&self, other: &Vec2) -> (r: i128)
        requires
            self.bounded(),
            other.bounded(),
        ensures
            r == self.dot_spec(*other),
    {
        let (ax, ay, bx, by) = (self.x as i128, self.y as i128, other.x as i128, other.y as i128);
        proof {
            lemma_bounded_product(ax, bx);
            lemma_bounded_product(ay, by);
        }
        ax * bx + ay * by
    }
}

proof fn lemma_bounded_product(a: i128, b: i128)
    requires
        -0x8000_0000 <= a <= 0x8000_0000,
        -0x8000_0000 <= b <= 0x8000_0000,
    ensures
        -0x4000_0000_0000_0000 <= a * b <= 0x4000_0000_0000_0000,
{
    assert(-0x4000_0000_0000_0000 <= a * b <= 0x4000_0000_0000_0000) by (nonlinear_arith)
        requires
            -0x8000_0000 <= a <= 0x8000_0000,
            -0x8000_0000 <= b <= 0x8000_0000,
    ;
}

proof fn lemma_square_bound(a: int)
    requires
        -0x8000_0000 <= a <= 0x8000_0000,
    ensures
        0 <= a * a <= 0x4000_0000_0000_0000,
{
    assert(0 <= a * a <= 0x4000_0000_0000_0000) by (nonlinear_arith)
        requires
            -0x8000_0000 <= a <= 0x8000_0000,
    ;
}

/// The line `a * x + b * y + c == 0`.
#[derive(Debug, Clone, Copy, PartialEq, Eq, Structural)]
pub struct Line {
    pub a: i128,
    pub b: i128,
    pub c: i128,
}

impl Line {
    /// Coefficient sizes for which evaluating the line at a point within
    /// `WIDE_LIMIT` cannot overflow.
    pub open spec fn bounded(self) -> bool {
        -0x1_0000_0000_0000 <= self.a <= 0x1_0000_0000_0000 && -0x1_0000_0000_0000 <= self.b
            <= 0x1_0000_0000_0000 && -0x1_0000_0000_0000_0000_0000 <= self.c
            <= 0x1_0000_0000_0000_0000_0000
    }

    /// Signed value of the line equation at `p`: zero on the line, and of
    /// opposite signs on the two sides.
    pub open spec fn side(self, p: Point) -> int {
        self.a * p.x + self.b * p.y + self.c
    }

    fn eval(&self, p: &Point) -> (r: i128)
        requires
            self.bounded(),
            p.within(WIDE_LIMIT as int),
        ensures
            r == self.side(*p),
    {
        let (x, y) = (p.x as i128, p.y as i128);
        proof {
            assert(-0x1_0000_0000_0000_0000_0000 <= self.a * x <= 0x1_0000_0000_0000_0000_0000)
                by (nonlinear_arith)
                requires
                    -0x1_0000_0000_0000 <= self.a <= 0x1_0000_0000_0000,
                    -0x8000_0000 <= x <= 0x8000_0000,
            ;
            assert(-0x1_0000_0000_0000_0000_0000 <= self.b * y <= 0x1_0000_0000_0000_0000_0000)
                by (nonlinear_arith)
                requires
                    -0x1_0000_0000_0000 <= self.b <= 0x1_0000_0000_0000,
                    -0x8000_0000 <= y <= 0x8000_0000,
            ;
        }
        self.a * x + self.b * y + self.c
    }
}

/// The segment between two points.
#[derive(Debug, Clone, Copy, PartialEq, Eq, Structural)]
pub struct LineSegment {
    pub a: Point,
    pub b: Point,
}

/// The line through the segment's endpoints, in general form.
pub open spec fn line_of(s: LineSegment) -> Line {
    Line {
        a: (s.b.y - s.a.y) as i128,
        b: (s.a.x - s.b.x) as i128,
        c: (s.b.x * s.a.y - s.a.x * s.b.y) as i128,
    }
}

/// Neither endpoint of `s` lies strictly on the same side of `l` as the
/// other: the endpoints are on opposite sides, or one of them is on `l`.
pub open spec fn meets_line(s: LineSegment, l: Line) -> bool {
    let d1 = l.side(s.a);
    let d2 = l.side(s.b);
    !(d1 > 0 && d2 > 0) && !(d1 < 0 && d2 < 0)
}

/// Each segment meets the line through the other.
pub open spec fn segments_cross(s: LineSegment, t: LineSegment) -> bool {
    meets_line(s, line_of(t)) && meets_line(t, line_of(s))
}

/// Half-open crossing test for ray casting: exactly one endpoint of the edge
/// `e` lies strictly on the positive side of the ray's line, and the ray
/// meets the edge's line. A vertex on the ray thus counts for only one of
/// the two edges that share it, and an edge along the ray counts for none.
pub open spec fn ray_crosses_edge(e: LineSegment, ray: LineSegment) -> bool {
    let l = line_of(ray);
    ((l.side(e.a) > 0) != (l.side(e.b) > 0)) && meets_line(ray, line_of(e))
}

/// Floor of the squared distance from `p` to the nearest point of `s`.
pub open spec fn seg_dist_sq(s: LineSegment, p: Point) -> int {
    let l = dist_sq(s.a, s.b);
    let ux = p.x - s.a.x;
    let uy = p.y - s.a.y;
    let vx = s.b.x - s.a.x;
    let vy = s.b.y - s.a.y;
    let d = ux * vx + uy * vy;
    if l == 0 || d <= 0 {
        dist_sq(s.a, p)
    } else if d >= l {
        dist_sq(s.b, p)
    } else {
        ((ux * ux + uy * uy) * l - d * d) / l
    }
}

impl LineSegment {
    pub open spec fn within(self, lim: int) -> bool {
        self.a.within(lim) && self.b.within(lim)
    }

    /// Smallest box holding both endpoints.
    pub open spec fn bbox_spec(self) -> Bbox {
        Bbox {
            a: Point {
                x: if self.a.x <= self.b.x { self.a.x } else { self.b.x },
                y: if self.a.y <= self.b.y { self.a.y } else { self.b.y },
            },
            b: Point {
                x: if self.a.x >= self.b.x { self.a.x } else { self.b.x },
                y: if self.a.y >= self.b.y { self.a.y } else { self.b.y },
            },
        }
    }

    pub fn intersects_segment(&self, line: &LineSegment) -> (r: bool)
        requires
            self.within(WIDE_LIMIT as int),
            line.within(WIDE_LIMIT as int),
        ensures
            r == segments_cross(*self, *line),
    {
        self.intersects_line(&line.to_line()) && line.intersects_line(&self.to_line())
    }

    /// Whether this edge counts as crossed by `ray` when casting a ray
    /// towards a point: see `ray_crosses_edge`.
    pub fn crosses_ray(&self, ray: &LineSegment) -> (r: bool)
        requires
            self.within(WIDE_LIMIT as int),
            ray.within(WIDE_LIMIT as int),
        ensures
            r == ray_crosses_edge(*self, *ray),
    {
        let l = ray.to_line();
        let d1 = l.eval(&self.a);
        let d2 = l.eval(&self.b);
        ((d1 > 0) != (d2 > 0)) && ray.intersects_line(&self.to_line())
    }

    pub fn intersects_line(&self, line: &Line) -> (r: bool)
        requires
            self.within(WIDE_LIMIT as int),
            line.bounded(),
        ensures
            r == meets_line(*self, *line),
    {
        let d1 = line.eval(&self.a);
        let d2 = line.eval(&self.b);
        if d1 > 0 && d2 > 0 {
            return false;
        }
        if d1 < 0 && d2 < 0 {
            return false;
        }
        true
    }

    pub fn bbox(&self) -> (r: Bbox)
        ensures
            r == self.bbox_spec(),
            r.well_formed(),
    {
        Bbox {
            a: Point {
                x: if self.a.x <= self.b.x { self.a.x } else { self.b.x },
                y: if self.a.y <= self.b.y { self.a.y } else { self.b.y },
            },
            b: Point {
                x: if self.a.x >= self.b.x { self.a.x } else { self.b.x },
                y: if self.a.y >= self.b.y { self.a.y } else { self.b.y },
            },
        }
    }

    pub fn length_squared(&self) -> (r: i128)
        requires
            self.within(COORD_LIMIT as int),
        ensures
            r == dist_sq(self.a, self.b),
    {
        self.a.distance_squared(&self.b)
    }

    /// Squared distance from `point` to the segment, rounded down: the point
    /// is projected onto the segment's direction, the projection is clamped
    /// to the segment, and the squared distance to it is taken. A segment of
    /// length zero measures to its single endpoint.
    pub fn distance_squared_to_point(&self, point: &Point) -> (r: i128)
        requires
            self.within(COORD_LIMIT as int),
            point.within(COORD_LIMIT as int),
        ensures
            r == seg_dist_sq(*self, *point),
    {
        let l = self.length_squared();
        if l == 0 {
            return self.a.distance_squared(point);
        }
        let u = point.vector_from(&self.a);
        let v = self.b.vector_from(&self.a);
        let d = u.dot(&v);
        if d <= 0 {
            return self.a.distance_squared(point);
        }
        if d >= l {
            return self.b.distance_squared(point);
        }
        let uu = u.length_squared();
        proof {
            lemma_square_bound(u.x as int);
            lemma_square_bound(u.y as int);
            lemma_square_bound(v.x as int);
            lemma_square_bound(v.y as int);
            assert((self.a.x - self.b.x) * (self.a.x - self.b.x) == v.x * v.x) by (nonlinear_arith)
                requires
                    v.x == self.b.x - self.a.x,
            ;
            assert((self.a.y - self.b.y) * (self.a.y - self.b.y) == v.y * v.y) by (nonlinear_arith)
                requires
                    v.y == self.b.y - self.a.y,
            ;
            lemma_lagrange(u.x as int, u.y as int, v.x as int, v.y as int);
            assert(0 <= uu <= 0x8000_0000_0000_0000);
            assert(0 < l <= 0x8000_0000_0000_0000);
            assert(uu * l <= 0x4000_0000_0000_0000_0000_0000_0000_0000) by (nonlinear_arith)
                requires
                    0 <= uu <= 0x8000_0000_0000_0000,
                    0 < l <= 0x8000_0000_0000_0000,
            ;
            assert(d * d < l * l) by (nonlinear_arith)
                requires
                    0 < d < l,
            ;
            assert(l * l <= 0x4000_0000_0000_0000_0000_0000_0000_0000) by (nonlinear_arith)
                requires
                    0 < l <= 0x8000_0000_0000_0000,
            ;
            assert(uu * l - d * d >= 0);
        }
        (uu * l - d * d) / l
    }

    pub fn to_line(&self) -> (r: Line)
        requires
            self.within(WIDE_LIMIT as int),
        ensures
            r == line_of(*self),
            r.bounded(),
    {
        let (ax, ay, bx, by) = (self.a.x as i128, self.a.y as i128, self.b.x as i128, self.b.y as i128);
        proof {
            lemma_bounded_product(bx, ay);
            lemma_bounded_product(ax, by);
        }
        Line { a: by - ay, b: ax - bx, c: (bx * ay) - (ax * by) }
    }
}

/// Lagrange's identity in the plane: `|u|^2 |v|^2 - (u . v)^2` is the
/// square of the cross product, so it is never negative.
proof fn lemma_lagrange(ux: int, uy: int, vx: int, vy: int)
    ensures
        (ux * ux + uy * uy) * (vx * vx + vy * vy) - (ux * vx + uy * vy) * (ux * vx + uy * vy)
            >= 0,
        (ux * ux + uy * uy) * (vx * vx + vy * vy) - (ux * vx + uy * vy) * (ux * vx + uy * vy)
            == (ux * vy - uy * vx) * (ux * vy - uy * vx),
{
    let a = ux * vx;
    let b = uy * vy;
    let c = ux * vy;
    let e = uy * vx;
    assert((ux * ux + uy * uy) * (vx * vx + vy * vy) == (ux * ux) * (vx * vx) + (ux * ux) * (vy
        * vy) + (uy * uy) * (vx * vx) + (uy * uy) * (vy * vy)) by (nonlinear_arith);
    assert((ux * ux) * (vx * vx) == a * a) by (nonlinear_arith)
        requires
            a == ux * vx,
    ;
    assert((uy * uy) * (vy * vy) == b * b) by (nonlinear_arith)
        requires
            b == uy * vy,
    ;
    assert((ux * ux) * (vy * vy) == c * c) by (nonlinear_arith)
        requires
            c == ux * vy,
    ;
    assert((uy * uy) * (vx * vx) == e * e) by (nonlinear_arith)
        requires
            e == uy * vx,
    ;
    assert(a * b == c * e) by (nonlinear_arith)
        requires
            a == ux * vx,
            b == uy * vy,
            c == ux * vy,
            e == uy * vx,
    ;
    assert((a + b) * (a + b) == a * a + 2 * (a * b) + b * b) by (nonlinear_arith);
    assert((c - e) * (c - e) == c * c - 2 * (c * e) + e * e) by (nonlinear_arith);
    assert((c - e) * (c - e) >= 0) by (nonlinear_arith);
    assert(c - e == ux * vy - uy * vx);
}

/// Squared length of the cross product, over the squared length, is at
/// least `k * k` when the cross product times a component bounded by the
/// length is at least `k` lengths away from zero.
proof fn lemma_far_from_line(w: int, comp: int, c: int, l: int, k: int)
    requires
        l > 0,
        k >= 0,
        comp * comp <= l,
        w == comp * c,
        w >= k * l || w <= -k * l,
    ensures
        (c * c) / l >= k * k,
{
    assert(w * w >= (k * l) * (k * l)) by (nonlinear_arith)
        requires
            w >= k * l || w <= -k * l,
            k >= 0,
            l > 0,
    ;
    assert(w * w == (comp * comp) * (c * c)) by (nonlinear_arith)
        requires
            w == comp * c,
    ;
    assert((comp * comp) * (c * c) <= l * (c * c)) by (nonlinear_arith)
        requires
            comp * comp <= l,
    ;
    assert(c * c >= k * k * l) by (nonlinear_arith)
        requires
            l * (c * c) >= (k * l) * (k * l),
            l > 0,
    ;
    vstd::arithmetic::div_mod::lemma_fundamental_div_mod(c * c, l);
    let q = (c * c) / l;
    let r = (c * c) % l;
    assert(0 <= r < l);
    assert(q >= k * k) by (nonlinear_arith)
        requires
            c * c == l * q + r,
            0 <= r < l,
            c * c >= k * k * l,
            l > 0,
    ;
}

/// A segment closer to `p` than `k` (squared distance below `k * k`) has a
/// bounding box that overlaps the square of half-width `k` around `p`.
pub proof fn lemma_near_segment_box(s: LineSegment, p: Point, k: int)
    requires
        0 <= k <= COORD_LIMIT,
        p.within(COORD_LIMIT as int),
        s.within(COORD_LIMIT as int),
        seg_dist_sq(s, p) < k * k,
    ensures
        s.bbox_spec().overlaps_spec(
            Bbox {
                a: Point { x: (p.x - k) as i64, y: (p.y - k) as i64 },
                b: Point { x: (p.x + k) as i64, y: (p.y + k) as i64 },
            },
        ),
{
    {
        let l = dist_sq(s.a, s.b);
        let ux = p.x - s.a.x;
        let uy = p.y - s.a.y;
        let vx = s.b.x - s.a.x;
        let vy = s.b.y - s.a.y;
        let d = ux * vx + uy * vy;
        let c = ux * vy - uy * vx;
        let k1 = k + 1;
        assert(l == vx * vx + vy * vy) by (nonlinear_arith)
            requires
                l == (s.a.x - s.b.x) * (s.a.x - s.b.x) + (s.a.y - s.b.y) * (s.a.y - s.b.y),
                vx == s.b.x - s.a.x,
                vy == s.b.y - s.a.y,
        ;
        assert(vx * vx >= 0 && vy * vy >= 0) by (nonlinear_arith);
        let far_left = s.a.x < p.x - k && s.b.x < p.x - k;
        let far_right = s.a.x > p.x + k && s.b.x > p.x + k;
        let far_down = s.a.y < p.y - k && s.b.y < p.y - k;
        let far_up = s.a.y > p.y + k && s.b.y > p.y + k;
        if far_left || far_right || far_down || far_up {
            // Every endpoint is at least k + 1 away along one axis.
            let ea = if far_left || far_right { p.x - s.a.x } else { p.y - s.a.y };
            let eb = if far_left || far_right { p.x - s.b.x } else { p.y - s.b.y };
            assert(ea >= k1 && eb >= k1 || ea <= -k1 && eb <= -k1);
            assert(ea * ea >= k1 * k1) by (nonlinear_arith)
                requires
                    ea >= k1 || ea <= -k1,
                    k1 >= 1,
            ;
            assert(eb * eb >= k1 * k1) by (nonlinear_arith)
                requires
                    eb >= k1 || eb <= -k1,
                    k1 >= 1,
            ;
            assert((p.x - s.a.x) * (p.x - s.a.x) >= 0 && (p.y - s.a.y) * (p.y - s.a.y) >= 0)
                by (nonlinear_arith);
            assert((p.x - s.b.x) * (p.x - s.b.x) >= 0 && (p.y - s.b.y) * (p.y - s.b.y) >= 0)
                by (nonlinear_arith);
            assert((s.a.x - p.x) * (s.a.x - p.x) == (p.x - s.a.x) * (p.x - s.a.x)) by (nonlinear_arith);
            assert((s.a.y - p.y) * (s.a.y - p.y) == (p.y - s.a.y) * (p.y - s.a.y)) by (nonlinear_arith);
            assert((s.b.x - p.x) * (s.b.x - p.x) == (p.x - s.b.x) * (p.x - s.b.x)) by (nonlinear_arith);
            assert((s.b.y - p.y) * (s.b.y - p.y) == (p.y - s.b.y) * (p.y - s.b.y)) by (nonlinear_arith);
            assert(dist_sq(s.a, p) >= k1 * k1);
            assert(dist_sq(s.b, p) >= k1 * k1);
            assert(k1 * k1 > k * k) by (nonlinear_arith)
                requires
                    k1 == k + 1,
                    k >= 0,
            ;
            if !(l == 0 || d <= 0) && !(d >= l) {
                lemma_lagrange(ux, uy, vx, vy);
                assert((ux * ux + uy * uy) * l - d * d == c * c);
                // l times the offset of `p` from the projection, along the
                // far axis, is a multiple of the cross product.
                if far_left || far_right {
                    let w = ux * l - d * vx;
                    assert(w == vy * c) by (nonlinear_arith)
                        requires
                            w == ux * l - d * vx,
                            l == vx * vx + vy * vy,
                            d == ux * vx + uy * vy,
                            c == ux * vy - uy * vx,
                    ;
                    assert(w == ea * (l - d) + eb * d) by (nonlinear_arith)
                        requires
                            w == ux * l - d * vx,
                            ea == ux,
                            eb == ux - vx,
                    ;
                    assert(w >= k1 * l || w <= -k1 * l) by (nonlinear_arith)
                        requires
                            w == ea * (l - d) + eb * d,
                            0 < d < l,
                            ea >= k1 && eb >= k1 || ea <= -k1 && eb <= -k1,
                    ;
                    lemma_far_from_line(w, vy, c, l, k1);
                } else {
                    let w = uy * l - d * vy;
                    assert(w == -vx * c) by (nonlinear_arith)
                        requires
                            w == uy * l - d * vy,
                            l == vx * vx + vy * vy,
                            d == ux * vx + uy * vy,
                            c == ux * vy - uy * vx,
                    ;
                    assert(w == ea * (l - d) + eb * d) by (nonlinear_arith)
                        requires
                            w == uy * l - d * vy,
                            ea == uy,
                            eb == uy - vy,
                    ;
                    assert(w >= k1 * l || w <= -k1 * l) by (nonlinear_arith)
                        requires
                            w == ea * (l - d) + eb * d,
                            0 < d < l,
                            ea >= k1 && eb >= k1 || ea <= -k1 && eb <= -k1,
                    ;
                    assert((-vx) * (-vx) == vx * vx) by (nonlinear_arith);
                    lemma_far_from_line(w, -vx, c, l, k1);
                }
            }
            assert(false);
        }
    }
}

/// A closed polygon: the edges join consecutive vertices, and one more edge
/// joins the last vertex back to the first.
pub struct Polygon {
    vertices: Vec<Point>,
    edges: Vec<LineSegment>,
    bbox: Bbox,
}

/// The edges of the polygon with vertices `vs`, the closing edge last.
pub open spec fn edges_of(vs: Seq<Point>) -> Seq<LineSegment> {
    Seq::new(
        vs.len(),
        |i: int|
            if i + 1 < vs.len() {
                LineSegment { a: vs[i], b: vs[i + 1] }
            } else {
                LineSegment { a: vs[vs.len() - 1], b: vs[0] }
            },
    )
}

pub open spec fn min_x(vs: Seq<Point>) -> i64
    decreases vs.len(),
{
    if vs.len() <= 1 {
        vs[0].x
    } else {
        let m = min_x(vs.drop_last());
        if vs.last().x < m {
            vs.last().x
        } else {
            m
        }
    }
}

pub open spec fn min_y(vs: Seq<Point>) -> i64
    decreases vs.len(),
{
    if vs.len() <= 1 {
        vs[0].y
    } else {
        let m = min_y(vs.drop_last());
        if vs.last().y < m {
            vs.last().y
        } else {
            m
        }
    }
}

pub open spec fn max_x(vs: Seq<Point>) -> i64
    decreases vs.len(),
{
    if vs.len() <= 1 {
        vs[0].x
    } else {
        let m = max_x(vs.drop_last());
        if vs.last().x > m {
            vs.last().x
        } else {
            m
        }
    }
}

pub open spec fn max_y(vs: Seq<Point>) -> i64
    decreases vs.len(),
{
    if vs.len() <= 1 {
        vs[0].y
    } else {
        let m = max_y(vs.drop_last());
        if vs.last().y > m {
            vs.last().y
        } else {
            m
        }
    }
}

/// Componentwise minimum and maximum over all vertices.
pub open spec fn bounds_of(vs: Seq<Point>) -> Bbox {
    Bbox { a: Point { x: min_x(vs), y: min_y(vs) }, b: Point { x: max_x(vs), y: max_y(vs) } }
}

/// Number of edges of `es` that `ray` crosses, by the half-open rule.
pub open spec fn crossings(es: Seq<LineSegment>, ray: LineSegment) -> nat
    decreases es.len(),
{
    if es.len() == 0 {
        0
    } else {
        crossings(es.drop_last(), ray) + if ray_crosses_edge(es.last(), ray) {
            1nat
        } else {
            0nat
        }
    }
}

/// The segment cast towards `p` from one unit below and left of the
/// polygon's bounding box.
pub open spec fn ray_to(vs: Seq<Point>, p: Point) -> LineSegment {
    LineSegment {
        a: Point { x: (bounds_of(vs).a.x - 1) as i64, y: (bounds_of(vs).a.y - 1) as i64 },
        b: p,
    }
}

/// Ray-casting containment: `p` lies in the bounding box and the ray to it
/// crosses an odd number of edges, a vertex on the ray counting once.
pub open spec fn polygon_contains(vs: Seq<Point>, p: Point) -> bool {
    bounds_of(vs).contains_spec(p) && crossings(edges_of(vs), ray_to(vs, p)) % 2 == 1
}

/// Every vertex lies within `lim`.
pub open spec fn all_within(vs: Seq<Point>, lim: int) -> bool {
    forall|i: int| 0 <= i < vs.len() ==> (#[trigger] vs[i]).within(lim)
}

impl View for Polygon {
    type V = Seq<Point>;

    closed spec fn view(&self) -> Seq<Point> {
        self.vertices@
    }
}

proof fn lemma_bounds_hold(vs: Seq<Point>)
    requires
        vs.len() >= 1,
    ensures
        forall|i: int|
            0 <= i < vs.len() ==> min_x(vs) <= (#[trigger] vs[i]).x <= max_x(vs) && min_y(vs)
                <= vs[i].y <= max_y(vs),
        exists|i: int| 0 <= i < vs.len() && vs[i].x == min_x(vs),
        exists|i: int| 0 <= i < vs.len() && vs[i].y == min_y(vs),
    decreases vs.len(),
{
    if vs.len() > 1 {
        lemma_bounds_hold(vs.drop_last());
        assert forall|i: int| 0 <= i < vs.len() implies min_x(vs) <= (#[trigger] vs[i]).x
            <= max_x(vs) && min_y(vs) <= vs[i].y <= max_y(vs) by {
            if i < vs.len() - 1 {
                assert(vs[i] == vs.drop_last()[i]);
            }
        }
        if vs.last().x >= min_x(vs.drop_last()) {
            let k = choose|k: int| 0 <= k < vs.len() - 1 && vs.drop_last()[k].x == min_x(vs.drop_last());
            assert(vs[k] == vs.drop_last()[k]);
        } else {
            assert(vs[vs.len() - 1].x == min_x(vs));
        }
        if vs.last().y >= min_y(vs.drop_last()) {
            let k = choose|k: int| 0 <= k < vs.len() - 1 && vs.drop_last()[k].y == min_y(vs.drop_last());
            assert(vs[k] == vs.drop_last()[k]);
        } else {
            assert(vs[vs.len() - 1].y == min_y(vs));
        }
    } else {
        assert(vs[0].x == min_x(vs));
        assert(vs[0].y == min_y(vs));
    }
}

/// The bounding box of any vertex sequence is well formed.
pub proof fn lemma_bounds_well_formed(vs: Seq<Point>)
    ensures
        bounds_of(vs).well_formed(),
{
    if vs.len() >= 1 {
        lemma_bounds_hold(vs);
        assert(min_x(vs) <= vs[0].x <= max_x(vs));
    }
}

impl Polygon {
    #[verifier::type_invariant]
    spec fn inv(self) -> bool {
        &&& self.vertices@.len() >= 1
        &&& self.edges@ == edges_of(self.vertices@)
        &&& self.bbox == bounds_of(self.vertices@)
    }

    /// Builds the polygon over `vertices`, computing its edges and bounding
    /// box once.
    pub fn new(vertices: Vec<Point>) -> (r: Polygon)
        requires
            vertices@.len() >= 1,
        ensures
            r@ == vertices@,
    {
        let edges = edges(&vertices);
        let bbox = bounding_box(&vertices);
        Polygon { edges, bbox, vertices }
    }

    pub fn bbox(&self) -> (r: &Bbox)
        ensures
            *r == bounds_of(self@),
            r.well_formed(),
            self@.len() >= 1,
    {
        proof {
            use_type_invariant(self);
            lemma_bounds_hold(self.vertices@);
        }
        &self.bbox
    }

    pub fn vertices(&self) -> (r: &Vec<Point>)
        ensures
            r@ == self@,
    {
        &self.vertices
    }

    pub fn edges(&self) -> (r: &Vec<LineSegment>)
        ensures
            r@ == edges_of(self@),
    {
        proof {
            use_type_invariant(self);
        }
        &self.edges
    }

    /// A polygon with the same vertices.
    pub fn duplicate(&self) -> (r: Polygon)
        ensures
            r@ == self@,
    {
        proof {
            use_type_invariant(self);
        }
        let mut vertices: Vec<Point> = Vec::new();
        let mut i: usize = 0;
        while i < self.vertices.len()
            invariant
                i <= self.vertices@.len(),
                vertices@ == self.vertices@.subrange(0, i as int),
            decreases self.vertices@.len() - i,
        {
            vertices.push(self.vertices[i]);
            i = i + 1;
        }
        assert(vertices@ == self.vertices@);
        let mut edges: Vec<LineSegment> = Vec::new();
        let mut i: usize = 0;
        while i < self.edges.len()
            invariant
                i <= self.edges@.len(),
                edges@ == self.edges@.subrange(0, i as int),
            decreases self.edges@.len() - i,
        {
            edges.push(self.edges[i]);
            i = i + 1;
        }
        assert(edges@ == self.edges@);
        Polygon { vertices, edges, bbox: self.bbox }
    }

    /// Whether `point` lies inside the polygon, by ray casting: the ray from
    /// just outside the bounding box must cross an odd number of edges, by
    /// the half-open rule of `ray_crosses_edge`.
    pub fn contains_point(&self, point: &Point) -> (r: bool)
        requires
            all_within(self@, COORD_LIMIT as int),
            point.within(COORD_LIMIT as int),
        ensures
            r == polygon_contains(self@, *point),
    {
        proof {
            use_type_invariant(self);
            lemma_bounds_hold(self.vertices@);
        }
        if !self.bbox.contains(point) {
            return false;
        }
        let segment = LineSegment {
            a: Point { x: self.bbox.a.x - 1, y: self.bbox.a.y - 1 },
            b: Point { x: point.x, y: point.y },
        };
        let edges = &self.edges;
        let mut collisions: usize = 0;
        let mut i: usize = 0;
        while i < edges.len()
            invariant
                i <= edges@.len(),
                edges@ == edges_of(self.vertices@),
                self.vertices@.len() >= 1,
                all_within(self.vertices@, COORD_LIMIT as int),
                segment.within(WIDE_LIMIT as int),
                collisions == crossings(edges@.subrange(0, i as int), segment),
                collisions <= i,
            decreases edges@.len() - i,
        {
            let e = &edges[i];
            proof {
                let n = self.vertices@.len();
                if i + 1 < n {
                    assert(self.vertices@[i as int].within(COORD_LIMIT as int));
                    assert(self.vertices@[i + 1].within(COORD_LIMIT as int));
                } else {
                    assert(self.vertices@[n - 1].within(COORD_LIMIT as int));
                    assert(self.vertices@[0].within(COORD_LIMIT as int));
                }
                assert(edges@.subrange(0, i + 1).drop_last() == edges@.subrange(0, i as int));
            }
            if e.crosses_ray(&segment) {
                collisions = collisions + 1;
            }
            i = i + 1;
        }
        assert(edges@.subrange(0, edges@.len() as int) == edges@);
        collisions > 0 && collisions % 2 == 1
    }
}

/// The segments of the open polyline through `points`: one for each pair of
/// consecutive points.
pub fn segments_of(points: &Vec<Point>) -> (r: Vec<LineSegment>)
    ensures
        r@.len() == if points@.len() == 0 { 0 } else { points@.len() - 1 },
        forall|i: int|
            0 <= i < r@.len() ==> #[trigger] r@[i] == (LineSegment { a: points@[i], b: points@[i + 1] }),
{
    let mut r: Vec<LineSegment> = Vec::new();
    let mut i: usize = 1;
    while i < points.len()
        invariant
            1 <= i,
            i <= points@.len() || (points@.len() == 0 && i == 1),
            r@.len() == i - 1,
            forall|k: int|
                0 <= k < i - 1 ==> #[trigger] r@[k] == (LineSegment { a: points@[k], b: points@[k + 1] }),
        decreases points@.len() - i,
    {
        r.push(LineSegment { a: points[i - 1], b: points[i] });
        i = i + 1;
    }
    r
}

/// The edges joining consecutive vertices, then the closing edge from the
/// last vertex back to the first.
fn edges(vertices: &Vec<Point>) -> (r: Vec<LineSegment>)
    requires
        vertices@.len() >= 1,
    ensures
        r@ == edges_of(vertices@),
{
    let mut edges: Vec<LineSegment> = Vec::new();
    let mut i: usize = 1;
    while i < vertices.len()
        invariant
            1 <= i <= vertices@.len(),
            edges@.len() == i - 1,
            forall|k: int| 0 <= k < i - 1 ==> edges@[k] == edges_of(vertices@)[k],
        decreases vertices@.len() - i,
    {
        let segment = LineSegment { a: vertices[i - 1], b: vertices[i] };
        edges.push(segment);
        i = i + 1;
    }
    let closing = LineSegment { a: vertices[vertices.len() - 1], b: vertices[0] };
    edges.push(closing);
    assert(edges@ =~= edges_of(vertices@));
    edges
}

/// Componentwise minimum and maximum over the vertices.
fn bounding_box(vertices: &Vec<Point>) -> (r: Bbox)
    requires
        vertices@.len() >= 1,
    ensures
        r == bounds_of(vertices@),
{
    let mut lo_x = vertices[0].x;
    let mut lo_y = vertices[0].y;
    let mut hi_x = vertices[0].x;
    let mut hi_y = vertices[0].y;
    let mut i: usize = 1;
    while i < vertices.len()
        invariant
            1 <= i <= vertices@.len(),
            lo_x == min_x(vertices@.subrange(0, i as int)),
            lo_y == min_y(vertices@.subrange(0, i as int)),
            hi_x == max_x(vertices@.subrange(0, i as int)),
            hi_y == max_y(vertices@.subrange(0, i as int)),
        decreases vertices@.len() - i,
    {
        let v = vertices[i];
        proof {
            let s = vertices@.subrange(0, i + 1);
            assert(s.drop_last() == vertices@.subrange(0, i as int));
            assert(s.last() == v);
        }
        if v.x < lo_x {
            lo_x = v.x;
        }
        if v.y < lo_y {
            lo_y = v.y;
        }
        if v.x > hi_x {
            hi_x = v.x;
        }
        if v.y > hi_y {
            hi_y = v.y;
        }
        i = i + 1;
    }
    assert(vertices@.subrange(0, vertices@.len() as int) == vertices@);
    Bbox { a: Point { x: lo_x, y: lo_y }, b: Point { x: hi_x, y: hi_y } }
}

} // verus!
