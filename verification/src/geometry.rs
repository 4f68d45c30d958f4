//! Integer planar and spatial geometry shared by the slicer and the SLA tools.
//!
//! All lengths are scaled coordinates: one unit is `1 / SCALED_PER_MM`
//! millimetre.
use vstd::prelude::*;

verus! {

/// Scaled coordinate type.
pub type Coord = i64;

/// Number of scaled units in one millimetre.
pub const SCALED_PER_MM: i64 = 1_000_000;

/// Largest magnitude a coordinate may have for the geometric predicates of
/// this crate to be evaluated without overflow (about 1 km).
pub const COORD_LIMIT: i64 = 1_000_000_000_000;

/// Division rounding towards zero, for a positive divisor.
pub open spec fn tdiv(n: int, d: int) -> int {
    if n >= 0 {
        n / d
    } else {
        -((-n) / d)
    }
}

/// A point of the plane.
#[derive(Clone, Copy, Debug, PartialEq, Eq, Structural)]
pub struct Point {
    pub x: Coord,
    pub y: Coord,
}

impl Point {
    pub fn new(x: Coord, y: Coord) -> (r: Point)
        ensures
            r.x == x,
            r.y == y,
    {
        Point { x, y }
    }
}

/// A point of space.
#[derive(Clone, Copy, Debug, PartialEq, Eq, Structural)]
pub struct Point3 {
    pub x: Coord,
    pub y: Coord,
    pub z: Coord,
}

impl Point3 {
    pub fn new(x: Coord, y: Coord, z: Coord) -> (r: Point3)
        ensures
            r.x == x,
            r.y == y,
            r.z == z,
    {
        Point3 { x, y, z }
    }
}

/// A coordinate lies within `COORD_LIMIT`.
pub open spec fn coord_ok(c: int) -> bool {
    -COORD_LIMIT <= c <= COORD_LIMIT
}

pub open spec fn point_ok(p: Point) -> bool {
    coord_ok(p.x as int) && coord_ok(p.y as int)
}

pub open spec fn points_ok(s: Seq<Point>) -> bool {
    forall|i: int| 0 <= i < s.len() ==> #[trigger] point_ok(s[i])
}

/// A closed polygon given by its vertices; the last vertex connects back to
/// the first.
#[derive(Debug)]
pub struct Polygon {
    pub points: Vec<Point>,
}

impl Clone for Polygon {
    fn clone(&self) -> (res: Self)
        ensures
            res.points@ == self.points@,
    {
        Polygon { points: self.points.clone() }
    }
}

/// A polygon with holes.
#[derive(Debug)]
pub struct ExPolygon {
    pub contour: Polygon,
    pub holes: Vec<Polygon>,
}

/// The vertex sequences of a list of polygons.
pub open spec fn polys_view(ps: Seq<Polygon>) -> Seq<Seq<Point>> {
    ps.map_values(|p: Polygon| p.points@)
}

/// The abstract value of an expolygon: its contour and its holes.
pub open spec fn expoly_view(e: ExPolygon) -> (Seq<Point>, Seq<Seq<Point>>) {
    (e.contour.points@, polys_view(e.holes@))
}

pub open spec fn expolys_view(es: Seq<ExPolygon>) -> Seq<(Seq<Point>, Seq<Seq<Point>>)> {
    es.map_values(|e: ExPolygon| expoly_view(e))
}

/// Clone a list of polygons, keeping every vertex.
pub fn clone_polygons(ps: &Vec<Polygon>) -> (res: Vec<Polygon>)
    ensures
        polys_view(res@) == polys_view(ps@),
{
    let mut res: Vec<Polygon> = Vec::new();
    let mut i: usize = 0;
    while i < ps.len()
        invariant
            i <= ps.len(),
            res@.len() == i,
            forall|k: int| 0 <= k < i ==> (#[trigger] res@[k]).points@ == ps@[k].points@,
        decreases ps.len() - i,
    {
        res.push(ps[i].clone());
        i += 1;
    }
    assert(polys_view(res@) =~= polys_view(ps@));
    res
}

impl Clone for ExPolygon {
    fn clone(&self) -> (res: Self)
        ensures
            expoly_view(res) == expoly_view(*self),
    {
        ExPolygon { contour: self.contour.clone(), holes: clone_polygons(&self.holes) }
    }
}

/// The edge of a ring that starts at vertex `i`.
pub open spec fn edge_end(s: Seq<Point>, i: int) -> Point {
    if i + 1 < s.len() {
        s[i + 1]
    } else {
        s[0]
    }
}

/// Edge `i` of the ring crosses the horizontal ray that starts at `p` and
/// goes towards `+x` (half-open rule on `y`, strictly right of `p`).
pub open spec fn edge_crosses_ray(a: Point, b: Point, p: Point) -> bool {
    ((a.y > p.y) != (b.y > p.y)) && {
        // x of the crossing compared with p.x, without division:
        // x_cross = a.x + (p.y - a.y) * (b.x - a.x) / (b.y - a.y) > p.x
        let lhs = (p.y - a.y) * (b.x - a.x) + (a.x - p.x) * (b.y - a.y);
        if b.y > a.y {
            lhs > 0
        } else {
            lhs < 0
        }
    }
}

/// Number of ring edges among the first `n` that cross the ray from `p`.
pub open spec fn crossings(s: Seq<Point>, p: Point, n: int) -> nat
    decreases n,
{
    if n <= 0 {
        0
    } else {
        crossings(s, p, n - 1) + if edge_crosses_ray(s[n - 1], edge_end(s, n - 1), p) {
            1nat
        } else {
            0nat
        }
    }
}

/// Even-odd point-in-polygon test.
pub open spec fn ring_contains(s: Seq<Point>, p: Point) -> bool {
    crossings(s, p, s.len() as int) % 2 == 1
}

proof fn lemma_crossing_product_bounds(a: Point, b: Point, p: Point)
    requires
        point_ok(a),
        point_ok(b),
        point_ok(p),
    ensures
        -0x1000_0000_0000_0000_0000_0000 < (p.y - a.y) * (b.x - a.x) < 0x1000_0000_0000_0000_0000_0000,
        -0x1000_0000_0000_0000_0000_0000 < (a.x - p.x) * (b.y - a.y) < 0x1000_0000_0000_0000_0000_0000,
{
    let d1 = p.y - a.y;
    let d2 = b.x - a.x;
    let d3 = a.x - p.x;
    let d4 = b.y - a.y;
    assert(-2 * COORD_LIMIT <= d1 <= 2 * COORD_LIMIT);
    assert(-2 * COORD_LIMIT <= d2 <= 2 * COORD_LIMIT);
    assert(-2 * COORD_LIMIT <= d3 <= 2 * COORD_LIMIT);
    assert(-2 * COORD_LIMIT <= d4 <= 2 * COORD_LIMIT);
    assert(-4 * COORD_LIMIT * COORD_LIMIT <= d1 * d2 <= 4 * COORD_LIMIT * COORD_LIMIT)
        by (nonlinear_arith)
        requires
            -2 * COORD_LIMIT <= d1 <= 2 * COORD_LIMIT,
            -2 * COORD_LIMIT <= d2 <= 2 * COORD_LIMIT,
    ;
    assert(-4 * COORD_LIMIT * COORD_LIMIT <= d3 * d4 <= 4 * COORD_LIMIT * COORD_LIMIT)
        by (nonlinear_arith)
        requires
            -2 * COORD_LIMIT <= d3 <= 2 * COORD_LIMIT,
            -2 * COORD_LIMIT <= d4 <= 2 * COORD_LIMIT,
    ;
}

/// Whether the segment from `a` to `b` crosses the ray from `p` towards `+x`.
pub fn segment_crosses_ray(a: Point, b: Point, p: Point) -> (r: bool)
    requires
        point_ok(a),
        point_ok(b),
        point_ok(p),
    ensures
        r == edge_crosses_ray(a, b, p),
{
    if (a.y > p.y) == (b.y > p.y) {
        return false;
    }
    proof {
        lemma_crossing_product_bounds(a, b, p);
    }
    let t1: i128 = (p.y as i128 - a.y as i128) * (b.x as i128 - a.x as i128);
    let t2: i128 = (a.x as i128 - p.x as i128) * (b.y as i128 - a.y as i128);
    let lhs: i128 = t1 + t2;
    if b.y > a.y {
        lhs > 0
    } else {
        lhs < 0
    }
}

/// Even-odd containment of a point in the ring through `pts`.
pub fn ring_contains_point(pts: &Vec<Point>, p: &Point) -> (r: bool)
    requires
        points_ok(pts@),
        point_ok(*p),
    ensures
        r == ring_contains(pts@, *p),
{
    let n = pts.len();
    let mut count: usize = 0;
    let mut i: usize = 0;
    while i < n
        invariant
            n == pts@.len(),
            i <= n,
            count == crossings(pts@, *p, i as int),
            count <= i,
            points_ok(pts@),
            point_ok(*p),
        decreases n - i,
    {
        let a = pts[i];
        let b = if i + 1 < n {
            pts[i + 1]
        } else {
            pts[0]
        };
        assert(point_ok(pts@[i as int]));
        assert(point_ok(edge_end(pts@, i as int)));
        if segment_crosses_ray(a, b, *p) {
            count = count + 1;
        }
        i += 1;
    }
    count % 2 == 1
}

impl Polygon {
    pub fn new() -> (r: Polygon)
        ensures
            r.points@ == Seq::<Point>::empty(),
    {
        Polygon { points: Vec::new() }
    }

    pub fn from_points(points: Vec<Point>) -> (r: Polygon)
        ensures
            r.points@ == points@,
    {
        Polygon { points }
    }

    pub fn len(&self) -> (r: usize)
        ensures
            r == self.points@.len(),
    {
        self.points.len()
    }

    /// Even-odd containment of a point (points on the boundary may fall on
    /// either side).
    pub fn contains(&self, p: &Point) -> (r: bool)
        requires
            points_ok(self.points@),
            point_ok(*p),
        ensures
            r == ring_contains(self.points@, *p),
    {
        ring_contains_point(&self.points, p)
    }

    /// Reverse the order of the vertices.
    pub fn reverse(&mut self)
        ensures
            final(self).points@ == old(self).points@.reverse(),
    {
        let n = self.points.len();
        let mut out: Vec<Point> = Vec::new();
        let mut i: usize = 0;
        while i < n
            invariant
                n == self.points@.len(),
                i <= n,
                out@.len() == i,
                forall|k: int| 0 <= k < i ==> #[trigger] out@[k] == self.points@[n - 1 - k],
            decreases n - i,
        {
            out.push(self.points[n - 1 - i]);
            i += 1;
        }
        assert(out@ =~= self.points@.reverse());
        self.points = out;
    }
}

/// A polygon translated by a vector.
pub open spec fn translated(s: Seq<Point>, dx: int, dy: int) -> Seq<Point> {
    s.map_values(|p: Point| Point { x: (p.x + dx) as i64, y: (p.y + dy) as i64 })
}

/// Translate every vertex of a polygon.
pub fn translate_points(pts: &mut Vec<Point>, dx: Coord, dy: Coord)
    requires
        points_ok(old(pts)@),
        coord_ok(dx as int),
        coord_ok(dy as int),
    ensures
        final(pts)@ == translated(old(pts)@, dx as int, dy as int),
{
    let n = pts.len();
    let mut i: usize = 0;
    while i < n
        invariant
            n == pts@.len(),
            n == old(pts)@.len(),
            i <= n,
            points_ok(old(pts)@),
            coord_ok(dx as int),
            coord_ok(dy as int),
            forall|k: int|
                0 <= k < i ==> #[trigger] pts@[k] == (Point {
                    x: (old(pts)@[k].x + dx) as i64,
                    y: (old(pts)@[k].y + dy) as i64,
                }),
            forall|k: int| i <= k < n ==> #[trigger] pts@[k] == old(pts)@[k],
        decreases n - i,
    {
        let p = pts[i];
        assert(point_ok(old(pts)@[i as int]));
        pts.set(i, Point { x: p.x + dx, y: p.y + dy });
        i += 1;
    }
    assert(pts@ =~= translated(old(pts)@, dx as int, dy as int));
}

impl ExPolygon {
    /// An expolygon without holes.
    pub fn new(contour: Polygon) -> (r: ExPolygon)
        ensures
            r.contour.points@ == contour.points@,
            r.holes@.len() == 0,
    {
        ExPolygon { contour, holes: Vec::new() }
    }

    /// An expolygon with no vertices at all.
    pub fn empty() -> (r: ExPolygon)
        ensures
            r.contour.points@.len() == 0,
            r.holes@.len() == 0,
    {
        ExPolygon { contour: Polygon::new(), holes: Vec::new() }
    }
}

/// An axis-aligned rectangle; `defined` is false for the empty box.
#[derive(Clone, Copy, Debug, PartialEq, Eq, Structural)]
pub struct BoundingBox {
    pub min: Point,
    pub max: Point,
    pub defined: bool,
}

/// The least x of a non-empty point sequence (and so on for the other
/// extremes).
pub open spec fn min_x(s: Seq<Point>) -> int
    decreases s.len(),
{
    if s.len() <= 1 {
        s[0].x as int
    } else {
        let m = min_x(s.drop_last());
        if s.last().x < m {
            s.last().x as int
        } else {
            m
        }
    }
}

pub open spec fn min_y(s: Seq<Point>) -> int
    decreases s.len(),
{
    if s.len() <= 1 {
        s[0].y as int
    } else {
        let m = min_y(s.drop_last());
        if s.last().y < m {
            s.last().y as int
        } else {
            m
        }
    }
}

pub open spec fn max_x(s: Seq<Point>) -> int
    decreases s.len(),
{
    if s.len() <= 1 {
        s[0].x as int
    } else {
        let m = max_x(s.drop_last());
        if s.last().x > m {
            s.last().x as int
        } else {
            m
        }
    }
}

pub open spec fn max_y(s: Seq<Point>) -> int
    decreases s.len(),
{
    if s.len() <= 1 {
        s[0].y as int
    } else {
        let m = max_y(s.drop_last());
        if s.last().y > m {
            s.last().y as int
        } else {
            m
        }
    }
}

/// The extents of a point sequence: undefined and at the origin when empty.
pub open spec fn extents(s: Seq<Point>) -> BoundingBox {
    if s.len() == 0 {
        BoundingBox { min: Point { x: 0, y: 0 }, max: Point { x: 0, y: 0 }, defined: false }
    } else {
        BoundingBox {
            min: Point { x: min_x(s) as i64, y: min_y(s) as i64 },
            max: Point { x: max_x(s) as i64, y: max_y(s) as i64 },
            defined: true,
        }
    }
}

impl BoundingBox {
    /// The empty box.
    pub fn new() -> (r: BoundingBox)
        ensures
            r == extents(Seq::<Point>::empty()),
    {
        BoundingBox { min: Point { x: 0, y: 0 }, max: Point { x: 0, y: 0 }, defined: false }
    }

    /// A box from its two corners.
    pub fn from_corners(min: Point, max: Point) -> (r: BoundingBox)
        ensures
            r.min == min,
            r.max == max,
            r.defined == (min.x <= max.x && min.y <= max.y),
    {
        BoundingBox { min, max, defined: min.x <= max.x && min.y <= max.y }
    }

    /// The smallest box holding all the points.
    pub fn new_from_points_slice(pts: &Vec<Point>) -> (r: BoundingBox)
        ensures
            r == extents(pts@),
    {
        if pts.len() == 0 {
            return BoundingBox::new();
        }
        let mut lo = pts[0];
        let mut hi = pts[0];
        let mut i: usize = 1;
        while i < pts.len()
            invariant
                1 <= i <= pts@.len(),
                lo.x == min_x(pts@.take(i as int)),
                lo.y == min_y(pts@.take(i as int)),
                hi.x == max_x(pts@.take(i as int)),
                hi.y == max_y(pts@.take(i as int)),
            decreases pts@.len() - i,
        {
            let p = pts[i];
            assert(pts@.take(i as int + 1).drop_last() =~= pts@.take(i as int));
            if p.x < lo.x {
                lo.x = p.x;
            }
            if p.y < lo.y {
                lo.y = p.y;
            }
            if p.x > hi.x {
                hi.x = p.x;
            }
            if p.y > hi.y {
                hi.y = p.y;
            }
            i += 1;
        }
        assert(pts@.take(pts@.len() as int) =~= pts@);
        BoundingBox { min: lo, max: hi, defined: true }
    }
}

/// The abstract value of an expolygon: its contour and its holes.
pub type ExPolyView = (Seq<Point>, Seq<Seq<Point>>);

/// Every vertex of the contour and of the holes lies within the coordinate
/// limits.
pub open spec fn expoly_ok(e: ExPolyView) -> bool {
    points_ok(e.0) && forall|h: int| 0 <= h < e.1.len() ==> points_ok(#[trigger] e.1[h])
}

/// The rings of an expolygon: its contour, then its holes.
pub open spec fn expoly_rings(e: ExPolyView) -> Seq<Seq<Point>> {
    seq![e.0] + e.1
}

/// Inside the contour and inside none of the holes (even-odd tests).
pub open spec fn expoly_contains(e: ExPolyView, p: Point) -> bool {
    ring_contains(e.0, p) && forall|h: int| 0 <= h < e.1.len() ==> !ring_contains(#[trigger] e.1[h], p)
}

/// Twice the signed area of the triangle `a`, `b`, `c`: positive when `c`
/// lies left of the line from `a` to `b`, zero when the three are collinear.
pub open spec fn cross3(a: Point, b: Point, c: Point) -> int {
    (b.x - a.x) * (c.y - a.y) - (b.y - a.y) * (c.x - a.x)
}

/// `c` lies in the axis-aligned box spanned by `a` and `b`.
pub open spec fn in_span(a: Point, b: Point, c: Point) -> bool {
    &&& (if a.x <= b.x { a.x <= c.x <= b.x } else { b.x <= c.x <= a.x })
    &&& (if a.y <= b.y { a.y <= c.y <= b.y } else { b.y <= c.y <= a.y })
}

pub open spec fn opposite_signs(d1: int, d2: int) -> bool {
    (d1 > 0 && d2 < 0) || (d1 < 0 && d2 > 0)
}

/// The closed segments `p1 p2` and `q1 q2` share at least one point: they
/// cross properly, or an endpoint of one lies on the other.
pub open spec fn segments_meet(p1: Point, p2: Point, q1: Point, q2: Point) -> bool {
    let d1 = cross3(q1, q2, p1);
    let d2 = cross3(q1, q2, p2);
    let d3 = cross3(p1, p2, q1);
    let d4 = cross3(p1, p2, q2);
    ||| opposite_signs(d1, d2) && opposite_signs(d3, d4)
    ||| d1 == 0 && in_span(q1, q2, p1)
    ||| d2 == 0 && in_span(q1, q2, p2)
    ||| d3 == 0 && in_span(p1, p2, q1)
    ||| d4 == 0 && in_span(p1, p2, q2)
}

/// The segment from `a` to `b` meets an edge of the closed ring `t`.
pub open spec fn edge_meets_ring(a: Point, b: Point, t: Seq<Point>) -> bool {
    exists|j: int| 0 <= j < t.len() && #[trigger] segments_meet(a, b, t[j], edge_end(t, j))
}

/// An edge of the closed ring `s` meets an edge of the closed ring `t`.
pub open spec fn rings_meet(s: Seq<Point>, t: Seq<Point>) -> bool {
    exists|i: int| 0 <= i < s.len() && #[trigger] edge_meets_ring(s[i], edge_end(s, i), t)
}

/// The ring `r`, followed as a closed polyline, meets the region of `e`: one
/// of its edges meets an edge of `e`, or one of its vertices lies inside `e`.
pub open spec fn ring_hits_region(r: Seq<Point>, e: ExPolyView) -> bool {
    ||| exists|k: int| 0 <= k < expoly_rings(e).len() && #[trigger] rings_meet(r, expoly_rings(e)[k])
    ||| exists|v: int| 0 <= v < r.len() && #[trigger] expoly_contains(e, r[v])
}

/// `a` overlaps `b`: a ring of `b`, followed as a closed polyline, meets the
/// region of `a`, or the first contour vertex of `a` lies inside `b`.
pub open spec fn expoly_overlaps(a: ExPolyView, b: ExPolyView) -> bool {
    ||| exists|r: int|
        0 <= r < expoly_rings(b).len() && #[trigger] ring_hits_region(expoly_rings(b)[r], a)
    ||| expoly_contains(b, a.0[0])
}

proof fn lemma_cross3_bounds(a: Point, b: Point, c: Point)
    requires
        point_ok(a),
        point_ok(b),
        point_ok(c),
    ensures
        -4 * COORD_LIMIT * COORD_LIMIT <= (b.x - a.x) * (c.y - a.y) <= 4 * COORD_LIMIT * COORD_LIMIT,
        -4 * COORD_LIMIT * COORD_LIMIT <= (b.y - a.y) * (c.x - a.x) <= 4 * COORD_LIMIT * COORD_LIMIT,
{
    let d1 = b.x - a.x;
    let d2 = c.y - a.y;
    let d3 = b.y - a.y;
    let d4 = c.x - a.x;
    assert(-4 * COORD_LIMIT * COORD_LIMIT <= d1 * d2 <= 4 * COORD_LIMIT * COORD_LIMIT)
        by (nonlinear_arith)
        requires
            -2 * COORD_LIMIT <= d1 <= 2 * COORD_LIMIT,
            -2 * COORD_LIMIT <= d2 <= 2 * COORD_LIMIT,
    ;
    assert(-4 * COORD_LIMIT * COORD_LIMIT <= d3 * d4 <= 4 * COORD_LIMIT * COORD_LIMIT)
        by (nonlinear_arith)
        requires
            -2 * COORD_LIMIT <= d3 <= 2 * COORD_LIMIT,
            -2 * COORD_LIMIT <= d4 <= 2 * COORD_LIMIT,
    ;
}

/// `cross3`, computed exactly.
pub fn cross3_exec(a: Point, b: Point, c: Point) -> (r: i128)
    requires
        point_ok(a),
        point_ok(b),
        point_ok(c),
    ensures
        r == cross3(a, b, c),
{
    proof {
        lemma_cross3_bounds(a, b, c);
    }
    let t1: i128 = (b.x as i128 - a.x as i128) * (c.y as i128 - a.y as i128);
    let t2: i128 = (b.y as i128 - a.y as i128) * (c.x as i128 - a.x as i128);
    t1 - t2
}

fn in_span_exec(a: Point, b: Point, c: Point) -> (r: bool)
    ensures
        r == in_span(a, b, c),
{
    let okx = if a.x <= b.x {
        a.x <= c.x && c.x <= b.x
    } else {
        b.x <= c.x && c.x <= a.x
    };
    let oky = if a.y <= b.y {
        a.y <= c.y && c.y <= b.y
    } else {
        b.y <= c.y && c.y <= a.y
    };
    okx && oky
}

/// Whether the closed segments `p1 p2` and `q1 q2` share a point.
pub fn segments_meet_exec(p1: Point, p2: Point, q1: Point, q2: Point) -> (r: bool)
    requires
        point_ok(p1),
        point_ok(p2),
        point_ok(q1),
        point_ok(q2),
    ensures
        r == segments_meet(p1, p2, q1, q2),
{
    let d1 = cross3_exec(q1, q2, p1);
    let d2 = cross3_exec(q1, q2, p2);
    let d3 = cross3_exec(p1, p2, q1);
    let d4 = cross3_exec(p1, p2, q2);
    let proper = ((d1 > 0 && d2 < 0) || (d1 < 0 && d2 > 0)) && ((d3 > 0 && d4 < 0) || (d3 < 0
        && d4 > 0));
    proper || (d1 == 0 && in_span_exec(q1, q2, p1)) || (d2 == 0 && in_span_exec(q1, q2, p2)) || (d3
        == 0 && in_span_exec(p1, p2, q1)) || (d4 == 0 && in_span_exec(p1, p2, q2))
}

/// Whether the segment from `a` to `b` meets an edge of the ring `t`.
fn edge_meets_ring_exec(a: Point, b: Point, t: &Vec<Point>) -> (r: bool)
    requires
        point_ok(a),
        point_ok(b),
        points_ok(t@),
    ensures
        r == edge_meets_ring(a, b, t@),
{
    let n = t.len();
    let mut j: usize = 0;
    while j < n
        invariant
            n == t@.len(),
            j <= n,
            point_ok(a),
            point_ok(b),
            points_ok(t@),
            forall|k: int| 0 <= k < j ==> !#[trigger] segments_meet(a, b, t@[k], edge_end(t@, k)),
        decreases n - j,
    {
        let c = t[j];
        let d = if j + 1 < n {
            t[j + 1]
        } else {
            t[0]
        };
        assert(point_ok(t@[j as int]));
        assert(point_ok(edge_end(t@, j as int)));
        if segments_meet_exec(a, b, c, d) {
            return true;
        }
        j += 1;
    }
    false
}

/// Whether an edge of ring `s` meets an edge of ring `t`.
pub fn rings_meet_exec(s: &Vec<Point>, t: &Vec<Point>) -> (r: bool)
    requires
        points_ok(s@),
        points_ok(t@),
    ensures
        r == rings_meet(s@, t@),
{
    let n = s.len();
    let mut i: usize = 0;
    while i < n
        invariant
            n == s@.len(),
            i <= n,
            points_ok(s@),
            points_ok(t@),
            forall|k: int| 0 <= k < i ==> !#[trigger] edge_meets_ring(s@[k], edge_end(s@, k), t@),
        decreases n - i,
    {
        let a = s[i];
        let b = if i + 1 < n {
            s[i + 1]
        } else {
            s[0]
        };
        assert(point_ok(s@[i as int]));
        assert(point_ok(edge_end(s@, i as int)));
        if edge_meets_ring_exec(a, b, t) {
            return true;
        }
        i += 1;
    }
    false
}

impl ExPolygon {
    /// Whether the point lies inside the contour and inside none of the
    /// holes.
    pub fn contains_point(&self, p: &Point) -> (r: bool)
        requires
            expoly_ok(expoly_view(*self)),
            point_ok(*p),
        ensures
            r == expoly_contains(expoly_view(*self), *p),
    {
        if !self.contour.contains(p) {
            return false;
        }
        let ghost hv = polys_view(self.holes@);
        let mut h: usize = 0;
        while h < self.holes.len()
            invariant
                h <= self.holes@.len(),
                hv == polys_view(self.holes@),
                expoly_ok(expoly_view(*self)),
                point_ok(*p),
                forall|k: int| 0 <= k < h ==> !ring_contains(#[trigger] hv[k], *p),
            decreases self.holes@.len() - h,
        {
            assert(expoly_view(*self).1 == hv);
            assert(hv[h as int] == self.holes@[h as int].points@);
            assert(points_ok(hv[h as int]));
            if self.holes[h].contains(p) {
                return false;
            }
            h += 1;
        }
        true
    }

    /// Whether the ring `r`, as a closed polyline, meets the region of this
    /// expolygon.
    pub fn ring_hits(&self, r: &Vec<Point>) -> (res: bool)
        requires
            expoly_ok(expoly_view(*self)),
            points_ok(r@),
        ensures
            res == ring_hits_region(r@, expoly_view(*self)),
    {
        let ghost e = expoly_view(*self);
        let ghost rs = expoly_rings(e);
        assert(rs[0] == self.contour.points@);
        if rings_meet_exec(r, &self.contour.points) {
            return true;
        }
        let mut h: usize = 0;
        while h < self.holes.len()
            invariant
                h <= self.holes@.len(),
                e == expoly_view(*self),
                rs == expoly_rings(e),
                rs.len() == self.holes@.len() + 1,
                expoly_ok(e),
                points_ok(r@),
                forall|k: int| 0 <= k < h + 1 ==> !#[trigger] rings_meet(r@, rs[k]),
            decreases self.holes@.len() - h,
        {
            assert(rs[h + 1] == self.holes@[h as int].points@);
            assert(points_ok(e.1[h as int]));
            if rings_meet_exec(r, &self.holes[h].points) {
                return true;
            }
            h += 1;
        }
        let n = r.len();
        let mut v: usize = 0;
        while v < n
            invariant
                n == r@.len(),
                v <= n,
                e == expoly_view(*self),
                expoly_ok(e),
                points_ok(r@),
                forall|k: int| 0 <= k < rs.len() ==> !#[trigger] rings_meet(r@, rs[k]),
                forall|k: int| 0 <= k < v ==> !#[trigger] expoly_contains(e, r@[k]),
            decreases n - v,
        {
            assert(point_ok(r@[v as int]));
            if self.contains_point(&r[v]) {
                return true;
            }
            v += 1;
        }
        false
    }
}

} // verus!
