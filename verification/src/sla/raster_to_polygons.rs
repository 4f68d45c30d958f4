//! Polygons traced from a raster, taken back to model coordinates: the
//! raster transformations (mirroring, centring, swapping the axes) are undone
//! vertex by vertex, and rings whose orientation the mirroring turned are
//! reversed.
use vstd::prelude::*;
use crate::geometry::{
    Coord, ExPolyView, ExPolygon, Point, Polygon, coord_ok, expoly_ok, expoly_view,
    expolys_view, point_ok, points_ok, polys_view,
};
use crate::sla::raster_base::Trafo;

verus! {

/// A vertex taken back from raster to model coordinates: mirrored on y, then
/// on x, moved by minus the centre, and with x and y swapped, as the
/// transformation says.
pub open spec fn restore_point(p: Point, width: int, height: int, tr: Trafo) -> Point {
    let y1: int = if tr.mirror_y { height - p.y } else { p.y as int };
    let x2: int = if tr.mirror_x { width - p.x } else { p.x as int };
    let x3: int = x2 - tr.center_x;
    let y3: int = y1 - tr.center_y;
    if tr.flip_xy {
        Point { x: y3 as i64, y: x3 as i64 }
    } else {
        Point { x: x3 as i64, y: y3 as i64 }
    }
}

/// An odd number of mirrorings (swapping the axes counts as one) turns the
/// orientation of the rings.
pub open spec fn turns_orientation(tr: Trafo) -> bool {
    ((if tr.mirror_x { 1int } else { 0 }) + (if tr.mirror_y { 1int } else { 0 }) + (if tr.flip_xy {
        1int
    } else {
        0
    })) % 2 == 1
}

/// A ring taken back to model coordinates, keeping its orientation.
pub open spec fn restore_ring(s: Seq<Point>, width: int, height: int, tr: Trafo) -> Seq<Point> {
    let m = s.map_values(|p: Point| restore_point(p, width, height, tr));
    if turns_orientation(tr) {
        m.reverse()
    } else {
        m
    }
}

/// An expolygon taken back to model coordinates.
pub open spec fn restore_expoly(e: ExPolyView, width: int, height: int, tr: Trafo) -> ExPolyView {
    (
        restore_ring(e.0, width, height, tr),
        e.1.map_values(|h: Seq<Point>| restore_ring(h, width, height, tr)),
    )
}

/// Twice the signed area swept from the origin by the edge from `a` to `b`.
pub open spec fn edge_area2(a: Point, b: Point) -> int {
    a.x * b.y - b.x * a.y
}

/// The vertex after vertex `k - 1` on a closed ring: vertex `k`, or the
/// first one after the last.
pub open spec fn ring_next(s: Seq<Point>, k: int) -> Point {
    if k < s.len() {
        s[k]
    } else {
        s[0]
    }
}

/// The shoelace sum over the first `k` edges of a closed ring (the last
/// edge runs from the last vertex back to the first).
pub open spec fn area2_upto(s: Seq<Point>, k: int) -> int
    decreases k,
{
    if k <= 0 {
        0
    } else {
        area2_upto(s, k - 1) + edge_area2(s[k - 1], ring_next(s, k))
    }
}

/// Twice the signed area of a closed ring: positive when it runs
/// counter-clockwise, negative when clockwise.
pub open spec fn signed_area2(s: Seq<Point>) -> int {
    area2_upto(s, s.len() as int)
}

proof fn lemma_term_translate(x1: int, y1: int, x2: int, y2: int, b: int, d: int)
    by (nonlinear_arith)
    ensures
        (x1 + b) * (y2 + d) - (x2 + b) * (y1 + d) == (x1 * y2 - x2 * y1) + (d * x1 - d * x2) + (b * y2
            - b * y1),
{
}

proof fn lemma_term_negate(x1: int, y1: int, x2: int, y2: int)
    by (nonlinear_arith)
    ensures
        (-x1) * y2 - (-x2) * y1 == -(x1 * y2 - x2 * y1),
        x1 * (-y2) - x2 * (-y1) == -(x1 * y2 - x2 * y1),
        (-x1) * (-y2) - (-x2) * (-y1) == x1 * y2 - x2 * y1,
        y1 * x2 - y2 * x1 == -(x1 * y2 - x2 * y1),
{
}

proof fn lemma_area2_translate(s: Seq<Point>, m: Seq<Point>, b: int, d: int, k: int)
    requires
        s.len() == m.len(),
        1 <= s.len(),
        0 <= k <= s.len(),
        forall|i: int| 0 <= i < s.len() ==> (#[trigger] m[i]).x == s[i].x + b && m[i].y == s[i].y + d,
    ensures
        area2_upto(m, k) == area2_upto(s, k) + (d * s[0].x - d * ring_next(s, k).x) + (b * ring_next(s, k).y
            - b * s[0].y),
    decreases k,
{
    if k > 0 {
        lemma_area2_translate(s, m, b, d, k - 1);
        let p = s[k - 1];
        let q = ring_next(s, k);
        assert(ring_next(s, k - 1) == p);
        assert(ring_next(m, k).x == q.x + b && ring_next(m, k).y == q.y + d);
        lemma_term_translate(p.x as int, p.y as int, q.x as int, q.y as int, b, d);
    }
}

proof fn lemma_area2_negate(s: Seq<Point>, m: Seq<Point>, nx: bool, ny: bool, k: int)
    requires
        s.len() == m.len(),
        1 <= s.len(),
        0 <= k <= s.len(),
        forall|i: int|
            0 <= i < s.len() ==> (#[trigger] m[i]).x == (if nx { -s[i].x } else { s[i].x as int }) && m[i].y == (
            if ny {
                -s[i].y
            } else {
                s[i].y as int
            }),
    ensures
        nx == ny ==> area2_upto(m, k) == area2_upto(s, k),
        nx != ny ==> area2_upto(m, k) == -area2_upto(s, k),
    decreases k,
{
    if k > 0 {
        lemma_area2_negate(s, m, nx, ny, k - 1);
        let p = s[k - 1];
        let q = ring_next(s, k);
        assert(ring_next(m, k).x == (if nx { -q.x } else { q.x as int }));
        assert(ring_next(m, k).y == (if ny { -q.y } else { q.y as int }));
        lemma_term_negate(p.x as int, p.y as int, q.x as int, q.y as int);
    }
}

proof fn lemma_area2_swap(s: Seq<Point>, m: Seq<Point>, k: int)
    requires
        s.len() == m.len(),
        1 <= s.len(),
        0 <= k <= s.len(),
        forall|i: int| 0 <= i < s.len() ==> (#[trigger] m[i]).x == s[i].y && m[i].y == s[i].x,
    ensures
        area2_upto(m, k) == -area2_upto(s, k),
    decreases k,
{
    if k > 0 {
        lemma_area2_swap(s, m, k - 1);
        let p = s[k - 1];
        let q = ring_next(s, k);
        assert(ring_next(m, k).x == q.y && ring_next(m, k).y == q.x);
        lemma_term_negate(p.x as int, p.y as int, q.x as int, q.y as int);
    }
}

proof fn lemma_area2_reverse_prefix(s: Seq<Point>, k: int)
    requires
        1 <= s.len(),
        0 <= k <= s.len() - 1,
    ensures
        area2_upto(s.reverse(), k) == -(area2_upto(s, s.len() - 1) - area2_upto(s, s.len() - 1 - k)),
    decreases k,
{
    let n = s.len() as int;
    let r = s.reverse();
    if k > 0 {
        lemma_area2_reverse_prefix(s, k - 1);
        assert(r[k - 1] == s[n - k]);
        assert(ring_next(r, k) == s[n - 1 - k]);
        assert(ring_next(s, n - k) == s[n - k]);
        assert(area2_upto(s, n - k) == area2_upto(s, n - 1 - k) + edge_area2(s[n - 1 - k], s[n - k]));
    }
}

proof fn lemma_area2_reverse(s: Seq<Point>)
    ensures
        signed_area2(s.reverse()) == -signed_area2(s),
{
    let n = s.len() as int;
    if n >= 1 {
        let r = s.reverse();
        lemma_area2_reverse_prefix(s, n - 1);
        assert(r[n - 1] == s[0]);
        assert(r[0] == s[n - 1]);
        assert(area2_upto(r, n) == area2_upto(r, n - 1) + edge_area2(r[n - 1], r[0]));
        assert(area2_upto(s, n) == area2_upto(s, n - 1) + edge_area2(s[n - 1], s[0]));
    }
}

/// Restoring keeps every ring's orientation: twice the signed area of a
/// restored ring equals that of the traced ring, whatever the mirrorings,
/// centre and axis swap. Each mirroring, and the swap, reverses the sign of
/// the area and moving the ring keeps it, so the ring is reversed exactly
/// when the sign would otherwise come out turned.
pub proof fn lemma_restore_keeps_orientation(s: Seq<Point>, width: int, height: int, tr: Trafo)
    requires
        points_ok(s),
        trafo_ok(width, height, tr),
    ensures
        signed_area2(restore_ring(s, width, height, tr)) == signed_area2(s),
{
    let n = s.len() as int;
    if n >= 1 {
        let b: int = (if tr.mirror_x { width } else { 0 }) - tr.center_x;
        let d: int = (if tr.mirror_y { height } else { 0 }) - tr.center_y;
        let t1 = Seq::new(
            n as nat,
            |i: int|
                Point {
                    x: (if tr.mirror_x { -s[i].x } else { s[i].x as int }) as i64,
                    y: (if tr.mirror_y { -s[i].y } else { s[i].y as int }) as i64,
                },
        );
        assert forall|i: int| 0 <= i < n implies (#[trigger] t1[i]).x == (if tr.mirror_x {
            -s[i].x
        } else {
            s[i].x as int
        }) && t1[i].y == (if tr.mirror_y { -s[i].y } else { s[i].y as int }) by {
            assert(point_ok(s[i]));
        }
        lemma_area2_negate(s, t1, tr.mirror_x, tr.mirror_y, n);
        let t2 = Seq::new(n as nat, |i: int| Point { x: (t1[i].x + b) as i64, y: (t1[i].y + d) as i64 });
        assert forall|i: int| 0 <= i < n implies (#[trigger] t2[i]).x == t1[i].x + b && t2[i].y == t1[i].y
            + d by {
            assert(point_ok(s[i]));
        }
        lemma_area2_translate(t1, t2, b, d, n);
        assert(ring_next(t1, n) == t1[0]);
        let m = s.map_values(|p: Point| restore_point(p, width, height, tr));
        if tr.flip_xy {
            assert forall|i: int| 0 <= i < n implies (#[trigger] m[i]).x == t2[i].y && m[i].y == t2[i].x by {
                assert(point_ok(s[i]));
            }
            lemma_area2_swap(t2, m, n);
        } else {
            assert forall|i: int| 0 <= i < n implies #[trigger] m[i] == t2[i] by {
                assert(point_ok(s[i]));
            }
            assert(m =~= t2);
        }
        if turns_orientation(tr) {
            lemma_area2_reverse(m);
        }
    }
}

/// The transformation and the raster size stay within the coordinate
/// limits.
pub open spec fn trafo_ok(width: int, height: int, tr: Trafo) -> bool {
    coord_ok(width) && coord_ok(height) && coord_ok(tr.center_x as int) && coord_ok(
        tr.center_y as int,
    )
}

/// Every vertex of the ring, mapped by `f`.
fn map_ring<F: Fn(Point) -> Point>(pts: &Vec<Point>, f: &F) -> (r: Vec<Point>)
    requires
        forall|k: int| 0 <= k < pts@.len() ==> f.requires((#[trigger] pts@[k],)),
    ensures
        r@.len() == pts@.len(),
        forall|k: int| 0 <= k < pts@.len() ==> f.ensures((#[trigger] pts@[k],), r@[k]),
{
    let mut out: Vec<Point> = Vec::new();
    let mut i: usize = 0;
    while i < pts.len()
        invariant
            i <= pts@.len(),
            out@.len() == i,
            forall|k: int| 0 <= k < pts@.len() ==> f.requires((#[trigger] pts@[k],)),
            forall|k: int| 0 <= k < i ==> f.ensures((#[trigger] pts@[k],), out@[k]),
        decreases pts@.len() - i,
    {
        let q = f(pts[i]);
        out.push(q);
        i += 1;
    }
    out
}

/// Replace every vertex of the contour and of the holes by its image under
/// `f`.
pub fn foreach_vertex<F: Fn(Point) -> Point>(poly: &mut ExPolygon, f: F)
    requires
        forall|k: int|
            0 <= k < old(poly).contour.points@.len() ==> f.requires(
                (#[trigger] old(poly).contour.points@[k],),
            ),
        forall|h: int, k: int|
            0 <= h < old(poly).holes@.len() && 0 <= k < old(poly).holes@[h].points@.len()
                ==> f.requires((#[trigger] old(poly).holes@[h].points@[k],)),
    ensures
        final(poly).contour.points@.len() == old(poly).contour.points@.len(),
        forall|k: int|
            0 <= k < old(poly).contour.points@.len() ==> f.ensures(
                (#[trigger] old(poly).contour.points@[k],),
                final(poly).contour.points@[k],
            ),
        final(poly).holes@.len() == old(poly).holes@.len(),
        forall|h: int|
            0 <= h < old(poly).holes@.len() ==> (#[trigger] final(poly).holes@[h]).points@.len()
                == old(poly).holes@[h].points@.len(),
        forall|h: int, k: int|
            0 <= h < old(poly).holes@.len() && 0 <= k < old(poly).holes@[h].points@.len()
                ==> f.ensures(
                (#[trigger] old(poly).holes@[h].points@[k],),
                final(poly).holes@[h].points@[k],
            ),
{
    let contour = map_ring(&poly.contour.points, &f);
    let mut holes: Vec<Polygon> = Vec::new();
    let mut h: usize = 0;
    while h < poly.holes.len()
        invariant
            h <= poly.holes@.len(),
            *poly == *old(poly),
            holes@.len() == h,
            forall|j: int, k: int|
                0 <= j < poly.holes@.len() && 0 <= k < poly.holes@[j].points@.len() ==> f.requires(
                    (#[trigger] poly.holes@[j].points@[k],),
                ),
            forall|j: int|
                0 <= j < h ==> (#[trigger] holes@[j]).points@.len() == poly.holes@[j].points@.len(),
            forall|j: int, k: int|
                0 <= j < h && 0 <= k < poly.holes@[j].points@.len() ==> f.ensures(
                    (#[trigger] poly.holes@[j].points@[k],),
                    holes@[j].points@[k],
                ),
        decreases poly.holes@.len() - h,
    {
        let ghost hj = poly.holes@[h as int].points@;
        assert forall|k: int| 0 <= k < hj.len() implies f.requires((#[trigger] hj[k],)) by {
            assert(hj[k] == poly.holes@[h as int].points@[k]);
        }
        let pts = map_ring(&poly.holes[h].points, &f);
        holes.push(Polygon { points: pts });
        h += 1;
    }
    poly.contour = Polygon { points: contour };
    poly.holes = holes;
}

/// The vertex map of `restore_point`, computed without overflow.
fn restore_point_exec(p: Point, width: Coord, height: Coord, tr: Trafo) -> (q: Point)
    requires
        point_ok(p),
        trafo_ok(width as int, height as int, tr),
    ensures
        q == restore_point(p, width as int, height as int, tr),
{
    let y1: i64 = if tr.mirror_y {
        height - p.y
    } else {
        p.y
    };
    let x2: i64 = if tr.mirror_x {
        width - p.x
    } else {
        p.x
    };
    let x3: i64 = x2 - tr.center_x;
    let y3: i64 = y1 - tr.center_y;
    if tr.flip_xy {
        Point { x: y3, y: x3 }
    } else {
        Point { x: x3, y: y3 }
    }
}

/// Take traced polygons back to model coordinates: every vertex is restored
/// (`restore_point`), and when the transformation turns the orientation,
/// the contour and every hole are reversed.
pub fn restore_raster_polygons(unioned: Vec<ExPolygon>, width: Coord, height: Coord, tr: &Trafo) -> (r:
    Vec<ExPolygon>)
    requires
        trafo_ok(width as int, height as int, *tr),
        forall|i: int| 0 <= i < unioned@.len() ==> expoly_ok(expoly_view(#[trigger] unioned@[i])),
    ensures
        expolys_view(r@) == expolys_view(unioned@).map_values(
            |e: ExPolyView| restore_expoly(e, width as int, height as int, *tr),
        ),
        r@.len() == unioned@.len(),
        forall|i: int|
            0 <= i < r@.len() ==> signed_area2((#[trigger] r@[i]).contour.points@) == signed_area2(
                unioned@[i].contour.points@,
            ) && r@[i].holes@.len() == unioned@[i].holes@.len() && forall|h: int|
                0 <= h < r@[i].holes@.len() ==> signed_area2((#[trigger] r@[i].holes@[h]).points@)
                    == signed_area2(unioned@[i].holes@[h].points@),
{
    let t: Trafo = *tr;
    let ghost spec_f = |e: ExPolyView| restore_expoly(e, width as int, height as int, t);
    let reverse = ((if t.mirror_x { 1u8 } else { 0u8 }) + (if t.mirror_y { 1u8 } else { 0u8 }) + (
    if t.flip_xy {
        1u8
    } else {
        0u8
    })) % 2 != 0;
    assert(reverse == turns_orientation(t));
    let mut out: Vec<ExPolygon> = Vec::new();
    let mut i: usize = 0;
    while i < unioned.len()
        invariant
            i <= unioned@.len(),
            t == *tr,
            trafo_ok(width as int, height as int, t),
            reverse == turns_orientation(t),
            forall|k: int| 0 <= k < unioned@.len() ==> expoly_ok(expoly_view(#[trigger] unioned@[k])),
            out@.len() == i,
            forall|k: int|
                0 <= k < i ==> expoly_view(#[trigger] out@[k]) == restore_expoly(
                    expoly_view(unioned@[k]),
                    width as int,
                    height as int,
                    t,
                ),
        decreases unioned@.len() - i,
    {
        let mut e = unioned[i].clone();
        let ghost ev = expoly_view(e);
        assert(expoly_ok(ev));
        assert forall|h: int, k: int|
            0 <= h < e.holes@.len() && 0 <= k < e.holes@[h].points@.len() implies point_ok(
            #[trigger] e.holes@[h].points@[k],
        ) by {
            assert(ev.1[h] == e.holes@[h].points@);
            assert(points_ok(ev.1[h]));
        }
        let f = |p: Point| -> (q: Point)
            requires
                point_ok(p),
                trafo_ok(width as int, height as int, t),
            ensures
                q == restore_point(p, width as int, height as int, t),
            { restore_point_exec(p, width, height, t) };
        let ghost before = e;
        foreach_vertex(&mut e, f);
        proof {
            assert(e.contour.points@ =~= before.contour.points@.map_values(
                |p: Point| restore_point(p, width as int, height as int, t),
            ));
        }
        let mut holes: Vec<Polygon> = Vec::new();
        let mut h: usize = 0;
        while h < e.holes.len()
            invariant
                h <= e.holes@.len(),
                e.holes@.len() == before.holes@.len(),
                reverse == turns_orientation(t),
                holes@.len() == h,
                forall|j: int|
                    0 <= j < e.holes@.len() ==> (#[trigger] e.holes@[j]).points@.len()
                        == before.holes@[j].points@.len(),
                forall|j: int, k: int|
                    0 <= j < before.holes@.len() && 0 <= k < before.holes@[j].points@.len()
                        ==> e.holes@[j].points@[k] == restore_point(
                        #[trigger] before.holes@[j].points@[k],
                        width as int,
                        height as int,
                        t,
                    ),
                forall|j: int|
                    0 <= j < h ==> (#[trigger] holes@[j]).points@ == restore_ring(
                        before.holes@[j].points@,
                        width as int,
                        height as int,
                        t,
                    ),
            decreases e.holes@.len() - h,
        {
            let mut hp = e.holes[h].clone();
            proof {
                assert(hp.points@ =~= before.holes@[h as int].points@.map_values(
                    |p: Point| restore_point(p, width as int, height as int, t),
                ));
            }
            if reverse {
                hp.reverse();
            }
            holes.push(hp);
            h += 1;
        }
        if reverse {
            e.contour.reverse();
        }
        e.holes = holes;
        proof {
            assert(e.contour.points@ == restore_ring(
                before.contour.points@,
                width as int,
                height as int,
                t,
            ));
            assert(polys_view(e.holes@) =~= ev.1.map_values(
                |hv: Seq<Point>| restore_ring(hv, width as int, height as int, t),
            ));
        }
        out.push(e);
        i += 1;
    }
    assert(expolys_view(out@) =~= expolys_view(unioned@).map_values(spec_f));
    proof {
        assert forall|i: int|
            0 <= i < out@.len() implies signed_area2((#[trigger] out@[i]).contour.points@) == signed_area2(
            unioned@[i].contour.points@,
        ) && out@[i].holes@.len() == unioned@[i].holes@.len() && forall|h: int|
            0 <= h < out@[i].holes@.len() ==> signed_area2((#[trigger] out@[i].holes@[h]).points@)
                == signed_area2(unioned@[i].holes@[h].points@) by {
            let ev = expoly_view(unioned@[i]);
            assert(expoly_ok(ev));
            assert(expoly_view(out@[i]) == restore_expoly(ev, width as int, height as int, t));
            lemma_restore_keeps_orientation(ev.0, width as int, height as int, t);
            assert(polys_view(out@[i].holes@).len() == ev.1.len());
            assert forall|h: int| 0 <= h < out@[i].holes@.len() implies signed_area2(
                (#[trigger] out@[i].holes@[h]).points@,
            ) == signed_area2(unioned@[i].holes@[h].points@) by {
                assert(ev.1[h] == unioned@[i].holes@[h].points@);
                assert(points_ok(ev.1[h]));
                lemma_restore_keeps_orientation(ev.1[h], width as int, height as int, t);
                assert(polys_view(out@[i].holes@)[h] == out@[i].holes@[h].points@);
            }
        }
    }
    out
}

} // verus!
