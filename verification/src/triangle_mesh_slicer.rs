//! Cutting a closed triangle mesh with horizontal planes.
//!
//! Each facet whose vertices lie on both sides of the plane contributes one
//! segment; a vertex counts as above the plane when its z is at least the
//! plane's. The segment runs from the cut of the edge the facet walks
//! downwards through to the cut of the edge it walks upwards through, so the
//! cross-section of a solid is walked counter-clockwise seen from above.
//! Segments are chained through the edges they share into closed rings; the
//! counter-clockwise rings become contours and every clockwise ring becomes a
//! hole of the innermost contour around it.
use vstd::prelude::*;
use crate::geometry::{
    tdiv, Point, Point3, Polygon, ExPolyView, ExPolygon, coord_ok, cross3, cross3_exec, expoly_view, expolys_view,
    point_ok, points_ok, polys_view, ring_contains, COORD_LIMIT,
};
use vstd::set_lib::{lemma_int_range, set_int_range};
use crate::triangle_mesh::{Triangle, TriangleMesh, mesh_wf, point3_ok, triangle_in};

verus! {

/// Where the edge from `lo` (below the plane) to `hi` (at or above it) meets
/// the plane at height `z`, coordinates rounded towards the edge's lower end.
pub open spec fn cut_point(lo: Point3, hi: Point3, z: int) -> Point {
    Point {
        x: (lo.x + tdiv((hi.x - lo.x) * (z - lo.z), hi.z - lo.z)) as i64,
        y: (lo.y + tdiv((hi.y - lo.y) * (z - lo.z), hi.z - lo.z)) as i64,
    }
}

/// `p` is where some mesh edge crosses the plane at height `z`.
pub open spec fn is_cut_point(vs: Seq<Point3>, z: int, p: Point) -> bool {
    exists|i: int, j: int|
        0 <= i < vs.len() && 0 <= j < vs.len() && vs[i].z < z <= vs[j].z && p == cut_point(
            vs[i],
            vs[j],
            z,
        )
}

/// Every vertex of a ring is a cut point.
pub open spec fn ring_is_cut(vs: Seq<Point3>, z: int, r: Seq<Point>) -> bool {
    forall|k: int| 0 <= k < r.len() ==> is_cut_point(vs, z, #[trigger] r[k])
}

/// Every vertex of every expolygon (contours and holes) is a cut point, and
/// every contour has at least three vertices.
pub open spec fn expolys_are_cuts(vs: Seq<Point3>, z: int, es: Seq<ExPolygon>) -> bool {
    forall|e: int|
        0 <= e < es.len() ==> {
            &&& ring_is_cut(vs, z, (#[trigger] es[e]).contour.points@)
            &&& es[e].contour.points@.len() >= 3
            &&& forall|h: int|
                0 <= h < es[e].holes@.len() ==> ring_is_cut(
                    vs,
                    z,
                    #[trigger] es[e].holes@[h].points@,
                )
        }
}

proof fn lemma_cut_coord(a: int, b: int, dz: int, h: int)
    requires
        coord_ok(a),
        coord_ok(b),
        0 < dz <= h,
        h <= 2 * COORD_LIMIT,
    ensures
        coord_ok(a + tdiv((b - a) * dz, h)),
        -0x1_0000_0000_0000_0000_0000_0000i128 < (b - a) * dz < 0x1_0000_0000_0000_0000_0000_0000i128,
{
    let d = b - a;
    assert(-2 * COORD_LIMIT <= d <= 2 * COORD_LIMIT);
    if d >= 0 {
        assert(0 <= d * dz <= d * h) by (nonlinear_arith)
            requires
                d >= 0,
                0 < dz <= h,
        ;
        assert((d * dz) / h <= d) by (nonlinear_arith)
            requires
                0 <= d * dz <= d * h,
                h > 0,
                d >= 0,
        ;
        assert(0 <= (d * dz) / h) by (nonlinear_arith)
            requires
                0 <= d * dz,
                h > 0,
        ;
    } else {
        let e = -d;
        assert(e * dz == -(d * dz)) by (nonlinear_arith)
            requires
                e == -d,
        ;
        assert(0 <= e * dz <= e * h) by (nonlinear_arith)
            requires
                e >= 0,
                0 < dz <= h,
        ;
        assert((e * dz) / h <= e) by (nonlinear_arith)
            requires
                0 <= e * dz <= e * h,
                h > 0,
                e >= 0,
        ;
        assert(0 <= (e * dz) / h) by (nonlinear_arith)
            requires
                0 <= e * dz,
                h > 0,
        ;
        if d * dz == 0 {
            assert(tdiv(d * dz, h) == 0);
        }
    }
    assert(-4 * COORD_LIMIT * COORD_LIMIT <= d * dz <= 4 * COORD_LIMIT * COORD_LIMIT)
        by (nonlinear_arith)
        requires
            -2 * COORD_LIMIT <= d <= 2 * COORD_LIMIT,
            0 < dz <= h,
            h <= 2 * COORD_LIMIT,
    ;
}

fn cut_coord(a: i64, b: i64, dz: i64, h: i64) -> (r: i64)
    requires
        coord_ok(a as int),
        coord_ok(b as int),
        0 < dz <= h,
        h <= 2 * COORD_LIMIT,
    ensures
        r == a + tdiv((b - a) * dz, h as int),
        coord_ok(r as int),
{
    proof {
        lemma_cut_coord(a as int, b as int, dz as int, h as int);
    }
    let n: i128 = (b as i128 - a as i128) * (dz as i128);
    let q: i128 = if n >= 0 {
        n / (h as i128)
    } else {
        -((-n) / (h as i128))
    };
    (a as i128 + q) as i64
}

/// The cut of the edge from `lo` (below) to `hi` (at or above the plane).
fn cut(lo: Point3, hi: Point3, z: i64) -> (r: Point)
    requires
        point3_ok(lo),
        point3_ok(hi),
        lo.z < z <= hi.z,
    ensures
        r == cut_point(lo, hi, z as int),
        point_ok(r),
{
    let dz = z - lo.z;
    let h = hi.z - lo.z;
    Point { x: cut_coord(lo.x, hi.x, dz, h), y: cut_coord(lo.y, hi.y, dz, h) }
}

/// A directed segment of a cross-section: it leaves through edge `start`
/// (given as (below vertex, above vertex)) at point `p` and continues into
/// the facet on the other side of edge `end`.
#[derive(Clone, Copy, Debug)]
pub struct Segment {
    pub start: (u32, u32),
    pub end: (u32, u32),
    pub p: Point,
}

/// The segment that the facet with corners `i0, i1, i2` (in this order)
/// cuts at height `z`, when its corners lie on both sides of the plane. It
/// starts at the cut of the edge the facet walks from above to below and ends
/// at the edge it walks from below to above.
pub open spec fn facet_cut(vs: Seq<Point3>, i0: u32, i1: u32, i2: u32, z: int) -> Option<Segment> {
    let b0 = vs[i0 as int].z < z;
    let b1 = vs[i1 as int].z < z;
    let b2 = vs[i2 as int].z < z;
    if b0 == b1 && b1 == b2 {
        None
    } else {
        let (start, p) = if !b0 && b1 {
            ((i1, i0), cut_point(vs[i1 as int], vs[i0 as int], z))
        } else if !b1 && b2 {
            ((i2, i1), cut_point(vs[i2 as int], vs[i1 as int], z))
        } else {
            ((i0, i2), cut_point(vs[i0 as int], vs[i2 as int], z))
        };
        let end = if b0 && !b1 {
            (i0, i1)
        } else if b1 && !b2 {
            (i1, i2)
        } else {
            (i2, i0)
        };
        Some(Segment { start, end, p })
    }
}

/// The segments the facets cut at height `z`, in facet order.
pub open spec fn mesh_cuts(vs: Seq<Point3>, ts: Seq<Triangle>, z: int) -> Seq<Segment>
    decreases ts.len(),
{
    if ts.len() == 0 {
        Seq::empty()
    } else {
        let rest = mesh_cuts(vs, ts.drop_last(), z);
        match facet_cut(vs, ts.last().a, ts.last().b, ts.last().c, z) {
            Some(seg) => rest.push(seg),
            None => rest,
        }
    }
}

/// The segment of facet `(i0, i1, i2)`, if the facet crosses the plane.
fn facet_segment(vs: &Vec<Point3>, i0: u32, i1: u32, i2: u32, z: i64) -> (r: Option<Segment>)
    requires
        i0 < vs@.len(),
        i1 < vs@.len(),
        i2 < vs@.len(),
        forall|i: int| 0 <= i < vs@.len() ==> #[trigger] point3_ok(vs@[i]),
    ensures
        r == facet_cut(vs@, i0, i1, i2, z as int),
        r matches Some(s) ==> is_cut_point(vs@, z as int, s.p),
{
    let v0 = vs[i0 as usize];
    let v1 = vs[i1 as usize];
    let v2 = vs[i2 as usize];
    assert(point3_ok(vs@[i0 as int]));
    assert(point3_ok(vs@[i1 as int]));
    assert(point3_ok(vs@[i2 as int]));
    let b0 = v0.z < z;
    let b1 = v1.z < z;
    let b2 = v2.z < z;
    if b0 == b1 && b1 == b2 {
        return None;
    }
    // The edge walked downwards (above -> below) starts the segment; the edge
    // walked upwards (below -> above) ends it.
    let (start, p) = if !b0 && b1 {
        ((i1, i0), cut(v1, v0, z))
    } else if !b1 && b2 {
        ((i2, i1), cut(v2, v1, z))
    } else {
        ((i0, i2), cut(v0, v2, z))
    };
    let end = if b0 && !b1 {
        (i0, i1)
    } else if b1 && !b2 {
        (i1, i2)
    } else {
        (i2, i0)
    };
    Some(Segment { start, end, p })
}

/// All the segments the mesh's facets cut at height `z`, in facet order.
pub fn mesh_segments(mesh: &TriangleMesh, z: i64) -> (r: Vec<Segment>)
    requires
        mesh_wf(mesh.vertices@, mesh.triangles@),
    ensures
        r@ == mesh_cuts(mesh.vertices@, mesh.triangles@, z as int),
        forall|k: int| 0 <= k < r@.len() ==> #[trigger] is_cut_point(mesh.vertices@, z as int, r@[k].p),
{
    let mut out: Vec<Segment> = Vec::new();
    let mut i: usize = 0;
    while i < mesh.triangles.len()
        invariant
            i <= mesh.triangles@.len(),
            mesh_wf(mesh.vertices@, mesh.triangles@),
            out@ == mesh_cuts(mesh.vertices@, mesh.triangles@.take(i as int), z as int),
            forall|k: int| 0 <= k < out@.len() ==> #[trigger] is_cut_point(mesh.vertices@, z as int, out@[k].p),
        decreases mesh.triangles@.len() - i,
    {
        let t = mesh.triangles[i];
        assert(triangle_in(mesh.triangles@[i as int], mesh.vertices@.len()));
        assert(mesh.triangles@.take(i + 1).drop_last() =~= mesh.triangles@.take(i as int));
        assert(mesh.triangles@.take(i + 1).last() == t);
        match facet_segment(&mesh.vertices, t.a, t.b, t.c, z) {
            Some(s) => {
                out.push(s);
            },
            None => {},
        }
        i += 1;
    }
    assert(mesh.triangles@.take(mesh.triangles@.len() as int) =~= mesh.triangles@);
    out
}

/// The segments with indices `js` form a closed chain: each continues into
/// the next through the edge it ends at, and the last into the first.
pub open spec fn closed_chain(segs: Seq<Segment>, js: Seq<int>) -> bool {
    &&& js.len() > 0
    &&& forall|k: int| 0 <= k < js.len() ==> 0 <= #[trigger] js[k] < segs.len()
    &&& forall|k: int| 1 <= k < js.len() ==> segs[#[trigger] js[k]].start == segs[js[k - 1]].end
    &&& segs[js[0]].start == segs[js.last()].end
}

/// The chains one after the other.
pub open spec fn flat_chains(chains: Seq<Seq<int>>) -> Seq<int>
    decreases chains.len(),
{
    if chains.len() == 0 {
        Seq::empty()
    } else {
        flat_chains(chains.drop_last()) + chains.last()
    }
}

/// Segment `j` continues segment `i`: it starts at the edge `i` ends at.
pub open spec fn continues(segs: Seq<Segment>, i: int, j: int) -> bool {
    segs[j].start == segs[i].end
}

/// Some segment continues segment `i`.
pub open spec fn continued(segs: Seq<Segment>, i: int) -> bool {
    exists|j: int| 0 <= j < segs.len() && #[trigger] continues(segs, i, j)
}

/// The cut of a closed, consistently oriented mesh: every segment is
/// continued by some segment, no two segments start at the same edge and no
/// two end at the same edge.
pub open spec fn cuts_pair_up(segs: Seq<Segment>) -> bool {
    &&& forall|i: int| 0 <= i < segs.len() ==> #[trigger] continued(segs, i)
    &&& forall|a: int, b: int|
        #![trigger segs[a], segs[b]]
        0 <= a < segs.len() && 0 <= b < segs.len() && a != b ==> segs[a].start != segs[b].start
    &&& forall|a: int, b: int|
        #![trigger segs[a], segs[b]]
        0 <= a < segs.len() && 0 <= b < segs.len() && a != b ==> segs[a].end != segs[b].end
}

/// `rings` are the points, in order, of closed chains of `segs` that share
/// no segment; when the segments pair up, every segment is in a chain.
pub open spec fn chained_by(segs: Seq<Segment>, rings: Seq<Seq<Point>>, chains: Seq<Seq<int>>) -> bool {
    &&& chains.len() == rings.len()
    &&& forall|q: int|
        0 <= q < chains.len() ==> closed_chain(segs, #[trigger] chains[q]) && rings[q]
            == chains[q].map_values(|j: int| segs[j].p)
    &&& flat_chains(chains).no_duplicates()
    &&& cuts_pair_up(segs) ==> forall|j: int|
        0 <= j < segs.len() ==> #[trigger] flat_chains(chains).contains(j)
}

/// `rings` are closed chains of the segments, none shared, covering every
/// segment when the segments pair up.
pub open spec fn chained_rings(segs: Seq<Segment>, rings: Seq<Seq<Point>>) -> bool {
    exists|chains: Seq<Seq<int>>| chained_by(segs, rings, chains)
}

proof fn lemma_flat_push(chains: Seq<Seq<int>>, c: Seq<int>)
    ensures
        flat_chains(chains.push(c)) == flat_chains(chains) + c,
{
    assert(chains.push(c).drop_last() =~= chains);
}

/// The members of the flattened chains are the members of the chains.
proof fn lemma_flat_members(chains: Seq<Seq<int>>)
    ensures
        forall|q: int, k: int|
            0 <= q < chains.len() && 0 <= k < chains[q].len() ==> flat_chains(chains).contains(
                #[trigger] chains[q][k],
            ),
        forall|x: int|
            #[trigger] flat_chains(chains).contains(x) ==> exists|q: int, k: int|
                0 <= q < chains.len() && 0 <= k < chains[q].len() && chains[q][k] == x,
    decreases chains.len(),
{
    if chains.len() > 0 {
        let t = chains.drop_last();
        let c = chains.last();
        lemma_flat_members(t);
        assert(flat_chains(chains) == flat_chains(t) + c);
        assert forall|q: int, k: int|
            0 <= q < chains.len() && 0 <= k < chains[q].len() implies flat_chains(chains).contains(
            #[trigger] chains[q][k],
        ) by {
            if q < t.len() {
                assert(chains[q] == t[q]);
                let i = choose|i: int| 0 <= i < flat_chains(t).len() && flat_chains(t)[i] == t[q][k];
                assert(flat_chains(chains)[i] == t[q][k]);
            } else {
                assert(flat_chains(chains)[flat_chains(t).len() + k] == c[k]);
            }
        }
        assert forall|x: int| #[trigger] flat_chains(chains).contains(x) implies exists|q: int, k: int|
            0 <= q < chains.len() && 0 <= k < chains[q].len() && chains[q][k] == x by {
            let i = choose|i: int| 0 <= i < flat_chains(chains).len() && flat_chains(chains)[i] == x;
            if i < flat_chains(t).len() {
                assert(flat_chains(t)[i] == x);
                assert(flat_chains(t).contains(x));
                let (q, k) = choose|q: int, k: int|
                    0 <= q < t.len() && 0 <= k < t[q].len() && t[q][k] == x;
                assert(chains[q] == t[q]);
            } else {
                let k = i - flat_chains(t).len();
                assert(c[k] == x);
                assert(chains[chains.len() - 1] == c);
            }
        }
    }
}

/// When the segments pair up, the segment continuing an open chain is
/// unused: segments in closed chains and in the chain itself already have
/// their predecessors there.
proof fn lemma_next_unused(
    segs: Seq<Segment>,
    chains: Seq<Seq<int>>,
    cur: Seq<int>,
    usedset: Set<int>,
)
    requires
        cuts_pair_up(segs),
        cur.len() > 0,
        forall|k: int| 0 <= k < cur.len() ==> 0 <= #[trigger] cur[k] < segs.len(),
        forall|k: int| 1 <= k < cur.len() ==> segs[#[trigger] cur[k]].start == segs[cur[k - 1]].end,
        segs[cur.last()].end != segs[cur[0]].start,
        forall|q: int| 0 <= q < chains.len() ==> closed_chain(segs, #[trigger] chains[q]),
        (flat_chains(chains) + cur).no_duplicates(),
        forall|j: int| #[trigger] usedset.contains(j) ==> (flat_chains(chains) + cur).contains(j),
    ensures
        exists|j: int|
            0 <= j < segs.len() && segs[j].start == segs[cur.last()].end && !usedset.contains(j),
{
    let last = cur.last();
    let n = segs.len();
    let fl = flat_chains(chains);
    let all = fl + cur;
    assert(cur[cur.len() - 1] == last);
    assert(continued(segs, last));
    let j = choose|j: int| 0 <= j < n && #[trigger] continues(segs, last, j);
    assert(segs[j].start == segs[last].end);
    if usedset.contains(j) {
        let t = choose|t: int| 0 <= t < all.len() && all[t] == j;
        assert(all[fl.len() + cur.len() - 1] == last);
        if t < fl.len() {
            lemma_flat_members(chains);
            assert(fl[t] == j);
            assert(fl.contains(j));
            let (q, k) = choose|q: int, k: int| 0 <= q < chains.len() && 0 <= k < chains[q].len() && chains[q][k] == j;
            let c = chains[q];
            assert(closed_chain(segs, c));
            let pk = if k > 0 { k - 1 } else { c.len() - 1 };
            let p = c[pk];
            assert(0 <= p < n);
            assert(segs[p].end == segs[j].start);
            if p != last {
                assert(segs[p].end != segs[last].end);
            }
            assert(fl.contains(c[pk]));
            let u = choose|u: int| 0 <= u < fl.len() && fl[u] == c[pk];
            assert(all[u] == last);
        } else {
            let k = t - fl.len();
            assert(cur[k] == j);
            if k == 0 {
                assert(segs[cur[0]].start == segs[last].end);
            } else {
                let p = cur[k - 1];
                assert(segs[p].end == segs[j].start);
                if p != last {
                    assert(segs[p].end != segs[last].end);
                }
                assert(all[fl.len() + k - 1] == p);
            }
        }
    }
}

/// The first segment from index `j` on that is not used yet and starts at
/// edge `e`.
pub open spec fn first_free(segs: Seq<Segment>, used: Seq<bool>, e: (u32, u32), j: int) -> Option<int>
    decreases segs.len() - j,
{
    if j >= segs.len() || j < 0 {
        None
    } else if !used[j] && segs[j].start == e {
        Some(j)
    } else {
        first_free(segs, used, e, j + 1)
    }
}

/// The walk that extends the chain `cur` (begun at edge `first`): it closes
/// once the last segment ends at `first`; otherwise it takes the first free
/// segment that starts where the last one ends, and stops, open, when there
/// is none or after `fuel` more segments. Gives the used flags, the chain
/// and whether it closed.
pub open spec fn walk(segs: Seq<Segment>, used: Seq<bool>, first: (u32, u32), cur: Seq<int>, fuel: nat) -> (
    Seq<bool>,
    Seq<int>,
    bool,
)
    decreases fuel,
{
    if segs[cur.last()].end == first {
        (used, cur, true)
    } else if fuel == 0 {
        (used, cur, false)
    } else {
        match first_free(segs, used, segs[cur.last()].end, 0) {
            None => (used, cur, false),
            Some(j) => walk(segs, used.update(j, true), first, cur.push(j), (fuel - 1) as nat),
        }
    }
}

/// Greedy chaining from segment `s` on, with `marked` segments used so far:
/// each unused segment starts a walk, and the walks that close are the
/// chains, in order.
pub open spec fn greedy(segs: Seq<Segment>, s: int, used: Seq<bool>, marked: int) -> Seq<Seq<int>>
    decreases segs.len() - s,
{
    if s >= segs.len() || s < 0 {
        Seq::empty()
    } else if !used[s] && marked < segs.len() {
        let w = walk(segs, used.update(s, true), segs[s].start, seq![s], (segs.len() - marked - 1) as nat);
        let rest = greedy(segs, s + 1, w.0, marked + w.1.len());
        if w.2 {
            seq![w.1] + rest
        } else {
            rest
        }
    } else {
        greedy(segs, s + 1, used, marked)
    }
}

/// The closed chains of greedy chaining, from nothing used.
pub open spec fn greedy_chains(segs: Seq<Segment>) -> Seq<Seq<int>> {
    greedy(segs, 0, Seq::new(segs.len(), |i: int| false), 0)
}

/// The rings greedy chaining gives: the cut points of each closed chain.
pub open spec fn greedy_rings(segs: Seq<Segment>) -> Seq<Seq<Point>> {
    greedy_chains(segs).map_values(|c: Seq<int>| c.map_values(|j: int| segs[j].p))
}

/// Chain segments into closed rings: starting from each unused segment in
/// order, a segment is followed by the first unused segment that starts at
/// the edge it ends at. Chains that do not close are dropped.
fn chain_segments(segs: &Vec<Segment>, Ghost(vs): Ghost<Seq<Point3>>, Ghost(z): Ghost<int>) -> (r:
    Vec<Vec<Point>>)
    requires
        forall|j: int| 0 <= j < segs@.len() ==> #[trigger] is_cut_point(vs, z, segs@[j].p),
    ensures
        rings_view(r@) == greedy_rings(segs@),
        chained_rings(segs@, rings_view(r@)),
        forall|q: int, k: int|
            0 <= q < r@.len() && 0 <= k < r@[q]@.len() ==> is_cut_point(vs, z, #[trigger] r@[q]@[k]),
        forall|q: int| 0 <= q < r@.len() ==> (#[trigger] r@[q]@).len() > 0,
{
    let n = segs.len();
    let ghost range = set_int_range(0, n as int);
    proof {
        lemma_int_range(0, n as int);
    }
    let mut used: Vec<bool> = Vec::new();
    let mut u: usize = 0;
    while u < n
        invariant
            u <= n,
            used@.len() == u,
            forall|j: int| 0 <= j < u ==> !#[trigger] used@[j],
        decreases n - u,
    {
        used.push(false);
        u += 1;
    }
    assert(used@ =~= Seq::new(n as nat, |i: int| false));
    let mut rings: Vec<Vec<Point>> = Vec::new();
    let ghost mut chains: Seq<Seq<int>> = Seq::empty();
    let ghost mut usedset: Set<int> = Set::empty();
    let mut marked: usize = 0;
    let mut s: usize = 0;
    while s < n
        invariant
            n == segs@.len(),
            s <= n,
            used@.len() == n,
            range == set_int_range(0, n as int),
            range.finite(),
            range.len() == n,
            forall|j: int| 0 <= j < n ==> (#[trigger] used@[j] <==> usedset.contains(j)),
            usedset.subset_of(range),
            usedset.finite(),
            marked == usedset.len(),
            forall|j: int| 0 <= j < s ==> #[trigger] used@[j],
            forall|j: int| 0 <= j < segs@.len() ==> #[trigger] is_cut_point(vs, z, segs@[j].p),
            forall|q: int, k: int|
                0 <= q < rings@.len() && 0 <= k < rings@[q]@.len() ==> is_cut_point(
                    vs,
                    z,
                    #[trigger] rings@[q]@[k],
                ),
            forall|q: int| 0 <= q < rings@.len() ==> (#[trigger] rings@[q]@).len() > 0,
            chains.len() == rings@.len(),
            forall|q: int|
                0 <= q < chains.len() ==> closed_chain(segs@, #[trigger] chains[q])
                    && rings_view(rings@)[q] == chains[q].map_values(|j: int| segs@[j].p),
            flat_chains(chains).no_duplicates(),
            forall|k: int| 0 <= k < flat_chains(chains).len() ==> 0 <= #[trigger] flat_chains(chains)[k] < n
                && used@[flat_chains(chains)[k]],
            cuts_pair_up(segs@) ==> forall|j: int|
                #[trigger] usedset.contains(j) ==> flat_chains(chains).contains(j),
            marked <= n,
            greedy_chains(segs@) == chains + greedy(segs@, s as int, used@, marked as int),
        decreases n - s,
    {
        let ghost used0 = used@;
        let ghost m0 = marked as int;
        if !used[s] {
            proof {
                usedset.lemma_subset_not_in_lt(range, s as int);
            }
        }
        if !used[s] && marked < n {
            assert(!flat_chains(chains).contains(s as int));
            used.set(s, true);
            proof {
                usedset = usedset.insert(s as int);
            }
            marked = marked + 1;
            let first = segs[s].start;
            let mut cur_end = segs[s].end;
            let mut ring: Vec<Point> = Vec::new();
            ring.push(segs[s].p);
            let ghost mut cur: Seq<int> = seq![s as int];
            let mut closed = false;
            let ghost w = walk(segs@, used@, first, cur, (n - marked) as nat);
            proof {
                assert forall|j: int| #[trigger] usedset.contains(j) implies cuts_pair_up(segs@) ==> (
                flat_chains(chains) + cur).contains(j) by {
                    if cuts_pair_up(segs@) {
                        if j == s {
                            assert((flat_chains(chains) + cur)[flat_chains(chains).len() as int] == j);
                        } else {
                            assert(flat_chains(chains).contains(j));
                            let t = choose|t: int| 0 <= t < flat_chains(chains).len() && flat_chains(chains)[t] == j;
                            assert((flat_chains(chains) + cur)[t] == j);
                        }
                    }
                }
            }
            loop
                invariant_except_break
                    !closed,
                invariant
                    n == segs@.len(),
                    used@.len() == n,
                    range == set_int_range(0, n as int),
                    range.finite(),
                    range.len() == n,
                    forall|j: int| 0 <= j < n ==> (#[trigger] used@[j] <==> usedset.contains(j)),
                    usedset.subset_of(range),
                    usedset.finite(),
                    marked == usedset.len(),
                    s < n,
                    used@[s as int],
                    forall|j: int| 0 <= j < s ==> #[trigger] used@[j],
                    ring@.len() > 0,
                    forall|j: int| 0 <= j < segs@.len() ==> #[trigger] is_cut_point(vs, z, segs@[j].p),
                    forall|k: int| 0 <= k < ring@.len() ==> is_cut_point(vs, z, #[trigger] ring@[k]),
                    cur.len() > 0,
                    forall|k: int| 0 <= k < cur.len() ==> 0 <= #[trigger] cur[k] < n,
                    forall|k: int| 1 <= k < cur.len() ==> segs@[#[trigger] cur[k]].start == segs@[cur[k - 1]].end,
                    first == segs@[cur[0]].start,
                    cur_end == segs@[cur.last()].end,
                    ring@ == cur.map_values(|j: int| segs@[j].p),
                    marked <= n,
                    marked == m0 + cur.len(),
                    walk(segs@, used@, first, cur, (n - marked) as nat) == w,
                    forall|q: int| 0 <= q < chains.len() ==> closed_chain(segs@, #[trigger] chains[q]),
                    (flat_chains(chains) + cur).no_duplicates(),
                    forall|k: int| 0 <= k < (flat_chains(chains) + cur).len() ==> 0 <= #[trigger] (flat_chains(chains) + cur)[k] < n
                        && used@[(flat_chains(chains) + cur)[k]],
                    cuts_pair_up(segs@) ==> forall|j: int|
                        #[trigger] usedset.contains(j) ==> (flat_chains(chains) + cur).contains(j),
                ensures
                    closed || !cuts_pair_up(segs@),
                    closed ==> cur_end == first,
                    w == (used@, cur, closed),
                    marked == m0 + cur.len(),
                decreases n - marked,
            {
                if cur_end.0 == first.0 && cur_end.1 == first.1 {
                    assert(cur_end == first);
                    closed = true;
                    break;
                }
                assert(cur_end != first);
                if marked >= n {
                    proof {
                        if cuts_pair_up(segs@) {
                            lemma_next_unused(segs@, chains, cur, usedset);
                            let j = choose|j: int| 0 <= j < segs@.len() && segs@[j].start == segs@[cur.last()].end && !usedset.contains(j);
                            usedset.lemma_subset_not_in_lt(range, j);
                        }
                    }
                    break;
                }
                let mut found: usize = n;
                let mut j: usize = 0;
                while j < n
                    invariant_except_break
                        found == n,
                    invariant
                        n == segs@.len(),
                        used@.len() == n,
                        j <= n,
                        found <= n,
                        found < n ==> !used@[found as int] && segs@[found as int].start == cur_end,
                        found == n ==> forall|k: int|
                            0 <= k < j ==> !(!#[trigger] used@[k] && segs@[k].start == cur_end),
                        found == n ==> first_free(segs@, used@, cur_end, 0) == first_free(
                            segs@,
                            used@,
                            cur_end,
                            j as int,
                        ),
                    ensures
                        found < n ==> first_free(segs@, used@, cur_end, 0) == Some(found as int),
                        found == n ==> first_free(segs@, used@, cur_end, 0) == None::<int>,
                        found < n ==> !used@[found as int] && segs@[found as int].start == cur_end,
                        found == n ==> forall|k: int|
                            0 <= k < n ==> !(!#[trigger] used@[k] && segs@[k].start == cur_end),
                    decreases n - j,
                {
                    if !used[j] && segs[j].start.0 == cur_end.0 && segs[j].start.1 == cur_end.1 {
                        assert(segs@[j as int].start == cur_end);
                        assert(first_free(segs@, used@, cur_end, j as int) == Some(j as int));
                        found = j;
                        break;
                    }
                    assert(first_free(segs@, used@, cur_end, j as int) == first_free(
                        segs@,
                        used@,
                        cur_end,
                        j + 1,
                    ));
                    j += 1;
                }
                if found == n {
                    proof {
                        if cuts_pair_up(segs@) {
                            lemma_next_unused(segs@, chains, cur, usedset);
                            let k = choose|k: int| 0 <= k < segs@.len() && segs@[k].start == segs@[cur.last()].end && !usedset.contains(k);
                            assert(!used@[k]);
                            assert(false);
                        }
                    }
                    break;
                }
                let ghost fc = flat_chains(chains) + cur;
                let ghost used_b = used@;
                assert(!fc.contains(found as int));
                used.set(found, true);
                proof {
                    usedset = usedset.insert(found as int);
                }
                marked = marked + 1;
                assert(is_cut_point(vs, z, segs@[found as int].p));
                ring.push(segs[found].p);
                cur_end = segs[found].end;
                proof {
                    assert(used@ == used_b.update(found as int, true));
                    cur = cur.push(found as int);
                    assert(flat_chains(chains) + cur =~= fc.push(found as int));
                    assert(ring@ =~= cur.map_values(|j: int| segs@[j].p));
                    assert forall|j: int| #[trigger] usedset.contains(j) implies cuts_pair_up(segs@) ==> (
                    flat_chains(chains) + cur).contains(j) by {
                        if cuts_pair_up(segs@) {
                            if j == found as int {
                                assert(fc.push(found as int)[fc.len() as int] == j);
                            } else {
                                assert(fc.contains(j));
                                let t = choose|t: int| 0 <= t < fc.len() && fc[t] == j;
                                assert(fc.push(found as int)[t] == j);
                            }
                        }
                    }
                }
            }
            assert forall|k: int| 0 <= k < flat_chains(chains).len() implies 0
                <= #[trigger] flat_chains(chains)[k] < n && used@[flat_chains(chains)[k]] by {
                assert((flat_chains(chains) + cur)[k] == flat_chains(chains)[k]);
            }
            proof {
                let ws = walk(segs@, used0.update(s as int, true), segs@[s as int].start, seq![s as int], (n - m0 - 1) as nat);
                assert(ws == w);
                assert(greedy(segs@, s as int, used0, m0) == if closed {
                    seq![cur] + greedy(segs@, s + 1, used@, marked as int)
                } else {
                    greedy(segs@, s + 1, used@, marked as int)
                });
            }
            if closed {
                let ghost r0 = rings_view(rings@);
                let ghost ch0 = chains;
                rings.push(ring);
                proof {
                    lemma_flat_push(chains, cur);
                    assert(chains + (seq![cur] + greedy(segs@, s + 1, used@, marked as int)) =~= chains.push(cur)
                        + greedy(segs@, s + 1, used@, marked as int));
                    chains = chains.push(cur);
                    assert(rings_view(rings@) =~= r0.push(cur.map_values(|j: int| segs@[j].p)));
                    assert forall|k: int| 0 <= k < flat_chains(chains).len() implies 0
                        <= #[trigger] flat_chains(chains)[k] < n && used@[flat_chains(chains)[k]] by {
                        assert(flat_chains(chains)[k] == (flat_chains(ch0) + cur)[k]);
                    }
                    assert forall|q: int| 0 <= q < chains.len() implies closed_chain(segs@, #[trigger] chains[q])
                        && rings_view(rings@)[q] == chains[q].map_values(|j: int| segs@[j].p) by {
                        if q < ch0.len() {
                            assert(chains[q] == ch0[q]);
                        }
                    }
                }
            }
        }
        s += 1;
    }
    proof {
        assert(chains + Seq::<Seq<int>>::empty() =~= chains);
        assert(rings_view(rings@) =~= greedy_rings(segs@));
        if cuts_pair_up(segs@) {
            assert forall|j: int| 0 <= j < segs@.len() implies #[trigger] flat_chains(chains).contains(j) by {
                assert(used@[j]);
                assert(usedset.contains(j));
            }
        }
        assert(chained_by(segs@, rings_view(rings@), chains));
    }
    rings
}

/// The points with each run of equal consecutive points kept once.
pub open spec fn drop_repeats(s: Seq<Point>) -> Seq<Point>
    decreases s.len(),
{
    if s.len() == 0 {
        s
    } else {
        let d = drop_repeats(s.drop_last());
        if d.len() > 0 && d.last() == s.last() {
            d
        } else {
            d.push(s.last())
        }
    }
}

/// A ring without repeated consecutive points: runs are kept once, and a
/// last point equal to the first is dropped.
pub open spec fn dedup_spec(s: Seq<Point>) -> Seq<Point> {
    let d = drop_repeats(s);
    if d.len() > 1 && d[0] == d.last() {
        d.drop_last()
    } else {
        d
    }
}

proof fn lemma_drop_repeats_from(s: Seq<Point>)
    ensures
        drop_repeats(s).len() <= s.len(),
        forall|k: int| 0 <= k < drop_repeats(s).len() ==> s.contains(#[trigger] drop_repeats(s)[k]),
    decreases s.len(),
{
    if s.len() > 0 {
        let t = s.drop_last();
        lemma_drop_repeats_from(t);
        let d = drop_repeats(t);
        assert forall|k: int| 0 <= k < drop_repeats(s).len() implies s.contains(
            #[trigger] drop_repeats(s)[k],
        ) by {
            if k < d.len() {
                assert(drop_repeats(s)[k] == d[k]);
                let m = choose|m: int| 0 <= m < t.len() && t[m] == d[k];
                assert(s[m] == t[m]);
            } else {
                assert(s[s.len() - 1] == s.last());
            }
        }
    }
}

proof fn lemma_drop_repeats_law(s: Seq<Point>)
    ensures
        forall|k: int| 1 <= k < drop_repeats(s).len() ==> #[trigger] drop_repeats(s)[k] != drop_repeats(s)[k - 1],
        forall|p: Point| #[trigger] s.contains(p) ==> drop_repeats(s).contains(p),
        s.len() > 0 ==> drop_repeats(s).len() > 0 && drop_repeats(s)[0] == s[0],
    decreases s.len(),
{
    if s.len() > 0 {
        let t = s.drop_last();
        lemma_drop_repeats_law(t);
        let d = drop_repeats(t);
        let r = drop_repeats(s);
        if d.len() > 0 && d.last() == s.last() {
            assert(r == d);
        } else {
            assert(r == d.push(s.last()));
            assert forall|k: int| 1 <= k < r.len() implies #[trigger] r[k] != r[k - 1] by {
                if k < d.len() {
                    assert(r[k] == d[k] && r[k - 1] == d[k - 1]);
                } else {
                    assert(r[k - 1] == d.last());
                }
            }
        }
        assert forall|p: Point| #[trigger] s.contains(p) implies r.contains(p) by {
            let i = choose|i: int| 0 <= i < s.len() && s[i] == p;
            if i < t.len() {
                assert(t[i] == p);
                assert(t.contains(p));
                let j = choose|j: int| 0 <= j < d.len() && d[j] == p;
                assert(r[j] == d[j]);
            } else {
                if d.len() > 0 && d.last() == s.last() {
                    assert(r[d.len() - 1] == p);
                } else {
                    assert(r[d.len() as int] == p);
                }
            }
        }
        if t.len() > 0 {
            assert(t[0] == s[0]);
            assert(r[0] == d[0]);
        } else {
            assert(d.len() == 0);
        }
    }
}

/// Cleaning a ring leaves no two neighbouring points equal, the last one
/// included against the first, keeps only points of the ring, and keeps
/// every one of them.
pub proof fn lemma_dedup_law(s: Seq<Point>)
    ensures
        forall|k: int| 1 <= k < dedup_spec(s).len() ==> #[trigger] dedup_spec(s)[k] != dedup_spec(s)[k - 1],
        dedup_spec(s).len() > 1 ==> dedup_spec(s).last() != dedup_spec(s)[0],
        forall|p: Point| #[trigger] s.contains(p) <==> dedup_spec(s).contains(p),
{
    lemma_drop_repeats_law(s);
    lemma_drop_repeats_from(s);
    let d = drop_repeats(s);
    let r = dedup_spec(s);
    if d.len() > 1 && d[0] == d.last() {
        assert(r == d.drop_last());
        assert forall|k: int| 1 <= k < r.len() implies #[trigger] r[k] != r[k - 1] by {
            assert(r[k] == d[k] && r[k - 1] == d[k - 1]);
        }
        if r.len() > 1 {
            assert(r.last() == d[d.len() - 2]);
            assert(d[d.len() - 1] != d[d.len() - 2]);
        }
        assert forall|p: Point| #[trigger] s.contains(p) <==> r.contains(p) by {
            if s.contains(p) {
                let j = choose|j: int| 0 <= j < d.len() && d[j] == p;
                if j < d.len() - 1 {
                    assert(r[j] == p);
                } else {
                    assert(r[0] == p);
                }
            }
            if r.contains(p) {
                let j = choose|j: int| 0 <= j < r.len() && r[j] == p;
                assert(d[j] == p);
            }
        }
    } else {
        assert forall|p: Point| #[trigger] s.contains(p) <==> r.contains(p) by {
            if r.contains(p) {
                let j = choose|j: int| 0 <= j < r.len() && r[j] == p;
            }
        }
    }
}

/// Drop consecutive repeated vertices (including a last vertex equal to the
/// first).
pub fn dedup_ring(ring: &Vec<Point>) -> (r: Vec<Point>)
    ensures
        r@ == dedup_spec(ring@),
        forall|k: int| 0 <= k < r@.len() ==> ring@.contains(#[trigger] r@[k]),
        r@.len() <= ring@.len(),
{
    let mut out: Vec<Point> = Vec::new();
    let mut i: usize = 0;
    while i < ring.len()
        invariant
            i <= ring@.len(),
            out@ == drop_repeats(ring@.take(i as int)),
        decreases ring@.len() - i,
    {
        let p = ring[i];
        assert(ring@.take(i + 1).drop_last() =~= ring@.take(i as int));
        assert(ring@.take(i + 1).last() == p);
        let keep = if out.len() == 0 {
            true
        } else {
            let last = out[out.len() - 1];
            !(last.x == p.x && last.y == p.y)
        };
        if keep {
            out.push(p);
        }
        i += 1;
    }
    assert(ring@.take(ring@.len() as int) =~= ring@);
    proof {
        lemma_drop_repeats_from(ring@);
    }
    if out.len() > 1 {
        let a = out[0];
        let b = out[out.len() - 1];
        if a.x == b.x && a.y == b.y {
            out.pop();
        }
    }
    proof {
        let d = drop_repeats(ring@);
        assert forall|k: int| 0 <= k < out@.len() implies ring@.contains(#[trigger] out@[k]) by {
            assert(out@[k] == d[k]);
        }
    }
    out
}

/// The index of the lowest of the first `n` points (least y, then least x;
/// the first such).
pub open spec fn lowest_index(s: Seq<Point>, n: int) -> int
    decreases n,
{
    if n <= 1 {
        0
    } else {
        let m = lowest_index(s, n - 1);
        let p = s[n - 1];
        let q = s[m];
        if p.y < q.y || (p.y == q.y && p.x < q.x) {
            n - 1
        } else {
            m
        }
    }
}

/// The turn of a ring at its lowest point: 1 to the left (the ring runs
/// counter-clockwise), -1 to the right, 0 when straight or with fewer than
/// three points.
pub open spec fn orientation_spec(s: Seq<Point>) -> i8 {
    if s.len() < 3 {
        0
    } else {
        let m = lowest_index(s, s.len() as int);
        let prev = if m == 0 { s.last() } else { s[m - 1] };
        let next = if m + 1 == s.len() { s[0] } else { s[m + 1] };
        let c = cross3(prev, s[m], next);
        if c > 0 {
            1i8
        } else if c < 0 {
            -1i8
        } else {
            0i8
        }
    }
}

proof fn lemma_lowest_index(s: Seq<Point>, n: int)
    requires
        1 <= n,
    ensures
        0 <= lowest_index(s, n) < n,
    decreases n,
{
    if n > 1 {
        lemma_lowest_index(s, n - 1);
    }
}

/// The orientation of a ring at its lowest (then leftmost) vertex.
pub fn ring_orientation(ring: &Vec<Point>) -> (r: i8)
    requires
        points_ok(ring@),
    ensures
        r == orientation_spec(ring@),
{
    let n = ring.len();
    if n < 3 {
        return 0;
    }
    let mut m: usize = 0;
    let mut i: usize = 1;
    while i < n
        invariant
            n == ring@.len(),
            1 <= i <= n,
            m == lowest_index(ring@, i as int),
        decreases n - i,
    {
        proof {
            lemma_lowest_index(ring@, i as int);
        }
        let p = ring[i];
        let q = ring[m];
        if p.y < q.y || (p.y == q.y && p.x < q.x) {
            m = i;
        }
        i += 1;
    }
    proof {
        lemma_lowest_index(ring@, n as int);
    }
    let prev = if m == 0 {
        ring[n - 1]
    } else {
        ring[m - 1]
    };
    let cur = ring[m];
    let next = if m + 1 == n {
        ring[0]
    } else {
        ring[m + 1]
    };
    assert(point_ok(ring@[m as int]));
    assert(point_ok(ring@[(n - 1) as int]));
    assert(point_ok(ring@[0]));
    assert(m >= 1 ==> point_ok(ring@[m - 1]));
    assert(m + 1 < n ==> point_ok(ring@[m + 1]));
    let c = cross3_exec(prev, cur, next);
    if c > 0 {
        1
    } else if c < 0 {
        -1
    } else {
        0
    }
}

/// A cut point lies within the coordinate limits.
proof fn lemma_cut_point_ok(vs: Seq<Point3>, z: int, p: Point)
    requires
        forall|i: int| 0 <= i < vs.len() ==> #[trigger] point3_ok(vs[i]),
        is_cut_point(vs, z, p),
    ensures
        point_ok(p),
{
    let (i, j) = choose|i: int, j: int|
        0 <= i < vs.len() && 0 <= j < vs.len() && vs[i].z < z <= vs[j].z && p == cut_point(
            vs[i],
            vs[j],
            z,
        );
    assert(point3_ok(vs[i]));
    assert(point3_ok(vs[j]));
    lemma_cut_coord(vs[i].x as int, vs[j].x as int, z - vs[i].z, vs[j].z - vs[i].z);
    lemma_cut_coord(vs[i].y as int, vs[j].y as int, z - vs[i].z, vs[j].z - vs[i].z);
}

/// Copy a ring into a polygon.
fn ring_polygon(ring: &Vec<Point>) -> (r: Polygon)
    ensures
        r.points@ == ring@,
{
    Polygon { points: ring.clone() }
}

/// The vertex sequences of a list of rings.
pub open spec fn rings_view(rs: Seq<Vec<Point>>) -> Seq<Seq<Point>> {
    rs.map_values(|r: Vec<Point>| r@)
}

/// The rings without repeated consecutive points.
pub open spec fn cleaned(rings: Seq<Seq<Point>>) -> Seq<Seq<Point>> {
    rings.map_values(|r: Seq<Point>| dedup_spec(r))
}

/// A cleaned ring that becomes a contour: three points or more, turning
/// left at its lowest point.
pub open spec fn contour_pred() -> spec_fn(Seq<Point>) -> bool {
    |r: Seq<Point>| r.len() >= 3 && orientation_spec(r) > 0
}

/// A cleaned ring that becomes a hole: three points or more, turning right
/// at its lowest point.
pub open spec fn hole_pred() -> spec_fn(Seq<Point>) -> bool {
    |r: Seq<Point>| r.len() >= 3 && orientation_spec(r) < 0
}

/// The innermost of the first `c` contours that hold `p`, going through them
/// in order: a contour holding `p` replaces the one found so far when that
/// one holds its first point; `cs.len()` when none holds `p`.
pub open spec fn owner_upto(cs: Seq<Seq<Point>>, p: Point, c: int) -> int
    decreases c,
{
    if c <= 0 {
        cs.len() as int
    } else {
        let b = owner_upto(cs, p, c - 1);
        if ring_contains(cs[c - 1], p) {
            if b == cs.len() {
                c - 1
            } else if ring_contains(cs[b], cs[c - 1][0]) {
                c - 1
            } else {
                b
            }
        } else {
            b
        }
    }
}

/// The holes whose first point has contour `c` as its innermost contour.
pub open spec fn owned_by(cs: Seq<Seq<Point>>, c: int) -> spec_fn(Seq<Point>) -> bool {
    |h: Seq<Point>| owner_upto(cs, h[0], cs.len() as int) == c
}

/// The expolygons made of closed rings: the cleaned contour rings in order,
/// each with the cleaned hole rings whose innermost contour it is. Holes in
/// no contour are dropped.
pub open spec fn assemble_spec(rings: Seq<Seq<Point>>) -> Seq<ExPolyView> {
    let cs = cleaned(rings).filter(contour_pred());
    let hs = cleaned(rings).filter(hole_pred());
    Seq::new(cs.len(), |c: int| (cs[c], hs.filter(owned_by(cs, c))))
}

proof fn lemma_owner_range(cs: Seq<Seq<Point>>, p: Point, c: int)
    requires
        0 <= c <= cs.len(),
    ensures
        0 <= owner_upto(cs, p, c) <= cs.len(),
        owner_upto(cs, p, c) < cs.len() ==> owner_upto(cs, p, c) < c,
    decreases c,
{
    if c > 0 {
        lemma_owner_range(cs, p, c - 1);
    }
}

/// Contour `a` lies inside contour `b`: `b` holds `a`'s first point.
pub open spec fn contour_inside(cs: Seq<Seq<Point>>, a: int, b: int) -> bool {
    ring_contains(cs[b], cs[a][0])
}

/// Contours that nest properly: lying inside is transitive, and no two
/// contours lie inside each other. Rings that neither cross nor touch nest
/// so.
pub open spec fn contours_nest(cs: Seq<Seq<Point>>) -> bool {
    &&& forall|a: int, b: int, c: int|
        0 <= a < cs.len() && 0 <= b < cs.len() && 0 <= c < cs.len() && #[trigger] contour_inside(cs, a, b)
            && #[trigger] contour_inside(cs, b, c) ==> contour_inside(cs, a, c)
    &&& forall|a: int, b: int|
        0 <= a < cs.len() && 0 <= b < cs.len() && a != b && #[trigger] contour_inside(cs, a, b)
            ==> !contour_inside(cs, b, a)
}

proof fn lemma_owner_innermost(cs: Seq<Seq<Point>>, p: Point, m: int)
    requires
        contours_nest(cs),
        0 <= m <= cs.len(),
    ensures
        owner_upto(cs, p, m) < cs.len() ==> {
            let o = owner_upto(cs, p, m);
            &&& 0 <= o < m
            &&& ring_contains(cs[o], p)
            &&& forall|c: int|
                0 <= c < m && c != o && ring_contains(cs[c], p) ==> !#[trigger] contour_inside(cs, c, o)
        },
        owner_upto(cs, p, m) == cs.len() ==> forall|c: int| 0 <= c < m ==> !ring_contains(#[trigger] cs[c], p),
    decreases m,
{
    lemma_owner_range(cs, p, m);
    if m > 0 {
        lemma_owner_innermost(cs, p, m - 1);
        lemma_owner_range(cs, p, m - 1);
        let b = owner_upto(cs, p, m - 1);
        let j = m - 1;
        if ring_contains(cs[j], p) && b < cs.len() {
            if contour_inside(cs, j, b) {
                assert forall|c: int|
                    0 <= c < m && c != j && ring_contains(cs[c], p) implies !#[trigger] contour_inside(cs, c, j) by {
                    if contour_inside(cs, c, j) {
                        if c == b {
                            assert(!contour_inside(cs, b, j));
                        } else {
                            assert(contour_inside(cs, c, b));
                        }
                    }
                }
            }
        }
    }
}

/// Holes go to the innermost contour around them. With contours that nest
/// properly, each hole of an expolygon lies inside that expolygon's contour
/// (its first point does), and in no other contour that lies inside that
/// contour: every point of a hole's boundary region sits in the innermost
/// solid around it.
pub proof fn lemma_holes_in_innermost_contour(rings: Seq<Seq<Point>>)
    requires
        ({
            let es = assemble_spec(rings);
            &&& forall|a: int, b: int, c: int|
                0 <= a < es.len() && 0 <= b < es.len() && 0 <= c < es.len() && ring_contains(
                    es[b].0,
                    es[a].0[0],
                ) && ring_contains(es[c].0, es[b].0[0]) ==> ring_contains(es[c].0, es[a].0[0])
            &&& forall|a: int, b: int|
                0 <= a < es.len() && 0 <= b < es.len() && a != b && ring_contains(es[b].0, es[a].0[0])
                    ==> !ring_contains(es[a].0, es[b].0[0])
        }),
    ensures
        ({
            let es = assemble_spec(rings);
            forall|c: int, h: int|
                0 <= c < es.len() && 0 <= h < es[c].1.len() ==> ring_contains(es[c].0, (#[trigger] es[c].1[h])[0])
                    && forall|c2: int|
                    0 <= c2 < es.len() && c2 != c && ring_contains(es[c].0, es[c2].0[0]) ==> !ring_contains(
                        #[trigger] es[c2].0,
                        es[c].1[h][0],
                    )
        }),
{
    let es = assemble_spec(rings);
    let cs = cleaned(rings).filter(contour_pred());
    let hs = cleaned(rings).filter(hole_pred());
    assert forall|a: int| 0 <= a < cs.len() implies #[trigger] cs[a] == es[a].0 by {}
    assert(contours_nest(cs)) by {
        assert forall|a: int, b: int, c: int|
            0 <= a < cs.len() && 0 <= b < cs.len() && 0 <= c < cs.len() && #[trigger] contour_inside(cs, a, b)
                && #[trigger] contour_inside(cs, b, c) implies contour_inside(cs, a, c) by {
            assert(cs[a] == es[a].0 && cs[b] == es[b].0 && cs[c] == es[c].0);
        }
        assert forall|a: int, b: int|
            0 <= a < cs.len() && 0 <= b < cs.len() && a != b && #[trigger] contour_inside(cs, a, b)
                implies !contour_inside(cs, b, a) by {
            assert(cs[a] == es[a].0 && cs[b] == es[b].0);
        }
    }
    assert forall|c: int, h: int|
        0 <= c < es.len() && 0 <= h < es[c].1.len() implies ring_contains(es[c].0, (#[trigger] es[c].1[h])[0])
            && forall|c2: int|
            0 <= c2 < es.len() && c2 != c && ring_contains(es[c].0, es[c2].0[0]) ==> !ring_contains(
                #[trigger] es[c2].0,
                es[c].1[h][0],
            ) by {
        let hole = es[c].1[h];
        assert(es[c].1 == hs.filter(owned_by(cs, c)));
        hs.lemma_filter_pred(owned_by(cs, c), h);
        assert(owner_upto(cs, hole[0], cs.len() as int) == c);
        lemma_owner_innermost(cs, hole[0], cs.len() as int);
        assert forall|c2: int|
            0 <= c2 < es.len() && c2 != c && ring_contains(es[c].0, es[c2].0[0]) implies !ring_contains(
            #[trigger] es[c2].0,
            hole[0],
        ) by {
            assert(cs[c2] == es[c2].0);
            assert(contour_inside(cs, c2, c));
        }
    }
}

/// Group closed rings into expolygons (see `assemble_spec`).
fn rings_to_expolygons(
    rings: &Vec<Vec<Point>>,
    Ghost(vs): Ghost<Seq<Point3>>,
    Ghost(z): Ghost<int>,
) -> (r: Vec<ExPolygon>)
    requires
        forall|i: int| 0 <= i < vs.len() ==> #[trigger] point3_ok(vs[i]),
        forall|q: int| 0 <= q < rings@.len() ==> ring_is_cut(vs, z, #[trigger] rings@[q]@),
    ensures
        expolys_view(r@) == assemble_spec(rings_view(rings@)),
        expolys_are_cuts(vs, z, r@),
{
    let ghost rv = rings_view(rings@);
    let ghost cl = cleaned(rv);
    // Clean the rings and sort them by orientation.
    let mut contours: Vec<Vec<Point>> = Vec::new();
    let mut holes: Vec<Vec<Point>> = Vec::new();
    let mut i: usize = 0;
    while i < rings.len()
        invariant
            i <= rings@.len(),
            rv == rings_view(rings@),
            cl == cleaned(rv),
            forall|i: int| 0 <= i < vs.len() ==> #[trigger] point3_ok(vs[i]),
            forall|q: int| 0 <= q < rings@.len() ==> ring_is_cut(vs, z, #[trigger] rings@[q]@),
            rings_view(contours@) == cl.take(i as int).filter(contour_pred()),
            rings_view(holes@) == cl.take(i as int).filter(hole_pred()),
            forall|q: int|
                0 <= q < contours@.len() ==> ring_is_cut(vs, z, #[trigger] contours@[q]@)
                    && contours@[q]@.len() >= 3 && points_ok(contours@[q]@),
            forall|q: int|
                0 <= q < holes@.len() ==> ring_is_cut(vs, z, #[trigger] holes@[q]@)
                    && holes@[q]@.len() >= 3 && points_ok(holes@[q]@),
        decreases rings@.len() - i,
    {
        let ring = dedup_ring(&rings[i]);
        assert(ring_is_cut(vs, z, rings@[i as int]@));
        assert forall|k: int| 0 <= k < ring@.len() implies is_cut_point(vs, z, #[trigger] ring@[k])
            && point_ok(ring@[k]) by {
            assert(rings@[i as int]@.contains(ring@[k]));
            let m = choose|m: int| 0 <= m < rings@[i as int]@.len() && rings@[i as int]@[m] == ring@[k];
            assert(is_cut_point(vs, z, rings@[i as int]@[m]));
            lemma_cut_point_ok(vs, z, ring@[k]);
        }
        proof {
            reveal(Seq::filter);
            assert(cl.take(i + 1).drop_last() =~= cl.take(i as int));
            assert(cl.take(i + 1).last() == ring@);
        }
        let o = ring_orientation(&ring);
        let ghost c0 = rings_view(contours@);
        let ghost h0 = rings_view(holes@);
        if ring.len() >= 3 {
            if o > 0 {
                contours.push(ring);
                assert(rings_view(contours@) =~= c0.push(ring@));
            } else if o < 0 {
                holes.push(ring);
                assert(rings_view(holes@) =~= h0.push(ring@));
            }
        }
        i += 1;
    }
    assert(cl.take(rings@.len() as int) =~= cl);
    let ghost cs = rings_view(contours@);
    let ghost hs = rings_view(holes@);
    // The innermost contour around each hole (`contours.len()` when none).
    let nc = contours.len();
    let mut owner: Vec<usize> = Vec::new();
    let mut h: usize = 0;
    while h < holes.len()
        invariant
            h <= holes@.len(),
            nc == contours@.len(),
            cs == rings_view(contours@),
            hs == rings_view(holes@),
            owner@.len() == h,
            forall|q: int| 0 <= q < h ==> #[trigger] owner@[q] == owner_upto(cs, hs[q][0], nc as int),
            forall|q: int| 0 <= q < contours@.len() ==> points_ok(#[trigger] contours@[q]@)
                && contours@[q]@.len() >= 3,
            forall|q: int| 0 <= q < holes@.len() ==> points_ok(#[trigger] holes@[q]@)
                && holes@[q]@.len() >= 3,
        decreases holes@.len() - h,
    {
        let first = holes[h][0];
        assert(point_ok(holes@[h as int]@[0]));
        assert(hs[h as int] == holes@[h as int]@);
        let mut best: usize = nc;
        let mut c: usize = 0;
        while c < nc
            invariant
                c <= nc,
                nc == contours@.len(),
                cs == rings_view(contours@),
                best == owner_upto(cs, first, c as int),
                point_ok(first),
                forall|q: int| 0 <= q < contours@.len() ==> points_ok(#[trigger] contours@[q]@)
                    && contours@[q]@.len() >= 3,
            decreases nc - c,
        {
            proof {
                lemma_owner_range(cs, first, c as int);
            }
            let cpoly = ring_polygon(&contours[c]);
            assert(points_ok(contours@[c as int]@));
            assert(cs[c as int] == contours@[c as int]@);
            if cpoly.contains(&first) {
                if best == nc {
                    best = c;
                } else {
                    let bpoly = ring_polygon(&contours[best]);
                    assert(points_ok(contours@[best as int]@));
                    assert(point_ok(contours@[c as int]@[0]));
                    assert(cs[best as int] == contours@[best as int]@);
                    if bpoly.contains(&contours[c][0]) {
                        best = c;
                    }
                }
            }
            c += 1;
        }
        owner.push(best);
        h += 1;
    }
    // Assemble the expolygons.
    let mut out: Vec<ExPolygon> = Vec::new();
    let mut c: usize = 0;
    while c < nc
        invariant
            c <= nc,
            nc == contours@.len(),
            cs == rings_view(contours@),
            hs == rings_view(holes@),
            owner@.len() == holes@.len(),
            forall|q: int| 0 <= q < holes@.len() ==> #[trigger] owner@[q] == owner_upto(cs, hs[q][0], nc as int),
            out@.len() == c,
            forall|q: int| 0 <= q < c ==> #[trigger] expoly_view(out@[q]) == (cs[q], hs.filter(owned_by(cs, q))),
            forall|q: int|
                0 <= q < contours@.len() ==> ring_is_cut(vs, z, #[trigger] contours@[q]@)
                    && contours@[q]@.len() >= 3,
            forall|q: int| 0 <= q < holes@.len() ==> ring_is_cut(vs, z, #[trigger] holes@[q]@),
            expolys_are_cuts(vs, z, out@),
        decreases nc - c,
    {
        let mut hp: Vec<Polygon> = Vec::new();
        let mut h: usize = 0;
        while h < holes.len()
            invariant
                h <= holes@.len(),
                c < nc,
                nc == contours@.len(),
                cs == rings_view(contours@),
                hs == rings_view(holes@),
                owner@.len() == holes@.len(),
                forall|q: int| 0 <= q < holes@.len() ==> #[trigger] owner@[q] == owner_upto(cs, hs[q][0], nc as int),
                polys_view(hp@) == hs.take(h as int).filter(owned_by(cs, c as int)),
                forall|q: int| 0 <= q < holes@.len() ==> ring_is_cut(vs, z, #[trigger] holes@[q]@),
                forall|q: int| 0 <= q < hp@.len() ==> ring_is_cut(vs, z, #[trigger] hp@[q].points@),
            decreases holes@.len() - h,
        {
            proof {
                reveal(Seq::filter);
                assert(hs.take(h + 1).drop_last() =~= hs.take(h as int));
                assert(hs.take(h + 1).last() == holes@[h as int]@);
            }
            if owner[h] == c {
                assert(ring_is_cut(vs, z, holes@[h as int]@));
                let ghost p0 = polys_view(hp@);
                hp.push(ring_polygon(&holes[h]));
                assert(polys_view(hp@) =~= p0.push(holes@[h as int]@));
            }
            h += 1;
        }
        assert(hs.take(holes@.len() as int) =~= hs);
        let contour = ring_polygon(&contours[c]);
        assert(ring_is_cut(vs, z, contours@[c as int]@));
        let e = ExPolygon { contour, holes: hp };
        let ghost prev = out@;
        out.push(e);
        assert forall|q: int| 0 <= q < out@.len() implies {
            &&& ring_is_cut(vs, z, (#[trigger] out@[q]).contour.points@)
            &&& out@[q].contour.points@.len() >= 3
            &&& forall|h: int|
                0 <= h < out@[q].holes@.len() ==> ring_is_cut(
                    vs,
                    z,
                    #[trigger] out@[q].holes@[h].points@,
                )
        } by {
            if q < prev.len() {
                assert(out@[q] == prev[q]);
            }
        }
        assert forall|q: int| 0 <= q < c + 1 implies #[trigger] expoly_view(out@[q]) == (
            cs[q],
            hs.filter(owned_by(cs, q)),
        ) by {
            if q < prev.len() {
                assert(out@[q] == prev[q]);
            }
        }
        c += 1;
    }
    assert(cs == cleaned(rv).filter(contour_pred()));
    assert(hs == cleaned(rv).filter(hole_pred()));
    assert forall|q: int| 0 <= q < nc implies #[trigger] expolys_view(out@)[q] == assemble_spec(
        rv,
    )[q] by {
        assert(expolys_view(out@)[q] == expoly_view(out@[q]));
    }
    assert(expolys_view(out@) =~= assemble_spec(rv));
    out
}

/// `es` is the cross-section of the mesh at height `z`: the expolygons
/// assembled (`assemble_spec`) from the rings that greedy chaining closes
/// among the segments its facets cut there. Those rings are closed chains
/// sharing no segment, and cover every segment when the segments pair up.
pub open spec fn is_cross_section(vs: Seq<Point3>, ts: Seq<Triangle>, z: int, es: Seq<ExPolyView>) -> bool {
    &&& chained_rings(mesh_cuts(vs, ts, z), greedy_rings(mesh_cuts(vs, ts, z)))
    &&& es == assemble_spec(greedy_rings(mesh_cuts(vs, ts, z)))
}

/// The cross-section of a mesh at height `z`.
pub fn slice_mesh_at_z(mesh: &TriangleMesh, z: i64) -> (r: Vec<ExPolygon>)
    requires
        mesh_wf(mesh.vertices@, mesh.triangles@),
    ensures
        is_cross_section(mesh.vertices@, mesh.triangles@, z as int, expolys_view(r@)),
        expolys_are_cuts(mesh.vertices@, z as int, r@),
{
    let segs = mesh_segments(mesh, z);
    let rings = chain_segments(&segs, Ghost(mesh.vertices@), Ghost(z as int));
    rings_to_expolygons(&rings, Ghost(mesh.vertices@), Ghost(z as int))
}

/// The cross-sections of a mesh at each of the heights `zs`.
pub fn slice_mesh(mesh: &TriangleMesh, zs: &Vec<i64>) -> (r: Vec<Vec<ExPolygon>>)
    requires
        mesh_wf(mesh.vertices@, mesh.triangles@),
    ensures
        r@.len() == zs@.len(),
        forall|i: int|
            0 <= i < zs@.len() ==> is_cross_section(
                mesh.vertices@,
                mesh.triangles@,
                zs@[i] as int,
                expolys_view(#[trigger] r@[i]@),
            ) && expolys_are_cuts(mesh.vertices@, zs@[i] as int, r@[i]@),
{
    let mut out: Vec<Vec<ExPolygon>> = Vec::new();
    let mut i: usize = 0;
    while i < zs.len()
        invariant
            i <= zs@.len(),
            out@.len() == i,
            mesh_wf(mesh.vertices@, mesh.triangles@),
            forall|k: int|
                0 <= k < i ==> is_cross_section(
                    mesh.vertices@,
                    mesh.triangles@,
                    zs@[k] as int,
                    expolys_view(#[trigger] out@[k]@),
                ) && expolys_are_cuts(mesh.vertices@, zs@[k] as int, out@[k]@),
        decreases zs@.len() - i,
    {
        out.push(slice_mesh_at_z(mesh, zs[i]));
        i += 1;
    }
    out
}

} // verus!
