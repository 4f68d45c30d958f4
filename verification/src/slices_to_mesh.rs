//! Rebuilding a triangle mesh from a stack of sliced layers: every contour
//! of every layer is extruded into a wall between the layer's bottom and the
//! next layer's bottom (or its own top for the last layer).
use vstd::prelude::*;
use crate::geometry::{Coord, ExPolygon, Point, Point3, coord_ok};
use crate::layer::{Layer, all_slices_view};
use crate::triangle_mesh::{Triangle, TriangleMesh, triangle_in};

verus! {

/// The vertices of a contour's wall: the contour at the bottom, then at the
/// top.
pub open spec fn wall_vertices(c: Seq<Point>, zb: int, zt: int) -> Seq<Point3> {
    c.map_values(|p: Point| Point3 { x: p.x, y: p.y, z: zb as i64 }) + c.map_values(
        |p: Point| Point3 { x: p.x, y: p.y, z: zt as i64 },
    )
}

/// The two triangles of the wall quad at contour edge `i` (from vertex `i`
/// to vertex `i + 1`, wrapping), for a wall whose vertices start at `base`.
pub open spec fn wall_triangle(base: int, n: int, k: int) -> Triangle {
    let i = k / 2;
    let next = (i + 1) % n;
    if k % 2 == 0 {
        Triangle { a: (base + i) as u32, b: (base + next) as u32, c: (base + n + i) as u32 }
    } else {
        Triangle {
            a: (base + next) as u32,
            b: (base + n + next) as u32,
            c: (base + n + i) as u32,
        }
    }
}

pub open spec fn wall_triangles(base: int, n: int) -> Seq<Triangle> {
    Seq::new((2 * n) as nat, |k: int| wall_triangle(base, n, k))
}

/// A mesh after one more wall has been appended.
pub open spec fn add_wall(m: (Seq<Point3>, Seq<Triangle>), c: Seq<Point>, zb: int, zt: int) -> (
    Seq<Point3>,
    Seq<Triangle>,
) {
    (m.0 + wall_vertices(c, zb, zt), m.1 + wall_triangles(m.0.len() as int, c.len() as int))
}

/// A mesh after the walls of the first `n` contours have been appended.
pub open spec fn add_walls(
    m: (Seq<Point3>, Seq<Triangle>),
    cs: Seq<(Seq<Point>, Seq<Seq<Point>>)>,
    n: int,
    zb: int,
    zt: int,
) -> (Seq<Point3>, Seq<Triangle>)
    decreases n,
{
    if n <= 0 {
        m
    } else {
        add_wall(add_walls(m, cs, n - 1, zb, zt), cs[n - 1].0, zb, zt)
    }
}

/// Bottom of layer `i`.
pub open spec fn layer_bottom(ls: Seq<Layer>, i: int) -> int {
    ls[i].print_z - ls[i].height
}

/// Top of the wall of layer `i`: the next layer's bottom, or the layer's own
/// top for the last layer.
pub open spec fn layer_wall_top(ls: Seq<Layer>, i: int) -> int {
    if i + 1 < ls.len() {
        layer_bottom(ls, i + 1)
    } else {
        layer_bottom(ls, i) + ls[i].height
    }
}

/// The mesh made of the walls of the first `n` layers.
pub open spec fn stack_mesh(ls: Seq<Layer>, n: int) -> (Seq<Point3>, Seq<Triangle>)
    decreases n,
{
    if n <= 0 {
        (Seq::empty(), Seq::empty())
    } else {
        let cs = all_slices_view(ls[n - 1].regions@);
        add_walls(
            stack_mesh(ls, n - 1),
            cs,
            cs.len() as int,
            layer_bottom(ls, n - 1),
            layer_wall_top(ls, n - 1),
        )
    }
}

/// Layers whose z values can be handled: bounded tops and thicknesses.
pub open spec fn layers_ok(ls: Seq<Layer>) -> bool {
    forall|i: int|
        0 <= i < ls.len() ==> coord_ok((#[trigger] ls[i]).print_z as int) && coord_ok(
            ls[i].height as int,
        )
}

proof fn lemma_add_walls_grows(
    m: (Seq<Point3>, Seq<Triangle>),
    cs: Seq<(Seq<Point>, Seq<Seq<Point>>)>,
    n: int,
    k: int,
    zb: int,
    zt: int,
)
    requires
        0 <= k <= n <= cs.len(),
    ensures
        add_walls(m, cs, k, zb, zt).0.len() <= add_walls(m, cs, n, zb, zt).0.len(),
        m.0.len() <= add_walls(m, cs, k, zb, zt).0.len(),
    decreases n,
{
    if n > k {
        lemma_add_walls_grows(m, cs, n - 1, k, zb, zt);
    } else if k > 0 {
        lemma_add_walls_grows(m, cs, k - 1, k - 1, zb, zt);
    }
}

proof fn lemma_stack_mesh_grows(ls: Seq<Layer>, k: int, n: int)
    requires
        0 <= k <= n <= ls.len(),
    ensures
        stack_mesh(ls, k).0.len() <= stack_mesh(ls, n).0.len(),
    decreases n,
{
    if n > k {
        lemma_stack_mesh_grows(ls, k, n - 1);
        let cs = all_slices_view(ls[n - 1].regions@);
        lemma_add_walls_grows(
            stack_mesh(ls, n - 1),
            cs,
            cs.len() as int,
            0,
            layer_bottom(ls, n - 1),
            layer_wall_top(ls, n - 1),
        );
    }
}

/// Every triangle of the mesh refers to one of its vertices.
pub open spec fn triangles_in(m: (Seq<Point3>, Seq<Triangle>)) -> bool {
    forall|k: int| 0 <= k < m.1.len() ==> triangle_in(#[trigger] m.1[k], m.0.len())
}

proof fn lemma_add_wall_in(m: (Seq<Point3>, Seq<Triangle>), c: Seq<Point>, zb: int, zt: int)
    requires
        triangles_in(m),
        add_wall(m, c, zb, zt).0.len() <= u32::MAX,
    ensures
        triangles_in(add_wall(m, c, zb, zt)),
{
    let r = add_wall(m, c, zb, zt);
    let base = m.0.len() as int;
    let n = c.len() as int;
    assert forall|k: int| 0 <= k < r.1.len() implies triangle_in(#[trigger] r.1[k], r.0.len()) by {
        if k >= m.1.len() {
            let j = k - m.1.len();
            assert(r.1[k] == wall_triangle(base, n, j));
            let i = j / 2;
            assert(0 <= i < n);
            assert(0 <= (i + 1) % n < n);
        }
    }
}

proof fn lemma_add_walls_in(
    m: (Seq<Point3>, Seq<Triangle>),
    cs: Seq<(Seq<Point>, Seq<Seq<Point>>)>,
    n: int,
    zb: int,
    zt: int,
)
    requires
        0 <= n <= cs.len(),
        triangles_in(m),
        add_walls(m, cs, n, zb, zt).0.len() <= u32::MAX,
    ensures
        triangles_in(add_walls(m, cs, n, zb, zt)),
    decreases n,
{
    if n > 0 {
        lemma_add_walls_grows(m, cs, n, n - 1, zb, zt);
        lemma_add_walls_in(m, cs, n - 1, zb, zt);
        lemma_add_wall_in(add_walls(m, cs, n - 1, zb, zt), cs[n - 1].0, zb, zt);
    }
}

/// The mesh rebuilt from a layer stack is well formed: every triangle
/// refers to one of its vertices.
pub proof fn lemma_stack_mesh_triangles_in(ls: Seq<Layer>, n: int)
    requires
        0 <= n <= ls.len(),
        stack_mesh(ls, n).0.len() <= u32::MAX,
    ensures
        triangles_in(stack_mesh(ls, n)),
    decreases n,
{
    if n > 0 {
        lemma_stack_mesh_grows(ls, n - 1, n);
        lemma_stack_mesh_triangles_in(ls, n - 1);
        let cs = all_slices_view(ls[n - 1].regions@);
        lemma_add_walls_in(
            stack_mesh(ls, n - 1),
            cs,
            cs.len() as int,
            layer_bottom(ls, n - 1),
            layer_wall_top(ls, n - 1),
        );
    }
}

/// The number of points of the first `n` contours.
pub open spec fn contours_points(cs: Seq<(Seq<Point>, Seq<Seq<Point>>)>, n: int) -> int
    decreases n,
{
    if n <= 0 {
        0
    } else {
        contours_points(cs, n - 1) + cs[n - 1].0.len()
    }
}

/// The number of contour points (holes not counted) over all slices of the
/// first `n` layers.
pub open spec fn stack_points(ls: Seq<Layer>, n: int) -> int
    decreases n,
{
    if n <= 0 {
        0
    } else {
        let cs = all_slices_view(ls[n - 1].regions@);
        stack_points(ls, n - 1) + contours_points(cs, cs.len() as int)
    }
}

proof fn lemma_add_walls_counts(
    m: (Seq<Point3>, Seq<Triangle>),
    cs: Seq<(Seq<Point>, Seq<Seq<Point>>)>,
    n: int,
    zb: int,
    zt: int,
)
    requires
        0 <= n <= cs.len(),
    ensures
        add_walls(m, cs, n, zb, zt).0.len() == m.0.len() + 2 * contours_points(cs, n),
        add_walls(m, cs, n, zb, zt).1.len() == m.1.len() + 2 * contours_points(cs, n),
    decreases n,
{
    if n > 0 {
        lemma_add_walls_counts(m, cs, n - 1, zb, zt);
    }
}

/// A mesh rebuilt from `n` layers has two vertices and two triangles per
/// contour point of their slices: each contour of `k` points adds `k`
/// vertices at the layer's bottom, `k` at its wall top, and `2 * k`
/// triangles.
pub proof fn lemma_stack_mesh_counts(ls: Seq<Layer>, n: int)
    requires
        0 <= n <= ls.len(),
    ensures
        stack_mesh(ls, n).0.len() == 2 * stack_points(ls, n),
        stack_mesh(ls, n).1.len() == 2 * stack_points(ls, n),
    decreases n,
{
    if n > 0 {
        lemma_stack_mesh_counts(ls, n - 1);
        let cs = all_slices_view(ls[n - 1].regions@);
        lemma_add_walls_counts(
            stack_mesh(ls, n - 1),
            cs,
            cs.len() as int,
            layer_bottom(ls, n - 1),
            layer_wall_top(ls, n - 1),
        );
    }
}

proof fn lemma_add_walls_prefix(
    m: (Seq<Point3>, Seq<Triangle>),
    cs: Seq<(Seq<Point>, Seq<Seq<Point>>)>,
    j: int,
    j2: int,
    zb: int,
    zt: int,
)
    requires
        0 <= j <= j2 <= cs.len(),
    ensures
        add_walls(m, cs, j, zb, zt).0.len() <= add_walls(m, cs, j2, zb, zt).0.len(),
        forall|t: int|
            0 <= t < add_walls(m, cs, j, zb, zt).0.len() ==> #[trigger] add_walls(m, cs, j2, zb, zt).0[t]
                == add_walls(m, cs, j, zb, zt).0[t],
    decreases j2,
{
    lemma_add_walls_counts(m, cs, j, zb, zt);
    lemma_add_walls_counts(m, cs, j2, zb, zt);
    if j2 > j {
        lemma_add_walls_prefix(m, cs, j, j2 - 1, zb, zt);
        lemma_add_walls_counts(m, cs, j2 - 1, zb, zt);
        let a = add_walls(m, cs, j2 - 1, zb, zt).0;
        let w = wall_vertices(cs[j2 - 1].0, zb, zt);
        assert(add_walls(m, cs, j2, zb, zt).0 == a + w);
        assert forall|t: int| 0 <= t < add_walls(m, cs, j, zb, zt).0.len() implies #[trigger] add_walls(
            m,
            cs,
            j2,
            zb,
            zt,
        ).0[t] == add_walls(m, cs, j, zb, zt).0[t] by {
            assert((a + w)[t] == a[t]);
        }
    }
}

proof fn lemma_stack_mesh_prefix(ls: Seq<Layer>, i: int, i2: int)
    requires
        0 <= i <= i2 <= ls.len(),
    ensures
        stack_mesh(ls, i).0.len() <= stack_mesh(ls, i2).0.len(),
        forall|t: int|
            0 <= t < stack_mesh(ls, i).0.len() ==> #[trigger] stack_mesh(ls, i2).0[t] == stack_mesh(ls, i).0[t],
    decreases i2,
{
    if i2 > i {
        lemma_stack_mesh_prefix(ls, i, i2 - 1);
        let cs = all_slices_view(ls[i2 - 1].regions@);
        let prev = stack_mesh(ls, i2 - 1);
        lemma_add_walls_prefix(prev, cs, 0, cs.len() as int, layer_bottom(ls, i2 - 1), layer_wall_top(ls, i2 - 1));
        assert(add_walls(prev, cs, 0, layer_bottom(ls, i2 - 1), layer_wall_top(ls, i2 - 1)) == prev);
    }
}

/// Where each contour's wall lands in the mesh rebuilt from all the layers:
/// contour `j` of layer `i`, of `k` points, starts at vertex
/// `2 * (points of the layers before + points of the contours before)`;
/// there come its `k` points at the layer's bottom, then its `k` points at
/// the next layer's bottom (for the last layer, its own top).
pub proof fn lemma_stack_mesh_wall_place(ls: Seq<Layer>, i: int, j: int, k: int)
    requires
        0 <= i < ls.len(),
        0 <= j < all_slices_view(ls[i].regions@).len(),
        0 <= k < all_slices_view(ls[i].regions@)[j].0.len(),
    ensures
        ({
            let cs = all_slices_view(ls[i].regions@);
            let c = cs[j].0;
            let base = 2 * (stack_points(ls, i) + contours_points(cs, j));
            let vs = stack_mesh(ls, ls.len() as int).0;
            &&& base + 2 * c.len() <= vs.len()
            &&& vs[base + k] == Point3 { x: c[k].x, y: c[k].y, z: layer_bottom(ls, i) as i64 }
            &&& vs[base + c.len() + k] == Point3 { x: c[k].x, y: c[k].y, z: layer_wall_top(ls, i) as i64 }
        }),
{
    let cs = all_slices_view(ls[i].regions@);
    let c = cs[j].0;
    let zb = layer_bottom(ls, i);
    let zt = layer_wall_top(ls, i);
    let prev = stack_mesh(ls, i);
    lemma_stack_mesh_counts(ls, i);
    lemma_add_walls_counts(prev, cs, j, zb, zt);
    let a = add_walls(prev, cs, j, zb, zt).0;
    let w = wall_vertices(c, zb, zt);
    assert(add_walls(prev, cs, j + 1, zb, zt).0 == a + w);
    let base = 2 * (stack_points(ls, i) + contours_points(cs, j));
    assert(a.len() == base);
    assert((a + w)[base + k] == w[k]);
    assert((a + w)[base + c.len() + k] == w[c.len() + k]);
    lemma_add_walls_prefix(prev, cs, j + 1, cs.len() as int, zb, zt);
    assert(stack_mesh(ls, i + 1) == add_walls(prev, cs, cs.len() as int, zb, zt));
    lemma_stack_mesh_prefix(ls, i + 1, ls.len() as int);
}

/// Append the wall of an expolygon's contour between two heights.
fn extrude_expolygon_to_mesh(mesh: &mut TriangleMesh, expoly: &ExPolygon, z_bottom: Coord, z_top: Coord)
    requires
        old(mesh).vertices@.len() + 2 * expoly.contour.points@.len() <= u32::MAX,
    ensures
        (final(mesh).vertices@, final(mesh).triangles@) == add_wall(
            (old(mesh).vertices@, old(mesh).triangles@),
            expoly.contour.points@,
            z_bottom as int,
            z_top as int,
        ),
{
    let base_vertex = mesh.vertex_count() as u32;
    let n = expoly.contour.points.len() as u32;
    let ghost v0 = mesh.vertices@;
    let ghost t0 = mesh.triangles@;
    let ghost c = expoly.contour.points@;
    let mut i: usize = 0;
    while i < expoly.contour.points.len()
        invariant
            i <= c.len(),
            c == expoly.contour.points@,
            mesh.triangles@ == t0,
            mesh.vertices@ == v0 + c.take(i as int).map_values(
                |p: Point| Point3 { x: p.x, y: p.y, z: z_bottom },
            ),
        decreases c.len() - i,
    {
        let pt = expoly.contour.points[i];
        mesh.add_vertex(Point3::new(pt.x, pt.y, z_bottom));
        assert(c.take(i as int + 1) =~= c.take(i as int).push(pt));
        assert(mesh.vertices@ =~= v0 + c.take(i as int + 1).map_values(
            |p: Point| Point3 { x: p.x, y: p.y, z: z_bottom },
        ));
        i += 1;
    }
    let mut i: usize = 0;
    while i < expoly.contour.points.len()
        invariant
            i <= c.len(),
            c == expoly.contour.points@,
            mesh.triangles@ == t0,
            mesh.vertices@ == v0 + c.map_values(|p: Point| Point3 { x: p.x, y: p.y, z: z_bottom })
                + c.take(i as int).map_values(|p: Point| Point3 { x: p.x, y: p.y, z: z_top }),
        decreases c.len() - i,
    {
        let pt = expoly.contour.points[i];
        mesh.add_vertex(Point3::new(pt.x, pt.y, z_top));
        assert(c.take(i as int + 1) =~= c.take(i as int).push(pt));
        assert(mesh.vertices@ =~= v0 + c.map_values(
            |p: Point| Point3 { x: p.x, y: p.y, z: z_bottom },
        ) + c.take(i as int + 1).map_values(|p: Point| Point3 { x: p.x, y: p.y, z: z_top }));
        i += 1;
    }
    assert(c.take(c.len() as int) =~= c);
    assert(mesh.vertices@ =~= v0 + wall_vertices(c, z_bottom as int, z_top as int));
    let mut i: u32 = 0;
    while i < n
        invariant
            n == c.len(),
            base_vertex == v0.len(),
            v0.len() + 2 * c.len() <= u32::MAX,
            i <= n,
            mesh.vertices@ == v0 + wall_vertices(c, z_bottom as int, z_top as int),
            mesh.triangles@ == t0 + Seq::new(
                (2 * i) as nat,
                |k: int| wall_triangle(v0.len() as int, n as int, k),
            ),
        decreases n - i,
    {
        let next = (i + 1) % n;
        let v0_ = base_vertex + i;
        let v1 = base_vertex + next;
        let v2 = base_vertex + n + i;
        let v3 = base_vertex + n + next;
        let ghost before = mesh.triangles@;
        mesh.add_triangle(Triangle::new(v0_, v1, v2));
        mesh.add_triangle(Triangle::new(v1, v3, v2));
        assert((2 * i) / 2 == i);
        assert((2 * i + 1) / 2 == i);
        assert(mesh.triangles@ =~= t0 + Seq::new(
            (2 * (i + 1)) as nat,
            |k: int| wall_triangle(v0.len() as int, n as int, k),
        ));
        i += 1;
    }
}

/// Convert a stack of layers to a triangle mesh: the walls of all the
/// contours of all the layers, layer by layer.
pub fn slices_to_mesh(layers: &Vec<Layer>) -> (r: TriangleMesh)
    requires
        layers_ok(layers@),
        2 * stack_points(layers@, layers@.len() as int) <= u32::MAX,
    ensures
        (r.vertices@, r.triangles@) == stack_mesh(layers@, layers@.len() as int),
        r.vertices@.len() == 2 * stack_points(layers@, layers@.len() as int),
        r.triangles@.len() == 2 * stack_points(layers@, layers@.len() as int),
        triangles_in((r.vertices@, r.triangles@)),
{
    proof {
        lemma_stack_mesh_counts(layers@, layers@.len() as int);
        lemma_stack_mesh_triangles_in(layers@, layers@.len() as int);
    }
    let mut mesh = TriangleMesh::new();
    let n = layers.len();
    let mut layer_idx: usize = 0;
    while layer_idx < n
        invariant
            n == layers@.len(),
            layer_idx <= n,
            layers_ok(layers@),
            stack_mesh(layers@, n as int).0.len() <= u32::MAX,
            (mesh.vertices@, mesh.triangles@) == stack_mesh(layers@, layer_idx as int),
        decreases n - layer_idx,
    {
        let layer = &layers[layer_idx];
        assert(coord_ok(layers@[layer_idx as int].print_z as int));
        assert(coord_ok(layers@[layer_idx as int].height as int));
        let z_bottom = layer.bottom_z();
        let z_top = if layer_idx + 1 < n {
            assert(coord_ok(layers@[layer_idx + 1].print_z as int));
            assert(coord_ok(layers@[layer_idx + 1].height as int));
            layers[layer_idx + 1].bottom_z()
        } else {
            z_bottom + layer.height
        };
        let slices = layer.all_slices();
        let ghost cs = all_slices_view(layers@[layer_idx as int].regions@);
        let ghost m0 = (mesh.vertices@, mesh.triangles@);
        proof {
            lemma_stack_mesh_grows(layers@, layer_idx as int + 1, n as int);
        }
        let mut s: usize = 0;
        while s < slices.len()
            invariant
                s <= slices@.len(),
                slices@.map_values(|e: ExPolygon| crate::geometry::expoly_view(e)) == cs,
                cs.len() == slices@.len(),
                add_walls(m0, cs, cs.len() as int, z_bottom as int, z_top as int).0.len()
                    <= u32::MAX,
                (mesh.vertices@, mesh.triangles@) == add_walls(
                    m0,
                    cs,
                    s as int,
                    z_bottom as int,
                    z_top as int,
                ),
            decreases slices@.len() - s,
        {
            proof {
                lemma_add_walls_grows(
                    m0,
                    cs,
                    cs.len() as int,
                    s as int + 1,
                    z_bottom as int,
                    z_top as int,
                );
                assert(cs[s as int] == crate::geometry::expoly_view(slices@[s as int]));
            }
            extrude_expolygon_to_mesh(&mut mesh, &slices[s], z_bottom, z_top);
            s += 1;
        }
        layer_idx += 1;
    }
    mesh
}

} // verus!
