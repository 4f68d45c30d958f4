//! Triangle meshes on scaled integer coordinates.
use vstd::prelude::*;
use crate::geometry::{Coord, Point3, coord_ok, COORD_LIMIT};

verus! {

/// Three vertex indices of a triangle, counter-clockwise seen from outside.
#[derive(Clone, Copy, Debug, PartialEq, Eq, Structural)]
pub struct Triangle {
    pub a: u32,
    pub b: u32,
    pub c: u32,
}

impl Triangle {
    pub fn new(a: u32, b: u32, c: u32) -> (r: Triangle)
        ensures
            r == (Triangle { a, b, c }),
    {
        Triangle { a, b, c }
    }
}

/// An indexed triangle mesh.
#[derive(Debug)]
pub struct TriangleMesh {
    pub vertices: Vec<Point3>,
    pub triangles: Vec<Triangle>,
}

pub open spec fn point3_ok(p: Point3) -> bool {
    coord_ok(p.x as int) && coord_ok(p.y as int) && coord_ok(p.z as int)
}

pub open spec fn triangle_in(t: Triangle, n: nat) -> bool {
    t.a < n && t.b < n && t.c < n
}

/// Every triangle refers to existing vertices, and every coordinate lies
/// within `COORD_LIMIT`.
pub open spec fn mesh_wf(vertices: Seq<Point3>, triangles: Seq<Triangle>) -> bool {
    &&& vertices.len() <= u32::MAX
    &&& forall|i: int| 0 <= i < vertices.len() ==> #[trigger] point3_ok(vertices[i])
    &&& forall|i: int| 0 <= i < triangles.len() ==> #[trigger] triangle_in(triangles[i], vertices.len())
}

/// The extreme z values of a non-empty vertex sequence.
pub open spec fn min_z(s: Seq<Point3>) -> int
    decreases s.len(),
{
    if s.len() <= 1 {
        s[0].z as int
    } else {
        let m = min_z(s.drop_last());
        if s.last().z < m {
            s.last().z as int
        } else {
            m
        }
    }
}

pub open spec fn max_z(s: Seq<Point3>) -> int
    decreases s.len(),
{
    if s.len() <= 1 {
        s[0].z as int
    } else {
        let m = max_z(s.drop_last());
        if s.last().z > m {
            s.last().z as int
        } else {
            m
        }
    }
}

/// The z extent of a mesh: `None` when it has no vertices.
pub open spec fn z_extent(s: Seq<Point3>) -> Option<(int, int)> {
    if s.len() == 0 {
        None
    } else {
        Some((min_z(s), max_z(s)))
    }
}

pub proof fn lemma_z_extent_bounds(s: Seq<Point3>)
    requires
        s.len() > 0,
        forall|i: int| 0 <= i < s.len() ==> #[trigger] point3_ok(s[i]),
    ensures
        coord_ok(min_z(s)),
        coord_ok(max_z(s)),
        min_z(s) <= max_z(s),
    decreases s.len(),
{
    if s.len() > 1 {
        let t = s.drop_last();
        assert forall|i: int| 0 <= i < t.len() implies #[trigger] point3_ok(t[i]) by {
            assert(t[i] == s[i]);
        }
        lemma_z_extent_bounds(t);
        assert(point3_ok(s[s.len() - 1]));
    } else {
        assert(point3_ok(s[0]));
    }
}

impl TriangleMesh {
    /// The empty mesh.
    pub fn new() -> (r: TriangleMesh)
        ensures
            r.vertices@.len() == 0,
            r.triangles@.len() == 0,
    {
        TriangleMesh { vertices: Vec::new(), triangles: Vec::new() }
    }

    /// A mesh has no facets.
    pub fn is_empty(&self) -> (r: bool)
        ensures
            r == (self.triangles@.len() == 0),
    {
        self.triangles.len() == 0
    }

    pub fn vertex_count(&self) -> (r: usize)
        ensures
            r == self.vertices@.len(),
    {
        self.vertices.len()
    }

    pub fn add_vertex(&mut self, p: Point3)
        ensures
            final(self).vertices@ == old(self).vertices@.push(p),
            final(self).triangles@ == old(self).triangles@,
    {
        self.vertices.push(p);
    }

    pub fn add_triangle(&mut self, t: Triangle)
        ensures
            final(self).triangles@ == old(self).triangles@.push(t),
            final(self).vertices@ == old(self).vertices@,
    {
        self.triangles.push(t);
    }

    /// An axis-aligned cube of the given edge length centred at the origin,
    /// with outward-facing triangles.
    pub fn cube(size: Coord) -> (r: TriangleMesh)
        requires
            0 <= size <= COORD_LIMIT,
        ensures
            r.vertices@.len() == 8,
            r.triangles@.len() == 12,
            mesh_wf(r.vertices@, r.triangles@),
            forall|i: int|
                0 <= i < 8 ==> (#[trigger] r.vertices@[i]).x == (if i % 2 == 0 {
                    -(size / 2)
                } else {
                    size - size / 2
                }) && r.vertices@[i].y == (if (i / 2) % 2 == 0 {
                    -(size / 2)
                } else {
                    size - size / 2
                }) && r.vertices@[i].z == (if i / 4 == 0 {
                    -(size / 2)
                } else {
                    size - size / 2
                }),
    {
        let lo = -(size / 2);
        let hi = size - size / 2;
        let mut m = TriangleMesh::new();
        m.add_vertex(Point3::new(lo, lo, lo));
        m.add_vertex(Point3::new(hi, lo, lo));
        m.add_vertex(Point3::new(lo, hi, lo));
        m.add_vertex(Point3::new(hi, hi, lo));
        m.add_vertex(Point3::new(lo, lo, hi));
        m.add_vertex(Point3::new(hi, lo, hi));
        m.add_vertex(Point3::new(lo, hi, hi));
        m.add_vertex(Point3::new(hi, hi, hi));
        // bottom (z = lo), normal -z
        m.add_triangle(Triangle::new(0, 2, 3));
        m.add_triangle(Triangle::new(0, 3, 1));
        // top (z = hi), normal +z
        m.add_triangle(Triangle::new(4, 5, 7));
        m.add_triangle(Triangle::new(4, 7, 6));
        // front (y = lo), normal -y
        m.add_triangle(Triangle::new(0, 1, 5));
        m.add_triangle(Triangle::new(0, 5, 4));
        // back (y = hi), normal +y
        m.add_triangle(Triangle::new(2, 6, 7));
        m.add_triangle(Triangle::new(2, 7, 3));
        // left (x = lo), normal -x
        m.add_triangle(Triangle::new(0, 4, 6));
        m.add_triangle(Triangle::new(0, 6, 2));
        // right (x = hi), normal +x
        m.add_triangle(Triangle::new(1, 3, 7));
        m.add_triangle(Triangle::new(1, 7, 5));
        proof {
            assert(m.vertices@.len() == 8);
            assert forall|i: int| 0 <= i < 8 implies #[trigger] point3_ok(m.vertices@[i]) by {}
            assert forall|i: int|
                0 <= i < m.triangles@.len() implies #[trigger] triangle_in(
                m.triangles@[i],
                m.vertices@.len(),
            ) by {}
        }
        m
    }

    /// The lowest and highest z of the mesh's vertices, `None` without
    /// vertices.
    pub fn z_range(&self) -> (r: Option<(Coord, Coord)>)
        ensures
            match r {
                None => z_extent(self.vertices@) is None,
                Some((lo, hi)) => z_extent(self.vertices@) == Some((lo as int, hi as int)),
            },
    {
        let n = self.vertices.len();
        if n == 0 {
            return None;
        }
        let mut lo = self.vertices[0].z;
        let mut hi = self.vertices[0].z;
        let mut i: usize = 1;
        while i < n
            invariant
                n == self.vertices@.len(),
                1 <= i <= n,
                lo == min_z(self.vertices@.take(i as int)),
                hi == max_z(self.vertices@.take(i as int)),
            decreases n - i,
        {
            assert(self.vertices@.take(i as int + 1).drop_last() =~= self.vertices@.take(i as int));
            let z = self.vertices[i].z;
            if z < lo {
                lo = z;
            }
            if z > hi {
                hi = z;
            }
            i += 1;
        }
        assert(self.vertices@.take(n as int) =~= self.vertices@);
        Some((lo, hi))
    }
}

/// Three vertex indices of a facet of an indexed triangle set.
#[derive(Clone, Copy, Debug, PartialEq, Eq, Structural)]
pub struct Vec3i {
    pub x: i32,
    pub y: i32,
    pub z: i32,
}

impl Vec3i {
    pub fn new(x: i32, y: i32, z: i32) -> (r: Vec3i)
        ensures
            r == (Vec3i { x, y, z }),
    {
        Vec3i { x, y, z }
    }
}

/// A mesh as a vertex list and a facet index list.
#[derive(Debug)]
pub struct IndexedTriangleSet {
    pub indices: Vec<Vec3i>,
    pub vertices: Vec<Point3>,
}

impl IndexedTriangleSet {
    pub fn new() -> (r: IndexedTriangleSet)
        ensures
            r.indices@.len() == 0,
            r.vertices@.len() == 0,
    {
        IndexedTriangleSet { indices: Vec::new(), vertices: Vec::new() }
    }
}

} // verus!
