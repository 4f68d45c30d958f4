//! Mesh hollowing helpers.
use vstd::prelude::*;
use crate::geometry::Point3;
use crate::triangle_mesh::{IndexedTriangleSet, Vec3i};

verus! {

/// Options of `hollow_mesh`.
#[derive(Clone, Copy, Debug, PartialEq, Eq, Structural)]
pub enum HollowingFlags {
    /// Remove the triangles of the original mesh that end up inside the
    /// hollowed interior.
    HfRemoveInsideTriangles,
}

impl HollowingFlags {
    /// The flag's bit: 0x1.
    pub fn bits(&self) -> (r: i32)
        ensures
            r == 1,
    {
        match self {
            HollowingFlags::HfRemoveInsideTriangles => 1,
        }
    }
}

/// A facet with its first and last vertex exchanged, which flips its normal.
pub open spec fn flipped(f: Vec3i) -> Vec3i {
    Vec3i { x: f.z, y: f.y, z: f.x }
}

/// Flip the normals of all facets by exchanging their first and last
/// vertex indices; vertices are unchanged.
pub fn swap_normals(its: &mut IndexedTriangleSet)
    ensures
        final(its).vertices@ == old(its).vertices@,
        final(its).indices@ == old(its).indices@.map_values(|f: Vec3i| flipped(f)),
{
    let n = its.indices.len();
    let mut i: usize = 0;
    while i < n
        invariant
            n == its.indices@.len(),
            n == old(its).indices@.len(),
            i <= n,
            its.vertices@ == old(its).vertices@,
            forall|k: int| 0 <= k < i ==> #[trigger] its.indices@[k] == flipped(old(its).indices@[k]),
            forall|k: int| i <= k < n ==> #[trigger] its.indices@[k] == old(its).indices@[k],
        decreases n - i,
    {
        let face = its.indices[i];
        its.indices.set(i, Vec3i { x: face.z, y: face.y, z: face.x });
        i += 1;
    }
    assert(its.indices@ =~= old(its).indices@.map_values(|f: Vec3i| flipped(f)));
}

/// Flipping twice restores every facet.
pub proof fn lemma_swap_normals_involution(s: Seq<Vec3i>)
    ensures
        s.map_values(|f: Vec3i| flipped(f)).map_values(|f: Vec3i| flipped(f)) == s,
{
    assert(s.map_values(|f: Vec3i| flipped(f)).map_values(|f: Vec3i| flipped(f)) =~= s);
}


/// The facets whose flag in `rm` is not set, in order.
pub open spec fn kept_faces(fs: Seq<Vec3i>, rm: Seq<bool>) -> Seq<Vec3i>
    decreases fs.len(),
{
    if fs.len() == 0 {
        Seq::empty()
    } else {
        let p = kept_faces(fs.drop_last(), rm);
        if rm[fs.len() - 1] {
            p
        } else {
            p.push(fs.last())
        }
    }
}

/// The corners of the triangles, three by three.
pub open spec fn triangle_corners(ts: Seq<[Point3; 3]>) -> Seq<Point3>
    decreases ts.len(),
{
    if ts.len() == 0 {
        Seq::empty()
    } else {
        let t = ts.last();
        triangle_corners(ts.drop_last()) + seq![t[0], t[1], t[2]]
    }
}

/// Facets over `m` fresh vertex triples numbered from `o` on.
pub open spec fn fresh_faces(o: int, m: int) -> Seq<Vec3i> {
    Seq::new(m as nat, |i: int| Vec3i { x: (o + 3 * i) as i32, y: (o + 3 * i + 1) as i32, z: (o + 3 * i + 2) as i32 })
}

/// How many flags are set.
pub open spec fn count_set(rm: Seq<bool>) -> nat
    decreases rm.len(),
{
    if rm.len() == 0 {
        0
    } else {
        count_set(rm.drop_last()) + if rm.last() { 1nat } else { 0nat }
    }
}

proof fn lemma_corners_len(ts: Seq<[Point3; 3]>)
    ensures
        triangle_corners(ts).len() == 3 * ts.len(),
    decreases ts.len(),
{
    if ts.len() > 0 {
        lemma_corners_len(ts.drop_last());
    }
}

/// The edits that trimming decides on for a mesh: which of its facets go,
/// and which new triangles (given by their corners) come in.
pub struct MeshMods {
    pub new_triangles: Vec<[Point3; 3]>,
    pub to_remove: Vec<bool>,
}

impl MeshMods {
    /// No edits: no new triangles, and a cleared flag for every facet.
    pub fn new(mesh: &IndexedTriangleSet) -> (r: MeshMods)
        ensures
            r.new_triangles@.len() == 0,
            r.to_remove@ == Seq::new(mesh.indices@.len(), |i: int| false),
    {
        let n = mesh.indices.len();
        let mut to_remove: Vec<bool> = Vec::new();
        let mut i: usize = 0;
        while i < n
            invariant
                i <= n,
                to_remove@ == Seq::new(i as nat, |k: int| false),
            decreases n - i,
        {
            to_remove.push(false);
            i += 1;
            assert(to_remove@ =~= Seq::new(i as nat, |k: int| false));
        }
        MeshMods { new_triangles: Vec::new(), to_remove }
    }

    /// The number of facets flagged for removal.
    pub fn to_remove_cnt(&self) -> (r: usize)
        ensures
            r == count_set(self.to_remove@),
    {
        let n = self.to_remove.len();
        let mut c: usize = 0;
        let mut i: usize = 0;
        while i < n
            invariant
                i <= n,
                n == self.to_remove@.len(),
                c == count_set(self.to_remove@.take(i as int)),
                c <= i,
            decreases n - i,
        {
            assert(self.to_remove@.take(i + 1).drop_last() =~= self.to_remove@.take(i as int));
            if self.to_remove[i] {
                c += 1;
            }
            i += 1;
        }
        assert(self.to_remove@.take(n as int) =~= self.to_remove@);
        c
    }

    /// Apply the edits: the unflagged facets stay, in order, and each new
    /// triangle is appended as three fresh vertices and one facet over them.
    pub fn apply(&self, mesh: &mut IndexedTriangleSet)
        requires
            self.to_remove@.len() == old(mesh).indices@.len(),
            old(mesh).vertices@.len() + 3 * self.new_triangles@.len() <= i32::MAX + 1,
        ensures
            final(mesh).indices@ == kept_faces(old(mesh).indices@, self.to_remove@) + fresh_faces(
                old(mesh).vertices@.len() as int,
                self.new_triangles@.len() as int,
            ),
            final(mesh).vertices@ == old(mesh).vertices@ + triangle_corners(self.new_triangles@),
    {
        let n = mesh.indices.len();
        let ghost fs = mesh.indices@;
        let ghost vs0 = mesh.vertices@;
        let ghost rm = self.to_remove@;
        let mut new_faces: Vec<Vec3i> = Vec::new();
        let mut i: usize = 0;
        while i < n
            invariant
                i <= n,
                n == fs.len(),
                fs == mesh.indices@,
                rm == self.to_remove@,
                rm.len() == n,
                new_faces@ == kept_faces(fs.take(i as int), rm),
            decreases n - i,
        {
            assert(fs.take(i + 1).drop_last() =~= fs.take(i as int));
            if !self.to_remove[i] {
                new_faces.push(mesh.indices[i]);
            }
            i += 1;
        }
        assert(fs.take(n as int) =~= fs);
        let ghost kept = new_faces@;
        let m = self.new_triangles.len();
        let mut t: usize = 0;
        while t < m
            invariant
                t <= m,
                m == self.new_triangles@.len(),
                vs0.len() + 3 * m <= i32::MAX + 1,
                mesh.vertices@ == vs0 + triangle_corners(self.new_triangles@.take(t as int)),
                new_faces@ == kept + fresh_faces(vs0.len() as int, t as int),
            decreases m - t,
        {
            proof {
                lemma_corners_len(self.new_triangles@.take(t as int));
                assert(self.new_triangles@.take(t + 1).drop_last() =~= self.new_triangles@.take(t as int));
            }
            let o = mesh.vertices.len();
            let tri = self.new_triangles[t];
            mesh.vertices.push(tri[0]);
            mesh.vertices.push(tri[1]);
            mesh.vertices.push(tri[2]);
            new_faces.push(Vec3i { x: o as i32, y: (o + 1) as i32, z: (o + 2) as i32 });
            t += 1;
            assert(mesh.vertices@ =~= vs0 + triangle_corners(self.new_triangles@.take(t as int)));
            assert(new_faces@ =~= kept + fresh_faces(vs0.len() as int, t as int));
        }
        assert(self.new_triangles@.take(m as int) =~= self.new_triangles@);
        mesh.indices = new_faces;
    }
}

} // verus!
