//! Indexed triangle sets and the mesh bookkeeping used when a stack of
//! slices is turned back into a mesh: merging sets, building the side walls
//! of a slice, merging coincident vertices, dropping degenerate faces and
//! unreferenced vertices.
//!
//! Vertices are scaled integer points (`Point3`), so coincident vertices are
//! found by exact equality.
use vstd::prelude::*;
use crate::geometry::{ExPolyView, ExPolygon, Point, Point3, Polygon, expoly_view, expolys_view};

verus! {

/// A set of triangles over a shared list of vertices; each face holds three
/// vertex indices.
#[derive(Clone, Debug, Default)]
pub struct IndexedTriangleSet {
    pub vertices: Vec<Point3>,
    pub indices: Vec<[usize; 3]>,
}

impl IndexedTriangleSet {
    /// An empty set.
    pub fn new() -> (r: IndexedTriangleSet)
        ensures
            r.vertices@.len() == 0,
            r.indices@.len() == 0,
    {
        IndexedTriangleSet { vertices: Vec::new(), indices: Vec::new() }
    }
}

/// A face as three vertex indices.
pub type FaceV = (int, int, int);

pub open spec fn face_view(f: [usize; 3]) -> FaceV {
    (f[0] as int, f[1] as int, f[2] as int)
}

pub open spec fn faces_view(fs: Seq<[usize; 3]>) -> Seq<FaceV> {
    fs.map_values(|f: [usize; 3]| face_view(f))
}

impl View for IndexedTriangleSet {
    type V = (Seq<Point3>, Seq<FaceV>);

    open spec fn view(&self) -> (Seq<Point3>, Seq<FaceV>) {
        (self.vertices@, faces_view(self.indices@))
    }
}

/// The faces with every index moved up by `n`.
pub open spec fn shift_faces(fs: Seq<FaceV>, n: int) -> Seq<FaceV> {
    fs.map_values(|f: FaceV| (f.0 + n, f.1 + n, f.2 + n))
}

/// `b` appended to `a`, its faces moved to the new place of its vertices.
pub open spec fn merged(a: (Seq<Point3>, Seq<FaceV>), b: (Seq<Point3>, Seq<FaceV>)) -> (
    Seq<Point3>,
    Seq<FaceV>,
) {
    (a.0 + b.0, a.1 + shift_faces(b.1, a.0.len() as int))
}

/// Every index of every face, moved up by `n`, stays within `i64` and
/// `usize`.
pub open spec fn shift_fits(fs: Seq<FaceV>, n: int) -> bool {
    forall|f: int|
        0 <= f < fs.len() ==> (#[trigger] fs[f]).0 + n <= i64::MAX && fs[f].1 + n <= i64::MAX
            && fs[f].2 + n <= i64::MAX && fs[f].0 + n <= usize::MAX && fs[f].1 + n <= usize::MAX
            && fs[f].2 + n <= usize::MAX
}

/// Append the vertices and faces of `b` to `a`; the faces of `b` are moved
/// to the new place of its vertices.
pub fn its_merge(a: &mut IndexedTriangleSet, b: &IndexedTriangleSet)
    requires
        shift_fits(b@.1, old(a).vertices@.len() as int),
    ensures
        final(a)@ == merged(old(a)@, b@),
{
    let n = a.vertices.len();
    let mut i: usize = 0;
    while i < b.vertices.len()
        invariant
            i <= b.vertices@.len(),
            a.vertices@ == old(a).vertices@ + b.vertices@.take(i as int),
            a.indices@ == old(a).indices@,
            n == old(a).vertices@.len(),
        decreases b.vertices@.len() - i,
    {
        a.vertices.push(b.vertices[i]);
        assert(b.vertices@.take(i + 1) =~= b.vertices@.take(i as int).push(b.vertices@[i as int]));
        i += 1;
    }
    assert(b.vertices@.take(b.vertices@.len() as int) =~= b.vertices@);
    let mut k: usize = 0;
    while k < b.indices.len()
        invariant
            k <= b.indices@.len(),
            a.vertices@ == old(a).vertices@ + b.vertices@,
            n == old(a).vertices@.len(),
            shift_fits(b@.1, n as int),
            faces_view(a.indices@) == faces_view(old(a).indices@) + shift_faces(
                faces_view(b.indices@.take(k as int)),
                n as int,
            ),
        decreases b.indices@.len() - k,
    {
        let face = b.indices[k];
        let f0 = face[0];
        let f1 = face[1];
        let f2 = face[2];
        assert(b@.1[k as int] == (f0 as int, f1 as int, f2 as int));
        let ghost before = faces_view(a.indices@);
        a.indices.push([f0 + n, f1 + n, f2 + n]);
        assert(faces_view(a.indices@) =~= before.push((f0 + n, f1 + n, f2 + n)));
        assert(faces_view(b.indices@.take(k + 1)) =~= faces_view(b.indices@.take(k as int)).push(
            (f0 as int, f1 as int, f2 as int),
        ));
        k += 1;
    }
    assert(b.indices@.take(b.indices@.len() as int) =~= b.indices@);
}

/// The indices in `0..n` that `keep` holds, in increasing order.
pub open spec fn kept_indices(keep: spec_fn(int) -> bool, n: int) -> Seq<int>
    decreases n,
{
    if n <= 0 {
        Seq::empty()
    } else if keep(n - 1) {
        kept_indices(keep, n - 1).push(n - 1)
    } else {
        kept_indices(keep, n - 1)
    }
}

/// The new place of index `v` once only the kept indices stay: the number of
/// kept indices below it.
pub open spec fn kept_rank(keep: spec_fn(int) -> bool, v: int) -> int {
    kept_indices(keep, v).len() as int
}

/// The faces with every index moved to its place among the kept ones.
pub open spec fn remap_faces(fs: Seq<FaceV>, keep: spec_fn(int) -> bool) -> Seq<FaceV> {
    fs.map_values(|f: FaceV| (kept_rank(keep, f.0), kept_rank(keep, f.1), kept_rank(keep, f.2)))
}

/// The vertices at the kept indices, in order.
pub open spec fn kept_vertices(vs: Seq<Point3>, keep: spec_fn(int) -> bool) -> Seq<Point3> {
    kept_indices(keep, vs.len() as int).map_values(|u: int| vs[u])
}

pub proof fn lemma_kept_indices(keep: spec_fn(int) -> bool, m: int)
    requires
        0 <= m,
    ensures
        kept_indices(keep, m).len() <= m,
        forall|k: int|
            0 <= k < kept_indices(keep, m).len() ==> 0 <= #[trigger] kept_indices(keep, m)[k] < m
                && keep(kept_indices(keep, m)[k]),
        forall|v: int|
            0 <= v < m && #[trigger] keep(v) ==> kept_rank(keep, v) < kept_indices(keep, m).len()
                && kept_indices(keep, m)[kept_rank(keep, v)] == v,
        kept_indices(keep, m).len() == m ==> forall|v: int|
            0 <= v < m ==> #[trigger] keep(v) && kept_rank(keep, v) == v,
    decreases m,
{
    if m > 0 {
        lemma_kept_indices(keep, m - 1);
        let a = kept_indices(keep, m - 1);
        if keep(m - 1) {
            assert(kept_indices(keep, m) == a.push(m - 1));
            assert forall|k: int| 0 <= k < a.push(m - 1).len() implies 0 <= #[trigger] a.push(
                m - 1,
            )[k] < m && keep(a.push(m - 1)[k]) by {
                if k < a.len() {
                    assert(a.push(m - 1)[k] == a[k]);
                }
            }
            assert forall|v: int| 0 <= v < m && #[trigger] keep(v) implies kept_rank(keep, v)
                < a.push(m - 1).len() && a.push(m - 1)[kept_rank(keep, v)] == v by {
                if v < m - 1 {
                    assert(a.push(m - 1)[kept_rank(keep, v)] == a[kept_rank(keep, v)]);
                }
            }
        } else {
            assert(kept_indices(keep, m) == a);
        }
    }
}

proof fn lemma_kept_all(keep: spec_fn(int) -> bool, m: int)
    requires
        0 <= m,
        forall|v: int| 0 <= v < m ==> #[trigger] keep(v),
    ensures
        kept_indices(keep, m).len() == m,
    decreases m,
{
    if m > 0 {
        lemma_kept_all(keep, m - 1);
    }
}

proof fn lemma_kept_increasing(keep: spec_fn(int) -> bool, m: int)
    requires
        0 <= m,
    ensures
        forall|a: int, b: int|
            0 <= a < b < kept_indices(keep, m).len() ==> #[trigger] kept_indices(keep, m)[a]
                < #[trigger] kept_indices(keep, m)[b],
    decreases m,
{
    if m > 0 {
        lemma_kept_increasing(keep, m - 1);
        lemma_kept_indices(keep, m - 1);
        let t = kept_indices(keep, m - 1);
        if keep(m - 1) {
            assert forall|a: int, b: int| 0 <= a < b < t.push(m - 1).len() implies #[trigger] t.push(
                m - 1,
            )[a] < #[trigger] t.push(m - 1)[b] by {
                assert(t.push(m - 1)[a] == t[a]);
                if b < t.len() {
                    assert(t.push(m - 1)[b] == t[b]);
                }
            }
        }
    }
}

/// After merging, no two vertices hold the same point.
pub proof fn lemma_merged_vertices_distinct(vs: Seq<Point3>)
    ensures
        kept_vertices(vs, first_occurrences(vs)).no_duplicates(),
{
    let keep = first_occurrences(vs);
    let ki = kept_indices(keep, vs.len() as int);
    let kv = kept_vertices(vs, keep);
    lemma_kept_indices(keep, vs.len() as int);
    lemma_kept_increasing(keep, vs.len() as int);
    assert forall|a: int, b: int| 0 <= a < kv.len() && 0 <= b < kv.len() && a != b implies kv[a]
        != kv[b] by {
        let lo = if a < b { a } else { b };
        let hi = if a < b { b } else { a };
        let u = ki[lo];
        let w = ki[hi];
        assert(u < w);
        assert(keep(u) && keep(w));
        lemma_rep_index(vs, u);
        lemma_rep_index(vs, w);
        if vs[u] == vs[w] {
            assert(rep_index(vs, w) == rep_index(vs, u));
        }
    }
}

/// Vertex `v` is used by the face.
pub open spec fn face_uses(f: FaceV, v: int) -> bool {
    f.0 == v || f.1 == v || f.2 == v
}

/// Vertex `v` is used by one of the first `m` faces.
pub open spec fn used_in_first(fs: Seq<FaceV>, v: int, m: int) -> bool
    decreases m,
{
    if m <= 0 {
        false
    } else {
        used_in_first(fs, v, m - 1) || face_uses(fs[m - 1], v)
    }
}

/// Vertex `v` is used by some face.
pub open spec fn referenced(fs: Seq<FaceV>, v: int) -> bool {
    used_in_first(fs, v, fs.len() as int)
}

proof fn lemma_used_in_first(fs: Seq<FaceV>, v: int, g: int, m: int)
    requires
        0 <= g < m,
        face_uses(fs[g], v),
    ensures
        used_in_first(fs, v, m),
    decreases m,
{
    if g < m - 1 {
        lemma_used_in_first(fs, v, g, m - 1);
    }
}

/// The vertices that some face uses.
pub open spec fn used_by(fs: Seq<FaceV>) -> spec_fn(int) -> bool {
    |v: int| referenced(fs, v)
}

/// Every index of every face is a vertex of the set.
pub open spec fn faces_in_range(fs: Seq<FaceV>, n: int) -> bool {
    forall|f: int|
        0 <= f < fs.len() ==> 0 <= (#[trigger] fs[f]).0 < n && 0 <= fs[f].1 < n && 0 <= fs[f].2 < n
}

/// The faces with every index `v` replaced by `tgt(v)`.
pub open spec fn map_faces(fs: Seq<FaceV>, tgt: spec_fn(int) -> int) -> Seq<FaceV> {
    fs.map_values(|f: FaceV| (tgt(f.0), tgt(f.1), tgt(f.2)))
}

/// Replace every index of every face by its entry in `map`.
fn renumber_faces(indices: &mut Vec<[usize; 3]>, map: &Vec<i32>, Ghost(tgt): Ghost<spec_fn(int) -> int>)
    requires
        faces_in_range(faces_view(old(indices)@), map@.len() as int),
        forall|f: int, v: int|
            0 <= f < old(indices)@.len() && #[trigger] face_uses(face_view(old(indices)@[f]), v)
                ==> map@[v] == tgt(v) && tgt(v) >= 0,
    ensures
        faces_view(final(indices)@) == map_faces(faces_view(old(indices)@), tgt),
{
    let ghost fs = faces_view(indices@);
    let mut g: usize = 0;
    while g < indices.len()
        invariant
            g <= fs.len(),
            fs == faces_view(old(indices)@),
            indices@.len() == fs.len(),
            faces_in_range(fs, map@.len() as int),
            forall|f: int, v: int|
                0 <= f < old(indices)@.len() && #[trigger] face_uses(face_view(old(indices)@[f]), v)
                    ==> map@[v] == tgt(v) && tgt(v) >= 0,
            forall|k: int| 0 <= k < g ==> #[trigger] face_view(indices@[k]) == map_faces(fs, tgt)[k],
            forall|k: int| g <= k < fs.len() ==> #[trigger] indices@[k] == old(indices)@[k],
        decreases fs.len() - g,
    {
        let face = indices[g];
        assert(face == old(indices)@[g as int]);
        assert(fs[g as int] == face_view(face));
        assert(face_uses(face_view(old(indices)@[g as int]), face[0] as int));
        assert(face_uses(face_view(old(indices)@[g as int]), face[1] as int));
        assert(face_uses(face_view(old(indices)@[g as int]), face[2] as int));
        let m0 = map[face[0]];
        let m1 = map[face[1]];
        let m2 = map[face[2]];
        let ghost before = indices@;
        indices.set(g, [m0 as usize, m1 as usize, m2 as usize]);
        assert forall|k: int| 0 <= k < g + 1 implies #[trigger] face_view(indices@[k]) == map_faces(
            fs,
            tgt,
        )[k] by {
            if k < g {
                assert(indices@[k] == before[k]);
            }
        }
        assert forall|k: int| g + 1 <= k < fs.len() implies #[trigger] indices@[k] == old(
            indices,
        )@[k] by {
            assert(indices@[k] == before[k]);
        }
        g += 1;
    }
    assert(faces_view(indices@) =~= map_faces(fs, tgt));
}

/// Mark with 1 every vertex that a face uses, with 0 the others.
fn mark_used(its: &IndexedTriangleSet) -> (r: Vec<i32>)
    requires
        faces_in_range(its@.1, its.vertices@.len() as int),
    ensures
        r@.len() == its.vertices@.len(),
        forall|v: int|
            0 <= v < r@.len() ==> (#[trigger] r@[v] == 1 || r@[v] == 0) && (r@[v] == 1) == referenced(
                its@.1,
                v,
            ),
{
    let ghost fs = its@.1;
    let n = its.vertices.len();
    let mut vertex_map: Vec<i32> = vec![0i32; n];
    let mut f: usize = 0;
    while f < its.indices.len()
        invariant
            f <= fs.len(),
            fs == its@.1,
            n == its.vertices@.len(),
            faces_in_range(fs, n as int),
            vertex_map@.len() == n,
            forall|v: int|
                0 <= v < n ==> (#[trigger] vertex_map@[v] == 1 || vertex_map@[v] == 0) && (
                vertex_map@[v] == 1) == used_in_first(fs, v, f as int),
        decreases fs.len() - f,
    {
        let face = its.indices[f];
        assert(fs[f as int] == face_view(face));
        vertex_map.set(face[0], 1);
        vertex_map.set(face[1], 1);
        vertex_map.set(face[2], 1);
        f += 1;
    }
    vertex_map
}

/// Move the marked vertices (non-zero entries) to the front, in order, and
/// give each its new index in `map`; returns how many there are.
fn compact_marked(vertices: &mut Vec<Point3>, map: &mut Vec<i32>, Ghost(keep): Ghost<spec_fn(int) -> bool>) -> (r: i32)
    requires
        old(vertices)@.len() <= i32::MAX,
        old(map)@.len() == old(vertices)@.len(),
        forall|v: int| 0 <= v < old(map)@.len() ==> (#[trigger] old(map)@[v] != 0) == keep(v),
    ensures
        r == kept_indices(keep, old(vertices)@.len() as int).len(),
        final(vertices)@.len() == old(vertices)@.len(),
        final(vertices)@.take(r as int) == kept_vertices(old(vertices)@, keep),
        final(map)@.len() == old(map)@.len(),
        forall|v: int| 0 <= v < old(map)@.len() && keep(v) ==> #[trigger] final(map)@[v] == kept_rank(keep, v),
{
    let ghost ov = vertices@;
    let n = vertices.len();
    let mut last: i32 = 0;
    let mut i: usize = 0;
    while i < n
        invariant
            i <= n,
            n == ov.len(),
            n <= i32::MAX,
            map@.len() == n,
            vertices@.len() == n,
            last as int == kept_rank(keep, i as int),
            last <= i,
            forall|k: int|
                0 <= k < last ==> #[trigger] vertices@[k] == ov[kept_indices(keep, i as int)[k]],
            forall|k: int| i <= k < n ==> #[trigger] vertices@[k] == ov[k],
            forall|v: int| 0 <= v < i && keep(v) ==> #[trigger] map@[v] == kept_rank(keep, v),
            forall|v: int| i <= v < n ==> (#[trigger] map@[v] != 0) == keep(v),
        decreases n - i,
    {
        proof {
            lemma_kept_indices(keep, i as int);
        }
        if map[i] != 0 {
            if (last as usize) < i {
                let p = vertices[i];
                vertices.set(last as usize, p);
            }
            map.set(i, last);
            last = last + 1;
            assert(kept_indices(keep, i + 1) == kept_indices(keep, i as int).push(i as int));
        } else {
            assert(kept_indices(keep, i + 1) == kept_indices(keep, i as int));
        }
        i += 1;
    }
    proof {
        lemma_kept_indices(keep, n as int);
    }
    assert(vertices@.take(last as int) =~= kept_vertices(ov, keep));
    last
}

/// Every index of every face is used.
proof fn lemma_faces_used(fs: Seq<FaceV>)
    ensures
        forall|f: int|
            0 <= f < fs.len() ==> referenced(fs, (#[trigger] fs[f]).0) && referenced(fs, fs[f].1)
                && referenced(fs, fs[f].2),
{
    assert forall|f: int| 0 <= f < fs.len() implies referenced(fs, (#[trigger] fs[f]).0)
        && referenced(fs, fs[f].1) && referenced(fs, fs[f].2) by {
        lemma_used_in_first(fs, fs[f].0, f, fs.len() as int);
        lemma_used_in_first(fs, fs[f].1, f, fs.len() as int);
        lemma_used_in_first(fs, fs[f].2, f, fs.len() as int);
    }
}

/// Renumbering faces whose indices are all kept points them at the same
/// vertices among the kept ones.
proof fn lemma_remap_kept(ov: Seq<Point3>, fs: Seq<FaceV>, keep: spec_fn(int) -> bool)
    requires
        faces_in_range(fs, ov.len() as int),
        forall|f: int|
            0 <= f < fs.len() ==> keep((#[trigger] fs[f]).0) && keep(fs[f].1) && keep(fs[f].2),
    ensures
        faces_in_range(remap_faces(fs, keep), kept_vertices(ov, keep).len() as int),
        forall|f: int|
            0 <= f < fs.len() ==> kept_vertices(ov, keep)[(#[trigger] remap_faces(fs, keep)[f]).0]
                == ov[fs[f].0] && kept_vertices(ov, keep)[remap_faces(fs, keep)[f].1] == ov[fs[f].1]
                && kept_vertices(ov, keep)[remap_faces(fs, keep)[f].2] == ov[fs[f].2],
{
    lemma_kept_indices(keep, ov.len() as int);
    let g = remap_faces(fs, keep);
    assert forall|f: int| 0 <= f < fs.len() implies 0 <= (#[trigger] g[f]).0 < kept_vertices(
        ov,
        keep,
    ).len() && 0 <= g[f].1 < kept_vertices(ov, keep).len() && 0 <= g[f].2 < kept_vertices(
        ov,
        keep,
    ).len() && kept_vertices(ov, keep)[g[f].0] == ov[fs[f].0] && kept_vertices(ov, keep)[g[f].1]
        == ov[fs[f].1] && kept_vertices(ov, keep)[g[f].2] == ov[fs[f].2] by {
        assert(keep(fs[f].0) && keep(fs[f].1) && keep(fs[f].2));
    }
}

proof fn lemma_used_witness(fs: Seq<FaceV>, v: int, m: int)
    requires
        used_in_first(fs, v, m),
    ensures
        exists|f: int| 0 <= f < m && #[trigger] face_uses(fs[f], v),
    decreases m,
{
    if m > 0 && !face_uses(fs[m - 1], v) {
        lemma_used_witness(fs, v, m - 1);
    }
}

/// After compacting, every vertex left is used by a face.
pub proof fn lemma_compacted_all_used(vs: Seq<Point3>, fs: Seq<FaceV>)
    requires
        faces_in_range(fs, vs.len() as int),
    ensures
        forall|w: int|
            0 <= w < kept_vertices(vs, used_by(fs)).len() ==> #[trigger] referenced(
                remap_faces(fs, used_by(fs)),
                w,
            ),
{
    let keep = used_by(fs);
    let ki = kept_indices(keep, vs.len() as int);
    let g = remap_faces(fs, keep);
    lemma_kept_indices(keep, vs.len() as int);
    lemma_kept_increasing(keep, vs.len() as int);
    assert forall|w: int| 0 <= w < kept_vertices(vs, keep).len() implies #[trigger] referenced(g, w) by {
        let v = ki[w];
        assert(keep(v));
        lemma_used_witness(fs, v, fs.len() as int);
        let f = choose|f: int| 0 <= f < fs.len() && #[trigger] face_uses(fs[f], v);
        let r = kept_rank(keep, v);
        assert(ki[r] == v);
        if r < w {
            assert(ki[r] < ki[w]);
        }
        if w < r {
            assert(ki[w] < ki[r]);
        }
        assert(face_uses(g[f], w));
        lemma_used_in_first(g, w, f, g.len() as int);
    }
}

/// Drop the vertices that no face uses and renumber the faces; returns the
/// number of vertices dropped. Every face keeps its corner points.
#[verifier::spinoff_prover]
#[verifier::rlimit(80)]
pub fn its_compactify_vertices(its: &mut IndexedTriangleSet) -> (r: i32)
    requires
        old(its).vertices@.len() <= i32::MAX,
        faces_in_range(old(its)@.1, old(its).vertices@.len() as int),
    ensures
        final(its).vertices@ == kept_vertices(old(its).vertices@, used_by(old(its)@.1)),
        final(its)@.1 == remap_faces(old(its)@.1, used_by(old(its)@.1)),
        r == old(its).vertices@.len() - final(its).vertices@.len(),
        faces_in_range(final(its)@.1, final(its).vertices@.len() as int),
        forall|w: int| 0 <= w < final(its).vertices@.len() ==> #[trigger] referenced(final(its)@.1, w),
        forall|f: int|
            0 <= f < old(its)@.1.len() ==> final(its).vertices@[(#[trigger] final(its)@.1[f]).0]
                == old(its).vertices@[old(its)@.1[f].0] && final(its).vertices@[final(its)@.1[f].1]
                == old(its).vertices@[old(its)@.1[f].1] && final(its).vertices@[final(its)@.1[f].2]
                == old(its).vertices@[old(its)@.1[f].2],
{
    let ghost fs = its@.1;
    let ghost ov = its.vertices@;
    let ghost keep = used_by(fs);
    let n = its.vertices.len();
    let mut vertex_map = mark_used(its);
    let last = compact_marked(&mut its.vertices, &mut vertex_map, Ghost(keep));
    proof {
        lemma_kept_indices(keep, n as int);
        lemma_faces_used(fs);
        lemma_remap_kept(ov, fs, keep);
        lemma_compacted_all_used(ov, fs);
    }
    let removed: i32 = n as i32 - last;
    if removed != 0 {
        its.vertices.truncate(last as usize);
        let ghost tgt = |v: int| kept_rank(keep, v);
        assert forall|f: int, v: int|
            0 <= f < its.indices@.len() && #[trigger] face_uses(face_view(its.indices@[f]), v)
                implies vertex_map@[v] == tgt(v) && tgt(v) >= 0 by {
            assert(fs[f] == face_view(its.indices@[f]));
            assert(face_uses(fs[f], v));
            lemma_used_in_first(fs, v, f, fs.len() as int);
            assert(keep(v));
        }
        renumber_faces(&mut its.indices, &vertex_map, Ghost(tgt));
        assert(map_faces(fs, tgt) =~= remap_faces(fs, keep));
    } else {
        assert(its@.1 =~= remap_faces(fs, keep));
    }
    assert(its.vertices@ =~= kept_vertices(ov, keep));
    removed
}

/// Vertex index `i` comes before `j`: its point is lexicographically smaller
/// (x, then y, then z), or the points are equal and `i` is the smaller
/// index.
pub open spec fn vertex_before(vs: Seq<Point3>, i: int, j: int) -> bool {
    let l = vs[i];
    let r = vs[j];
    l.x < r.x || (l.x == r.x && (l.y < r.y || (l.y == r.y && (l.z < r.z || (l.z == r.z && i
        < j)))))
}

pub open spec fn vertex_le(vs: Seq<Point3>, i: int, j: int) -> bool {
    vertex_before(vs, i, j) || i == j
}

/// The vertex indices are in `vertex_before` order.
pub open spec fn sorted_vertices(vs: Seq<Point3>, s: Seq<usize>) -> bool {
    forall|a: int, b: int| 0 <= a < b < s.len() ==> vertex_le(vs, #[trigger] s[a] as int, #[trigger] s[b] as int)
}

pub open spec fn indices_below(s: Seq<usize>, n: int) -> bool {
    forall|k: int| 0 <= k < s.len() ==> #[trigger] s[k] < n
}

fn vertex_before_exec(vs: &Vec<Point3>, il: usize, ir: usize) -> (r: bool)
    requires
        il < vs@.len(),
        ir < vs@.len(),
    ensures
        r == vertex_before(vs@, il as int, ir as int),
{
    let l = vs[il];
    let r = vs[ir];
    l.x < r.x || (l.x == r.x && (l.y < r.y || (l.y == r.y && (l.z < r.z || (l.z == r.z && il
        < ir)))))
}

/// Merge two sorted runs of vertex indices.
fn merge_runs(vs: &Vec<Point3>, l: &Vec<usize>, r: &Vec<usize>) -> (out: Vec<usize>)
    requires
        indices_below(l@, vs@.len() as int),
        indices_below(r@, vs@.len() as int),
        sorted_vertices(vs@, l@),
        sorted_vertices(vs@, r@),
    ensures
        out@.to_multiset() == l@.to_multiset().add(r@.to_multiset()),
        out@.len() == l@.len() + r@.len(),
        indices_below(out@, vs@.len() as int),
        sorted_vertices(vs@, out@),
{
    broadcast use vstd::seq_lib::group_to_multiset_ensures;
    broadcast use vstd::multiset::group_multiset_axioms;

    let mut out: Vec<usize> = Vec::new();
    let mut i: usize = 0;
    let mut j: usize = 0;
    while i < l.len() || j < r.len()
        invariant
            i <= l@.len(),
            j <= r@.len(),
            indices_below(l@, vs@.len() as int),
            indices_below(r@, vs@.len() as int),
            sorted_vertices(vs@, l@),
            sorted_vertices(vs@, r@),
            out@.len() == i + j,
            out@.to_multiset() == l@.take(i as int).to_multiset().add(r@.take(j as int).to_multiset()),
            indices_below(out@, vs@.len() as int),
            sorted_vertices(vs@, out@),
            out@.len() > 0 && i < l@.len() ==> vertex_le(vs@, out@.last() as int, l@[i as int] as int),
            out@.len() > 0 && j < r@.len() ==> vertex_le(vs@, out@.last() as int, r@[j as int] as int),
        decreases l@.len() + r@.len() - i - j,
    {
        let ghost o = out@;
        let take_left = if i < l.len() && j < r.len() {
            !vertex_before_exec(vs, r[j], l[i])
        } else {
            i < l.len()
        };
        if take_left {
            let x = l[i];
            out.push(x);
            assert(l@.take(i + 1) =~= l@.take(i as int).push(x));
            assert(out@ =~= o.push(x));
            proof {
                vstd::seq_lib::to_multiset_build(o, x);
                vstd::seq_lib::to_multiset_build(l@.take(i as int), x);
            }
            assert(out@.to_multiset() =~= l@.take(i + 1).to_multiset().add(
                r@.take(j as int).to_multiset(),
            ));
            i += 1;
        } else {
            let x = r[j];
            out.push(x);
            assert(r@.take(j + 1) =~= r@.take(j as int).push(x));
            assert(out@ =~= o.push(x));
            proof {
                vstd::seq_lib::to_multiset_build(o, x);
                vstd::seq_lib::to_multiset_build(r@.take(j as int), x);
            }
            assert(out@.to_multiset() =~= l@.take(i as int).to_multiset().add(
                r@.take(j + 1).to_multiset(),
            ));
            j += 1;
        }
        assert(out@ == o.push(out@.last()));
        assert forall|a: int, b: int| 0 <= a < b < out@.len() implies vertex_le(
            vs@,
            #[trigger] out@[a] as int,
            #[trigger] out@[b] as int,
        ) by {
            if b == out@.len() - 1 && a < b {
                assert(out@[a] == o[a]);
                if a < o.len() - 1 {
                    assert(vertex_le(vs@, o[a] as int, o.last() as int));
                }
            } else {
                assert(out@[a] == o[a]);
                assert(out@[b] == o[b]);
            }
        }
        assert(i < l@.len() ==> vertex_le(vs@, out@.last() as int, l@[i as int] as int)) by {
            if i < l@.len() && take_left && i > 0 {
                assert(vertex_le(vs@, l@[i - 1] as int, l@[i as int] as int));
            }
        }
        assert(j < r@.len() ==> vertex_le(vs@, out@.last() as int, r@[j as int] as int)) by {
            if j < r@.len() && !take_left && j > 0 {
                assert(vertex_le(vs@, r@[j - 1] as int, r@[j as int] as int));
            }
        }
    }
    assert(l@.take(l@.len() as int) =~= l@);
    assert(r@.take(r@.len() as int) =~= r@);
    out
}

/// Sort vertex indices into `vertex_before` order.
fn sort_vertex_indices(vs: &Vec<Point3>, s: &Vec<usize>) -> (out: Vec<usize>)
    requires
        indices_below(s@, vs@.len() as int),
    ensures
        out@.to_multiset() == s@.to_multiset(),
        out@.len() == s@.len(),
        indices_below(out@, vs@.len() as int),
        sorted_vertices(vs@, out@),
    decreases s@.len(),
{
    broadcast use vstd::seq_lib::group_to_multiset_ensures;

    if s.len() <= 1 {
        let mut out: Vec<usize> = Vec::new();
        if s.len() == 1 {
            out.push(s[0]);
        }
        assert(out@ =~= s@);
        return out;
    }
    let mid = s.len() / 2;
    let mut left: Vec<usize> = Vec::new();
    let mut right: Vec<usize> = Vec::new();
    let mut k: usize = 0;
    while k < s.len()
        invariant
            k <= s@.len(),
            mid < s@.len(),
            k <= mid ==> left@ == s@.take(k as int) && right@.len() == 0,
            k > mid ==> left@ == s@.take(mid as int) && right@ == s@.subrange(mid as int, k as int),
        decreases s@.len() - k,
    {
        if k < mid {
            left.push(s[k]);
            assert(s@.take(k + 1) =~= s@.take(k as int).push(s@[k as int]));
        } else {
            right.push(s[k]);
            assert(s@.subrange(mid as int, k + 1) =~= s@.subrange(mid as int, k as int).push(
                s@[k as int],
            ));
        }
        k += 1;
    }
    assert(s@ =~= left@ + right@);
    let ls = sort_vertex_indices(vs, &left);
    let rs = sort_vertex_indices(vs, &right);
    proof {
        vstd::seq_lib::lemma_multiset_commutative(left@, right@);
    }
    merge_runs(vs, &ls, &rs)
}

/// The first index below `m` that holds the point `p`, or -1 when none does.
pub open spec fn first_index_of(vs: Seq<Point3>, p: Point3, m: int) -> int
    decreases m,
{
    if m <= 0 {
        -1
    } else {
        let f = first_index_of(vs, p, m - 1);
        if f >= 0 {
            f
        } else if vs[m - 1] == p {
            m - 1
        } else {
            -1
        }
    }
}

/// The lowest index holding the same point as vertex `v`.
pub open spec fn rep_index(vs: Seq<Point3>, v: int) -> int {
    first_index_of(vs, vs[v], v + 1)
}

/// The vertices that no lower index repeats.
pub open spec fn first_occurrences(vs: Seq<Point3>) -> spec_fn(int) -> bool {
    |v: int| rep_index(vs, v) == v
}

/// Where vertex `v` goes once coincident vertices are merged: the place of
/// its lowest copy among the first occurrences.
pub open spec fn merged_index(vs: Seq<Point3>) -> spec_fn(int) -> int {
    |v: int| kept_rank(first_occurrences(vs), rep_index(vs, v))
}

proof fn lemma_first_index_of(vs: Seq<Point3>, p: Point3, m: int)
    requires
        0 <= m <= vs.len(),
    ensures
        first_index_of(vs, p, m) == -1 ==> forall|u: int| 0 <= u < m ==> #[trigger] vs[u] != p,
        first_index_of(vs, p, m) != -1 ==> 0 <= first_index_of(vs, p, m) < m && vs[first_index_of(
            vs,
            p,
            m,
        )] == p && forall|u: int| 0 <= u < first_index_of(vs, p, m) ==> #[trigger] vs[u] != p,
    decreases m,
{
    if m > 0 {
        lemma_first_index_of(vs, p, m - 1);
    }
}

/// The lowest copy of a vertex: at or below it, holding the same point, and
/// nothing lower holds that point; vertices with the same point share it.
proof fn lemma_rep_index(vs: Seq<Point3>, v: int)
    requires
        0 <= v < vs.len(),
    ensures
        0 <= rep_index(vs, v) <= v,
        vs[rep_index(vs, v)] == vs[v],
        forall|u: int| 0 <= u < rep_index(vs, v) ==> #[trigger] vs[u] != vs[v],
        forall|w: int| 0 <= w < vs.len() && vs[w] == vs[v] ==> #[trigger] rep_index(vs, w) == rep_index(vs, v),
        rep_index(vs, rep_index(vs, v)) == rep_index(vs, v),
{
    lemma_first_index_of(vs, vs[v], v + 1);
    let r = rep_index(vs, v);
    assert forall|w: int| 0 <= w < vs.len() && vs[w] == vs[v] implies #[trigger] rep_index(vs, w)
        == r by {
        lemma_first_index_of(vs, vs[w], w + 1);
        let rw = rep_index(vs, w);
        if rw < r {
            assert(vs[rw] == vs[v]);
        }
        if r < rw {
            assert(vs[r] == vs[w]);
        }
    }
    lemma_first_index_of(vs, vs[r], r + 1);
}

/// In a sorted run, a vertex between two equal points holds that point too.
proof fn lemma_squeeze(vs: Seq<Point3>, s: Seq<usize>, a: int, b: int, c: int)
    requires
        sorted_vertices(vs, s),
        0 <= a < b < c < s.len(),
        vs[s[a] as int] == vs[s[c] as int],
    ensures
        vs[s[b] as int] == vs[s[a] as int],
{
    assert(vertex_le(vs, s[a] as int, s[b] as int));
    assert(vertex_le(vs, s[b] as int, s[c] as int));
}

/// For every vertex, -1 when it is the lowest copy of its point, else the
/// index of that lowest copy.
fn group_duplicates(vs: &Vec<Point3>, s: &Vec<usize>) -> (map: Vec<i32>)
    requires
        vs@.len() <= i32::MAX,
        s@.len() == vs@.len(),
        indices_below(s@, vs@.len() as int),
        sorted_vertices(vs@, s@),
        s@.no_duplicates(),
        forall|v: int| 0 <= v < vs@.len() ==> #[trigger] s@.contains(v as usize),
    ensures
        map@.len() == vs@.len(),
        forall|v: int|
            0 <= v < vs@.len() ==> #[trigger] map@[v] == (if rep_index(vs@, v) == v {
                -1
            } else {
                rep_index(vs@, v)
            }),
{
    let n = vs.len();
    let mut map: Vec<i32> = vec![-1i32; n];
    let mut i: usize = 0;
    while i < n
        invariant
            n == vs@.len(),
            n <= i32::MAX,
            s@.len() == n,
            map@.len() == n,
            i <= n,
            indices_below(s@, n as int),
            sorted_vertices(vs@, s@),
            s@.no_duplicates(),
            0 < i < n ==> vs@[s@[i - 1] as int] != vs@[s@[i as int] as int],
            forall|k: int|
                0 <= k < i ==> #[trigger] map@[s@[k] as int] == (if rep_index(vs@, s@[k] as int)
                    == s@[k] {
                    -1
                } else {
                    rep_index(vs@, s@[k] as int)
                }),
            forall|k: int| i <= k < n ==> #[trigger] map@[s@[k] as int] == -1,
            forall|v: int| 0 <= v < n ==> #[trigger] s@.contains(v as usize),
        decreases n - i,
    {
        let u = s[i];
        let p = vs[u];
        proof {
            lemma_rep_index(vs@, u as int);
            let w = rep_index(vs@, u as int);
            if w != u {
                assert(s@.contains(w as usize));
                let kw = choose|kw: int| 0 <= kw < s@.len() && s@[kw] == w as usize;
                if kw > i {
                    assert(vertex_le(vs@, s@[i as int] as int, s@[kw] as int));
                } else {
                    assert(kw < i);
                    if kw < i - 1 {
                        lemma_squeeze(vs@, s@, kw, i - 1, i as int);
                    }
                }
            }
        }
        let mut j: usize = i + 1;
        while j < n
            invariant
                n == vs@.len(),
                n <= i32::MAX,
                s@.len() == n,
                map@.len() == n,
                i < j <= n,
                u == s@[i as int],
                p == vs@[u as int],
                rep_index(vs@, u as int) == u,
                indices_below(s@, n as int),
                sorted_vertices(vs@, s@),
                s@.no_duplicates(),
                forall|k: int| i <= k < j ==> #[trigger] vs@[s@[k] as int] == p,
                forall|k: int|
                    0 <= k < j ==> #[trigger] map@[s@[k] as int] == (if rep_index(
                        vs@,
                        s@[k] as int,
                    ) == s@[k] {
                        -1
                    } else {
                        rep_index(vs@, s@[k] as int)
                    }),
                forall|k: int| j <= k < n ==> #[trigger] map@[s@[k] as int] == -1,
            ensures
                i < j <= n,
                j < n ==> vs@[s@[j as int] as int] != p,
                forall|k: int| i <= k < j ==> #[trigger] vs@[s@[k] as int] == p,
                forall|k: int|
                    0 <= k < j ==> #[trigger] map@[s@[k] as int] == (if rep_index(
                        vs@,
                        s@[k] as int,
                    ) == s@[k] {
                        -1
                    } else {
                        rep_index(vs@, s@[k] as int)
                    }),
                forall|k: int| j <= k < n ==> #[trigger] map@[s@[k] as int] == -1,
                map@.len() == n,
            decreases n - j,
        {
            let v = s[j];
            if vs[v] != p {
                break;
            }
            proof {
                lemma_rep_index(vs@, u as int);
                assert(s@[i as int] != s@[j as int]);
                assert(rep_index(vs@, v as int) == u);
            }
            let ghost before = map@;
            map.set(v, u as i32);
            assert forall|k: int| 0 <= k < n && k != j implies map@[s@[k] as int]
                == before[s@[k] as int] by {
                assert(s@[k] != s@[j as int]);
            }
            j += 1;
        }
        i = j;
    }
    assert forall|v: int| 0 <= v < n implies #[trigger] map@[v] == (if rep_index(vs@, v) == v {
        -1
    } else {
        rep_index(vs@, v)
    }) by {
        assert(s@.contains(v as usize));
        let k = choose|k: int| 0 <= k < s@.len() && s@[k] == v as usize;
        assert(map@[s@[k] as int] == map@[v]);
    }
    map
}

/// Move the first occurrences to the front, in order, and set every entry of
/// `map` to the merged index of its vertex; returns how many vertices stay.
fn compact_firsts(vertices: &mut Vec<Point3>, map: &mut Vec<i32>, Ghost(vs): Ghost<Seq<Point3>>) -> (r: i32)
    requires
        old(vertices)@ == vs,
        vs.len() <= i32::MAX,
        old(map)@.len() == vs.len(),
        forall|v: int|
            0 <= v < vs.len() ==> #[trigger] old(map)@[v] == (if rep_index(vs, v) == v {
                -1
            } else {
                rep_index(vs, v)
            }),
    ensures
        r == kept_indices(first_occurrences(vs), vs.len() as int).len(),
        final(vertices)@.len() == vs.len(),
        final(vertices)@.take(r as int) == kept_vertices(vs, first_occurrences(vs)),
        final(map)@.len() == vs.len(),
        forall|v: int| 0 <= v < vs.len() ==> #[trigger] final(map)@[v] == (merged_index(vs))(v),
{
    let ghost keep = first_occurrences(vs);
    let n = vertices.len();
    let mut k: i32 = 0;
    let mut i: usize = 0;
    while i < n
        invariant
            i <= n,
            n == vs.len(),
            n <= i32::MAX,
            map@.len() == n,
            vertices@.len() == n,
            keep == first_occurrences(vs),
            k as int == kept_rank(keep, i as int),
            k <= i,
            forall|q: int|
                0 <= q < k ==> #[trigger] vertices@[q] == vs[kept_indices(keep, i as int)[q]],
            forall|q: int| i <= q < n ==> #[trigger] vertices@[q] == vs[q],
            forall|v: int| 0 <= v < i ==> #[trigger] map@[v] == kept_rank(keep, rep_index(vs, v)),
            forall|v: int|
                i <= v < n ==> #[trigger] map@[v] == (if rep_index(vs, v) == v {
                    -1
                } else {
                    rep_index(vs, v)
                }),
        decreases n - i,
    {
        proof {
            lemma_kept_indices(keep, i as int);
            lemma_rep_index(vs, i as int);
        }
        let m = map[i];
        if m == -1 {
            assert(keep(i as int));
            map.set(i, k);
            if (k as usize) < i {
                let p = vertices[i];
                vertices.set(k as usize, p);
            }
            k = k + 1;
            assert(kept_indices(keep, i + 1) == kept_indices(keep, i as int).push(i as int));
        } else {
            let target = map[m as usize];
            proof {
                lemma_rep_index(vs, m as int);
            }
            map.set(i, target);
            assert(!keep(i as int));
            assert(kept_indices(keep, i + 1) == kept_indices(keep, i as int));
        }
        i += 1;
    }
    proof {
        lemma_kept_indices(keep, n as int);
    }
    assert(vertices@.take(k as int) =~= kept_vertices(vs, keep));
    k
}

/// No two vertices hold the same point exactly when every vertex is the
/// first occurrence of its point.
proof fn lemma_no_duplicates_all_first(vs: Seq<Point3>)
    ensures
        vs.no_duplicates() <==> kept_indices(first_occurrences(vs), vs.len() as int).len()
            == vs.len(),
{
    let keep = first_occurrences(vs);
    lemma_kept_indices(keep, vs.len() as int);
    if vs.no_duplicates() {
        assert forall|v: int| 0 <= v < vs.len() implies #[trigger] keep(v) by {
            lemma_rep_index(vs, v);
        }
        lemma_kept_all(keep, vs.len() as int);
    } else {
        let (i, j) = choose|i: int, j: int|
            0 <= i < vs.len() && 0 <= j < vs.len() && i != j && vs[i] == vs[j];
        let hi = if i < j {
            j
        } else {
            i
        };
        let lo = if i < j {
            i
        } else {
            j
        };
        lemma_rep_index(vs, hi);
        assert(vs[lo] == vs[hi]);
        assert(!keep(hi));
    }
}

/// Merge vertices holding the same point into the lowest of them, drop the
/// others and renumber the faces; returns the number of vertices dropped.
/// The faces are renumbered only when some vertex was dropped.
pub fn its_merge_vertices(its: &mut IndexedTriangleSet) -> (r: i32)
    requires
        old(its).vertices@.len() <= i32::MAX,
        !old(its).vertices@.no_duplicates() ==> faces_in_range(
            old(its)@.1,
            old(its).vertices@.len() as int,
        ),
    ensures
        final(its).vertices@ == kept_vertices(
            old(its).vertices@,
            first_occurrences(old(its).vertices@),
        ),
        final(its)@.1 == (if old(its).vertices@.no_duplicates() {
            old(its)@.1
        } else {
            map_faces(old(its)@.1, merged_index(old(its).vertices@))
        }),
        r == old(its).vertices@.len() - final(its).vertices@.len(),
        final(its).vertices@.no_duplicates(),
        faces_in_range(old(its)@.1, old(its).vertices@.len() as int) ==> faces_in_range(
            final(its)@.1,
            final(its).vertices@.len() as int,
        ),
        faces_in_range(old(its)@.1, old(its).vertices@.len() as int) ==> forall|f: int|
            0 <= f < old(its)@.1.len() ==> final(its).vertices@[(#[trigger] final(its)@.1[f]).0]
                == old(its).vertices@[old(its)@.1[f].0] && final(its).vertices@[final(its)@.1[f].1]
                == old(its).vertices@[old(its)@.1[f].1] && final(its).vertices@[final(its)@.1[f].2]
                == old(its).vertices@[old(its)@.1[f].2],
{
    broadcast use vstd::seq_lib::group_to_multiset_ensures;

    let ghost vs = its.vertices@;
    let ghost fs = its@.1;
    let ghost keep = first_occurrences(vs);
    let n = its.vertices.len();
    let mut idx: Vec<usize> = Vec::new();
    let mut i: usize = 0;
    while i < n
        invariant
            i <= n,
            n == vs.len(),
            idx@ == Seq::new(i as nat, |q: int| q as usize),
        decreases n - i,
    {
        idx.push(i);
        assert(idx@ =~= Seq::new((i + 1) as nat, |q: int| q as usize));
        i += 1;
    }
    let sorted = sort_vertex_indices(&its.vertices, &idx);
    proof {
        assert(idx@.no_duplicates());
        idx@.lemma_multiset_has_no_duplicates();
        assert forall|x: usize| sorted@.to_multiset().contains(x) implies sorted@.to_multiset().count(
            x,
        ) == 1 by {}
        sorted@.lemma_multiset_has_no_duplicates_conv();
        assert forall|v: int| 0 <= v < n implies #[trigger] sorted@.contains(v as usize) by {
            assert(idx@[v] == v as usize);
            assert(idx@.contains(v as usize));
            assert(idx@.to_multiset().count(v as usize) > 0);
            assert(sorted@.to_multiset().count(v as usize) > 0);
        }
    }
    let mut map = group_duplicates(&its.vertices, &sorted);
    let k = compact_firsts(&mut its.vertices, &mut map, Ghost(vs));
    proof {
        lemma_no_duplicates_all_first(vs);
        lemma_kept_indices(keep, n as int);
        lemma_merged_vertices_distinct(vs);
    }
    let num_erased: i32 = n as i32 - k;
    if num_erased != 0 {
        its.vertices.truncate(k as usize);
        assert forall|f: int, v: int|
            0 <= f < its.indices@.len() && #[trigger] face_uses(face_view(its.indices@[f]), v)
                implies map@[v] == (merged_index(vs))(v) && (merged_index(vs))(v) >= 0 by {
            assert(fs[f] == face_view(its.indices@[f]));
        }
        renumber_faces(&mut its.indices, &map, Ghost(merged_index(vs)));
    } else {
        assert(its.vertices@ =~= its.vertices@.take(k as int));
    }
    proof {
        if faces_in_range(fs, n as int) {
            assert forall|f: int| 0 <= f < fs.len() implies 0 <= (#[trigger] its@.1[f]).0
                < its.vertices@.len() && 0 <= its@.1[f].1 < its.vertices@.len() && 0 <= its@.1[f].2
                < its.vertices@.len() && its.vertices@[its@.1[f].0] == vs[fs[f].0]
                && its.vertices@[its@.1[f].1] == vs[fs[f].1] && its.vertices@[its@.1[f].2]
                == vs[fs[f].2] by {
                lemma_merged_slot(vs, fs[f].0);
                lemma_merged_slot(vs, fs[f].1);
                lemma_merged_slot(vs, fs[f].2);
            }
        }
    }
    num_erased
}

/// A vertex's merged index is a slot of the merged vertices holding the
/// same point; with no duplicates it is the vertex's own index.
proof fn lemma_merged_slot(vs: Seq<Point3>, v: int)
    requires
        0 <= v < vs.len(),
    ensures
        0 <= (merged_index(vs))(v) < kept_vertices(vs, first_occurrences(vs)).len(),
        kept_vertices(vs, first_occurrences(vs))[(merged_index(vs))(v)] == vs[v],
        vs.no_duplicates() ==> (merged_index(vs))(v) == v,
{
    let keep = first_occurrences(vs);
    lemma_rep_index(vs, v);
    lemma_kept_indices(keep, vs.len() as int);
    let r = rep_index(vs, v);
    assert(keep(r));
    if vs.no_duplicates() {
        lemma_no_duplicates_all_first(vs);
    }
}

/// Two corners of the face are the same vertex.
pub open spec fn face_degenerate(f: FaceV) -> bool {
    f.0 == f.1 || f.0 == f.2 || f.1 == f.2
}

pub open spec fn not_degenerate() -> spec_fn(FaceV) -> bool {
    |f: FaceV| !face_degenerate(f)
}

/// Drop the faces with a repeated corner, keeping the order of the others;
/// returns how many were dropped.
pub fn its_remove_degenerate_faces(its: &mut IndexedTriangleSet) -> (r: i32)
    requires
        old(its).indices@.len() <= i32::MAX,
    ensures
        final(its).vertices@ == old(its).vertices@,
        final(its)@.1 == old(its)@.1.filter(not_degenerate()),
        forall|f: int| 0 <= f < final(its)@.1.len() ==> !face_degenerate(#[trigger] final(its)@.1[f]),
        r == old(its).indices@.len() - final(its).indices@.len(),
{
    let ghost fs = its@.1;
    let before = its.indices.len();
    let mut kept: Vec<[usize; 3]> = Vec::new();
    let mut i: usize = 0;
    while i < before
        invariant
            i <= before,
            before == fs.len(),
            its@.1 == fs,
            faces_view(kept@) == fs.take(i as int).filter(not_degenerate()),
            kept@.len() <= i,
        decreases before - i,
    {
        let face = its.indices[i];
        proof {
            reveal(Seq::filter);
            assert(fs.take(i + 1).drop_last() =~= fs.take(i as int));
            assert(fs.take(i + 1).last() == face_view(face));
        }
        if !(face[0] == face[1] || face[0] == face[2] || face[1] == face[2]) {
            let ghost k0 = faces_view(kept@);
            kept.push(face);
            assert(faces_view(kept@) =~= k0.push(face_view(face)));
        }
        proof {
            fs.take(i + 1).lemma_filter_len(not_degenerate());
        }
        i += 1;
    }
    assert(fs.take(before as int) =~= fs);
    its.indices = kept;
    assert forall|f: int| 0 <= f < its@.1.len() implies !face_degenerate(#[trigger] its@.1[f]) by {
        fs.lemma_filter_pred(not_degenerate(), f);
    }
    let removed = (before - its.indices.len()) as i32;
    removed
}

/// The faces made for a run of `m` new vertices starting at `offs`: one face
/// per three vertices, the last one reaching past the run when `m` is not a
/// multiple of three.
pub open spec fn triple_faces(offs: int, m: int) -> Seq<FaceV> {
    Seq::new(((m + 2) / 3) as nat, |k: int| (offs + 3 * k, offs + 3 * k + 1, offs + 3 * k + 2))
}

/// Append loose triangles, three vertices each, with a face for every three.
pub fn its_merge_triangles(a: &mut IndexedTriangleSet, triangles: &Vec<Point3>)
    requires
        old(a).vertices@.len() + triangles@.len() + 2 <= usize::MAX,
    ensures
        final(a).vertices@ == old(a).vertices@ + triangles@,
        final(a)@.1 == old(a)@.1 + triple_faces(
            old(a).vertices@.len() as int,
            triangles@.len() as int,
        ),
{
    let offs = a.vertices.len();
    let mut t: usize = 0;
    while t < triangles.len()
        invariant
            t <= triangles@.len(),
            a.vertices@ == old(a).vertices@ + triangles@.take(t as int),
            a.indices@ == old(a).indices@,
            offs == old(a).vertices@.len(),
        decreases triangles@.len() - t,
    {
        a.vertices.push(triangles[t]);
        assert(triangles@.take(t + 1) =~= triangles@.take(t as int).push(triangles@[t as int]));
        t += 1;
    }
    assert(triangles@.take(triangles@.len() as int) =~= triangles@);
    let ghost m = triangles@.len() as int;
    let mut i: usize = offs;
    let ghost mut cnt: int = 0;
    while i < a.vertices.len()
        invariant
            a.vertices@ == old(a).vertices@ + triangles@,
            m == triangles@.len(),
            offs == old(a).vertices@.len(),
            offs + m + 2 <= usize::MAX,
            0 <= cnt,
            i == offs + 3 * cnt,
            cnt == 0 || i - 3 < offs + m,
            a@.1 == old(a)@.1 + Seq::new(cnt as nat, |k: int| (offs + 3 * k, offs + 3 * k + 1, offs + 3 * k + 2)),
        decreases offs + m + 3 - i,
    {
        let ghost f0 = a@.1;
        a.indices.push([i, i + 1, i + 2]);
        assert(a@.1 =~= f0.push((i as int, i + 1, i + 2)));
        proof {
            cnt = cnt + 1;
        }
        assert(a@.1 =~= old(a)@.1 + Seq::new(cnt as nat, |k: int| (offs + 3 * k, offs + 3 * k + 1, offs + 3 * k + 2)));
        i += 3;
    }
    assert(cnt == (m + 2) / 3);
    assert(a@.1 =~= old(a)@.1 + triple_faces(offs as int, m));
}

/// The points of a ring at height `z`.
pub open spec fn at_height(s: Seq<Point>, z: int) -> Seq<Point3> {
    s.map_values(|p: Point| Point3 { x: p.x, y: p.y, z: z as i64 })
}

/// Face `k` of the wall over a ring of `n` points: two faces per edge, the
/// lower ring first and the upper ring after it.
pub open spec fn strip_face(n: int, k: int) -> FaceV {
    let i = k / 2 + 1;
    if k == 2 * n - 2 {
        (n - 1, 0, 2 * n - 1)
    } else if k == 2 * n - 1 {
        (0, n, 2 * n - 1)
    } else if k % 2 == 0 {
        (i - 1, i, i + n - 1)
    } else {
        (i, i + n, i + n - 1)
    }
}

/// The wall between a ring at height `lo` and the same ring at height `hi`.
pub open spec fn wall_strip_spec(s: Seq<Point>, lo: int, hi: int) -> (Seq<Point3>, Seq<FaceV>) {
    (
        at_height(s, lo) + at_height(s, hi),
        Seq::new((2 * s.len()) as nat, |k: int| strip_face(s.len() as int, k)),
    )
}

/// The vertical wall of a ring between two heights: the ring at `lower_z`,
/// then at `upper_z`, and two triangles over each edge.
pub fn wall_strip(poly: &Polygon, lower_z: i64, upper_z: i64) -> (r: IndexedTriangleSet)
    requires
        poly.points@.len() > 0,
        2 * poly.points@.len() <= usize::MAX,
    ensures
        r@ == wall_strip_spec(poly.points@, lower_z as int, upper_z as int),
{
    let mut ret = IndexedTriangleSet::new();
    let startidx = ret.vertices.len();
    let offs = poly.points.len();
    let ghost s = poly.points@;
    let mut i: usize = 0;
    while i < offs
        invariant
            i <= offs,
            offs == s.len(),
            s == poly.points@,
            ret.vertices@ == at_height(s.take(i as int), lower_z as int),
            ret.indices@.len() == 0,
        decreases offs - i,
    {
        let p = poly.points[i];
        ret.vertices.push(Point3 { x: p.x, y: p.y, z: lower_z });
        assert(at_height(s.take(i + 1), lower_z as int) =~= at_height(s.take(i as int), lower_z as int).push(Point3 { x: p.x, y: p.y, z: lower_z }));
        i += 1;
    }
    let mut i: usize = 0;
    while i < offs
        invariant
            i <= offs,
            offs == s.len(),
            s == poly.points@,
            ret.vertices@ == at_height(s, lower_z as int) + at_height(s.take(i as int), upper_z as int),
            ret.indices@.len() == 0,
        decreases offs - i,
    {
        let p = poly.points[i];
        ret.vertices.push(Point3 { x: p.x, y: p.y, z: upper_z });
        assert(at_height(s.take(i + 1), upper_z as int) =~= at_height(s.take(i as int), upper_z as int).push(Point3 { x: p.x, y: p.y, z: upper_z }));
        i += 1;
    }
    assert(s.take(offs as int) =~= s);
    assert(at_height(s.take(offs as int), upper_z as int) =~= at_height(s, upper_z as int));
    let ghost n = offs as int;
    let mut i: usize = startidx + 1;
    while i < startidx + offs
        invariant
            startidx == 0,
            1 <= i <= offs,
            n == offs,
            2 * offs <= usize::MAX,
            ret.vertices@ == at_height(s, lower_z as int) + at_height(s, upper_z as int),
            ret@.1 == Seq::new((2 * (i - 1)) as nat, |k: int| strip_face(n, k)),
        decreases offs - i,
    {
        let ghost f0 = ret@.1;
        ret.indices.push([i - 1, i, i + offs - 1]);
        ret.indices.push([i, i + offs, i + offs - 1]);
        assert(ret@.1 =~= f0.push((i - 1, i as int, i + offs - 1)).push((i as int, i + offs, i + offs - 1)));
        assert(strip_face(n, 2 * i - 2) == (i - 1, i as int, i + n - 1));
        assert(strip_face(n, 2 * i - 1) == (i as int, i + n, i + n - 1));
        assert(ret@.1 =~= Seq::new((2 * i) as nat, |k: int| strip_face(n, k)));
        i += 1;
    }
    let ghost f0 = ret@.1;
    ret.indices.push([startidx + offs - 1, startidx, startidx + 2 * offs - 1]);
    ret.indices.push([startidx, startidx + offs, startidx + 2 * offs - 1]);
    assert(ret@.1 =~= f0.push((n - 1, 0, 2 * n - 1)).push((0, n, 2 * n - 1)));
    assert(ret@.1 =~= Seq::new((2 * n) as nat, |k: int| strip_face(n, k)));
    ret
}

/// The walls of an expolygon between two heights: the contour's wall, then
/// the wall of each hole.
pub open spec fn walls_with_holes(c: Seq<Point>, holes: Seq<Seq<Point>>, lo: int, hi: int) -> (
    Seq<Point3>,
    Seq<FaceV>,
)
    decreases holes.len(),
{
    if holes.len() == 0 {
        wall_strip_spec(c, lo, hi)
    } else {
        merged(walls_with_holes(c, holes.drop_last(), lo, hi), wall_strip_spec(holes.last(), lo, hi))
    }
}

/// The walls of every expolygon of a slice, in order.
pub open spec fn slice_walls(es: Seq<ExPolyView>, lo: int, hi: int) -> (Seq<Point3>, Seq<FaceV>)
    decreases es.len(),
{
    if es.len() == 0 {
        (Seq::empty(), Seq::empty())
    } else {
        merged(slice_walls(es.drop_last(), lo, hi), walls_with_holes(es.last().0, es.last().1, lo, hi))
    }
}

/// The number of points of the rings.
pub open spec fn rings_points(hs: Seq<Seq<Point>>) -> int
    decreases hs.len(),
{
    if hs.len() == 0 {
        0
    } else {
        rings_points(hs.drop_last()) + hs.last().len()
    }
}

/// The number of points of the contours and holes of a slice.
pub open spec fn slice_points(es: Seq<ExPolyView>) -> int
    decreases es.len(),
{
    if es.len() == 0 {
        0
    } else {
        slice_points(es.drop_last()) + es.last().0.len() + rings_points(es.last().1)
    }
}

/// Every ring of the expolygon has a point.
pub open spec fn rings_nonempty(e: ExPolyView) -> bool {
    e.0.len() > 0 && forall|h: int| 0 <= h < e.1.len() ==> (#[trigger] e.1[h]).len() > 0
}

/// A count of vertices that any face index of a wall can be moved by.
pub open spec fn wall_count_ok(n: int) -> bool {
    n <= i64::MAX && n <= usize::MAX
}

proof fn lemma_strip_in_range(s: Seq<Point>, lo: int, hi: int)
    requires
        s.len() > 0,
    ensures
        faces_in_range(wall_strip_spec(s, lo, hi).1, 2 * s.len() as int),
        wall_strip_spec(s, lo, hi).0.len() == 2 * s.len(),
{
    let n = s.len() as int;
    let fs = wall_strip_spec(s, lo, hi).1;
    assert forall|f: int| 0 <= f < fs.len() implies 0 <= (#[trigger] fs[f]).0 < 2 * n && 0
        <= fs[f].1 < 2 * n && 0 <= fs[f].2 < 2 * n by {
        assert(fs[f] == strip_face(n, f));
    }
}

proof fn lemma_merged_in_range(a: (Seq<Point3>, Seq<FaceV>), b: (Seq<Point3>, Seq<FaceV>))
    requires
        faces_in_range(a.1, a.0.len() as int),
        faces_in_range(b.1, b.0.len() as int),
    ensures
        faces_in_range(merged(a, b).1, (a.0.len() + b.0.len()) as int),
        merged(a, b).0.len() == a.0.len() + b.0.len(),
{
    let m = merged(a, b).1;
    assert forall|f: int| 0 <= f < m.len() implies 0 <= (#[trigger] m[f]).0 < a.0.len()
        + b.0.len() && 0 <= m[f].1 < a.0.len() + b.0.len() && 0 <= m[f].2 < a.0.len()
        + b.0.len() by {
        if f >= a.1.len() {
            assert(m[f] == shift_faces(b.1, a.0.len() as int)[f - a.1.len()]);
        }
    }
}

proof fn lemma_shift_fits(fs: Seq<FaceV>, count: int, n: int)
    requires
        faces_in_range(fs, count),
        0 <= n,
        wall_count_ok(n + count),
    ensures
        shift_fits(fs, n),
{
}

/// The walls of a ring: the same as `wall_strip`.
pub fn straight_walls_polygon(plate: &Polygon, lo_z: i64, hi_z: i64) -> (r: IndexedTriangleSet)
    requires
        plate.points@.len() > 0,
        2 * plate.points@.len() <= usize::MAX,
    ensures
        r@ == wall_strip_spec(plate.points@, lo_z as int, hi_z as int),
{
    wall_strip(plate, lo_z, hi_z)
}

/// The walls of an expolygon: its contour's wall merged with its holes'
/// walls.
pub fn straight_walls_expolygon(plate: &ExPolygon, lo_z: i64, hi_z: i64) -> (r: IndexedTriangleSet)
    requires
        rings_nonempty(expoly_view(*plate)),
        wall_count_ok(2 * (plate.contour.points@.len() + rings_points(expoly_view(*plate).1))),
    ensures
        r@ == walls_with_holes(expoly_view(*plate).0, expoly_view(*plate).1, lo_z as int, hi_z as int),
        r.vertices@.len() == 2 * (plate.contour.points@.len() + rings_points(expoly_view(*plate).1)),
        faces_in_range(r@.1, r.vertices@.len() as int),
{
    let ghost c = plate.contour.points@;
    let ghost hs = expoly_view(*plate).1;
    proof {
        lemma_rings_points_prefix(hs);
        assert(hs.take(hs.len() as int) =~= hs);
    }
    let mut ret = wall_strip(&plate.contour, lo_z, hi_z);
    proof {
        lemma_strip_in_range(c, lo_z as int, hi_z as int);
    }
    let mut h: usize = 0;
    while h < plate.holes.len()
        invariant
            h <= hs.len(),
            hs == expoly_view(*plate).1,
            c == plate.contour.points@,
            rings_nonempty(expoly_view(*plate)),
            wall_count_ok(2 * (c.len() + rings_points(hs))),
            forall|k: int| 0 <= k <= hs.len() ==> 0 <= #[trigger] rings_points(hs.take(k)) <= rings_points(hs),
            ret@ == walls_with_holes(c, hs.take(h as int), lo_z as int, hi_z as int),
            ret.vertices@.len() == 2 * (c.len() + rings_points(hs.take(h as int))),
            faces_in_range(ret@.1, ret.vertices@.len() as int),
        decreases hs.len() - h,
    {
        assert(hs[h as int] == plate.holes@[h as int].points@);
        assert(hs[h as int].len() > 0);
        assert(hs.take(h + 1).drop_last() =~= hs.take(h as int));
        assert(hs.take(h + 1).last() == hs[h as int]);
        assert(rings_points(hs.take(h + 1)) == rings_points(hs.take(h as int)) + hs[h as int].len());
        assert(rings_points(hs.take(h + 1)) <= rings_points(hs));
        let w = wall_strip(&plate.holes[h], lo_z, hi_z);
        proof {
            lemma_strip_in_range(hs[h as int], lo_z as int, hi_z as int);
            lemma_shift_fits(w@.1, w.vertices@.len() as int, ret.vertices@.len() as int);
            lemma_merged_in_range(ret@, w@);
        }
        its_merge(&mut ret, &w);
        h += 1;
    }
    assert(hs.take(hs.len() as int) =~= hs);
    ret
}

proof fn lemma_rings_points_prefix(hs: Seq<Seq<Point>>)
    ensures
        forall|k: int| 0 <= k <= hs.len() ==> 0 <= #[trigger] rings_points(hs.take(k)) <= rings_points(hs),
    decreases hs.len(),
{
    if hs.len() > 0 {
        let t = hs.drop_last();
        lemma_rings_points_prefix(t);
        assert(rings_points(hs) == rings_points(t) + hs.last().len());
        assert forall|k: int| 0 <= k <= hs.len() implies 0 <= #[trigger] rings_points(hs.take(k))
            <= rings_points(hs) by {
            if k < hs.len() {
                assert(hs.take(k) =~= t.take(k));
                assert(rings_points(hs.take(k)) == rings_points(t.take(k)));
                assert(0 <= rings_points(t.take(k)) <= rings_points(t));
            } else {
                assert(hs.take(k) =~= hs);
                assert(t.take(t.len() as int) =~= t);
            }
        }
    }
}

proof fn lemma_slice_points_prefix(es: Seq<ExPolyView>)
    ensures
        forall|k: int| 0 <= k <= es.len() ==> 0 <= #[trigger] slice_points(es.take(k)) <= slice_points(es),
    decreases es.len(),
{
    if es.len() > 0 {
        let t = es.drop_last();
        lemma_slice_points_prefix(t);
        lemma_rings_points_prefix(es.last().1);
        assert(es.last().1.take(es.last().1.len() as int) =~= es.last().1);
        assert(slice_points(es) == slice_points(t) + es.last().0.len() + rings_points(es.last().1));
        assert forall|k: int| 0 <= k <= es.len() implies 0 <= #[trigger] slice_points(es.take(k))
            <= slice_points(es) by {
            if k < es.len() {
                assert(es.take(k) =~= t.take(k));
                assert(slice_points(es.take(k)) == slice_points(t.take(k)));
                assert(0 <= slice_points(t.take(k)) <= slice_points(t));
            } else {
                assert(es.take(k) =~= es);
                assert(t.take(t.len() as int) =~= t);
            }
        }
    }
}

/// The walls of every expolygon of a slice, merged in order.
pub fn straight_walls(slice: &Vec<ExPolygon>, lo_z: i64, hi_z: i64) -> (r: IndexedTriangleSet)
    requires
        forall|i: int| 0 <= i < slice@.len() ==> rings_nonempty(expoly_view(#[trigger] slice@[i])),
        wall_count_ok(2 * slice_points(expolys_view(slice@))),
    ensures
        r@ == slice_walls(expolys_view(slice@), lo_z as int, hi_z as int),
{
    let ghost es = expolys_view(slice@);
    proof {
        lemma_slice_points_prefix(es);
    }
    let mut ret = IndexedTriangleSet::new();
    let mut i: usize = 0;
    while i < slice.len()
        invariant
            i <= es.len(),
            es == expolys_view(slice@),
            forall|k: int| 0 <= k < slice@.len() ==> rings_nonempty(expoly_view(#[trigger] slice@[k])),
            wall_count_ok(2 * slice_points(es)),
            forall|k: int| 0 <= k <= es.len() ==> 0 <= #[trigger] slice_points(es.take(k)) <= slice_points(es),
            ret@ == slice_walls(es.take(i as int), lo_z as int, hi_z as int),
            ret.vertices@.len() == 2 * slice_points(es.take(i as int)),
            faces_in_range(ret@.1, ret.vertices@.len() as int),
        decreases es.len() - i,
    {
        assert(es[i as int] == expoly_view(slice@[i as int]));
        assert(es.take(i + 1).drop_last() =~= es.take(i as int));
        assert(es.take(i + 1).last() == es[i as int]);
        assert(slice_points(es.take(i + 1)) == slice_points(es.take(i as int)) + es[i as int].0.len()
            + rings_points(es[i as int].1));
        assert(slice_points(es.take(i + 1)) <= slice_points(es));
        assert(0 <= slice_points(es.take(i as int)));
        proof {
            lemma_rings_points_prefix(es[i as int].1);
            assert(es[i as int].1.take(es[i as int].1.len() as int) =~= es[i as int].1);
        }
        let w = straight_walls_expolygon(&slice[i], lo_z, hi_z);
        proof {
            lemma_shift_fits(w@.1, w.vertices@.len() as int, ret.vertices@.len() as int);
            lemma_merged_in_range(ret@, w@);
        }
        its_merge(&mut ret, &w);
        i += 1;
    }
    assert(es.take(es.len() as int) =~= es);
    ret
}

} // verus!
