//! The slicing engine: from a triangle mesh to a stack of layers.
use vstd::prelude::*;
use crate::geometry::{Coord, ExPolygon, Point3, coord_ok, expolys_view, tdiv, COORD_LIMIT};
use crate::layer::{Layer, LayerRegion, Surface, SurfaceType};
use crate::slicing::{SlicingParams, default_slicing_params};
use crate::triangle_mesh::{
    Triangle, TriangleMesh, mesh_wf, z_extent, min_z, max_z, point3_ok, lemma_z_extent_bounds,
    triangle_in,
};
use crate::triangle_mesh_slicer::{slice_mesh, slice_mesh_at_z, expolys_are_cuts, is_cross_section};

verus! {

/// Why a mesh could not be sliced.
#[derive(Clone, Copy, Debug, PartialEq, Eq, Structural)]
pub enum Error {
    /// The mesh has no facets.
    EmptyMesh,
    /// The mesh has no vertices to bound.
    NoBoundingBox,
    /// The mesh is flat: its top is not above its bottom.
    ZeroHeight,
    /// No layer could be placed.
    NoLayers,
}

/// A step of slicing reported to the caller while it runs.
#[derive(Clone, Copy, Debug, PartialEq, Eq, Structural)]
pub enum SliceProgress {
    /// The layer heights are known.
    HeightsComputed,
    /// The mesh has been cut at every layer height.
    MeshSliced,
    /// Layer `index` of `total` has been assembled (reported for every
    /// tenth layer).
    LayerBuilt { index: usize, total: usize },
    /// Every layer has been assembled.
    LayersBuilt,
    /// Slicing is finished.
    Finished,
}

/// The z extent of one layer and the height it is cut at.
#[derive(Clone, Copy, Debug, PartialEq, Eq, Structural)]
pub struct LayerHeight {
    pub bottom_z: Coord,
    pub top_z: Coord,
    pub slice_z: Coord,
}

/// The slicing engine.
#[derive(Debug)]
pub struct Slicer {
    params: SlicingParams,
    /// Contour simplification resolution. Kept for callers; slicing does not
    /// simplify contours, whatever its value.
    slice_resolution: Coord,
    /// The XY offset subtracted from the mesh before it is cut.
    slice_center_offset: (Coord, Coord),
    /// Morphological closing radius. Kept for callers; slicing does not apply
    /// it: the cross-sections are the assembled rings as they are.
    slice_closing_radius: Coord,
}

/// The layers above the first one, from `print_z` up: each regular layer is
/// placed while both its middle and a minimum-height layer's middle would
/// lie below the object's top.
pub open spec fn layers_above(print_z: int, max_z: int, lh: int, minh: int) -> Seq<LayerHeight>
    decreases (if max_z > print_z {
        max_z - print_z
    } else {
        0
    }),
{
    if lh > 0 && print_z + tdiv(minh, 2) < max_z && print_z + tdiv(lh, 2) < max_z {
        seq![
            LayerHeight {
                bottom_z: print_z as i64,
                top_z: (print_z + lh) as i64,
                slice_z: (print_z + tdiv(lh, 2)) as i64,
            },
        ] + layers_above(print_z + lh, max_z, lh, minh)
    } else {
        Seq::empty()
    }
}

/// The layer stack of an object spanning `[min_z, max_z]`: a first layer of
/// the first-layer height, then regular layers.
pub open spec fn layer_heights_spec(p: SlicingParams, min_z: int, max_z: int) -> Seq<LayerHeight> {
    seq![
        LayerHeight {
            bottom_z: min_z as i64,
            top_z: (min_z + p.first_print_layer_height) as i64,
            slice_z: (min_z + tdiv(p.first_print_layer_height as int, 2)) as i64,
        },
    ] + layers_above(
        min_z + p.first_print_layer_height,
        max_z,
        p.layer_height as int,
        p.min_layer_height as int,
    )
}

/// Layer heights the engine can work with without overflow or endless
/// layering: a positive regular height and bounded heights.
pub open spec fn params_ok(p: SlicingParams) -> bool {
    &&& 0 < p.layer_height <= COORD_LIMIT
    &&& coord_ok(p.first_print_layer_height as int)
    &&& coord_ok(p.min_layer_height as int)
}

/// The mesh's vertices moved by `(-dx, -dy)`.
pub open spec fn shifted(vs: Seq<Point3>, dx: int, dy: int) -> Seq<Point3> {
    vs.map_values(|p: Point3| Point3 { x: (p.x - dx) as i64, y: (p.y - dy) as i64, z: p.z })
}

/// Layers that follow each other are stacked without gaps: each layer starts
/// where the one below ends.
pub proof fn lemma_layers_contiguous(p: SlicingParams, min_z: int, max_z: int, i: int)
    requires
        params_ok(p),
        coord_ok(min_z),
        coord_ok(max_z),
        1 <= i < layer_heights_spec(p, min_z, max_z).len(),
    ensures
        layer_heights_spec(p, min_z, max_z)[i].bottom_z == layer_heights_spec(p, min_z, max_z)[i
            - 1].top_z,
{
    lemma_layers_above_props(
        min_z + p.first_print_layer_height,
        max_z,
        p.layer_height as int,
        p.min_layer_height as int,
    );
    let rest = layers_above(
        min_z + p.first_print_layer_height,
        max_z,
        p.layer_height as int,
        p.min_layer_height as int,
    );
    if i == 1 {
        assert(rest[0].bottom_z == min_z + p.first_print_layer_height);
    } else {
        assert(layer_heights_spec(p, min_z, max_z)[i] == rest[i - 1]);
        assert(layer_heights_spec(p, min_z, max_z)[i - 1] == rest[i - 2]);
    }
}

/// The shape of the layer stack: the first layer runs from the object's
/// bottom up by the first-layer height and is cut at its middle (rounded
/// towards the bottom); every layer above it is one regular layer height
/// thick, starts where the one below ends, is cut at its middle (rounded
/// down), and starts below the object's top.
pub proof fn lemma_layer_stack_shape(p: SlicingParams, min_z: int, max_z: int)
    requires
        params_ok(p),
        coord_ok(min_z),
        coord_ok(max_z),
    ensures
        ({
            let s = layer_heights_spec(p, min_z, max_z);
            &&& s.len() >= 1
            &&& s[0].bottom_z == min_z
            &&& s[0].top_z == min_z + p.first_print_layer_height
            &&& s[0].slice_z == min_z + tdiv(p.first_print_layer_height as int, 2)
            &&& forall|k: int|
                1 <= k < s.len() ==> (#[trigger] s[k]).bottom_z == s[k - 1].top_z && s[k].top_z
                    - s[k].bottom_z == p.layer_height && 2 * (s[k].slice_z - s[k].bottom_z)
                    <= p.layer_height && p.layer_height <= 2 * (s[k].slice_z - s[k].bottom_z) + 1
                    && s[k].bottom_z < max_z
        }),
{
    let s = layer_heights_spec(p, min_z, max_z);
    let first = p.first_print_layer_height as int;
    lemma_layers_above_props(min_z + first, max_z, p.layer_height as int, p.min_layer_height as int);
    assert(s[0].top_z == min_z + first);
    assert forall|k: int|
        1 <= k < s.len() implies (#[trigger] s[k]).bottom_z == s[k - 1].top_z && s[k].top_z
            - s[k].bottom_z == p.layer_height && 2 * (s[k].slice_z - s[k].bottom_z) <= p.layer_height
            && p.layer_height <= 2 * (s[k].slice_z - s[k].bottom_z) + 1 && s[k].bottom_z < max_z by {
        lemma_layers_contiguous(p, min_z, max_z, k);
        let rest = layers_above(min_z + first, max_z, p.layer_height as int, p.min_layer_height as int);
        assert(s[k] == rest[k - 1]);
    }
}

proof fn lemma_layers_above_props(print_z: int, max_z: int, lh: int, minh: int)
    requires
        -2 * COORD_LIMIT <= print_z <= 2 * COORD_LIMIT,
        coord_ok(max_z),
        0 < lh <= COORD_LIMIT,
        coord_ok(minh),
    ensures
        ({
            let s = layers_above(print_z, max_z, lh, minh);
            &&& s.len() > 0 ==> s[0].bottom_z == print_z
            &&& forall|k: int|
                1 <= k < s.len() ==> (#[trigger] s[k]).bottom_z == s[k - 1].top_z
            &&& forall|k: int|
                0 <= k < s.len() ==> (#[trigger] s[k]).top_z == s[k].bottom_z + lh
                    && s[k].slice_z == s[k].bottom_z + tdiv(lh, 2) && s[k].bottom_z < max_z
                    && s[k].bottom_z >= print_z
        }),
    decreases (if max_z > print_z {
        max_z - print_z
    } else {
        0
    }),
{
    if lh > 0 && print_z + tdiv(minh, 2) < max_z && print_z + tdiv(lh, 2) < max_z {
        lemma_layers_above_props(print_z + lh, max_z, lh, minh);
        let s = layers_above(print_z, max_z, lh, minh);
        let t = layers_above(print_z + lh, max_z, lh, minh);
        assert(s == seq![
            LayerHeight {
                bottom_z: print_z as i64,
                top_z: (print_z + lh) as i64,
                slice_z: (print_z + tdiv(lh, 2)) as i64,
            },
        ] + t);
        assert forall|k: int| 1 <= k < s.len() implies (#[trigger] s[k]).bottom_z == s[k - 1].top_z by {
            assert(s[k] == t[k - 1]);
            if k >= 2 {
                assert(s[k - 1] == t[k - 2]);
            }
        }
        assert forall|k: int| 0 <= k < s.len() implies (#[trigger] s[k]).top_z == s[k].bottom_z
            + lh && s[k].slice_z == s[k].bottom_z + tdiv(lh, 2) && s[k].bottom_z < max_z
            && s[k].bottom_z >= print_z by {
            if k >= 1 {
                assert(s[k] == t[k - 1]);
            }
        }
    }
}

impl Slicer {
    /// A slicer with the given parameters, no simplification, no closing and
    /// no center offset.
    pub fn new(params: SlicingParams) -> (r: Slicer)
        ensures
            r.spec_params() == params,
            r.spec_slice_resolution() == 0,
            r.spec_slice_center_offset() == (0i64, 0i64),
            r.spec_slice_closing_radius() == 0,
    {
        Slicer { params, slice_resolution: 0, slice_center_offset: (0, 0), slice_closing_radius: 0 }
    }

    pub closed spec fn spec_params(&self) -> SlicingParams {
        self.params
    }

    pub closed spec fn spec_slice_resolution(&self) -> Coord {
        self.slice_resolution
    }

    pub closed spec fn spec_slice_center_offset(&self) -> (Coord, Coord) {
        self.slice_center_offset
    }

    pub closed spec fn spec_slice_closing_radius(&self) -> Coord {
        self.slice_closing_radius
    }

    /// Set the contour simplification resolution. It is stored only: slicing
    /// ignores it.
    pub fn set_slice_resolution(&mut self, resolution: Coord)
        ensures
            final(self).spec_slice_resolution() == resolution,
            final(self).spec_params() == old(self).spec_params(),
            final(self).spec_slice_center_offset() == old(self).spec_slice_center_offset(),
            final(self).spec_slice_closing_radius() == old(self).spec_slice_closing_radius(),
    {
        self.slice_resolution = resolution;
    }

    /// Set the morphological closing radius. It is stored only: slicing
    /// ignores it.
    pub fn set_slice_closing_radius(&mut self, closing_radius: Coord)
        ensures
            final(self).spec_slice_closing_radius() == closing_radius,
            final(self).spec_params() == old(self).spec_params(),
            final(self).spec_slice_center_offset() == old(self).spec_slice_center_offset(),
            final(self).spec_slice_resolution() == old(self).spec_slice_resolution(),
    {
        self.slice_closing_radius = closing_radius;
    }

    /// Set the XY offset subtracted from the mesh before it is cut (by
    /// `slice`, `slice_with_callback` and `slice_at_z` alike).
    pub fn set_slice_center_offset(&mut self, cx: Coord, cy: Coord)
        ensures
            final(self).spec_slice_center_offset() == (cx, cy),
            final(self).spec_params() == old(self).spec_params(),
            final(self).spec_slice_resolution() == old(self).spec_slice_resolution(),
            final(self).spec_slice_closing_radius() == old(self).spec_slice_closing_radius(),
    {
        self.slice_center_offset = (cx, cy);
    }

    /// A slicer with the default parameters.
    pub fn with_defaults() -> (r: Slicer)
        ensures
            r.spec_params() == default_slicing_params(),
            r.spec_slice_resolution() == 0,
            r.spec_slice_center_offset() == (0i64, 0i64),
            r.spec_slice_closing_radius() == 0,
    {
        Self::new(SlicingParams::default())
    }

    /// The slicing parameters.
    pub fn params(&self) -> (r: &SlicingParams)
        ensures
            *r == self.spec_params(),
    {
        &self.params
    }

    /// Mutable access to the slicing parameters.
    pub fn params_mut(&mut self) -> (r: &mut SlicingParams)
        ensures
            *r == old(self).spec_params(),
            final(self).spec_params() == *final(r),
            final(self).spec_slice_resolution() == old(self).spec_slice_resolution(),
            final(self).spec_slice_center_offset() == old(self).spec_slice_center_offset(),
            final(self).spec_slice_closing_radius() == old(self).spec_slice_closing_radius(),
    {
        &mut self.params
    }

    /// The layer stack for a mesh: an error when the mesh has no vertices or
    /// is flat, otherwise `layer_heights_spec` over its z extent.
    pub fn compute_layer_heights(&self, mesh: &TriangleMesh) -> (r: Result<Vec<LayerHeight>, Error>)
        requires
            mesh_wf(mesh.vertices@, mesh.triangles@),
            params_ok(self.spec_params()),
        ensures
            match r {
                Err(e) => {
                    ||| (e == Error::NoBoundingBox && z_extent(mesh.vertices@) is None)
                    ||| (e == Error::ZeroHeight && (z_extent(mesh.vertices@) matches Some(
                        (lo, hi),
                    ) && hi <= lo))
                },
                Ok(hs) => (z_extent(mesh.vertices@) matches Some((lo, hi)) && lo < hi && hs@
                    == layer_heights_spec(self.spec_params(), lo, hi) && hs@.len() >= 1
                    && hs@[0].bottom_z == lo && hs@[0].top_z == lo
                    + self.spec_params().first_print_layer_height && forall|k: int|
                    1 <= k < hs@.len() ==> (#[trigger] hs@[k]).bottom_z == hs@[k - 1].top_z
                        && hs@[k].top_z - hs@[k].bottom_z == self.spec_params().layer_height),
            },
    {
        let range = mesh.z_range();
        let (min_z, max_z) = match range {
            None => {
                return Err(Error::NoBoundingBox);
            },
            Some(r) => r,
        };
        proof {
            lemma_z_extent_bounds(mesh.vertices@);
        }
        let object_height = max_z - min_z;
        if object_height <= 0 {
            return Err(Error::ZeroHeight);
        }
        let first_layer_height = self.params.first_print_layer_height;
        let layer_height = self.params.layer_height;
        let min_layer_height = self.params.min_layer_height;
        let half_first = if first_layer_height >= 0 {
            first_layer_height / 2
        } else {
            -((-first_layer_height) / 2)
        };
        let half_layer = layer_height / 2;
        let half_min = if min_layer_height >= 0 {
            min_layer_height / 2
        } else {
            -((-min_layer_height) / 2)
        };
        let mut heights: Vec<LayerHeight> = Vec::new();
        let mut print_z = min_z + first_layer_height;
        heights.push(
            LayerHeight { bottom_z: min_z, top_z: print_z, slice_z: min_z + half_first },
        );
        let ghost total = layer_heights_spec(self.spec_params(), min_z as int, max_z as int);
        assert(total == heights@ + layers_above(
            print_z as int,
            max_z as int,
            layer_height as int,
            min_layer_height as int,
        ));
        let mut slice_z = print_z + half_min;
        while slice_z < min_z + object_height
            invariant
                coord_ok(min_z as int),
                coord_ok(max_z as int),
                min_z + object_height == max_z,
                0 < layer_height <= COORD_LIMIT,
                coord_ok(min_layer_height as int),
                half_layer == tdiv(layer_height as int, 2),
                half_min == tdiv(min_layer_height as int, 2),
                -2 * COORD_LIMIT <= print_z <= 2 * COORD_LIMIT,
                slice_z == print_z + half_min,
                total == heights@ + layers_above(
                    print_z as int,
                    max_z as int,
                    layer_height as int,
                    min_layer_height as int,
                ),
            ensures
                print_z + half_min >= max_z || print_z + half_layer >= max_z,
                total == heights@ + layers_above(
                    print_z as int,
                    max_z as int,
                    layer_height as int,
                    min_layer_height as int,
                ),
            decreases max_z + layer_height - print_z,
        {
            let height = layer_height;
            let mid = print_z + half_layer;
            if mid >= min_z + object_height {
                break;
            }
            let bottom_z = print_z;
            print_z = print_z + height;
            let ghost prev = heights@;
            heights.push(LayerHeight { bottom_z, top_z: print_z, slice_z: mid });
            assert(heights@ == prev + seq![
                LayerHeight { bottom_z, top_z: print_z, slice_z: mid },
            ]);
            assert(total == heights@ + layers_above(
                print_z as int,
                max_z as int,
                layer_height as int,
                min_layer_height as int,
            ));
            slice_z = print_z + half_min;
        }
        assert(layers_above(
            print_z as int,
            max_z as int,
            layer_height as int,
            min_layer_height as int,
        ) =~= Seq::<LayerHeight>::empty());
        assert(heights@ =~= total);
        proof {
            lemma_layer_stack_shape(self.spec_params(), min_z as int, max_z as int);
        }
        Ok(heights)
    }

    /// The mesh the engine cuts: the input moved by the center offset,
    /// within the coordinate limits.
    pub open spec fn mesh_ok(&self, mesh: &TriangleMesh) -> bool {
        &&& mesh_wf(mesh.vertices@, mesh.triangles@)
        &&& coord_ok(self.spec_slice_center_offset().0 as int)
        &&& coord_ok(self.spec_slice_center_offset().1 as int)
        &&& mesh_wf(
            shifted(
                mesh.vertices@,
                self.spec_slice_center_offset().0 as int,
                self.spec_slice_center_offset().1 as int,
            ),
            mesh.triangles@,
        )
    }

    /// Whether the engine can slice the mesh: valid facets, the parameters
    /// and every vertex, before and after the center offset, within the
    /// coordinate limits.
    pub fn accepts(&self, mesh: &TriangleMesh) -> (r: bool)
        ensures
            r == (self.mesh_ok(mesh) && params_ok(self.spec_params())),
    {
        let p = self.params;
        if !(0 < p.layer_height && p.layer_height <= COORD_LIMIT && -COORD_LIMIT
            <= p.first_print_layer_height && p.first_print_layer_height <= COORD_LIMIT
            && -COORD_LIMIT <= p.min_layer_height && p.min_layer_height <= COORD_LIMIT) {
            return false;
        }
        let (dx, dy) = self.slice_center_offset;
        if !(-COORD_LIMIT <= dx && dx <= COORD_LIMIT && -COORD_LIMIT <= dy && dy <= COORD_LIMIT) {
            return false;
        }
        let n = mesh.vertices.len();
        if n > 0xffff_ffff {
            return false;
        }
        let ghost sv = shifted(mesh.vertices@, dx as int, dy as int);
        let mut i: usize = 0;
        while i < n
            invariant
                i <= n,
                n == mesh.vertices@.len(),
                sv == shifted(mesh.vertices@, dx as int, dy as int),
                (dx, dy) == self.spec_slice_center_offset(),
                coord_ok(dx as int),
                coord_ok(dy as int),
                forall|k: int| 0 <= k < i ==> #[trigger] point3_ok(mesh.vertices@[k]),
                forall|k: int| 0 <= k < i ==> #[trigger] point3_ok(sv[k]),
            decreases n - i,
        {
            let v = mesh.vertices[i];
            if !(-COORD_LIMIT <= v.x && v.x <= COORD_LIMIT && -COORD_LIMIT <= v.y && v.y
                <= COORD_LIMIT && -COORD_LIMIT <= v.z && v.z <= COORD_LIMIT) {
                assert(!point3_ok(mesh.vertices@[i as int]));
                return false;
            }
            let sx = v.x - dx;
            let sy = v.y - dy;
            assert(sv[i as int] == Point3 { x: sx, y: sy, z: v.z });
            if !(-COORD_LIMIT <= sx && sx <= COORD_LIMIT && -COORD_LIMIT <= sy && sy <= COORD_LIMIT) {
                assert(!point3_ok(sv[i as int]));
                return false;
            }
            assert(point3_ok(mesh.vertices@[i as int]) && point3_ok(sv[i as int]));
            i += 1;
        }
        let m = mesh.triangles.len();
        let mut t: usize = 0;
        while t < m
            invariant
                t <= m,
                m == mesh.triangles@.len(),
                n == mesh.vertices@.len(),
                n <= u32::MAX,
                sv == shifted(mesh.vertices@, dx as int, dy as int),
                (dx, dy) == self.spec_slice_center_offset(),
                forall|k: int| 0 <= k < n ==> #[trigger] point3_ok(mesh.vertices@[k]),
                forall|k: int| 0 <= k < n ==> #[trigger] point3_ok(sv[k]),
                forall|k: int| 0 <= k < t ==> #[trigger] triangle_in(mesh.triangles@[k], n as nat),
            decreases m - t,
        {
            let tr = mesh.triangles[t];
            if !((tr.a as usize) < n && (tr.b as usize) < n && (tr.c as usize) < n) {
                assert(!triangle_in(mesh.triangles@[t as int], n as nat));
                return false;
            }
            t += 1;
        }
        assert(sv.len() == n);
        true
    }

    /// A copy of the mesh moved by the center offset.
    fn centered_mesh(&self, mesh: &TriangleMesh) -> (r: TriangleMesh)
        requires
            self.mesh_ok(mesh),
        ensures
            r.vertices@ == shifted(
                mesh.vertices@,
                self.spec_slice_center_offset().0 as int,
                self.spec_slice_center_offset().1 as int,
            ),
            r.triangles@ == mesh.triangles@,
    {
        let (dx, dy) = self.slice_center_offset;
        let mut vs: Vec<Point3> = Vec::new();
        let mut i: usize = 0;
        while i < mesh.vertices.len()
            invariant
                i <= mesh.vertices@.len(),
                mesh_wf(mesh.vertices@, mesh.triangles@),
                coord_ok(dx as int),
                coord_ok(dy as int),
                vs@ == shifted(mesh.vertices@.take(i as int), dx as int, dy as int),
            decreases mesh.vertices@.len() - i,
        {
            let p = mesh.vertices[i];
            assert(point3_ok(mesh.vertices@[i as int]));
            vs.push(Point3 { x: p.x - dx, y: p.y - dy, z: p.z });
            assert(mesh.vertices@.take(i as int + 1) =~= mesh.vertices@.take(i as int).push(p));
            assert(vs@ =~= shifted(mesh.vertices@.take(i as int + 1), dx as int, dy as int));
            i += 1;
        }
        assert(mesh.vertices@.take(mesh.vertices@.len() as int) =~= mesh.vertices@);
        TriangleMesh { vertices: vs, triangles: mesh.triangles.clone() }
    }

    /// What slicing the mesh gives: an error for a mesh without facets or a
    /// flat one; otherwise the layer stack of `compute_layer_heights` over the
    /// mesh moved by the center offset, each layer holding one region whose
    /// internal surfaces are the cross-section at the layer's slice height.
    pub open spec fn slice_outcome(&self, mesh: &TriangleMesh, r: Result<Vec<Layer>, Error>) -> bool {
        match r {
            Err(e) => {
                ||| (e == Error::EmptyMesh && mesh.triangles@.len() == 0)
                ||| (e == Error::ZeroHeight && mesh.triangles@.len() > 0 && (z_extent(
                    mesh.vertices@,
                ) matches Some((lo, hi)) && hi <= lo))
            },
            Ok(layers) => mesh.triangles@.len() > 0 && (z_extent(mesh.vertices@) matches Some(
                (lo, hi),
            ) && lo < hi && layers_match(
                layers@,
                layer_heights_spec(self.spec_params(), lo, hi),
                shifted(
                    mesh.vertices@,
                    self.spec_slice_center_offset().0 as int,
                    self.spec_slice_center_offset().1 as int,
                ),
                mesh.triangles@,
            )),
        }
    }

    /// Slice a mesh into layers (see `slice_outcome`).
    pub fn slice(&self, mesh: &TriangleMesh) -> (r: Result<Vec<Layer>, Error>)
        requires
            self.mesh_ok(mesh),
            params_ok(self.spec_params()),
        ensures
            self.slice_outcome(mesh, r),
    {
        self.slice_with_callback(mesh, |p: SliceProgress| {})
    }

    /// Slice a mesh into layers (see `slice_outcome`), reporting each step to
    /// `callback`: the heights, the cut, every tenth layer, the assembled
    /// layers and the end.
    pub fn slice_with_callback<F: Fn(SliceProgress)>(&self, mesh: &TriangleMesh, callback: F) -> (r:
        Result<Vec<Layer>, Error>)
        requires
            self.mesh_ok(mesh),
            params_ok(self.spec_params()),
            forall|p: SliceProgress| callback.requires((p,)),
        ensures
            self.slice_outcome(mesh, r),
    {
        if mesh.is_empty() {
            return Err(Error::EmptyMesh);
        }
        let cm = self.centered_mesh(mesh);
        proof {
            assert(triangle_in(mesh.triangles@[0], mesh.vertices@.len()));
            lemma_shift_z_extent(
                mesh.vertices@,
                self.spec_slice_center_offset().0 as int,
                self.spec_slice_center_offset().1 as int,
            );
        }
        let z_heights = match self.compute_layer_heights(&cm) {
            Ok(h) => h,
            Err(e) => {
                return Err(e);
            },
        };
        if z_heights.len() == 0 {
            return Err(Error::NoLayers);
        }
        callback(SliceProgress::HeightsComputed);
        let ghost range = z_extent(cm.vertices@);
        proof {
            lemma_z_extent_bounds(cm.vertices@);
            let (lo, hi) = range.unwrap();
            lemma_layer_heights_bounded(self.spec_params(), lo, hi);
        }
        let mut slice_zs: Vec<Coord> = Vec::new();
        let mut i: usize = 0;
        while i < z_heights.len()
            invariant
                i <= z_heights@.len(),
                slice_zs@.len() == i,
                forall|k: int| 0 <= k < i ==> slice_zs@[k] == #[trigger] z_heights@[k].slice_z,
            decreases z_heights@.len() - i,
        {
            slice_zs.push(z_heights[i].slice_z);
            i += 1;
        }
        let sliced = slice_mesh(&cm, &slice_zs);
        callback(SliceProgress::MeshSliced);
        let layers = build_layers(&z_heights, sliced, Ghost(cm.vertices@), Ghost(cm.triangles@), &callback);
        callback(SliceProgress::Finished);
        Ok(layers)
    }

    /// The cross-section of the mesh, moved by the center offset, at height
    /// `z`; an error for a mesh without facets.
    pub fn slice_at_z(&self, mesh: &TriangleMesh, z: Coord) -> (r: Result<Vec<ExPolygon>, Error>)
        requires
            self.mesh_ok(mesh),
        ensures
            match r {
                Err(e) => e == Error::EmptyMesh && mesh.triangles@.len() == 0,
                Ok(es) => mesh.triangles@.len() > 0 && is_cross_section(
                    shifted(
                        mesh.vertices@,
                        self.spec_slice_center_offset().0 as int,
                        self.spec_slice_center_offset().1 as int,
                    ),
                    mesh.triangles@,
                    z as int,
                    expolys_view(es@),
                ) && expolys_are_cuts(
                    shifted(
                        mesh.vertices@,
                        self.spec_slice_center_offset().0 as int,
                        self.spec_slice_center_offset().1 as int,
                    ),
                    z as int,
                    es@,
                ),
            },
    {
        if mesh.is_empty() {
            return Err(Error::EmptyMesh);
        }
        let cm = self.centered_mesh(mesh);
        Ok(slice_mesh_at_z(&cm, z))
    }
}

impl Default for Slicer {
    /// A slicer with the default parameters.
    fn default() -> (r: Slicer)
        ensures
            r.spec_params() == default_slicing_params(),
            r.spec_slice_resolution() == 0,
            r.spec_slice_center_offset() == (0i64, 0i64),
            r.spec_slice_closing_radius() == 0,
    {
        Self::with_defaults()
    }
}

/// The ways the layer stack and its layers belong together: ids in order,
/// heights from the layer stack, neighbour links, and one region whose
/// internal surfaces are the cross-section of the mesh at the layer's slice
/// height.
pub open spec fn layer_matches(
    l: Layer,
    i: int,
    n: int,
    h: LayerHeight,
    vs: Seq<Point3>,
    ts: Seq<Triangle>,
) -> bool {
    &&& l.id == i
    &&& l.height == h.top_z - h.bottom_z
    &&& l.print_z == h.top_z
    &&& l.slice_z == h.slice_z
    &&& l.lower_layer == (if i > 0 {
        Some((i - 1) as usize)
    } else {
        None
    })
    &&& l.upper_layer == (if i + 1 < n {
        Some((i + 1) as usize)
    } else {
        None
    })
    &&& l.regions@.len() == 1
    &&& l.regions@[0].layer_id == i
    &&& l.regions@[0].region_id == 0
    &&& forall|k: int|
        0 <= k < l.regions@[0].slices@.len() ==> (#[trigger] l.regions@[0].slices@[k]).surface_type
            == SurfaceType::Internal
    &&& is_cross_section(
        vs,
        ts,
        h.slice_z as int,
        expolys_view(l.regions@[0].slices@.map_values(|s: Surface| s.expolygon)),
    )
    &&& expolys_are_cuts(
        vs,
        h.slice_z as int,
        l.regions@[0].slices@.map_values(|s: Surface| s.expolygon),
    )
}

pub open spec fn layers_match(
    ls: Seq<Layer>,
    hs: Seq<LayerHeight>,
    vs: Seq<Point3>,
    ts: Seq<Triangle>,
) -> bool {
    &&& ls.len() == hs.len()
    &&& forall|i: int|
        0 <= i < ls.len() ==> layer_matches(#[trigger] ls[i], i, ls.len() as int, hs[i], vs, ts)
}

/// Moving a mesh horizontally keeps its z extent.
proof fn lemma_shift_z_extent(vs: Seq<Point3>, dx: int, dy: int)
    ensures
        z_extent(shifted(vs, dx, dy)) == z_extent(vs),
    decreases vs.len(),
{
    let t = shifted(vs, dx, dy);
    if vs.len() > 1 {
        lemma_shift_z_extent(vs.drop_last(), dx, dy);
        assert(shifted(vs.drop_last(), dx, dy) =~= t.drop_last());
        assert(t.last().z == vs.last().z);
        assert(min_z(t) == min_z(vs));
        assert(max_z(t) == max_z(vs));
    } else if vs.len() == 1 {
        assert(t[0].z == vs[0].z);
    }
}

/// Every layer of the stack has a thickness within the coordinate limit.
proof fn lemma_layer_heights_bounded(p: SlicingParams, lo: int, hi: int)
    requires
        params_ok(p),
        coord_ok(lo),
        coord_ok(hi),
    ensures
        forall|i: int|
            0 <= i < layer_heights_spec(p, lo, hi).len() ==> coord_ok(
                (#[trigger] layer_heights_spec(p, lo, hi)[i]).top_z
                    - layer_heights_spec(p, lo, hi)[i].bottom_z,
            ),
{
    let first = p.first_print_layer_height as int;
    let rest = layers_above(lo + first, hi, p.layer_height as int, p.min_layer_height as int);
    lemma_layers_above_props(lo + first, hi, p.layer_height as int, p.min_layer_height as int);
    let s = layer_heights_spec(p, lo, hi);
    assert forall|i: int| 0 <= i < s.len() implies coord_ok((#[trigger] s[i]).top_z - s[i].bottom_z) by {
        if i >= 1 {
            assert(s[i] == rest[i - 1]);
        }
    }
}

/// Assemble the layers from their heights and cross-sections.
fn build_layers<F: Fn(SliceProgress)>(
    heights: &Vec<LayerHeight>,
    sliced: Vec<Vec<ExPolygon>>,
    Ghost(vs): Ghost<Seq<Point3>>,
    Ghost(ts): Ghost<Seq<Triangle>>,
    callback: &F,
) -> (r: Vec<Layer>)
    requires
        forall|p: SliceProgress| callback.requires((p,)),
        sliced@.len() == heights@.len(),
        forall|i: int|
            0 <= i < heights@.len() ==> coord_ok(
                (#[trigger] heights@[i]).top_z - heights@[i].bottom_z,
            ),
        forall|i: int|
            0 <= i < sliced@.len() ==> is_cross_section(
                vs,
                ts,
                heights@[i].slice_z as int,
                expolys_view(#[trigger] sliced@[i]@),
            ) && expolys_are_cuts(vs, heights@[i].slice_z as int, sliced@[i]@),
    ensures
        layers_match(r@, heights@, vs, ts),
{
    let total = heights.len();
    let mut sliced = sliced;
    let ghost orig = sliced@;
    let mut layers: Vec<Layer> = Vec::new();
    let mut i: usize = 0;
    while i < total
        invariant
            total == heights@.len(),
            orig.len() == total,
            i <= total,
            sliced@ == orig.skip(i as int),
            layers@.len() == i,
            forall|k: int|
                0 <= k < heights@.len() ==> coord_ok(
                    (#[trigger] heights@[k]).top_z - heights@[k].bottom_z,
                ),
            forall|k: int|
                0 <= k < orig.len() ==> is_cross_section(
                    vs,
                    ts,
                    heights@[k].slice_z as int,
                    expolys_view(#[trigger] orig[k]@),
                ) && expolys_are_cuts(vs, heights@[k].slice_z as int, orig[k]@),
            forall|k: int|
                0 <= k < i ==> layer_matches(
                    #[trigger] layers@[k],
                    k,
                    total as int,
                    heights@[k],
                    vs,
                    ts,
                ),
            forall|p: SliceProgress| callback.requires((p,)),
        decreases total - i,
    {
        let h = heights[i];
        assert(coord_ok(heights@[i as int].top_z - heights@[i as int].bottom_z));
        let mut layer = Layer::new(i, h.top_z - h.bottom_z, h.top_z, h.slice_z);
        let mut expolygons = sliced.remove(0);
        assert(expolygons@ == orig[i as int]@);
        assert(sliced@ =~= orig.skip(i as int + 1));
        let ghost ex0 = expolygons@;
        let mut region = LayerRegion::new(i, 0);
        while expolygons.len() > 0
            invariant
                region.layer_id == i,
                region.region_id == 0,
                region.slices@.map_values(|s: Surface| s.expolygon) + expolygons@ == ex0,
                forall|k: int|
                    0 <= k < region.slices@.len() ==> (#[trigger] region.slices@[k]).surface_type
                        == SurfaceType::Internal,
            decreases expolygons@.len(),
        {
            let ghost before = region.slices@.map_values(|s: Surface| s.expolygon);
            let e = expolygons.remove(0);
            region.slices.push(Surface::new(SurfaceType::Internal, e));
            assert(region.slices@.map_values(|s: Surface| s.expolygon) =~= before.push(e));
        }
        assert(region.slices@.map_values(|s: Surface| s.expolygon) =~= ex0);
        layer.regions.push(region);
        if i > 0 {
            layer.lower_layer = Some(i - 1);
        }
        if i < total - 1 {
            layer.upper_layer = Some(i + 1);
        }
        layers.push(layer);
        if i % 10 == 0 {
            callback(SliceProgress::LayerBuilt { index: i, total });
        }
        i += 1;
    }
    callback(SliceProgress::LayersBuilt);
    layers
}

} // verus!
