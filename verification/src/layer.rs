//! Layers of a sliced object and their regions.
use vstd::prelude::*;
use crate::geometry::{Coord, ExPolygon, expoly_view};

verus! {

/// Classification of a slice surface.
#[derive(Clone, Copy, Debug, PartialEq, Eq, Structural)]
pub enum SurfaceType {
    Top,
    Bottom,
    Internal,
}

/// A region of a slice with its classification.
#[derive(Debug)]
pub struct Surface {
    pub surface_type: SurfaceType,
    pub expolygon: ExPolygon,
}

impl Surface {
    pub fn new(surface_type: SurfaceType, expolygon: ExPolygon) -> (r: Surface)
        ensures
            r.surface_type == surface_type,
            r.expolygon == expolygon,
    {
        Surface { surface_type, expolygon }
    }
}

/// The part of a layer printed with one set of region settings.
#[derive(Debug)]
pub struct LayerRegion {
    pub layer_id: usize,
    pub region_id: usize,
    pub slices: Vec<Surface>,
}

impl LayerRegion {
    pub fn new(layer_id: usize, region_id: usize) -> (r: LayerRegion)
        ensures
            r.layer_id == layer_id,
            r.region_id == region_id,
            r.slices@.len() == 0,
    {
        LayerRegion { layer_id, region_id, slices: Vec::new() }
    }

    pub fn slices(&self) -> (r: &Vec<Surface>)
        ensures
            r == &self.slices,
    {
        &self.slices
    }
}

/// One layer of a sliced object.
#[derive(Debug)]
pub struct Layer {
    pub id: usize,
    /// Layer thickness.
    pub height: Coord,
    /// Top of the layer.
    pub print_z: Coord,
    /// Height at which the object was cut for this layer.
    pub slice_z: Coord,
    pub regions: Vec<LayerRegion>,
    pub lower_layer: Option<usize>,
    pub upper_layer: Option<usize>,
}

impl Layer {
    pub fn new(id: usize, height: Coord, print_z: Coord, slice_z: Coord) -> (r: Layer)
        ensures
            r.id == id,
            r.height == height,
            r.print_z == print_z,
            r.slice_z == slice_z,
            r.regions@.len() == 0,
            r.lower_layer is None,
            r.upper_layer is None,
    {
        Layer {
            id,
            height,
            print_z,
            slice_z,
            regions: Vec::new(),
            lower_layer: None,
            upper_layer: None,
        }
    }

    pub fn id(&self) -> (r: usize)
        ensures
            r == self.id,
    {
        self.id
    }

    pub fn lower_layer_id(&self) -> (r: Option<usize>)
        ensures
            r == self.lower_layer,
    {
        self.lower_layer
    }

    pub fn upper_layer_id(&self) -> (r: Option<usize>)
        ensures
            r == self.upper_layer,
    {
        self.upper_layer
    }

    pub fn regions(&self) -> (r: &Vec<LayerRegion>)
        ensures
            r == &self.regions,
    {
        &self.regions
    }

    /// Bottom of the layer: its top minus its thickness.
    pub fn bottom_z(&self) -> (r: Coord)
        requires
            i64::MIN <= self.print_z - self.height <= i64::MAX,
        ensures
            r == self.print_z - self.height,
    {
        self.print_z - self.height
    }

    /// The expolygons of all the surfaces of all the regions, region by
    /// region.
    pub fn all_slices(&self) -> (r: Vec<ExPolygon>)
        ensures
            r@.map_values(|e: ExPolygon| expoly_view(e)) == all_slices_view(self.regions@),
    {
        let mut out: Vec<ExPolygon> = Vec::new();
        let mut i: usize = 0;
        while i < self.regions.len()
            invariant
                i <= self.regions@.len(),
                out@.map_values(|e: ExPolygon| expoly_view(e)) == all_slices_view(
                    self.regions@.take(i as int),
                ),
            decreases self.regions@.len() - i,
        {
            let ghost before = out@;
            let mut j: usize = 0;
            while j < self.regions[i].slices.len()
                invariant
                    i < self.regions@.len(),
                    j <= self.regions@[i as int].slices@.len(),
                    out@.map_values(|e: ExPolygon| expoly_view(e)) == before.map_values(
                        |e: ExPolygon| expoly_view(e),
                    ) + surfaces_view(self.regions@[i as int].slices@.take(j as int)),
                decreases self.regions@[i as int].slices@.len() - j,
            {
                let e = self.regions[i].slices[j].expolygon.clone();
                let ghost o = out@;
                out.push(e);
                assert(out@.map_values(|e: ExPolygon| expoly_view(e)) =~= o.map_values(
                    |e: ExPolygon| expoly_view(e),
                ).push(expoly_view(e)));
                assert(self.regions@[i as int].slices@.take(j as int + 1).drop_last()
                    =~= self.regions@[i as int].slices@.take(j as int));
                assert(surfaces_view(self.regions@[i as int].slices@.take(j as int + 1))
                    == surfaces_view(self.regions@[i as int].slices@.take(j as int)).push(
                    expoly_view(self.regions@[i as int].slices@[j as int].expolygon),
                ));
                j += 1;
            }
            assert(self.regions@[i as int].slices@.take(
                self.regions@[i as int].slices@.len() as int,
            ) =~= self.regions@[i as int].slices@);
            assert(self.regions@.take(i as int + 1).drop_last() =~= self.regions@.take(i as int));
            i += 1;
        }
        assert(self.regions@.take(self.regions@.len() as int) =~= self.regions@);
        out
    }
}

/// The expolygons of a list of surfaces.
pub open spec fn surfaces_view(ss: Seq<Surface>) -> Seq<(Seq<crate::geometry::Point>, Seq<Seq<crate::geometry::Point>>)>
    decreases ss.len(),
{
    if ss.len() == 0 {
        Seq::empty()
    } else {
        surfaces_view(ss.drop_last()).push(expoly_view(ss.last().expolygon))
    }
}

/// The expolygons of all the surfaces of a list of regions.
pub open spec fn all_slices_view(rs: Seq<LayerRegion>) -> Seq<(Seq<crate::geometry::Point>, Seq<Seq<crate::geometry::Point>>)>
    decreases rs.len(),
{
    if rs.len() == 0 {
        Seq::empty()
    } else {
        all_slices_view(rs.drop_last()) + surfaces_view(rs.last().slices@)
    }
}

} // verus!
