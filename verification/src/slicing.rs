//! Slicing parameters: layer heights, raft layout and the object's z range.
//!
//! Heights are scaled coordinates (see `geometry::SCALED_PER_MM`).
use vstd::prelude::*;
use crate::geometry::Coord;

verus! {

/// How the mesh is interpreted during slicing.
#[derive(Clone, Copy, Debug, PartialEq, Eq, Hash, Structural)]
pub enum SlicingMode {
    /// Keeps all contours and their orientation.
    Regular,
    /// Even-odd fill rule.
    EvenOdd,
    /// Orients all contours counter-clockwise and closes holes.
    Positive,
    /// Keeps only the largest contour.
    PositiveLargestContour,
}

impl Default for SlicingMode {
    fn default() -> (r: SlicingMode)
        ensures
            r == SlicingMode::Regular,
    {
        SlicingMode::Regular
    }
}

/// Parameters controlling the slicing process.
#[derive(Clone, Copy, Debug)]
pub struct SlicingParams {
    /// Whether the parameters have been initialized from a configuration.
    pub valid: bool,
    /// Regular layer height.
    pub layer_height: Coord,
    /// Minimum layer height for variable layer height.
    pub min_layer_height: Coord,
    /// Maximum layer height for variable layer height.
    pub max_layer_height: Coord,
    /// Number of raft base layers.
    pub base_raft_layers: usize,
    /// Number of raft interface layers.
    pub interface_raft_layers: usize,
    /// Height of raft base layers.
    pub base_raft_layer_height: Coord,
    /// Height of raft interface layers.
    pub interface_raft_layer_height: Coord,
    /// Height of the raft contact layer.
    pub contact_raft_layer_height: Coord,
    /// Whether the first object layer uses bridging flow over a non-soluble raft.
    pub first_object_layer_bridging: bool,
    /// Whether the support interface is soluble.
    pub soluble_interface: bool,
    /// Gap between raft and object.
    pub gap_raft_object: Coord,
    /// Gap between object and support.
    pub gap_object_support: Coord,
    /// Gap between support and object.
    pub gap_support_object: Coord,
    /// Maximum support layer height.
    pub max_suport_layer_height: Coord,
    /// First layer height of the print.
    pub first_print_layer_height: Coord,
    /// Thickness of the first object layer.
    pub first_object_layer_height: Coord,
    /// Top z of the raft base.
    pub raft_base_top_z: Coord,
    /// Top z of the raft interface.
    pub raft_interface_top_z: Coord,
    /// Top z of the raft contact layer.
    pub raft_contact_top_z: Coord,
    /// Bottom of the printed object: 0 without a raft, else the raft height.
    pub object_print_z_min: Coord,
    /// Top of the printed object.
    pub object_print_z_max: Coord,
}

/// The default parameters: 0.2 mm layers between 0.07 mm and 0.3 mm, no raft.
pub open spec fn default_slicing_params() -> SlicingParams {
    SlicingParams {
        valid: false,
        layer_height: 200_000,
        min_layer_height: 70_000,
        max_layer_height: 300_000,
        base_raft_layers: 0,
        interface_raft_layers: 0,
        base_raft_layer_height: 300_000,
        interface_raft_layer_height: 200_000,
        contact_raft_layer_height: 200_000,
        first_object_layer_bridging: false,
        soluble_interface: false,
        gap_raft_object: 100_000,
        gap_object_support: 200_000,
        gap_support_object: 200_000,
        max_suport_layer_height: 0,
        first_print_layer_height: 200_000,
        first_object_layer_height: 200_000,
        raft_base_top_z: 0,
        raft_interface_top_z: 0,
        raft_contact_top_z: 0,
        object_print_z_min: 0,
        object_print_z_max: 0,
    }
}

impl Default for SlicingParams {
    fn default() -> (r: SlicingParams)
        ensures
            r == default_slicing_params(),
    {
        SlicingParams {
            valid: false,
            layer_height: 200_000,
            min_layer_height: 70_000,
            max_layer_height: 300_000,
            base_raft_layers: 0,
            interface_raft_layers: 0,
            base_raft_layer_height: 300_000,
            interface_raft_layer_height: 200_000,
            contact_raft_layer_height: 200_000,
            first_object_layer_bridging: false,
            soluble_interface: false,
            gap_raft_object: 100_000,
            gap_object_support: 200_000,
            gap_support_object: 200_000,
            max_suport_layer_height: 0,
            first_print_layer_height: 200_000,
            first_object_layer_height: 200_000,
            raft_base_top_z: 0,
            raft_interface_top_z: 0,
            raft_contact_top_z: 0,
            object_print_z_min: 0,
            object_print_z_max: 0,
        }
    }
}

impl SlicingParams {
    /// Number of raft layers.
    pub open spec fn spec_raft_layers(self) -> int {
        self.base_raft_layers + self.interface_raft_layers
    }

    /// Whether a raft is printed.
    pub open spec fn spec_has_raft(self) -> bool {
        self.spec_raft_layers() > 0
    }

    /// Create default slicing parameters.
    pub fn new() -> (r: SlicingParams)
        ensures
            r == default_slicing_params(),
    {
        Self::default()
    }

    /// Default slicing parameters with a given regular layer height.
    pub fn with_layer_height(layer_height: Coord) -> (r: SlicingParams)
        ensures
            r == (SlicingParams { layer_height, ..default_slicing_params() }),
    {
        let mut p = Self::default();
        p.layer_height = layer_height;
        p
    }

    /// Whether a raft is printed.
    pub fn has_raft(&self) -> (r: bool)
        requires
            self.spec_raft_layers() <= usize::MAX,
        ensures
            r == self.spec_has_raft(),
    {
        self.raft_layers() > 0
    }

    /// Total number of raft layers.
    pub fn raft_layers(&self) -> (r: usize)
        requires
            self.spec_raft_layers() <= usize::MAX,
        ensures
            r == self.spec_raft_layers(),
    {
        self.base_raft_layers + self.interface_raft_layers
    }

    /// Whether the first object layer height is fixed: true without a raft,
    /// or when the first object layer bridges over the raft.
    pub fn first_object_layer_height_fixed(&self) -> (r: bool)
        requires
            self.spec_raft_layers() <= usize::MAX,
        ensures
            r == (!self.spec_has_raft() || self.first_object_layer_bridging),
    {
        !self.has_raft() || self.first_object_layer_bridging
    }

    /// Height of the object to be printed, without the raft.
    pub fn object_print_z_height(&self) -> (r: Coord)
        requires
            i64::MIN <= self.object_print_z_max - self.object_print_z_min <= i64::MAX,
        ensures
            r == self.object_print_z_max - self.object_print_z_min,
    {
        self.object_print_z_max - self.object_print_z_min
    }
}

/// Two parameter sets produce the same layering.
pub open spec fn spec_equal_layering(sp1: SlicingParams, sp2: SlicingParams) -> bool {
    &&& sp1.base_raft_layers == sp2.base_raft_layers
    &&& sp1.interface_raft_layers == sp2.interface_raft_layers
    &&& sp1.base_raft_layer_height == sp2.base_raft_layer_height
    &&& sp1.interface_raft_layer_height == sp2.interface_raft_layer_height
    &&& sp1.contact_raft_layer_height == sp2.contact_raft_layer_height
    &&& sp1.layer_height == sp2.layer_height
    &&& sp1.min_layer_height == sp2.min_layer_height
    &&& sp1.max_layer_height == sp2.max_layer_height
    &&& sp1.first_print_layer_height == sp2.first_print_layer_height
    &&& sp1.first_object_layer_height == sp2.first_object_layer_height
    &&& sp1.first_object_layer_bridging == sp2.first_object_layer_bridging
    &&& sp1.raft_base_top_z == sp2.raft_base_top_z
    &&& sp1.raft_interface_top_z == sp2.raft_interface_top_z
    &&& sp1.raft_contact_top_z == sp2.raft_contact_top_z
    &&& sp1.object_print_z_min == sp2.object_print_z_min
}

/// Check whether two (initialized) parameter sets produce the same layering.
pub fn equal_layering(sp1: &SlicingParams, sp2: &SlicingParams) -> (r: bool)
    requires
        sp1.valid,
        sp2.valid,
    ensures
        r == spec_equal_layering(*sp1, *sp2),
{
    sp1.base_raft_layers == sp2.base_raft_layers && sp1.interface_raft_layers
        == sp2.interface_raft_layers && sp1.base_raft_layer_height == sp2.base_raft_layer_height
        && sp1.interface_raft_layer_height == sp2.interface_raft_layer_height
        && sp1.contact_raft_layer_height == sp2.contact_raft_layer_height && sp1.layer_height
        == sp2.layer_height && sp1.min_layer_height == sp2.min_layer_height && sp1.max_layer_height
        == sp2.max_layer_height && sp1.first_print_layer_height == sp2.first_print_layer_height
        && sp1.first_object_layer_height == sp2.first_object_layer_height
        && sp1.first_object_layer_bridging == sp2.first_object_layer_bridging
        && sp1.raft_base_top_z == sp2.raft_base_top_z && sp1.raft_interface_top_z
        == sp2.raft_interface_top_z && sp1.raft_contact_top_z == sp2.raft_contact_top_z
        && sp1.object_print_z_min == sp2.object_print_z_min
}

/// Equal layering is an equivalence: reflexive, symmetric and transitive.
pub proof fn lemma_equal_layering_equivalence(
    sp1: SlicingParams,
    sp2: SlicingParams,
    sp3: SlicingParams,
)
    ensures
        spec_equal_layering(sp1, sp1),
        spec_equal_layering(sp1, sp2) ==> spec_equal_layering(sp2, sp1),
        spec_equal_layering(sp1, sp2) && spec_equal_layering(sp2, sp3) ==> spec_equal_layering(
            sp1,
            sp3,
        ),
{
}

/// Type of a layer-height editing action.
#[derive(Clone, Copy, Debug, PartialEq, Eq, Structural)]
pub enum LayerHeightEditActionType {
    Increase,
    Decrease,
    Reduce,
    Smooth,
}

impl LayerHeightEditActionType {
    /// The action's numeric code: 0, 1, 2, 3 in declaration order.
    pub fn code(&self) -> (r: u32)
        ensures
            r == match *self {
                LayerHeightEditActionType::Increase => 0u32,
                LayerHeightEditActionType::Decrease => 1u32,
                LayerHeightEditActionType::Reduce => 2u32,
                LayerHeightEditActionType::Smooth => 3u32,
            },
    {
        match self {
            LayerHeightEditActionType::Increase => 0,
            LayerHeightEditActionType::Decrease => 1,
            LayerHeightEditActionType::Reduce => 2,
            LayerHeightEditActionType::Smooth => 3,
        }
    }
}

/// Parameters of the gaussian smoothing of a layer height profile.
#[derive(Clone, Copy, Debug, PartialEq, Eq, Structural)]
pub struct HeightProfileSmoothingParams {
    pub radius: u32,
    pub keep_min: bool,
}

impl Default for HeightProfileSmoothingParams {
    fn default() -> (r: HeightProfileSmoothingParams)
        ensures
            r.radius == 5,
            !r.keep_min,
    {
        HeightProfileSmoothingParams { radius: 5, keep_min: false }
    }
}

impl HeightProfileSmoothingParams {
    /// Radius 5, minimum not kept.
    pub fn new() -> (r: HeightProfileSmoothingParams)
        ensures
            r.radius == 5,
            !r.keep_min,
    {
        Self::default()
    }

    pub fn with_params(radius: u32, keep_min: bool) -> (r: HeightProfileSmoothingParams)
        ensures
            r.radius == radius,
            r.keep_min == keep_min,
    {
        HeightProfileSmoothingParams { radius, keep_min }
    }
}

} // verus!
