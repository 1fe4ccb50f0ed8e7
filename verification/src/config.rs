//! Settings of the region stage.

use vstd::prelude::*;

verus! {

/// How walkable surfaces are gathered into regions.
#[derive(Copy, Clone, Debug, PartialEq, Eq, Structural)]
pub struct WatershedConfig {
    /// Regions with fewer surfaces are dropped.
    pub min_region_cells: u32,
    /// Regions with fewer surfaces may be merged into a neighbor.
    pub merge_region_cells: u32,
    /// Largest layer difference between neighbors of one region.
    pub max_layer_step: u32,
}

impl Default for WatershedConfig {
    fn default() -> (r: WatershedConfig)
        ensures
            r == (WatershedConfig {
                min_region_cells: 8,
                merge_region_cells: 20,
                max_layer_step: 1,
            }),
    {
        WatershedConfig { min_region_cells: 8, merge_region_cells: 20, max_layer_step: 1 }
    }
}

} // verus!
