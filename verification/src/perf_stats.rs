use vstd::prelude::*;

verus! {

/// Performance statistics over rendered tiles. This build collects none.
#[derive(Debug, Default)]
pub struct PerfStats {}

/// Measures one named stage of the current tile while it is alive. This build measures nothing.
pub struct Measurer {}

/// Starts the statistics of a tile at zoom level `zoom`.
pub fn start_tile(zoom: u8) {
}

/// Adds the statistics of the current tile to `total`.
pub fn finish_tile(total: &mut PerfStats)
    ensures
        *final(total) == *old(total),
{
}

/// Starts measuring the stage `name` of the current tile.
pub fn measure(name: &str) -> (res: Measurer) {
    Measurer {}
}

} // verus!
