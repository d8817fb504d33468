//! Global settings that are not physical coefficients: the tool axis mapping
//! used by the export.

use vstd::prelude::*;

verus! {

/// Which tool axis the speaker's x and y map to (for instance "X" and "-Y").
#[derive(Clone, Debug)]
pub struct AxisMapping {
    pub tool_x: String,
    pub tool_y: String,
}

} // verus!
