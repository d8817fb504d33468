//! Bumper and offset bar as catalogue entries: what identifies them and what
//! they declare compatible. Their drawings (drilling, dimensions) stay with
//! the floating-point geometry.

use vstd::prelude::*;

verus! {

/// A bumper may be used on a given speaker, possibly in one compartment only
/// (for instance a bumper meant for flying that cannot be grounded).
#[derive(Clone, Debug)]
pub struct BumperCompatibility {
    pub speaker_model_id: String,
    pub flown: bool,
    pub stacked: bool,
}

/// A bumper, as the solver's compatibility rules read it.
#[derive(Clone, Debug)]
pub struct BumperModel {
    pub id: String,
    pub name: String,
    pub compatible_speakers: Vec<BumperCompatibility>,
}

/// An offset bar may be used with a given bumper.
#[derive(Clone, Debug)]
pub struct BumperBarCompatibility {
    pub bumper_model_id: String,
}

/// An offset bar (SA303-BUMPER-BAR or equivalent): never tied to a cluster
/// directly — the active bumper decides which bar applies.
#[derive(Clone, Debug)]
pub struct BumperBarModel {
    pub id: String,
    pub name: String,
    pub compatible_bumpers: Vec<BumperBarCompatibility>,
}

} // verus!
