//! A cluster as its references and choices: the chain of speaker models from
//! top to bottom, the compartment, the mandatory bumper and the rigging
//! request.

use vstd::prelude::*;

verus! {

/// Flown (hanging) or stacked (on the ground): decides which side of a joint
/// is the loaded free body.
#[derive(Clone, Copy, Debug, PartialEq, Eq, Structural)]
pub enum Compartment {
    Flown,
    Stacked,
}

/// Where to pick up a flown cluster: left to the solver, or imposed.
#[derive(Clone, Copy, Debug, PartialEq, Eq, Structural)]
pub enum RiggingSupport {
    /// The bumper alone first, then the bar from the most centred mount to
    /// the most offset one.
    Auto,
    Bumper,
    /// Bar imposed, even where the bumper alone would do.
    Bar,
}

impl Default for RiggingSupport {
    fn default() -> (r: Self)
        ensures
            r == RiggingSupport::Auto,
    {
        RiggingSupport::Auto
    }
}

/// Flown pick-up choice: never a precise hole. The solver picks the hole; the
/// user only picks the family (bumper / bar / mount) and the number of points.
#[derive(Clone, Copy, Debug, PartialEq, Eq, Structural)]
pub struct RiggingRequest {
    pub support: RiggingSupport,
    /// 1 or 2 motors.
    pub points: u8,
    /// Imposed bar mount, index among the bar mounts. `None`: the solver's
    /// choice.
    pub bar_mount_index: Option<usize>,
}

impl Default for RiggingRequest {
    fn default() -> (r: Self)
        ensures
            r == (RiggingRequest { support: RiggingSupport::Auto, points: 1, bar_mount_index: None }),
    {
        RiggingRequest { support: RiggingSupport::Auto, points: 1, bar_mount_index: None }
    }
}

/// What a cluster references: its speaker models from top to bottom, its
/// joint count, its compartment and its bumper.
#[derive(Clone, Debug)]
pub struct ClusterRefs {
    pub id: String,
    pub name: String,
    /// One model per position, top to bottom: exactly one more entry than
    /// joints.
    pub speaker_model_ids: Vec<String>,
    pub joint_count: usize,
    pub compartment: Compartment,
    pub bumper_model_id: String,
}

/// A physically impossible configuration: never an approximate result.
#[derive(Clone, Debug)]
pub struct ImpossibleConfiguration {
    pub reason: String,
}

} // verus!
