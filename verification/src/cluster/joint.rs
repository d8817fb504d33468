//! Topology of a joint: which speakers form the loaded free body, and which
//! speaker's frame the loaded holes are expressed in. Joint `i` links
//! positions `i` and `i + 1` (top to bottom).

use super::model::{Compartment, ImpossibleConfiguration};
use crate::text::{decimal, push_decimal};
use vstd::prelude::*;
use vstd::string::*;

verus! {

/// A joint with no solution: the geometry does not allow the equilibrium to
/// be solved. Reported rather than returned as NaN.
#[derive(Clone, Debug)]
pub struct JointInconsistency {
    pub joint_index: usize,
    pub reason: String,
}

/// A joint without solution makes the whole configuration impossible, just
/// like a splay with no drilled hole; the reason names the joint, counted from
/// 1 at the top.
pub fn joint_failure(e: &JointInconsistency) -> (r: ImpossibleConfiguration)
    requires
        e.joint_index < usize::MAX,
    ensures
        r.reason@ == "Jonction "@ + decimal(e.joint_index as nat + 1) + " : "@ + e.reason@,
{
    let mut m = String::from_str("Jonction ");
    push_decimal(&mut m, e.joint_index + 1);
    m.append(" : ");
    m.append(e.reason.as_str());
    ImpossibleConfiguration { reason: m }
}

/// First and last positions of the free body of joint `i`: everything below
/// the joint when flown (it hangs from it), everything above it when stacked
/// (it rests on it).
pub open spec fn free_body_spec(compartment: Compartment, i: int, n: int) -> (int, int) {
    if compartment == Compartment::Flown {
        (i + 1, n - 1)
    } else {
        (0, i)
    }
}

/// The speaker whose frame carries the loaded holes of joint `i`: the upper
/// one when flown, the lower one when stacked.
pub open spec fn loaded_spec(compartment: Compartment, i: int) -> int {
    if compartment == Compartment::Flown {
        i
    } else {
        i + 1
    }
}

/// Free body of joint `joint_index` in a chain of `speakers` speakers.
pub fn free_body(compartment: Compartment, joint_index: usize, speakers: usize) -> (r: (usize, usize))
    requires
        joint_index + 1 < speakers,
    ensures
        (r.0 as int, r.1 as int) == free_body_spec(compartment, joint_index as int, speakers as int),
{
    match compartment {
        Compartment::Flown => (joint_index + 1, speakers - 1),
        Compartment::Stacked => (0, joint_index),
    }
}

/// Number of speakers in the free body of joint `joint_index`.
pub fn free_body_count(compartment: Compartment, joint_index: usize, speakers: usize) -> (r: usize)
    requires
        joint_index + 1 < speakers,
    ensures
        r == free_body_spec(compartment, joint_index as int, speakers as int).1 - free_body_spec(
            compartment,
            joint_index as int,
            speakers as int,
        ).0 + 1,
{
    let (lo, hi) = free_body(compartment, joint_index, speakers);
    hi - lo + 1
}

/// Position of the loaded speaker of joint `joint_index`.
pub fn loaded_position(compartment: Compartment, joint_index: usize) -> (r: usize)
    requires
        joint_index < usize::MAX,
    ensures
        r == loaded_spec(compartment, joint_index as int),
{
    match compartment {
        Compartment::Flown => joint_index,
        Compartment::Stacked => joint_index + 1,
    }
}

/// The free body of a joint is exactly the part of the chain on the far side
/// of the joint from the speaker that carries the bumper (the top one when
/// flown, the bottom one when stacked): it is never empty, never holds the
/// reference speaker, and the loaded speaker is the joint's other member,
/// outside the free body.
pub proof fn the_free_body_is_the_far_side_of_the_joint(compartment: Compartment, i: int, n: int, p: int)
    requires
        0 <= i,
        i + 1 < n,
        0 <= p < n,
    ensures
        ({
            let (lo, hi) = free_body_spec(compartment, i, n);
            &&& 0 <= lo <= hi < n
            &&& (lo <= p <= hi) <==> (if compartment == Compartment::Flown {
                p > i
            } else {
                p <= i
            })
            &&& !(lo <= loaded_spec(compartment, i) <= hi)
            &&& (loaded_spec(compartment, i) == i || loaded_spec(compartment, i) == i + 1)
            &&& !(lo <= (if compartment == Compartment::Flown { 0 } else { n - 1 }) <= hi)
        }),
{
}

} // verus!
