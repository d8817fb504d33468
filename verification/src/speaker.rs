//! A riggable speaker as the chain rules read it: its identity and what may
//! hang directly beneath it, per compartment. The crown row of a drilled
//! splay, and the kind of wavefront its waveguide radiates.

use vstd::prelude::*;

verus! {

/// Crown hole row used at a joint: outer (even splay) or inner (odd splay).
#[derive(Clone, Copy, Debug, PartialEq, Eq, Structural)]
pub enum CrownRow {
    Ext,
    Int,
}

/// Is a splay of `deg` whole degrees odd?
pub open spec fn odd_degrees(deg: int) -> bool {
    deg % 2 == 1
}

/// Is a splay, rounded to the nearest whole degree, odd? Odd splays use the
/// inner crown.
pub fn is_odd_whole_degrees(deg: i64) -> (r: bool)
    ensures
        r == odd_degrees(deg as int),
{
    deg % 2 != 0
}

impl CrownRow {
    /// The row of a splay of `deg` whole degrees: inner on odd splays, outer
    /// on even ones.
    pub fn of_whole_degrees(deg: i64) -> (r: CrownRow)
        ensures
            r == (if odd_degrees(deg as int) {
                CrownRow::Int
            } else {
                CrownRow::Ext
            }),
    {
        if is_odd_whole_degrees(deg) {
            CrownRow::Int
        } else {
            CrownRow::Ext
        }
    }
}

/// Kind of front radiated by the waveguide: it decides which line-source
/// criteria apply.
#[derive(Clone, Copy, Debug, PartialEq, Eq, Structural)]
pub enum WaveguideFront {
    /// Plane front (isophase guide).
    Isophase,
    /// Constant-curvature front, radiating its vertical coverage.
    ConstantCurvature,
}

impl Default for WaveguideFront {
    fn default() -> (r: Self)
        ensures
            r == WaveguideFront::Isophase,
    {
        WaveguideFront::Isophase
    }
}

/// What may hang directly beneath a speaker, and in which compartment. The
/// relation is declared one way only (downwards): a joint is an ordered pair
/// top → bottom, so one declaration per pair.
#[derive(Clone, Debug)]
pub struct BelowCompatibility {
    /// Model of the speaker beneath.
    pub speaker_model_id: String,
    /// Allowed in a flown cluster.
    pub flown: bool,
    /// Allowed in a ground stack.
    pub stacked: bool,
}

impl BelowCompatibility {
    pub open spec fn allows_spec(self, flown: bool) -> bool {
        if flown {
            self.flown
        } else {
            self.stacked
        }
    }

    /// Is the joint allowed in this compartment?
    pub fn allows(&self, flown: bool) -> (r: bool)
        ensures
            r == self.allows_spec(flown),
    {
        if flown {
            self.flown
        } else {
            self.stacked
        }
    }
}

/// A speaker model, as the chain rules read it.
#[derive(Clone, Debug)]
pub struct SpeakerModel {
    pub id: String,
    pub name: String,
    /// Speakers that may hang directly beneath this one. Empty: nothing may,
    /// so this speaker can only close a chain.
    pub compatible_below: Vec<BelowCompatibility>,
}

impl SpeakerModel {
    /// `i` is the first declaration for `lower`.
    pub open spec fn is_first_below(self, lower: Seq<char>, i: int) -> bool {
        &&& 0 <= i < self.compatible_below@.len()
        &&& self.compatible_below@[i].speaker_model_id@ == lower
        &&& forall|k: int| 0 <= k < i ==> self.compatible_below@[k].speaker_model_id@ != lower
    }

    /// Some declaration names `lower`.
    pub open spec fn declares_below(self, lower: Seq<char>) -> bool {
        exists|i: int|
            0 <= i < self.compatible_below@.len() && self.compatible_below@[i].speaker_model_id@
                == lower
    }

    /// Index of the first declaration for `lower`.
    pub fn below_index(&self, lower_speaker_model_id: &str) -> (r: Option<usize>)
        ensures
            r matches Some(i) ==> self.is_first_below(lower_speaker_model_id@, i as int),
            r is None ==> !self.declares_below(lower_speaker_model_id@),
    {
        let target = lower_speaker_model_id.to_owned();
        let mut i: usize = 0;
        while i < self.compatible_below.len()
            invariant
                i <= self.compatible_below@.len(),
                target@ == lower_speaker_model_id@,
                forall|k: int|
                    0 <= k < i ==> self.compatible_below@[k].speaker_model_id@
                        != lower_speaker_model_id@,
            decreases self.compatible_below@.len() - i,
        {
            if self.compatible_below[i].speaker_model_id == target {
                return Some(i);
            }
            i += 1;
        }
        None
    }

    /// Joint declaration towards the speaker beneath, if there is one.
    pub fn below(&self, lower_speaker_model_id: &str) -> (r: Option<&BelowCompatibility>)
        ensures
            r matches Some(c) ==> exists|i: int|
                self.is_first_below(lower_speaker_model_id@, i) && *c
                    == self.compatible_below@[i],
            r is None ==> !self.declares_below(lower_speaker_model_id@),
    {
        match self.below_index(lower_speaker_model_id) {
            Some(i) => Some(&self.compatible_below[i]),
            None => None,
        }
    }
}

/// A rear bar that cannot be fitted: it serves neither crown, or the joint
/// geometry is not constant along a crown. Not a warning: no straight bar
/// fits.
#[derive(Clone, Debug)]
pub struct BarInconsistency {
    pub reason: String,
}

} // verus!
