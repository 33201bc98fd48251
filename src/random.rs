//! Random scores and random choices, drawn with `rand`.
use vstd::prelude::*;
use rand::rngs::StdRng;
use rand::seq::SliceRandom;
use rand::Rng;
use crate::score::{lower_value, upper_value, Score, ScoreRange};

verus! {

#[verifier::external_type_specification]
#[verifier::external_body]
pub struct ExStdRng(StdRng);

/// Relies on `rand::Rng::gen_range`: on an inclusive range it returns a value inside the
/// range, and it panics only when the range is empty.
#[verifier::external_body]
fn gen_inclusive(rng: &mut StdRng, lo: u32, hi: u32) -> (r: u32)
    requires
        lo <= hi,
    ensures
        lo <= r <= hi,
{
    rng.gen_range(lo..=hi)
}

/// Relies on `rand::seq::SliceRandom::choose`: `None` exactly for an empty slice, else one
/// of its elements.
#[verifier::external_body]
pub(crate) fn choose_entity(rng: &mut StdRng, keys: &Vec<usize>) -> (r: Option<usize>)
    ensures
        r.is_none() <==> keys@.len() == 0,
        r matches Some(k) ==> keys@.contains(k),
{
    keys.choose(rng).copied()
}

/// Scores a random value within a range, ignoring the children.
pub struct RandomScore {
    pub rng: StdRng,
    pub range: ScoreRange,
}

impl RandomScore {
    /// Draws from the full range of scores.
    pub fn new(rng: StdRng) -> (r: RandomScore)
        ensures
            r.range == ScoreRange::full_spec(),
    {
        RandomScore { rng, range: ScoreRange::full() }
    }

    /// Draws from the given range.
    pub fn with_range(rng: StdRng, range: ScoreRange) -> (r: RandomScore)
        ensures
            r.range == range,
    {
        RandomScore { rng, range }
    }

    pub fn set_rng(&mut self, rng: StdRng)
        ensures
            final(self).range == old(self).range,
    {
        self.rng = rng;
    }

    /// Draws a score between the range's two ends, both included.
    pub fn aggregate(&mut self) -> (r: Score)
        ensures
            final(self).range == old(self).range,
            lower_value(old(self).range.spec_min()) <= r@ <= upper_value(old(self).range.spec_max()),
    {
        let lo = self.range.min_score().get();
        let hi = self.range.max_score().get();
        let v = gen_inclusive(&mut self.rng, lo, hi);
        Score::new_unchecked(v)
    }
}

} // verus!
