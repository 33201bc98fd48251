//! The score value: a fraction in `[0, 1]` held as billionths.
use vstd::prelude::*;

verus! {

/// Number of units that make up a score of one.
pub const SCALE: u32 = 1000000000;

/// `v` clamped into the unit range `[0, SCALE]`.
pub open spec fn clamp_unit(v: int) -> int {
    if v < 0 {
        0
    } else if v > SCALE {
        SCALE as int
    } else {
        v
    }
}

/// A score in `[0, 1]`, stored as a count of billionths.
#[derive(Clone, Copy, PartialEq, Eq, Structural, Debug)]
pub struct Score {
    value: u32,
}

impl Score {
    #[verifier::type_invariant]
    spec fn in_unit_range(self) -> bool {
        self.value <= SCALE
    }

    /// The score's value in billionths.
    pub closed spec fn view(&self) -> int {
        self.value as int
    }

    /// The minimum possible score.
    pub fn min_score() -> (r: Score)
        ensures
            r@ == 0,
            r == Score::min_score_spec(),
    {
        Score { value: 0 }
    }

    /// The maximum possible score.
    pub fn max_score() -> (r: Score)
        ensures
            r@ == SCALE,
            r == Score::max_score_spec(),
    {
        Score { value: SCALE }
    }

    /// Creates a score from a value in billionths, clamped to `[0, SCALE]`.
    pub fn new(value: i64) -> (r: Score)
        ensures
            r@ == clamp_unit(value as int),
            0 <= r@ <= SCALE,
    {
        if value < 0 {
            Score { value: 0 }
        } else if value > SCALE as i64 {
            Score { value: SCALE }
        } else {
            Score { value: value as u32 }
        }
    }

    /// Creates a score from a value already known to be in range.
    pub fn new_unchecked(value: u32) -> (r: Score)
        requires
            value <= SCALE,
        ensures
            r@ == value,
    {
        Score { value }
    }

    /// Returns the score's value in billionths.
    pub fn get(&self) -> (r: u32)
        ensures
            r == self@,
            r <= SCALE,
    {
        proof {
            use_type_invariant(self);
        }
        self.value
    }

    /// Sets the score's value in billionths, clamped to `[0, SCALE]`.
    pub fn set(&mut self, value: i64)
        ensures
            final(self)@ == clamp_unit(value as int),
    {
        *self = Score::new(value);
    }

    /// Sum of the scores, clamped to `[0, SCALE]`.
    pub fn sum(scores: &Vec<Score>) -> (r: Score)
        ensures
            r@ == clamp_unit(sum_of(values(scores@))),
    {
        let mut acc: u32 = 0;
        let mut i: usize = 0;
        while i < scores.len()
            invariant
                i <= scores.len(),
                acc as int == min_unit(sum_of(values(scores@.take(i as int)))),
            decreases scores.len() - i,
        {
            let v = scores[i].get();
            proof {
                lemma_sum_of_push(values(scores@.take(i as int)), scores@[i as int]@);
                assert(values(scores@.take(i as int + 1)) =~= values(scores@.take(i as int)).push(
                    scores@[i as int]@,
                ));
                lemma_sum_of_nonneg(values(scores@.take(i as int)));
            }
            acc = if acc as u64 + v as u64 > SCALE as u64 {
                SCALE
            } else {
                acc + v
            };
            i = i + 1;
        }
        proof {
            assert(scores@.take(scores@.len() as int) =~= scores@);
            lemma_sum_of_nonneg(values(scores@));
        }
        Score { value: acc }
    }
}

/// A score's value is never negative.
pub broadcast proof fn lemma_score_nonneg(s: Score)
    ensures
        #[trigger] s@ >= 0,
{
}

/// Scores with the same value are the same score.
pub proof fn lemma_score_view_injective(x: Score, y: Score)
    requires
        x@ == y@,
    ensures
        x == y,
{
}

/// `v` capped at `SCALE` (for values known to be non-negative).
pub open spec fn min_unit(v: int) -> int {
    if v > SCALE {
        SCALE as int
    } else {
        v
    }
}

/// The values of a sequence of scores.
pub open spec fn values(s: Seq<Score>) -> Seq<int> {
    s.map_values(|x: Score| x@)
}

/// Sum of a sequence of integers.
pub open spec fn sum_of(s: Seq<int>) -> int
    decreases s.len(),
{
    if s.len() == 0 {
        0
    } else {
        sum_of(s.drop_last()) + s.last()
    }
}

pub proof fn lemma_sum_of_push(s: Seq<int>, v: int)
    ensures
        sum_of(s.push(v)) == sum_of(s) + v,
{
    assert(s.push(v).drop_last() =~= s);
}

pub proof fn lemma_sum_of_nonneg(s: Seq<int>)
    requires
        forall|i: int| 0 <= i < s.len() ==> s[i] >= 0,
    ensures
        sum_of(s) >= 0,
    decreases s.len(),
{
    if s.len() > 0 {
        lemma_sum_of_nonneg(s.drop_last());
    }
}

/// One end of a score range.
#[derive(Clone, Copy, PartialEq, Eq, Structural, Debug)]
pub enum ScoreBound {
    Included(Score),
    Excluded(Score),
    Unbounded,
}

/// The score held by a bound, if any.
pub open spec fn bound_score(b: ScoreBound) -> Option<Score> {
    match b {
        ScoreBound::Included(s) => Some(s),
        ScoreBound::Excluded(s) => Some(s),
        ScoreBound::Unbounded => None,
    }
}

fn bound_in_range(b: &ScoreBound)
    ensures
        0 <= lower_value(*b) <= SCALE,
        0 <= upper_value(*b) <= SCALE,
{
    match b {
        ScoreBound::Included(s) => {
            proof {
                use_type_invariant(s);
            }
        },
        ScoreBound::Excluded(s) => {
            proof {
                use_type_invariant(s);
            }
        },
        ScoreBound::Unbounded => {},
    }
}

/// The bound of the same kind as `b`, holding `s` when it holds a score.
pub open spec fn with_score(b: ScoreBound, s: Score) -> ScoreBound {
    match b {
        ScoreBound::Included(_) => ScoreBound::Included(s),
        ScoreBound::Excluded(_) => ScoreBound::Excluded(s),
        ScoreBound::Unbounded => ScoreBound::Unbounded,
    }
}

fn bound_value(b: &ScoreBound) -> (r: Option<Score>)
    ensures
        r == bound_score(*b),
{
    match b {
        ScoreBound::Included(s) => Some(*s),
        ScoreBound::Excluded(s) => Some(*s),
        ScoreBound::Unbounded => None,
    }
}

fn replace_score(b: &ScoreBound, s: Score) -> (r: ScoreBound)
    ensures
        r == with_score(*b, s),
{
    match b {
        ScoreBound::Included(_) => ScoreBound::Included(s),
        ScoreBound::Excluded(_) => ScoreBound::Excluded(s),
        ScoreBound::Unbounded => ScoreBound::Unbounded,
    }
}

/// A range of scores, with its lower end at or below its upper end.
#[derive(Clone, Copy, PartialEq, Eq, Structural, Debug)]
pub struct ScoreRange {
    min: ScoreBound,
    max: ScoreBound,
}

/// The value of a lower end; an unbounded one stands for the minimum score.
pub open spec fn lower_value(b: ScoreBound) -> int {
    match bound_score(b) {
        Some(s) => s@,
        None => 0,
    }
}

/// The value of an upper end; an unbounded one stands for the maximum score.
pub open spec fn upper_value(b: ScoreBound) -> int {
    match bound_score(b) {
        Some(s) => s@,
        None => SCALE as int,
    }
}

impl ScoreRange {
    #[verifier::type_invariant]
    spec fn ordered(self) -> bool {
        lower_value(self.min) <= upper_value(self.max)
    }

    /// The lower end.
    pub closed spec fn spec_min(&self) -> ScoreBound {
        self.min
    }

    /// The upper end.
    pub closed spec fn spec_max(&self) -> ScoreBound {
        self.max
    }

    /// The full range of scores, from 0 to 1 inclusive.
    pub closed spec fn full_spec() -> ScoreRange {
        ScoreRange {
            min: ScoreBound::Included(Score { value: 0 }),
            max: ScoreBound::Included(Score { value: SCALE }),
        }
    }

    /// The full range of scores, from 0 to 1 inclusive.
    pub fn full() -> (r: ScoreRange)
        ensures
            r == ScoreRange::full_spec(),
            lower_value(r.spec_min()) == 0,
            upper_value(r.spec_max()) == SCALE,
    {
        ScoreRange {
            min: ScoreBound::Included(Score { value: 0 }),
            max: ScoreBound::Included(Score { value: SCALE }),
        }
    }

    /// Creates a range. When both ends hold scores in reverse order, the two scores trade
    /// places and each end keeps its kind.
    pub fn new(min: ScoreBound, max: ScoreBound) -> (r: ScoreRange)
        ensures
            (match (bound_score(min), bound_score(max)) {
                (Some(lo), Some(hi)) => hi@ < lo@ && r.spec_min() == with_score(min, hi)
                    && r.spec_max() == with_score(max, lo),
                _ => false,
            }) || (r.spec_min() == min && r.spec_max() == max && !(match (
                bound_score(min),
                bound_score(max),
            ) {
                (Some(lo), Some(hi)) => hi@ < lo@,
                _ => false,
            })),
    {
        bound_in_range(&min);
        bound_in_range(&max);
        match (bound_value(&min), bound_value(&max)) {
            (Some(lo), Some(hi)) => {
                if hi.get() < lo.get() {
                    let new_min = replace_score(&min, hi);
                    let new_max = replace_score(&max, lo);
                    bound_in_range(&new_min);
                    bound_in_range(&new_max);
                    return ScoreRange { min: new_min, max: new_max };
                }
            },
            _ => {},
        }
        ScoreRange { min, max }
    }

    /// Returns the lower end.
    pub fn min(&self) -> (r: ScoreBound)
        ensures
            r == self.spec_min(),
    {
        self.min
    }

    /// Returns the upper end.
    pub fn max(&self) -> (r: ScoreBound)
        ensures
            r == self.spec_max(),
    {
        self.max
    }

    /// The lower end's score; an unbounded end gives the minimum score.
    pub fn min_score(&self) -> (r: Score)
        ensures
            r@ == lower_value(self.spec_min()),
            r@ <= upper_value(self.spec_max()),
    {
        proof {
            use_type_invariant(self);
        }
        match self.min {
            ScoreBound::Included(s) => s,
            ScoreBound::Excluded(s) => s,
            ScoreBound::Unbounded => Score::min_score(),
        }
    }

    /// The upper end's score; an unbounded end gives the maximum score.
    pub fn max_score(&self) -> (r: Score)
        ensures
            r@ == upper_value(self.spec_max()),
            lower_value(self.spec_min()) <= r@,
    {
        proof {
            use_type_invariant(self);
        }
        match self.max {
            ScoreBound::Included(s) => s,
            ScoreBound::Excluded(s) => s,
            ScoreBound::Unbounded => Score::max_score(),
        }
    }
}

impl Score {
    pub closed spec fn min_score_spec() -> Score {
        Score { value: 0 }
    }

    pub closed spec fn max_score_spec() -> Score {
        Score { value: SCALE }
    }
}

} // verus!
