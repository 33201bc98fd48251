//! Aggregators that compute a node's score from its children's scores.
use vstd::prelude::*;
use crate::score::{
    clamp_unit, lemma_score_nonneg, lemma_sum_of_nonneg, lemma_sum_of_push, sum_of, values, Score,
    SCALE,
};

verus! {

broadcast use lemma_score_nonneg;

/// Fixed-point product of the values: one unit is `SCALE`, and every step rounds down.
pub open spec fn product_of(s: Seq<int>) -> int
    decreases s.len(),
{
    if s.len() == 0 {
        SCALE as int
    } else {
        product_of(s.drop_last()) * s.last() / SCALE as int
    }
}

/// Largest of the values, and 0 when there are none.
pub open spec fn max_of(s: Seq<int>) -> int
    decreases s.len(),
{
    if s.len() == 0 {
        0
    } else {
        let m = max_of(s.drop_last());
        if s.last() > m {
            s.last()
        } else {
            m
        }
    }
}

/// `v`, or 0 when it lies under the threshold `t`.
pub open spec fn at_least(v: int, t: int) -> int {
    if v < t {
        0
    } else {
        v
    }
}

/// Raises a product of `n` factors towards one, so that many factors do not
/// sink it by their number alone.
pub open spec fn compensated(p: int, n: int) -> int {
    p + ((SCALE - p) * (n - 1) / n) * p / SCALE as int
}

pub proof fn lemma_product_of_push(s: Seq<int>, v: int)
    ensures
        product_of(s.push(v)) == product_of(s) * v / SCALE as int,
{
    assert(s.push(v).drop_last() =~= s);
}

pub proof fn lemma_max_of_push(s: Seq<int>, v: int)
    ensures
        max_of(s.push(v)) == if v > max_of(s) { v } else { max_of(s) },
{
    assert(s.push(v).drop_last() =~= s);
}

/// Scores a fixed value.
#[derive(Clone, Copy, PartialEq, Eq, Structural, Debug)]
pub struct FixedScore {
    value: Score,
}

impl FixedScore {
    pub closed spec fn spec_value(&self) -> Score {
        self.value
    }

    pub fn new(value: Score) -> (r: FixedScore)
        ensures
            r.spec_value() == value,
    {
        FixedScore { value }
    }

    pub fn value(&self) -> (r: Score)
        ensures
            r == self.spec_value(),
    {
        self.value
    }

    pub fn set_value(&mut self, value: Score)
        ensures
            final(self).spec_value() == value,
    {
        self.value = value;
    }

    /// The score of a node with this aggregator: the fixed value.
    pub fn aggregate(&self) -> (r: Score)
        ensures
            r == self.spec_value(),
    {
        self.value
    }
}

/// Scores the sum of the children's scores, or 0 when the sum lies under the threshold.
#[derive(Clone, Copy, PartialEq, Eq, Structural, Debug)]
pub struct Sum {
    threshold: Score,
}

impl Sum {
    pub closed spec fn spec_threshold(&self) -> Score {
        self.threshold
    }

    pub open spec fn spec_score(&self, children: Seq<int>) -> int {
        clamp_unit(at_least(sum_of(children), self.spec_threshold()@))
    }

    pub fn new(threshold: Score) -> (r: Sum)
        ensures
            r.spec_threshold() == threshold,
    {
        Sum { threshold }
    }

    pub fn threshold(&self) -> (r: Score)
        ensures
            r == self.spec_threshold(),
    {
        self.threshold
    }

    pub fn set_threshold(&mut self, threshold: Score)
        ensures
            final(self).spec_threshold() == threshold,
    {
        self.threshold = threshold;
    }

    pub fn aggregate(&self, children: &Vec<Score>) -> (r: Score)
        ensures
            r@ == self.spec_score(values(children@)),
    {
        let total = Score::sum(children);
        proof {
            assert forall|i: int| 0 <= i < values(children@).len() implies values(children@)[i]
                >= 0 by {
                lemma_score_nonneg(children@[i]);
            }
            lemma_sum_of_nonneg(values(children@));
        }
        let t = self.threshold.get();
        if total.get() < t {
            Score::min_score()
        } else {
            total
        }
    }
}

/// Scores the sum of the children's scores, but 0 as soon as one child lies under the threshold.
#[derive(Clone, Copy, PartialEq, Eq, Structural, Debug)]
pub struct AllOrNothing {
    threshold: Score,
}

impl AllOrNothing {
    pub closed spec fn spec_threshold(&self) -> Score {
        self.threshold
    }

    pub open spec fn spec_score(&self, children: Seq<int>) -> int {
        if exists|i: int| 0 <= i < children.len() && children[i] < self.spec_threshold()@ {
            0
        } else {
            clamp_unit(sum_of(children))
        }
    }

    pub fn new(threshold: Score) -> (r: AllOrNothing)
        ensures
            r.spec_threshold() == threshold,
    {
        AllOrNothing { threshold }
    }

    pub fn threshold(&self) -> (r: Score)
        ensures
            r == self.spec_threshold(),
    {
        self.threshold
    }

    pub fn set_threshold(&mut self, threshold: Score)
        ensures
            final(self).spec_threshold() == threshold,
    {
        self.threshold = threshold;
    }

    pub fn aggregate(&self, children: &Vec<Score>) -> (r: Score)
        ensures
            r@ == self.spec_score(values(children@)),
    {
        let t = self.threshold.get();
        let mut i: usize = 0;
        while i < children.len()
            invariant
                i <= children.len(),
                t == self.spec_threshold()@,
                forall|j: int| 0 <= j < i ==> values(children@)[j] >= t,
            decreases children.len() - i,
        {
            if children[i].get() < t {
                assert(values(children@)[i as int] < self.spec_threshold()@);
                return Score::min_score();
            }
            i = i + 1;
        }
        Score::sum(children)
    }
}

/// Scores the product of the children's scores, or 0 when it lies under the threshold.
#[derive(Clone, Copy, PartialEq, Eq, Structural, Debug)]
pub struct Product {
    threshold: Score,
    use_compensation: bool,
}

impl Product {
    pub closed spec fn spec_threshold(&self) -> Score {
        self.threshold
    }

    pub closed spec fn spec_compensation(&self) -> bool {
        self.use_compensation
    }

    pub open spec fn spec_score(&self, children: Seq<int>) -> int {
        let p = product_of(children);
        let q = if self.spec_compensation() && children.len() > 0 {
            compensated(p, children.len() as int)
        } else {
            p
        };
        clamp_unit(at_least(q, self.spec_threshold()@))
    }

    pub fn new(threshold: Score) -> (r: Product)
        ensures
            r.spec_threshold() == threshold,
            !r.spec_compensation(),
    {
        Product { threshold, use_compensation: false }
    }

    /// Turns the compensation for the number of factors on or off.
    pub fn with_compensation(self, compensation: bool) -> (r: Product)
        ensures
            r.spec_threshold() == self.spec_threshold(),
            r.spec_compensation() == compensation,
    {
        Product { threshold: self.threshold, use_compensation: compensation }
    }

    pub fn threshold(&self) -> (r: Score)
        ensures
            r == self.spec_threshold(),
    {
        self.threshold
    }

    pub fn set_threshold(&mut self, threshold: Score)
        ensures
            final(self).spec_threshold() == threshold,
            final(self).spec_compensation() == old(self).spec_compensation(),
    {
        self.threshold = threshold;
    }

    pub fn aggregate(&self, children: &Vec<Score>) -> (r: Score)
        ensures
            r@ == self.spec_score(values(children@)),
    {
        let mut p: u64 = SCALE as u64;
        let mut i: usize = 0;
        while i < children.len()
            invariant
                i <= children.len(),
                p as int == product_of(values(children@).take(i as int)),
                p <= SCALE,
            decreases children.len() - i,
        {
            let v = children[i].get() as u64;
            proof {
                lemma_product_of_push(values(children@).take(i as int), v as int);
                assert(values(children@).take(i as int + 1) =~= values(children@).take(
                    i as int,
                ).push(v as int));
                assert(p * v <= SCALE * SCALE) by (nonlinear_arith)
                    requires
                        p <= SCALE,
                        v <= SCALE,
                ;
                assert(p * v / (SCALE as int) <= p) by (nonlinear_arith)
                    requires
                        v <= SCALE,
                ;
            }
            p = p * v / (SCALE as u64);
            i = i + 1;
        }
        assert(values(children@).take(children.len() as int) =~= values(children@));
        let n = children.len();
        if self.use_compensation && n > 0 {
            assert((SCALE - p) * (n - 1) <= SCALE * 0x1_0000_0000_0000_0000) by (nonlinear_arith)
                requires
                    p <= SCALE,
                    n >= 1,
                    n <= usize::MAX,
            ;
            let f: u128 = (SCALE as u64 - p) as u128 * (n - 1) as u128 / n as u128;
            proof {
                let x = (SCALE - p) as int;
                assert(x * (n - 1) <= x * n) by (nonlinear_arith)
                    requires
                        x >= 0,
                        n >= 1,
                ;
                assert(x * (n - 1) / (n as int) <= x) by (nonlinear_arith)
                    requires
                        x * (n - 1) <= x * n,
                        x >= 0,
                        n >= 1,
                ;
                assert(f * p / (SCALE as int) <= f) by (nonlinear_arith)
                    requires
                        p <= SCALE,
                        f >= 0,
                ;
                assert(f * p <= SCALE * SCALE) by (nonlinear_arith)
                    requires
                        p <= SCALE,
                        f <= SCALE,
                ;
            }
            p = p + (f as u64 * p) / (SCALE as u64);
        }
        let t = self.threshold.get() as u64;
        if p < t {
            Score::min_score()
        } else {
            Score::new_unchecked(p as u32)
        }
    }
}

/// Scores the highest of the children's scores, or 0 when it lies under the threshold.
#[derive(Clone, Copy, PartialEq, Eq, Structural, Debug)]
pub struct Winning {
    threshold: Score,
}

impl Winning {
    pub closed spec fn spec_threshold(&self) -> Score {
        self.threshold
    }

    pub open spec fn spec_score(&self, children: Seq<int>) -> int {
        clamp_unit(at_least(max_of(children), self.spec_threshold()@))
    }

    pub fn new(threshold: Score) -> (r: Winning)
        ensures
            r.spec_threshold() == threshold,
    {
        Winning { threshold }
    }

    pub fn threshold(&self) -> (r: Score)
        ensures
            r == self.spec_threshold(),
    {
        self.threshold
    }

    pub fn set_threshold(&mut self, threshold: Score)
        ensures
            final(self).spec_threshold() == threshold,
    {
        self.threshold = threshold;
    }

    pub fn aggregate(&self, children: &Vec<Score>) -> (r: Score)
        ensures
            r@ == self.spec_score(values(children@)),
    {
        let mut m: u32 = 0;
        let mut i: usize = 0;
        while i < children.len()
            invariant
                i <= children.len(),
                m as int == max_of(values(children@).take(i as int)),
                m <= SCALE,
            decreases children.len() - i,
        {
            let v = children[i].get();
            proof {
                lemma_max_of_push(values(children@).take(i as int), v as int);
                assert(values(children@).take(i as int + 1) =~= values(children@).take(
                    i as int,
                ).push(v as int));
            }
            if v > m {
                m = v;
            }
            i = i + 1;
        }
        assert(values(children@).take(children.len() as int) =~= values(children@));
        if m < self.threshold.get() {
            Score::min_score()
        } else {
            Score::new_unchecked(m)
        }
    }
}

} // verus!
