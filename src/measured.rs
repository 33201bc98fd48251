//! Aggregators that weigh each child's score.
use vstd::prelude::*;
use crate::score::{
    clamp_unit, lemma_score_nonneg, lemma_sum_of_nonneg, lemma_sum_of_push, sum_of, Score, SCALE,
};
use crate::scoring::{lemma_max_of_push, lemma_product_of_push, max_of, product_of};

verus! {

broadcast use lemma_score_nonneg;

/// A child's weight in a weighing aggregator; a child without one weighs one.
#[derive(Clone, Copy, PartialEq, Eq, Structural, Debug)]
pub struct Weighted {
    weight: Score,
}

impl Weighted {
    pub closed spec fn spec_weight(&self) -> Score {
        self.weight
    }

    /// The least weight, zero.
    pub fn min_weight() -> (r: Weighted)
        ensures
            r.spec_weight()@ == 0,
    {
        Weighted { weight: Score::min_score() }
    }

    /// The greatest weight, one.
    pub closed spec fn max_weight_spec() -> Weighted {
        Weighted { weight: Score::max_score_spec() }
    }

    /// The greatest weight, one; also the weight of a child that has none.
    pub fn max_weight() -> (r: Weighted)
        ensures
            r == Weighted::max_weight_spec(),
            r.spec_weight()@ == SCALE,
    {
        Weighted { weight: Score::max_score() }
    }

    pub fn new(weight: Score) -> (r: Weighted)
        ensures
            r.spec_weight() == weight,
    {
        Weighted { weight }
    }

    pub fn get(&self) -> (r: Score)
        ensures
            r == self.spec_weight(),
    {
        self.weight
    }

    pub fn set(&mut self, weight: Score)
        ensures
            final(self).spec_weight() == weight,
    {
        self.weight = weight;
    }
}

impl Default for Weighted {
    fn default() -> (r: Weighted)
        ensures
            r == Weighted::max_weight_spec(),
    {
        Weighted::max_weight()
    }
}

/// The score of one child times its weight, in billionths, rounded down.
pub open spec fn weighted_term(input: (Score, Weighted)) -> int {
    input.0@ * input.1.spec_weight()@ / SCALE as int
}

pub open spec fn weighted_terms(inputs: Seq<(Score, Weighted)>) -> Seq<int> {
    inputs.map_values(|x: (Score, Weighted)| weighted_term(x))
}

pub open spec fn weights(inputs: Seq<(Score, Weighted)>) -> Seq<int> {
    inputs.map_values(|x: (Score, Weighted)| x.1.spec_weight()@)
}

/// One child's share of the weighted mean square, in billionths squared, for weights that
/// total `total`.
pub open spec fn square_term(input: (Score, Weighted), total: int) -> int {
    input.1.spec_weight()@ * input.0@ * input.0@ / total
}

pub open spec fn square_terms(inputs: Seq<(Score, Weighted)>, total: int) -> Seq<int> {
    inputs.map_values(|x: (Score, Weighted)| square_term(x, total))
}

/// Whether `r` is the integer square root of `v`, rounded down.
pub open spec fn is_floor_sqrt(r: int, v: int) -> bool {
    0 <= r && r * r <= v < (r + 1) * (r + 1)
}

/// The integer square root of `v`, rounded down.
pub open spec fn floor_sqrt(v: int) -> int {
    choose|r: int| is_floor_sqrt(r, v)
}

pub proof fn lemma_floor_sqrt_unique(r: int, v: int)
    requires
        is_floor_sqrt(r, v),
    ensures
        floor_sqrt(v) == r,
{
    assert(exists|x: int| is_floor_sqrt(x, v));
    let c = floor_sqrt(v);
    if c < r {
        assert((c + 1) * (c + 1) <= r * r) by (nonlinear_arith)
            requires
                0 <= c < r,
        ;
    } else if c > r {
        assert((r + 1) * (r + 1) <= c * c) by (nonlinear_arith)
            requires
                0 <= r < c,
        ;
    }
}

/// How a weighing aggregator combines its children.
#[derive(Clone, Copy, PartialEq, Eq, Structural, Debug)]
pub enum Measure {
    /// Sum of score times weight.
    WeightedSum,
    /// Product of score times weight.
    WeightedProduct,
    /// Largest score times weight.
    WeightedMax,
    /// Root of the mean of the squared scores, each weighed by its share of the total weight;
    /// 0 when the weights add up to 0.
    WeightedRMS,
}

impl Measure {
    pub open spec fn spec_calculate(&self, inputs: Seq<(Score, Weighted)>) -> int {
        match self {
            Measure::WeightedSum => clamp_unit(sum_of(weighted_terms(inputs))),
            Measure::WeightedProduct => clamp_unit(product_of(weighted_terms(inputs))),
            Measure::WeightedMax => clamp_unit(max_of(weighted_terms(inputs))),
            Measure::WeightedRMS => {
                let total = sum_of(weights(inputs));
                if total == 0 {
                    0
                } else {
                    let mean = sum_of(square_terms(inputs, total));
                    let capped = if mean > SCALE * SCALE {
                        SCALE * SCALE
                    } else {
                        mean
                    };
                    clamp_unit(floor_sqrt(capped))
                }
            },
        }
    }

    /// Combines the children's scores and weights into one score.
    pub fn calculate(&self, inputs: &Vec<(Score, Weighted)>) -> (r: Score)
        ensures
            r@ == self.spec_calculate(inputs@),
    {
        match self {
            Measure::WeightedSum => weighted_sum(inputs),
            Measure::WeightedProduct => weighted_product(inputs),
            Measure::WeightedMax => weighted_max(inputs),
            Measure::WeightedRMS => weighted_rms(inputs),
        }
    }
}

fn term(input: &(Score, Weighted)) -> (r: u64)
    ensures
        r == weighted_term(*input),
        r <= SCALE,
{
    let s = input.0.get() as u64;
    let w = input.1.weight.get() as u64;
    assert(s * w <= SCALE * SCALE) by (nonlinear_arith)
        requires
            s <= SCALE,
            w <= SCALE,
    ;
    assert(s * w / (SCALE as int) <= s) by (nonlinear_arith)
        requires
            w <= SCALE,
    ;
    s * w / (SCALE as u64)
}

fn weighted_sum(inputs: &Vec<(Score, Weighted)>) -> (r: Score)
    ensures
        r@ == clamp_unit(sum_of(weighted_terms(inputs@))),
{
    let mut acc: u64 = 0;
    let mut i: usize = 0;
    while i < inputs.len()
        invariant
            i <= inputs.len(),
            acc <= SCALE,
            acc as int == if sum_of(weighted_terms(inputs@).take(i as int)) > SCALE {
                SCALE as int
            } else {
                sum_of(weighted_terms(inputs@).take(i as int))
            },
        decreases inputs.len() - i,
    {
        let v = term(&inputs[i]);
        proof {
            let pre = weighted_terms(inputs@).take(i as int);
            lemma_sum_of_push(pre, v as int);
            assert(weighted_terms(inputs@).take(i as int + 1) =~= pre.push(v as int));
            assert forall|j: int| 0 <= j < pre.len() implies pre[j] >= 0 by {
                let x = inputs@[j];
                assert(x.0@ * x.1.spec_weight()@ >= 0) by (nonlinear_arith)
                    requires
                        x.0@ >= 0,
                        x.1.spec_weight()@ >= 0,
                ;
            }
            lemma_sum_of_nonneg(pre);
        }
        acc = if acc + v > SCALE as u64 {
            SCALE as u64
        } else {
            acc + v
        };
        i = i + 1;
    }
    assert(weighted_terms(inputs@).take(inputs.len() as int) =~= weighted_terms(inputs@));
    Score::new_unchecked(acc as u32)
}

fn weighted_product(inputs: &Vec<(Score, Weighted)>) -> (r: Score)
    ensures
        r@ == clamp_unit(product_of(weighted_terms(inputs@))),
{
    let mut acc: u64 = SCALE as u64;
    let mut i: usize = 0;
    while i < inputs.len()
        invariant
            i <= inputs.len(),
            acc <= SCALE,
            acc as int == product_of(weighted_terms(inputs@).take(i as int)),
        decreases inputs.len() - i,
    {
        let v = term(&inputs[i]);
        proof {
            let pre = weighted_terms(inputs@).take(i as int);
            lemma_product_of_push(pre, v as int);
            assert(weighted_terms(inputs@).take(i as int + 1) =~= pre.push(v as int));
        }
        assert(acc * v <= SCALE * SCALE) by (nonlinear_arith)
            requires
                acc <= SCALE,
                v <= SCALE,
        ;
        assert(acc * v / (SCALE as int) <= acc) by (nonlinear_arith)
            requires
                v <= SCALE,
        ;
        acc = acc * v / (SCALE as u64);
        i = i + 1;
    }
    assert(weighted_terms(inputs@).take(inputs.len() as int) =~= weighted_terms(inputs@));
    Score::new_unchecked(acc as u32)
}

fn weighted_max(inputs: &Vec<(Score, Weighted)>) -> (r: Score)
    ensures
        r@ == clamp_unit(max_of(weighted_terms(inputs@))),
{
    let mut acc: u64 = 0;
    let mut i: usize = 0;
    while i < inputs.len()
        invariant
            i <= inputs.len(),
            acc <= SCALE,
            acc as int == max_of(weighted_terms(inputs@).take(i as int)),
        decreases inputs.len() - i,
    {
        let v = term(&inputs[i]);
        proof {
            let pre = weighted_terms(inputs@).take(i as int);
            lemma_max_of_push(pre, v as int);
            assert(weighted_terms(inputs@).take(i as int + 1) =~= pre.push(v as int));
        }
        if v > acc {
            acc = v;
        }
        i = i + 1;
    }
    assert(weighted_terms(inputs@).take(inputs.len() as int) =~= weighted_terms(inputs@));
    Score::new_unchecked(acc as u32)
}

/// Integer square root, rounded down, of a value of at most `SCALE * SCALE`.
fn floor_sqrt_exec(v: u64) -> (r: u64)
    requires
        v <= SCALE * SCALE,
    ensures
        is_floor_sqrt(r as int, v as int),
        r <= SCALE,
{
    let mut lo: u64 = 0;
    let mut hi: u64 = SCALE as u64 + 1;
    while hi - lo > 1
        invariant
            lo < hi <= SCALE + 1,
            lo * lo <= v,
            v < hi * hi,
        decreases hi - lo,
    {
        let mid = lo + (hi - lo) / 2;
        assert(mid * mid <= 1000000001 * 1000000001) by (nonlinear_arith)
            requires
                mid <= 1000000001,
        ;
        if mid * mid <= v {
            lo = mid;
        } else {
            hi = mid;
        }
    }
    lo
}

fn weighted_rms(inputs: &Vec<(Score, Weighted)>) -> (r: Score)
    ensures
        r@ == (Measure::WeightedRMS).spec_calculate(inputs@),
{
    let mut total: u128 = 0;
    let mut i: usize = 0;
    while i < inputs.len()
        invariant
            i <= inputs.len(),
            total as int == sum_of(weights(inputs@).take(i as int)),
            total <= i * SCALE,
        decreases inputs.len() - i,
    {
        let w = inputs[i].1.weight.get() as u128;
        proof {
            let pre = weights(inputs@).take(i as int);
            lemma_sum_of_push(pre, w as int);
            assert(weights(inputs@).take(i as int + 1) =~= pre.push(w as int));
        }
        assert(total + w <= (i + 1) * SCALE) by (nonlinear_arith)
            requires
                total <= i * SCALE,
                w <= SCALE,
        ;
        assert((i + 1) * SCALE <= 0x1_0000_0000_0000_0000 * 1000000000) by (nonlinear_arith)
            requires
                i < 0x1_0000_0000_0000_0000,
        ;
        total = total + w;
        i = i + 1;
    }
    assert(weights(inputs@).take(inputs.len() as int) =~= weights(inputs@));
    if total == 0 {
        return Score::min_score();
    }
    let cap: u128 = SCALE as u128 * SCALE as u128;
    let mut acc: u128 = 0;
    let mut k: usize = 0;
    while k < inputs.len()
        invariant
            k <= inputs.len(),
            0 < total,
            cap == SCALE * SCALE,
            acc <= cap,
            acc as int == if sum_of(square_terms(inputs@, total as int).take(k as int)) > cap {
                cap as int
            } else {
                sum_of(square_terms(inputs@, total as int).take(k as int))
            },
        decreases inputs.len() - k,
    {
        let s = inputs[k].0.get() as u128;
        let w = inputs[k].1.weight.get() as u128;
        assert(w * s <= 1000000000 * 1000000000) by (nonlinear_arith)
            requires
                s <= 1000000000,
                w <= 1000000000,
        ;
        assert(w * s * s <= 1000000000 * 1000000000 * 1000000000) by (nonlinear_arith)
            requires
                s <= 1000000000,
                w * s <= 1000000000 * 1000000000,
        ;
        let v = w * s * s / total;
        proof {
            let pre = square_terms(inputs@, total as int).take(k as int);
            lemma_sum_of_push(pre, v as int);
            assert(square_terms(inputs@, total as int).take(k as int + 1) =~= pre.push(v as int));
            assert forall|j: int| 0 <= j < pre.len() implies pre[j] >= 0 by {
                let x = inputs@[j];
                let ww = x.1.spec_weight()@;
                let ss = x.0@;
                assert(ww * ss * ss / (total as int) >= 0) by (nonlinear_arith)
                    requires
                        ww >= 0,
                        ss >= 0,
                        total > 0,
                ;
            }
            lemma_sum_of_nonneg(pre);
        }
        acc = if v > cap - acc {
            cap
        } else {
            acc + v
        };
        k = k + 1;
    }
    assert(square_terms(inputs@, total as int).take(inputs.len() as int) =~= square_terms(
        inputs@,
        total as int,
    ));
    let root = floor_sqrt_exec(acc as u64);
    proof {
        lemma_floor_sqrt_unique(root as int, acc as int);
    }
    Score::new_unchecked(root as u32)
}

/// Scores its children by a [`Measure`] of their scores and weights.
#[derive(Clone, Copy, PartialEq, Eq, Structural, Debug)]
pub struct Measured {
    measure: Measure,
}

impl Measured {
    pub closed spec fn spec_measure(&self) -> Measure {
        self.measure
    }

    pub fn new(measure: Measure) -> (r: Measured)
        ensures
            r.spec_measure() == measure,
    {
        Measured { measure }
    }

    pub fn calculate(&self, inputs: &Vec<(Score, Weighted)>) -> (r: Score)
        ensures
            r@ == self.spec_measure().spec_calculate(inputs@),
    {
        self.measure.calculate(inputs)
    }

    pub fn measure(&self) -> (r: Measure)
        ensures
            r == self.spec_measure(),
    {
        self.measure
    }

    pub fn set_measure(&mut self, measure: Measure)
        ensures
            final(self).spec_measure() == measure,
    {
        self.measure = measure;
    }
}

} // verus!
