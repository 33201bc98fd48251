use observed_utility::evaluator::{
    Evaluated, Evaluator, ExponentialEvaluator, LinearEvaluator, LogarithmicEvaluator, Point, PowerEvaluator,
    SigmoidEvaluator,
};
use observed_utility::measured::{Measure, Measured, Weighted};
use observed_utility::score::{Score, SCALE};
use observed_utility::scoring::{AllOrNothing, FixedScore, Product, Sum, Winning};
use observed_utility::tree::{Aggregator, Hierarchy};

fn score(x: f64) -> Score {
    Score::new((x * SCALE as f64).round() as i64)
}

fn value(tree: &Hierarchy, e: usize) -> f32 {
    (tree.nodes[e].score.unwrap().get() as f64 / SCALE as f64) as f32
}

fn assert_close(expected: f32, actual: f32) {
    let tolerance = f32::EPSILON * expected.abs().max(actual.abs());
    assert!((expected - actual).abs() <= tolerance, "expected {expected}, got {actual}");
}

/// A parent with the given aggregator over fixed-score children, each with an optional weight.
fn parent_over(aggregator: Aggregator, children: &[(f64, Option<f64>)]) -> (Hierarchy, usize) {
    let mut tree = Hierarchy::new();
    let parent = tree.spawn(None, Some(Score::min_score()), None, Some(aggregator));
    for &(fixed, weight) in children {
        tree.spawn(
            Some(parent),
            Some(Score::min_score()),
            weight.map(|w| Weighted::new(score(w))),
            Some(Aggregator::Fixed(FixedScore::new(score(fixed)))),
        );
    }
    (tree, parent)
}

#[test]
fn all_or_nothing() {
    let (mut tree, parent) =
        parent_over(Aggregator::AllOrNothing(AllOrNothing::new(score(0.2))), &[(0.7, None), (0.3, None)]);
    tree.run_scoring(Some(parent));
    assert_eq!(1.0, value(&tree, parent), "Parent score should be 1.0.");
}

#[test]
fn evaluated_power() {
    let (mut tree, entity) = parent_over(
        Aggregator::Evaluated(Evaluated::new(Evaluator::Power(PowerEvaluator::default()))),
        &[(0.7, None)],
    );
    tree.run_scoring(Some(entity));
    assert_close(0.49, value(&tree, entity));
}

#[test]
fn fixed() {
    let mut tree = Hierarchy::new();
    let entity = tree.spawn(
        None,
        Some(Score::min_score()),
        None,
        Some(Aggregator::Fixed(FixedScore::new(score(0.5)))),
    );
    tree.run_scoring(Some(entity));
    assert_eq!(0.5, value(&tree, entity), "Score should be 0.5.");
}

#[test]
fn measured_weighted_sum() {
    let (mut tree, parent) = parent_over(
        Aggregator::Measured(Measured::new(Measure::WeightedSum)),
        &[(0.9, Some(0.9)), (0.8, Some(0.1))],
    );
    tree.run_scoring(Some(parent));
    assert_close(0.89, value(&tree, parent));
}

#[test]
fn measured_weighted_product() {
    let (mut tree, parent) = parent_over(
        Aggregator::Measured(Measured::new(Measure::WeightedProduct)),
        &[(0.9, Some(0.9)), (0.8, Some(0.1))],
    );
    tree.run_scoring(Some(parent));
    assert_close(0.0648, value(&tree, parent));
}

#[test]
fn measured_weighted_max() {
    let (mut tree, parent) = parent_over(
        Aggregator::Measured(Measured::new(Measure::WeightedMax)),
        &[(0.9, Some(0.9)), (0.8, Some(0.1))],
    );
    tree.run_scoring(Some(parent));
    assert_close(0.81, value(&tree, parent));
}

#[test]
fn measured_weighted_rms() {
    let (mut tree, parent) = parent_over(
        Aggregator::Measured(Measured::new(Measure::WeightedRMS)),
        &[(0.9, Some(0.9)), (0.8, Some(0.1))],
    );
    tree.run_scoring(Some(parent));
    assert_close(0.8905055, value(&tree, parent));
}

#[test]
fn product() {
    let (mut tree, parent) =
        parent_over(Aggregator::Product(Product::new(score(0.4))), &[(0.9, None), (0.8, None)]);
    tree.run_scoring(Some(parent));
    assert_close(0.72, value(&tree, parent));
}

#[test]
fn sum() {
    let (mut tree, parent) = parent_over(Aggregator::Sum(Sum::new(score(0.4))), &[(0.9, None), (0.8, None)]);
    tree.run_scoring(Some(parent));
    assert_eq!(1.0, value(&tree, parent), "Parent score should be 1.0.");
}

#[test]
fn winning() {
    let (mut tree, parent) =
        parent_over(Aggregator::Winning(Winning::new(score(0.5))), &[(0.9, None), (0.8, None)]);
    tree.run_scoring(Some(parent));
    assert_eq!(0.9, value(&tree, parent), "Parent score should be 0.9.");
}

#[test]
fn score_clamps_into_unit_range() {
    assert_eq!(0, Score::new(-5).get());
    assert_eq!(0, Score::new(i64::MIN).get());
    assert_eq!(SCALE, Score::new(i64::MAX).get());
    assert_eq!(SCALE, Score::new(SCALE as i64 + 1).get());
    assert_eq!(123, Score::new(123).get());
    let mut s = Score::new(10);
    s.set(-1);
    assert_eq!(0, s.get());
}

#[test]
fn sum_under_threshold_is_zero() {
    let (mut tree, parent) = parent_over(Aggregator::Sum(Sum::new(score(0.5))), &[(0.1, None), (0.2, None)]);
    tree.run_scoring(Some(parent));
    assert_eq!(0.0, value(&tree, parent));
    let (mut tree, parent) = parent_over(Aggregator::Sum(Sum::new(score(0.5))), &[(0.0, None)]);
    tree.run_scoring(Some(parent));
    assert_eq!(0.0, value(&tree, parent));
}

#[test]
fn all_or_nothing_with_one_child_under_threshold_is_zero() {
    let (mut tree, parent) =
        parent_over(Aggregator::AllOrNothing(AllOrNothing::new(score(0.2))), &[(0.7, None), (0.1, None)]);
    tree.run_scoring(Some(parent));
    assert_eq!(0.0, value(&tree, parent));
}

#[test]
fn product_with_compensation() {
    // p = 0.72; makeup = (1 - 0.72) * (1 - 1/2) = 0.14; 0.72 + 0.14 * 0.72 = 0.8208
    let (mut tree, parent) = parent_over(
        Aggregator::Product(Product::new(score(0.4)).with_compensation(true)),
        &[(0.9, None), (0.8, None)],
    );
    tree.run_scoring(Some(parent));
    assert_close(0.8208, value(&tree, parent));
}

#[test]
fn winning_without_children_keeps_its_score() {
    let (mut tree, parent) = parent_over(Aggregator::Winning(Winning::new(score(0.0))), &[]);
    tree.nodes[parent].score = Some(score(0.25));
    tree.run_scoring(Some(parent));
    assert_eq!(0.25, value(&tree, parent));
}

#[test]
fn weighted_rms_with_zero_weight_is_zero() {
    let (mut tree, parent) = parent_over(
        Aggregator::Measured(Measured::new(Measure::WeightedRMS)),
        &[(0.9, Some(0.0)), (0.8, Some(0.0))],
    );
    tree.run_scoring(Some(parent));
    assert_eq!(0.0, value(&tree, parent));
}

#[test]
fn weighted_sum_of_unweighted_children_uses_weight_one() {
    let (mut tree, parent) = parent_over(
        Aggregator::Measured(Measured::new(Measure::WeightedSum)),
        &[(0.3, None), (0.4, None)],
    );
    tree.run_scoring(Some(parent));
    assert_close(0.7, value(&tree, parent));
}

#[test]
fn evaluated_needs_exactly_one_child() {
    let (mut tree, parent) = parent_over(
        Aggregator::Evaluated(Evaluated::new(Evaluator::Power(PowerEvaluator::default()))),
        &[(0.7, None), (0.5, None)],
    );
    tree.nodes[parent].score = Some(score(0.25));
    tree.run_scoring(Some(parent));
    assert_eq!(0.25, value(&tree, parent));
}

#[test]
fn linear_curve() {
    let line = LinearEvaluator::from_range(0, 100 * SCALE as i64);
    assert_eq!(SCALE as i64 / 2, line.evaluate(50 * SCALE as i64));
    assert_eq!(0, line.evaluate(-7));
    assert_eq!(SCALE as i64, line.evaluate(500 * SCALE as i64));
    let falling = LinearEvaluator::new(Point::new(100, 0), Point::new(0, 10));
    assert_eq!(5, falling.evaluate(50));
}

#[test]
fn power_curve() {
    let cube = PowerEvaluator::from_power(3);
    assert_eq!(125_000_000, cube.evaluate(SCALE as i64 / 2));
    assert_eq!(0, cube.evaluate(-3));
    assert_eq!(SCALE as i64, cube.evaluate(2 * SCALE as i64));
    let flat = PowerEvaluator::from_power(0);
    assert_eq!(SCALE as i64, flat.evaluate(0));
}

#[test]
fn nested_tree_is_scored_bottom_up() {
    let mut tree = Hierarchy::new();
    let top = tree.spawn(None, Some(Score::min_score()), None, Some(Aggregator::Winning(Winning::new(score(0.0)))));
    let mid = tree.spawn(Some(top), Some(Score::min_score()), None, Some(Aggregator::Sum(Sum::new(score(0.0)))));
    tree.spawn(Some(mid), Some(Score::min_score()), None, Some(Aggregator::Fixed(FixedScore::new(score(0.25)))));
    tree.spawn(Some(mid), Some(Score::min_score()), None, Some(Aggregator::Fixed(FixedScore::new(score(0.5)))));
    tree.spawn(Some(top), Some(Score::min_score()), None, Some(Aggregator::Fixed(FixedScore::new(score(0.6)))));
    let order = tree.post_order(top);
    assert_eq!(vec![2, 3, 1, 4, 0], order);
    tree.run_scoring(None);
    assert_eq!(0.75, value(&tree, mid));
    assert_eq!(0.75, value(&tree, top));
}

#[test]
fn post_order_follows_scoring_nodes() {
    let mut tree = Hierarchy::new();
    let actor = tree.spawn(None, None, None, None);
    let a = tree.spawn(Some(actor), Some(Score::min_score()), None, None);
    let plain = tree.spawn(Some(a), None, None, None);
    let b = tree.spawn(Some(a), Some(Score::min_score()), None, None);
    let c = tree.spawn(Some(actor), Some(Score::min_score()), None, None);
    // A root without a score is not expanded; a child without a score comes out as a leaf.
    assert_eq!(vec![actor], tree.post_order(actor));
    assert_eq!(vec![plain, b, a], tree.post_order(a));
    assert_eq!(vec![c], tree.post_order(c));
    assert_eq!(vec![b], tree.scored_children(a));
}

#[test]
fn untargeted_run_scores_subtrees_under_unscored_actors() {
    let mut tree = Hierarchy::new();
    let actor = tree.spawn(None, None, None, None);
    let scorer = tree.spawn(Some(actor), Some(Score::min_score()), None, Some(Aggregator::Fixed(FixedScore::new(score(0.3)))));
    let other = tree.spawn(None, Some(Score::max_score()), None, None);
    tree.run_scoring(None);
    assert_close(0.3, value(&tree, scorer));
    assert_eq!(1.0, value(&tree, other));
    assert!(tree.nodes[actor].score.is_none());
}

#[test]
fn sigmoid_curve() {
    let half = SCALE as i64 / 2;
    assert_eq!(half, SigmoidEvaluator::default().evaluate(half));
    let plain = SigmoidEvaluator::from_k(0);
    assert_eq!(750_000_000, plain.evaluate(750_000_000));
    assert_eq!(0, plain.evaluate(-9));
    assert_eq!(SCALE as i64, plain.evaluate(SCALE as i64 * 3));
}

#[test]
fn exponential_and_logarithmic_curves() {
    let half = SCALE as i64 / 2;
    assert_eq!(666_666_666, ExponentialEvaluator::default().evaluate(half));
    assert_eq!(666_666_666, LogarithmicEvaluator::default().evaluate(half));
    assert_eq!(250_000_000, ExponentialEvaluator::from_k(0).evaluate(250_000_000));
    assert_eq!(2 * SCALE as i64, LogarithmicEvaluator::from_k(-500_000_000).evaluate(SCALE as i64));
    // A wide domain narrows the shape so that the curve stays defined everywhere on it.
    let wide = ExponentialEvaluator::from_range(-999_990_000, 0, 100 * SCALE as i64);
    let v = wide.evaluate(0);
    assert_eq!(0, v);
    assert!(wide.evaluate(100 * SCALE as i64) == SCALE as i64);
}

#[test]
fn evaluated_linear_through_tree() {
    let (mut tree, entity) = parent_over(
        Aggregator::Evaluated(Evaluated::new(Evaluator::Linear(LinearEvaluator::default()))),
        &[(0.3, None)],
    );
    tree.run_scoring(Some(entity));
    assert_close(0.3, value(&tree, entity));
}

#[test]
fn weighted_rms_divides_by_the_whole_weight() {
    let (mut tree, parent) = parent_over(
        Aggregator::Measured(Measured::new(Measure::WeightedRMS)),
        &[(0.5, None), (0.5, None)],
    );
    tree.run_scoring(Some(parent));
    assert_eq!(0.5, value(&tree, parent));
}

#[test]
fn sigmoid_passes_through_its_anchors_and_rises() {
    let curve = SigmoidEvaluator::default();
    assert_eq!(0, curve.evaluate(0));
    assert_eq!(SCALE as i64, curve.evaluate(SCALE as i64));
    let mut last = -1;
    for step in 0..=20 {
        let v = curve.evaluate(step * SCALE as i64 / 20);
        assert!(v >= last, "not rising at step {step}");
        last = v;
    }
    let steep = SigmoidEvaluator::from_k(500_000_000);
    assert_eq!(0, steep.evaluate(0));
    assert_eq!(SCALE as i64, steep.evaluate(SCALE as i64));
    let falling = SigmoidEvaluator::new(0, Point::new(0, SCALE as i64), Point::new(SCALE as i64, 0));
    assert_eq!(SCALE as i64, falling.evaluate(0));
    assert_eq!(0, falling.evaluate(SCALE as i64));
}

#[test]
fn decreasing_linear_curve() {
    let line = LinearEvaluator::new(Point::new(0, SCALE as i64), Point::new(SCALE as i64, 0));
    assert_eq!(750_000_000, line.evaluate(SCALE as i64 / 4));
    assert_eq!(SCALE as i64, line.evaluate(-5));
    assert_eq!(0, line.evaluate(2 * SCALE as i64));
}

#[test]
fn exponential_keeps_a_shape_the_domain_allows() {
    let curve = ExponentialEvaluator::from_range(-5_000_000, 0, 100 * SCALE as i64);
    assert_eq!(666_666_666, curve.evaluate(50 * SCALE as i64));
}

#[test]
fn aggregators_leave_a_node_without_children_alone() {
    for aggregator in [
        Aggregator::Sum(Sum::new(score(0.0))),
        Aggregator::AllOrNothing(AllOrNothing::new(score(0.0))),
        Aggregator::Product(Product::new(score(0.0))),
        Aggregator::Winning(Winning::new(score(0.0))),
        Aggregator::Measured(Measured::new(Measure::WeightedProduct)),
    ] {
        let mut tree = Hierarchy::new();
        let node = tree.spawn(None, Some(score(0.5)), None, Some(aggregator));
        tree.run_scoring(Some(node));
        assert_eq!(0.5, value(&tree, node));
    }
}

#[test]
fn winning_over_children_without_scores_is_zero() {
    let mut tree = Hierarchy::new();
    let node = tree.spawn(None, Some(score(0.5)), None, Some(Aggregator::Winning(Winning::new(score(0.0)))));
    tree.spawn(Some(node), None, None, None);
    tree.run_scoring(Some(node));
    assert_eq!(0.0, value(&tree, node));
}

#[test]
fn curve_anchors_are_corrected_not_rejected() {
    let swapped = PowerEvaluator::new(2, Point::new(SCALE as i64, SCALE as i64), Point::new(0, 0));
    assert_eq!(250_000_000, swapped.evaluate(SCALE as i64 / 2));
    let step = LinearEvaluator::from_range(5, 5);
    assert_eq!(0, step.evaluate(5));
    assert_eq!(SCALE as i64, step.evaluate(6));
    let sigmoid = SigmoidEvaluator::from_range(0, SCALE as i64, 0);
    assert_eq!(SCALE as i64, sigmoid.evaluate(0));
    assert_eq!(0, sigmoid.evaluate(SCALE as i64));
}
