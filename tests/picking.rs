use observed_utility::acting::CurrentAction;
use observed_utility::acting::RealtimeLifecyclePlugin;
use observed_utility::ancestor::{AncestorError, AncestorQuery};
use observed_utility::picking::{ActionId, FirstToScore, Highest, PickPolicy, PickRandom, Picker, PickingPlugin};
use observed_utility::random::RandomScore;
use observed_utility::score::{Score, ScoreBound, ScoreRange, SCALE};
use observed_utility::scoring::FixedScore;
use observed_utility::tree::{Aggregator, Hierarchy};
use rand::rngs::StdRng;
use rand::SeedableRng;

fn score(x: f64) -> Score {
    Score::new((x * SCALE as f64).round() as i64)
}

const MY_ACTION: ActionId = ActionId(1);
const IDLE_ACTION: ActionId = ActionId(0);

/// An actor with one scorer child of fixed score 0.7, scored and picked with `policy`.
fn pick_single(mut policy: PickPolicy) -> ActionId {
    let mut tree = Hierarchy::new();
    let actor = tree.spawn(None, None, None, None);
    let scorer = tree.spawn(
        Some(actor),
        Some(Score::min_score()),
        None,
        Some(Aggregator::Fixed(FixedScore::new(score(0.7)))),
    );
    let mut picker = Picker::new(IDLE_ACTION).with(scorer, MY_ACTION);
    tree.run_scoring(Some(scorer));
    for target in PickingPlugin::run_picking(Some(actor), &vec![actor]) {
        policy.run(&tree, target, &mut picker);
    }
    picker.picked()
}

#[test]
fn pick_first_to_score() {
    assert_eq!(MY_ACTION, pick_single(PickPolicy::FirstToScore(FirstToScore::new(score(0.5)))));
}

#[test]
fn pick_highest() {
    assert_eq!(MY_ACTION, pick_single(PickPolicy::Highest(Highest)));
}

/// An actor whose scoring children hold the given scores, with one action per child.
fn actor_with(scores: &[f64]) -> (Hierarchy, usize, Vec<usize>, Picker) {
    let mut tree = Hierarchy::new();
    let actor = tree.spawn(None, None, None, None);
    let mut picker = Picker::new(IDLE_ACTION);
    let mut children = Vec::new();
    for (i, &s) in scores.iter().enumerate() {
        let child = tree.spawn(Some(actor), Some(score(s)), None, None);
        picker = picker.with(child, ActionId(10 + i as u64));
        children.push(child);
    }
    (tree, actor, children, picker)
}

#[test]
fn first_to_score_takes_the_first_reaching_the_threshold() {
    let (tree, actor, children, mut picker) = actor_with(&[0.3, 0.6, 0.9]);
    let chosen = FirstToScore::new(score(0.5)).select(&tree.child_scores(actor));
    assert_eq!(Some(children[1]), chosen);
    let mut policy = PickPolicy::FirstToScore(FirstToScore::new(score(0.5)));
    assert_eq!(ActionId(11), policy.run(&tree, actor, &mut picker));
    assert_eq!(ActionId(11), picker.picked());
}

#[test]
fn first_to_score_falls_back_to_default() {
    let (tree, actor, _, mut picker) = actor_with(&[0.1, 0.2]);
    let mut policy = PickPolicy::FirstToScore(FirstToScore::new(score(0.5)));
    assert_eq!(IDLE_ACTION, policy.run(&tree, actor, &mut picker));
    assert!(picker.picked_default());
}

#[test]
fn highest_prefers_the_first_of_equal_scores() {
    let (tree, actor, children, mut picker) = actor_with(&[0.4, 0.8, 0.8, 0.2]);
    assert_eq!(Some(children[1]), Highest.select(&tree.child_scores(actor)));
    let mut policy = PickPolicy::Highest(Highest);
    assert_eq!(ActionId(11), policy.run(&tree, actor, &mut picker));
}

#[test]
fn highest_without_children_picks_default() {
    let (tree, actor, _, mut picker) = actor_with(&[]);
    let mut policy = PickPolicy::Highest(Highest);
    assert_eq!(IDLE_ACTION, policy.run(&tree, actor, &mut picker));
}

#[test]
fn random_picks_one_of_the_choices() {
    let (tree, actor, _, mut picker) = actor_with(&[0.0, 0.0, 0.0]);
    let mut policy = PickPolicy::Random(PickRandom::new(StdRng::seed_from_u64(7)));
    for _ in 0..20 {
        let a = policy.run(&tree, actor, &mut picker);
        assert!(a == ActionId(10) || a == ActionId(11) || a == ActionId(12));
    }
    let (tree, actor, _, mut picker) = actor_with(&[]);
    let mut policy = PickPolicy::Random(PickRandom::new(StdRng::seed_from_u64(7)));
    assert_eq!(IDLE_ACTION, policy.run(&tree, actor, &mut picker));
}

#[test]
fn picker_pick_resolves_choices() {
    let mut picker = Picker::new(IDLE_ACTION).with(4, ActionId(2)).with(4, ActionId(3)).with(5, ActionId(6));
    assert_eq!(ActionId(3), picker.pick(Some(4)));
    assert_eq!(ActionId(6), picker.pick(Some(5)));
    assert_eq!(IDLE_ACTION, picker.pick(Some(9)));
    assert_eq!(IDLE_ACTION, picker.pick(None));
    assert_eq!(vec![4, 5], picker.choice_entities());
    assert!(picker.is_default(IDLE_ACTION));
    assert!(!picker.is_default(ActionId(6)));
}

#[test]
fn run_picking_targets() {
    assert_eq!(vec![3], PickingPlugin::run_picking(Some(3), &vec![1, 2]));
    assert_eq!(vec![1, 2], PickingPlugin::run_picking(None, &vec![1, 2]));
}

#[test]
fn requests_only_when_idle_or_default() {
    let picker = Picker::new(IDLE_ACTION);
    assert!(RealtimeLifecyclePlugin::request_action_if_none_or_default(&picker, None));
    assert!(RealtimeLifecyclePlugin::request_action_if_none_or_default(&picker, Some(CurrentAction(IDLE_ACTION))));
    assert!(!RealtimeLifecyclePlugin::request_action_if_none_or_default(&picker, Some(CurrentAction(MY_ACTION))));
}

#[test]
fn random_score_stays_in_range() {
    let mixed = ScoreRange::new(ScoreBound::Included(score(0.8)), ScoreBound::Excluded(score(0.2)));
    assert_eq!(ScoreBound::Included(score(0.2)), mixed.min());
    assert_eq!(ScoreBound::Excluded(score(0.8)), mixed.max());
    let range = ScoreRange::new(ScoreBound::Included(score(0.8)), ScoreBound::Included(score(0.2)));
    assert_eq!(score(0.2), range.min_score());
    assert_eq!(score(0.8), range.max_score());
    let mut random = RandomScore::with_range(StdRng::seed_from_u64(3), range);
    for _ in 0..50 {
        let s = random.aggregate().get();
        assert!(score(0.2).get() <= s && s <= score(0.8).get());
    }
    let full = ScoreRange::full();
    assert_eq!(0, full.min_score().get());
    assert_eq!(SCALE, full.max_score().get());
    let open = ScoreRange::new(ScoreBound::Unbounded, ScoreBound::Excluded(score(0.5)));
    assert_eq!(0, open.min_score().get());
}

#[test]
fn ancestor_lookup_finds_the_nearest_carrier() {
    let mut tree = Hierarchy::new();
    let actor = tree.spawn(None, None, None, None);
    let group = tree.spawn(Some(actor), None, None, None);
    let scorer = tree.spawn(Some(group), Some(Score::max_score()), None, None);
    let mut carried: Vec<Option<Score>> = vec![Some(score(0.5)), None, None];
    let mut query = AncestorQuery::new();
    assert_eq!(Ok(actor), query.get(&tree, &carried, scorer));
    tree.score_ancestor(&mut query, &carried, scorer);
    assert_eq!(score(0.5), tree.nodes[scorer].score.unwrap());
    carried[group] = Some(score(0.25));
    // The remembered carrier still carries the state, so it is kept.
    assert_eq!(Ok(actor), query.get(&tree, &carried, scorer));
    query.clear_cache();
    assert_eq!(Ok(group), query.get(&tree, &carried, scorer));
    carried = vec![None, None, None];
    assert_eq!(Err(AncestorError::NotFound), query.get(&tree, &carried, scorer));
    tree.score_ancestor(&mut query, &carried, scorer);
    assert_eq!(0, tree.nodes[scorer].score.unwrap().get());
}
