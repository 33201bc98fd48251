//! Picking: turning an actor's scored children into the id of the action to perform.
use vstd::prelude::*;
use rand::rngs::StdRng;
use crate::random::choose_entity;
use crate::score::Score;
use crate::tree::{lemma_child_link, lemma_scored_among, scored_among, scored_children, Hierarchy, Node};

verus! {

/// Names a kind of action, the same for every actor.
#[derive(Clone, Copy, PartialEq, Eq, Structural, Debug, Hash)]
pub struct ActionId(pub u64);

/// The action of the last entry for `k` in `choices`.
pub open spec fn lookup(choices: Seq<(usize, ActionId)>, k: usize) -> Option<ActionId>
    decreases choices.len(),
{
    if choices.len() == 0 {
        None
    } else if choices.last().0 == k {
        Some(choices.last().1)
    } else {
        lookup(choices.drop_last(), k)
    }
}

/// The entries of `choices` that are not for `k`, in order.
pub open spec fn without_key(choices: Seq<(usize, ActionId)>, k: usize) -> Seq<(usize, ActionId)>
    decreases choices.len(),
{
    if choices.len() == 0 {
        Seq::empty()
    } else {
        let rest = without_key(choices.drop_last(), k);
        if choices.last().0 == k {
            rest
        } else {
            rest.push(choices.last())
        }
    }
}

pub proof fn lemma_without_key(choices: Seq<(usize, ActionId)>, k: usize)
    ensures
        forall|j: usize| #[trigger] lookup(without_key(choices, k), j) == if j == k {
            None
        } else {
            lookup(choices, j)
        },
    decreases choices.len(),
{
    if choices.len() > 0 {
        lemma_without_key(choices.drop_last(), k);
        let rest = without_key(choices.drop_last(), k);
        let last = choices.last();
        assert(rest.push(last).drop_last() =~= rest);
        assert forall|j: usize| #[trigger] lookup(without_key(choices, k), j) == if j == k {
            None
        } else {
            lookup(choices, j)
        } by {
            assert(lookup(rest, j) == if j == k {
                None
            } else {
                lookup(choices.drop_last(), j)
            });
        }
    }
}

/// No two entries are for the same entity.
pub open spec fn keys_unique(choices: Seq<(usize, ActionId)>) -> bool {
    forall|i: int, j: int|
        0 <= i < j < choices.len() ==> #[trigger] choices[i].0 != #[trigger] choices[j].0
}

/// The entries kept without `k` come from `choices`, none is for `k`, and keys stay unique.
pub proof fn lemma_without_key_entries(choices: Seq<(usize, ActionId)>, k: usize)
    ensures
        forall|i: int|
            0 <= i < without_key(choices, k).len() ==> choices.contains(
                #[trigger] without_key(choices, k)[i],
            ) && without_key(choices, k)[i].0 != k,
        keys_unique(choices) ==> keys_unique(without_key(choices, k)),
    decreases choices.len(),
{
    if choices.len() > 0 {
        let rest = choices.drop_last();
        let last = choices.last();
        lemma_without_key_entries(rest, k);
        let w = without_key(rest, k);
        let full = without_key(choices, k);
        assert forall|i: int| 0 <= i < full.len() implies choices.contains(#[trigger] full[i])
            && full[i].0 != k by {
            if i < w.len() {
                assert(full[i] == w[i]);
                assert(rest.contains(w[i]));
                let m = choose|m: int| 0 <= m < rest.len() && rest[m] == w[i];
                assert(choices[m] == w[i]);
            } else {
                assert(full[i] == last);
                assert(choices[choices.len() - 1] == last);
            }
        }
        if keys_unique(choices) {
            assert(keys_unique(rest)) by {
                assert forall|i: int, j: int| 0 <= i < j < rest.len() implies #[trigger] rest[i].0
                    != #[trigger] rest[j].0 by {
                    assert(choices[i] == rest[i] && choices[j] == rest[j]);
                }
            }
            assert forall|i: int, j: int| 0 <= i < j < full.len() implies #[trigger] full[i].0
                != #[trigger] full[j].0 by {
                if j < w.len() {
                    assert(full[i] == w[i] && full[j] == w[j]);
                } else {
                    assert(full[j] == last);
                    assert(full[i] == w[i]);
                    assert(rest.contains(w[i]));
                    let m = choose|m: int| 0 <= m < rest.len() && rest[m] == w[i];
                    assert(choices[m] == w[i]);
                    assert(choices[choices.len() - 1] == last);
                }
            }
        }
    }
}

/// The action for a chosen entity: its choice, or the default when there is none.
pub open spec fn resolve(
    default: ActionId,
    choices: Seq<(usize, ActionId)>,
    chosen: Option<usize>,
) -> ActionId {
    match chosen {
        Some(e) => match lookup(choices, e) {
            Some(a) => a,
            None => default,
        },
        None => default,
    }
}

/// An actor's choices of action, one per scoring child, and its last pick.
#[derive(Debug)]
pub struct Picker {
    default: ActionId,
    choices: Vec<(usize, ActionId)>,
    picked: ActionId,
}

impl Picker {
    #[verifier::type_invariant]
    spec fn inv(self) -> bool {
        keys_unique(self.choices@)
    }

    pub closed spec fn spec_default(&self) -> ActionId {
        self.default
    }

    pub closed spec fn spec_choices(&self) -> Seq<(usize, ActionId)> {
        self.choices@
    }

    pub closed spec fn spec_picked(&self) -> ActionId {
        self.picked
    }

    /// A picker with no choices, whose last pick is the default.
    pub fn new(default: ActionId) -> (r: Picker)
        ensures
            r.spec_default() == default,
            r.spec_choices().len() == 0,
            r.spec_picked() == default,
            keys_unique(r.spec_choices()),
    {
        Picker { default, choices: Vec::new(), picked: default }
    }

    /// Adds the choice of `action` for the scoring entity `score_entity`, in place of any
    /// earlier choice for it.
    pub fn with(self, score_entity: usize, action: ActionId) -> (r: Picker)
        ensures
            r.spec_default() == self.spec_default(),
            r.spec_picked() == self.spec_picked(),
            keys_unique(r.spec_choices()),
            lookup(r.spec_choices(), score_entity) == Some(action),
            forall|k: usize|
                k != score_entity ==> #[trigger] lookup(r.spec_choices(), k) == lookup(
                    self.spec_choices(),
                    k,
                ),
    {
        proof {
            use_type_invariant(&self);
        }
        let mut kept: Vec<(usize, ActionId)> = Vec::new();
        let mut i: usize = 0;
        while i < self.choices.len()
            invariant
                i <= self.choices.len(),
                kept@ == without_key(self.choices@.take(i as int), score_entity),
            decreases self.choices.len() - i,
        {
            let entry = self.choices[i];
            proof {
                assert(self.choices@.take(i as int + 1).drop_last() =~= self.choices@.take(i as int));
            }
            if entry.0 != score_entity {
                kept.push(entry);
            }
            i = i + 1;
        }
        proof {
            assert(self.choices@.take(self.choices@.len() as int) =~= self.choices@);
            lemma_without_key(self.choices@, score_entity);
            lemma_without_key_entries(self.choices@, score_entity);
            let full = kept@.push((score_entity, action));
            assert forall|i: int, j: int| 0 <= i < j < full.len() implies #[trigger] full[i].0
                != #[trigger] full[j].0 by {
                if j < kept@.len() {
                    assert(full[i] == kept@[i] && full[j] == kept@[j]);
                } else {
                    assert(full[i] == kept@[i]);
                }
            }
            assert(kept@.push((score_entity, action)).drop_last() =~= kept@);
            assert(kept@ == without_key(self.choices@, score_entity));
            assert forall|k: usize| k != score_entity implies #[trigger] lookup(
                kept@.push((score_entity, action)),
                k,
            ) == lookup(self.choices@, k) by {
                assert(lookup(without_key(self.choices@, score_entity), k) == lookup(
                    self.choices@,
                    k,
                ));
            }
        }
        kept.push((score_entity, action));
        Picker { default: self.default, choices: kept, picked: self.picked }
    }

    /// Records the pick of `score_entity`: its action, or the default when there is no
    /// entity or no choice for it.
    pub fn pick(&mut self, score_entity: Option<usize>) -> (r: ActionId)
        ensures
            r == resolve(old(self).spec_default(), old(self).spec_choices(), score_entity),
            final(self).spec_picked() == r,
            final(self).spec_default() == old(self).spec_default(),
            final(self).spec_choices() == old(self).spec_choices(),
    {
        proof {
            use_type_invariant(&*self);
        }
        let action = match score_entity {
            Some(e) => match self.find(e) {
                Some(a) => a,
                None => self.default,
            },
            None => self.default,
        };
        self.picked = action;
        action
    }

    fn find(&self, e: usize) -> (r: Option<ActionId>)
        ensures
            r == lookup(self.choices@, e),
    {
        let mut i: usize = self.choices.len();
        assert(self.choices@.take(i as int) =~= self.choices@);
        while i > 0
            invariant
                i <= self.choices.len(),
                lookup(self.choices@.take(i as int), e) == lookup(self.choices@, e),
            decreases i,
        {
            let entry = self.choices[i - 1];
            proof {
                assert(self.choices@.take(i as int).drop_last() =~= self.choices@.take(i - 1));
            }
            if entry.0 == e {
                return Some(entry.1);
            }
            i = i - 1;
        }
        None
    }

    /// The scoring entities that have a choice, in the order they were added.
    pub fn choice_entities(&self) -> (r: Vec<usize>)
        ensures
            r@ == self.spec_choices().map_values(|c: (usize, ActionId)| c.0),
    {
        let mut out: Vec<usize> = Vec::new();
        let mut i: usize = 0;
        while i < self.choices.len()
            invariant
                i <= self.choices.len(),
                out@ == self.choices@.take(i as int).map_values(|c: (usize, ActionId)| c.0),
            decreases self.choices.len() - i,
        {
            out.push(self.choices[i].0);
            proof {
                assert(self.choices@.take(i as int + 1).map_values(|c: (usize, ActionId)| c.0)
                    =~= self.choices@.take(i as int).map_values(|c: (usize, ActionId)| c.0).push(
                    self.choices@[i as int].0,
                ));
            }
            i = i + 1;
        }
        assert(self.choices@.take(self.choices@.len() as int) =~= self.choices@);
        out
    }

    pub fn default_action(&self) -> (r: ActionId)
        ensures
            r == self.spec_default(),
    {
        self.default
    }

    pub fn picked(&self) -> (r: ActionId)
        ensures
            r == self.spec_picked(),
    {
        self.picked
    }

    /// Whether `action` is the default action.
    pub fn is_default(&self, action: ActionId) -> (r: bool)
        ensures
            r == (action == self.spec_default()),
    {
        action == self.default
    }

    /// Whether the last pick was the default action.
    pub fn picked_default(&self) -> (r: bool)
        ensures
            r == (self.spec_picked() == self.spec_default()),
    {
        self.picked == self.default
    }
}

/// The scoring children of entity `e`, each with its score.
pub open spec fn child_scores(ns: Seq<Node>, e: int) -> Seq<(usize, Score)> {
    scored_children(ns, e).map_values(|c: usize| (c, ns[c as int].score.unwrap()))
}

/// The first entity whose score reaches `t`.
pub open spec fn first_at_least(cs: Seq<(usize, Score)>, t: int) -> Option<usize>
    decreases cs.len(),
{
    if cs.len() == 0 {
        None
    } else {
        match first_at_least(cs.drop_last(), t) {
            Some(e) => Some(e),
            None => if cs.last().1@ >= t {
                Some(cs.last().0)
            } else {
                None
            },
        }
    }
}

/// The entity with the greatest score; of equal scores, the first.
pub open spec fn highest(cs: Seq<(usize, Score)>) -> Option<(usize, Score)>
    decreases cs.len(),
{
    if cs.len() == 0 {
        None
    } else {
        match highest(cs.drop_last()) {
            None => Some(cs.last()),
            Some(b) => if cs.last().1@ > b.1@ {
                Some(cs.last())
            } else {
                Some(b)
            },
        }
    }
}

pub proof fn lemma_lookup_key(choices: Seq<(usize, ActionId)>, i: int)
    requires
        0 <= i < choices.len(),
    ensures
        lookup(choices, choices[i].0).is_some(),
    decreases choices.len(),
{
    if choices.last().0 != choices[i].0 {
        lemma_lookup_key(choices.drop_last(), i);
    }
}

/// Picks the first child whose score reaches the threshold.
#[derive(Clone, Copy, PartialEq, Eq, Structural, Debug)]
pub struct FirstToScore {
    threshold: Score,
}

impl FirstToScore {
    pub closed spec fn spec_threshold(&self) -> Score {
        self.threshold
    }

    pub fn new(threshold: Score) -> (r: FirstToScore)
        ensures
            r.spec_threshold() == threshold,
    {
        FirstToScore { threshold }
    }

    pub fn threshold(&self) -> (r: Score)
        ensures
            r == self.spec_threshold(),
    {
        self.threshold
    }

    pub fn set_threshold(&mut self, threshold: Score)
        ensures
            final(self).spec_threshold() == threshold,
    {
        self.threshold = threshold;
    }

    /// The first of `children`, in order, whose score reaches the threshold.
    pub fn select(&self, children: &Vec<(usize, Score)>) -> (r: Option<usize>)
        ensures
            r == first_at_least(children@, self.spec_threshold()@),
    {
        let t = self.threshold.get();
        let mut i: usize = 0;
        while i < children.len()
            invariant
                i <= children.len(),
                t == self.spec_threshold()@,
                first_at_least(children@.take(i as int), t as int).is_none(),
            decreases children.len() - i,
        {
            proof {
                assert(children@.take(i as int + 1).drop_last() =~= children@.take(i as int));
            }
            if children[i].1.get() >= t {
                proof {
                    lemma_first_prefix(children@, i as int + 1, t as int);
                }
                return Some(children[i].0);
            }
            i = i + 1;
        }
        assert(children@.take(children@.len() as int) =~= children@);
        None
    }
}

/// Once some prefix has an entity reaching `t`, so has the whole sequence, the same one.
pub proof fn lemma_first_prefix(cs: Seq<(usize, Score)>, n: int, t: int)
    requires
        0 <= n <= cs.len(),
        first_at_least(cs.take(n), t).is_some(),
    ensures
        first_at_least(cs, t) == first_at_least(cs.take(n), t),
    decreases cs.len() - n,
{
    if n < cs.len() {
        assert(cs.take(n + 1).drop_last() =~= cs.take(n));
        lemma_first_prefix(cs, n + 1, t);
    } else {
        assert(cs.take(n) =~= cs);
    }
}

/// Picks the child with the greatest score.
#[derive(Clone, Copy, PartialEq, Eq, Structural, Debug)]
pub struct Highest;

impl Highest {
    /// The first of `children` with the greatest score.
    pub fn select(&self, children: &Vec<(usize, Score)>) -> (r: Option<usize>)
        ensures
            r == match highest(children@) {
                Some(b) => Some(b.0),
                None => None::<usize>,
            },
    {
        let mut best: Option<(usize, Score)> = None;
        let mut i: usize = 0;
        while i < children.len()
            invariant
                i <= children.len(),
                best == highest(children@.take(i as int)),
            decreases children.len() - i,
        {
            let c = children[i];
            proof {
                assert(children@.take(i as int + 1).drop_last() =~= children@.take(i as int));
            }
            best = match best {
                None => Some(c),
                Some(b) => if c.1.get() > b.1.get() {
                    Some(c)
                } else {
                    Some(b)
                },
            };
            i = i + 1;
        }
        assert(children@.take(children@.len() as int) =~= children@);
        match best {
            Some(b) => Some(b.0),
            None => None,
        }
    }
}

/// Picks one of the picker's choices at random, whatever the scores.
pub struct PickRandom {
    pub rng: StdRng,
}

impl PickRandom {
    pub fn new(rng: StdRng) -> (r: PickRandom) {
        PickRandom { rng }
    }

    pub fn set_rng(&mut self, rng: StdRng) {
        self.rng = rng;
    }

    /// One of the entities that have a choice in `picker`; `None` when there is none.
    pub fn select(&mut self, picker: &Picker) -> (r: Option<usize>)
        ensures
            r.is_none() <==> picker.spec_choices().len() == 0,
            r matches Some(k) ==> lookup(picker.spec_choices(), k).is_some(),
    {
        let keys = picker.choice_entities();
        let r = choose_entity(&mut self.rng, &keys);
        proof {
            if let Some(k) = r {
                let i = choose|i: int| 0 <= i < keys@.len() && keys@[i] == k;
                lemma_lookup_key(picker.spec_choices(), i);
            }
        }
        r
    }
}

/// How an actor picks.
pub enum PickPolicy {
    FirstToScore(FirstToScore),
    Highest(Highest),
    Random(PickRandom),
}

/// Whether `after` is an action that `policy` may pick for the actor `entity` with `picker`.
pub open spec fn picked_by(ns: Seq<Node>, entity: int, picker: Picker, policy: PickPolicy, after: ActionId) -> bool {
    let d = picker.spec_default();
    let ch = picker.spec_choices();
    match policy {
        PickPolicy::FirstToScore(f) => after == resolve(d, ch, first_at_least(child_scores(ns, entity), f.spec_threshold()@)),
        PickPolicy::Highest(_) => after == resolve(
            d,
            ch,
            match highest(child_scores(ns, entity)) {
                Some(b) => Some(b.0),
                None => None::<usize>,
            },
        ),
        PickPolicy::Random(_) => if ch.len() == 0 {
            after == d
        } else {
            exists|k: usize| lookup(ch, k).is_some() && after == #[trigger] resolve(d, ch, Some(k))
        },
    }
}

impl Hierarchy {
    /// The scoring children of `e`, each with its score.
    pub fn child_scores(&self, e: usize) -> (r: Vec<(usize, Score)>)
        requires
            self.wf(),
            e < self.nodes.len(),
        ensures
            r@ == child_scores(self.nodes@, e as int),
    {
        let ghost ns = self.nodes@;
        let cs = self.scored_children(e);
        let mut out: Vec<(usize, Score)> = Vec::new();
        let mut k: usize = 0;
        while k < cs.len()
            invariant
                k <= cs.len(),
                ns == self.nodes@,
                self.wf(),
                e < self.nodes.len(),
                cs@ == scored_children(ns, e as int),
                out@ == cs@.take(k as int).map_values(|c: usize| (c, ns[c as int].score.unwrap())),
            decreases cs.len() - k,
        {
            let c = cs[k];
            proof {
                lemma_scored_among(ns, ns[e as int].children@);
                assert(cs@[k as int] == scored_among(ns, ns[e as int].children@)[k as int]);
                lemma_child_link(ns, e as int, c);
            }
            let s = match self.nodes[c].score {
                Some(s) => s,
                None => Score::min_score(),
            };
            out.push((c, s));
            proof {
                assert(cs@.take(k as int + 1).map_values(|c: usize| (c, ns[c as int].score.unwrap()))
                    =~= cs@.take(k as int).map_values(|c: usize| (c, ns[c as int].score.unwrap())).push(
                    (c, s),
                ));
            }
            k = k + 1;
        }
        assert(cs@.take(cs@.len() as int) =~= cs@);
        out
    }
}

impl PickPolicy {
    /// Picks for the actor `entity` and records the pick on `picker`.
    pub fn run(&mut self, tree: &Hierarchy, entity: usize, picker: &mut Picker) -> (r: ActionId)
        requires
            tree.wf(),
            entity < tree.nodes@.len(),
        ensures
            picked_by(tree.nodes@, entity as int, *old(picker), *old(self), r),
            final(picker).spec_picked() == r,
            final(picker).spec_default() == old(picker).spec_default(),
            final(picker).spec_choices() == old(picker).spec_choices(),
    {
        match self {
            PickPolicy::FirstToScore(f) => {
                let children = tree.child_scores(entity);
                let chosen = f.select(&children);
                picker.pick(chosen)
            },
            PickPolicy::Highest(h) => {
                let children = tree.child_scores(entity);
                let chosen = h.select(&children);
                picker.pick(chosen)
            },
            PickPolicy::Random(p) => {
                let chosen = p.select(picker);
                picker.pick(chosen)
            },
        }
    }
}

/// Picking runs.
pub struct PickingPlugin;

impl PickingPlugin {
    /// The actors a picking run picks for: the targeted one, or every actor with a picker.
    pub fn run_picking(target: Option<usize>, pickers: &Vec<usize>) -> (r: Vec<usize>)
        ensures
            target matches Some(t) ==> r@ == seq![t],
            target.is_none() ==> r@ == pickers@,
    {
        match target {
            Some(t) => {
                let mut v: Vec<usize> = Vec::new();
                v.push(t);
                proof {
                    assert(v@ =~= seq![t]);
                }
                v
            },
            None => {
                let mut v: Vec<usize> = Vec::new();
                let mut i: usize = 0;
                while i < pickers.len()
                    invariant
                        i <= pickers.len(),
                        v@ == pickers@.take(i as int),
                    decreases pickers.len() - i,
                {
                    v.push(pickers[i]);
                    proof {
                        assert(pickers@.take(i as int + 1) =~= pickers@.take(i as int).push(pickers@[i as int]));
                    }
                    i = i + 1;
                }
                assert(pickers@.take(pickers@.len() as int) =~= pickers@);
                v
            },
        }
    }
}

} // verus!
