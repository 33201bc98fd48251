//! One scoring run: every node of the chosen subtrees is rescored, children before parents.
use vstd::prelude::*;
use vstd::pervasive::VecAdditionalExecFns;
use crate::measured::Weighted;
use crate::score::{lemma_score_view_injective, lower_value, upper_value, Score};
use crate::tree::{
    children_first, expanded, hierarchy_wf, lemma_post_order_complete, lemma_post_order_props, lemma_reaches_bound, node_wf, reaches,
    lemma_child_link, lemma_scored_among, lemma_scored_among_push, post_order, post_order_all, scored,
    scored_among, scored_children, Aggregator, Hierarchy, Node,
};

verus! {

/// The weight a child brings to a weighing aggregator: its own, or one when it has none.
pub open spec fn weight_or_one(w: Option<Weighted>) -> Weighted {
    match w {
        Some(w) => w,
        None => Weighted::max_weight_spec(),
    }
}

/// Score and weight of each of the entities `cs`.
pub open spec fn child_inputs(ns: Seq<Node>, cs: Seq<usize>) -> Seq<(Score, Weighted)> {
    cs.map_values(|c: usize| (ns[c as int].score.unwrap(), weight_or_one(ns[c as int].weight)))
}

/// What the aggregator of entity `e` reads: its scoring children's scores and weights.
pub open spec fn inputs_of(ns: Seq<Node>, e: int) -> Seq<(Score, Weighted)> {
    child_inputs(ns, scored_children(ns, e))
}

pub open spec fn input_values(inputs: Seq<(Score, Weighted)>) -> Seq<int> {
    inputs.map_values(|x: (Score, Weighted)| x.0@)
}

/// Whether `after` is a score that `agg` gives for these inputs, where the node scored
/// `before`.
pub open spec fn aggregated(
    agg: Aggregator,
    inputs: Seq<(Score, Weighted)>,
    before: Score,
    after: Score,
) -> bool {
    let xs = input_values(inputs);
    match agg {
        Aggregator::Fixed(a) => after == a.spec_value(),
        Aggregator::Sum(a) => after@ == a.spec_score(xs),
        Aggregator::AllOrNothing(a) => after@ == a.spec_score(xs),
        Aggregator::Product(a) => after@ == a.spec_score(xs),
        Aggregator::Winning(a) => after@ == a.spec_score(xs),
        Aggregator::Measured(a) => after@ == a.spec_measure().spec_calculate(inputs),
        Aggregator::Evaluated(a) => if inputs.len() == 1 {
            after@ == a.spec_score(xs[0])
        } else {
            after@ == before@
        },
        Aggregator::Random(a) => lower_value(a.range.spec_min()) <= after@ <= upper_value(
            a.range.spec_max(),
        ),
    }
}

/// The same configuration: equal, but for the state of a random aggregator's generator.
pub open spec fn same_config(a: Option<Aggregator>, b: Option<Aggregator>) -> bool {
    match (a, b) {
        (Some(Aggregator::Random(x)), Some(Aggregator::Random(y))) => x.range == y.range,
        _ => a == b,
    }
}

/// Whether the aggregator computes from the node's children. Such an aggregator does not
/// apply to a node without children, which keeps its score.
pub open spec fn reads_children(agg: Aggregator) -> bool {
    match agg {
        Aggregator::Fixed(_) => false,
        Aggregator::Random(_) => false,
        _ => true,
    }
}

/// Entity `e` of `ns` holds the score its aggregator gives, where it held `before.score`.
/// A node without a score or without an aggregator keeps its score, and so does a node
/// without children whose aggregator reads them.
pub open spec fn rescored(ns: Seq<Node>, e: int, before: Node) -> bool {
    match (before.score, before.aggregator) {
        (Some(_), Some(agg)) if reads_children(agg) && before.children@.len() == 0 => ns[e].score
            == before.score,
        (Some(b), Some(agg)) => ns[e].score matches Some(a) && aggregated(
            agg,
            inputs_of(ns, e),
            b,
            a,
        ),
        _ => ns[e].score == before.score,
    }
}

/// The two hierarchies have the same entities, links, weights and configuration, and the
/// same entities carry a score.
pub open spec fn same_shape(a: Seq<Node>, b: Seq<Node>) -> bool {
    &&& a.len() == b.len()
    &&& forall|e: int|
        0 <= e < a.len() ==> {
            &&& (#[trigger] a[e]).parent == b[e].parent
            &&& a[e].children@ == b[e].children@
            &&& a[e].weight == b[e].weight
            &&& a[e].score.is_some() == b[e].score.is_some()
            &&& same_config(a[e].aggregator, b[e].aggregator)
        }
}

pub proof fn lemma_same_shape_scored_among(a: Seq<Node>, b: Seq<Node>, cs: Seq<usize>)
    requires
        same_shape(a, b),
    ensures
        scored_among(a, cs) == scored_among(b, cs),
    decreases cs.len(),
{
    if cs.len() > 0 {
        lemma_same_shape_scored_among(a, b, cs.drop_last());
        let c = cs.last() as int;
        if 0 <= c < a.len() {
            assert(a[c].score.is_some() == b[c].score.is_some());
        }
    }
}

/// What an aggregator reads is the same in two hierarchies of one shape whose scoring
/// children of `e` hold the same scores.
pub proof fn lemma_inputs_frame(a: Seq<Node>, b: Seq<Node>, e: int)
    requires
        same_shape(a, b),
        0 <= e < a.len(),
        forall|c: usize|
            #[trigger] scored_children(a, e).contains(c) ==> a[c as int].score == b[c as int].score,
    ensures
        scored_children(a, e) == scored_children(b, e),
        inputs_of(a, e) == inputs_of(b, e),
{
    lemma_same_shape_scored_among(a, b, a[e].children@);
    let cs = scored_children(a, e);
    lemma_scored_among(a, a[e].children@);
    assert forall|k: int| 0 <= k < cs.len() implies child_inputs(a, cs)[k] == child_inputs(
        b,
        cs,
    )[k] by {
        assert(cs.contains(cs[k]));
        assert(scored(a, cs[k] as int));
    }
    assert(child_inputs(a, cs) =~= child_inputs(b, cs));
}

impl Hierarchy {
    /// The scoring children of entity `e`, in order.
    pub fn scored_children(&self, e: usize) -> (r: Vec<usize>)
        requires
            self.wf(),
            e < self.nodes.len(),
        ensures
            r@ == scored_children(self.nodes@, e as int),
    {
        let ghost ns = self.nodes@;
        let n = self.nodes[e].children.len();
        let mut out: Vec<usize> = Vec::new();
        let mut k: usize = 0;
        while k < n
            invariant
                k <= n,
                ns == self.nodes@,
                self.wf(),
                e < self.nodes.len(),
                n == ns[e as int].children@.len(),
                out@ == scored_among(ns, ns[e as int].children@.take(k as int)),
            decreases n - k,
        {
            let c = self.nodes[e].children[k];
            proof {
                assert(ns[e as int].children@.contains(c));
                lemma_child_link(ns, e as int, c);
                lemma_scored_among_push(ns, ns[e as int].children@.take(k as int), c);
                assert(ns[e as int].children@.take(k as int + 1) =~= ns[e as int].children@.take(
                    k as int,
                ).push(c));
            }
            if self.nodes[c].score.is_some() {
                out.push(c);
            }
            k = k + 1;
        }
        proof {
            assert(ns[e as int].children@.take(n as int) =~= ns[e as int].children@);
        }
        out
    }

    /// Scores and weights of the scoring children of `e`, and their scores alone.
    fn inputs(&self, e: usize) -> (r: (Vec<(Score, Weighted)>, Vec<Score>))
        requires
            self.wf(),
            e < self.nodes.len(),
        ensures
            r.0@ == inputs_of(self.nodes@, e as int),
            r.1@.len() == r.0@.len(),
            forall|k: int| 0 <= k < r.1@.len() ==> #[trigger] r.1@[k] == r.0@[k].0,
    {
        let ghost ns = self.nodes@;
        let cs = self.scored_children(e);
        proof {
            lemma_scored_among(ns, ns[e as int].children@);
        }
        let mut inputs: Vec<(Score, Weighted)> = Vec::new();
        let mut scores: Vec<Score> = Vec::new();
        let mut k: usize = 0;
        while k < cs.len()
            invariant
                k <= cs.len(),
                ns == self.nodes@,
                self.wf(),
                e < self.nodes.len(),
                cs@ == scored_children(ns, e as int),
                inputs@ == child_inputs(ns, cs@.take(k as int)),
                scores@.len() == k,
                forall|j: int| 0 <= j < k ==> #[trigger] scores@[j] == inputs@[j].0,
            decreases cs.len() - k,
        {
            let c = cs[k];
            proof {
                lemma_scored_among(ns, ns[e as int].children@);
                assert(cs@[k as int] == scored_among(ns, ns[e as int].children@)[k as int]);
                assert(ns[e as int].children@.contains(c));
                lemma_child_link(ns, e as int, c);
            }
            let s = match self.nodes[c].score {
                Some(s) => s,
                None => Score::min_score(),
            };
            let w = match self.nodes[c].weight {
                Some(w) => w,
                None => Weighted::max_weight(),
            };
            inputs.push((s, w));
            scores.push(s);
            proof {
                assert(cs@.take(k as int + 1) =~= cs@.take(k as int).push(c));
                assert(child_inputs(ns, cs@.take(k as int + 1)) =~= child_inputs(
                    ns,
                    cs@.take(k as int),
                ).push((s, w)));
            }
            k = k + 1;
        }
        proof {
            assert(cs@.take(cs@.len() as int) =~= cs@);
        }
        (inputs, scores)
    }

    /// Rescores entity `e` with its aggregator, from its scoring children's present scores.
    fn score_node(&mut self, e: usize)
        requires
            old(self).wf(),
            e < old(self).nodes.len(),
        ensures
            final(self).nodes@.len() == old(self).nodes@.len(),
            forall|k: int|
                0 <= k < old(self).nodes@.len() && k != e ==> #[trigger] final(self).nodes@[k]
                    == old(self).nodes@[k],
            same_shape(old(self).nodes@, final(self).nodes@),
            rescored(final(self).nodes@, e as int, old(self).nodes@[e as int]),
    {
        let ghost ns = self.nodes@;
        let before = match self.nodes[e].score {
            Some(s) => s,
            None => {
                return;
            },
        };
        let applies = match &self.nodes[e].aggregator {
            None => false,
            Some(Aggregator::Fixed(_)) => true,
            Some(Aggregator::Random(_)) => true,
            Some(_) => self.nodes[e].children.len() > 0,
        };
        if !applies {
            return;
        }
        let (inputs, scores) = self.inputs(e);
        proof {
            assert(scores@.map_values(|x: Score| x@) =~= input_values(inputs@));
        }
        let mut node = Node {
            parent: None,
            children: Vec::new(),
            score: None,
            weight: None,
            aggregator: None,
        };
        self.nodes.set_and_swap(e, &mut node);
        let after = match &mut node.aggregator {
            Some(Aggregator::Fixed(a)) => a.aggregate(),
            Some(Aggregator::Sum(a)) => a.aggregate(&scores),
            Some(Aggregator::AllOrNothing(a)) => a.aggregate(&scores),
            Some(Aggregator::Product(a)) => a.aggregate(&scores),
            Some(Aggregator::Winning(a)) => a.aggregate(&scores),
            Some(Aggregator::Measured(a)) => a.calculate(&inputs),
            Some(Aggregator::Evaluated(a)) => match a.aggregate(&scores) {
                Some(s) => s,
                None => before,
            },
            Some(Aggregator::Random(a)) => a.aggregate(),
            None => before,
        };
        node.score = Some(after);
        self.nodes.set_and_swap(e, &mut node);
        proof {
            let fs = self.nodes@;
            assert(same_shape(ns, fs));
            lemma_scored_among(ns, ns[e as int].children@);
            assert forall|c: usize| #[trigger] scored_children(ns, e as int).contains(c) implies ns[c as int].score
                == fs[c as int].score by {
                let k = choose|k: int| 0 <= k < scored_children(ns, e as int).len() && scored_children(ns, e as int)[k] == c;
                assert(scored_among(ns, ns[e as int].children@)[k] == c);
                lemma_child_link(ns, e as int, c);
            }
            lemma_inputs_frame(ns, fs, e as int);
        }
    }
}

pub proof fn lemma_same_shape_trans(a: Seq<Node>, b: Seq<Node>, c: Seq<Node>)
    requires
        same_shape(a, b),
        same_shape(b, c),
    ensures
        same_shape(a, c),
{
    assert forall|e: int| 0 <= e < a.len() implies same_config(
        (#[trigger] a[e]).aggregator,
        c[e].aggregator,
    ) by {
        assert(same_config(a[e].aggregator, b[e].aggregator));
        assert(same_config(b[e].aggregator, c[e].aggregator));
    }
}

pub proof fn lemma_same_shape_wf(a: Seq<Node>, b: Seq<Node>)
    requires
        same_shape(a, b),
        hierarchy_wf(a),
    ensures
        hierarchy_wf(b),
{
    assert forall|i: int| 0 <= i < b.len() implies #[trigger] node_wf(b, i) by {
        assert(node_wf(a, i));
        assert(a[i].children@ == b[i].children@);
        assert forall|j: int| 0 <= j < b[i].children@.len() implies {
            let c = #[trigger] b[i].children@[j];
            i < c < b.len() && b[c as int].parent == Some(i as usize)
        } by {
            let c = a[i].children@[j];
            assert(a[c as int].parent == b[c as int].parent);
        }
    }
}

pub proof fn lemma_same_shape_refl(a: Seq<Node>)
    ensures
        same_shape(a, a),
{
}

impl Hierarchy {
    /// Rescores the scoring subtree under `root` in post-order.
    fn run_from(&mut self, root: usize)
        requires
            old(self).wf(),
            root < old(self).nodes.len(),
        ensures
            final(self).wf(),
            same_shape(old(self).nodes@, final(self).nodes@),
            forall|e: usize|
                #[trigger] post_order(old(self).nodes@, root as int).contains(e) ==> rescored(
                    final(self).nodes@,
                    e as int,
                    old(self).nodes@[e as int],
                ),
            forall|e: int|
                0 <= e < old(self).nodes@.len() && !post_order(old(self).nodes@, root as int).contains(
                    e as usize,
                ) ==> #[trigger] final(self).nodes@[e] == old(self).nodes@[e],
    {
        let ghost ns = self.nodes@;
        let order = self.post_order(root);
        proof {
            lemma_post_order_props(ns, root as int);
            lemma_same_shape_refl(ns);
        }
        let mut i: usize = 0;
        while i < order.len()
            invariant
                i <= order.len(),
                hierarchy_wf(ns),
                self.wf(),
                order@ == post_order(ns, root as int),
                order@.no_duplicates(),
                children_first(ns, order@),
                forall|k: int|
                    0 <= k < order@.len() ==> reaches(ns, #[trigger] order@[k] as int, root as int),
                same_shape(ns, self.nodes@),
                forall|j: int|
                    0 <= j < i ==> rescored(self.nodes@, #[trigger] order@[j] as int, ns[order@[j] as int]),
                forall|e: int|
                    0 <= e < ns.len() && !order@.take(i as int).contains(e as usize) ==> #[trigger] self.nodes@[e]
                        == ns[e],
            decreases order.len() - i,
        {
            let e = order[i];
            let ghost cur = self.nodes@;
            proof {
                lemma_reaches_bound(ns, e as int, root as int);
                assert(!order@.take(i as int).contains(e)) by {
                    if order@.take(i as int).contains(e) {
                        let k = choose|k: int| 0 <= k < i && order@.take(i as int)[k] == e;
                        assert(order@[k] == order@[i as int]);
                    }
                }
            }
            self.score_node(e);
            proof {
                let nxt = self.nodes@;
                lemma_same_shape_trans(ns, cur, nxt);
                lemma_same_shape_wf(ns, nxt);
                assert forall|j: int| 0 <= j < i + 1 implies rescored(
                    nxt,
                    #[trigger] order@[j] as int,
                    ns[order@[j] as int],
                ) by {
                    if j < i {
                        let x = order@[j];
                        lemma_reaches_bound(ns, x as int, root as int);
                        assert(x != e);
                        assert(nxt[x as int] == cur[x as int]);
                        if ns[x as int].score.is_some() {
                            lemma_same_shape_scored_among(ns, cur, ns[x as int].children@);
                            assert forall|c: usize| #[trigger] scored_children(cur, x as int).contains(c)
                                implies cur[c as int].score == nxt[c as int].score by {
                                lemma_scored_among(ns, ns[x as int].children@);
                                let m = choose|m: int| 0 <= m < scored_children(ns, x as int).len() && scored_children(ns, x as int)[m] == c;
                                assert(scored_among(ns, ns[x as int].children@)[m] == c);
                                lemma_child_link(ns, x as int, c);
                                assert(expanded(ns, order@[j] as int).contains(c));
                                let k = choose|k: int| 0 <= k < j && #[trigger] order@[k] == c;
                                assert(order@[k] != order@[i as int]);
                            }
                            lemma_inputs_frame(cur, nxt, x as int);
                        }
                    }
                }
                assert forall|f: int|
                    0 <= f < ns.len() && !order@.take(i as int + 1).contains(f as usize) implies #[trigger] nxt[f]
                    == ns[f] by {
                    assert(order@.take(i as int + 1)[i as int] == e);
                    if order@.take(i as int).contains(f as usize) {
                        let k = choose|k: int| 0 <= k < i && order@.take(i as int)[k] == f as usize;
                        assert(order@.take(i as int + 1)[k] == f as usize);
                    }
                }
            }
            i = i + 1;
        }
        proof {
            assert(order@.take(order@.len() as int) =~= order@);
            assert forall|e: usize| #[trigger] post_order(ns, root as int).contains(e) implies rescored(
                self.nodes@,
                e as int,
                ns[e as int],
            ) by {
                let k = choose|k: int| 0 <= k < order@.len() && order@[k] == e;
            }
        }
    }
}

/// A root of an untargeted run: a scoring node whose parent, if any, is not a scoring node.
pub open spec fn is_run_root(ns: Seq<Node>, e: int) -> bool {
    scored(ns, e) && match ns[e].parent {
        Some(p) => !scored(ns, p as int),
        None => true,
    }
}

/// Whether entity `e` is rescored by a run aimed at `target`, or by an untargeted run.
pub open spec fn in_run(ns: Seq<Node>, target: Option<usize>, e: int) -> bool {
    match target {
        Some(r) => r < ns.len() && post_order(ns, r as int).contains(e as usize),
        None => exists|r: int| #[trigger] is_run_root(ns, r) && post_order(ns, r).contains(e as usize),
    }
}

pub proof fn lemma_same_shape_post_order(a: Seq<Node>, b: Seq<Node>, x: int)
    requires
        same_shape(a, b),
    ensures
        post_order(a, x) == post_order(b, x),
    decreases a.len() - x + 1, 0int,
{
    if 0 <= x < a.len() {
        assert(expanded(a, x) == expanded(b, x));
        lemma_same_shape_post_order_all(a, b, x, expanded(a, x));
    }
}

pub proof fn lemma_same_shape_post_order_all(a: Seq<Node>, b: Seq<Node>, x: int, cs: Seq<usize>)
    requires
        same_shape(a, b),
    ensures
        post_order_all(a, x, cs) == post_order_all(b, x, cs),
    decreases a.len() - x, cs.len(),
{
    if cs.len() > 0 && x < cs.last() < a.len() {
        lemma_same_shape_post_order_all(a, b, x, cs.drop_last());
        lemma_same_shape_post_order(a, b, cs.last() as int);
    }
}

/// An untargeted run reaches every scoring entity.
pub proof fn lemma_untargeted_covers(ns: Seq<Node>, y: int)
    requires
        hierarchy_wf(ns),
        scored(ns, y),
    ensures
        in_run(ns, None, y),
    decreases y,
{
    if is_run_root(ns, y) {
        lemma_post_order_props(ns, y);
        let s = post_order(ns, y);
        assert(s[s.len() - 1] == y as usize);
        assert(is_run_root(ns, y) && post_order(ns, y).contains(y as usize));
    } else {
        assert(node_wf(ns, y));
        let p = ns[y].parent.unwrap() as int;
        lemma_untargeted_covers(ns, p);
        let r = choose|r: int| #[trigger] is_run_root(ns, r) && post_order(ns, r).contains(p as usize);
        lemma_post_order_props(ns, r);
        let k = choose|k: int| 0 <= k < post_order(ns, r).len() && post_order(ns, r)[k] == p as usize;
        assert(reaches(ns, post_order(ns, r)[k] as int, r));
        assert(reaches(ns, y, r));
        lemma_post_order_complete(ns, r, y);
        assert(is_run_root(ns, r) && post_order(ns, r).contains(y as usize));
    }
}

pub proof fn lemma_same_shape_sym(a: Seq<Node>, b: Seq<Node>)
    requires
        same_shape(a, b),
    ensures
        same_shape(b, a),
{
    assert forall|e: int| 0 <= e < b.len() implies same_config(
        (#[trigger] b[e]).aggregator,
        a[e].aggregator,
    ) by {
        assert(same_config(a[e].aggregator, b[e].aggregator));
    }
}

/// Whether `after` is an outcome of a run aimed at `target` on `before`, as `run_scoring`
/// promises it.
pub open spec fn run_outcome(before: Seq<Node>, after: Seq<Node>, target: Option<usize>) -> bool {
    &&& hierarchy_wf(before)
    &&& same_shape(before, after)
    &&& forall|e: int|
        0 <= e < before.len() && #[trigger] in_run(before, target, e) ==> rescored(after, e, before[e])
    &&& forall|e: int|
        0 <= e < before.len() && !in_run(before, target, e) ==> #[trigger] after[e] == before[e]
}

/// Without random aggregators a run is determined: any two outcomes of one run on one
/// hierarchy hold the same score at every entity.
pub proof fn lemma_run_deterministic(
    before: Seq<Node>,
    a: Seq<Node>,
    b: Seq<Node>,
    target: Option<usize>,
    e: int,
)
    requires
        run_outcome(before, a, target),
        run_outcome(before, b, target),
        forall|k: int|
            0 <= k < before.len() ==> !(#[trigger] before[k].aggregator matches Some(
                Aggregator::Random(_),
            )),
        0 <= e < before.len(),
    ensures
        a[e].score == b[e].score,
    decreases before.len() - e,
{
    lemma_same_shape_wf(before, a);
    lemma_same_shape_sym(before, a);
    lemma_same_shape_trans(a, before, b);
    if in_run(before, target, e) {
        lemma_scored_among(a, a[e].children@);
        assert forall|c: usize| #[trigger] scored_children(a, e).contains(c) implies a[c as int].score
            == b[c as int].score by {
            let m = choose|m: int| 0 <= m < scored_children(a, e).len() && scored_children(a, e)[m] == c;
            assert(scored_among(a, a[e].children@)[m] == c);
            lemma_child_link(a, e, c);
            lemma_run_deterministic(before, a, b, target, c as int);
        }
        lemma_inputs_frame(a, b, e);
        assert(rescored(a, e, before[e]));
        assert(rescored(b, e, before[e]));
        if let (Some(x), Some(y)) = (a[e].score, b[e].score) {
            lemma_score_view_injective(x, y);
        }
    }
}

/// An entity lies under at most one root of an untargeted run.
pub proof fn lemma_one_root(ns: Seq<Node>, y: int, r1: int, r2: int)
    requires
        is_run_root(ns, r1),
        is_run_root(ns, r2),
        reaches(ns, y, r1),
        reaches(ns, y, r2),
    ensures
        r1 == r2,
    decreases y,
{
    if r1 != r2 {
        if y == r1 {
            let p = ns[y].parent.unwrap() as int;
            assert(reaches(ns, p, r2));
            if p != r2 {
                assert(scored(ns, p));
            }
        } else if y == r2 {
            let p = ns[y].parent.unwrap() as int;
            assert(reaches(ns, p, r1));
            if p != r1 {
                assert(scored(ns, p));
            }
        } else {
            let p = ns[y].parent.unwrap() as int;
            lemma_one_root(ns, p, r1, r2);
        }
    }
}

impl Hierarchy {
    /// One scoring run. Aimed at an entity, it rescores the scoring subtree under it; with no
    /// target, the scoring subtree under every run root. Each node is rescored once, after its
    /// scoring children; every other entity is left as it was.
    pub fn run_scoring(&mut self, target: Option<usize>)
        requires
            old(self).wf(),
        ensures
            final(self).wf(),
            run_outcome(old(self).nodes@, final(self).nodes@, target),
            same_shape(old(self).nodes@, final(self).nodes@),
            forall|e: int|
                0 <= e < old(self).nodes@.len() && #[trigger] in_run(old(self).nodes@, target, e)
                    ==> rescored(final(self).nodes@, e, old(self).nodes@[e]),
            forall|e: int|
                0 <= e < old(self).nodes@.len() && !in_run(old(self).nodes@, target, e)
                    ==> #[trigger] final(self).nodes@[e] == old(self).nodes@[e],
    {
        let ghost ns = self.nodes@;
        proof {
            lemma_same_shape_refl(ns);
        }
        match target {
            Some(root) => {
                if root < self.nodes.len() {
                    self.run_from(root);
                }
            },
            None => {
                let n = self.nodes.len();
                let mut r: usize = 0;
                while r < n
                    invariant
                        r <= n,
                        n == ns.len(),
                        hierarchy_wf(ns),
                        self.wf(),
                        same_shape(ns, self.nodes@),
                        forall|e: int|
                            0 <= e < ns.len() && (exists|q: int|
                                0 <= q < r && #[trigger] is_run_root(ns, q) && post_order(
                                    ns,
                                    q,
                                ).contains(e as usize)) ==> rescored(self.nodes@, e, ns[e]),
                        forall|e: int|
                            0 <= e < ns.len() && !(exists|q: int|
                                0 <= q < r && #[trigger] is_run_root(ns, q) && post_order(
                                    ns,
                                    q,
                                ).contains(e as usize)) ==> #[trigger] self.nodes@[e] == ns[e],
                    decreases n - r,
                {
                    let ghost cur = self.nodes@;
                    let is_root = match self.nodes[r].score {
                        None => false,
                        Some(_) => match self.nodes[r].parent {
                            None => true,
                            Some(p) => {
                                proof {
                                    assert(node_wf(cur, r as int));
                                }
                                self.nodes[p].score.is_none()
                            },
                        },
                    };
                    if is_root {
                        self.run_from(r);
                    }
                    proof {
                        let nxt = self.nodes@;
                        if is_root {
                            lemma_same_shape_trans(ns, cur, nxt);
                            lemma_same_shape_post_order(ns, cur, r as int);
                            lemma_post_order_props(ns, r as int);
                        }
                        assert(is_root == is_run_root(ns, r as int)) by {
                            assert(ns[r as int].score.is_some() == cur[r as int].score.is_some());
                            if let Some(p) = ns[r as int].parent {
                                assert(node_wf(ns, r as int));
                                assert(ns[p as int].score.is_some() == cur[p as int].score.is_some());
                            }
                        }
                        // Entities under an earlier root are not under `r`.
                        assert forall|e: int, q: int|
                            0 <= e < ns.len() && 0 <= q < r && is_run_root(ns, q) && post_order(ns, q).contains(e as usize)
                            && is_root implies !#[trigger] post_order(ns, r as int).contains(e as usize)
                                && #[trigger] post_order(ns, q).contains(e as usize) by {
                            lemma_post_order_props(ns, q);
                            let k = choose|k: int| 0 <= k < post_order(ns, q).len() && post_order(ns, q)[k] == e as usize;
                            assert(reaches(ns, post_order(ns, q)[k] as int, q));
                            if post_order(ns, r as int).contains(e as usize) {
                                let k2 = choose|k2: int| 0 <= k2 < post_order(ns, r as int).len() && post_order(ns, r as int)[k2] == e as usize;
                                assert(reaches(ns, post_order(ns, r as int)[k2] as int, r as int));
                                lemma_one_root(ns, e, q, r as int);
                            }
                        }
                        assert forall|e: int|
                            0 <= e < ns.len() && (exists|q: int|
                                0 <= q < r + 1 && #[trigger] is_run_root(ns, q) && post_order(
                                    ns,
                                    q,
                                ).contains(e as usize)) implies rescored(nxt, e, ns[e]) by {
                            let q = choose|q: int| 0 <= q < r + 1 && #[trigger] is_run_root(ns, q) && post_order(
                                    ns,
                                    q,
                                ).contains(e as usize);
                            if q == r {
                                assert(!(exists|q: int|
                                0 <= q < r && #[trigger] is_run_root(ns, q) && post_order(
                                    ns,
                                    q,
                                ).contains(e as usize)));
                                assert(cur[e] == ns[e]);
                            } else {
                                assert(rescored(cur, e, ns[e]));
                                if is_root {
                                    assert(!post_order(ns, r as int).contains(e as usize));
                                    assert(nxt[e] == cur[e]);
                                    lemma_post_order_props(ns, q);
                                    let j = choose|j: int| 0 <= j < post_order(ns, q).len() && post_order(ns, q)[j] == e as usize;
                                    assert(post_order(ns, q)[j] == e as usize);
                                    if ns[e].score.is_some() {
                                    lemma_same_shape_scored_among(ns, cur, ns[e].children@);
                                    assert forall|c: usize| #[trigger] scored_children(cur, e).contains(c)
                                        implies cur[c as int].score == nxt[c as int].score by {
                                        lemma_scored_among(ns, ns[e].children@);
                                        let m = choose|m: int| 0 <= m < scored_children(ns, e).len() && scored_children(ns, e)[m] == c;
                                        assert(scored_among(ns, ns[e].children@)[m] == c);
                                        assert(expanded(ns, post_order(ns, q)[j] as int).contains(c));
                                        let k = choose|k: int| 0 <= k < j && #[trigger] post_order(ns, q)[k] == c;
                                        assert(post_order(ns, q).contains(c));
                                        assert(post_order(ns, q)[k] == c);
                                        lemma_reaches_bound(ns, c as int, q);
                                        assert(!post_order(ns, r as int).contains(c));
                                    }
                                    lemma_inputs_frame(cur, nxt, e);
                                    }
                                }
                            }
                        }
                    }
                    r = r + 1;
                }
            },
        }
    }
}

} // verus!
