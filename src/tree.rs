//! The host's hierarchy as this engine sees it, and its post-order traversal.
use vstd::prelude::*;
use vstd::pervasive::VecAdditionalExecFns;
use crate::measured::{Measured, Weighted};
use crate::evaluator::Evaluated;
use crate::random::RandomScore;
use crate::score::Score;
use crate::scoring::{AllOrNothing, FixedScore, Product, Sum, Winning};

verus! {

/// The formula that computes a scoring node's score.
pub enum Aggregator {
    Fixed(FixedScore),
    Sum(Sum),
    AllOrNothing(AllOrNothing),
    Product(Product),
    Winning(Winning),
    Measured(Measured),
    Evaluated(Evaluated),
    Random(RandomScore),
}

/// One entity of the hierarchy, with the components this engine reads.
pub struct Node {
    pub parent: Option<usize>,
    pub children: Vec<usize>,
    pub score: Option<Score>,
    pub weight: Option<Weighted>,
    pub aggregator: Option<Aggregator>,
}

/// An arena of entities, indexed by entity id. Every parent's id is below its children's ids,
/// so the hierarchy has no cycles.
pub struct Hierarchy {
    pub nodes: Vec<Node>,
}

/// Whether entity `i` carries a score, which makes it a scoring node.
pub open spec fn scored(ns: Seq<Node>, i: int) -> bool {
    0 <= i < ns.len() && ns[i].score.is_some()
}

/// The links of entity `i` are consistent: its parent comes before it and lists it among its
/// children, and each child is a later entity whose parent is `i`, listed once.
pub open spec fn node_wf(ns: Seq<Node>, i: int) -> bool {
    &&& (ns[i].parent matches Some(p) ==> p < i && ns[p as int].children@.contains(i as usize))
    &&& forall|j: int|
        0 <= j < ns[i].children@.len() ==> {
            let c = #[trigger] ns[i].children@[j];
            i < c < ns.len() && ns[c as int].parent == Some(i as usize)
        }
    &&& ns[i].children@.no_duplicates()
}

pub open spec fn hierarchy_wf(ns: Seq<Node>) -> bool {
    &&& ns.len() <= usize::MAX
    &&& forall|i: int| 0 <= i < ns.len() ==> #[trigger] node_wf(ns, i)
}

/// The scoring nodes among `cs`, in order.
pub open spec fn scored_among(ns: Seq<Node>, cs: Seq<usize>) -> Seq<usize>
    decreases cs.len(),
{
    if cs.len() == 0 {
        Seq::empty()
    } else {
        let rest = scored_among(ns, cs.drop_last());
        if scored(ns, cs.last() as int) {
            rest.push(cs.last())
        } else {
            rest
        }
    }
}

/// The scoring children of entity `x`, in the hierarchy's order.
pub open spec fn scored_children(ns: Seq<Node>, x: int) -> Seq<usize> {
    scored_among(ns, ns[x].children@)
}

/// The children a traversal expands at `x`: all of them when `x` is a scoring node, none
/// otherwise.
pub open spec fn expanded(ns: Seq<Node>, x: int) -> Seq<usize> {
    if scored(ns, x) {
        ns[x].children@
    } else {
        Seq::empty()
    }
}

/// Post-order of the scoring subtree under `x`: the traversals of the children it expands, in
/// order, then `x`. A child without a score comes out as a leaf.
pub open spec fn post_order(ns: Seq<Node>, x: int) -> Seq<usize>
    decreases ns.len() - x + 1, 0int,
{
    if 0 <= x < ns.len() {
        post_order_all(ns, x, expanded(ns, x)).push(x as usize)
    } else {
        Seq::empty()
    }
}

/// The traversals of the entities `cs`, all of them later than `x`, one after another.
pub open spec fn post_order_all(ns: Seq<Node>, x: int, cs: Seq<usize>) -> Seq<usize>
    decreases ns.len() - x, cs.len(),
{
    if cs.len() == 0 {
        Seq::empty()
    } else if x < cs.last() < ns.len() {
        post_order_all(ns, x, cs.drop_last()) + post_order(ns, cs.last() as int)
    } else {
        Seq::empty()
    }
}

/// `y` is `x` or lies under it through scoring nodes: each entity on the way up from `y` is
/// listed among its parent's children, and that parent is a scoring node.
pub open spec fn reaches(ns: Seq<Node>, y: int, x: int) -> bool
    decreases y,
{
    if y == x {
        true
    } else if 0 <= y < ns.len() {
        match ns[y].parent {
            Some(p) => p < y && ns[p as int].children@.contains(y as usize) && scored(ns, p as int)
                && reaches(ns, p as int, x),
            None => false,
        }
    } else {
        false
    }
}

/// `y` is a scoring descendant of `x`.
pub open spec fn is_scored_descendant(ns: Seq<Node>, y: int, x: int) -> bool {
    y != x && reaches(ns, y, x)
}

pub proof fn lemma_reaches_bound(ns: Seq<Node>, y: int, x: int)
    requires
        reaches(ns, y, x),
    ensures
        x <= y,
    decreases y,
{
    if y != x {
        let p = ns[y].parent.unwrap() as int;
        lemma_reaches_bound(ns, p, x);
    }
}

pub proof fn lemma_scored_among_push(ns: Seq<Node>, cs: Seq<usize>, c: usize)
    ensures
        scored_among(ns, cs.push(c)) == if scored(ns, c as int) {
            scored_among(ns, cs).push(c)
        } else {
            scored_among(ns, cs)
        },
{
    assert(cs.push(c).drop_last() =~= cs);
}

/// Every entity of `scored_among(cs)` is a scoring entity of `cs`, and no entity is listed
/// twice when none is in `cs`.
pub proof fn lemma_scored_among(ns: Seq<Node>, cs: Seq<usize>)
    ensures
        forall|k: int|
            0 <= k < scored_among(ns, cs).len() ==> cs.contains(#[trigger] scored_among(ns, cs)[k])
                && scored(ns, scored_among(ns, cs)[k] as int),
        cs.no_duplicates() ==> scored_among(ns, cs).no_duplicates(),
        forall|c: usize| cs.contains(c) && scored(ns, c as int) ==> #[trigger] scored_among(
            ns,
            cs,
        ).contains(c),
    decreases cs.len(),
{
    if cs.len() > 0 {
        let rest = cs.drop_last();
        lemma_scored_among(ns, rest);
        assert(cs =~= rest.push(cs.last()));
        let s = scored_among(ns, cs);
        let sr = scored_among(ns, rest);
        assert forall|k: int| 0 <= k < s.len() implies cs.contains(#[trigger] s[k]) && scored(
            ns,
            s[k] as int,
        ) by {
            if k < sr.len() {
                assert(rest.contains(sr[k]));
                let m = choose|m: int| 0 <= m < rest.len() && rest[m] == sr[k];
                assert(cs[m] == s[k]);
            } else {
                assert(cs[cs.len() - 1] == s[k]);
            }
        }
        if cs.no_duplicates() {
            assert(rest.no_duplicates()) by {
                assert forall|a: int, b: int|
                    0 <= a < rest.len() && 0 <= b < rest.len() && a != b implies rest[a]
                    != rest[b] by {
                    assert(cs[a] == rest[a] && cs[b] == rest[b]);
                }
            }
            if scored(ns, cs.last() as int) {
                assert(!sr.contains(cs.last())) by {
                    if sr.contains(cs.last()) {
                        let k = choose|k: int| 0 <= k < sr.len() && sr[k] == cs.last();
                        assert(rest.contains(sr[k]));
                        let m = choose|m: int| 0 <= m < rest.len() && rest[m] == sr[k];
                        assert(cs[m] == cs[cs.len() - 1]);
                    }
                }
            }
        }
        assert forall|c: usize| cs.contains(c) && scored(ns, c as int) implies #[trigger] s.contains(
            c,
        ) by {
            let m = choose|m: int| 0 <= m < cs.len() && cs[m] == c;
            if m < rest.len() {
                assert(rest[m] == c);
                assert(sr.contains(c));
                let k = choose|k: int| 0 <= k < sr.len() && sr[k] == c;
                assert(s[k] == c);
            } else {
                assert(s[s.len() - 1] == c);
            }
        }
    }
}

pub proof fn lemma_reaches_trans(ns: Seq<Node>, y: int, c: int, x: int)
    requires
        reaches(ns, y, c),
        reaches(ns, c, x),
    ensures
        reaches(ns, y, x),
    decreases y,
{
    if y != c {
        let p = ns[y].parent.unwrap() as int;
        lemma_reaches_trans(ns, p, c, x);
    }
}

/// A child `c` of `x` is later than `x`, and `x` is its parent.
pub proof fn lemma_child_link(ns: Seq<Node>, x: int, c: usize)
    requires
        hierarchy_wf(ns),
        0 <= x < ns.len(),
        ns[x].children@.contains(c),
    ensures
        x < c < ns.len(),
        ns[c as int].parent == Some(x as usize),
{
    assert(node_wf(ns, x));
    let j = choose|j: int| 0 <= j < ns[x].children@.len() && ns[x].children@[j] == c;
    assert(ns[x].children@[j] == c);
}

/// The subtrees under two different children of one entity share no entity.
pub proof fn lemma_disjoint(ns: Seq<Node>, y: int, c1: int, c2: int, x: int)
    requires
        hierarchy_wf(ns),
        reaches(ns, y, c1),
        reaches(ns, y, c2),
        0 <= c1 < ns.len(),
        0 <= c2 < ns.len(),
        0 <= x < ns.len(),
        ns[c1].parent == Some(x as usize),
        ns[c2].parent == Some(x as usize),
    ensures
        c1 == c2,
    decreases y,
{
    assert(node_wf(ns, c1));
    assert(node_wf(ns, c2));
    if c1 == c2 {
    } else if y == c1 {
        lemma_reaches_bound(ns, x, c2);
    } else if y == c2 {
        lemma_reaches_bound(ns, x, c1);
    } else {
        let p = ns[y].parent.unwrap() as int;
        lemma_disjoint(ns, p, c1, c2, x);
    }
}

/// Whether every child that an entity of `s` expands stands before it in `s`.
pub open spec fn children_first(ns: Seq<Node>, s: Seq<usize>) -> bool {
    forall|j: int, c: usize|
        0 <= j < s.len() && #[trigger] expanded(ns, s[j] as int).contains(c) ==> exists|
            k: int,
        |
            0 <= k < j && #[trigger] s[k] == c
}

/// What the post-order traversal under `x` is: it ends with `x`, every entity in it lies under
/// `x`, none comes twice, and every scoring child comes before its parent.
pub proof fn lemma_post_order_props(ns: Seq<Node>, x: int)
    requires
        hierarchy_wf(ns),
        0 <= x < ns.len(),
    ensures
        post_order(ns, x).len() > 0,
        post_order(ns, x).last() == x,
        forall|k: int|
            0 <= k < post_order(ns, x).len() ==> reaches(ns, #[trigger] post_order(ns, x)[k] as int, x),
        post_order(ns, x).no_duplicates(),
        children_first(ns, post_order(ns, x)),
    decreases ns.len() - x + 1, 0int,
{
    let cs = expanded(ns, x);
    assert(node_wf(ns, x));
    assert(cs.no_duplicates());
    lemma_post_order_all_props(ns, x, cs);
    let a = post_order_all(ns, x, cs);
    let s = post_order(ns, x);
    assert(s == a.push(x as usize));
    assert forall|k: int| 0 <= k < s.len() implies reaches(ns, #[trigger] s[k] as int, x) by {
        if k < a.len() {
            assert(s[k] == a[k]);
            let m = choose|m: int| 0 <= m < cs.len() && reaches(ns, a[k] as int, cs[m] as int);
            assert(ns[x].children@.contains(cs[m]));
            assert(scored(ns, x));
            lemma_child_link(ns, x, cs[m]);
            assert(reaches(ns, x, x));
            assert(reaches(ns, cs[m] as int, x));
            lemma_reaches_trans(ns, a[k] as int, cs[m] as int, x);
        }
    }
    assert(s.no_duplicates()) by {
        assert forall|i: int, j: int| 0 <= i < s.len() && 0 <= j < s.len() && i != j implies s[i]
            != s[j] by {
            if i < a.len() && j < a.len() {
                assert(s[i] == a[i] && s[j] == a[j]);
            } else if i < a.len() {
                let m = choose|m: int| 0 <= m < cs.len() && reaches(ns, a[i] as int, cs[m] as int);
                lemma_child_link(ns, x, cs[m]);
                lemma_reaches_bound(ns, a[i] as int, cs[m] as int);
            } else if j < a.len() {
                let m = choose|m: int| 0 <= m < cs.len() && reaches(ns, a[j] as int, cs[m] as int);
                lemma_child_link(ns, x, cs[m]);
                lemma_reaches_bound(ns, a[j] as int, cs[m] as int);
            }
        }
    }
    assert forall|j: int, c: usize|
        0 <= j < s.len() && #[trigger] expanded(ns, s[j] as int).contains(c) implies exists|
        k: int,
    |
        0 <= k < j && #[trigger] s[k] == c by {
        if j < a.len() {
            assert(s[j] == a[j]);
            let k = choose|k: int| 0 <= k < j && #[trigger] a[k] == c;
            assert(s[k] == c);
        } else {
            assert(s[j] == x);
            assert(cs.contains(c));
            assert(a.contains(c));
            let k = choose|k: int| 0 <= k < a.len() && #[trigger] a[k] == c;
            assert(s[k] == c);
        }
    }
}

/// The traversals of the scoring children `cs` of `x`, one after another: each entity in
/// them lies under one of `cs`, none comes twice, every child comes before its parent, and
/// each of `cs` is there.
pub proof fn lemma_post_order_all_props(ns: Seq<Node>, x: int, cs: Seq<usize>)
    requires
        hierarchy_wf(ns),
        0 <= x < ns.len(),
        cs.no_duplicates(),
        forall|k: int|
            0 <= k < cs.len() ==> ns[x].children@.contains(#[trigger] cs[k]) && scored(ns, x),
    ensures
        forall|k: int|
            0 <= k < post_order_all(ns, x, cs).len() ==> exists|m: int|
                0 <= m < cs.len() && reaches(
                    ns,
                    #[trigger] post_order_all(ns, x, cs)[k] as int,
                    cs[m] as int,
                ),
        post_order_all(ns, x, cs).no_duplicates(),
        children_first(ns, post_order_all(ns, x, cs)),
        forall|c: usize| cs.contains(c) ==> #[trigger] post_order_all(ns, x, cs).contains(c),
    decreases ns.len() - x, cs.len(),
{
    if cs.len() > 0 {
        let rest = cs.drop_last();
        let c = cs.last();
        lemma_child_link(ns, x, c);
        assert(rest.no_duplicates()) by {
            assert forall|i: int, j: int|
                0 <= i < rest.len() && 0 <= j < rest.len() && i != j implies rest[i] != rest[j] by {
                assert(cs[i] == rest[i] && cs[j] == rest[j]);
            }
        }
        assert forall|k: int| 0 <= k < rest.len() implies ns[x].children@.contains(
            #[trigger] rest[k],
        ) && scored(ns, x) by {
            assert(cs[k] == rest[k]);
        }
        lemma_post_order_all_props(ns, x, rest);
        lemma_post_order_props(ns, c as int);
        let a = post_order_all(ns, x, rest);
        let b = post_order(ns, c as int);
        let s = post_order_all(ns, x, cs);
        assert(s == a + b);
        assert forall|k: int| 0 <= k < s.len() implies exists|m: int|
            0 <= m < cs.len() && reaches(ns, #[trigger] s[k] as int, cs[m] as int) by {
            if k < a.len() {
                assert(s[k] == a[k]);
                let m = choose|m: int| 0 <= m < rest.len() && reaches(ns, a[k] as int, rest[m] as int);
                assert(cs[m] == rest[m]);
            } else {
                assert(s[k] == b[k - a.len()]);
                assert(cs[cs.len() - 1] == c);
            }
        }
        assert(s.no_duplicates()) by {
            assert forall|i: int, j: int|
                0 <= i < a.len() && 0 <= j < b.len() implies a[i] != b[j] by {
                let m = choose|m: int| 0 <= m < rest.len() && reaches(ns, a[i] as int, rest[m] as int);
                assert(cs[m] == rest[m]);
                assert(rest[m] != c);
                if a[i] == b[j] {
                    lemma_child_link(ns, x, rest[m]);
                    lemma_disjoint(ns, a[i] as int, rest[m] as int, c as int, x);
                }
            }
            assert forall|i: int, j: int| 0 <= i < s.len() && 0 <= j < s.len() && i != j implies s[i]
                != s[j] by {
                if i < a.len() && j < a.len() {
                    assert(s[i] == a[i] && s[j] == a[j]);
                } else if i >= a.len() && j >= a.len() {
                    assert(s[i] == b[i - a.len()] && s[j] == b[j - a.len()]);
                } else if i < a.len() {
                    assert(s[i] == a[i] && s[j] == b[j - a.len()]);
                } else {
                    assert(s[j] == a[j] && s[i] == b[i - a.len()]);
                }
            }
        }
        assert forall|j: int, d: usize|
            0 <= j < s.len() && #[trigger] expanded(ns, s[j] as int).contains(d) implies exists|
            k: int,
        |
            0 <= k < j && #[trigger] s[k] == d by {
            if j < a.len() {
                assert(s[j] == a[j]);
                let k = choose|k: int| 0 <= k < j && #[trigger] a[k] == d;
                assert(s[k] == d);
            } else {
                assert(s[j] == b[j - a.len()]);
                let k = choose|k: int| 0 <= k < j - a.len() && #[trigger] b[k] == d;
                assert(s[k + a.len()] == d);
            }
        }
        assert forall|e: usize| cs.contains(e) implies #[trigger] s.contains(e) by {
            let m = choose|m: int| 0 <= m < cs.len() && cs[m] == e;
            if m < rest.len() {
                assert(rest[m] == e);
                assert(rest.contains(e));
                assert(a.contains(e));
                let k = choose|k: int| 0 <= k < a.len() && a[k] == e;
                assert(s[k] == e);
            } else {
                assert(b[b.len() - 1] == e);
                assert(s[s.len() - 1] == e);
            }
        }
    }
}

/// Every entity under `x` along scoring children is in the post-order traversal under `x`.
pub proof fn lemma_post_order_complete(ns: Seq<Node>, x: int, y: int)
    requires
        hierarchy_wf(ns),
        0 <= x < ns.len(),
        reaches(ns, y, x),
    ensures
        post_order(ns, x).contains(y as usize),
    decreases y,
{
    lemma_post_order_props(ns, x);
    let s = post_order(ns, x);
    if y == x {
        assert(s[s.len() - 1] == y);
    } else {
        let p = ns[y].parent.unwrap() as int;
        lemma_post_order_complete(ns, x, p);
        let j = choose|j: int| 0 <= j < s.len() && s[j] == p as usize;
        assert(expanded(ns, s[j] as int).contains(y as usize));
        let k = choose|k: int| 0 <= k < j && #[trigger] s[k] == y as usize;
        assert(s[k] == y as usize);
    }
}

/// In the post-order traversal under `root`, every entity comes after all of its scoring
/// descendants.
pub proof fn lemma_descendants_first(ns: Seq<Node>, root: int, i: int, j: int)
    requires
        hierarchy_wf(ns),
        0 <= root < ns.len(),
        0 <= i < post_order(ns, root).len(),
        0 <= j < post_order(ns, root).len(),
        is_scored_descendant(ns, post_order(ns, root)[i] as int, post_order(ns, root)[j] as int),
    ensures
        i < j,
    decreases post_order(ns, root)[i],
{
    lemma_post_order_props(ns, root);
    let s = post_order(ns, root);
    let y = s[i] as int;
    let z = s[j] as int;
    let p = ns[y].parent.unwrap() as int;
    assert(expanded(ns, p).contains(y as usize));
    if p == z {
        let k = choose|k: int| 0 <= k < j && #[trigger] s[k] == y as usize;
        assert(s[k] == s[i]);
    } else {
        assert(reaches(ns, z, root));
        lemma_reaches_trans(ns, p, z, root);
        lemma_post_order_complete(ns, root, p);
        let m = choose|m: int| 0 <= m < s.len() && s[m] == p as usize;
        lemma_descendants_first(ns, root, m, j);
        assert(expanded(ns, s[m] as int).contains(y as usize));
        let k = choose|k: int| 0 <= k < m && #[trigger] s[k] == y as usize;
        assert(s[k] == s[i]);
    }
}

impl Hierarchy {
    pub open spec fn wf(&self) -> bool {
        hierarchy_wf(self.nodes@)
    }

    /// The entities of the scoring subtree under `root`, every scoring child before its
    /// parent, ending with `root`.
    pub fn post_order(&self, root: usize) -> (r: Vec<usize>)
        requires
            self.wf(),
            root < self.nodes.len(),
        ensures
            r@ == post_order(self.nodes@, root as int),
    {
        let mut out: Vec<usize> = Vec::new();
        self.collect_post_order(root, &mut out);
        assert(out@ =~= post_order(self.nodes@, root as int));
        out
    }

    fn collect_post_order(&self, x: usize, out: &mut Vec<usize>)
        requires
            self.wf(),
            x < self.nodes.len(),
        ensures
            final(out)@ == old(out)@ + post_order(self.nodes@, x as int),
        decreases self.nodes.len() - x,
    {
        let ghost ns = self.nodes@;
        let ghost start = out@;
        if self.nodes[x].score.is_some() {
            let n = self.nodes[x].children.len();
            let mut k: usize = 0;
            while k < n
                invariant
                    k <= n,
                    ns == self.nodes@,
                    self.wf(),
                    x < self.nodes.len(),
                    scored(ns, x as int),
                    n == ns[x as int].children@.len(),
                    out@ == start + post_order_all(ns, x as int, ns[x as int].children@.take(k as int)),
                decreases n - k,
            {
                let c = self.nodes[x].children[k];
                proof {
                    assert(ns[x as int].children@.contains(c));
                    lemma_child_link(ns, x as int, c);
                }
                self.collect_post_order(c, out);
                proof {
                    let pre = ns[x as int].children@.take(k as int);
                    assert(ns[x as int].children@.take(k as int + 1) =~= pre.push(c));
                    assert(pre.push(c).drop_last() =~= pre);
                    assert(post_order_all(ns, x as int, pre.push(c)) == post_order_all(ns, x as int, pre)
                        + post_order(ns, c as int));
                    assert(out@ =~= start + post_order_all(ns, x as int, pre.push(c)));
                }
                k = k + 1;
            }
            proof {
                assert(ns[x as int].children@.take(n as int) =~= ns[x as int].children@);
            }
        } else {
            assert(post_order_all(ns, x as int, expanded(ns, x as int)) =~= Seq::<usize>::empty());
            assert(out@ =~= start + post_order_all(ns, x as int, expanded(ns, x as int)));
        }
        out.push(x);
        assert(out@ =~= start + post_order(ns, x as int));
    }
}

impl Hierarchy {
    /// An empty hierarchy.
    pub fn new() -> (r: Hierarchy)
        ensures
            r.wf(),
            r.nodes@.len() == 0,
    {
        Hierarchy { nodes: Vec::new() }
    }

    /// Number of entities.
    pub fn len(&self) -> (r: usize)
        ensures
            r == self.nodes@.len(),
    {
        self.nodes.len()
    }

    /// Adds an entity, as the last child of `parent` when one is given, and returns its id.
    pub fn spawn(
        &mut self,
        parent: Option<usize>,
        score: Option<Score>,
        weight: Option<Weighted>,
        aggregator: Option<Aggregator>,
    ) -> (r: usize)
        requires
            old(self).wf(),
            old(self).nodes@.len() < usize::MAX,
            parent matches Some(p) ==> p < old(self).nodes@.len(),
        ensures
            final(self).wf(),
            r == old(self).nodes@.len(),
            final(self).nodes@.len() == old(self).nodes@.len() + 1,
            final(self).nodes@[r as int].parent == parent,
            final(self).nodes@[r as int].children@.len() == 0,
            final(self).nodes@[r as int].score == score,
            final(self).nodes@[r as int].weight == weight,
            final(self).nodes@[r as int].aggregator == aggregator,
            forall|k: int|
                0 <= k < old(self).nodes@.len() && parent != Some(k as usize)
                    ==> #[trigger] final(self).nodes@[k] == old(self).nodes@[k],
            parent matches Some(p)
                ==> final(self).nodes@[p as int].children@ == old(self).nodes@[p as int].children@.push(r),
    {
        let ghost ns = self.nodes@;
        let id = self.nodes.len();
        let node = Node { parent, children: Vec::new(), score, weight, aggregator };
        self.nodes.push(node);
        if let Some(p) = parent {
            let mut taken = Node {
                parent: None,
                children: Vec::new(),
                score: None,
                weight: None,
                aggregator: None,
            };
            self.nodes.set_and_swap(p, &mut taken);
            taken.children.push(id);
            self.nodes.set_and_swap(p, &mut taken);
        }
        proof {
            let fs = self.nodes@;
            assert forall|q: int, c: usize| 0 <= q < ns.len() && ns[q].children@.contains(c)
                implies #[trigger] fs[q].children@.contains(c) by {
                if parent == Some(q as usize) {
                    let j = choose|j: int| 0 <= j < ns[q].children@.len() && ns[q].children@[j] == c;
                    assert(fs[q].children@[j] == c);
                } else {
                    assert(fs[q] == ns[q]);
                }
            }
            assert forall|i: int| 0 <= i < fs.len() implies #[trigger] node_wf(fs, i) by {
                if i == ns.len() {
                    if let Some(p) = parent {
                        assert(fs[p as int].children@[fs[p as int].children@.len() - 1] == i as usize);
                    }
                }
                if i < ns.len() {
                    assert(node_wf(ns, i));
                    if let Some(p) = ns[i].parent {
                        assert(ns[p as int].children@.contains(i as usize));
                        assert(fs[p as int].children@.contains(i as usize));
                    }
                    if parent == Some(i as usize) {
                        assert forall|j: int| 0 <= j < fs[i].children@.len() implies {
                            let c = #[trigger] fs[i].children@[j];
                            i < c < fs.len() && fs[c as int].parent == Some(i as usize)
                        } by {
                            if j < ns[i].children@.len() {
                                assert(fs[i].children@[j] == ns[i].children@[j]);
                            }
                        }
                        assert(fs[i].children@.no_duplicates()) by {
                            assert forall|a: int, b: int|
                                0 <= a < fs[i].children@.len() && 0 <= b < fs[i].children@.len()
                                    && a != b implies fs[i].children@[a] != fs[i].children@[b] by {
                                if a < ns[i].children@.len() && b < ns[i].children@.len() {
                                } else if a < ns[i].children@.len() {
                                    assert(ns[i].children@[a] < ns.len());
                                } else if b < ns[i].children@.len() {
                                    assert(ns[i].children@[b] < ns.len());
                                }
                            }
                        }
                    } else {
                        assert(fs[i] == ns[i]);
                        assert forall|j: int| 0 <= j < fs[i].children@.len() implies {
                            let c = #[trigger] fs[i].children@[j];
                            i < c < fs.len() && fs[c as int].parent == Some(i as usize)
                        } by {
                            let c = ns[i].children@[j];
                            assert(c < ns.len());
                        }
                    }
                }
            }
        }
        id
    }
}

} // verus!
