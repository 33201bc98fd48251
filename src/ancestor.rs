//! Lookup of the nearest entity, going up from a start, that carries some world state.
use vstd::prelude::*;
use std::collections::HashMap;
use crate::score::Score;
use vstd::pervasive::VecAdditionalExecFns;
use crate::tree::{node_wf, Hierarchy, Node};

verus! {

broadcast use vstd::std_specs::hash::group_hash_axioms;

/// Whether entity `e` exists and carries the state.
pub open spec fn carries<T>(ns: Seq<Node>, carried: Seq<Option<T>>, e: int) -> bool {
    0 <= e < ns.len() && e < carried.len() && carried[e].is_some()
}

/// The nearest entity that carries the state, going up from `y` through parents, `y` included.
pub open spec fn nearest_carrier<T>(ns: Seq<Node>, carried: Seq<Option<T>>, y: int) -> Option<usize>
    decreases y,
{
    if carries(ns, carried, y) {
        Some(y as usize)
    } else if 0 <= y < ns.len() {
        match ns[y].parent {
            Some(p) => if p < y {
                nearest_carrier(ns, carried, p as int)
            } else {
                None
            },
            None => None,
        }
    } else {
        None
    }
}

pub proof fn lemma_nearest_carries<T>(ns: Seq<Node>, carried: Seq<Option<T>>, y: int)
    requires
        ns.len() <= usize::MAX,
    ensures
        nearest_carrier(ns, carried, y) matches Some(x) ==> carries(ns, carried, x as int),
    decreases y,
{
    if !carries(ns, carried, y) && 0 <= y < ns.len() {
        if let Some(p) = ns[y].parent {
            if p < y {
                lemma_nearest_carries(ns, carried, p as int);
            }
        }
    }
}

/// No entity up from the start carries the state.
#[derive(Clone, Copy, PartialEq, Eq, Structural, Debug)]
pub enum AncestorError {
    NotFound,
}

/// Finds the nearest carrier up from an entity, remembering what it found for each start.
pub struct AncestorQuery {
    cache: HashMap<usize, usize>,
}

impl AncestorQuery {
    /// The carrier remembered for `start`, if any.
    pub closed spec fn cached(&self, start: int) -> Option<usize> {
        if 0 <= start <= usize::MAX && self.cache@.contains_key(start as usize) {
            Some(self.cache@[start as usize])
        } else {
            None
        }
    }

    /// What a lookup from `start` returns: the remembered carrier while it still carries the
    /// state, else the nearest carrier.
    pub open spec fn spec_get<T>(&self, ns: Seq<Node>, carried: Seq<Option<T>>, start: int) -> Option<
        usize,
    > {
        match self.cached(start) {
            Some(x) if carries(ns, carried, x as int) => Some(x),
            _ => nearest_carrier(ns, carried, start),
        }
    }

    pub fn new() -> (r: AncestorQuery)
        ensures
            forall|s: int| #[trigger] r.cached(s).is_none(),
    {
        AncestorQuery { cache: HashMap::new() }
    }

    /// Forgets every remembered carrier.
    pub fn clear_cache(&mut self)
        ensures
            forall|s: int| #[trigger] final(self).cached(s).is_none(),
    {
        self.cache.clear();
    }

    fn find<T>(tree: &Hierarchy, carried: &Vec<Option<T>>, start: usize) -> (r: Option<usize>)
        requires
            tree.wf(),
        ensures
            r == nearest_carrier(tree.nodes@, carried@, start as int),
    {
        let ghost ns = tree.nodes@;
        let mut cur = start;
        loop
            invariant
                tree.wf(),
                ns == tree.nodes@,
                nearest_carrier(ns, carried@, cur as int) == nearest_carrier(ns, carried@, start as int),
            decreases cur,
        {
            if cur >= tree.nodes.len() {
                return None;
            }
            if cur < carried.len() && carried[cur].is_some() {
                return Some(cur);
            }
            proof {
                assert(node_wf(ns, cur as int));
            }
            match tree.nodes[cur].parent {
                Some(p) => {
                    cur = p;
                },
                None => {
                    return None;
                },
            }
        }
    }

    /// The nearest entity up from `start`, `start` included, that carries the state; a
    /// remembered answer is used while it still carries the state.
    pub fn get<T>(&mut self, tree: &Hierarchy, carried: &Vec<Option<T>>, start: usize) -> (r: Result<
        usize,
        AncestorError,
    >)
        requires
            tree.wf(),
        ensures
            r == match old(self).spec_get(tree.nodes@, carried@, start as int) {
                Some(x) => Ok::<usize, AncestorError>(x),
                None => Err(AncestorError::NotFound),
            },
            final(self).cached(start as int) == old(self).spec_get(tree.nodes@, carried@, start as int),
            forall|s: int| s != start ==> #[trigger] final(self).cached(s) == old(self).cached(s),
    {
        if let Some(x) = self.cache.get(&start) {
            let x = *x;
            if x < tree.nodes.len() && x < carried.len() && carried[x].is_some() {
                return Ok(x);
            }
        }
        let found = AncestorQuery::find(tree, carried, start);
        match found {
            Some(x) => {
                self.cache.insert(start, x);
            },
            None => {
                self.cache.remove(&start);
            },
        }
        proof {
            assert forall|s: int| s != start implies #[trigger] self.cached(s) == old(self).cached(s)
                by {
                if 0 <= s <= usize::MAX {
                    assert(s as usize != start);
                }
            }
        }
        match found {
            Some(x) => Ok(x),
            None => Err(AncestorError::NotFound),
        }
    }
}

impl Hierarchy {
    /// Scores `scorer` from the state of its nearest carrier, found with `query`; with no
    /// carrier the score drops to the minimum. A node without a score is left alone.
    pub fn score_ancestor(
        &mut self,
        query: &mut AncestorQuery,
        carried: &Vec<Option<Score>>,
        scorer: usize,
    )
        requires
            old(self).wf(),
            scorer < old(self).nodes@.len(),
        ensures
            final(self).wf(),
            final(self).nodes@.len() == old(self).nodes@.len(),
            forall|k: int| 0 <= k < old(self).nodes@.len() && k != scorer ==> #[trigger] final(self).nodes@[k] == old(self).nodes@[k],
            final(self).nodes@[scorer as int].parent == old(self).nodes@[scorer as int].parent,
            final(self).nodes@[scorer as int].children@ == old(self).nodes@[scorer as int].children@,
            final(self).nodes@[scorer as int].weight == old(self).nodes@[scorer as int].weight,
            final(self).nodes@[scorer as int].aggregator == old(self).nodes@[scorer as int].aggregator,
            old(self).nodes@[scorer as int].score.is_none() ==> final(self).nodes@[scorer as int].score.is_none(),
            old(self).nodes@[scorer as int].score.is_some() ==> final(self).nodes@[scorer as int].score == Some(
                match old(query).spec_get(old(self).nodes@, carried@, scorer as int) {
                    Some(x) => carried@[x as int].unwrap(),
                    None => Score::min_score_spec(),
                },
            ),
    {
        if self.nodes[scorer].score.is_none() {
            return;
        }
        proof {
            lemma_nearest_carries(self.nodes@, carried@, scorer as int);
        }
        let value = match query.get(self, carried, scorer) {
            Ok(x) => match carried[x] {
                Some(s) => s,
                None => Score::min_score(),
            },
            Err(_) => Score::min_score(),
        };
        let ghost ns = self.nodes@;
        let mut taken = Node {
            parent: None,
            children: Vec::new(),
            score: None,
            weight: None,
            aggregator: None,
        };
        self.nodes.set_and_swap(scorer, &mut taken);
        taken.score = Some(value);
        self.nodes.set_and_swap(scorer, &mut taken);
        proof {
            let fs = self.nodes@;
            assert forall|i: int| 0 <= i < fs.len() implies #[trigger] node_wf(fs, i) by {
                assert(node_wf(ns, i));
                assert forall|j: int| 0 <= j < fs[i].children@.len() implies {
                    let c = #[trigger] fs[i].children@[j];
                    i < c < fs.len() && fs[c as int].parent == Some(i as usize)
                } by {
                    let c = ns[i].children@[j];
                    assert(fs[c as int].parent == ns[c as int].parent);
                }
            }
        }
    }
}

} // verus!
