//! The dependency-graph store: one graph per formula-set id, replaced
//! wholesale when a formula set is saved again.
use vstd::prelude::*;
use crate::graph::{FormulaGraph, NodeView, graph_valid, graph_wf, has_cycle, index_from, lemma_index_from, schedule};
use crate::formula_node::{edges_upto, node_edges};
use crate::graph::{Schedule, heights_ok, order_ok};
use crate::text::{same_chars, slice_of};

verus! {

/// The graphs of the saved formula sets, keyed by id.
pub struct GraphStore {
    sets: Vec<(Vec<char>, FormulaGraph)>,
}

pub open spec fn store_ids(sets: Seq<(Vec<char>, FormulaGraph)>) -> Seq<Seq<char>> {
    sets.map_values(|e: (Vec<char>, FormulaGraph)| e.0@)
}

/// The edges as (dependent, dependency) name pairs.
pub open spec fn edge_names(g: Seq<NodeView>, es: Seq<(int, int)>) -> Seq<(Seq<char>, Seq<char>)> {
    es.map_values(|e: (int, int)| (g[e.0].0, g[e.1].0))
}

proof fn lemma_index_push(ids: Seq<Seq<char>>, n: Seq<char>, x: Seq<char>)
    requires
        index_from(ids, n, 0) == -1,
    ensures
        index_from(ids.push(n), x, 0) == if index_from(ids, x, 0) >= 0 {
            index_from(ids, x, 0)
        } else if x == n {
            ids.len() as int
        } else {
            -1
        },
{
    lemma_index_from(ids, x, 0);
    lemma_index_from(ids, n, 0);
    lemma_index_from(ids.push(n), x, 0);
    let r = index_from(ids.push(n), x, 0);
    if index_from(ids, x, 0) >= 0 {
        let k = index_from(ids, x, 0);
        assert(ids.push(n)[k] == x);
        if r != k {
            assert(r < k || r == -1);
            if r >= 0 {
                assert(ids[r] == x);
            }
        }
    } else {
        if r >= 0 && r < ids.len() {
            assert(ids[r] == x);
        }
        if x == n {
            assert(ids.push(n)[ids.len() as int] == x);
        }
    }
}

impl GraphStore {
    /// The graph saved under each id.
    pub closed spec fn graphs(&self) -> Map<Seq<char>, Seq<NodeView>> {
        Map::new(
            |id: Seq<char>| index_from(store_ids(self.sets@), id, 0) >= 0,
            |id: Seq<char>| self.sets@[index_from(store_ids(self.sets@), id, 0)].1@,
        )
    }

    /// Every saved graph is as a successful parse leaves it.
    pub closed spec fn wf(&self) -> bool {
        forall|k: int| 0 <= k < self.sets@.len() ==> graph_valid(#[trigger] self.sets@[k].1@)
    }

    pub proof fn lemma_wf_graph(&self, id: Seq<char>)
        requires
            self.wf(),
            self.graphs().contains_key(id),
        ensures
            graph_valid(self.graphs()[id]),
    {
        lemma_index_from(store_ids(self.sets@), id, 0);
    }

    /// An empty store.
    pub fn new() -> (r: GraphStore)
        ensures
            r.wf(),
            r.graphs() == Map::<Seq<char>, Seq<NodeView>>::empty(),
    {
        let r = GraphStore { sets: Vec::new() };
        assert(r.graphs() =~= Map::<Seq<char>, Seq<NodeView>>::empty());
        r
    }

    fn position(&self, id: &Vec<char>) -> (r: Option<usize>)
        ensures
            match r {
                None => index_from(store_ids(self.sets@), id@, 0) == -1,
                Some(k) => index_from(store_ids(self.sets@), id@, 0) == k && k < self.sets@.len()
                    && self.sets@[k as int].0@ == id@,
            },
    {
        let ghost ids = store_ids(self.sets@);
        let mut i: usize = 0;
        while i < self.sets.len()
            invariant
                i <= self.sets@.len(),
                ids == store_ids(self.sets@),
                index_from(ids, id@, 0) == index_from(ids, id@, i as int),
            decreases self.sets@.len() - i,
        {
            if same_chars(&self.sets[i].0, id) {
                assert(ids[i as int] == id@);
                return Some(i);
            }
            i = i + 1;
        }
        None
    }

    /// Whether a graph is saved under `id`.
    pub fn contains(&self, id: &Vec<char>) -> (r: bool)
        ensures
            r == self.graphs().contains_key(id@),
    {
        self.position(id).is_some()
    }

    /// The graph saved under `id`.
    pub fn get(&self, id: &Vec<char>) -> (r: Option<&FormulaGraph>)
        ensures
            match r {
                None => !self.graphs().contains_key(id@),
                Some(g) => self.graphs().contains_key(id@) && g@ == self.graphs()[id@],
            },
    {
        match self.position(id) {
            None => None,
            Some(k) => Some(&self.sets[k].1),
        }
    }

    /// Saves `g` under `id` in place of what was saved there before, in one step.
    pub fn replace(&mut self, id: &Vec<char>, g: FormulaGraph)
        requires
            old(self).wf(),
            graph_valid(g@),
        ensures
            final(self).wf(),
            final(self).graphs() == old(self).graphs().insert(id@, g@),
    {
        let ghost before = self.graphs();
        let ghost old_sets = self.sets@;
        let ghost gv = g@;
        match self.position(id) {
            Some(k) => {
                let key = crate::text::slice_of(id, 0, id.len());
                assert(id@.subrange(0, id@.len() as int) =~= id@);
                self.sets.set(k, (key, g));
                proof {
                    assert(store_ids(self.sets@) =~= store_ids(old_sets));
                    lemma_index_from(store_ids(old_sets), id@, 0);
                    assert forall|x: Seq<char>| #[trigger] self.graphs().contains_key(x) == before.insert(id@, gv).contains_key(x) by {}
                    assert forall|x: Seq<char>| self.graphs().contains_key(x) implies #[trigger] self.graphs()[x] == before.insert(id@, gv)[x] by {
                        lemma_index_from(store_ids(old_sets), x, 0);
                    }
                    assert(self.graphs() =~= before.insert(id@, gv));
                }
            },
            None => {
                let key = crate::text::slice_of(id, 0, id.len());
                assert(id@.subrange(0, id@.len() as int) =~= id@);
                self.sets.push((key, g));
                proof {
                    assert(store_ids(self.sets@) =~= store_ids(old_sets).push(id@));
                    assert forall|x: Seq<char>| #[trigger] self.graphs().contains_key(x) == before.insert(id@, gv).contains_key(x) by {
                        lemma_index_push(store_ids(old_sets), id@, x);
                    }
                    assert forall|x: Seq<char>| self.graphs().contains_key(x) implies #[trigger] self.graphs()[x] == before.insert(id@, gv)[x] by {
                        lemma_index_push(store_ids(old_sets), id@, x);
                        lemma_index_from(store_ids(old_sets), x, 0);
                    }
                    assert(self.graphs() =~= before.insert(id@, gv));
                }
            },
        }
        proof {
            assert forall|k: int| 0 <= k < self.sets@.len() implies graph_valid(#[trigger] self.sets@[k].1@) by {
                if k < old_sets.len() && self.sets@[k] != old_sets[k] {
                    assert(self.sets@[k].1@ == gv);
                }
            }
        }
    }

    /// Whether the graph saved under `id` has a node reachable from itself.
    pub fn has_cycle(&self, id: &Vec<char>) -> (r: bool)
        requires
            self.wf(),
        ensures
            r == (self.graphs().contains_key(id@) && has_cycle(self.graphs()[id@])),
    {
        match self.get(id) {
            None => false,
            Some(g) => {
                proof {
                    self.lemma_wf_graph(id@);
                }
                schedule(g).is_none()
            },
        }
    }

    /// The one-hop dependency edges of the graph saved under `id`, as
    /// (dependent, dependency) name pairs, node by node; none where nothing
    /// is saved under `id`.
    pub fn direct_edges_from(&self, id: &Vec<char>) -> (r: Vec<(Vec<char>, Vec<char>)>)
        requires
            self.wf(),
        ensures
            r@.map_values(|p: (Vec<char>, Vec<char>)| (p.0@, p.1@)) == if self.graphs().contains_key(id@) {
                edge_names(self.graphs()[id@], edges_upto(self.graphs()[id@], self.graphs()[id@].len() as int))
            } else {
                Seq::empty()
            },
    {
        let mut r: Vec<(Vec<char>, Vec<char>)> = Vec::new();
        let g = match self.get(id) {
            None => {
                assert(r@.map_values(|p: (Vec<char>, Vec<char>)| (p.0@, p.1@)) =~= Seq::empty());
                return r;
            },
            Some(g) => g,
        };
        proof {
            self.lemma_wf_graph(id@);
        }
        let ghost gv = g@;
        let n = g.nodes.len();
        let mut i: usize = 0;
        assert(r@.map_values(|p: (Vec<char>, Vec<char>)| (p.0@, p.1@)) =~= edge_names(gv, edges_upto(gv, 0)));
        while i < n
            invariant
                n == gv.len(),
                gv == g@,
                graph_wf(gv),
                i <= n,
                r@.map_values(|p: (Vec<char>, Vec<char>)| (p.0@, p.1@)) == edge_names(gv, edges_upto(gv, i as int)),
            decreases n - i,
        {
            let deps = &g.nodes[i].deps;
            assert(deps@ == gv[i as int].2);
            let mut k: usize = 0;
            assert(edges_upto(gv, i as int) + node_edges(gv, i as int, 0) =~= edges_upto(gv, i as int));
            while k < deps.len()
                invariant
                    n == gv.len(),
                    gv == g@,
                    graph_wf(gv),
                    i < n,
                    deps@ == gv[i as int].2,
                    k <= deps@.len(),
                    r@.map_values(|p: (Vec<char>, Vec<char>)| (p.0@, p.1@)) == edge_names(gv, edges_upto(gv, i as int) + node_edges(gv, i as int, k as int)),
                decreases deps@.len() - k,
            {
                let j = deps[k];
                assert(gv[i as int].2[k as int] < n);
                let a = slice_of(&g.nodes[i].name, 0, g.nodes[i].name.len());
                let b = slice_of(&g.nodes[j].name, 0, g.nodes[j].name.len());
                assert(g.nodes@[i as int].name@ == gv[i as int].0);
                assert(g.nodes@[j as int].name@ == gv[j as int].0);
                assert(g.nodes@[i as int].name@.subrange(0, g.nodes@[i as int].name@.len() as int) =~= gv[i as int].0);
                assert(g.nodes@[j as int].name@.subrange(0, g.nodes@[j as int].name@.len() as int) =~= gv[j as int].0);
                let ghost before = r@.map_values(|p: (Vec<char>, Vec<char>)| (p.0@, p.1@));
                r.push((a, b));
                proof {
                    let es = edges_upto(gv, i as int) + node_edges(gv, i as int, k as int);
                    let es2 = edges_upto(gv, i as int) + node_edges(gv, i as int, k + 1);
                    assert(es2 =~= es.push((i as int, j as int)));
                    assert(r@.map_values(|p: (Vec<char>, Vec<char>)| (p.0@, p.1@)) =~= before.push((gv[i as int].0, gv[j as int].0)));
                    assert(edge_names(gv, es2) =~= edge_names(gv, es).push((gv[i as int].0, gv[j as int].0)));
                }
                k = k + 1;
            }
            assert(edges_upto(gv, i as int) + node_edges(gv, i as int, k as int) =~= edges_upto(gv, i + 1));
            i = i + 1;
        }
        r
    }

    /// The nodes of the graph saved under `id` in an order of evaluation,
    /// each after the nodes it references, with the length of the longest
    /// chain of references from each; `None` where nothing is saved under
    /// `id` or the graph has a cycle.
    pub fn ordered_subgraph(&self, id: &Vec<char>) -> (r: Option<Schedule>)
        requires
            self.wf(),
        ensures
            r is None <==> (!self.graphs().contains_key(id@) || has_cycle(self.graphs()[id@])),
            r matches Some(s) ==> order_ok(self.graphs()[id@], s.order@) && heights_ok(self.graphs()[id@], s.height@),
    {
        match self.get(id) {
            None => None,
            Some(g) => {
                proof {
                    self.lemma_wf_graph(id@);
                }
                schedule(g)
            },
        }
    }
}

} // verus!
