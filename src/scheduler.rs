//! Evaluation of a formula set: every node is evaluated after the nodes it
//! references, and the result is the value of the root, the node that
//! starts a longest chain of references.
use vstd::prelude::*;
use crate::expression::{Bindings, bindings_view, evaluate, evaluate_expression, lookup, opt_view, lookup_index};
use crate::graph::{
    FormulaGraph, NodeView, Schedule, graph_wf, has_cycle, heights_ok, is_path, order_ok,
    lemma_longest_path, lemma_path_height, schedule,
};
use crate::graph::index_from;
use crate::statement::ParseError;
use crate::text::{same_chars, slice_of};

verus! {

/// Why a formula set could not be evaluated.
#[derive(Debug, Clone, Copy, PartialEq, Eq, Structural)]
pub enum EngineError {
    /// The formula text was refused.
    Parse(ParseError),
    /// Some node depends on itself.
    Cycle,
    /// The formula set has no nodes, or no node references another.
    NotFound,
    /// An expression could not be evaluated.
    Evaluation,
}

/// The bindings for the nodes `deps`: each name with its value; `None`
/// where one of them has no value.
pub open spec fn dep_bindings(g: Seq<NodeView>, vals: Seq<Option<Seq<char>>>, deps: Seq<usize>) -> Option<Bindings>
    decreases deps.len(),
{
    if deps.len() == 0 {
        Some(Seq::empty())
    } else {
        match dep_bindings(g, vals, deps.drop_last()) {
            None => None,
            Some(b) => match vals[deps.last() as int] {
                None => None,
                Some(v) => Some(b.push((g[deps.last() as int].0, v))),
            },
        }
    }
}

/// Node `i` evaluated with the given parameters and the values `vals` of
/// the nodes it references.
pub open spec fn node_eval(g: Seq<NodeView>, params: Bindings, vals: Seq<Option<Seq<char>>>, i: int) -> Option<Seq<char>> {
    match dep_bindings(g, vals, g[i].2) {
        None => None,
        Some(b) => evaluate(g[i].1, params + b),
    }
}

/// The value of node `i`: its parameter where one is given, else its evaluation.
pub open spec fn node_step(g: Seq<NodeView>, params: Bindings, vals: Seq<Option<Seq<char>>>, i: int) -> Option<Seq<char>> {
    match lookup(params, g[i].0) {
        Some(v) => Some(v),
        None => node_eval(g, params, vals, i),
    }
}

/// The values after `k` rounds in which every node is evaluated from the
/// values of the round before.
pub open spec fn values_at(g: Seq<NodeView>, params: Bindings, k: nat) -> Seq<Option<Seq<char>>>
    decreases k,
{
    if k == 0 {
        Seq::new(g.len(), |i: int| None)
    } else {
        let prev = values_at(g, params, (k - 1) as nat);
        Seq::new(g.len(), |i: int| node_step(g, params, prev, i))
    }
}

/// The value of every node; in a graph without cycles the rounds have
/// settled by then.
pub open spec fn node_values(g: Seq<NodeView>, params: Bindings) -> Seq<Option<Seq<char>>> {
    values_at(g, params, g.len())
}

/// No path has more than `m` edges.
pub open spec fn paths_at_most(g: Seq<NodeView>, m: int) -> bool {
    forall|q: Seq<int>| #[trigger] is_path(g, q) ==> q.len() <= m + 1
}

/// A path of `m` edges starts at `i`.
pub open spec fn starts_path(g: Seq<NodeView>, i: int, m: int) -> bool {
    exists|p: Seq<int>| #[trigger] is_path(g, p) && p[0] == i && p.len() == m + 1
}

/// `r` is the first node that starts a longest path, of `m` edges.
pub open spec fn is_root(g: Seq<NodeView>, r: int, m: int) -> bool {
    &&& 0 <= r < g.len()
    &&& paths_at_most(g, m)
    &&& starts_path(g, r, m)
    &&& forall|i: int| 0 <= i < r ==> !starts_path(g, i, m)
}

pub open spec fn root_of(g: Seq<NodeView>) -> (int, int) {
    choose|rm: (int, int)| is_root(g, rm.0, rm.1)
}

/// The result of evaluating a formula set.
pub open spec fn run_spec(g: Seq<NodeView>, params: Bindings) -> Result<Seq<char>, EngineError> {
    if has_cycle(g) {
        Err(EngineError::Cycle)
    } else if !(exists|i: int| 0 <= i < g.len() && #[trigger] g[i].2.len() > 0) {
        Err(EngineError::NotFound)
    } else {
        match node_eval(g, params, node_values(g, params), root_of(g).0) {
            Some(v) => Ok(v),
            None => Err(EngineError::Evaluation),
        }
    }
}

pub proof fn lemma_root_unique(g: Seq<NodeView>, r1: int, m1: int, r2: int, m2: int)
    requires
        is_root(g, r1, m1),
        is_root(g, r2, m2),
    ensures
        r1 == r2 && m1 == m2,
{
    let p1 = choose|p: Seq<int>| #[trigger] is_path(g, p) && p[0] == r1 && p.len() == m1 + 1;
    let p2 = choose|p: Seq<int>| #[trigger] is_path(g, p) && p[0] == r2 && p.len() == m2 + 1;
    assert(p1.len() <= m2 + 1);
    assert(p2.len() <= m1 + 1);
    if r1 < r2 {
        assert(!starts_path(g, r1, m2));
    }
    if r2 < r1 {
        assert(!starts_path(g, r2, m1));
    }
}

proof fn lemma_dep_bindings_agree(g: Seq<NodeView>, a: Seq<Option<Seq<char>>>, b: Seq<Option<Seq<char>>>, deps: Seq<usize>)
    requires
        forall|k: int| 0 <= k < deps.len() ==> a[#[trigger] deps[k] as int] == b[deps[k] as int],
    ensures
        dep_bindings(g, a, deps) == dep_bindings(g, b, deps),
    decreases deps.len(),
{
    if deps.len() > 0 {
        assert(a[deps[deps.len() - 1] as int] == b[deps[deps.len() - 1] as int]);
        lemma_dep_bindings_agree(g, a, b, deps.drop_last());
    }
}

/// Values that each node's step reproduces agree with the rounds once the
/// rounds have passed the node's height.
proof fn lemma_settled(g: Seq<NodeView>, params: Bindings, h: Seq<usize>, x: Seq<Option<Seq<char>>>, k: nat)
    requires
        graph_wf(g),
        heights_ok(g, h),
        x.len() == g.len(),
        forall|i: int| 0 <= i < g.len() ==> #[trigger] x[i] == node_step(g, params, x, i),
    ensures
        forall|i: int| 0 <= i < g.len() && h[i] < k ==> #[trigger] values_at(g, params, k)[i] == x[i],
    decreases k,
{
    if k > 0 {
        lemma_settled(g, params, h, x, (k - 1) as nat);
        let prev = values_at(g, params, (k - 1) as nat);
        assert forall|i: int| 0 <= i < g.len() && h[i] < k implies #[trigger] values_at(g, params, k)[i] == x[i] by {
            assert forall|m: int| 0 <= m < g[i].2.len() implies prev[#[trigger] g[i].2[m] as int] == x[g[i].2[m] as int] by {
                assert(h[i] >= h[g[i].2[m] as int] + 1);
                assert(g[i].2[m] < g.len());
            }
            lemma_dep_bindings_agree(g, prev, x, g[i].2);
            assert(values_at(g, params, k)[i] == node_step(g, params, prev, i));
        }
    }
}

pub open spec fn vals_view(v: Seq<Option<Vec<char>>>) -> Seq<Option<Seq<char>>> {
    v.map_values(|o: Option<Vec<char>>| opt_view(o))
}

/// A copy of the parameter bindings.
fn copy_bindings(params: &Vec<(Vec<char>, Vec<char>)>) -> (r: Vec<(Vec<char>, Vec<char>)>)
    ensures
        bindings_view(r@) == bindings_view(params@),
{
    let mut r: Vec<(Vec<char>, Vec<char>)> = Vec::new();
    let mut i: usize = 0;
    while i < params.len()
        invariant
            i <= params@.len(),
            bindings_view(r@) =~= bindings_view(params@).take(i as int),
        decreases params@.len() - i,
    {
        let a = slice_of(&params[i].0, 0, params[i].0.len());
        let b = slice_of(&params[i].1, 0, params[i].1.len());
        assert(params@[i as int].0@.subrange(0, params@[i as int].0@.len() as int) =~= params@[i as int].0@);
        assert(params@[i as int].1@.subrange(0, params@[i as int].1@.len() as int) =~= params@[i as int].1@);
        let ghost before = bindings_view(r@);
        r.push((a, b));
        assert(bindings_view(r@) =~= before.push((params@[i as int].0@, params@[i as int].1@)));
        assert(bindings_view(params@).take(i + 1) =~= bindings_view(params@).take(i as int).push(bindings_view(params@)[i as int]));
        i = i + 1;
    }
    r
}

/// Evaluates node `i` from the values of the nodes it references.
fn eval_node(g: &FormulaGraph, params: &Vec<(Vec<char>, Vec<char>)>, vals: &Vec<Option<Vec<char>>>, i: usize) -> (r: Option<Vec<char>>)
    requires
        graph_wf(g@),
        i < g@.len(),
        vals@.len() == g@.len(),
    ensures
        opt_view(r) == node_eval(g@, bindings_view(params@), vals_view(vals@), i as int),
{
    let ghost gv = g@;
    let ghost vv = vals_view(vals@);
    let ghost pv = bindings_view(params@);
    let deps = &g.nodes[i].deps;
    assert(deps@ == gv[i as int].2);
    let mut ctx = copy_bindings(params);
    let mut k: usize = 0;
    while k < deps.len()
        invariant
            graph_wf(gv),
            gv == g@,
            vv == vals_view(vals@),
            vals@.len() == gv.len(),
            i < gv.len(),
            deps@ == gv[i as int].2,
            k <= deps@.len(),
            dep_bindings(gv, vv, deps@.take(k as int)) == Some(bindings_view(ctx@).skip(pv.len() as int)),
            bindings_view(ctx@).take(pv.len() as int) == pv,
            bindings_view(ctx@).len() >= pv.len(),
        decreases deps@.len() - k,
    {
        let j = deps[k];
        assert(gv[i as int].2[k as int] < gv.len());
        assert(deps@.take(k + 1).drop_last() =~= deps@.take(k as int));
        match &vals[j] {
            None => {
                proof {
                    lemma_dep_bindings_none(gv, vv, deps@, k as int + 1);
                }
                return None;
            },
            Some(v) => {
                let name = slice_of(&g.nodes[j].name, 0, g.nodes[j].name.len());
                let value = slice_of(v, 0, v.len());
                assert(g.nodes@[j as int].name@ == gv[j as int].0);
                assert(g.nodes@[j as int].name@.subrange(0, g.nodes@[j as int].name@.len() as int) =~= gv[j as int].0);
                assert(v@.subrange(0, v@.len() as int) =~= v@);
                let ghost before = bindings_view(ctx@);
                ctx.push((name, value));
                assert(bindings_view(ctx@) =~= before.push((gv[j as int].0, v@)));
                assert(bindings_view(ctx@).skip(pv.len() as int) =~= before.skip(pv.len() as int).push((gv[j as int].0, v@)));
                assert(bindings_view(ctx@).take(pv.len() as int) =~= before.take(pv.len() as int));
            },
        }
        k = k + 1;
    }
    assert(deps@.take(k as int) =~= deps@);
    assert(bindings_view(ctx@) =~= pv + bindings_view(ctx@).skip(pv.len() as int));
    assert(g.nodes@[i as int].expression@ == gv[i as int].1);
    evaluate_expression(&g.nodes[i].expression, &ctx)
}

proof fn lemma_dep_bindings_none(g: Seq<NodeView>, vals: Seq<Option<Seq<char>>>, deps: Seq<usize>, k: int)
    requires
        0 < k <= deps.len(),
        vals[deps[k - 1] as int] is None,
    ensures
        dep_bindings(g, vals, deps) is None,
    decreases deps.len(),
{
    if k < deps.len() {
        assert(deps.drop_last()[k - 1] == deps[k - 1]);
        lemma_dep_bindings_none(g, vals, deps.drop_last(), k);
    }
}

/// The value of node `i` from its parameter, or evaluated.
fn step_node(g: &FormulaGraph, params: &Vec<(Vec<char>, Vec<char>)>, vals: &Vec<Option<Vec<char>>>, i: usize) -> (r: Option<Vec<char>>)
    requires
        graph_wf(g@),
        i < g@.len(),
        vals@.len() == g@.len(),
    ensures
        opt_view(r) == node_step(g@, bindings_view(params@), vals_view(vals@), i as int),
{
    assert(g.nodes@[i as int].name@ == g@[i as int].0);
    match lookup_index(params, &g.nodes[i].name) {
        Some(k) => {
            let v = slice_of(&params[k].1, 0, params[k].1.len());
            assert(params@[k as int].1@.subrange(0, params@[k as int].1@.len() as int) =~= params@[k as int].1@);
            Some(v)
        },
        None => eval_node(g, params, vals, i),
    }
}

/// The value of every node, computed in the given order.
fn compute_values(g: &FormulaGraph, params: &Vec<(Vec<char>, Vec<char>)>, order: &Vec<usize>) -> (vals: Vec<Option<Vec<char>>>)
    requires
        graph_wf(g@),
        order_ok(g@, order@),
    ensures
        vals@.len() == g@.len(),
        forall|i: int| 0 <= i < g@.len() ==> #[trigger] vals_view(vals@)[i] == node_step(g@, bindings_view(params@), vals_view(vals@), i),
{
    let ghost gv = g@;
    let ghost pv = bindings_view(params@);
    let n = g.nodes.len();
    let mut vals: Vec<Option<Vec<char>>> = Vec::new();
    let mut z: usize = 0;
    while z < n
        invariant
            z <= n,
            vals@.len() == z,
        decreases n - z,
    {
        vals.push(None);
        z = z + 1;
    }
    let mut a: usize = 0;
    while a < order.len()
        invariant
            graph_wf(gv),
            gv == g@,
            pv == bindings_view(params@),
            n == gv.len(),
            order_ok(gv, order@),
            a <= order@.len(),
            vals@.len() == n,
            forall|b: int| 0 <= b < a ==> #[trigger] vals_view(vals@)[order@[b] as int] == node_step(gv, pv, vals_view(vals@), order@[b] as int),
        decreases order@.len() - a,
    {
        let i = order[a];
        let v = step_node(g, params, &vals, i);
        let ghost before = vals_view(vals@);
        vals.set(i, v);
        proof {
            let after = vals_view(vals@);
            assert(after =~= before.update(i as int, opt_view(v)));
            assert forall|b: int| 0 <= b <= a implies #[trigger] after[order@[b] as int] == node_step(gv, pv, after, order@[b] as int) by {
                let x = order@[b] as int;
                assert forall|m: int| 0 <= m < gv[x].2.len() implies before[#[trigger] gv[x].2[m] as int] == after[gv[x].2[m] as int] by {
                    let c = choose|c: int| 0 <= c < b && order@[c] == #[trigger] gv[x].2[m];
                    assert(order@[c] != order@[a as int]);
                }
                lemma_dep_bindings_agree(gv, before, after, gv[x].2);
                if b < a {
                    assert(order@[b] != order@[a as int]);
                }
            }
        }
        a = a + 1;
    }
    proof {
        assert forall|i: int| 0 <= i < n implies #[trigger] vals_view(vals@)[i] == node_step(gv, pv, vals_view(vals@), i) by {
            assert(order@.contains(i as usize));
            let b = choose|b: int| 0 <= b < order@.len() && order@[b] == i as usize;
            assert(vals_view(vals@)[order@[b] as int] == node_step(gv, pv, vals_view(vals@), order@[b] as int));
        }
    }
    vals
}

/// The first node of greatest height, and that height.
fn find_root(g: &FormulaGraph, height: &Vec<usize>) -> (r: (usize, usize))
    requires
        graph_wf(g@),
        heights_ok(g@, height@),
        g@.len() > 0,
    ensures
        is_root(g@, r.0 as int, r.1 as int),
        r.1 == 0 ==> forall|i: int| 0 <= i < g@.len() ==> #[trigger] g@[i].2.len() == 0,
{
    let ghost gv = g@;
    let n = height.len();
    let mut r: usize = 0;
    let mut m: usize = height[0];
    let mut i: usize = 1;
    while i < n
        invariant
            n == height@.len() == gv.len(),
            1 <= i <= n,
            r < i,
            m == height@[r as int],
            forall|x: int| 0 <= x < i ==> #[trigger] height@[x] <= m,
            forall|x: int| 0 <= x < r ==> #[trigger] height@[x] < m,
        decreases n - i,
    {
        if height[i] > m {
            r = i;
            m = height[i];
        }
        i = i + 1;
    }
    proof {
        let p = lemma_longest_path(gv, height@, r as int);
        assert(starts_path(gv, r as int, m as int));
        assert forall|q: Seq<int>| #[trigger] is_path(gv, q) implies q.len() <= m + 1 by {
            lemma_path_height(gv, height@, q);
        }
        assert forall|x: int| 0 <= x < r implies !starts_path(gv, x, m as int) by {
            if starts_path(gv, x, m as int) {
                let q = choose|q: Seq<int>| #[trigger] is_path(gv, q) && q[0] == x && q.len() == m + 1;
                lemma_path_height(gv, height@, q);
            }
        }
        if m == 0 {
            assert forall|x: int| 0 <= x < gv.len() implies #[trigger] gv[x].2.len() == 0 by {
                if gv[x].2.len() > 0 {
                    assert(height@[x] >= height@[gv[x].2[0] as int] + 1);
                }
            }
        }
    }
    (r, m)
}

pub open spec fn run_view(r: Result<Vec<char>, EngineError>) -> Result<Seq<char>, EngineError> {
    match r {
        Ok(v) => Ok(v@),
        Err(e) => Err(e),
    }
}

/// Evaluates a formula graph: refuses one with a cycle, and one where no
/// node references another; otherwise evaluates every node after those it
/// references and returns the value of the root's expression.
pub fn run_graph(g: &FormulaGraph, params: &Vec<(Vec<char>, Vec<char>)>) -> (r: Result<Vec<char>, EngineError>)
    requires
        graph_wf(g@),
    ensures
        run_view(r) == run_spec(g@, bindings_view(params@)),
{
    let ghost gv = g@;
    let ghost pv = bindings_view(params@);
    let s = match schedule(g) {
        None => {
            return Err(EngineError::Cycle);
        },
        Some(s) => s,
    };
    if g.nodes.len() == 0 {
        return Err(EngineError::NotFound);
    }
    let (root, m) = find_root(g, &s.height);
    if m == 0 {
        return Err(EngineError::NotFound);
    }
    proof {
        assert(exists|i: int| 0 <= i < gv.len() && #[trigger] gv[i].2.len() > 0) by {
            let p = choose|p: Seq<int>| #[trigger] is_path(gv, p) && p[0] == root as int && p.len() == m + 1;
            assert(gv[root as int].2.len() > 0) by {
                assert(crate::graph::edge(gv, p[0], p[1]));
            }
        }
        let rm = root_of(gv);
        lemma_root_unique(gv, rm.0, rm.1, root as int, m as int);
    }
    let vals = compute_values(g, params, &s.order);
    proof {
        lemma_settled(gv, pv, s.height@, vals_view(vals@), gv.len());
        assert(vals_view(vals@) =~= node_values(gv, pv));
    }
    match eval_node(g, params, &vals, root) {
        Some(v) => Ok(v),
        None => Err(EngineError::Evaluation),
    }
}

/// The result of evaluating the node named `name` of a formula set.
pub open spec fn run_node_spec(g: Seq<NodeView>, params: Bindings, name: Seq<char>) -> Result<Seq<char>, EngineError> {
    let i = index_from(stmt_names_of(g), name, 0);
    if has_cycle(g) {
        Err(EngineError::Cycle)
    } else if i < 0 {
        Err(EngineError::NotFound)
    } else {
        match node_eval(g, params, node_values(g, params), i) {
            Some(v) => Ok(v),
            None => Err(EngineError::Evaluation),
        }
    }
}

pub open spec fn stmt_names_of(g: Seq<NodeView>) -> Seq<Seq<char>> {
    g.map_values(|n: NodeView| n.0)
}

fn node_position(g: &FormulaGraph, name: &Vec<char>) -> (r: Option<usize>)
    ensures
        match r {
            None => index_from(stmt_names_of(g@), name@, 0) == -1,
            Some(k) => index_from(stmt_names_of(g@), name@, 0) == k as int && k < g@.len(),
        },
{
    let ghost names = stmt_names_of(g@);
    let mut i: usize = 0;
    while i < g.nodes.len()
        invariant
            i <= g@.len(),
            names == stmt_names_of(g@),
            index_from(names, name@, 0) == index_from(names, name@, i as int),
        decreases g@.len() - i,
    {
        assert(names[i as int] == g.nodes@[i as int].name@);
        if same_chars(&g.nodes[i].name, name) {
            return Some(i);
        }
        i = i + 1;
    }
    None
}

/// Evaluates the node named `name` as the output of a formula graph, in
/// place of the root: refuses a graph with a cycle and a name it lacks.
pub fn run_graph_at(g: &FormulaGraph, params: &Vec<(Vec<char>, Vec<char>)>, name: &Vec<char>) -> (r: Result<Vec<char>, EngineError>)
    requires
        graph_wf(g@),
    ensures
        run_view(r) == run_node_spec(g@, bindings_view(params@), name@),
{
    let ghost gv = g@;
    let ghost pv = bindings_view(params@);
    let s = match schedule(g) {
        None => {
            return Err(EngineError::Cycle);
        },
        Some(s) => s,
    };
    let out = match node_position(g, name) {
        None => {
            return Err(EngineError::NotFound);
        },
        Some(k) => k,
    };
    let vals = compute_values(g, params, &s.order);
    proof {
        lemma_settled(gv, pv, s.height@, vals_view(vals@), gv.len());
        assert(vals_view(vals@) =~= node_values(gv, pv));
    }
    match eval_node(g, params, &vals, out) {
        Some(v) => Ok(v),
        None => Err(EngineError::Evaluation),
    }
}

} // verus!
