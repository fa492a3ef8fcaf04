//! The dependency graph of one formula set: its nodes, the edges that the
//! bracket references make, cycles, and the order of evaluation.
use vstd::prelude::*;
use vstd::set_lib::{lemma_int_range, lemma_len_subset, set_int_range};
use crate::statement::{Statement, stmts_view};
use crate::text::{is_word_char, same_chars, slice_of, word_char};

verus! {

/// A node: its name, its expression text and the positions of the nodes that
/// the expression references.
pub struct GraphNode {
    pub name: Vec<char>,
    pub expression: Vec<char>,
    pub deps: Vec<usize>,
}

pub type NodeView = (Seq<char>, Seq<char>, Seq<usize>);

impl View for GraphNode {
    type V = NodeView;

    open spec fn view(&self) -> NodeView {
        (self.name@, self.expression@, self.deps@)
    }
}

/// The nodes of one formula set, in statement order.
pub struct FormulaGraph {
    pub nodes: Vec<GraphNode>,
}

impl View for FormulaGraph {
    type V = Seq<NodeView>;

    open spec fn view(&self) -> Seq<NodeView> {
        self.nodes@.map_values(|n: GraphNode| n@)
    }
}

// ---------------------------------------------------------------- references

/// Length of the run of name characters that starts at `i`.
pub open spec fn word_run(s: Seq<char>, i: int) -> nat
    decreases s.len() - i,
{
    if 0 <= i < s.len() && is_word_char(s[i]) {
        1 + word_run(s, i + 1)
    } else {
        0
    }
}

/// Whether `[name]` starts at `i`; the name is then `s[i+1 .. i+1+word_run(s, i+1)]`.
pub open spec fn ref_at(s: Seq<char>, i: int) -> bool {
    0 <= i && s[i] == '[' && word_run(s, i + 1) > 0 && i + 1 + word_run(s, i + 1) < s.len()
        && s[i + 1 + word_run(s, i + 1)] == ']'
}

/// The names of the references `[name]` from position `i` on, left to right,
/// each match ending before the next one starts.
pub open spec fn refs_from(s: Seq<char>, i: int) -> Seq<Seq<char>>
    decreases s.len() - i,
{
    if i < 0 || i >= s.len() {
        Seq::empty()
    } else if ref_at(s, i) {
        seq![s.subrange(i + 1, i + 1 + word_run(s, i + 1))] + refs_from(
            s,
            i + 2 + word_run(s, i + 1),
        )
    } else {
        refs_from(s, i + 1)
    }
}

pub open spec fn bracket_refs(s: Seq<char>) -> Seq<Seq<char>> {
    refs_from(s, 0)
}

// ---------------------------------------------------------------- building

pub open spec fn stmt_names(st: Seq<(Seq<char>, Seq<char>)>) -> Seq<Seq<char>> {
    st.map_values(|x: (Seq<char>, Seq<char>)| x.0)
}

/// Position of the first `n` in `names` at or after `i`, or -1.
pub open spec fn index_from(names: Seq<Seq<char>>, n: Seq<char>, i: int) -> int
    decreases names.len() - i,
{
    if i < 0 || i >= names.len() {
        -1
    } else if names[i] == n {
        i
    } else {
        index_from(names, n, i + 1)
    }
}

/// The positions of the referenced names that are defined, each once, in
/// order of first reference.
pub open spec fn dep_list(names: Seq<Seq<char>>, refs: Seq<Seq<char>>) -> Seq<usize>
    decreases refs.len(),
{
    if refs.len() == 0 {
        Seq::empty()
    } else {
        let d = dep_list(names, refs.drop_last());
        let j = index_from(names, refs.last(), 0);
        if j < 0 || d.contains(j as usize) {
            d
        } else {
            d.push(j as usize)
        }
    }
}

/// The graph of a list of statements: one node per statement, an edge to
/// each defined name that the expression references.
pub open spec fn graph_of(st: Seq<(Seq<char>, Seq<char>)>) -> Seq<NodeView> {
    Seq::new(
        st.len(),
        |i: int| (st[i].0, st[i].1, dep_list(stmt_names(st), bracket_refs(st[i].1))),
    )
}

pub proof fn lemma_index_from(names: Seq<Seq<char>>, n: Seq<char>, i: int)
    requires
        0 <= i <= names.len(),
    ensures
        index_from(names, n, i) == -1 || (i <= index_from(names, n, i) < names.len() && names[index_from(names, n, i)] == n),
        index_from(names, n, i) == -1 ==> forall|k: int| i <= k < names.len() ==> names[k] != n,
        forall|k: int| i <= k < index_from(names, n, i) ==> names[k] != n,
    decreases names.len() - i,
{
    if i < names.len() {
        lemma_index_from(names, n, i + 1);
    }
}

pub proof fn lemma_dep_list_bounded(names: Seq<Seq<char>>, refs: Seq<Seq<char>>)
    ensures
        forall|k: int| 0 <= k < dep_list(names, refs).len() ==> dep_list(names, refs)[k] < names.len(),
        dep_list(names, refs).no_duplicates(),
    decreases refs.len(),
{
    if refs.len() > 0 {
        lemma_dep_list_bounded(names, refs.drop_last());
        lemma_index_from(names, refs.last(), 0);
    }
}

/// Position of the statement named `n`.
fn find_name(stmts: &Vec<Statement>, n: &Vec<char>) -> (r: Option<usize>)
    ensures
        match r {
            Some(j) => index_from(stmt_names(stmts_view(stmts@)), n@, 0) == j as int,
            None => index_from(stmt_names(stmts_view(stmts@)), n@, 0) == -1,
        },
{
    let ghost names = stmt_names(stmts_view(stmts@));
    let mut i: usize = 0;
    while i < stmts.len()
        invariant
            0 <= i <= stmts@.len(),
            names.len() == stmts@.len(),
            names == stmt_names(stmts_view(stmts@)),
            index_from(names, n@, 0) == index_from(names, n@, i as int),
        decreases stmts@.len() - i,
    {
        assert(names[i as int] == stmts@[i as int].name@);
        if same_chars(&stmts[i].name, n) {
            return Some(i);
        }
        i = i + 1;
    }
    None
}

pub proof fn lemma_word_run_end(s: Seq<char>, i: int, j: int)
    requires
        0 <= i <= j <= s.len(),
        forall|k: int| i <= k < j ==> is_word_char(s[k]),
    ensures
        word_run(s, i) == (j - i) + word_run(s, j),
    decreases j - i,
{
    if i < j {
        lemma_word_run_end(s, i + 1, j);
    }
}

/// The positions of the statements that `expr` references, each once.
fn deps_of(stmts: &Vec<Statement>, expr: &Vec<char>) -> (r: Vec<usize>)
    ensures
        r@ == dep_list(stmt_names(stmts_view(stmts@)), bracket_refs(expr@)),
{
    let ghost names = stmt_names(stmts_view(stmts@));
    let ghost s = expr@;
    let mut out: Vec<usize> = Vec::new();
    let ghost mut found: Seq<Seq<char>> = Seq::empty();
    let mut i: usize = 0;
    while i < expr.len()
        invariant
            0 <= i <= s.len(),
            s == expr@,
            names == stmt_names(stmts_view(stmts@)),
            found + refs_from(s, i as int) == bracket_refs(s),
            out@ == dep_list(names, found),
        decreases s.len() - i,
    {
        let mut matched = false;
        if expr[i] == '[' {
            let mut j: usize = i + 1;
            while j < expr.len() && word_char(expr[j])
                invariant
                    i + 1 <= j <= s.len(),
                    s == expr@,
                    forall|k: int| i + 1 <= k < j ==> is_word_char(s[k]),
                decreases s.len() - j,
            {
                j = j + 1;
            }
            proof {
                lemma_word_run_end(s, i + 1, j as int);
            }
            if j > i + 1 && j < expr.len() && expr[j] == ']' {
                assert(ref_at(s, i as int));
                let name = slice_of(expr, i + 1, j);
                proof {
                    assert(refs_from(s, i as int) == seq![name@] + refs_from(s, j + 1));
                    assert(found.push(name@) + refs_from(s, j + 1) =~= found + refs_from(s, i as int));
                    assert(found.push(name@).drop_last() =~= found);
                }
                match find_name(stmts, &name) {
                    Some(k) => {
                        let mut seen = false;
                        let mut m: usize = 0;
                        while m < out.len()
                            invariant
                                0 <= m <= out@.len(),
                                seen <==> exists|x: int| 0 <= x < m && out@[x] == k,
                            decreases out@.len() - m,
                        {
                            if out[m] == k {
                                seen = true;
                            }
                            m = m + 1;
                        }
                        if !seen {
                            out.push(k);
                        }
                    },
                    None => {},
                }
                proof {
                    found = found.push(name@);
                }
                i = j + 1;
                matched = true;
            } else {
                assert(!ref_at(s, i as int));
            }
        }
        if !matched {
            i = i + 1;
        }
    }
    assert(found =~= bracket_refs(s));
    out
}

/// Builds the graph of a list of statements.
pub fn build_graph(stmts: &Vec<Statement>) -> (g: FormulaGraph)
    ensures
        g@ == graph_of(stmts_view(stmts@)),
{
    let ghost st = stmts_view(stmts@);
    let mut nodes: Vec<GraphNode> = Vec::new();
    let mut i: usize = 0;
    while i < stmts.len()
        invariant
            0 <= i <= stmts@.len(),
            st == stmts_view(stmts@),
            nodes@.len() == i,
            forall|k: int| 0 <= k < i ==> #[trigger] nodes@[k]@ == graph_of(st)[k],
        decreases stmts@.len() - i,
    {
        let name = slice_of(&stmts[i].name, 0, stmts[i].name.len());
        let expression = slice_of(&stmts[i].expression, 0, stmts[i].expression.len());
        let deps = deps_of(stmts, &stmts[i].expression);
        assert(stmts@[i as int].name@.subrange(0, stmts@[i as int].name@.len() as int) =~= stmts@[i as int].name@);
        assert(stmts@[i as int].expression@.subrange(0, stmts@[i as int].expression@.len() as int) =~= stmts@[i as int].expression@);
        nodes.push(GraphNode { name, expression, deps });
        i = i + 1;
    }
    let g = FormulaGraph { nodes };
    assert(g@ =~= graph_of(st));
    g
}

// ---------------------------------------------------------------- paths

/// Well-formed: every edge ends at a node of the graph.
pub open spec fn graph_wf(g: Seq<NodeView>) -> bool {
    forall|i: int, k: int| 0 <= i < g.len() && 0 <= k < g[i].2.len() ==> #[trigger] g[i].2[k] < g.len()
}

/// A graph as a successful parse leaves it: at least one node, names
/// distinct, and each referenced node listed once per node.
pub open spec fn graph_valid(g: Seq<NodeView>) -> bool {
    &&& graph_wf(g)
    &&& g.len() > 0
    &&& forall|i: int, j: int| 0 <= i < j < g.len() ==> #[trigger] g[i].0 != #[trigger] g[j].0
    &&& forall|i: int| 0 <= i < g.len() ==> (#[trigger] g[i].2).no_duplicates()
}

/// Node `i` references node `j`.
pub open spec fn edge(g: Seq<NodeView>, i: int, j: int) -> bool {
    0 <= i < g.len() && 0 <= j < g.len() && exists|k: int| 0 <= k < g[i].2.len() && g[i].2[k] as int == j
}

/// A walk along edges; its length is `p.len() - 1`.
pub open spec fn is_path(g: Seq<NodeView>, p: Seq<int>) -> bool {
    &&& p.len() >= 1
    &&& forall|k: int| 0 <= k < p.len() ==> 0 <= #[trigger] p[k] < g.len()
    &&& forall|k: int| 0 <= k < p.len() - 1 ==> edge(g, #[trigger] p[k], p[k + 1])
}

/// Some node is reachable from itself through one or more edges.
pub open spec fn has_cycle(g: Seq<NodeView>) -> bool {
    exists|p: Seq<int>| #[trigger] is_path(g, p) && p.len() >= 2 && p[0] == p.last()
}

/// `h[i]` is the length of the longest path from `i`: one more than the
/// largest height among the nodes it references, 0 where it references none.
pub open spec fn heights_ok(g: Seq<NodeView>, h: Seq<usize>) -> bool {
    &&& h.len() == g.len()
    &&& forall|i: int, k: int|
        0 <= i < g.len() && 0 <= k < g[i].2.len() ==> h[i] >= h[#[trigger] g[i].2[k] as int] + 1
    &&& forall|i: int| 0 <= i < g.len() && g[i].2.len() == 0 ==> #[trigger] h[i] == 0
    &&& forall|i: int|
        0 <= i < g.len() && g[i].2.len() > 0 ==> exists|k: int|
            0 <= k < g[i].2.len() && h[i] == h[#[trigger] g[i].2[k] as int] + 1
}

/// Every node once, each after all the nodes it references.
pub open spec fn order_ok(g: Seq<NodeView>, order: Seq<usize>) -> bool {
    &&& order.len() == g.len()
    &&& order.no_duplicates()
    &&& forall|a: int| 0 <= a < order.len() ==> #[trigger] order[a] < g.len()
    &&& forall|i: usize| 0 <= i < g.len() ==> #[trigger] order.contains(i)
    &&& forall|a: int, k: int|
        0 <= a < order.len() && 0 <= k < g[order[a] as int].2.len() ==> exists|b: int|
            0 <= b < a && order[b] == #[trigger] g[order[a] as int].2[k]
}

pub proof fn lemma_path_height(g: Seq<NodeView>, h: Seq<usize>, p: Seq<int>)
    requires
        heights_ok(g, h),
        is_path(g, p),
    ensures
        h[p[0]] >= h[p.last()] + p.len() - 1,
    decreases p.len(),
{
    if p.len() > 1 {
        let q = p.drop_first();
        assert forall|k: int| 0 <= k < q.len() - 1 implies edge(g, #[trigger] q[k], q[k + 1]) by {
            assert(edge(g, p[k + 1], p[k + 2]));
        }
        assert forall|k: int| 0 <= k < q.len() implies 0 <= #[trigger] q[k] < g.len() by {
            assert(0 <= p[k + 1] < g.len());
        }
        lemma_path_height(g, h, q);
        assert(q[0] == p[1] && q.last() == p.last());
        assert(edge(g, p[0], p[1]));
        assert(0 <= p[1] < g.len());
        let k = choose|k: int| 0 <= k < g[p[0]].2.len() && g[p[0]].2[k] as int == p[1];
        assert(h[p[0]] >= h[g[p[0]].2[k] as int] + 1);
    }
}

/// Heights certify that no cycle exists.
pub proof fn lemma_heights_acyclic(g: Seq<NodeView>, h: Seq<usize>)
    requires
        heights_ok(g, h),
    ensures
        !has_cycle(g),
{
    if has_cycle(g) {
        let p = choose|p: Seq<int>| #[trigger] is_path(g, p) && p.len() >= 2 && p[0] == p.last();
        lemma_path_height(g, h, p);
    }
}

/// A path from `i` as long as its height.
pub proof fn lemma_longest_path(g: Seq<NodeView>, h: Seq<usize>, i: int) -> (p: Seq<int>)
    requires
        graph_wf(g),
        heights_ok(g, h),
        0 <= i < g.len(),
    ensures
        is_path(g, p),
        p[0] == i,
        p.len() == h[i] + 1,
    decreases h[i],
{
    if g[i].2.len() == 0 {
        seq![i]
    } else {
        let k = choose|k: int| 0 <= k < g[i].2.len() && h[i] == h[#[trigger] g[i].2[k] as int] + 1;
        let j = g[i].2[k] as int;
        assert(g[i].2[k] < g.len());
        let q = lemma_longest_path(g, h, j);
        let p = seq![i] + q;
        assert forall|m: int| 0 <= m < p.len() - 1 implies edge(g, #[trigger] p[m], p[m + 1]) by {
            if m == 0 {
                assert(g[i].2[k] as int == j);
            } else {
                assert(p[m] == q[m - 1] && p[m + 1] == q[m]);
                assert(edge(g, q[m - 1], q[m]));
            }
        }
        assert forall|m: int| 0 <= m < p.len() implies 0 <= #[trigger] p[m] < g.len() by {
            if m > 0 {
                assert(p[m] == q[m - 1]);
            }
        }
        p
    }
}

pub proof fn lemma_distinct_len(s: Seq<int>, n: int)
    requires
        0 <= n,
        s.no_duplicates(),
        forall|k: int| 0 <= k < s.len() ==> 0 <= #[trigger] s[k] < n,
    ensures
        s.len() <= n,
{
    s.unique_seq_to_set();
    lemma_int_range(0, n);
    assert(s.to_set().subset_of(set_int_range(0, n)));
    lemma_len_subset(s.to_set(), set_int_range(0, n));
}

proof fn lemma_covering_len(s: Seq<int>, n: int)
    requires
        0 <= n,
        forall|i: int| 0 <= i < n ==> s.contains(i),
    ensures
        s.len() >= n,
{
    s.lemma_cardinality_of_set();
    lemma_int_range(0, n);
    assert(set_int_range(0, n).subset_of(s.to_set()));
    lemma_len_subset(set_int_range(0, n), s.to_set());
}

pub open spec fn as_ints(s: Seq<usize>) -> Seq<int> {
    s.map_values(|x: usize| x as int)
}

/// An order of evaluation and the height of every node.
pub struct Schedule {
    pub order: Vec<usize>,
    pub height: Vec<usize>,
}

/// The placed nodes are exactly those in `order`, and `pos` gives their place.
#[verifier::opaque]
spec fn slots_ok(n: int, placed: Seq<bool>, pos: Seq<usize>, order: Seq<usize>) -> bool {
    &&& n <= usize::MAX
    &&& placed.len() == n && pos.len() == n
    &&& order.len() <= n
    &&& order.no_duplicates()
    &&& forall|a: int| 0 <= a < order.len() ==> (#[trigger] order[a] as int) < n
    &&& forall|i: int| 0 <= i < n ==> (#[trigger] placed[i] <==> (pos[i] < order.len() && order[pos[i] as int] == i))
    &&& forall|a: int| 0 <= a < order.len() ==> #[trigger] pos[order[a] as int] == a
}

/// Each placed node comes after the nodes it references, with its height.
#[verifier::opaque]
spec fn deps_ok(gv: Seq<NodeView>, placed: Seq<bool>, height: Seq<usize>, pos: Seq<usize>) -> bool {
    let n = gv.len();
    &&& height.len() == n
    &&& forall|i: int, k: int| 0 <= i < n && placed[i] && 0 <= k < gv[i].2.len() ==>
        placed[#[trigger] gv[i].2[k] as int] && pos[gv[i].2[k] as int] < pos[i]
    &&& forall|i: int| 0 <= i < n && placed[i] ==> #[trigger] height[i] <= pos[i]
    &&& forall|i: int, k: int| 0 <= i < n && placed[i] && 0 <= k < gv[i].2.len() ==>
        height[i] >= height[#[trigger] gv[i].2[k] as int] + 1
    &&& forall|i: int| 0 <= i < n && placed[i] && gv[i].2.len() == 0 ==> #[trigger] height[i] == 0
    &&& forall|i: int| 0 <= i < n && placed[i] && gv[i].2.len() > 0 ==> exists|k: int|
        0 <= k < gv[i].2.len() && height[i] == height[#[trigger] gv[i].2[k] as int] + 1
}

/// What holds of the nodes placed so far.
spec fn placing_ok(
    gv: Seq<NodeView>,
    placed: Seq<bool>,
    height: Seq<usize>,
    pos: Seq<usize>,
    order: Seq<usize>,
) -> bool {
    &&& graph_wf(gv)
    &&& slots_ok(gv.len() as int, placed, pos, order)
    &&& deps_ok(gv, placed, height, pos)
}

/// Every node not placed references one not placed.
#[verifier::opaque]
spec fn stuck(gv: Seq<NodeView>, placed: Seq<bool>) -> bool {
    forall|x: int| 0 <= x < gv.len() && !placed[x] ==> exists|k: int|
        0 <= k < gv[x].2.len() && !(#[trigger] placed[gv[x].2[k] as int])
}

/// What the height of a node is, given the heights of the nodes it references.
spec fn height_fits(gv: Seq<NodeView>, placed: Seq<bool>, height: Seq<usize>, i: int, h: int) -> bool {
    &&& forall|m: int| 0 <= m < gv[i].2.len() ==> #[trigger] placed[gv[i].2[m] as int]
    &&& forall|m: int| 0 <= m < gv[i].2.len() ==> h >= height[#[trigger] gv[i].2[m] as int] + 1
    &&& gv[i].2.len() == 0 ==> h == 0
    &&& gv[i].2.len() > 0 ==> exists|m: int| 0 <= m < gv[i].2.len() && #[trigger] height[gv[i].2[m] as int] + 1 == h
}

proof fn lemma_placing_facts(gv: Seq<NodeView>, placed: Seq<bool>, height: Seq<usize>, pos: Seq<usize>, order: Seq<usize>)
    requires
        placing_ok(gv, placed, height, pos, order),
    ensures
        graph_wf(gv),
        placed.len() == gv.len() && height.len() == gv.len() && pos.len() == gv.len(),
        order.len() <= gv.len() <= usize::MAX,
        forall|x: int| 0 <= x < gv.len() && #[trigger] placed[x] ==> height[x] < order.len() && pos[x] < order.len(),
        forall|x: int| 0 <= x < gv.len() && #[trigger] placed[x] ==> as_ints(order).contains(x),
        forall|x: int| 0 <= x < gv.len() && !(#[trigger] placed[x]) ==> !as_ints(order).contains(x),
{
    reveal(slots_ok);
    reveal(deps_ok);
    assert forall|x: int| 0 <= x < gv.len() && !(#[trigger] placed[x]) implies !as_ints(order).contains(x) by {
        if as_ints(order).contains(x) {
            let a = choose|a: int| 0 <= a < order.len() && as_ints(order)[a] == x;
            assert(pos[order[a] as int] == a);
        }
    }
    assert forall|x: int| 0 <= x < gv.len() && #[trigger] placed[x] implies as_ints(order).contains(x) by {
        assert(as_ints(order)[pos[x] as int] == x);
    }
}

proof fn lemma_place_slots(n: int, placed: Seq<bool>, pos: Seq<usize>, order: Seq<usize>, i: int)
    requires
        slots_ok(n, placed, pos, order),
        0 <= i < n,
        !as_ints(order).contains(i),
        !placed[i],
    ensures
        order.len() < n,
        slots_ok(n, placed.update(i, true), pos.update(i, order.len() as usize), order.push(i as usize)),
{
    reveal(slots_ok);
    let placed2 = placed.update(i, true);
    let pos2 = pos.update(i, order.len() as usize);
    let order2 = order.push(i as usize);
    assert forall|a: int| 0 <= a < order.len() implies order[a] != i by {
        assert(as_ints(order)[a] == order[a] as int);
    }
    assert(order2.no_duplicates()) by {
        assert forall|a: int, b: int| 0 <= a < b < order2.len() implies order2[a] != order2[b] by {
            if b == order2.len() - 1 {
                assert(order2[a] == order[a]);
            } else {
                assert(order2[a] == order[a] && order2[b] == order[b]);
            }
        }
    }
    assert forall|a: int| 0 <= a < order2.len() implies (#[trigger] as_ints(order2)[a]) < n && 0 <= as_ints(order2)[a] by {
        if a < order.len() {
            assert(order2[a] == order[a]);
        }
    }
    lemma_distinct_len(as_ints(order2), n);
    assert forall|x: int| 0 <= x < n implies (#[trigger] placed2[x] <==> (pos2[x] < order2.len() && order2[pos2[x] as int] == x)) by {
        if x != i {
            assert(placed[x] <==> (pos[x] < order.len() && order[pos[x] as int] == x));
            if pos2[x] < order2.len() && order2[pos2[x] as int] == x {
                assert(pos[x] != order.len());
            }
        }
    }
    assert forall|a: int| 0 <= a < order2.len() implies #[trigger] pos2[order2[a] as int] == a by {
        if a < order.len() {
            assert(pos[order[a] as int] == a);
        }
    }
}

proof fn lemma_place_deps(gv: Seq<NodeView>, placed: Seq<bool>, height: Seq<usize>, pos: Seq<usize>, i: int, h: int, p: int)
    requires
        graph_wf(gv),
        deps_ok(gv, placed, height, pos),
        placed.len() == gv.len() && pos.len() == gv.len(),
        0 <= i < gv.len(),
        !placed[i],
        0 <= h <= p,
        p <= usize::MAX,
        forall|x: int| 0 <= x < gv.len() && #[trigger] placed[x] ==> pos[x] < p,
        height_fits(gv, placed, height, i, h),
    ensures
        deps_ok(gv, placed.update(i, true), height.update(i, h as usize), pos.update(i, p as usize)),
{
    reveal(deps_ok);
    let n = gv.len();
    let placed2 = placed.update(i, true);
    let height2 = height.update(i, h as usize);
    let pos2 = pos.update(i, p as usize);
    assert forall|x: int, k: int| 0 <= x < n && placed2[x] && 0 <= k < gv[x].2.len() implies
        height2[x] >= height2[#[trigger] gv[x].2[k] as int] + 1 by {
        if x != i {
            assert(placed[gv[x].2[k] as int]);
        }
    }
    assert forall|x: int| 0 <= x < n && placed2[x] && gv[x].2.len() > 0 implies exists|k: int|
        0 <= k < gv[x].2.len() && height2[x] == height2[#[trigger] gv[x].2[k] as int] + 1 by {
        if x != i {
            let k = choose|k: int| 0 <= k < gv[x].2.len() && height[x] == height[#[trigger] gv[x].2[k] as int] + 1;
            assert(placed[gv[x].2[k] as int]);
            assert(height2[x] == height2[gv[x].2[k] as int] + 1);
        } else {
            let m = choose|m: int| 0 <= m < gv[i].2.len() && #[trigger] height[gv[i].2[m] as int] + 1 == h;
            assert(placed[gv[i].2[m] as int]);
            assert(height2[x] == height2[gv[x].2[m] as int] + 1);
        }
    }
    assert forall|x: int, k: int| 0 <= x < n && placed2[x] && 0 <= k < gv[x].2.len() implies
        placed2[#[trigger] gv[x].2[k] as int] && pos2[gv[x].2[k] as int] < pos2[x] by {
        if x != i {
            assert(placed[gv[x].2[k] as int]);
        } else {
            assert(placed[gv[i].2[k] as int]);
        }
    }
    assert forall|x: int| 0 <= x < n && placed2[x] implies #[trigger] height2[x] <= pos2[x] by {}
    assert forall|x: int| 0 <= x < n && placed2[x] && gv[x].2.len() == 0 implies #[trigger] height2[x] == 0 by {}
    assert(height2.len() == n);
    assert(deps_ok(gv, placed2, height2, pos2));
}

proof fn lemma_all_placed(gv: Seq<NodeView>, placed: Seq<bool>, height: Seq<usize>, pos: Seq<usize>)
    requires
        deps_ok(gv, placed, height, pos),
        forall|x: int| 0 <= x < gv.len() ==> #[trigger] placed[x],
    ensures
        heights_ok(gv, height),
{
    reveal(deps_ok);
    assert forall|i: int, k: int| 0 <= i < gv.len() && 0 <= k < gv[i].2.len() implies height[i] >= height[#[trigger] gv[i].2[k] as int] + 1 by {
        assert(placed[i]);
    }
    assert forall|i: int| 0 <= i < gv.len() && gv[i].2.len() == 0 implies #[trigger] height[i] == 0 by {
        assert(placed[i]);
    }
    assert forall|i: int| 0 <= i < gv.len() && gv[i].2.len() > 0 implies exists|k: int|
        0 <= k < gv[i].2.len() && height[i] == height[#[trigger] gv[i].2[k] as int] + 1 by {
        assert(placed[i]);
        let k = choose|k: int| 0 <= k < gv[i].2.len() && height[i] == height[#[trigger] gv[i].2[k] as int] + 1;
        assert(height[i] == height[gv[i].2[k] as int] + 1);
    }
}

proof fn lemma_path_push(g: Seq<NodeView>, p: Seq<int>, j: int)
    requires
        is_path(g, p),
        edge(g, p.last(), j),
    ensures
        is_path(g, p.push(j)),
{
    let q = p.push(j);
    assert forall|m: int| 0 <= m < q.len() - 1 implies edge(g, #[trigger] q[m], q[m + 1]) by {
        if m < q.len() - 2 {
            assert(q[m] == p[m] && q[m + 1] == p[m + 1]);
        }
    }
}

pub proof fn lemma_path_skip(g: Seq<NodeView>, p: Seq<int>, s: int)
    requires
        is_path(g, p),
        0 <= s < p.len(),
    ensures
        is_path(g, p.skip(s)),
{
    let q = p.skip(s);
    assert forall|m: int| 0 <= m < q.len() - 1 implies edge(g, #[trigger] q[m], q[m + 1]) by {
        assert(q[m] == p[s + m] && q[m + 1] == p[s + m + 1]);
    }
    assert forall|m: int| 0 <= m < q.len() implies 0 <= #[trigger] q[m] < g.len() by {
        assert(q[m] == p[s + m]);
    }
}

proof fn lemma_place(gv: Seq<NodeView>, placed: Seq<bool>, height: Seq<usize>, pos: Seq<usize>, order: Seq<usize>, i: int, h: int)
    requires
        placing_ok(gv, placed, height, pos, order),
        0 <= i < gv.len(),
        !placed[i],
        0 <= h <= order.len(),
        height_fits(gv, placed, height, i, h),
    ensures
        order.len() < gv.len(),
        placing_ok(gv, placed.update(i, true), height.update(i, h as usize), pos.update(i, order.len() as usize), order.push(i as usize)),
{
    lemma_placing_facts(gv, placed, height, pos, order);
    lemma_place_slots(gv.len() as int, placed, pos, order, i);
    lemma_place_deps(gv, placed, height, pos, i, h, order.len() as int);
}

/// When all the nodes that `i` references are placed, the height `i` gets.
fn ready_height(g: &FormulaGraph, placed: &Vec<bool>, height: &Vec<usize>, placed_count: usize, i: usize) -> (r: Option<usize>)
    requires
        graph_wf(g@),
        placed@.len() == g@.len() && height@.len() == g@.len(),
        forall|x: int| 0 <= x < g@.len() && #[trigger] placed@[x] ==> height@[x] < placed_count,
        i < g@.len(),
    ensures
        match r {
            None => exists|m: int| 0 <= m < g@[i as int].2.len() && !(#[trigger] placed@[g@[i as int].2[m] as int]),
            Some(h) => h <= placed_count && height_fits(g@, placed@, height@, i as int, h as int),
        },
{
    let ghost gv = g@;
    let deps = &g.nodes[i].deps;
    assert(deps@ == gv[i as int].2);
    let mut h: usize = 0;
    let mut k: usize = 0;
    while k < deps.len()
        invariant
            graph_wf(gv),
            placed@.len() == gv.len() && height@.len() == gv.len(),
            forall|x: int| 0 <= x < gv.len() && #[trigger] placed@[x] ==> height@[x] < placed_count,
            gv == g@,
            deps@ == gv[i as int].2,
            i < gv.len(),
            k <= deps@.len(),
            h <= placed_count,
            forall|m: int| 0 <= m < k ==> #[trigger] placed@[deps@[m] as int],
            forall|m: int| 0 <= m < k ==> h >= height@[#[trigger] deps@[m] as int] + 1,
            k == 0 ==> h == 0,
            k > 0 ==> exists|m: int| 0 <= m < k && #[trigger] height@[deps@[m] as int] + 1 == h,
        decreases deps@.len() - k,
    {
        let d = deps[k];
        assert(gv[i as int].2[k as int] == d && (d as int) < gv.len());
        if !placed[d] {
            return None;
        }
        if height[d] + 1 > h {
            h = height[d] + 1;
        }
        k = k + 1;
    }
    Some(h)
}

/// One pass over the nodes, placing each whose references are all placed.
/// Returns whether anything was placed; if not, the placement is stuck.
fn place_pass(g: &FormulaGraph, placed: &mut Vec<bool>, height: &mut Vec<usize>, pos: &mut Vec<usize>, order: &mut Vec<usize>) -> (progress: bool)
    requires
        placing_ok(g@, old(placed)@, old(height)@, old(pos)@, old(order)@),
    ensures
        placing_ok(g@, final(placed)@, final(height)@, final(pos)@, final(order)@),
        progress ==> final(order)@.len() > old(order)@.len(),
        !progress ==> final(order)@.len() == old(order)@.len() && stuck(g@, final(placed)@),
        final(order)@.len() <= g@.len(),
{
    let ghost gv = g@;
    let n = g.nodes.len();
    let mut progress = false;
    let ghost start_len = order@.len();
    let mut i: usize = 0;
    while i < n
        invariant
            n == gv.len(),
            gv == g@,
            i <= n,
            placing_ok(gv, placed@, height@, pos@, order@),
            progress ==> order@.len() > start_len,
            !progress ==> order@.len() == start_len,
            !progress ==> forall|x: int| 0 <= x < i && !placed@[x] ==> exists|k: int|
                0 <= k < gv[x].2.len() && !(#[trigger] placed@[gv[x].2[k] as int]),
        decreases n - i,
    {
        proof {
            lemma_placing_facts(gv, placed@, height@, pos@, order@);
        }
        if !placed[i] {
            match ready_height(g, placed, height, order.len(), i) {
                None => {},
                Some(h) => {
                    proof {
                        lemma_place(gv, placed@, height@, pos@, order@, i as int, h as int);
                    }
                    height.set(i, h);
                    placed.set(i, true);
                    pos.set(i, order.len());
                    order.push(i);
                    progress = true;
                },
            }
        }
        i = i + 1;
    }
    proof {
        reveal(stuck);
        lemma_placing_facts(gv, placed@, height@, pos@, order@);
    }
    progress
}

/// Follows references through nodes not placed until one comes round again.
proof fn lemma_stuck_cycle(gv: Seq<NodeView>, placed: Seq<bool>, u: int)
    requires
        graph_wf(gv),
        placed.len() == gv.len(),
        stuck(gv, placed),
        0 <= u < gv.len(),
        !placed[u],
    ensures
        has_cycle(gv),
{
    lemma_stuck_walk(gv, placed, seq![u]);
}

proof fn lemma_stuck_step(gv: Seq<NodeView>, placed: Seq<bool>, x: int) -> (k: int)
    requires
        stuck(gv, placed),
        0 <= x < gv.len(),
        !placed[x],
    ensures
        0 <= k < gv[x].2.len(),
        !placed[gv[x].2[k] as int],
{
    reveal(stuck);
    choose|k: int| 0 <= k < gv[x].2.len() && !(#[trigger] placed[gv[x].2[k] as int])
}

proof fn lemma_stuck_walk(gv: Seq<NodeView>, placed: Seq<bool>, path: Seq<int>)
    requires
        graph_wf(gv),
        placed.len() == gv.len(),
        stuck(gv, placed),
        is_path(gv, path),
        path.no_duplicates(),
        forall|k: int| 0 <= k < path.len() ==> !placed[#[trigger] path[k]],
    ensures
        has_cycle(gv),
    decreases gv.len() - path.len(),
{
    lemma_distinct_len(path, gv.len() as int);
    let cur = path.last();
    assert(!placed[cur]);
    let k = lemma_stuck_step(gv, placed, cur);
    let j = gv[cur].2[k] as int;
    assert(0 <= j < gv.len());
    assert(edge(gv, cur, j));
    if path.contains(j) {
        let s = choose|s: int| 0 <= s < path.len() && path[s] == j;
        lemma_path_skip(gv, path, s);
        assert(path.skip(s).last() == cur);
        lemma_path_push(gv, path.skip(s), j);
        let p = path.skip(s).push(j);
        assert(is_path(gv, p) && p.len() >= 2 && p[0] == p.last());
    } else {
        lemma_path_push(gv, path, j);
        let q = path.push(j);
        assert forall|a: int, b: int| 0 <= a < b < q.len() implies q[a] != q[b] by {
            if b == q.len() - 1 {
                assert(path.contains(q[a]));
            }
        }
        assert forall|m: int| 0 <= m < q.len() implies !placed[#[trigger] q[m]] by {}
        lemma_distinct_len(q, gv.len() as int);
        lemma_stuck_walk(gv, placed, q);
    }
}

/// Orders the nodes so that each comes after the nodes it references, with
/// their heights; `None` exactly when the graph has a cycle.
pub fn schedule(g: &FormulaGraph) -> (r: Option<Schedule>)
    requires
        graph_wf(g@),
    ensures
        r is None <==> has_cycle(g@),
        r matches Some(s) ==> order_ok(g@, s.order@) && heights_ok(g@, s.height@),
        r matches Some(s) ==> forall|i: int| 0 <= i < g@.len() ==> #[trigger] s.height@[i] < g@.len(),
{
    let ghost gv = g@;
    let n = g.nodes.len();
    let mut placed: Vec<bool> = Vec::new();
    let mut height: Vec<usize> = Vec::new();
    let mut pos: Vec<usize> = Vec::new();
    let mut z: usize = 0;
    while z < n
        invariant
            z <= n,
            placed@.len() == z && height@.len() == z && pos@.len() == z,
            forall|i: int| 0 <= i < z ==> !(#[trigger] placed@[i]),
        decreases n - z,
    {
        placed.push(false);
        height.push(0);
        pos.push(0);
        z = z + 1;
    }
    let mut order: Vec<usize> = Vec::new();
    let mut progress = true;
    proof {
        reveal(slots_ok);
        reveal(deps_ok);
    }
    while progress
        invariant
            n == gv.len(),
            gv == g@,
            placing_ok(gv, placed@, height@, pos@, order@),
            !progress ==> stuck(gv, placed@),
        decreases n - order@.len() + (if progress { 1int } else { 0int }),
    {
        progress = place_pass(g, &mut placed, &mut height, &mut pos, &mut order);
    }
    let mut u: usize = 0;
    while u < n && placed[u]
        invariant
            u <= n,
            placed@.len() == n,
            forall|x: int| 0 <= x < u ==> #[trigger] placed@[x],
        decreases n - u,
    {
        u = u + 1;
    }
    if u < n {
        proof {
            lemma_stuck_cycle(gv, placed@, u as int);
        }
        return None;
    }
    proof {
        lemma_placing_facts(gv, placed@, height@, pos@, order@);
        reveal(slots_ok);
        reveal(deps_ok);
        assert forall|x: int| 0 <= x < n implies as_ints(order@).contains(x) by {
            assert(placed@[x]);
            assert(as_ints(order@)[pos@[x] as int] == x);
        }
        lemma_covering_len(as_ints(order@), n as int);
        lemma_distinct_len(as_ints(order@), n as int);
        assert forall|x: usize| 0 <= x < n implies #[trigger] order@.contains(x) by {
            assert(placed@[x as int]);
            assert(order@[pos@[x as int] as int] == x);
        }
        assert forall|a: int, k: int| 0 <= a < order@.len() && 0 <= k < gv[order@[a] as int].2.len() implies exists|b: int|
            0 <= b < a && order@[b] == #[trigger] gv[order@[a] as int].2[k] by {
            let x = order@[a] as int;
            assert(placed@[x]);
            let j = gv[x].2[k] as int;
            assert(placed@[j]);
            assert(order@[pos@[j] as int] == j);
        }
        assert forall|x: int| 0 <= x < n implies #[trigger] placed@[x] by {}
        lemma_all_placed(gv, placed@, height@, pos@);
        assert forall|i: int| 0 <= i < gv.len() implies #[trigger] height@[i] < gv.len() by {
            assert(placed@[i]);
        }
        lemma_heights_acyclic(gv, height@);
    }
    Some(Schedule { order, height })
}

} // verus!
