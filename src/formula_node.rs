//! The read-only projection of a formula set used for display: its nodes
//! and the one-hop relations between them, keyed by position.
use vstd::prelude::*;
use crate::graph::{FormulaGraph, NodeView, graph_valid, graph_wf};
use crate::text::{decimal, push_decimal, slice_of, string_of};

verus! {

/// Where a node of the dependency graph comes from.
#[derive(Debug, Clone, Copy, PartialEq, Eq, Structural)]
pub enum NodeSourceType {
    Formula,
}

impl NodeSourceType {
    /// The label of the source type.
    #[allow(non_snake_case)]
    pub fn getType(&self) -> (r: String)
        ensures
            r@ == seq!['F', 'o', 'r', 'm', 'u', 'l', 'a'],
    {
        match self {
            NodeSourceType::Formula => {
                let v: Vec<char> = vec!['F', 'o', 'r', 'm', 'u', 'l', 'a'];
                let r = string_of(&v);
                assert(r@ =~= seq!['F', 'o', 'r', 'm', 'u', 'l', 'a']);
                r
            },
        }
    }
}

/// A calculated node: its name, its expression and its formula set.
#[derive(Debug, Clone)]
pub struct FormulaNode {
    key: String,
    formula: String,
    node_type: NodeSourceType,
    formula_id: String,
}

impl View for FormulaNode {
    type V = (Seq<char>, Seq<char>, Seq<char>);

    closed spec fn view(&self) -> (Seq<char>, Seq<char>, Seq<char>) {
        (self.key@, self.formula@, self.formula_id@)
    }
}

impl FormulaNode {
    pub fn new(key: String, formula: String, formula_id: String) -> (r: Self)
        ensures
            r@ == (key@, formula@, formula_id@),
            r.source() == NodeSourceType::Formula,
    {
        Self { key, formula, node_type: NodeSourceType::Formula, formula_id }
    }

    pub closed spec fn source(&self) -> NodeSourceType {
        self.node_type
    }

    pub fn key(&self) -> (r: &String)
        ensures
            r@ == self@.0,
    {
        &self.key
    }

    pub fn formula(&self) -> (r: &String)
        ensures
            r@ == self@.1,
    {
        &self.formula
    }

    pub fn formula_id(&self) -> (r: &String)
        ensures
            r@ == self@.2,
    {
        &self.formula_id
    }

    pub fn node_type(&self) -> (r: NodeSourceType)
        ensures
            r == self.source(),
    {
        self.node_type
    }
}

/// A relation from the node at `source_index` to the node at `target_index`.
#[derive(Debug, Clone)]
pub struct FormulaNodeRelation {
    source_index: String,
    target_index: String,
    formula_id: String,
}

impl View for FormulaNodeRelation {
    type V = (Seq<char>, Seq<char>, Seq<char>);

    closed spec fn view(&self) -> (Seq<char>, Seq<char>, Seq<char>) {
        (self.source_index@, self.target_index@, self.formula_id@)
    }
}

impl FormulaNodeRelation {
    pub fn new(source_index: String, target_index: String, formula_id: String) -> (r: Self)
        ensures
            r@ == (source_index@, target_index@, formula_id@),
    {
        Self { source_index, target_index, formula_id }
    }

    pub fn source_index(&self) -> (r: &String)
        ensures
            r@ == self@.0,
    {
        &self.source_index
    }

    pub fn target_index(&self) -> (r: &String)
        ensures
            r@ == self@.1,
    {
        &self.target_index
    }

    pub fn formula_id(&self) -> (r: &String)
        ensures
            r@ == self@.2,
    {
        &self.formula_id
    }
}

/// The nodes of a formula set and the relations between them.
#[derive(Debug, Clone)]
pub struct FormulaTree {
    relations: Vec<FormulaNodeRelation>,
    nodes: Vec<FormulaNode>,
}

pub type TreeView = (Seq<(Seq<char>, Seq<char>, Seq<char>)>, Seq<(Seq<char>, Seq<char>, Seq<char>)>);

impl View for FormulaTree {
    type V = TreeView;

    closed spec fn view(&self) -> TreeView {
        (
            self.relations@.map_values(|r: FormulaNodeRelation| r@),
            self.nodes@.map_values(|n: FormulaNode| n@),
        )
    }
}

impl FormulaTree {
    pub fn new(relations: Vec<FormulaNodeRelation>, nodes: Vec<FormulaNode>) -> (r: Self)
        ensures
            r@ == (relations@.map_values(|r: FormulaNodeRelation| r@), nodes@.map_values(|n: FormulaNode| n@)),
    {
        Self { relations, nodes }
    }

    pub fn relations(&self) -> (r: &Vec<FormulaNodeRelation>)
        ensures
            r@.map_values(|x: FormulaNodeRelation| x@) == self@.0,
    {
        &self.relations
    }

    pub fn nodes(&self) -> (r: &Vec<FormulaNode>)
        ensures
            r@.map_values(|x: FormulaNode| x@) == self@.1,
    {
        &self.nodes
    }
}

// ---------------------------------------------------------------- projection

/// The first `k` edges of node `i`, as pairs of positions.
pub open spec fn node_edges(g: Seq<NodeView>, i: int, k: int) -> Seq<(int, int)> {
    Seq::new(k as nat, |m: int| (i, g[i].2[m] as int))
}

/// The edges of the first `i` nodes, node by node.
pub open spec fn edges_upto(g: Seq<NodeView>, i: int) -> Seq<(int, int)>
    decreases i,
{
    if i <= 0 {
        Seq::empty()
    } else {
        edges_upto(g, i - 1) + node_edges(g, i - 1, g[i - 1].2.len() as int)
    }
}

pub open spec fn add_seen(s: Seq<int>, x: int) -> Seq<int> {
    if s.contains(x) {
        s
    } else {
        s.push(x)
    }
}

/// The nodes in the order they are first met along the edges.
pub open spec fn seen_of(es: Seq<(int, int)>) -> Seq<int>
    decreases es.len(),
{
    if es.len() == 0 {
        Seq::empty()
    } else {
        add_seen(add_seen(seen_of(es.drop_last()), es.last().0), es.last().1)
    }
}

/// Position of `x` in `s` from `i` on, or -1.
pub open spec fn pos_from(s: Seq<int>, x: int, i: int) -> int
    decreases s.len() - i,
{
    if i < 0 || i >= s.len() {
        -1
    } else if s[i] == x {
        i
    } else {
        pos_from(s, x, i + 1)
    }
}

/// The relations: for each edge, the positions of its two ends.
pub open spec fn relations_of(es: Seq<(int, int)>, id: Seq<char>) -> Seq<(Seq<char>, Seq<char>, Seq<char>)>
    decreases es.len(),
{
    if es.len() == 0 {
        Seq::empty()
    } else {
        let s = seen_of(es);
        relations_of(es.drop_last(), id).push(
            (decimal(pos_from(s, es.last().0, 0) as nat), decimal(pos_from(s, es.last().1, 0) as nat), id),
        )
    }
}

/// The tree of a graph: its one-hop relations and the nodes they touch.
pub open spec fn tree_of(g: Seq<NodeView>, id: Seq<char>) -> TreeView {
    let es = edges_upto(g, g.len() as int);
    (relations_of(es, id), seen_of(es).map_values(|x: int| (g[x].0, g[x].1, id)))
}

proof fn lemma_pos_from(s: Seq<int>, x: int, p: int, i: int)
    requires
        s.no_duplicates(),
        0 <= i <= p < s.len(),
        s[p] == x,
    ensures
        pos_from(s, x, i) == p,
    decreases p - i,
{
    if i < p {
        lemma_pos_from(s, x, p, i + 1);
    }
}

/// Relation `k` of `t` joins the nodes at positions `a` and `b`, which are
/// the two ends of the graph's `k`-th edge.
pub open spec fn relation_at(g: Seq<NodeView>, id: Seq<char>, t: TreeView, k: int, a: int, b: int) -> bool {
    let es = edges_upto(g, g.len() as int);
    &&& 0 <= a < t.1.len() && 0 <= b < t.1.len()
    &&& t.1[a].0 == g[es[k].0].0 && t.1[b].0 == g[es[k].1].0
    &&& t.0[k] == (decimal(a as nat), decimal(b as nat), id)
}

/// The position of node `x` in the node list of the graph's tree.
pub open spec fn tree_pos(g: Seq<NodeView>, x: int) -> int {
    pos_from(seen_of(edges_upto(g, g.len() as int)), x, 0)
}

/// An edge that the node at position `m` of `t` is an end of.
pub open spec fn end_edge(g: Seq<NodeView>, t: TreeView, m: int) -> int {
    choose|k: int| key_is_end(g, t, m, k)
}

/// The node at position `m` of `t` is an end of the graph's `k`-th edge.
pub open spec fn key_is_end(g: Seq<NodeView>, t: TreeView, m: int, k: int) -> bool {
    let es = edges_upto(g, g.len() as int);
    0 <= k < es.len() && (t.1[m].0 == g[es[k].0].0 || t.1[m].0 == g[es[k].1].0)
}

/// What the tree of a graph shows: node keys are distinct; each stored
/// edge appears once and gives one relation, whose two indices are the
/// positions in the node list of the edge's two ends; every node is an end
/// of some edge and carries the formula-set id.
pub open spec fn tree_shape(g: Seq<NodeView>, id: Seq<char>, t: TreeView) -> bool {
    let es = edges_upto(g, g.len() as int);
    &&& forall|a: int, b: int| 0 <= a < b < t.1.len() ==> #[trigger] t.1[a].0 != #[trigger] t.1[b].0
    &&& es.no_duplicates()
    &&& t.0.len() == es.len()
    &&& forall|k: int| 0 <= k < es.len() ==> #[trigger] relation_at(g, id, t, k, tree_pos(g, es[k].0), tree_pos(g, es[k].1))
    &&& forall|m: int| 0 <= m < t.1.len() ==> #[trigger] key_is_end(g, t, m, end_edge(g, t, m))
    &&& forall|m: int| 0 <= m < t.1.len() ==> #[trigger] t.1[m].2 == id
}

proof fn lemma_add_seen(s: Seq<int>, x: int)
    ensures
        s.no_duplicates() ==> add_seen(s, x).no_duplicates(),
        add_seen(s, x).contains(x),
        add_seen(s, x).len() >= s.len(),
        forall|k: int| 0 <= k < s.len() ==> add_seen(s, x)[k] == s[k],
        forall|y: int| add_seen(s, x).contains(y) <==> (s.contains(y) || y == x),
{
    if !s.contains(x) {
        let t = s.push(x);
        assert(t[s.len() as int] == x);
        assert forall|y: int| t.contains(y) implies (s.contains(y) || y == x) by {
            let k = choose|k: int| 0 <= k < t.len() && t[k] == y;
            if k < s.len() {
                assert(s[k] == y);
            }
        }
        assert forall|y: int| s.contains(y) implies t.contains(y) by {
            let k = choose|k: int| 0 <= k < s.len() && s[k] == y;
            assert(t[k] == y);
        }
        if s.no_duplicates() {
            assert forall|a: int, b: int| 0 <= a < b < t.len() implies t[a] != t[b] by {
                if b == s.len() {
                    assert(s.contains(t[a]));
                }
            }
        }
    }
}

/// Node `y` is an end of the edge `es[k]`.
pub open spec fn is_end(es: Seq<(int, int)>, k: int, y: int) -> bool {
    es[k].0 == y || es[k].1 == y
}

/// The nodes met along `es`: distinct, exactly the ends of its edges, and
/// each prefix of `es` meets a prefix of them.
proof fn lemma_seen(es: Seq<(int, int)>)
    ensures
        seen_of(es).no_duplicates(),
        forall|y: int| seen_of(es).contains(y) <==> exists|k: int| 0 <= k < es.len() && #[trigger] is_end(es, k, y),
        forall|j: int| 0 <= j <= es.len() ==> seen_of(es.take(j)).len() <= seen_of(es).len()
            && forall|m: int| 0 <= m < seen_of(es.take(j)).len() ==> #[trigger] seen_of(es.take(j))[m] == seen_of(es)[m],
    decreases es.len(),
{
    if es.len() > 0 {
        let d = es.drop_last();
        lemma_seen(d);
        let e = es.last();
        let s1 = add_seen(seen_of(d), e.0);
        lemma_add_seen(seen_of(d), e.0);
        lemma_add_seen(s1, e.1);
        assert forall|y: int| seen_of(es).contains(y) <==> exists|k: int| 0 <= k < es.len() && #[trigger] is_end(es, k, y) by {
            if seen_of(es).contains(y) && !(y == e.0 || y == e.1) {
                assert(seen_of(es) == add_seen(s1, e.1));
                assert(s1.contains(y));
                assert(seen_of(d).contains(y));
                let k = choose|k: int| 0 <= k < d.len() && #[trigger] is_end(d, k, y);
                assert(es[k] == d[k]);
                assert(is_end(es, k, y));
            }
            if seen_of(es).contains(y) && (y == e.0 || y == e.1) {
                assert(is_end(es, es.len() - 1, y));
            }
            if exists|k: int| 0 <= k < es.len() && #[trigger] is_end(es, k, y) {
                let k = choose|k: int| 0 <= k < es.len() && #[trigger] is_end(es, k, y);
                if k < es.len() - 1 {
                    assert(d[k] == es[k]);
                    assert(is_end(d, k, y));
                    assert(seen_of(d).contains(y));
                    assert(s1.contains(y));
                } else {
                    assert(y == e.0 || y == e.1);
                    assert(s1.contains(e.0));
                }
                assert(seen_of(es).contains(y));
            }
        }
        assert forall|j: int| 0 <= j <= es.len() implies seen_of(es.take(j)).len() <= seen_of(es).len()
            && forall|m: int| 0 <= m < seen_of(es.take(j)).len() ==> #[trigger] seen_of(es.take(j))[m] == seen_of(es)[m] by {
            if j == es.len() {
                assert(es.take(j) =~= es);
            } else {
                assert(es.take(j) =~= d.take(j));
            }
        }
    } else {
        assert forall|j: int| 0 <= j <= es.len() implies seen_of(es.take(j)).len() <= seen_of(es).len()
            && forall|m: int| 0 <= m < seen_of(es.take(j)).len() ==> #[trigger] seen_of(es.take(j))[m] == seen_of(es)[m] by {
            assert(es.take(j) =~= es);
        }
    }
}

/// The relations of `es`: one per edge, each with the positions of the
/// edge's ends among all the nodes met.
proof fn lemma_relations(es: Seq<(int, int)>, id: Seq<char>)
    ensures
        relations_of(es, id).len() == es.len(),
        forall|k: int| 0 <= k < es.len() ==> #[trigger] relations_of(es, id)[k] == (
            decimal(pos_from(seen_of(es), es[k].0, 0) as nat),
            decimal(pos_from(seen_of(es), es[k].1, 0) as nat),
            id,
        ),
    decreases es.len(),
{
    if es.len() > 0 {
        let d = es.drop_last();
        lemma_relations(d, id);
        lemma_seen(es);
        lemma_seen(d);
        assert(es.take(es.len() - 1) =~= d);
        assert forall|k: int| 0 <= k < es.len() implies #[trigger] relations_of(es, id)[k] == (
            decimal(pos_from(seen_of(es), es[k].0, 0) as nat),
            decimal(pos_from(seen_of(es), es[k].1, 0) as nat),
            id,
        ) by {
            if k < es.len() - 1 {
                assert(es[k] == d[k]);
                assert(relations_of(es, id)[k] == relations_of(d, id)[k]);
                assert(d[k].0 == es[k].0 && d[k].1 == es[k].1);
                assert(is_end(d, k, es[k].0));
                assert(is_end(d, k, es[k].1));
                assert(seen_of(d).contains(es[k].0));
                assert(seen_of(d).contains(es[k].1));
                lemma_pos_prefix(seen_of(d), seen_of(es), es[k].0);
                lemma_pos_prefix(seen_of(d), seen_of(es), es[k].1);
            }
        }
    }
}

proof fn lemma_pos_prefix(a: Seq<int>, b: Seq<int>, x: int)
    requires
        a.len() <= b.len(),
        forall|m: int| 0 <= m < a.len() ==> #[trigger] a[m] == b[m],
        b.no_duplicates(),
        a.contains(x),
    ensures
        pos_from(a, x, 0) == pos_from(b, x, 0),
{
    let p = choose|p: int| 0 <= p < a.len() && a[p] == x;
    assert(a.no_duplicates()) by {
        assert forall|i: int, j: int| 0 <= i < j < a.len() implies a[i] != a[j] by {
            assert(a[i] == b[i] && a[j] == b[j]);
        }
    }
    lemma_pos_from(a, x, p, 0);
    lemma_pos_from(b, x, p, 0);
}

/// The edges of the first `i` nodes: each once, from a node before `i` to
/// a node of the graph.
proof fn lemma_edges(g: Seq<NodeView>, i: int)
    requires
        graph_valid(g),
        0 <= i <= g.len(),
    ensures
        edges_upto(g, i).no_duplicates(),
        forall|k: int| 0 <= k < edges_upto(g, i).len() ==> 0 <= #[trigger] edges_upto(g, i)[k].0 < i
            && 0 <= edges_upto(g, i)[k].1 < g.len(),
    decreases i,
{
    if i > 0 {
        lemma_edges(g, i - 1);
        let a = edges_upto(g, i - 1);
        let b = node_edges(g, i - 1, g[i - 1].2.len() as int);
        let es = a + b;
        assert(edges_upto(g, i) == es);
        assert((g[i - 1].2).no_duplicates());
        assert forall|k: int| 0 <= k < es.len() implies 0 <= #[trigger] es[k].0 < i && 0 <= es[k].1 < g.len() by {
            if k >= a.len() {
                assert(es[k] == b[k - a.len()]);
                assert(g[i - 1].2[k - a.len()] < g.len());
            } else {
                assert(es[k] == a[k]);
            }
        }
        assert forall|x: int, y: int| 0 <= x < y < es.len() implies es[x] != es[y] by {
            if y >= a.len() {
                if x >= a.len() {
                    assert(es[x] == b[x - a.len()] && es[y] == b[y - a.len()]);
                    assert(g[i - 1].2[x - a.len()] != g[i - 1].2[y - a.len()]);
                } else {
                    assert(es[x] == a[x] && a[x].0 < i - 1);
                    assert(es[y] == b[y - a.len()]);
                }
            } else {
                assert(es[x] == a[x] && es[y] == a[y]);
            }
        }
    }
}

proof fn lemma_seen_in_range(g: Seq<NodeView>)
    requires
        graph_valid(g),
    ensures
        forall|m: int| 0 <= m < seen_of(edges_upto(g, g.len() as int)).len() ==> 0 <= #[trigger] seen_of(edges_upto(g, g.len() as int))[m] < g.len(),
{
    let es = edges_upto(g, g.len() as int);
    let seen = seen_of(es);
    lemma_edges(g, g.len() as int);
    lemma_seen(es);
    assert forall|m: int| 0 <= m < seen.len() implies 0 <= #[trigger] seen[m] < g.len() by {
        assert(seen.contains(seen[m]));
        let k = choose|k: int| 0 <= k < es.len() && #[trigger] is_end(es, k, seen[m]);
        assert(0 <= es[k].0 < g.len());
    }
}

proof fn lemma_tree_keys(g: Seq<NodeView>, id: Seq<char>)
    requires
        graph_valid(g),
    ensures
        forall|a: int, b: int| 0 <= a < b < tree_of(g, id).1.len() ==> #[trigger] tree_of(g, id).1[a].0 != #[trigger] tree_of(g, id).1[b].0,
        forall|m: int| 0 <= m < tree_of(g, id).1.len() ==> #[trigger] tree_of(g, id).1[m].2 == id,
{
    let es = edges_upto(g, g.len() as int);
    let seen = seen_of(es);
    let t = tree_of(g, id);
    lemma_seen(es);
    lemma_seen_in_range(g);
    assert forall|a: int, b: int| 0 <= a < b < t.1.len() implies #[trigger] t.1[a].0 != #[trigger] t.1[b].0 by {
        assert(t.1[a].0 == g[seen[a]].0 && t.1[b].0 == g[seen[b]].0);
        assert(seen[a] != seen[b]);
        if seen[a] < seen[b] {
            assert(g[seen[a]].0 != g[seen[b]].0);
        } else {
            assert(g[seen[b]].0 != g[seen[a]].0);
        }
    }
}

proof fn lemma_tree_relations(g: Seq<NodeView>, id: Seq<char>)
    requires
        graph_valid(g),
    ensures
        tree_of(g, id).0.len() == edges_upto(g, g.len() as int).len(),
        forall|k: int| 0 <= k < edges_upto(g, g.len() as int).len() ==>
            #[trigger] relation_at(g, id, tree_of(g, id), k, tree_pos(g, edges_upto(g, g.len() as int)[k].0), tree_pos(g, edges_upto(g, g.len() as int)[k].1)),
{
    let es = edges_upto(g, g.len() as int);
    let seen = seen_of(es);
    let t = tree_of(g, id);
    lemma_seen(es);
    lemma_relations(es, id);
    assert forall|k: int| 0 <= k < es.len() implies #[trigger] relation_at(g, id, t, k, tree_pos(g, es[k].0), tree_pos(g, es[k].1)) by {
        assert(is_end(es, k, es[k].0) && is_end(es, k, es[k].1));
        assert(seen.contains(es[k].0) && seen.contains(es[k].1));
        let p = choose|p: int| 0 <= p < seen.len() && seen[p] == es[k].0;
        let q = choose|q: int| 0 <= q < seen.len() && seen[q] == es[k].1;
        lemma_pos_from(seen, es[k].0, p, 0);
        lemma_pos_from(seen, es[k].1, q, 0);
        assert(relation_at(g, id, t, k, p, q));
    }
}

proof fn lemma_tree_ends(g: Seq<NodeView>, id: Seq<char>)
    requires
        graph_valid(g),
    ensures
        forall|m: int| 0 <= m < tree_of(g, id).1.len() ==> #[trigger] key_is_end(g, tree_of(g, id), m, end_edge(g, tree_of(g, id), m)),
{
    let es = edges_upto(g, g.len() as int);
    let seen = seen_of(es);
    let t = tree_of(g, id);
    lemma_seen(es);
    assert forall|m: int| 0 <= m < t.1.len() implies #[trigger] key_is_end(g, t, m, end_edge(g, t, m)) by {
        assert(seen.contains(seen[m]));
        let k = choose|k: int| 0 <= k < es.len() && #[trigger] is_end(es, k, seen[m]);
        assert(key_is_end(g, t, m, k));
    }
}

/// The tree of a graph as the store keeps it has the shape `tree_shape` states.
pub proof fn lemma_tree_shape(g: Seq<NodeView>, id: Seq<char>)
    requires
        graph_valid(g),
    ensures
        tree_shape(g, id, tree_of(g, id)),
{
    lemma_edges(g, g.len() as int);
    lemma_tree_keys(g, id);
    lemma_tree_relations(g, id);
    lemma_tree_ends(g, id);
}

/// Tracking of the nodes met so far: `slot[x]` is one more than the
/// position of `x`, or 0.
spec fn slots_match(n: int, slot: Seq<usize>, seen: Seq<int>) -> bool {
    &&& slot.len() == n
    &&& seen.no_duplicates()
    &&& seen.len() <= n
    &&& forall|k: int| 0 <= k < seen.len() ==> 0 <= #[trigger] seen[k] < n
    &&& forall|x: int| 0 <= x < n ==> (#[trigger] slot[x] == 0 <==> !seen.contains(x))
    &&& forall|x: int| 0 <= x < n && slot[x] > 0 ==> #[trigger] slot[x] <= seen.len() && seen[slot[x] - 1] == x
}

fn meet(
    g: &FormulaGraph,
    formula_id: &String,
    slot: &mut Vec<usize>,
    nodes: &mut Vec<FormulaNode>,
    x: usize,
    seen: Ghost<Seq<int>>,
) -> (r: Ghost<Seq<int>>)
    requires
        slots_match(g@.len() as int, old(slot)@, seen@),
        x < g@.len(),
        old(nodes)@.map_values(|n: FormulaNode| n@) == seen@.map_values(|y: int| (g@[y].0, g@[y].1, formula_id@)),
    ensures
        r@ == add_seen(seen@, x as int),
        slots_match(g@.len() as int, final(slot)@, r@),
        final(nodes)@.map_values(|n: FormulaNode| n@) == r@.map_values(|y: int| (g@[y].0, g@[y].1, formula_id@)),
{
    let ghost n = g@.len() as int;
    if slot[x] == 0 {
        proof {
            assert(!seen@.contains(x as int));
            assert forall|a: int, b: int| 0 <= a < b < seen@.push(x as int).len() implies seen@.push(x as int)[a] != seen@.push(x as int)[b] by {
                if b == seen@.len() {
                    assert(seen@.contains(seen@[a]));
                }
            }
            crate::graph::lemma_distinct_len(seen@.push(x as int), n);
        }
        let ghost s2 = seen@.push(x as int);
        let len = nodes.len();
        let nn = g.nodes.len();
        assert(g@.len() == nn);
        assert(old(nodes)@.map_values(|n: FormulaNode| n@).len() == old(nodes)@.len());
        assert(seen@.map_values(|y: int| (g@[y].0, g@[y].1, formula_id@)).len() == seen@.len());
        assert(len == seen@.len());
        assert(len < nn);
        slot.set(x, len + 1);
        let key = string_of(&g.nodes[x].name);
        let formula = string_of(&g.nodes[x].expression);
        let fid = string_of(&chars_of_string(formula_id));
        let ghost before = nodes@.map_values(|m: FormulaNode| m@);
        nodes.push(FormulaNode::new(key, formula, fid));
        proof {
            assert(nodes@.map_values(|m: FormulaNode| m@) =~= before.push((g@[x as int].0, g@[x as int].1, formula_id@)));
            assert(s2.map_values(|y: int| (g@[y].0, g@[y].1, formula_id@)) =~= seen@.map_values(|y: int| (g@[y].0, g@[y].1, formula_id@)).push((g@[x as int].0, g@[x as int].1, formula_id@)));
            assert forall|y: int| 0 <= y < n implies (#[trigger] slot@[y] == 0 <==> !s2.contains(y)) by {
                if y != x {
                    if s2.contains(y) {
                        let k = choose|k: int| 0 <= k < s2.len() && s2[k] == y;
                        assert(seen@[k] == y);
                    }
                    if seen@.contains(y) {
                        let k = choose|k: int| 0 <= k < seen@.len() && seen@[k] == y;
                        assert(s2[k] == y);
                    }
                } else {
                    assert(s2[s2.len() - 1] == y);
                }
            }
            assert forall|y: int| 0 <= y < n && slot@[y] > 0 implies #[trigger] slot@[y] <= s2.len() && s2[slot@[y] - 1] == y by {}
        }
        Ghost(s2)
    } else {
        assert(seen@.contains(x as int));
        seen
    }
}

/// Adds the relation of the edge `(i, j)`, meeting its two ends.
fn add_edge(
    g: &FormulaGraph,
    formula_id: &String,
    slot: &mut Vec<usize>,
    nodes: &mut Vec<FormulaNode>,
    relations: &mut Vec<FormulaNodeRelation>,
    i: usize,
    j: usize,
    es: Ghost<Seq<(int, int)>>,
) -> (r: Ghost<Seq<int>>)
    requires
        slots_match(g@.len() as int, old(slot)@, seen_of(es@)),
        i < g@.len(),
        j < g@.len(),
        old(nodes)@.map_values(|n: FormulaNode| n@) == seen_of(es@).map_values(|y: int| (g@[y].0, g@[y].1, formula_id@)),
        old(relations)@.map_values(|m: FormulaNodeRelation| m@) == relations_of(es@, formula_id@),
    ensures
        r@ == seen_of(es@.push((i as int, j as int))),
        slots_match(g@.len() as int, final(slot)@, r@),
        final(nodes)@.map_values(|n: FormulaNode| n@) == r@.map_values(|y: int| (g@[y].0, g@[y].1, formula_id@)),
        final(relations)@.map_values(|m: FormulaNodeRelation| m@) == relations_of(es@.push((i as int, j as int)), formula_id@),
{
    let ghost es2 = es@.push((i as int, j as int));
    assert(es2.drop_last() =~= es@);
    let Ghost(s1) = meet(g, formula_id, slot, nodes, i, Ghost(seen_of(es@)));
    let Ghost(s2) = meet(g, formula_id, slot, nodes, j, Ghost(s1));
    assert(s2 == seen_of(es2));
    proof {
        assert(s1.contains(i as int)) by {
            if !seen_of(es@).contains(i as int) {
                assert(s1[s1.len() - 1] == i as int);
            }
        }
        assert(s2.contains(i as int)) by {
            let k = choose|k: int| 0 <= k < s1.len() && s1[k] == i as int;
            assert(s2[k] == i as int);
        }
        assert(s2.contains(j as int)) by {
            if !s1.contains(j as int) {
                assert(s2[s2.len() - 1] == j as int);
            }
        }
    }
    let mut a: Vec<char> = Vec::new();
    push_decimal(slot[i] - 1, &mut a);
    let mut b: Vec<char> = Vec::new();
    push_decimal(slot[j] - 1, &mut b);
    proof {
        lemma_pos_from(s2, i as int, slot@[i as int] - 1, 0);
        lemma_pos_from(s2, j as int, slot@[j as int] - 1, 0);
    }
    let ghost before = relations@.map_values(|m: FormulaNodeRelation| m@);
    relations.push(FormulaNodeRelation::new(string_of(&a), string_of(&b), string_of(&chars_of_string(formula_id))));
    assert(a@ =~= decimal((slot@[i as int] - 1) as nat));
    assert(b@ =~= decimal((slot@[j as int] - 1) as nat));
    assert(relations@.map_values(|m: FormulaNodeRelation| m@) =~= before.push(
        (decimal(pos_from(s2, i as int, 0) as nat), decimal(pos_from(s2, j as int, 0) as nat), formula_id@),
    ));
    Ghost(s2)
}

/// The characters of a string.
fn chars_of_string(s: &String) -> (r: Vec<char>)
    ensures
        r@ == s@,
{
    crate::text::chars_of(s.as_str())
}

/// Projects a graph into its tree: the edges node by node, each end given
/// the position where it was first met.
pub fn tree_of_graph(g: &FormulaGraph, formula_id: &String) -> (r: FormulaTree)
    requires
        graph_wf(g@),
    ensures
        r@ == tree_of(g@, formula_id@),
{
    let ghost gv = g@;
    let ghost fid = formula_id@;
    let n = g.nodes.len();
    let mut slot: Vec<usize> = Vec::new();
    let mut z: usize = 0;
    while z < n
        invariant
            z <= n,
            slot@.len() == z,
            forall|x: int| 0 <= x < z ==> #[trigger] slot@[x] == 0,
        decreases n - z,
    {
        slot.push(0);
        z = z + 1;
    }
    let mut nodes: Vec<FormulaNode> = Vec::new();
    let mut relations: Vec<FormulaNodeRelation> = Vec::new();
    let ghost mut seen: Seq<int> = Seq::empty();
    assert(nodes@.map_values(|m: FormulaNode| m@) =~= seen.map_values(|y: int| (gv[y].0, gv[y].1, fid)));
    let mut i: usize = 0;
    while i < n
        invariant
            n == gv.len(),
            gv == g@,
            fid == formula_id@,
            graph_wf(gv),
            i <= n,
            slots_match(n as int, slot@, seen),
            seen == seen_of(edges_upto(gv, i as int)),
            nodes@.map_values(|m: FormulaNode| m@) == seen.map_values(|y: int| (gv[y].0, gv[y].1, fid)),
            relations@.map_values(|m: FormulaNodeRelation| m@) == relations_of(edges_upto(gv, i as int), fid),
        decreases n - i,
    {
        let deps = &g.nodes[i].deps;
        assert(deps@ == gv[i as int].2);
        let mut k: usize = 0;
        assert(edges_upto(gv, i as int) + node_edges(gv, i as int, 0) =~= edges_upto(gv, i as int));
        while k < deps.len()
            invariant
                n == gv.len(),
                gv == g@,
                fid == formula_id@,
                graph_wf(gv),
                i < n,
                deps@ == gv[i as int].2,
                k <= deps@.len(),
                slots_match(n as int, slot@, seen),
                seen == seen_of(edges_upto(gv, i as int) + node_edges(gv, i as int, k as int)),
                nodes@.map_values(|m: FormulaNode| m@) == seen.map_values(|y: int| (gv[y].0, gv[y].1, fid)),
                relations@.map_values(|m: FormulaNodeRelation| m@) == relations_of(edges_upto(gv, i as int) + node_edges(gv, i as int, k as int), fid),
            decreases deps@.len() - k,
        {
            let j = deps[k];
            assert(gv[i as int].2[k as int] < n);
            let ghost es = edges_upto(gv, i as int) + node_edges(gv, i as int, k as int);
            let ghost es2 = edges_upto(gv, i as int) + node_edges(gv, i as int, k + 1);
            assert(es2 =~= es.push((i as int, j as int)));
            let Ghost(s2) = add_edge(g, formula_id, &mut slot, &mut nodes, &mut relations, i, j, Ghost(es));
            proof {
                seen = s2;
            }
            k = k + 1;
        }
        assert(edges_upto(gv, i as int) + node_edges(gv, i as int, k as int) =~= edges_upto(gv, i + 1));
        i = i + 1;
    }
    FormulaTree::new(relations, nodes)
}

} // verus!
