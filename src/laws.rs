//! Properties that relate the operations of the engine.
use vstd::prelude::*;
use crate::engine::{run_saved, saved};
use crate::graph::{NodeView, bracket_refs, dep_list, graph_of, has_cycle, index_from, lemma_index_from, stmt_names};
use crate::scheduler::{EngineError, is_root, node_eval, node_values, paths_at_most, root_of, starts_path};
use crate::graph::{edge, graph_wf, is_path, lemma_distinct_len};
use crate::engine::lemma_graph_of_wf;
use crate::statement::{lemma_parse_pieces, names_distinct, parse_formula, parse_pieces, parse_statement, split_on};

verus! {

/// The (name, expression) pairs of a graph's nodes.
pub open spec fn node_set(g: Seq<NodeView>) -> Set<(Seq<char>, Seq<char>)> {
    Set::new(|x: (Seq<char>, Seq<char>)| exists|i: int| 0 <= i < g.len() && #[trigger] g[i].0 == x.0 && g[i].1 == x.1)
}

/// The (dependent, dependency) name pairs of a graph's edges.
pub open spec fn edge_set(g: Seq<NodeView>) -> Set<(Seq<char>, Seq<char>)> {
    Set::new(|e: (Seq<char>, Seq<char>)| exists|i: int, k: int|
        0 <= i < g.len() && 0 <= k < g[i].2.len() && g[i].0 == e.0 && g[#[trigger] g[i].2[k] as int].0 == e.1)
}

/// Saving a second text under the same id leaves exactly the graph of the
/// second text, whatever the first one held.
pub proof fn law_redefinition(m: Map<Seq<char>, Seq<NodeView>>, id: Seq<char>, t1: Seq<char>, t2: Seq<char>)
    requires
        parse_formula(t2) is Ok,
    ensures
        saved(saved(m, id, t1), id, t2) == saved(m, id, t2),
        saved(saved(m, id, t1), id, t2)[id] == graph_of(parse_formula(t2)->Ok_0),
{
    assert(saved(saved(m, id, t1), id, t2) =~= saved(m, id, t2));
}

/// Running a saved formula set without cycles, in which some node
/// references another, gives the value of its root's expression computed
/// from the values of the nodes it references; the same every time.
pub proof fn law_run_after_save(
    m: Map<Seq<char>, Seq<NodeView>>,
    id: Seq<char>,
    text: Seq<char>,
    params: Seq<(Seq<char>, Seq<char>)>,
)
    requires
        parse_formula(text) is Ok,
        !has_cycle(graph_of(parse_formula(text)->Ok_0)),
        exists|i: int| 0 <= i < graph_of(parse_formula(text)->Ok_0).len()
            && #[trigger] graph_of(parse_formula(text)->Ok_0)[i].2.len() > 0,
    ensures
        ({
            let g = graph_of(parse_formula(text)->Ok_0);
            &&& is_root(g, root_of(g).0, root_of(g).1)
            &&& run_saved(saved(m, id, text), id, params) == match node_eval(g, params, node_values(g, params), root_of(g).0) {
                Some(v) => Ok::<Seq<char>, EngineError>(v),
                None => Err(EngineError::Evaluation),
            }
        }),
{
    let g = graph_of(parse_formula(text)->Ok_0);
    lemma_graph_of_wf(parse_formula(text)->Ok_0);
    lemma_root_exists(g);
}

proof fn lemma_path_take(g: Seq<NodeView>, p: Seq<int>, k: int)
    requires
        is_path(g, p),
        1 <= k <= p.len(),
    ensures
        is_path(g, p.take(k)),
{
    let q = p.take(k);
    assert forall|a: int| 0 <= a < q.len() - 1 implies edge(g, #[trigger] q[a], q[a + 1]) by {
        assert(q[a] == p[a] && q[a + 1] == p[a + 1]);
    }
    assert forall|a: int| 0 <= a < q.len() implies 0 <= #[trigger] q[a] < g.len() by {
        assert(q[a] == p[a]);
    }
}

/// Without cycles a path never visits a node twice, so it has at most as
/// many nodes as the graph.
proof fn lemma_acyclic_path_short(g: Seq<NodeView>, p: Seq<int>)
    requires
        !has_cycle(g),
        is_path(g, p),
    ensures
        p.len() <= g.len(),
{
    assert forall|a: int, b: int| 0 <= a < b < p.len() implies p[a] != p[b] by {
        if p[a] == p[b] {
            let q = p.skip(a).take(b - a + 1);
            crate::graph::lemma_path_skip(g, p, a);
            lemma_path_take(g, p.skip(a), b - a + 1);
            assert(q[0] == p[a] && q.last() == p[b]);
            assert(is_path(g, q) && q.len() >= 2 && q[0] == q.last());
        }
    }
    assert forall|a: int| 0 <= a < p.len() implies 0 <= #[trigger] p[a] < g.len() by {}
    lemma_distinct_len(p, g.len() as int);
}

proof fn lemma_longest_from(g: Seq<NodeView>, k: int)
    requires
        !has_cycle(g),
        0 <= k,
        exists|p: Seq<int>| #[trigger] is_path(g, p) && p.len() == k + 1,
    ensures
        exists|m: int| m >= k && paths_at_most(g, m) && exists|p: Seq<int>| #[trigger] is_path(g, p) && p.len() == m + 1,
    decreases g.len() - k,
{
    let p = choose|p: Seq<int>| #[trigger] is_path(g, p) && p.len() == k + 1;
    lemma_acyclic_path_short(g, p);
    if !paths_at_most(g, k) {
        let q = choose|q: Seq<int>| #[trigger] is_path(g, q) && !(q.len() <= k + 1);
        lemma_acyclic_path_short(g, q);
        lemma_path_take(g, q, k + 2);
        assert(is_path(g, q.take(k + 2)) && q.take(k + 2).len() == k + 2);
        lemma_longest_from(g, k + 1);
    } else {
        assert(is_path(g, p) && p.len() == k + 1);
    }
}

proof fn lemma_first_start(g: Seq<NodeView>, m: int, r: int)
    requires
        0 <= r < g.len(),
        starts_path(g, r, m),
    ensures
        exists|f: int| 0 <= f <= r && starts_path(g, f, m) && forall|i: int| 0 <= i < f ==> !starts_path(g, i, m),
    decreases r,
{
    if exists|i: int| 0 <= i < r && starts_path(g, i, m) {
        let i = choose|i: int| 0 <= i < r && starts_path(g, i, m);
        lemma_first_start(g, m, i);
    }
}

/// A graph without cycles and with at least one node has a root.
pub proof fn lemma_root_exists(g: Seq<NodeView>)
    requires
        graph_wf(g),
        !has_cycle(g),
        g.len() > 0,
    ensures
        is_root(g, root_of(g).0, root_of(g).1),
{
    let p0 = seq![0int];
    assert(is_path(g, p0));
    lemma_longest_from(g, 0);
    let m = choose|m: int| m >= 0 && paths_at_most(g, m) && exists|p: Seq<int>| #[trigger] is_path(g, p) && p.len() == m + 1;
    let p = choose|p: Seq<int>| #[trigger] is_path(g, p) && p.len() == m + 1;
    assert(starts_path(g, p[0], m));
    lemma_first_start(g, m, p[0]);
    let f = choose|f: int| 0 <= f <= p[0] && starts_path(g, f, m) && forall|i: int| 0 <= i < f ==> !starts_path(g, i, m);
    let rm = (f, m);
    assert(is_root(g, rm.0, rm.1));
}

proof fn lemma_dep_list_member(names: Seq<Seq<char>>, refs: Seq<Seq<char>>, j: int)
    requires
        names.len() <= usize::MAX,
    ensures
        (exists|k: int| 0 <= k < dep_list(names, refs).len() && #[trigger] dep_list(names, refs)[k] as int == j)
            <==> (0 <= j && exists|m: int| 0 <= m < refs.len() && #[trigger] index_from(names, refs[m], 0) == j),
    decreases refs.len(),
{
    if refs.len() > 0 {
        let d = dep_list(names, refs.drop_last());
        lemma_dep_list_member(names, refs.drop_last(), j);
        let last = index_from(names, refs.last(), 0);
        if exists|m: int| 0 <= m < refs.len() && #[trigger] index_from(names, refs[m], 0) == j {
            if 0 <= j {
                let m = choose|m: int| 0 <= m < refs.len() && #[trigger] index_from(names, refs[m], 0) == j;
                if m < refs.len() - 1 {
                    assert(refs.drop_last()[m] == refs[m]);
                    let k = choose|k: int| 0 <= k < d.len() && #[trigger] d[k] as int == j;
                    assert(dep_list(names, refs)[k] == d[k]);
                } else if d.contains(last as usize) {
                    let k = choose|k: int| 0 <= k < d.len() && d[k] == last as usize;
                    lemma_index_from(names, refs.last(), 0);
                    assert(d[k] as int == last);
                    assert(dep_list(names, refs)[k] as int == j);
                } else {
                    lemma_index_from(names, refs.last(), 0);
                    assert(dep_list(names, refs)[d.len() as int] as int == j);
                }
            }
        }
        if exists|k: int| 0 <= k < dep_list(names, refs).len() && #[trigger] dep_list(names, refs)[k] as int == j {
            let k = choose|k: int| 0 <= k < dep_list(names, refs).len() && #[trigger] dep_list(names, refs)[k] as int == j;
            if k < d.len() {
                assert(dep_list(names, refs)[k] == d[k]);
                let m = choose|m: int| 0 <= m < refs.drop_last().len() && #[trigger] index_from(names, refs.drop_last()[m], 0) == j;
                assert(refs.drop_last()[m] == refs[m]);
            } else {
                lemma_index_from(names, refs.last(), 0);
                assert(index_from(names, refs[refs.len() - 1], 0) == j);
            }
        }
    }
}

/// In a list of statements with distinct names: an edge from `a` to `b`
/// exists exactly when the statement named `a` references `b` and some
/// statement is named `b`.
proof fn lemma_edge_member(st: Seq<(Seq<char>, Seq<char>)>, e: (Seq<char>, Seq<char>))
    requires
        names_distinct(st),
        st.len() <= usize::MAX,
    ensures
        edge_set(graph_of(st)).contains(e) <==> (exists|i: int, j: int|
            0 <= i < st.len() && 0 <= j < st.len() && #[trigger] st[i].0 == e.0 && bracket_refs(st[i].1).contains(e.1)
                && #[trigger] st[j].0 == e.1),
{
    let g = graph_of(st);
    let names = stmt_names(st);
    if edge_set(g).contains(e) {
        let (i, k) = choose|i: int, k: int|
            0 <= i < g.len() && 0 <= k < g[i].2.len() && g[i].0 == e.0 && g[#[trigger] g[i].2[k] as int].0 == e.1;
        let refs = bracket_refs(st[i].1);
        let j = g[i].2[k] as int;
        lemma_dep_list_member(names, refs, j);
        assert(dep_list(names, refs)[k] as int == j);
        let m = choose|m: int| 0 <= m < refs.len() && #[trigger] index_from(names, refs[m], 0) == j;
        lemma_index_from(names, refs[m], 0);
        assert(st[j].0 == e.1);
        assert(refs[m] == e.1);
        assert(st[i].0 == e.0 && refs.contains(e.1) && st[j].0 == e.1);
    }
    if exists|i: int, j: int|
        0 <= i < st.len() && 0 <= j < st.len() && #[trigger] st[i].0 == e.0 && bracket_refs(st[i].1).contains(e.1)
            && #[trigger] st[j].0 == e.1 {
        let (i, j) = choose|i: int, j: int|
            0 <= i < st.len() && 0 <= j < st.len() && #[trigger] st[i].0 == e.0 && bracket_refs(st[i].1).contains(e.1)
                && #[trigger] st[j].0 == e.1;
        let refs = bracket_refs(st[i].1);
        let m = choose|m: int| 0 <= m < refs.len() && refs[m] == e.1;
        lemma_index_from(names, e.1, 0);
        assert(names[j] == e.1);
        let j2 = index_from(names, e.1, 0);
        assert(j2 == j) by {
            if j2 != j {
                assert(names[j2] == e.1);
            }
        }
        lemma_dep_list_member(names, refs, j);
        assert(index_from(names, refs[m], 0) == j);
        let k = choose|k: int| 0 <= k < dep_list(names, refs).len() && #[trigger] dep_list(names, refs)[k] as int == j;
        assert(g[i].2[k] as int == j);
        assert(g[i].0 == e.0 && g[g[i].2[k] as int].0 == e.1);
    }
}

proof fn lemma_split_len(s: Seq<char>, sep: char)
    ensures
        split_on(s, sep).len() <= s.len() + 1,
    decreases s.len(),
{
    if s.len() > 0 {
        lemma_split_len(s.drop_last(), sep);
        let p = split_on(s.drop_last(), sep);
        crate::statement::lemma_split_nonempty(s.drop_last(), sep);
        if s.last() == sep {
            assert(split_on(s, sep) == p.push(Seq::<char>::empty()));
        } else {
            assert(split_on(s, sep) == p.update(p.len() - 1, p.last().push(s.last())));
        }
    }
}

/// Two positions of `s` hold `x` where `x` is counted twice.
proof fn lemma_count_two<A>(s: Seq<A>, x: A)
    requires
        s.to_multiset().count(x) >= 2,
    ensures
        exists|a: int, b: int| 0 <= a < b < s.len() && s[a] == x && s[b] == x,
{
    broadcast use vstd::seq_lib::group_to_multiset_ensures;
    broadcast use vstd::multiset::group_multiset_axioms;

    assert(s.contains(x));
    let a = choose|a: int| 0 <= a < s.len() && s[a] == x;
    let r = s.remove(a);
    assert(r.to_multiset() == s.to_multiset().remove(x));
    assert(s.to_multiset().remove(x).count(x) == s.to_multiset().count(x) - 1);
    assert(r.to_multiset().count(x) >= 1);
    assert(r.contains(x));
    let c = choose|c: int| 0 <= c < r.len() && r[c] == x;
    if c < a {
        assert(s[c] == x);
        assert(0 <= c < a < s.len());
    } else {
        assert(s[c + 1] == x);
        assert(0 <= a < c + 1 < s.len());
    }
}

/// Texts made of the same statements in another order: the second parses
/// when the first does, and both give the same nodes and the same edges.
pub proof fn law_statement_order(t1: Seq<char>, t2: Seq<char>)
    requires
        t1.len() < usize::MAX,
        t2.len() < usize::MAX,
        split_on(t1, ';').to_multiset() == split_on(t2, ';').to_multiset(),
        parse_formula(t1) is Ok,
    ensures
        parse_formula(t2) is Ok,
        node_set(graph_of(parse_formula(t1)->Ok_0)) == node_set(graph_of(parse_formula(t2)->Ok_0)),
        edge_set(graph_of(parse_formula(t1)->Ok_0)) == edge_set(graph_of(parse_formula(t2)->Ok_0)),
{
    broadcast use vstd::seq_lib::group_to_multiset_ensures;

    let p1 = split_on(t1, ';');
    let p2 = split_on(t2, ';');
    let st1 = parse_formula(t1)->Ok_0;
    lemma_parse_pieces(p1);
    lemma_parse_pieces(p2);
    lemma_split_len(t1, ';');
    lemma_split_len(t2, ';');
    assert forall|x: Seq<char>| p1.contains(x) <==> p2.contains(x) by {
        assert(p1.contains(x) <==> p1.to_multiset().count(x) > 0);
        assert(p2.contains(x) <==> p2.to_multiset().count(x) > 0);
    }
    // every piece of the second text parses
    assert forall|k: int| 0 <= k < p2.len() implies #[trigger] parse_statement(p2[k]) is Some by {
        assert(p2.contains(p2[k]));
        let a = choose|a: int| 0 <= a < p1.len() && p1[a] == p2[k];
        assert(parse_statement(p1[a]) is Some);
    }
    let st2 = parse_pieces(p2)->Some_0;
    // and its names are distinct
    assert(names_distinct(st2)) by {
        assert forall|i: int, j: int| 0 <= i < j < st2.len() implies st2[i].0 != st2[j].0 by {
            if st2[i].0 == st2[j].0 {
                assert(parse_statement(p2[i]) == Some(st2[i]));
                assert(parse_statement(p2[j]) == Some(st2[j]));
                let (a, b) = if p2[i] == p2[j] {
                    assert(p1.to_multiset().count(p2[i]) >= 2) by {
                        lemma_count_two_rev(p2, p2[i], i, j);
                    }
                    lemma_count_two(p1, p2[i]);
                    choose|a: int, b: int| 0 <= a < b < p1.len() && p1[a] == p2[i] && p1[b] == p2[i]
                } else {
                    assert(p1.contains(p2[i]) && p1.contains(p2[j]));
                    let a = choose|a: int| 0 <= a < p1.len() && p1[a] == p2[i];
                    let b = choose|b: int| 0 <= b < p1.len() && p1[b] == p2[j];
                    (a, b)
                };
                assert(a != b);
                assert(parse_statement(p1[a]) == Some(st1[a]));
                assert(parse_statement(p1[b]) == Some(st1[b]));
                assert(st1[a].0 == st1[b].0);
                if a < b {
                    assert(st1[a].0 != st1[b].0);
                } else {
                    assert(st1[b].0 != st1[a].0);
                }
            }
        }
    }
    assert(parse_formula(t2) == Ok::<Seq<(Seq<char>, Seq<char>)>, crate::statement::ParseError>(st2));
    // a statement of one text is a statement of the other
    assert forall|i: int| 0 <= i < st1.len() implies st2.contains(#[trigger] st1[i]) by {
        assert(p2.contains(p1[i]));
        let j = choose|j: int| 0 <= j < p2.len() && p2[j] == p1[i];
        assert(parse_statement(p2[j]) == Some(st2[j]));
        assert(parse_statement(p1[i]) == Some(st1[i]));
        assert(st2[j] == st1[i]);
    }
    assert forall|j: int| 0 <= j < st2.len() implies st1.contains(#[trigger] st2[j]) by {
        assert(p1.contains(p2[j]));
        let i = choose|i: int| 0 <= i < p1.len() && p1[i] == p2[j];
        assert(parse_statement(p2[j]) == Some(st2[j]));
        assert(parse_statement(p1[i]) == Some(st1[i]));
        assert(st1[i] == st2[j]);
    }
    let g1 = graph_of(st1);
    let g2 = graph_of(st2);
    assert forall|x: (Seq<char>, Seq<char>)| node_set(g1).contains(x) <==> node_set(g2).contains(x) by {
        if node_set(g1).contains(x) {
            let i = choose|i: int| 0 <= i < g1.len() && #[trigger] g1[i].0 == x.0 && g1[i].1 == x.1;
            assert(st2.contains(st1[i]));
            let j = choose|j: int| 0 <= j < st2.len() && st2[j] == st1[i];
            assert(g2[j].0 == x.0 && g2[j].1 == x.1);
        }
        if node_set(g2).contains(x) {
            let j = choose|j: int| 0 <= j < g2.len() && #[trigger] g2[j].0 == x.0 && g2[j].1 == x.1;
            assert(st1.contains(st2[j]));
            let i = choose|i: int| 0 <= i < st1.len() && st1[i] == st2[j];
            assert(g1[i].0 == x.0 && g1[i].1 == x.1);
        }
    }
    assert(node_set(g1) =~= node_set(g2));
    lemma_edge_sets(st1, st2);
    lemma_edge_sets(st2, st1);
    assert(edge_set(g1) =~= edge_set(g2));
}

/// A value at two positions is counted at least twice.
proof fn lemma_count_two_rev<A>(s: Seq<A>, x: A, i: int, j: int)
    requires
        0 <= i < j < s.len(),
        s[i] == x,
        s[j] == x,
    ensures
        s.to_multiset().count(x) >= 2,
{
    broadcast use vstd::seq_lib::group_to_multiset_ensures;
    broadcast use vstd::multiset::group_multiset_axioms;

    let r = s.remove(i);
    assert(r.to_multiset() == s.to_multiset().remove(x));
    assert(r[j - 1] == x);
    assert(r.contains(x));
    assert(r.to_multiset().count(x) > 0);
    assert(s.to_multiset().remove(x).count(x) == if s.to_multiset().count(x) >= 1 { s.to_multiset().count(x) - 1 } else { 0 });
}

proof fn lemma_edge_sets(st1: Seq<(Seq<char>, Seq<char>)>, st2: Seq<(Seq<char>, Seq<char>)>)
    requires
        names_distinct(st1),
        names_distinct(st2),
        st1.len() <= usize::MAX,
        st2.len() <= usize::MAX,
        forall|i: int| 0 <= i < st1.len() ==> st2.contains(#[trigger] st1[i]),
    ensures
        forall|e: (Seq<char>, Seq<char>)| edge_set(graph_of(st1)).contains(e) ==> edge_set(graph_of(st2)).contains(e),
{
    assert forall|e: (Seq<char>, Seq<char>)| edge_set(graph_of(st1)).contains(e) implies edge_set(graph_of(st2)).contains(e) by {
        lemma_edge_member(st1, e);
        lemma_edge_member(st2, e);
        let (i, j) = choose|i: int, j: int|
            0 <= i < st1.len() && 0 <= j < st1.len() && #[trigger] st1[i].0 == e.0 && bracket_refs(st1[i].1).contains(e.1)
                && #[trigger] st1[j].0 == e.1;
        assert(st2.contains(st1[i]));
        assert(st2.contains(st1[j]));
        let i2 = choose|x: int| 0 <= x < st2.len() && st2[x] == st1[i];
        let j2 = choose|x: int| 0 <= x < st2.len() && st2[x] == st1[j];
        assert(st2[i2].0 == e.0 && bracket_refs(st2[i2].1).contains(e.1) && st2[j2].0 == e.1);
    }
}

} // verus!
