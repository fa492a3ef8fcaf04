//! The formula engine: saves formula sets into the store, evaluates them,
//! checks them for cycles and projects them for display.
use vstd::prelude::*;
use crate::expression::bindings_view;
use crate::formula_node::{FormulaTree, TreeView, lemma_tree_shape, tree_of, tree_of_graph, tree_shape};
use crate::graph::{NodeView, build_graph, graph_of, graph_valid, graph_wf, has_cycle, stmt_names, lemma_dep_list_bounded};
use crate::scheduler::{EngineError, run_graph, run_graph_at, run_node_spec, run_spec};
use crate::statement::{ParseError, lemma_parse_pieces, lemma_split_nonempty, parse_formula, parse_formula_text, split_on, stmts_view};
use crate::store::GraphStore;
use crate::text::{chars_of, string_of};

verus! {

/// A handle on one formula set: its id and the statements gathered for it.
pub struct FormulaEngine {
    pub id: String,
    pub formula_strs: String,
}

/// The statements `old` with `val` added after a `;`.
pub open spec fn joined(old: Seq<char>, val: Seq<char>) -> Seq<char> {
    if old.len() == 0 {
        val
    } else {
        old + seq![';'] + val
    }
}

/// The store's graphs after saving `text` under `id`: replaced by the graph
/// of the text where it parses, unchanged where it does not.
pub open spec fn saved(
    m: Map<Seq<char>, Seq<NodeView>>,
    id: Seq<char>,
    text: Seq<char>,
) -> Map<Seq<char>, Seq<NodeView>> {
    match parse_formula(text) {
        Ok(st) => m.insert(id, graph_of(st)),
        Err(_) => m,
    }
}

/// The result of running the formula set saved under `id`.
pub open spec fn run_saved(
    m: Map<Seq<char>, Seq<NodeView>>,
    id: Seq<char>,
    params: Seq<(Seq<char>, Seq<char>)>,
) -> Result<Seq<char>, EngineError> {
    if m.contains_key(id) {
        run_spec(m[id], params)
    } else {
        Err(EngineError::NotFound)
    }
}

pub open spec fn string_pairs(p: Seq<(String, String)>) -> Seq<(Seq<char>, Seq<char>)> {
    p.map_values(|x: (String, String)| (x.0@, x.1@))
}

pub open spec fn string_result(r: Result<String, EngineError>) -> Result<Seq<char>, EngineError> {
    match r {
        Ok(v) => Ok(v@),
        Err(e) => Err(e),
    }
}

pub proof fn lemma_graph_of_wf(st: Seq<(Seq<char>, Seq<char>)>)
    ensures
        graph_wf(graph_of(st)),
{
    assert forall|i: int, k: int| 0 <= i < graph_of(st).len() && 0 <= k < graph_of(st)[i].2.len() implies #[trigger] graph_of(st)[i].2[k] < graph_of(st).len() by {
        lemma_dep_list_bounded(stmt_names(st), crate::graph::bracket_refs(st[i].1));
    }
}

/// The graph of a text that parses is as the store keeps it.
pub proof fn lemma_parsed_graph_valid(text: Seq<char>)
    requires
        parse_formula(text) is Ok,
    ensures
        graph_valid(graph_of(parse_formula(text)->Ok_0)),
{
    let st = parse_formula(text)->Ok_0;
    lemma_graph_of_wf(st);
    lemma_split_nonempty(text, ';');
    lemma_parse_pieces(split_on(text, ';'));
    let g = graph_of(st);
    assert forall|i: int| 0 <= i < g.len() implies (#[trigger] g[i].2).no_duplicates() by {
        lemma_dep_list_bounded(stmt_names(st), crate::graph::bracket_refs(st[i].1));
    }
}

fn params_chars(params: &Vec<(String, String)>) -> (r: Vec<(Vec<char>, Vec<char>)>)
    ensures
        bindings_view(r@) == string_pairs(params@),
{
    let mut r: Vec<(Vec<char>, Vec<char>)> = Vec::new();
    let mut i: usize = 0;
    while i < params.len()
        invariant
            i <= params@.len(),
            bindings_view(r@) =~= string_pairs(params@).take(i as int),
        decreases params@.len() - i,
    {
        let a = chars_of(params[i].0.as_str());
        let b = chars_of(params[i].1.as_str());
        let ghost before = bindings_view(r@);
        r.push((a, b));
        assert(bindings_view(r@) =~= before.push((params@[i as int].0@, params@[i as int].1@)));
        assert(string_pairs(params@).take(i + 1) =~= string_pairs(params@).take(i as int).push(string_pairs(params@)[i as int]));
        i = i + 1;
    }
    r
}

impl FormulaEngine {
    /// A handle on the formula set `id`, with no statements gathered yet.
    pub fn form(id: String) -> (r: Self)
        ensures
            r.id@ == id@,
            r.formula_strs@ == Seq::<char>::empty(),
    {
        let e: Vec<char> = Vec::new();
        Self { id, formula_strs: string_of(&e) }
    }

    /// Gathers one more statement `name=expression`.
    pub fn vals(&mut self, val: String) -> (r: &mut FormulaEngine)
        ensures
            r.id@ == old(self).id@,
            r.formula_strs@ == joined(old(self).formula_strs@, val@),
            *final(self) == *final(r),
    {
        if !self.formula_strs.as_str().is_empty() {
            self.formula_strs.append(";");
        }
        self.formula_strs.append(val.as_str());
        proof {
            reveal_strlit(";");
        }
        assert(self.formula_strs@ =~= joined(old(self).formula_strs@, val@));
        self
    }

    /// Saves the gathered statements under this handle's id.
    pub fn save(&mut self, store: &mut GraphStore) -> (r: Result<(), ParseError>)
        requires
            old(store).wf(),
        ensures
            final(store).wf(),
            final(store).graphs() == saved(old(store).graphs(), old(self).id@, old(self).formula_strs@),
            r is Ok <==> parse_formula(old(self).formula_strs@) is Ok,
            r matches Err(e) ==> parse_formula(old(self).formula_strs@) == Err::<Seq<(Seq<char>, Seq<char>)>, ParseError>(e),
            *final(self) == *old(self),
    {
        match FormulaEngine::formula_format(self.formula_strs.as_str(), &self.id, store) {
            Ok(_) => Ok(()),
            Err(e) => Err(e),
        }
    }

    /// Parses a formula-set text and saves its graph under `formula_id`,
    /// in place of the one saved there before. A text that does not parse
    /// leaves the store as it was.
    pub fn formula_format(formula: &str, formula_id: &String, store: &mut GraphStore) -> (r: Result<FormulaEngine, ParseError>)
        requires
            old(store).wf(),
        ensures
            final(store).wf(),
            final(store).graphs() == saved(old(store).graphs(), formula_id@, formula@),
            r is Ok <==> parse_formula(formula@) is Ok,
            r matches Err(e) ==> parse_formula(formula@) == Err::<Seq<(Seq<char>, Seq<char>)>, ParseError>(e),
            r matches Ok(e) ==> e.id@ == formula_id@ && e.formula_strs@ == formula@,
    {
        let text = chars_of(formula);
        match parse_formula_text(&text) {
            Err(e) => Err(e),
            Ok(stmts) => {
                let g = build_graph(&stmts);
                proof {
                    lemma_parsed_graph_valid(formula@);
                }
                let id = chars_of(formula_id.as_str());
                store.replace(&id, g);
                Ok(FormulaEngine { id: string_of(&id), formula_strs: string_of(&text) })
            },
        }
    }

    /// Evaluates the formula set saved under this handle's id; `params`
    /// give values to names ahead of their expressions.
    pub fn run(&self, params: &Vec<(String, String)>, store: &GraphStore) -> (r: Result<String, EngineError>)
        requires
            store.wf(),
        ensures
            string_result(r) == run_saved(store.graphs(), self.id@, string_pairs(params@)),
    {
        let id = chars_of(self.id.as_str());
        match store.get(&id) {
            None => Err(EngineError::NotFound),
            Some(g) => {
                proof {
                    store.lemma_wf_graph(id@);
                }
                let p = params_chars(params);
                match run_graph(g, &p) {
                    Ok(v) => Ok(string_of(&v)),
                    Err(e) => Err(e),
                }
            },
        }
    }

    /// Evaluates the node named `output` of the formula set saved under this
    /// handle's id: the designated output in place of the inferred root.
    pub fn run_output(&self, output: &String, params: &Vec<(String, String)>, store: &GraphStore) -> (r: Result<String, EngineError>)
        requires
            store.wf(),
        ensures
            string_result(r) == (if store.graphs().contains_key(self.id@) {
                run_node_spec(store.graphs()[self.id@], string_pairs(params@), output@)
            } else {
                Err(EngineError::NotFound)
            }),
    {
        let id = chars_of(self.id.as_str());
        match store.get(&id) {
            None => Err(EngineError::NotFound),
            Some(g) => {
                proof {
                    store.lemma_wf_graph(id@);
                }
                let p = params_chars(params);
                let name = chars_of(output.as_str());
                match run_graph_at(g, &p, &name) {
                    Ok(v) => Ok(string_of(&v)),
                    Err(e) => Err(e),
                }
            },
        }
    }

    /// Whether a formula set with at least one node is saved under this
    /// handle's id.
    pub fn check_by_id(&self, store: &GraphStore) -> (r: bool)
        requires
            store.wf(),
        ensures
            r == (store.graphs().contains_key(self.id@) && store.graphs()[self.id@].len() > 0),
    {
        let id = chars_of(self.id.as_str());
        let r = store.contains(&id);
        proof {
            if r {
                store.lemma_wf_graph(id@);
            }
        }
        r
    }

    /// The tree of the formula set saved under this handle's id.
    pub fn tree(&self, store: &GraphStore) -> (r: FormulaTree)
        requires
            store.wf(),
        ensures
            r@ == tree_saved(store.graphs(), self.id@),
            store.graphs().contains_key(self.id@) ==> tree_shape(store.graphs()[self.id@], self.id@, r@),
    {
        FormulaEngine::tree_by_id(&self.id, store)
    }

    /// The nodes and one-hop relations of the formula set saved under
    /// `formula_id`, each node at the position where it is first met; empty
    /// where nothing is saved under it.
    pub fn tree_by_id(formula_id: &String, store: &GraphStore) -> (r: FormulaTree)
        requires
            store.wf(),
        ensures
            r@ == tree_saved(store.graphs(), formula_id@),
            store.graphs().contains_key(formula_id@) ==> tree_shape(store.graphs()[formula_id@], formula_id@, r@),
    {
        let id = chars_of(formula_id.as_str());
        match store.get(&id) {
            None => {
                let r = FormulaTree::new(Vec::new(), Vec::new());
                assert(r@.0 =~= Seq::empty());
                assert(r@.1 =~= Seq::empty());
                r
            },
            Some(g) => {
                proof {
                    store.lemma_wf_graph(id@);
                    lemma_tree_shape(g@, formula_id@);
                }
                tree_of_graph(g, formula_id)
            },
        }
    }

    /// Whether the formula set saved under this handle's id has a cycle.
    pub fn check_cycle(&self, store: &GraphStore) -> (r: bool)
        requires
            store.wf(),
        ensures
            r == (store.graphs().contains_key(self.id@) && has_cycle(store.graphs()[self.id@])),
    {
        FormulaEngine::check_cycle_by_id(&self.id, store)
    }

    /// Whether some node of the formula set saved under `formula_id` is
    /// reachable from itself.
    pub fn check_cycle_by_id(formula_id: &String, store: &GraphStore) -> (r: bool)
        requires
            store.wf(),
        ensures
            r == (store.graphs().contains_key(formula_id@) && has_cycle(store.graphs()[formula_id@])),
    {
        let id = chars_of(formula_id.as_str());
        store.has_cycle(&id)
    }
}

/// The tree of the formula set saved under `id`, empty where none is.
pub open spec fn tree_saved(m: Map<Seq<char>, Seq<NodeView>>, id: Seq<char>) -> TreeView {
    if m.contains_key(id) {
        tree_of(m[id], id)
    } else {
        (Seq::empty(), Seq::empty())
    }
}

} // verus!
