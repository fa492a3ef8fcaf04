//! The formula queries offered to callers: the tree of a saved formula set,
//! and the value of a formula text evaluated on the spot.
use vstd::prelude::*;
use crate::engine::{FormulaEngine, lemma_graph_of_wf, tree_saved};
use crate::expression::bindings_view;
use crate::formula_node::{FormulaTree, tree_shape};
use crate::graph::{build_graph, graph_of};
use crate::scheduler::{EngineError, run_graph, run_spec};
use crate::statement::{parse_formula, parse_formula_text, stmts_view};
use crate::store::GraphStore;
use crate::text::{chars_of, string_of};

verus! {

pub struct QueryFormula;

impl QueryFormula {
    /// The tree of the formula set saved under `id`.
    pub fn formula_tree_by_id(&self, store: &GraphStore, id: String) -> (r: FormulaTree)
        requires
            store.wf(),
        ensures
            r@ == tree_saved(store.graphs(), id@),
            store.graphs().contains_key(id@) ==> tree_shape(store.graphs()[id@], id@, r@),
    {
        FormulaEngine::tree_by_id(&id, store)
    }

    /// Evaluates a formula text on the spot, without saving it: the result
    /// `run` gives for a set saved with that text.
    pub fn formula_calculate(&self, formula: String) -> (r: Result<String, EngineError>)
        ensures
            match parse_formula(formula@) {
                Err(e) => r == Err::<String, EngineError>(EngineError::Parse(e)),
                Ok(st) => match r {
                    Ok(v) => run_spec(graph_of(st), Seq::empty()) == Ok::<Seq<char>, EngineError>(v@),
                    Err(e) => run_spec(graph_of(st), Seq::empty()) == Err::<Seq<char>, EngineError>(e),
                },
            },
    {
        let text = chars_of(formula.as_str());
        match parse_formula_text(&text) {
            Err(e) => Err(EngineError::Parse(e)),
            Ok(stmts) => {
                let g = build_graph(&stmts);
                proof {
                    lemma_graph_of_wf(stmts_view(stmts@));
                }
                let params: Vec<(Vec<char>, Vec<char>)> = Vec::new();
                assert(bindings_view(params@) =~= Seq::empty());
                match run_graph(&g, &params) {
                    Ok(v) => Ok(string_of(&v)),
                    Err(e) => Err(e),
                }
            },
        }
    }
}

} // verus!
