use lightingbi::engine::FormulaEngine;
use lightingbi::expression::{evaluate_expression, render_expression};
use lightingbi::formula_node::NodeSourceType;
use lightingbi::scheduler::EngineError;
use lightingbi::statement::{parse_formula_text, ParseError};
use lightingbi::store::GraphStore;
use lightingbi::text::word_char;

fn chars(s: &str) -> Vec<char> {
    s.chars().collect()
}

fn text(v: &[char]) -> String {
    v.iter().collect()
}

fn saved(id: &str, formula: &str) -> GraphStore {
    let mut store = GraphStore::new();
    FormulaEngine::formula_format(formula, &id.to_string(), &mut store).unwrap();
    store
}

fn run(store: &GraphStore, id: &str, params: &[(&str, &str)]) -> Result<String, EngineError> {
    let p: Vec<(String, String)> = params.iter().map(|(a, b)| (a.to_string(), b.to_string())).collect();
    FormulaEngine::form(id.to_string()).run(&p, store)
}

#[test]
fn sum_of_two_references() {
    let store = saved("f1", "a=10;b=20;c=[a]+[b]");
    assert_eq!(run(&store, "f1", &[]), Ok("30".to_string()));
}

#[test]
fn average_plus_one() {
    let store = saved("f2", "a=10;b=20;f=avg([a],[b],4)+1");
    let v: f64 = run(&store, "f2", &[]).unwrap().parse().unwrap();
    assert!((v - 37.0 / 3.0).abs() < 1e-9);
}

#[test]
fn cycle_is_reported() {
    let store = saved("f3", "a=[b];b=[a]");
    assert!(FormulaEngine::check_cycle_by_id(&"f3".to_string(), &store));
    assert_eq!(run(&store, "f3", &[]), Err(EngineError::Cycle));
}

#[test]
fn no_cycle_in_chain() {
    let store = saved("f4", "a=10;c=[a]+5");
    assert!(!FormulaEngine::check_cycle_by_id(&"f4".to_string(), &store));
    assert!(!FormulaEngine::check_cycle_by_id(&"missing".to_string(), &store));
}

#[test]
fn longer_cycle_and_self_reference() {
    let store = saved("f5", "a=1;b=[c]+[a];c=[d];d=[b]");
    assert!(FormulaEngine::check_cycle_by_id(&"f5".to_string(), &store));
    let store = saved("f6", "a=[a]+1");
    assert!(FormulaEngine::check_cycle_by_id(&"f6".to_string(), &store));
}

#[test]
fn redefinition_keeps_second_text() {
    let mut store = GraphStore::new();
    let id = "same".to_string();
    FormulaEngine::formula_format("a=1;b=2;c=[a]*[b]", &id, &mut store).unwrap();
    FormulaEngine::formula_format("x=3;y=[x]*[x]", &id, &mut store).unwrap();
    let tree = FormulaEngine::tree_by_id(&id, &store);
    let keys: Vec<&str> = tree.nodes().iter().map(|n| n.key().as_str()).collect();
    assert_eq!(keys, vec!["y", "x"]);
    assert_eq!(run(&store, "same", &[]), Ok("9".to_string()));
}

#[test]
fn failed_save_leaves_store_as_it_was() {
    let mut store = GraphStore::new();
    let id = "keep".to_string();
    FormulaEngine::formula_format("a=2;b=[a]*4", &id, &mut store).unwrap();
    let r = FormulaEngine::formula_format("a=2;oops", &id, &mut store);
    assert!(matches!(r, Err(ParseError::MissingAssignment)));
    assert_eq!(run(&store, "keep", &[]), Ok("8".to_string()));
}

#[test]
fn statement_order_does_not_matter() {
    let s1 = saved("o", "a=10;c=[a]+5");
    let s2 = saved("o", "c=[a]+5;a=10");
    assert_eq!(run(&s1, "o", &[]), Ok("15".to_string()));
    assert_eq!(run(&s2, "o", &[]), Ok("15".to_string()));
    let t1 = FormulaEngine::tree_by_id(&"o".to_string(), &s1);
    let t2 = FormulaEngine::tree_by_id(&"o".to_string(), &s2);
    let mut n1: Vec<(String, String)> = t1.nodes().iter().map(|n| (n.key().clone(), n.formula().clone())).collect();
    let mut n2: Vec<(String, String)> = t2.nodes().iter().map(|n| (n.key().clone(), n.formula().clone())).collect();
    n1.sort();
    n2.sort();
    assert_eq!(n1, n2);
    assert_eq!(t1.relations().len(), 1);
    assert_eq!(t2.relations().len(), 1);
}

#[test]
fn tree_of_two_nodes() {
    let store = saved("t", "a=10;c=[a]+5");
    let tree = FormulaEngine::tree_by_id(&"t".to_string(), &store);
    let nodes = tree.nodes();
    assert_eq!(nodes.len(), 2);
    assert_eq!(nodes[0].key(), "c");
    assert_eq!(nodes[0].formula(), "[a]+5");
    assert_eq!(nodes[1].key(), "a");
    assert_eq!(nodes[1].formula(), "10");
    assert_eq!(nodes[1].formula_id(), "t");
    assert_eq!(nodes[0].node_type(), NodeSourceType::Formula);
    let rel = tree.relations();
    assert_eq!(rel.len(), 1);
    assert_eq!(rel[0].source_index(), "0");
    assert_eq!(rel[0].target_index(), "1");
    assert_eq!(rel[0].formula_id(), "t");
}

#[test]
fn tree_of_unknown_id_is_empty() {
    let store = GraphStore::new();
    let tree = FormulaEngine::tree_by_id(&"none".to_string(), &store);
    assert!(tree.nodes().is_empty());
    assert!(tree.relations().is_empty());
}

#[test]
fn tree_positions_follow_first_meeting() {
    let store = saved("p", "a=1;b=2;c=[a]+[b];d=[c]*[a]");
    let tree = FormulaEngine::tree_by_id(&"p".to_string(), &store);
    let keys: Vec<&str> = tree.nodes().iter().map(|n| n.key().as_str()).collect();
    assert_eq!(keys, vec!["c", "a", "b", "d"]);
    let rels: Vec<(&str, &str)> = tree
        .relations()
        .iter()
        .map(|r| (r.source_index().as_str(), r.target_index().as_str()))
        .collect();
    assert_eq!(rels, vec![("0", "1"), ("0", "2"), ("3", "0"), ("3", "1")]);
}

#[test]
fn root_is_start_of_longest_chain() {
    let store = saved("r", "a=10;b=20;f=avg([a],[b],[c],4)+1;c=[a]*[b];g=[c]*[f]");
    let v: f64 = run(&store, "r", &[]).unwrap().parse().unwrap();
    let c = 200.0;
    let f = (10.0 + 20.0 + c + 4.0) / 4.0 + 1.0;
    assert!((v - c * f).abs() < 1e-6);
}

#[test]
fn params_take_precedence() {
    let store = saved("q", "a=10;b=20;c=[a]+[b]");
    assert_eq!(run(&store, "q", &[("a", "1")]), Ok("21".to_string()));
    let store = saved("q2", "c=[a]+[b]");
    assert_eq!(run(&store, "q2", &[("a", "2"), ("b", "3")]), Err(EngineError::NotFound));
}

#[test]
fn unknown_and_flat_sets_are_not_found() {
    let store = GraphStore::new();
    assert_eq!(run(&store, "nothing", &[]), Err(EngineError::NotFound));
    let store = saved("flat", "a=1;b=2");
    assert_eq!(run(&store, "flat", &[]), Err(EngineError::NotFound));
}

#[test]
fn evaluation_errors() {
    let store = saved("e1", "a=0;b=1/[a]");
    assert_eq!(run(&store, "e1", &[]), Err(EngineError::Evaluation));
    let store = saved("e2", "a=1;b=sum([a],2)");
    assert_eq!(run(&store, "e2", &[]), Err(EngineError::Evaluation));
    let store = saved("e3", "a=1;b=[a]+[zz]");
    assert_eq!(run(&store, "e3", &[]), Err(EngineError::Evaluation));
    let store = saved("e4", "a=1;b=([a]+2");
    assert_eq!(run(&store, "e4", &[]), Err(EngineError::Evaluation));
}

#[test]
fn division_is_floating_point() {
    let store = saved("d", "a=7;b=[a]/2");
    assert_eq!(run(&store, "d", &[]), Ok("3.5".to_string()));
}

#[test]
fn parse_errors() {
    assert_eq!(parse_formula_text(&chars("a=1;b")).err(), Some(ParseError::MissingAssignment));
    assert_eq!(parse_formula_text(&chars("a=1;=2")).err(), Some(ParseError::MissingAssignment));
    assert_eq!(parse_formula_text(&chars(" =2")).err(), Some(ParseError::MissingAssignment));
    assert_eq!(parse_formula_text(&chars("a=1;")).err(), Some(ParseError::MissingAssignment));
    assert_eq!(parse_formula_text(&chars("a=1;a=2")).err(), Some(ParseError::DuplicateName));
}

#[test]
fn parse_statements() {
    let st = parse_formula_text(&chars(" a =10; b=[a]=1")).unwrap();
    assert_eq!(st.len(), 2);
    assert_eq!(text(&st[0].name), "a");
    assert_eq!(text(&st[0].expression), "10");
    assert_eq!(text(&st[1].name), "b");
    assert_eq!(text(&st[1].expression), "[a]=1");
}

#[test]
fn render_expands_average() {
    let ctx = vec![(chars("a"), chars("10")), (chars("b"), chars("-2.5"))];
    let r = render_expression(&chars("avg([a], [b], 4) + 1"), &ctx).unwrap();
    assert_eq!(text(&r), "(((10.0))+((-2.5))+(4.0))/3.0+1.0");
    assert!(render_expression(&chars("[c]+1"), &ctx).is_none());
    assert!(render_expression(&chars("max(1,2)"), &ctx).is_none());
    assert!(render_expression(&chars("(1,2)"), &ctx).is_none());
    assert!(render_expression(&chars("1.+2"), &ctx).is_none());
    let bad = vec![(chars("a"), chars("x1"))];
    assert!(render_expression(&chars("[a]"), &bad).is_none());
}

#[test]
fn evaluate_through_evalexpr() {
    let ctx = vec![(chars("x"), chars("3"))];
    assert_eq!(evaluate_expression(&chars("1+2"), &ctx).map(|v| text(&v)), Some("3".to_string()));
    assert_eq!(evaluate_expression(&chars("[x]*[x]-1"), &ctx).map(|v| text(&v)), Some("8".to_string()));
    assert_eq!(evaluate_expression(&chars("avg(1)"), &ctx).map(|v| text(&v)), Some("1".to_string()));
    assert_eq!(evaluate_expression(&chars("-(2*[x])"), &ctx).map(|v| text(&v)), Some("-6".to_string()));
    assert!(evaluate_expression(&chars("1/0"), &ctx).is_none());
    assert!(evaluate_expression(&chars("avg()"), &ctx).is_none());
}

#[test]
fn name_characters() {
    assert!(word_char('a'));
    assert!(word_char('_'));
    assert!(word_char('7'));
    assert!(word_char('数'));
    assert!(!word_char('['));
    assert!(!word_char(']'));
    assert!(!word_char(' '));
    let store = saved("u", "本期=4;合计=[本期]*2");
    assert_eq!(run(&store, "u", &[]), Ok("8".to_string()));
}

#[test]
fn vals_then_save() {
    let mut store = GraphStore::new();
    let mut fe = FormulaEngine::form("v".to_string());
    fe.vals("a=10".to_string());
    fe.vals("b=20".to_string()).vals("c=[a]+[b]".to_string());
    assert_eq!(fe.formula_strs, "a=10;b=20;c=[a]+[b]");
    assert!(fe.save(&mut store).is_ok());
    assert!(fe.check_by_id(&store));
    assert!(!fe.check_cycle(&store));
    assert_eq!(fe.tree(&store).relations().len(), 2);
    assert_eq!(fe.run(&Vec::new(), &store), Ok("30".to_string()));
}

#[test]
fn source_type_label() {
    assert_eq!(NodeSourceType::Formula.getType(), "Formula");
}

#[test]
fn designated_output_node() {
    let store = saved("out", "a=10;b=20;c=[a]+[b];d=[c]*2");
    let fe = FormulaEngine::form("out".to_string());
    assert_eq!(fe.run_output(&"c".to_string(), &Vec::new(), &store), Ok("30".to_string()));
    assert_eq!(fe.run_output(&"a".to_string(), &Vec::new(), &store), Ok("10".to_string()));
    assert_eq!(run(&store, "out", &[]), Ok("60".to_string()));
    assert_eq!(fe.run_output(&"zz".to_string(), &Vec::new(), &store), Err(EngineError::NotFound));
    let cyc = saved("out2", "a=[b];b=[a];c=1");
    let fe2 = FormulaEngine::form("out2".to_string());
    assert_eq!(fe2.run_output(&"c".to_string(), &Vec::new(), &cyc), Err(EngineError::Cycle));
}

#[test]
fn names_use_regex_word_class() {
    assert!(word_char('\u{301}'));
    assert!(word_char('\u{203F}'));
    let store = saved("w", "a\u{301}=2;b=[a\u{301}]*3");
    assert_eq!(run(&store, "w", &[]), Ok("6".to_string()));
}

#[test]
fn unicode_spaces_are_trimmed() {
    let st = parse_formula_text(&chars("\u{3000}a\u{A0}=1;\u{2003}b =[a]")).unwrap();
    assert_eq!(text(&st[0].name), "a");
    assert_eq!(text(&st[1].name), "b");
    assert_eq!(parse_formula_text(&chars("\u{3000}=1")).err(), Some(ParseError::MissingAssignment));
}

#[test]
fn store_edges_and_order() {
    let store = saved("s", "a=1;b=2;c=[a]+[b];d=[c]*[a]");
    let id = chars("s");
    let edges: Vec<(String, String)> = store
        .direct_edges_from(&id)
        .iter()
        .map(|(x, y)| (text(x), text(y)))
        .collect();
    let want: Vec<(String, String)> = vec![("c", "a"), ("c", "b"), ("d", "c"), ("d", "a")]
        .into_iter()
        .map(|(x, y)| (x.to_string(), y.to_string()))
        .collect();
    assert_eq!(edges, want);
    assert!(store.direct_edges_from(&chars("none")).is_empty());
    let sch = store.ordered_subgraph(&id).unwrap();
    let pos = |n: usize| sch.order.iter().position(|&x| x == n).unwrap();
    assert!(pos(0) < pos(2) && pos(1) < pos(2) && pos(2) < pos(3));
    assert_eq!(sch.height, vec![0, 0, 1, 2]);
    assert!(store.ordered_subgraph(&chars("none")).is_none());
    let cyc = saved("c", "a=[b];b=[a]");
    assert!(cyc.ordered_subgraph(&chars("c")).is_none());
}
