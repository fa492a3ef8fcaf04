use lightingbi::engine::FormulaEngine;
use lightingbi::expression::evaluate_expression;
use lightingbi::scheduler::EngineError;
use lightingbi::resolvers::QueryFormula;
use lightingbi::statement::ParseError;
use lightingbi::store::GraphStore;

fn chars(s: &str) -> Vec<char> {
    s.chars().collect()
}

fn pairs(p: &[(&str, &str)]) -> Vec<(String, String)> {
    p.iter().map(|(a, b)| (a.to_string(), b.to_string())).collect()
}

#[test]
fn formula_engine_it_works() {
    let mut store = GraphStore::new();
    let formula = "a=10;b=20;f=avg([a],[b],[c],4)+1;c=[a]*[b];g=[c]*[f]";
    let fe = FormulaEngine::formula_format(
        &*formula.to_string(),
        &"test_formula_id".to_string(),
        &mut store,
    )
    .unwrap();
    let params = Vec::<(String, String)>::new();
    let v = fe.run(&params, &store);
    assert_eq!(v, Ok("11900".to_string()));
}

#[test]
fn test_vals() {
    let mut store = GraphStore::new();
    let mut fe = FormulaEngine::form((&"test_formula_id_2").to_string());
    fe.vals("a=10".to_string());
    fe.vals("b=20".to_string());
    fe.vals("f=avg([a],[b],[c],4)+1".to_string());
    fe.vals("c=[a]*[b]+[e]".to_string());
    fe.vals("g=[c]*[f]".to_string());
    fe.vals("e=[g]/3".to_string());
    assert!(fe.save(&mut store).is_ok());
    let params = pairs(&[("a", "10"), ("b", "20")]);
    let v = fe.run(&params, &store);
    assert_eq!(v, Err(EngineError::Cycle));
}

#[test]
fn test_run() {
    let store = GraphStore::new();
    let fe = FormulaEngine::form((&"test_formula_id_1").to_string());
    let params = Vec::<(String, String)>::new();
    let v = fe.run(&params, &store);
    assert_eq!(v, Err(EngineError::NotFound));
}

#[test]
fn test_check_by_id() {
    let mut store = GraphStore::new();
    let fe = FormulaEngine::form((&"test_formula_id").to_string());
    assert!(!fe.check_by_id(&store));
    FormulaEngine::formula_format("a=1;b=[a]", &"test_formula_id".to_string(), &mut store).unwrap();
    assert!(fe.check_by_id(&store));
}

#[test]
fn test_thread_run() {
    let mut store = GraphStore::new();
    let formula = "a=10;b=20;f=avg([a],[b],[c],4)+1;c=[a]*[b];g=[c]*[f]";
    FormulaEngine::formula_format(formula, &"test_formula_id".to_string(), &mut store).unwrap();
    let mut first: Option<Result<String, EngineError>> = None;
    for _ in 0..100 {
        let fe = FormulaEngine::form((&"test_formula_id").to_string());
        let params = pairs(&[("a", "10"), ("b", "20")]);
        let v = fe.run(&params, &store);
        match &first {
            None => first = Some(v),
            Some(f) => assert_eq!(&v, f),
        }
    }
    assert_eq!(first, Some(Ok("11900".to_string())));
}

#[test]
fn test_eval_formula() {
    for _ in 0..1000 {
        let params = vec![
            (chars("a"), chars("10")),
            (chars("b"), chars("30")),
            (chars("c"), chars("40")),
        ];
        let formula = chars("avg([a],[b],[c],4)+1");
        let v = evaluate_expression(&formula, &params);
        assert_eq!(v, Some(chars("22")));
    }
}

#[test]
fn test_check_cycle() {
    let mut store = GraphStore::new();
    FormulaEngine::formula_format(
        "a=10;b=20;f=avg([a],[b],[c],4)+1;c=[a]*[b]+[e];g=[c]*[f];e=[g]/3",
        &"test_formula_id_2".to_string(),
        &mut store,
    )
    .unwrap();
    FormulaEngine::formula_format(
        "a=10;b=20;f=avg([a],[b],[c],4)+1;c=[a]*[b];g=[c]*[f]",
        &"test_formula_id".to_string(),
        &mut store,
    )
    .unwrap();
    let b = FormulaEngine::check_cycle_by_id(&("test_formula_id_2".to_string()), &store);
    assert!(b);
    let fe = FormulaEngine::form((&"test_formula_id").to_string());
    let b = fe.check_cycle(&store);
    assert!(!b);
}

#[test]
fn test_tree() {
    let mut store = GraphStore::new();
    FormulaEngine::formula_format(
        "a=10;b=20;f=avg([a],[b],[c],4)+1;c=[a]*[b];g=[c]*[f]",
        &"test_formula_id".to_string(),
        &mut store,
    )
    .unwrap();
    let fe = FormulaEngine::form((&"test_formula_id").to_string());
    let tree = fe.tree(&store);
    let keys: Vec<&str> = tree.nodes().iter().map(|n| n.key().as_str()).collect();
    assert_eq!(keys, vec!["f", "a", "b", "c", "g"]);
    let rels: Vec<(&str, &str)> = tree
        .relations()
        .iter()
        .map(|r| (r.source_index().as_str(), r.target_index().as_str()))
        .collect();
    assert_eq!(
        rels,
        vec![("0", "1"), ("0", "2"), ("0", "3"), ("3", "1"), ("3", "2"), ("4", "3"), ("4", "0")]
    );
}

#[test]
fn resolvers_calculate_and_tree() {
    let q = QueryFormula;
    assert_eq!(q.formula_calculate("a=10;b=20;c=[a]+[b]".to_string()), Ok("30".to_string()));
    assert_eq!(
        q.formula_calculate("a=10;b".to_string()),
        Err(EngineError::Parse(ParseError::MissingAssignment))
    );
    assert_eq!(q.formula_calculate("a=[b];b=[a]".to_string()), Err(EngineError::Cycle));
    let mut store = GraphStore::new();
    FormulaEngine::formula_format("a=10;b=20;c=[a]+[b]", &String::new(), &mut store).unwrap();
    let tree = q.formula_tree_by_id(&store, String::new());
    assert_eq!(tree.nodes().len(), 3);
    assert_eq!(tree.relations().len(), 2);
}
