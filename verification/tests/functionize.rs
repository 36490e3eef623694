use evident_runtime::chain_eval::eval_expr;
use evident_runtime::ast::{BinOp, BodyItem, Expr, Keyword, Mapping, Pins, SchemaDecl};
use evident_runtime::value::Value;
use evident_runtime::functionize::{
    evaluate_chain, evaluate_chain_with_resolver, extract_chain, extract_chain_full, extract_chain_xl, extract_schema_wide_checks, gate_diagnostics,
    is_pure_assignment_body, is_pure_assignment_body_with_enums, substitute, ClaimBody, Component,
};

fn ident(s: &str) -> Expr {
    Expr::Identifier(s.to_string())
}

fn lit(n: i64) -> Expr {
    Expr::Int(n)
}

fn bin(op: BinOp, l: Expr, r: Expr) -> Expr {
    Expr::Binary(op, Box::new(l), Box::new(r))
}

fn member(name: &str, ty: &str) -> BodyItem {
    BodyItem::Membership { name: name.into(), ty: ty.into(), pins: Pins::Empty }
}

fn eq(l: Expr, r: Expr) -> BodyItem {
    BodyItem::Constraint(bin(BinOp::Eq, l, r))
}

fn claim(name: &str, body: Vec<BodyItem>) -> SchemaDecl {
    SchemaDecl {
        keyword: Keyword::Claim,
        name: name.into(),
        type_params: vec![],
        param_count: 0,
        external: false,
        body,
        operators: vec![],
    }
}

fn comp(vars: &[&str]) -> Component {
    Component { vars: vars.iter().map(|s| s.to_string()).collect(), constraint_indices: vec![] }
}

fn names(v: &[String]) -> Vec<String> {
    v.to_vec()
}

#[test]
fn missing_definition_returns_none() {
    // Component has a var with no defining equality.
    let schema = claim("Incomplete", vec![member("a", "Int"), member("b", "Int")]);
    let comp = comp(&["a", "b"]);
    let chain = extract_chain(&schema, &comp);
    assert!(chain.is_none());
}

fn get<'a>(env: &'a [(String, Value)], k: &str) -> Option<&'a Value> {
    env.iter().find(|(n, _)| n == k).map(|(_, v)| v)
}

#[test]
fn pair_substitutions_topo_sort_correctly() {
    // Synthesize a Pair-like schema: sum = a + b, prod = a * b.
    let schema = claim(
        "Pair",
        vec![
            member("a", "Int"),
            member("b", "Int"),
            member("sum", "Int"),
            member("prod", "Int"),
            eq(ident("sum"), bin(BinOp::Add, ident("a"), ident("b"))),
            eq(ident("prod"), bin(BinOp::Mul, ident("a"), ident("b"))),
        ],
    );
    let chain = extract_chain(&schema, &comp(&["sum", "prod"])).expect("should extract");
    assert_eq!(chain.steps.len(), 2);
    // Evaluate with a=5, b=3.
    let given = vec![("a".to_string(), Value::Int(5)), ("b".to_string(), Value::Int(3))];
    let env = evaluate_chain(&chain, &given).expect("eval ok");
    assert_eq!(get(&env, "sum"), Some(&Value::Int(8)));
    assert_eq!(get(&env, "prod"), Some(&Value::Int(15)));
}

#[test]
fn independent_steps_come_greatest_name_first() {
    let schema = claim(
        "Pair",
        vec![
            member("a", "Int"),
            member("b", "Int"),
            member("sum", "Int"),
            member("prod", "Int"),
            eq(ident("sum"), bin(BinOp::Add, ident("a"), ident("b"))),
            eq(ident("prod"), bin(BinOp::Mul, ident("a"), ident("b"))),
        ],
    );
    let chain = extract_chain(&schema, &comp(&["sum", "prod"])).expect("should extract");
    assert_eq!(chain.steps[0].var, "sum");
    assert_eq!(chain.steps[1].var, "prod");
    assert_eq!(chain.steps[0].expr, bin(BinOp::Add, ident("a"), ident("b")));
    assert!(chain.checks.is_empty());
}

#[test]
fn dependent_substitution_orders_correctly() {
    // a = 1, b = a + 1, c = b * 2.  Topo order: a, b, c.
    let schema = claim(
        "Chain",
        vec![
            member("a", "Int"),
            member("b", "Int"),
            member("c", "Int"),
            eq(ident("a"), lit(1)),
            eq(ident("b"), bin(BinOp::Add, ident("a"), lit(1))),
            eq(ident("c"), bin(BinOp::Mul, ident("b"), lit(2))),
        ],
    );
    let chain = extract_chain(&schema, &comp(&["a", "b", "c"])).expect("should extract");
    let order: Vec<&str> = chain.steps.iter().map(|s| s.var.as_str()).collect();
    let pos_a = order.iter().position(|v| *v == "a").unwrap();
    let pos_b = order.iter().position(|v| *v == "b").unwrap();
    let pos_c = order.iter().position(|v| *v == "c").unwrap();
    assert!(pos_a < pos_b, "a before b in {:?}", order);
    assert!(pos_b < pos_c, "b before c in {:?}", order);
    let env = evaluate_chain(&chain, &vec![]).expect("eval ok");
    assert_eq!(get(&env, "a"), Some(&Value::Int(1)));
    assert_eq!(get(&env, "b"), Some(&Value::Int(2)));
    assert_eq!(get(&env, "c"), Some(&Value::Int(4)));
}

#[test]
fn evaluation_refuses_conflicting_given_value() {
    let schema = claim("One", vec![member("a", "Int"), eq(ident("a"), lit(1))]);
    let chain = extract_chain(&schema, &comp(&["a"])).unwrap();
    assert!(evaluate_chain(&chain, &vec![("a".to_string(), Value::Int(2))]).is_none());
    let env = evaluate_chain(&chain, &vec![("a".to_string(), Value::Int(1))]).unwrap();
    assert_eq!(env, vec![("a".to_string(), Value::Int(1))]);
}

#[test]
fn evaluation_fails_on_false_check_or_overflow() {
    let schema = claim(
        "Chk",
        vec![member("a", "Int"), member("b", "Int"), eq(ident("a"), lit(1)), eq(ident("a"), ident("b"))],
    );
    let chain = extract_chain(&schema, &comp(&["a"])).unwrap();
    assert!(evaluate_chain(&chain, &vec![("b".to_string(), Value::Int(2))]).is_none());
    assert!(evaluate_chain(&chain, &vec![("b".to_string(), Value::Int(1))]).is_some());
    // b is unbound: the check cannot be evaluated.
    assert!(evaluate_chain(&chain, &vec![]).is_none());
    let big = claim("Big", vec![member("x", "Int"), eq(ident("x"), bin(BinOp::Add, lit(i64::MAX), lit(1)))]);
    let chain = extract_chain(&big, &comp(&["x"])).unwrap();
    assert!(evaluate_chain(&chain, &vec![]).is_none());
}

#[test]
fn resolver_supplies_unbound_names() {
    let schema = claim("R", vec![member("x", "Int"), eq(ident("x"), bin(BinOp::Add, ident("k"), lit(1)))]);
    let chain = extract_chain(&schema, &comp(&["x"])).unwrap();
    assert!(evaluate_chain(&chain, &vec![]).is_none());
    let idents = vec![("k".to_string(), Value::Int(41))];
    let env = evaluate_chain_with_resolver(&chain, &vec![], &idents).unwrap();
    assert_eq!(get(&env, "x"), Some(&Value::Int(42)));
}

#[test]
fn reversed_equation_defines_right_side() {
    let schema = claim("Rev", vec![member("x", "Int"), eq(lit(7), ident("x"))]);
    let chain = extract_chain(&schema, &comp(&["x"])).unwrap();
    assert_eq!(chain.steps[0].var, "x");
    assert_eq!(chain.steps[0].expr, lit(7));
}

#[test]
fn non_defining_equality_becomes_check() {
    let schema = claim(
        "Chk",
        vec![member("a", "Int"), member("b", "Int"), eq(ident("a"), lit(1)), eq(ident("a"), ident("b"))],
    );
    let chain = extract_chain(&schema, &comp(&["a"])).unwrap();
    assert_eq!(chain.steps.len(), 1);
    assert_eq!(chain.checks, vec![(ident("a"), ident("b"))]);
}

#[test]
fn cyclic_definitions_return_none() {
    let schema = claim(
        "Cyc",
        vec![
            member("a", "Int"),
            member("b", "Int"),
            eq(ident("a"), bin(BinOp::Add, ident("b"), lit(1))),
            eq(ident("b"), bin(BinOp::Add, ident("a"), lit(1))),
        ],
    );
    assert!(extract_chain(&schema, &comp(&["a", "b"])).is_none());
}

#[test]
fn repeated_component_variable_returns_none() {
    let schema = claim("Dup", vec![member("a", "Int"), eq(ident("a"), lit(1))]);
    assert!(extract_chain(&schema, &comp(&["a", "a"])).is_none());
}

#[test]
fn purity_refuses_inequality() {
    let schema = claim(
        "Lt",
        vec![member("n", "Int"), BodyItem::Constraint(bin(BinOp::Lt, ident("n"), lit(5)))],
    );
    assert!(!is_pure_assignment_body(&schema));
    assert_eq!(
        gate_diagnostics(&schema, &vec![], &vec![], &vec![]),
        Some("non-Eq Binary op Lt".to_string())
    );
    assert!(extract_chain(&schema, &comp(&["n"])).is_none());
}

#[test]
fn purity_reports_user_operator_with_quotes() {
    let schema = claim(
        "U",
        vec![BodyItem::Constraint(bin(BinOp::UserOp("·\"".into()), ident("a"), ident("b")))],
    );
    assert_eq!(
        gate_diagnostics(&schema, &vec![], &vec![], &vec![]),
        Some("non-Eq Binary op UserOp(\"·\\\"\")".to_string())
    );
}

#[test]
fn purity_membership_types() {
    let schema = claim("M", vec![member("s", "State")]);
    assert_eq!(
        gate_diagnostics(&schema, &vec![], &vec![], &vec![]),
        Some("Membership s∈State".to_string())
    );
    assert!(is_pure_assignment_body_with_enums(&schema, &vec!["State".to_string()]));
}

#[test]
fn purity_other_refusals() {
    let sub = SchemaDecl { keyword: Keyword::Subclaim, ..claim("S", vec![]) };
    assert_eq!(gate_diagnostics(&sub, &vec![], &vec![], &vec![]), Some("keyword Subclaim".to_string()));
    let pt = claim("P", vec![BodyItem::Passthrough { name: "other".into(), renames: vec![] }]);
    assert_eq!(gate_diagnostics(&pt, &vec![], &vec![], &vec![]), Some("..other not pure".to_string()));
    assert_eq!(gate_diagnostics(&pt, &vec![], &vec![], &vec!["other".to_string()]), None);
    let cc = claim(
        "C",
        vec![BodyItem::ClaimCall { name: "f".into(), mappings: vec![Mapping { slot: "x".into(), value: lit(1) }] }],
    );
    assert_eq!(gate_diagnostics(&cc, &vec![], &vec![], &vec![]), Some("ClaimCall f".to_string()));
    let call = claim("K", vec![BodyItem::Constraint(Expr::Call("g".into(), vec![]))]);
    assert_eq!(gate_diagnostics(&call, &vec![], &vec![], &vec![]), Some("body Call g".to_string()));
}

fn forall_range(var: &str, lo: Expr, hi: Expr, body: Expr) -> Expr {
    Expr::Forall(vec![var.into()], Box::new(Expr::Range(Box::new(lo), Box::new(hi))), Box::new(body))
}

#[test]
fn forall_over_constant_range_unrolls() {
    // ∀ i ∈ {0..2} : xs[i] = i
    let body = bin(BinOp::Eq, Expr::Index(Box::new(ident("xs")), Box::new(ident("i"))), ident("i"));
    let schema = claim("F", vec![BodyItem::Constraint(forall_range("i", lit(0), bin(BinOp::Sub, lit(3), lit(1)), body))]);
    assert!(is_pure_assignment_body(&schema));
    let chain = extract_chain(&schema, &comp(&[])).unwrap();
    assert_eq!(chain.checks.len(), 3);
    assert_eq!(chain.checks[2], (Expr::Index(Box::new(ident("xs")), Box::new(lit(2))), lit(2)));
}

#[test]
fn forall_with_inequality_body_is_refused() {
    let body = bin(BinOp::Lt, ident("i"), lit(9));
    let schema = claim("F", vec![BodyItem::Constraint(forall_range("i", lit(0), lit(1), body))]);
    assert_eq!(
        gate_diagnostics(&schema, &vec![], &vec![], &vec![]),
        Some("Forall body: non-Eq Binary op Lt".to_string())
    );
    let open = claim("G", vec![BodyItem::Constraint(forall_range("i", lit(0), ident("n"), ident("i")))]);
    assert_eq!(
        gate_diagnostics(&open, &vec![], &vec![], &vec![]),
        Some("Forall (non-static bounds)".to_string())
    );
}

#[test]
fn substitute_respects_shadowing() {
    let e = bin(BinOp::Add, ident("x"), forall_range("x", lit(0), lit(1), ident("x")));
    let out = substitute(&e, "x", &lit(5));
    assert_eq!(out, bin(BinOp::Add, lit(5), forall_range("x", lit(0), lit(1), ident("x"))));
    let call = Expr::Call("f".into(), vec![ident("y"), ident("x")]);
    assert_eq!(substitute(&call, "x", &ident("z")), Expr::Call("f".into(), vec![ident("y"), ident("z")]));
}

#[test]
fn passthrough_bodies_are_inlined() {
    let schema = claim(
        "Outer",
        vec![member("y", "Int"), BodyItem::Passthrough { name: "Inner".into(), renames: vec![] }],
    );
    let inner = ClaimBody { name: "Inner".into(), body: vec![eq(ident("y"), lit(3))] };
    let pure = vec!["Inner".to_string()];
    let chain = extract_chain_xl(&schema, &comp(&["y"]), &vec![], &vec![], &pure, &vec![inner]).unwrap();
    assert_eq!(chain.steps[0].expr, lit(3));
    assert!(extract_chain_full(&schema, &comp(&["y"]), &vec![], &vec![]).is_none());
}

#[test]
fn schema_wide_checks_pick_given_sides() {
    let schema = claim(
        "W",
        vec![eq(ident("a"), lit(1)), eq(ident("b"), ident("c")), eq(lit(2), ident("g"))],
    );
    let checks = extract_schema_wide_checks(&schema, &vec!["g".to_string(), "a".to_string()], &vec![]);
    assert_eq!(checks, vec![(ident("a"), lit(1)), (lit(2), ident("g"))]);
}

#[test]
fn native_integer_division_matches_solver_div() {
    let div = |a: i64, b: i64| Expr::Binary(BinOp::Div, Box::new(Expr::Int(a)), Box::new(Expr::Int(b)));
    let none: Vec<(String, Value)> = vec![];
    assert_eq!(eval_expr(&div(-5, 3), &none, &none, &vec![]), Some(Value::Int(-2)));
    assert_eq!(eval_expr(&div(5, -3), &none, &none, &vec![]), Some(Value::Int(-1)));
    assert_eq!(eval_expr(&div(7, 2), &none, &none, &vec![]), Some(Value::Int(3)));
    assert_eq!(eval_expr(&div(5, 0), &none, &none, &vec![]), None);
}
