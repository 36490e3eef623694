use evident_runtime::ast::{BinOp, BodyItem, Expr, Keyword, SchemaDecl};
use evident_runtime::codec::Effect;
use evident_runtime::collect::{collect_dispatchable_effects, collect_dispatchable_effects_cached, extract_seq_effect_chains, resolve_synthetic_names_to_effects, OrderCache};
use evident_runtime::program::Program;
use evident_runtime::toposort::topo_sort_with_random_tiebreak;
use evident_runtime::value::Value;
use rand::SeedableRng;

fn names(v: &[&str]) -> Vec<String> {
    v.iter().map(|s| s.to_string()).collect()
}

fn edge(a: &str, b: &str) -> (String, String) {
    (a.to_string(), b.to_string())
}

fn print(s: &str) -> Value {
    Value::Enum { enum_name: "Effect".into(), variant: "Print".into(), fields: vec![Value::Str(s.into())] }
}

fn ident(s: &str) -> Expr {
    Expr::Identifier(s.to_string())
}

fn claim(name: &str, body: Vec<BodyItem>) -> SchemaDecl {
    SchemaDecl {
        keyword: Keyword::Fsm,
        name: name.into(),
        type_params: vec![],
        param_count: 0,
        external: false,
        body,
        operators: vec![],
    }
}

#[test]
fn chain_is_sorted_whatever_the_seed() {
    for seed in 0..20u64 {
        let mut rng = rand::rngs::StdRng::seed_from_u64(seed);
        let out = topo_sort_with_random_tiebreak(&names(&["c", "b", "a"]), &vec![edge("a", "b"), edge("b", "c")], &mut rng);
        assert_eq!(out, names(&["a", "b", "c"]));
    }
}

#[test]
fn unconstrained_nodes_all_appear_once() {
    let mut rng = rand::rngs::StdRng::seed_from_u64(3);
    let mut out = topo_sort_with_random_tiebreak(&names(&["x", "y", "z"]), &vec![], &mut rng);
    out.sort();
    assert_eq!(out, names(&["x", "y", "z"]));
}

#[test]
fn cycle_appends_the_rest_in_input_order() {
    let mut rng = rand::rngs::StdRng::seed_from_u64(1);
    let out = topo_sort_with_random_tiebreak(
        &names(&["a", "b", "c"]),
        &vec![edge("a", "b"), edge("b", "a"), edge("q", "c")],
        &mut rng,
    );
    assert_eq!(out, names(&["c", "a", "b"]));
}

#[test]
fn repeated_node_is_emitted_once() {
    let mut rng = rand::rngs::StdRng::seed_from_u64(1);
    let out = topo_sort_with_random_tiebreak(&names(&["a", "a"]), &vec![], &mut rng);
    assert_eq!(out, names(&["a"]));
}

#[test]
fn chains_come_from_literals_of_known_nodes() {
    let idx = Expr::Index(Box::new(ident("s")), Box::new(Expr::Int(1)));
    let body = vec![
        BodyItem::Constraint(Expr::Binary(BinOp::Eq, Box::new(ident("order")), Box::new(Expr::SeqLit(vec![ident("b"), idx, ident("b")])))),
        BodyItem::Constraint(Expr::Binary(BinOp::Eq, Box::new(ident("other")), Box::new(Expr::SeqLit(vec![ident("zz")])))),
    ];
    let chains = extract_seq_effect_chains(&body, &names(&["b", "s[1]"]));
    assert_eq!(chains, vec![names(&["b", "s[1]", "b"])]);
}

#[test]
fn names_resolve_to_their_effects() {
    let vals = vec![("a".to_string(), Effect::Print("1".into())), ("b".to_string(), Effect::Exit(2))];
    let out = resolve_synthetic_names_to_effects(&names(&["b", "x", "a"]), &vals);
    assert_eq!(out, vec![Effect::Exit(2), Effect::Print("1".into())]);
}

#[test]
fn effects_slot_is_the_dispatch_list() {
    let rt = Program { schemas: vec![], enums: vec![] };
    let bindings = vec![
        ("effects".to_string(), Value::SeqEnum(vec![print("a"), Value::Int(3), print("b")])),
        ("other".to_string(), print("c")),
    ];
    let out = collect_dispatchable_effects(&rt, "Main", &bindings, Some("effects"), 9);
    assert_eq!(out, vec![Effect::Print("a".into()), Effect::Print("b".into())]);
}

#[test]
fn sequences_keep_their_order_and_literals_order_nodes() {
    let body = vec![BodyItem::Constraint(Expr::Binary(
        BinOp::Eq,
        Box::new(ident("phase")),
        Box::new(Expr::SeqLit(vec![ident("late"), ident("early")])),
    ))];
    let rt = Program { schemas: vec![claim("Main", body)], enums: vec![] };
    let bindings = vec![
        ("early".to_string(), print("e")),
        ("late".to_string(), print("l")),
        ("phase".to_string(), Value::SeqEnum(vec![print("l"), print("e")])),
    ];
    for seed in 0..10u64 {
        let out = collect_dispatchable_effects(&rt, "Main", &bindings, None, seed);
        assert_eq!(out, vec![Effect::Print("l".into()), Effect::Print("e".into())]);
    }
    let runs = vec![("s".to_string(), Value::SeqEnum(vec![print("1"), print("2"), print("3")]))];
    for seed in 0..10u64 {
        let out = collect_dispatchable_effects(&rt, "Main", &runs, None, seed);
        assert_eq!(out, vec![Effect::Print("1".into()), Effect::Print("2".into()), Effect::Print("3".into())]);
    }
    assert!(collect_dispatchable_effects(&rt, "Main", &vec![("n".to_string(), Value::Int(1))], None, 0).is_empty());
}

#[test]
fn record_sequences_name_their_field_runs() {
    let rt = Program { schemas: vec![], enums: vec![] };
    let rows = vec![vec![("draw".to_string(), Value::SeqEnum(vec![print("x"), print("y")]))]];
    let bindings = vec![("bundles".to_string(), Value::SeqComposite(rows))];
    let out = collect_dispatchable_effects(&rt, "Main", &bindings, None, 5);
    assert_eq!(out, vec![Effect::Print("x".into()), Effect::Print("y".into())]);
}

#[test]
fn value_equal_effects_without_a_slot_run_once() {
    let rt = Program { schemas: vec![], enums: vec![] };
    let bindings = vec![("e1".to_string(), print("x")), ("e2".to_string(), print("x"))];
    for seed in 0..5u64 {
        let out = collect_dispatchable_effects(&rt, "main", &bindings, None, seed);
        assert_eq!(out, vec![Effect::Print("x".into())]);
    }
    let runs = vec![("s".to_string(), Value::SeqEnum(vec![print("a"), print("b"), print("a")]))];
    let out = collect_dispatchable_effects(&rt, "main", &runs, None, 0);
    assert_eq!(out, vec![Effect::Print("a".into()), Effect::Print("b".into())]);
}

#[test]
fn a_shape_keeps_its_first_order() {
    let rt = Program { schemas: vec![], enums: vec![] };
    let bindings = vec![
        ("s".to_string(), Value::SeqEnum(vec![print("a"), print("b")])),
        ("t".to_string(), Value::SeqEnum(vec![print("c"), print("d")])),
    ];
    let mut cache = OrderCache::new();
    let first = collect_dispatchable_effects_cached(&rt, "main", &bindings, None, 0, &mut cache);
    assert_eq!(first.len(), 4);
    assert_eq!(cache.entries.len(), 1);
    for seed in 1..20u64 {
        let again = collect_dispatchable_effects_cached(&rt, "main", &bindings, None, seed, &mut cache);
        assert_eq!(again, first);
    }
    assert_eq!(cache.entries.len(), 1);
}
