use evident_runtime::ast::{BinOp, BodyItem, Expr, Keyword, MatchArm, MatchPattern, Pins, SchemaDecl};
use evident_runtime::dispatch::{
    body_contains_subschema_call, exit_frame, method_dispatch_call_compat, method_dispatch_name_compat,
    resolve_call, resolve_call_name, rewrite_idents_with_prefix, substitute_bound_var, try_enter, CallDispatch,
    MAX_INLINE_DEPTH,
};

fn ident(s: &str) -> Expr {
    Expr::Identifier(s.to_string())
}

fn bin(op: BinOp, l: Expr, r: Expr) -> Expr {
    Expr::Binary(op, Box::new(l), Box::new(r))
}

fn member(name: &str, ty: &str) -> BodyItem {
    BodyItem::Membership { name: name.into(), ty: ty.into(), pins: Pins::Empty }
}

fn schema(keyword: Keyword, name: &str, body: Vec<BodyItem>) -> SchemaDecl {
    SchemaDecl { keyword, name: name.into(), type_params: vec![], param_count: 0, external: false, body, operators: vec![] }
}

fn schemas() -> Vec<SchemaDecl> {
    let step = schema(Keyword::Subclaim, "step", vec![member("d", "Int")]);
    vec![
        schema(Keyword::Type, "Walker", vec![member("pos", "Int"), BodyItem::SubclaimDecl(step)]),
        schema(Keyword::Claim, "reset", vec![member("w", "Walker")]),
    ]
}

fn names(d: Option<CallDispatch>) -> String {
    match d {
        Some(CallDispatch::Plain { claim_name }) => format!("plain {claim_name}"),
        Some(CallDispatch::ReceiverPrefix { claim_name, recv }) => format!("recv {claim_name} {recv}"),
        Some(CallDispatch::Subschema { recv, ty, claim_name }) => format!("sub {recv} {ty} {claim_name}"),
        None => "none".to_string(),
    }
}

#[test]
fn call_targets_resolve_three_ways() {
    let sc = schemas();
    let body = vec![member("w", "Walker")];
    assert_eq!(names(resolve_call(&"reset".to_string(), &body, &sc)), "plain reset");
    assert_eq!(names(resolve_call(&"w.step".to_string(), &body, &sc)), "sub w Walker step");
    assert_eq!(names(resolve_call(&"w.reset".to_string(), &body, &sc)), "recv reset w");
    assert_eq!(names(resolve_call(&"w.nope".to_string(), &body, &sc)), "none");
    assert_eq!(names(resolve_call(&"nope".to_string(), &body, &sc)), "none");
    assert_eq!(names(resolve_call(&"a.w.reset".to_string(), &body, &sc)), "recv reset a.w");
    assert_eq!(names(resolve_call_name(&ident("w.step"), &body, &sc)), "sub w Walker step");
    assert_eq!(names(resolve_call_name(&Expr::Int(3), &body, &sc)), "none");
}

#[test]
fn method_dispatch_skips_subclaims() {
    let sc = schemas();
    let body = vec![member("w", "Walker")];
    assert_eq!(method_dispatch_call_compat(&"reset".to_string(), &body, &sc), Some(("reset".to_string(), None)));
    assert_eq!(
        method_dispatch_call_compat(&"w.reset".to_string(), &body, &sc),
        Some(("reset".to_string(), Some("w".to_string())))
    );
    assert_eq!(method_dispatch_call_compat(&"w.step".to_string(), &body, &sc), None);
    assert_eq!(method_dispatch_name_compat(&ident("w.reset"), &body, &sc), Some(("reset".to_string(), Some("w".to_string()))));
}

#[test]
fn subclaim_calls_are_found_but_not_inside_arguments() {
    let sc = schemas();
    let body = vec![member("w", "Walker")];
    let inner = Expr::Call("w.step".into(), vec![]);
    assert!(body_contains_subschema_call(&bin(BinOp::And, Expr::Bool(true), inner), &body, &sc));
    let nested = Expr::Call("reset".into(), vec![Expr::Call("w.step".into(), vec![])]);
    assert!(!body_contains_subschema_call(&nested, &body, &sc));
    let tuple = Expr::Tuple(vec![Expr::Int(1), Expr::Call("w.step".into(), vec![])]);
    assert!(body_contains_subschema_call(&tuple, &body, &sc));
}

#[test]
fn bound_variable_becomes_element_and_field_chain() {
    let e = bin(BinOp::Add, ident("p"), ident("p.pos.x"));
    let elem = ident("ps0");
    let want = bin(
        BinOp::Add,
        ident("ps0"),
        Expr::Field(Box::new(Expr::Field(Box::new(ident("ps0")), "pos".into())), "x".into()),
    );
    assert_eq!(substitute_bound_var(&e, "p", &elem), want);
    assert_eq!(substitute_bound_var(&ident("pq"), "p", &elem), ident("pq"));
}

#[test]
fn rebinding_quantifier_keeps_its_body() {
    let e = Expr::Forall(vec!["p".into()], Box::new(ident("p")), Box::new(ident("p")));
    let got = substitute_bound_var(&e, "p", &Expr::Int(7));
    assert_eq!(got, Expr::Forall(vec!["p".into()], Box::new(Expr::Int(7)), Box::new(ident("p"))));
}

#[test]
fn fields_get_instance_prefix_unless_shadowed() {
    let fields = vec!["x".to_string(), "y".to_string()];
    let e = bin(BinOp::Add, ident("x.a"), ident("z"));
    assert_eq!(rewrite_idents_with_prefix(&e, "inst", &fields), bin(BinOp::Add, ident("inst.x.a"), ident("z")));
    let q = Expr::Exists(vec!["y".into()], Box::new(ident("y")), Box::new(bin(BinOp::Eq, ident("y"), ident("x"))));
    assert_eq!(
        rewrite_idents_with_prefix(&q, "i", &fields),
        Expr::Exists(vec!["y".into()], Box::new(ident("i.y")), Box::new(bin(BinOp::Eq, ident("y"), ident("i.x"))))
    );
    let m = Expr::Match(
        Box::new(ident("x")),
        vec![MatchArm { pattern: MatchPattern::Ctor { name: "Some".into(), binds: vec![Some("x".into()), None] }, body: Box::new(ident("x")) }],
    );
    assert_eq!(
        rewrite_idents_with_prefix(&m, "i", &fields),
        Expr::Match(
            Box::new(ident("i.x")),
            vec![MatchArm { pattern: MatchPattern::Ctor { name: "Some".into(), binds: vec![Some("x".into()), None] }, body: Box::new(ident("x")) }],
        )
    );
}

#[test]
fn frames_open_up_to_the_limit_and_close_again() {
    let mut v: Vec<(String, usize)> = vec![];
    assert_eq!(try_enter(&mut v, "c"), Some(1));
    assert_eq!(try_enter(&mut v, "c"), Some(2));
    assert_eq!(try_enter(&mut v, "d"), Some(1));
    exit_frame(&mut v, "c");
    assert_eq!(v, vec![("c".to_string(), 1), ("d".to_string(), 1)]);
    exit_frame(&mut v, "c");
    assert_eq!(v, vec![("d".to_string(), 1)]);
    exit_frame(&mut v, "zzz");
    assert_eq!(v, vec![("d".to_string(), 1)]);
    let mut full = vec![("e".to_string(), MAX_INLINE_DEPTH)];
    assert_eq!(try_enter(&mut full, "e"), None);
    assert_eq!(full, vec![("e".to_string(), 64)]);
}
