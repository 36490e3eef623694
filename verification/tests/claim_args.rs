use evident_runtime::ast::{BinOp, BodyItem, Expr, Keyword, Pins, SchemaDecl};
use evident_runtime::claim_args::inject_claim_arg_types;

fn ident(s: &str) -> Expr {
    Expr::Identifier(s.to_string())
}

fn bin(op: BinOp, l: Expr, r: Expr) -> Expr {
    Expr::Binary(op, Box::new(l), Box::new(r))
}

fn member(name: &str, ty: &str) -> BodyItem {
    BodyItem::Membership { name: name.into(), ty: ty.into(), pins: Pins::Empty }
}

fn eq(l: Expr, r: Expr) -> BodyItem {
    BodyItem::Constraint(bin(BinOp::Eq, l, r))
}

fn schema(keyword: Keyword, name: &str, param_count: usize, body: Vec<BodyItem>) -> SchemaDecl {
    SchemaDecl { keyword, name: name.into(), type_params: vec![], param_count, external: false, body, operators: vec![] }
}

fn call(name: &str, args: Vec<Expr>) -> BodyItem {
    BodyItem::Constraint(Expr::Call(name.into(), args))
}

fn between() -> SchemaDecl {
    schema(Keyword::Claim, "between", 3, vec![member("lo", "Int"), member("hi", "Real"), member("x", "Nat")])
}

#[test]
fn arguments_used_twice_get_their_parameter_types() {
    let schemas = vec![between()];
    let mut s = schema(
        Keyword::Claim,
        "c",
        0,
        vec![
            call("between", vec![ident("b"), ident("a"), ident("once")]),
            eq(ident("a"), Expr::Int(1)),
            eq(ident("b"), bin(BinOp::Add, ident("a"), Expr::Int(1))),
        ],
    );
    inject_claim_arg_types(&mut s, &schemas);
    assert_eq!(
        s.body,
        vec![
            member("a", "Real"),
            member("b", "Int"),
            call("between", vec![ident("b"), ident("a"), ident("once")]),
            eq(ident("a"), Expr::Int(1)),
            eq(ident("b"), bin(BinOp::Add, ident("a"), Expr::Int(1))),
        ]
    );
}

#[test]
fn declared_and_dotted_arguments_are_skipped() {
    let schemas = vec![between()];
    let body = vec![
        member("k", "Int"),
        call("between", vec![ident("k"), ident("p.q"), ident("between")]),
        eq(ident("k"), ident("p.q")),
        eq(ident("between"), ident("between")),
    ];
    let mut s = schema(Keyword::Claim, "c", 1, body);
    inject_claim_arg_types(&mut s, &schemas);
    assert_eq!(s.body.len(), 4);
}

#[test]
fn membership_form_and_first_type_wins() {
    let schemas = vec![between()];
    let mut s = schema(
        Keyword::Claim,
        "c",
        1,
        vec![
            member("y", "Int"),
            BodyItem::Constraint(Expr::InExpr(
                Box::new(Expr::Tuple(vec![ident("t"), ident("u")])),
                Box::new(ident("between")),
            )),
            call("between", vec![ident("u"), ident("t")]),
            eq(ident("t"), ident("u")),
        ],
    );
    inject_claim_arg_types(&mut s, &schemas);
    assert_eq!(s.body[0], member("y", "Int"));
    assert_eq!(s.body[1], member("t", "Int"));
    assert_eq!(s.body[2], member("u", "Real"));
    assert_eq!(s.body.len(), 6);
}

#[test]
fn method_call_shifts_parameters_by_one() {
    let step = schema(Keyword::Claim, "step", 2, vec![member("self", "Walker"), member("n", "Int")]);
    let walker = schema(Keyword::Type, "Walker", 0, vec![member("pos", "Int")]);
    let schemas = vec![step, walker];
    let mut s = schema(
        Keyword::Claim,
        "c",
        1,
        vec![member("w", "Walker"), call("w.step", vec![ident("k")]), eq(ident("k"), Expr::Int(2))],
    );
    inject_claim_arg_types(&mut s, &schemas);
    assert_eq!(
        s.body,
        vec![
            member("w", "Walker"),
            member("k", "Int"),
            call("w.step", vec![ident("k")]),
            eq(ident("k"), Expr::Int(2)),
        ]
    );
}

#[test]
fn subclaim_of_member_type_keeps_offset_zero() {
    let inner = schema(Keyword::Subclaim, "advance", 1, vec![member("d", "Int")]);
    let walker = schema(Keyword::Type, "Walker", 0, vec![member("pos", "Int"), BodyItem::SubclaimDecl(inner)]);
    let advance = schema(Keyword::Claim, "advance", 2, vec![member("a", "Bool"), member("b", "String")]);
    let schemas = vec![walker, advance];
    let mut s = schema(
        Keyword::Claim,
        "c",
        1,
        vec![member("w", "Walker"), call("w.advance", vec![ident("k")]), eq(ident("k"), ident("k"))],
    );
    inject_claim_arg_types(&mut s, &schemas);
    assert_eq!(s.body[1], member("k", "Bool"));
}

#[test]
fn external_schema_is_unchanged() {
    let schemas = vec![between()];
    let body = vec![call("between", vec![ident("a")]), eq(ident("a"), ident("a"))];
    let mut s = schema(Keyword::Type, "e", 0, body);
    s.external = true;
    inject_claim_arg_types(&mut s, &schemas);
    assert_eq!(s.body.len(), 2);
}
