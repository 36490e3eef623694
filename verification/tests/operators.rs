use evident_runtime::ast::{BinOp, BodyItem, Expr, Keyword, OperatorDecl, Pins, SchemaDecl};
use evident_runtime::operators::desugar_operators;

fn ident(s: &str) -> Expr {
    Expr::Identifier(s.to_string())
}

fn bin(op: BinOp, l: Expr, r: Expr) -> Expr {
    Expr::Binary(op, Box::new(l), Box::new(r))
}

fn field(e: Expr, f: &str) -> Expr {
    Expr::Field(Box::new(e), f.to_string())
}

fn oplus(l: Expr, r: Expr) -> Expr {
    bin(BinOp::UserOp("⊕".to_string()), l, r)
}

fn member(name: &str, ty: &str) -> BodyItem {
    BodyItem::Membership { name: name.into(), ty: ty.into(), pins: Pins::Empty }
}

fn eq(l: Expr, r: Expr) -> BodyItem {
    BodyItem::Constraint(bin(BinOp::Eq, l, r))
}

fn schema(keyword: Keyword, name: &str, body: Vec<BodyItem>, operators: Vec<OperatorDecl>) -> SchemaDecl {
    SchemaDecl { keyword, name: name.into(), type_params: vec![], param_count: 0, external: false, body, operators }
}

/// `type Vec2` with `x, y ∈ Int` and `a ⊕ b = r` adding the `x` fields.
fn vec2() -> SchemaDecl {
    let op = OperatorDecl {
        symbol: "⊕".into(),
        operands: vec!["a".into(), "b".into()],
        result: "r".into(),
        result_type: "Vec2".into(),
        body: vec![
            member("tmp", "Int"),
            eq(field(ident("r"), "x"), bin(BinOp::Add, field(ident("a"), "x"), field(ident("b"), "x"))),
        ],
    };
    schema(Keyword::Type, "Vec2", vec![member("x", "Int"), member("y", "Int")], vec![op])
}

#[test]
fn operator_becomes_fresh_result_with_its_constraints() {
    let schemas = vec![vec2()];
    let mut s = schema(
        Keyword::Claim,
        "c",
        vec![member("p", "Vec2"), member("q", "Vec2"), member("z", "Vec2"), eq(ident("z"), oplus(ident("p"), ident("q")))],
        vec![],
    );
    desugar_operators(&mut s, &schemas);
    assert_eq!(
        s.body,
        vec![
            member("p", "Vec2"),
            member("q", "Vec2"),
            member("z", "Vec2"),
            eq(ident("z"), ident("__op0")),
            member("__op0", "Vec2"),
            eq(ident("__op0.x"), bin(BinOp::Add, ident("p.x"), ident("q.x"))),
        ]
    );
}

#[test]
fn nested_operators_chain_through_fresh_results() {
    let schemas = vec![vec2()];
    let mut s = schema(
        Keyword::Claim,
        "c",
        vec![member("p", "Vec2"), member("q", "Vec2"), eq(ident("z"), oplus(oplus(ident("p"), ident("q")), ident("p")))],
        vec![],
    );
    desugar_operators(&mut s, &schemas);
    assert_eq!(
        s.body,
        vec![
            member("p", "Vec2"),
            member("q", "Vec2"),
            eq(ident("z"), ident("__op1")),
            member("__op0", "Vec2"),
            eq(ident("__op0.x"), bin(BinOp::Add, ident("p.x"), ident("q.x"))),
            member("__op1", "Vec2"),
            eq(ident("__op1.x"), bin(BinOp::Add, ident("__op0.x"), ident("p.x"))),
        ]
    );
}

#[test]
fn untyped_operand_is_left_alone() {
    let schemas = vec![vec2()];
    let body = vec![member("n", "Int"), eq(ident("z"), oplus(ident("n"), ident("m")))];
    let mut s = schema(Keyword::Claim, "c", body, vec![]);
    desugar_operators(&mut s, &schemas);
    assert_eq!(s.body, vec![member("n", "Int"), eq(ident("z"), oplus(ident("n"), ident("m")))]);
}

#[test]
fn field_chain_operand_resolves_through_record_types() {
    let seg = schema(Keyword::Type, "Seg", vec![member("from", "Vec2"), member("to", "Vec2")], vec![]);
    let schemas = vec![vec2(), seg];
    let mut s = schema(
        Keyword::Claim,
        "c",
        vec![member("s", "Seg"), eq(ident("d"), oplus(field(ident("s"), "to"), field(ident("s"), "from")))],
        vec![],
    );
    desugar_operators(&mut s, &schemas);
    assert_eq!(
        s.body,
        vec![
            member("s", "Seg"),
            eq(ident("d"), ident("__op0")),
            member("__op0", "Vec2"),
            eq(ident("__op0.x"), bin(BinOp::Add, ident("s.to.x"), ident("s.from.x"))),
        ]
    );
}

#[test]
fn subclaims_count_their_own_results() {
    let schemas = vec![vec2()];
    let inner = schema(
        Keyword::Subclaim,
        "inner",
        vec![member("u", "Vec2"), eq(ident("w"), oplus(ident("u"), ident("u")))],
        vec![],
    );
    let mut s = schema(
        Keyword::Claim,
        "c",
        vec![member("p", "Vec2"), eq(ident("z"), oplus(ident("p"), ident("p"))), BodyItem::SubclaimDecl(inner)],
        vec![],
    );
    desugar_operators(&mut s, &schemas);
    let want_inner = schema(
        Keyword::Subclaim,
        "inner",
        vec![
            member("u", "Vec2"),
            eq(ident("w"), ident("__op0")),
            member("__op0", "Vec2"),
            eq(ident("__op0.x"), bin(BinOp::Add, ident("u.x"), ident("u.x"))),
        ],
        vec![],
    );
    assert_eq!(
        s.body,
        vec![
            member("p", "Vec2"),
            eq(ident("z"), ident("__op0")),
            BodyItem::SubclaimDecl(want_inner),
            member("__op0", "Vec2"),
            eq(ident("__op0.x"), bin(BinOp::Add, ident("p.x"), ident("p.x"))),
        ]
    );
}

#[test]
fn external_declarations_are_untouched() {
    let schemas = vec![vec2()];
    let mut s = schema(Keyword::Type, "e", vec![member("p", "Vec2"), eq(ident("z"), oplus(ident("p"), ident("p")))], vec![]);
    s.external = true;
    desugar_operators(&mut s, &schemas);
    assert_eq!(s.body, vec![member("p", "Vec2"), eq(ident("z"), oplus(ident("p"), ident("p")))]);
}
