use evident_runtime::ast::{BinOp, BodyItem, Expr, Keyword, Mapping, Pins, SchemaDecl};
use evident_runtime::lower::{
    desugar_delta, desugar_seq_concat, inject_fsm_params, inject_lhs_eq_types, inject_prev_tick_decls,
};
use evident_runtime::program::{EnumDecl, VariantDecl};

fn ident(s: &str) -> Expr {
    Expr::Identifier(s.to_string())
}

fn lit(n: i64) -> Expr {
    Expr::Int(n)
}

fn bin(op: BinOp, l: Expr, r: Expr) -> Expr {
    Expr::Binary(op, Box::new(l), Box::new(r))
}

fn member(name: &str, ty: &str) -> BodyItem {
    BodyItem::Membership { name: name.into(), ty: ty.into(), pins: Pins::Empty }
}

fn eq(l: Expr, r: Expr) -> BodyItem {
    BodyItem::Constraint(bin(BinOp::Eq, l, r))
}

fn schema(keyword: Keyword, name: &str, param_count: usize, body: Vec<BodyItem>) -> SchemaDecl {
    SchemaDecl {
        keyword,
        name: name.into(),
        type_params: vec![],
        param_count,
        external: false,
        body,
        operators: vec![],
    }
}

fn delta(e: Expr) -> Expr {
    Expr::Delta(Box::new(e))
}

#[test]
fn delta_lowers_to_difference_with_previous_tick() {
    let mut s = schema(Keyword::Fsm, "F", 0, vec![member("x", "Int"), eq(delta(ident("x")), lit(-1))]);
    desugar_delta(&mut s);
    assert_eq!(s.body[1], eq(bin(BinOp::Sub, ident("x"), ident("_x")), lit(-1)));
    assert_eq!(s.body[0], member("x", "Int"));
}

#[test]
fn second_difference_reads_two_ticks_back() {
    let mut s = schema(Keyword::Fsm, "F", 0, vec![eq(delta(delta(ident("p.x"))), lit(0))]);
    desugar_delta(&mut s);
    let first = bin(BinOp::Sub, ident("p.x"), ident("_p.x"));
    let prev = bin(BinOp::Sub, ident("_p.x"), ident("__p.x"));
    assert_eq!(s.body[0], eq(bin(BinOp::Sub, first, prev), lit(0)));
}

#[test]
fn delta_in_call_mapping_is_lowered() {
    let call = BodyItem::ClaimCall {
        name: "g".into(),
        mappings: vec![Mapping { slot: "v".into(), value: delta(ident("y")) }],
    };
    let mut s = schema(Keyword::Fsm, "F", 0, vec![call]);
    desugar_delta(&mut s);
    assert_eq!(
        s.body[0],
        BodyItem::ClaimCall {
            name: "g".into(),
            mappings: vec![Mapping { slot: "v".into(), value: bin(BinOp::Sub, ident("y"), ident("_y")) }],
        }
    );
}

#[test]
fn concat_of_literal_and_pinned_length_flattens() {
    let setup = eq(ident("setup"), Expr::SeqLit(vec![ident("a")]));
    let pin = eq(Expr::Cardinality(Box::new(ident("built"))), lit(2));
    let effects = eq(ident("effects"), bin(BinOp::Concat, ident("setup"), ident("built")));
    let mut s = schema(Keyword::Fsm, "F", 0, vec![setup, pin, effects]);
    desugar_seq_concat(&mut s);
    let idx = |i: i64| Expr::Index(Box::new(ident("built")), Box::new(lit(i)));
    assert_eq!(s.body[2], eq(ident("effects"), Expr::SeqLit(vec![ident("a"), idx(0), idx(1)])));
}

#[test]
fn concat_with_unknown_operand_is_kept() {
    let effects = || eq(ident("effects"), bin(BinOp::Concat, ident("p"), ident("q")));
    let mut s = schema(Keyword::Fsm, "F", 0, vec![effects()]);
    desugar_seq_concat(&mut s);
    assert_eq!(s.body[0], effects());
}

#[test]
fn concat_inside_subclaims_is_flattened() {
    let inner = schema(
        Keyword::Subclaim,
        "inner",
        0,
        vec![eq(ident("e"), bin(BinOp::Concat, Expr::SeqLit(vec![lit(1)]), Expr::SeqLit(vec![lit(2)])))],
    );
    let mut s = schema(Keyword::Claim, "C", 0, vec![BodyItem::SubclaimDecl(inner)]);
    desugar_seq_concat(&mut s);
    match &s.body[0] {
        BodyItem::SubclaimDecl(sub) => assert_eq!(sub.body[0], eq(ident("e"), Expr::SeqLit(vec![lit(1), lit(2)]))),
        _ => panic!("subclaim expected"),
    }
}

#[test]
fn fsm_channels_are_declared_after_parameters() {
    let mut s = schema(
        Keyword::Fsm,
        "F",
        1,
        vec![
            member("n", "Int"),
            eq(ident("effects"), Expr::SeqLit(vec![])),
            eq(ident("r"), Expr::Index(Box::new(ident("last_results")), Box::new(lit(0)))),
        ],
    );
    inject_fsm_params(&mut s);
    assert_eq!(s.body.len(), 5);
    assert_eq!(s.body[1], member("last_results", "Seq(Result)"));
    assert_eq!(s.body[2], member("effects", "Seq(Effect)"));
}

#[test]
fn fsm_channels_untouched_for_claims_and_declared_names() {
    let body = || vec![member("effects", "Seq(Effect)"), eq(ident("effects"), Expr::SeqLit(vec![]))];
    let mut s = schema(Keyword::Fsm, "F", 0, body());
    inject_fsm_params(&mut s);
    assert_eq!(s.body, body());
    let mut c = schema(Keyword::Claim, "C", 0, vec![eq(ident("effects"), Expr::SeqLit(vec![]))]);
    inject_fsm_params(&mut c);
    assert_eq!(c.body.len(), 1);
}

#[test]
fn previous_ticks_are_declared_shallowest_first() {
    let mut s = schema(
        Keyword::Fsm,
        "F",
        1,
        vec![
            member("pos", "Int"),
            member("b", "Bool"),
            eq(ident("pos"), bin(BinOp::Add, ident("__pos.x"), ident("_b"))),
        ],
    );
    inject_prev_tick_decls(&mut s);
    assert_eq!(
        &s.body[1..6],
        &vec![
            member("_b", "Bool"),
            member("_pos", "Int"),
            member("__pos", "Int"),
            member("is_first_tick", "Bool"),
            member("is_second_tick", "Bool"),
        ][..]
    );
    assert_eq!(s.body.len(), 8);
}

#[test]
fn first_tick_reference_alone_declares_it() {
    let mut s = schema(
        Keyword::Fsm,
        "F",
        0,
        vec![member("n", "Int"), BodyItem::Constraint(bin(BinOp::Implies, ident("is_first_tick"), bin(BinOp::Eq, ident("n"), lit(0))))],
    );
    inject_prev_tick_decls(&mut s);
    assert_eq!(s.body[0], member("is_first_tick", "Bool"));
    assert_eq!(s.body.len(), 3);
}

#[test]
fn undeclared_previous_reads_are_ignored() {
    let mut s = schema(Keyword::Fsm, "F", 0, vec![eq(ident("y"), ident("_unknown"))]);
    inject_prev_tick_decls(&mut s);
    assert_eq!(s.body.len(), 1);
}

#[test]
fn definitions_declare_their_inferred_types() {
    let schemas: Vec<SchemaDecl> = vec![];
    let enums = vec![EnumDecl {
        name: "Color".into(),
        variants: vec![VariantDecl { name: "Red".into(), fields: vec![] }],
    }];
    let mut s = schema(
        Keyword::Claim,
        "C",
        1,
        vec![
            member("x", "Int"),
            eq(ident("y"), bin(BinOp::Add, ident("x"), lit(1))),
            eq(ident("c"), Expr::Call("Red".into(), vec![])),
            eq(ident("z"), lit(5)),
            eq(ident("y"), ident("x")),
            eq(ident("ok"), bin(BinOp::Lt, ident("x"), lit(3))),
        ],
    );
    inject_lhs_eq_types(&mut s, &schemas, &enums);
    assert_eq!(s.body[1], member("y", "Int"));
    assert_eq!(s.body[2], member("c", "Color"));
    assert_eq!(s.body[3], member("ok", "Bool"));
    assert_eq!(s.body.len(), 9);
}

#[test]
fn definitions_follow_record_fields() {
    let point = schema(Keyword::Type, "Point", 0, vec![member("x", "Real"), member("y", "Real")]);
    let schemas = vec![point];
    let mut s = schema(
        Keyword::Claim,
        "C",
        0,
        vec![member("p", "Point"), eq(ident("px"), Expr::Field(Box::new(ident("p")), "x".into()))],
    );
    inject_lhs_eq_types(&mut s, &schemas, &vec![]);
    assert_eq!(s.body[0], member("px", "Real"));
}
