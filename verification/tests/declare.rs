use evident_runtime::ast::{BinOp, BodyItem, Expr, Keyword, Pins, SchemaDecl};
use evident_runtime::declare::{collect_pinned_ints, collect_seq_lengths_with_schemas, eval_pure_int};
use evident_runtime::value::Value;

fn ident(s: &str) -> Expr {
    Expr::Identifier(s.to_string())
}

fn bin(op: BinOp, l: Expr, r: Expr) -> Expr {
    Expr::Binary(op, Box::new(l), Box::new(r))
}

fn card(s: &str) -> Expr {
    Expr::Cardinality(Box::new(ident(s)))
}

fn eq(l: Expr, r: Expr) -> BodyItem {
    BodyItem::Constraint(bin(BinOp::Eq, l, r))
}

fn member(name: &str, ty: &str) -> BodyItem {
    BodyItem::Membership { name: name.into(), ty: ty.into(), pins: Pins::Empty }
}

fn schema(keyword: Keyword, name: &str, body: Vec<BodyItem>) -> SchemaDecl {
    SchemaDecl { keyword, name: name.into(), type_params: vec![], param_count: 0, external: false, body, operators: vec![] }
}

fn body() -> Vec<BodyItem> {
    vec![
        eq(ident("n"), Expr::Int(3)),
        eq(ident("m"), bin(BinOp::Mul, ident("n"), Expr::Int(2))),
        eq(card("xs"), ident("m")),
        eq(ident("ys"), Expr::SeqLit(vec![Expr::Int(1), Expr::Int(2)])),
        eq(ident("k"), bin(BinOp::Add, card("ys"), Expr::Int(1))),
    ]
}

fn pairs(v: &[(&str, i64)]) -> Vec<(String, i64)> {
    v.iter().map(|(k, n)| (k.to_string(), *n)).collect()
}

#[test]
fn folding_is_checked_and_euclidean() {
    let none: Vec<(String, i64)> = vec![];
    assert_eq!(eval_pure_int(&bin(BinOp::Div, Expr::Int(-5), Expr::Int(3)), &none, &none), Some(-2));
    assert_eq!(eval_pure_int(&bin(BinOp::Div, Expr::Int(5), Expr::Int(-3)), &none, &none), Some(-1));
    assert_eq!(eval_pure_int(&bin(BinOp::Div, Expr::Int(5), Expr::Int(0)), &none, &none), None);
    assert_eq!(eval_pure_int(&bin(BinOp::Add, Expr::Int(i64::MAX), Expr::Int(1)), &none, &none), None);
    assert_eq!(eval_pure_int(&bin(BinOp::Lt, Expr::Int(1), Expr::Int(2)), &none, &none), None);
    assert_eq!(eval_pure_int(&ident("a"), &pairs(&[("a", 4)]), &none), Some(4));
    assert_eq!(eval_pure_int(&card("s"), &none, &pairs(&[("s", 9)])), Some(9));
}

#[test]
fn pins_propagate_until_nothing_changes() {
    let given: Vec<(String, Value)> = vec![("g".to_string(), Value::Int(7)), ("b".to_string(), Value::Bool(true))];
    let got = collect_pinned_ints(&body(), &given, &vec![]);
    assert_eq!(got, pairs(&[("g", 7), ("n", 3), ("m", 6)]));
    let got = collect_pinned_ints(&body(), &vec![], &pairs(&[("ys", 2)]));
    assert_eq!(got, pairs(&[("n", 3), ("m", 6), ("k", 3)]));
}

#[test]
fn pins_flow_right_to_left_and_across_passes() {
    let b = vec![eq(ident("a"), ident("b")), eq(Expr::Int(5), ident("b"))];
    assert_eq!(collect_pinned_ints(&b, &vec![], &vec![]), pairs(&[("b", 5), ("a", 5)]));
}

#[test]
fn lengths_come_from_literals_cardinalities_and_givens() {
    let given: Vec<(String, Value)> = vec![("zs".to_string(), Value::SeqInt(vec![1, 2, 3]))];
    let got = collect_seq_lengths_with_schemas(&body(), &given, None);
    assert_eq!(got, pairs(&[("zs", 3), ("ys", 2), ("xs", 6)]));
}

#[test]
fn lengths_follow_passthroughs_and_instances() {
    let c = schema(Keyword::Claim, "c", vec![eq(card("qs"), Expr::Int(4))]);
    let t = schema(Keyword::Type, "T", vec![member("f", "Seq"), eq(card("f"), Expr::Int(2)), eq(card("g"), Expr::Int(1))]);
    let schemas = vec![c, t];
    let b = vec![BodyItem::Passthrough { name: "c".into(), renames: vec![] }, member("inst", "T")];
    let got = collect_seq_lengths_with_schemas(&b, &vec![], Some(&schemas));
    assert_eq!(got, pairs(&[("qs", 4), ("inst.f", 2)]));
}
