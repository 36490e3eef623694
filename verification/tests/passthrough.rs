use evident_runtime::ast::{BinOp, BodyItem, Expr, Keyword, Mapping, Pins, SchemaDecl};
use evident_runtime::declare::collect_referenced_names;
use evident_runtime::passthrough::{build_substitution, expand_parameterized_passthroughs, rewrite_passthrough_body};

fn ident(s: &str) -> Expr {
    Expr::Identifier(s.to_string())
}

fn bin(op: BinOp, l: Expr, r: Expr) -> Expr {
    Expr::Binary(op, Box::new(l), Box::new(r))
}

fn member(name: &str, ty: &str) -> BodyItem {
    BodyItem::Membership { name: name.into(), ty: ty.into(), pins: Pins::Empty }
}

fn eq(l: Expr, r: Expr) -> BodyItem {
    BodyItem::Constraint(bin(BinOp::Eq, l, r))
}

fn schema(keyword: Keyword, name: &str, body: Vec<BodyItem>) -> SchemaDecl {
    SchemaDecl {
        keyword,
        name: name.into(),
        type_params: vec![],
        param_count: 0,
        external: false,
        body,
        operators: vec![],
    }
}

fn rename(slot: &str, target: &str) -> Mapping {
    Mapping { slot: slot.into(), value: ident(target) }
}

/// The lowered walk: `a, da ∈ Int`, the previous-tick `_a`, the shared flag,
/// and `a − _a = da`.
fn walk() -> SchemaDecl {
    schema(
        Keyword::Fsm,
        "one_d_random_walk",
        vec![
            member("a", "Int"),
            member("da", "Int"),
            member("_a", "Int"),
            member("is_first_tick", "Bool"),
            eq(bin(BinOp::Sub, ident("a"), ident("_a")), ident("da")),
        ],
    )
}

fn instance(x: &str, da: &str) -> Vec<BodyItem> {
    let prev = format!("_{x}");
    vec![
        member(x, "Int"),
        member(da, "Int"),
        member(&prev, "Int"),
        member("is_first_tick", "Bool"),
        eq(bin(BinOp::Sub, ident(x), ident(&prev)), ident(da)),
    ]
}

#[test]
fn two_instances_step_independently() {
    let schemas = vec![walk()];
    let mut s = schema(
        Keyword::Fsm,
        "random_walk",
        vec![
            member("x", "Int"),
            member("y", "Int"),
            BodyItem::Passthrough { name: "one_d_random_walk".into(), renames: vec![rename("a", "x")] },
            BodyItem::Passthrough { name: "one_d_random_walk".into(), renames: vec![rename("a", "y")] },
        ],
    );
    let mut id = 0u64;
    expand_parameterized_passthroughs(&mut s, &schemas, &mut id);
    let mut want = vec![member("x", "Int"), member("y", "Int")];
    want.extend(instance("x", "da__pt0"));
    want.extend(instance("y", "da__pt1"));
    assert_eq!(s.body, want);
    assert_eq!(id, 2);
}

#[test]
fn bare_and_unknown_passthroughs_are_kept() {
    let schemas = vec![walk()];
    let bare = BodyItem::Passthrough { name: "one_d_random_walk".into(), renames: vec![] };
    let unknown = BodyItem::Passthrough { name: "nope".into(), renames: vec![rename("a", "x")] };
    let mut s = schema(Keyword::Fsm, "f", vec![bare, unknown]);
    let mut id = 7u64;
    expand_parameterized_passthroughs(&mut s, &schemas, &mut id);
    assert_eq!(
        s.body,
        vec![
            BodyItem::Passthrough { name: "one_d_random_walk".into(), renames: vec![] },
            BodyItem::Passthrough { name: "nope".into(), renames: vec![rename("a", "x")] },
        ]
    );
    assert_eq!(id, 7);
}

#[test]
fn instance_ids_wrap_around() {
    let schemas = vec![walk()];
    let mut s = schema(
        Keyword::Fsm,
        "f",
        vec![BodyItem::Passthrough { name: "one_d_random_walk".into(), renames: vec![rename("a", "x")] }],
    );
    let mut id = u64::MAX;
    expand_parameterized_passthroughs(&mut s, &schemas, &mut id);
    assert_eq!(s.body, instance("x", "da__pt18446744073709551615"));
    assert_eq!(id, 0);
}

#[test]
fn substitution_lists_renames_then_fresh_fields() {
    let sub = build_substitution(&walk(), &vec![rename("a", "x"), Mapping { slot: "da".into(), value: Expr::Int(3) }], 4);
    assert_eq!(sub, vec![("a".to_string(), "x".to_string()), ("da".to_string(), "da__pt4".to_string())]);
}

#[test]
fn later_rename_of_a_slot_wins() {
    let sub = build_substitution(&walk(), &vec![rename("a", "x"), rename("a", "z")], 0);
    assert_eq!(sub[0], ("a".to_string(), "z".to_string()));
}

#[test]
fn dotted_and_prev_tick_names_follow_their_base() {
    let claim = schema(
        Keyword::Claim,
        "c",
        vec![
            member("p", "Point"),
            eq(ident("p.x"), ident("_p.y")),
            BodyItem::ClaimCall { name: "g".into(), mappings: vec![Mapping { slot: "s".into(), value: ident("p.z") }] },
        ],
    );
    let body = rewrite_passthrough_body(&claim, &vec![rename("p", "q")], 0);
    assert_eq!(
        body,
        vec![
            member("q", "Point"),
            eq(ident("q.x"), ident("_q.y")),
            BodyItem::ClaimCall { name: "g".into(), mappings: vec![Mapping { slot: "s".into(), value: ident("q.z") }] },
        ]
    );
}

#[test]
fn referenced_names_cover_operands_and_call_arguments() {
    let e = bin(
        BinOp::Add,
        Expr::Cardinality(Box::new(ident("xs"))),
        Expr::Call("f".into(), vec![ident("a"), Expr::Index(Box::new(ident("ys")), Box::new(Expr::Int(0)))]),
    );
    let mut out: Vec<String> = vec![];
    collect_referenced_names(&e, &mut out);
    assert_eq!(out, vec!["xs", "xs", "a", "ys"]);
    let mut skipped: Vec<String> = vec![];
    collect_referenced_names(&Expr::Ternary(Box::new(ident("c")), Box::new(ident("t")), Box::new(ident("e"))), &mut skipped);
    assert!(skipped.is_empty());
}
