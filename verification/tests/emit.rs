use evident_runtime::ast::{BinOp, BodyItem, Expr, Keyword, Pins, SchemaDecl};
use evident_runtime::emit::{
    assemble_kernel_smtlib, build_manifest, dedupe_datatype_accessors, effects_seqlit_length,
    ensure_is_first_tick_decl, has_last_results_decl, parse_sexpr, prepare_kernel_schema, rename_one_variant,
    result_and_last_results_decls, sexpr_tokens, validate_effects_single_writer, EmitError, Sexpr,
};
use evident_runtime::program::Program;

fn ident(s: &str) -> Expr {
    Expr::Identifier(s.to_string())
}

fn bin(op: BinOp, l: Expr, r: Expr) -> Expr {
    Expr::Binary(op, Box::new(l), Box::new(r))
}

fn eq(l: Expr, r: Expr) -> BodyItem {
    BodyItem::Constraint(bin(BinOp::Eq, l, r))
}

fn member(name: &str, ty: &str) -> BodyItem {
    BodyItem::Membership { name: name.into(), ty: ty.into(), pins: Pins::Empty }
}

fn fsm(name: &str, body: Vec<BodyItem>) -> SchemaDecl {
    SchemaDecl {
        keyword: Keyword::Fsm,
        name: name.into(),
        type_params: vec![],
        param_count: 0,
        external: false,
        body,
        operators: vec![],
    }
}

fn atom(s: &str) -> Sexpr {
    Sexpr::Atom(s.to_string())
}

#[test]
fn accessors_are_prefixed_with_their_variant() {
    let input = "(declare-fun x () Int)\n(declare-datatypes ((T 0)) (((Foo (f0 Int) (f1 String)) (Bar (f0 Bool)))))\n(assert x)";
    let out = dedupe_datatype_accessors(input);
    assert_eq!(
        out,
        "(declare-fun x () Int)\n(declare-datatypes ((T 0)) (((Foo (Foo__f0 Int) (Foo__f1 String)) (Bar (Bar__f0 Bool)))))\n(assert x)"
    );
}

#[test]
fn text_without_datatypes_is_copied() {
    assert_eq!(dedupe_datatype_accessors("(assert (= a b))"), "(assert (= a b))");
    assert_eq!(dedupe_datatype_accessors(""), "");
}

#[test]
fn datatype_blocks_are_respaced() {
    let out = dedupe_datatype_accessors("(declare-datatypes  ((E 0))\n  (((A) (B (f0   Int)))))");
    assert_eq!(out, "(declare-datatypes ((E 0)) (((A) (B (B__f0 Int)))))");
}

#[test]
fn tokens_split_parens_and_trim_atoms() {
    assert_eq!(sexpr_tokens("(a  b)\t(c)"), vec!["(", "a", "b", ")", "(", "c", ")"]);
    assert_eq!(sexpr_tokens("x\u{a0}"), vec!["x"]);
}

#[test]
fn parse_reads_nested_lists() {
    let toks: Vec<String> = sexpr_tokens("(a (b c) d)");
    let (e, next) = parse_sexpr(&toks, 0);
    assert_eq!(next, toks.len());
    assert_eq!(e, Sexpr::List(vec![atom("a"), Sexpr::List(vec![atom("b"), atom("c")]), atom("d")]));
}

#[test]
fn one_variant_renames_each_accessor_pair() {
    let v = Sexpr::List(vec![atom("V"), Sexpr::List(vec![atom("a"), atom("Int")]), atom("x")]);
    let r = rename_one_variant(&v);
    assert_eq!(r, Sexpr::List(vec![atom("V"), Sexpr::List(vec![atom("V__a"), atom("Int")]), atom("x")]));
}

#[test]
fn first_tick_declared_only_when_missing() {
    assert_eq!(ensure_is_first_tick_decl("(assert p)"), "(declare-fun is_first_tick () Bool)\n(assert p)");
    assert_eq!(ensure_is_first_tick_decl("(assert is_first_tick)"), "(assert is_first_tick)");
}

#[test]
fn manifest_lists_state_fields() {
    let m = build_manifest(&vec![("count".into(), "Int".into()), ("done".into(), "Bool".into())], 16);
    assert_eq!(
        m,
        ";; manifest: state-fields = count:Int done:Bool\n;; manifest: effects-name = effects\n;; manifest: effect-enum-name = Effect\n;; manifest: result-enum-name = Result\n;; manifest: max-effects = 16\n"
    );
    assert!(build_manifest(&vec![], 3).starts_with(";; manifest: state-fields = \n"));
}

#[test]
fn single_writer_rules() {
    let two = fsm("Two", vec![eq(ident("effects"), Expr::SeqLit(vec![])), eq(ident("effects"), Expr::SeqLit(vec![]))]);
    let err = validate_effects_single_writer(&two).unwrap_err();
    assert_eq!(err, EmitError::EffectsWriterCount { claim: "Two".into(), count: 2 });
    assert!(err.message().starts_with("schema `Two`: `effects` has 2 SeqLit-equality constraints; exactly 1 required"));
    let none = fsm("None", vec![member("x", "Int")]);
    assert_eq!(
        validate_effects_single_writer(&none),
        Err(EmitError::EffectsWriterCount { claim: "None".into(), count: 0 })
    );
    let guarded = fsm(
        "G",
        vec![
            BodyItem::Constraint(bin(BinOp::Implies, ident("a"), bin(BinOp::Eq, ident("effects"), Expr::SeqLit(vec![])))),
            BodyItem::Constraint(bin(BinOp::Implies, ident("b"), bin(BinOp::Eq, ident("effects"), Expr::SeqLit(vec![])))),
        ],
    );
    assert_eq!(validate_effects_single_writer(&guarded), Ok(()));
}

#[test]
fn prepare_appends_last_results_and_reports_unknown_claims() {
    let s = fsm("Main", vec![eq(ident("effects"), Expr::SeqLit(vec![ident("a"), ident("b")]))]);
    let rt = Program { schemas: vec![s], enums: vec![] };
    let p = prepare_kernel_schema(&rt, "Main").unwrap();
    assert!(has_last_results_decl(&p));
    assert_eq!(p.body.len(), 2);
    assert_eq!(effects_seqlit_length(&p), Some(2));
    let e = prepare_kernel_schema(&rt, "Other").unwrap_err();
    assert_eq!(e.message(), "unknown claim `Other`");
}

#[test]
fn kernel_text_is_assembled_in_order() {
    let s = fsm("Main", vec![eq(ident("effects"), Expr::SeqLit(vec![ident("a")]))]);
    let out = assemble_kernel_smtlib(&s, "(assert is_first_tick)\n", &vec![("n".into(), "Int".into())]);
    let expected = format!(
        "{}\n(declare-fun _n () Int)\n{}(assert is_first_tick)\n(assert (= effects__len 1))\n",
        build_manifest(&vec![("n".into(), "Int".into())], 16),
        result_and_last_results_decls()
    );
    assert_eq!(out, expected);
}
