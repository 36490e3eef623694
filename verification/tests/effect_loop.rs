use evident_runtime::ast::{BinOp, BodyItem, Expr, Keyword, Pins, SchemaDecl};
use evident_runtime::fsm::{detect_main_shape, resolve_fsm, single_fsm, LoopOpts};
use evident_runtime::nested::{validate_run_target, RunError};
use evident_runtime::program::{EnumDecl, FieldDecl, Program, VariantDecl};

fn member(name: &str, ty: &str) -> BodyItem {
    BodyItem::Membership { name: name.into(), ty: ty.into(), pins: Pins::Empty }
}

fn ident(s: &str) -> Expr {
    Expr::Identifier(s.into())
}

fn schema(keyword: Keyword, name: &str, body: Vec<BodyItem>) -> SchemaDecl {
    SchemaDecl {
        keyword,
        name: name.into(),
        type_params: vec![],
        param_count: 0,
        external: false,
        body,
        operators: vec![],
    }
}

fn enum_s() -> EnumDecl {
    EnumDecl {
        name: "S".into(),
        variants: vec![
            VariantDecl { name: "Init".into(), fields: vec![] },
            VariantDecl { name: "Done".into(), fields: vec![] },
        ],
    }
}

/// `state = from ⇒ (state_next = to ∧ effects = ⟨⟩)`.
fn transition(from: &str, to: &str) -> BodyItem {
    let guard = Expr::Binary(BinOp::Eq, Box::new(ident("state")), Box::new(ident(from)));
    let next = Expr::Binary(BinOp::Eq, Box::new(ident("state_next")), Box::new(ident(to)));
    let eff = Expr::Binary(BinOp::Eq, Box::new(ident("effects")), Box::new(Expr::SeqLit(vec![])));
    let both = Expr::Binary(BinOp::And, Box::new(next), Box::new(eff));
    BodyItem::Constraint(Expr::Binary(BinOp::Implies, Box::new(guard), Box::new(both)))
}

/// The loaded form of
/// `fsm main / state ∈ S / state = Init ⇒ (…) / state = Done ⇒ (…)`,
/// with the slots the body references declared.
fn main_program(with_last_results: bool) -> Program {
    let mut body = vec![member("state", "S"), transition("Init", "Done"), transition("Done", "Done")];
    body.push(member("state_next", "S"));
    body.push(member("effects", "Seq(Effect)"));
    if with_last_results {
        body.push(member("last_results", "Seq(Result)"));
    }
    Program { schemas: vec![schema(Keyword::Fsm, "main", body)], enums: vec![enum_s()] }
}

#[test]
fn detect_main_shape_finds_state_and_lists() {
    let rt = main_program(true);
    let shape = detect_main_shape(&rt).expect("should detect");
    assert_eq!(shape.state_var.as_deref(), Some("state"));
    assert_eq!(shape.state_next_var.as_deref(), Some("state_next"));
    assert_eq!(shape.state_type.as_deref(), Some("S"));
    assert_eq!(shape.effects_var.as_deref(), Some("effects"));
    assert_eq!(shape.last_results_var.as_deref(), Some("last_results"));
}

#[test]
fn smart_inject_skips_unreferenced_slots() {
    let rt = main_program(false);
    let shape = detect_main_shape(&rt).expect("should detect");
    assert_eq!(shape.state_var.as_deref(), Some("state"));
    assert_eq!(shape.state_next_var.as_deref(), Some("state_next"));
    assert_eq!(shape.effects_var.as_deref(), Some("effects"));
    assert_eq!(shape.last_results_var, None, "last_results never referenced → should not be auto-injected");
}

#[test]
fn passthrough_members_count_toward_the_shape() {
    let world = schema(Keyword::Type, "World", vec![member("score", "Int")]);
    let shared = schema(Keyword::Claim, "Slots", vec![member("world", "World"), member("world_next", "World")]);
    let body = vec![
        member("mode", "S"),
        member("mode_next", "S"),
        BodyItem::Passthrough { name: "Slots".into(), renames: vec![] },
        BodyItem::Passthrough { name: "Slots".into(), renames: vec![] },
    ];
    let rt = Program { schemas: vec![schema(Keyword::Fsm, "game", body), shared, world], enums: vec![enum_s()] };
    let shape = resolve_fsm(&rt, "game").unwrap();
    assert_eq!(shape.state_var.as_deref(), Some("mode"));
    assert_eq!(shape.world_var.as_deref(), Some("world"));
    assert_eq!(shape.world_next_var.as_deref(), Some("world_next"));
    assert_eq!(shape.world_type.as_deref(), Some("World"));
    assert!(detect_main_shape(&rt).is_none());
}

#[test]
fn install_params_are_recorded() {
    let window = schema(
        Keyword::Type,
        "Window",
        vec![member("title", "String"), member("install", "Seq(InstallStep)")],
    );
    let body = vec![member("win", "Window"), member("state", "S"), member("state_next", "S")];
    let rt = Program { schemas: vec![schema(Keyword::Fsm, "main", body), window], enums: vec![enum_s()] };
    let shape = detect_main_shape(&rt).unwrap();
    assert_eq!(shape.install_params, vec![("win".to_string(), "Window".to_string(), Pins::Empty)]);
    assert_eq!(shape.state_var.as_deref(), Some("state"));
}

#[test]
fn single_fsm_counts_fsms() {
    let none = Program { schemas: vec![schema(Keyword::Claim, "c", vec![])], enums: vec![] };
    assert_eq!(
        single_fsm(&none).unwrap_err(),
        "no fsm schemas found (declare one with the `fsm` keyword)"
    );
    let two = Program {
        schemas: vec![
            schema(Keyword::Fsm, "a", vec![]),
            schema(Keyword::Fsm, "sat_probe", vec![]),
            schema(Keyword::Fsm, "b", vec![]),
        ],
        enums: vec![],
    };
    assert_eq!(
        single_fsm(&two).unwrap_err(),
        "2 fsm-shaped claims found ([a, b]) but exactly one is allowed (one FSM per program)"
    );
    let one = main_program(true);
    assert_eq!(single_fsm(&one).unwrap().claim_name, "main");
}

#[test]
fn loop_opts_default_max_steps() {
    assert_eq!(LoopOpts::default().max_steps, 10_000);
}

fn counter(keyword: Keyword, body: Vec<BodyItem>) -> Program {
    Program { schemas: vec![schema(keyword, "Count", body)], enums: vec![] }
}

#[test]
fn run_target_shapes() {
    let good = counter(Keyword::Fsm, vec![member("n", "Int"), member("n_next", "Int"), member("halt", "Bool")]);
    assert_eq!(validate_run_target(&good, "Count"), Ok(()));
    assert_eq!(validate_run_target(&good, "Nope"), Err(RunError::UnknownFsm("Nope".into())));
    let claim = counter(Keyword::Claim, vec![]);
    assert_eq!(
        validate_run_target(&claim, "Count"),
        Err(RunError::NotFsm { fsm: "Count".into(), keyword: "claim".into() })
    );
    let no_pair = counter(Keyword::Fsm, vec![member("halt", "Bool")]);
    assert_eq!(validate_run_target(&no_pair, "Count"), Err(RunError::NoStatePair("Count".into())));
    let two = counter(
        Keyword::Fsm,
        vec![member("a", "Int"), member("a_next", "Int"), member("b", "S"), member("b_next", "S")],
    );
    assert_eq!(validate_run_target(&two, "Count"), Err(RunError::MultipleStatePairs("Count".into(), 2)));
    let no_halt = counter(Keyword::Fsm, vec![member("n", "Int"), member("n_next", "Int")]);
    assert_eq!(validate_run_target(&no_halt, "Count"), Err(RunError::NoHaltVar("Count".into())));
    let mut ext = counter(Keyword::Fsm, vec![]);
    ext.schemas[0].external = true;
    assert_eq!(validate_run_target(&ext, "Count"), Err(RunError::ExternalNative("Count".into())));
    // Mismatched types do not make a pair.
    let mixed = counter(Keyword::Fsm, vec![member("n", "Int"), member("n_next", "Bool"), member("halt", "Bool")]);
    assert_eq!(validate_run_target(&mixed, "Count"), Err(RunError::NoStatePair("Count".into())));
}

#[test]
fn enum_declarations_are_found() {
    let rt = Program {
        schemas: vec![],
        enums: vec![EnumDecl {
            name: "Opt".into(),
            variants: vec![VariantDecl {
                name: "Some".into(),
                fields: vec![FieldDecl { name: "v".into(), ty: "Int".into() }],
            }],
        }],
    };
    assert_eq!(rt.get_enum(&"Opt".to_string()).unwrap().variants.len(), 1);
    assert!(rt.get_enum(&"Nope".to_string()).is_none());
}
