use evident_runtime::ast::{BodyItem, Keyword, Pins, SchemaDecl};
use evident_runtime::codec::{Effect, EffectResult};
use evident_runtime::fsm::{LoopResult, MainShape};
use evident_runtime::program::{EnumDecl, FieldDecl, Program, VariantDecl};
use evident_runtime::tick::TickLoop;
use evident_runtime::value::{RealNum, Value};

fn member(name: &str, ty: &str) -> BodyItem {
    BodyItem::Membership { name: name.into(), ty: ty.into(), pins: Pins::Empty }
}

fn schema(name: &str, body: Vec<BodyItem>) -> SchemaDecl {
    SchemaDecl {
        keyword: Keyword::Fsm,
        name: name.into(),
        type_params: vec![],
        param_count: 0,
        external: false,
        body,
        operators: vec![],
    }
}

fn variant(name: &str, fields: &[&str]) -> VariantDecl {
    VariantDecl {
        name: name.into(),
        fields: fields.iter().map(|t| FieldDecl { name: "x".into(), ty: (*t).into() }).collect(),
    }
}

fn program() -> Program {
    let main = schema(
        "Main",
        vec![
            member("state", "Phase"),
            member("state_next", "Phase"),
            member("world", "World"),
            member("world_next", "World"),
            member("_count", "Int"),
            member("count", "Int"),
            member("effects", "Seq(Effect)"),
            member("last_results", "Seq(Result)"),
        ],
    );
    let world = schema(
        "World",
        vec![member("n", "Int"), member("ok", "Bool"), member("name", "String"), member("x", "Real"), member("p", "Point")],
    );
    let phase = EnumDecl { name: "Phase".into(), variants: vec![variant("Init", &[]), variant("Done", &[])] };
    Program { schemas: vec![main, world], enums: vec![phase] }
}

fn shape() -> MainShape {
    MainShape {
        claim_name: "Main".into(),
        state_var: Some("state".into()),
        state_next_var: Some("state_next".into()),
        state_type: Some("Phase".into()),
        last_results_var: Some("last_results".into()),
        effects_var: Some("effects".into()),
        world_var: Some("world".into()),
        world_next_var: Some("world_next".into()),
        world_type: Some("World".into()),
        install_params: vec![],
    }
}

fn phase(v: &str) -> Value {
    Value::Enum { enum_name: "Phase".into(), variant: v.into(), fields: vec![] }
}

fn print(s: &str) -> Value {
    Value::Enum { enum_name: "Effect".into(), variant: "Print".into(), fields: vec![Value::Str(s.into())] }
}

fn lookup<'a>(env: &'a [(String, Value)], k: &str) -> Option<&'a Value> {
    env.iter().find(|(key, _)| key == k).map(|(_, v)| v)
}

#[test]
fn tick_loop_starts_in_first_variant_with_world_defaults() {
    let rt = program();
    let t = TickLoop::new(&rt, &shape(), 5, vec![("world.n".to_string(), Value::Int(7))]);
    assert_eq!(t.current_state, Some(phase("Init")));
    assert_eq!(
        t.world,
        vec![
            ("world.n".to_string(), Value::Int(7)),
            ("world.ok".to_string(), Value::Bool(false)),
            ("world.name".to_string(), Value::Str(String::new())),
            ("world.x".to_string(), Value::Real(RealNum::Bits(0))),
        ]
    );
    assert_eq!(t.steps, 0);
    assert!(t.active);
    assert!(!t.exhausted());
}

#[test]
fn tick_loop_seed_needs_a_nullary_first_variant() {
    let mut rt = program();
    rt.enums[0].variants[0] = variant("Init", &["Int"]);
    let t = TickLoop::new(&rt, &shape(), 5, vec![]);
    assert_eq!(t.current_state, None);
}

#[test]
fn tick_loop_first_view_pins_first_tick() {
    let rt = program();
    let t = TickLoop::new(&rt, &shape(), 5, vec![]);
    let v = t.solve_view(&rt, &shape());
    assert_eq!(lookup(&v, "is_first_tick"), Some(&Value::Bool(true)));
    assert_eq!(lookup(&v, "state"), Some(&phase("Init")));
    assert_eq!(lookup(&v, "last_results"), Some(&Value::SeqEnum(vec![])));
    assert_eq!(lookup(&v, "world.n"), Some(&Value::Int(0)));
    assert_eq!(lookup(&v, "_count"), None);
}

#[test]
fn tick_loop_runs_to_exit() {
    let rt = program();
    let sh = shape();
    let mut t = TickLoop::new(&rt, &sh, 5, vec![]);
    let model = vec![
        ("state_next".to_string(), phase("Done")),
        ("count".to_string(), Value::Int(3)),
        ("_count".to_string(), Value::Int(0)),
        ("is_first_tick".to_string(), Value::Bool(true)),
        ("world_next.n".to_string(), Value::Int(1)),
        ("effects".to_string(), Value::SeqEnum(vec![print("hi")])),
    ];
    let effects = t.after_solve(&rt, &sh, &model, 0).unwrap();
    assert_eq!(effects, vec![Effect::Print("hi".into())]);
    assert_eq!(t.current_state, Some(phase("Done")));
    assert_eq!(lookup(&t.world, "world.n"), Some(&Value::Int(1)));
    assert_eq!(lookup(&t.prev_values, "count"), Some(&Value::Int(3)));
    assert_eq!(lookup(&t.prev_values, "_count"), None);
    assert_eq!(lookup(&t.prev_values, "is_first_tick"), None);
    assert!(t.active);
    assert_eq!(t.after_dispatch(vec![EffectResult::NoResult], None), None);
    assert_eq!(t.steps, 1);

    let v = t.solve_view(&rt, &sh);
    assert_eq!(lookup(&v, "_count"), Some(&Value::Int(3)));
    assert_eq!(lookup(&v, "is_first_tick"), Some(&Value::Bool(false)));
    assert_eq!(lookup(&v, "state"), Some(&phase("Done")));
    assert_eq!(
        lookup(&v, "last_results"),
        Some(&Value::SeqEnum(vec![Value::Enum {
            enum_name: "Result".into(),
            variant: "NoResult".into(),
            fields: vec![]
        }]))
    );

    let model2 = vec![("state_next".to_string(), phase("Done")), ("effects".to_string(), Value::SeqEnum(vec![]))];
    let effects = t.after_solve(&rt, &sh, &model2, 0).unwrap();
    assert!(effects.is_empty());
    assert_eq!(
        t.after_dispatch(vec![], Some(3)),
        Some(LoopResult { steps: 2, final_state: Some(phase("Done")), halted_clean: true, exit_code: Some(3) })
    );
}

#[test]
fn tick_loop_stops_at_fixpoint() {
    let rt = program();
    let sh = shape();
    let mut t = TickLoop::new(&rt, &sh, 5, vec![]);
    let model = vec![
        ("state_next".to_string(), phase("Init")),
        ("world_next.n".to_string(), Value::Int(0)),
        ("effects".to_string(), Value::SeqEnum(vec![])),
    ];
    let effects = t.after_solve(&rt, &sh, &model, 0).unwrap();
    assert!(effects.is_empty());
    assert!(!t.active);
    assert_eq!(
        t.after_dispatch(vec![], None),
        Some(LoopResult { steps: 1, final_state: Some(phase("Init")), halted_clean: true, exit_code: None })
    );
}

#[test]
fn tick_loop_reports_missing_next_state() {
    let rt = program();
    let sh = shape();
    let mut t = TickLoop::new(&rt, &sh, 5, vec![]);
    assert_eq!(
        t.after_solve(&rt, &sh, &vec![], 0),
        Err("FSM `Main` step 0: model has no `state_next`".to_string())
    );
    assert_eq!(t.current_state, Some(phase("Init")));
    assert_eq!(t.query_failed(&sh, "boom"), "FSM `Main` solve step 0: boom".to_string());
    assert_eq!(
        t.unfinished(Some(1)),
        LoopResult { steps: 0, final_state: Some(phase("Init")), halted_clean: false, exit_code: Some(1) }
    );
}

#[test]
fn tick_loop_view_strips_install_keys() {
    let rt = program();
    let mut sh = shape();
    sh.install_params = vec![("win".into(), "Window".into(), Pins::Empty)];
    let t = TickLoop::new(&rt, &sh, 5, vec![("Main.win.handle".to_string(), Value::Int(9))]);
    let v = t.solve_view(&rt, &sh);
    assert_eq!(lookup(&v, "win.handle"), Some(&Value::Int(9)));
    assert_eq!(lookup(&v, "Main.win.handle"), Some(&Value::Int(9)));
}

#[test]
fn tick_loop_pins_record_fields_of_last_tick() {
    let rt = program();
    let sh = shape();
    let mut t = TickLoop::new(&rt, &sh, 5, vec![]);
    t.prev_values = vec![("count.a".to_string(), Value::Int(4)), ("other".to_string(), Value::Int(1))];
    let v = t.solve_view(&rt, &sh);
    assert_eq!(lookup(&v, "_count.a"), Some(&Value::Int(4)));
    assert_eq!(lookup(&v, "_count"), None);
    assert_eq!(lookup(&v, "is_first_tick"), Some(&Value::Bool(false)));
}

/// `fsm main` over `enum S = Init | Done`: from `Init` the solver's model
/// moves to `Done`, from `Done` it stays there, with no effects either time.
#[test]
fn halt_after_one_step_when_state_reaches_done() {
    let s_enum = EnumDecl { name: "S".into(), variants: vec![variant("Init", &[]), variant("Done", &[])] };
    let main = schema(
        "main",
        vec![member("state", "S"), member("state_next", "S"), member("effects", "Seq(Effect)")],
    );
    let rt = Program { schemas: vec![main], enums: vec![s_enum] };
    let sh = MainShape {
        claim_name: "main".into(),
        state_var: Some("state".into()),
        state_next_var: Some("state_next".into()),
        state_type: Some("S".into()),
        last_results_var: None,
        effects_var: Some("effects".into()),
        world_var: None,
        world_next_var: None,
        world_type: None,
        install_params: vec![],
    };
    let s = |v: &str| Value::Enum { enum_name: "S".into(), variant: v.into(), fields: vec![] };
    let mut t = TickLoop::new(&rt, &sh, 5, vec![]);
    let mut result = None;
    while !t.exhausted() {
        let model = vec![("state_next".to_string(), s("Done")), ("effects".to_string(), Value::SeqEnum(vec![]))];
        let effects = t.after_solve(&rt, &sh, &model, 0).unwrap();
        assert!(effects.is_empty());
        if let Some(r) = t.after_dispatch(vec![], None) {
            result = Some(r);
            break;
        }
    }
    let r = result.unwrap_or_else(|| t.unfinished(None));
    assert!(r.steps <= 5);
    assert!(r.halted_clean || r.steps == 5);
    assert_eq!(r.steps, 2);
    assert_eq!(r.final_state, Some(s("Done")));
}
