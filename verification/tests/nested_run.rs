use evident_runtime::ast::{BodyItem, Keyword, Pins, SchemaDecl};
use evident_runtime::codec::Effect;
use evident_runtime::nested::RunError;
use evident_runtime::nested_run::NestedRun;
use evident_runtime::program::Program;
use evident_runtime::value::Value;

fn member(name: &str, ty: &str) -> BodyItem {
    BodyItem::Membership { name: name.into(), ty: ty.into(), pins: Pins::Empty }
}

fn program(with_effects: bool) -> Program {
    let mut body = vec![member("n", "Int"), member("n_next", "Int"), member("halt", "Bool")];
    if with_effects {
        body.push(member("effects", "Seq(Effect)"));
    }
    let s = SchemaDecl {
        keyword: Keyword::Fsm,
        name: "Count".into(),
        type_params: vec![],
        param_count: 0,
        external: false,
        body,
        operators: vec![],
    };
    Program { schemas: vec![s], enums: vec![] }
}

fn print(s: &str) -> Value {
    Value::Enum { enum_name: "Effect".into(), variant: "Print".into(), fields: vec![Value::Str(s.into())] }
}

fn model(halt: bool, next: i64, effects: Vec<Value>) -> Vec<(String, Value)> {
    vec![
        ("halt".to_string(), Value::Bool(halt)),
        ("n_next".to_string(), Value::Int(next)),
        ("effects".to_string(), Value::SeqEnum(effects)),
    ]
}

#[test]
fn run_advances_until_halt_and_keeps_earlier_effects() {
    let rt = program(true);
    let mut run = NestedRun::start(&rt, "Count", &Value::Int(0), 10).unwrap();
    assert_eq!(run.given(), vec![("n".to_string(), Value::Int(0))]);
    assert_eq!(run.advance(&rt, &model(false, 1, vec![print("a")]), 0), Ok(false));
    assert_eq!(run.current, Value::Int(1));
    assert_eq!(run.advance(&rt, &model(false, 2, vec![print("b")]), 0), Ok(false));
    assert_eq!(run.advance(&rt, &model(true, 3, vec![print("c")]), 0), Ok(true));
    assert_eq!(run.current, Value::Int(2));
    assert_eq!(run.captured, vec![Effect::Print("a".into()), Effect::Print("b".into())]);
    assert_eq!(run.step, 2);
}

#[test]
fn run_reports_missing_and_bad_bindings() {
    let rt = program(false);
    let mut run = NestedRun::start(&rt, "Count", &Value::Int(0), 10).unwrap();
    assert_eq!(
        run.advance(&rt, &vec![], 0),
        Err(RunError::MissingBinding { fsm: "Count".into(), name: "halt".into(), step: 0 })
    );
    assert_eq!(
        run.advance(&rt, &vec![("halt".to_string(), Value::Int(1))], 0),
        Err(RunError::HaltNotBool { fsm: "Count".into(), step: 0, got: Value::Int(1) })
    );
    assert_eq!(
        run.advance(&rt, &vec![("halt".to_string(), Value::Bool(false))], 0),
        Err(RunError::MissingBinding { fsm: "Count".into(), name: "n_next".into(), step: 0 })
    );
    assert_eq!(run.unsat(), RunError::Unsat { fsm: "Count".into(), step: 0 });
    assert_eq!(run.query_failed("boom"), RunError::Internal("run(Count, ..) step 0: boom".into()));
}

#[test]
fn run_start_checks_target_and_init() {
    let rt = program(false);
    assert_eq!(NestedRun::start(&rt, "Nope", &Value::Int(0), 1).err(), Some(RunError::UnknownFsm("Nope".into())));
    assert_eq!(
        NestedRun::start(&rt, "Count", &Value::Bool(true), 1).err(),
        Some(RunError::BadInit { fsm: "Count".into(), ty: "Int".into(), got: Value::Bool(true) })
    );
    let run = NestedRun::start(&rt, "Count", &Value::Int(4), 1).unwrap();
    assert!(!run.exhausted());
    assert_eq!(run.out_of_steps(), RunError::MaxItersExceeded { fsm: "Count".into(), max_steps: 1 });
}

#[test]
fn run_error_messages_name_the_fsm() {
    assert_eq!(RunError::UnknownFsm("X".into()).message(""), "run: first argument `X` doesn't name a known schema");
    assert_eq!(
        RunError::MissingBinding { fsm: "C".into(), name: "halt".into(), step: 3 }.message(""),
        "run(C, ..): step 3 model has no `halt` binding"
    );
    assert_eq!(
        RunError::MultipleStatePairs("C".into(), 2).message(""),
        "run(C, ..): FSM has 2 state pairs; v1 supports exactly one"
    );
    assert_eq!(
        RunError::BadInit { fsm: "C".into(), ty: "Int".into(), got: Value::Bool(true) }.message("true"),
        "run(C, ..): can't seed state of type `Int` from init value true"
    );
    assert_eq!(RunError::Internal("x".into()).message(""), "run: internal: x");
}
