use evident_runtime::ast::{Expr, Mapping, Pins};
use evident_runtime::codec::{Effect, EffectResult, InstallStep};
use evident_runtime::plugins::{
    file_line_target, file_watch_target, install_writes, pins_given, reflection_field, sigint_writes,
    SchedulerEvent, WorldPluginCtx,
};
use evident_runtime::value::Value;

fn ctx(fields: &[(&str, &str)], subs: &[&str]) -> WorldPluginCtx {
    WorldPluginCtx {
        world_fields: fields.iter().map(|(a, b)| (a.to_string(), b.to_string())).collect(),
        fsm_event_subscriptions: subs.iter().map(|s| s.to_string()).collect(),
        env_tick_ms: None,
        env_clock_ms: 100,
        env_file_watch: None,
        env_file_watch_ms: 200,
        env_file_input: None,
    }
}

#[test]
fn world_field_needs_matching_type() {
    let c = ctx(&[("tick_count", "Int"), ("name", "String")], &[]);
    assert!(c.has_world_field("tick_count", "Int"));
    assert!(!c.has_world_field("tick_count", "String"));
    assert!(!c.has_world_field("missing", "Int"));
}

#[test]
fn sigint_installs_on_counter_field_or_subscription() {
    assert_eq!(sigint_writes(&ctx(&[], &[])), None);
    assert_eq!(sigint_writes(&ctx(&[("signal_received", "Int")], &[])), Some(vec!["signal_received".to_string()]));
    assert_eq!(sigint_writes(&ctx(&[], &["tick", "signal"])), Some(vec![]));
    assert_eq!(sigint_writes(&ctx(&[("signal_received", "Bool")], &[])), None);
}

#[test]
fn file_watcher_needs_field_and_path() {
    let mut c = ctx(&[("file_changed", "Int")], &[]);
    assert_eq!(file_watch_target(&c), None);
    c.env_file_watch = Some("/tmp/x".to_string());
    assert_eq!(file_watch_target(&c), Some(("/tmp/x".to_string(), 200)));
    let mut d = ctx(&[], &[]);
    d.env_file_watch = Some("/tmp/x".to_string());
    assert_eq!(file_watch_target(&d), None);
}

#[test]
fn line_reader_collects_optional_fields() {
    let mut c = ctx(&[("file_line", "String"), ("file_eof", "Bool"), ("file_seq", "Int")], &[]);
    assert_eq!(file_line_target(&c), None);
    c.env_file_input = Some("in.txt".to_string());
    assert_eq!(
        file_line_target(&c),
        Some((
            "in.txt".to_string(),
            vec!["file_line".to_string(), "file_seq".to_string(), "file_eof".to_string()]
        ))
    );
    let mut d = ctx(&[("file_line", "String")], &[]);
    d.env_file_input = Some("in.txt".to_string());
    assert_eq!(file_line_target(&d), Some(("in.txt".to_string(), vec!["file_line".to_string()])));
}

#[test]
fn reflection_takes_the_single_program_field() {
    assert_eq!(reflection_field(&ctx(&[("x", "Int")], &[])), Ok(None));
    assert_eq!(reflection_field(&ctx(&[("x", "Int"), ("prog", "Program")], &[])), Ok(Some("prog".to_string())));
    assert_eq!(
        reflection_field(&ctx(&[("a", "Program"), ("x", "Int"), ("b", "Program")], &[])),
        Err("reflection plugin: world declares multiple `Program` fields (a, b); only one Program field per world is supported. Drop the redundant fields or rename one to a different type.".to_string())
    );
}

#[test]
fn scheduler_events_carry_names() {
    let e = SchedulerEvent::Tick { name: "timer".to_string() };
    match e.clone() {
        SchedulerEvent::Tick { name } => assert_eq!(name, "timer"),
        SchedulerEvent::Closed { .. } => panic!("wrong variant"),
    }
}

#[test]
fn pins_become_given_values_last_wins() {
    let pins = Pins::Named(vec![
        Mapping { slot: "w".to_string(), value: Expr::Int(640) },
        Mapping { slot: "title".to_string(), value: Expr::Str("X".to_string()) },
        Mapping { slot: "v".to_string(), value: Expr::Identifier("y".to_string()) },
        Mapping { slot: "w".to_string(), value: Expr::Int(800) },
        Mapping { slot: "on".to_string(), value: Expr::Bool(true) },
    ]);
    let g = pins_given(&pins);
    assert_eq!(
        g,
        vec![
            ("w".to_string(), Value::Int(800)),
            ("title".to_string(), Value::Str("X".to_string())),
            ("on".to_string(), Value::Bool(true)),
        ]
    );
    assert!(pins_given(&Pins::Empty).is_empty());
}

#[test]
fn install_binds_results_under_instance_keys() {
    let steps = vec![
        InstallStep { field: Some("window".to_string()), effect: Effect::Malloc(8) },
        InstallStep { field: None, effect: Effect::Malloc(1) },
        InstallStep { field: Some("renderer".to_string()), effect: Effect::Malloc(2) },
        InstallStep { field: Some("nothing".to_string()), effect: Effect::Malloc(3) },
    ];
    let results = vec![
        EffectResult::Handle(7),
        EffectResult::Error("ignored".to_string()),
        EffectResult::Int(-3),
        EffectResult::NoResult,
    ];
    let w = install_writes("main", "win", &steps, &results).unwrap();
    assert_eq!(
        w,
        vec![
            ("main.win.window".to_string(), Value::Int(7)),
            ("main.win.renderer".to_string(), Value::Int(-3)),
        ]
    );
}

#[test]
fn install_fails_on_bound_error() {
    let steps = vec![
        InstallStep { field: Some("a".to_string()), effect: Effect::Malloc(8) },
        InstallStep { field: Some("b".to_string()), effect: Effect::Malloc(8) },
    ];
    let results = vec![EffectResult::Int(1), EffectResult::Error("boom".to_string())];
    assert_eq!(
        install_writes("m", "p", &steps, &results),
        Err("declarative install: step `Bind(b, …)` returned Error: boom".to_string())
    );
}

#[test]
fn install_pairs_up_to_the_shorter_list() {
    let steps = vec![
        InstallStep { field: Some("a".to_string()), effect: Effect::Malloc(8) },
        InstallStep { field: Some("b".to_string()), effect: Effect::Malloc(8) },
    ];
    let results = vec![EffectResult::Bool(true)];
    assert_eq!(
        install_writes("m", "p", &steps, &results),
        Ok(vec![("m.p.a".to_string(), Value::Bool(true))])
    );
}
