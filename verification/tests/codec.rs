use evident_runtime::codec::{
    decode_arg_list, decode_effect, decode_effect_list, decode_ffi_arg, decode_install_step,
    decode_install_step_list, decode_int_list, decode_packed_field, decode_packed_field_list, decode_result,
    decode_str_list, effect_results_to_value, DecodeError, Effect, EffectFfiArg, EffectResult, InstallStep,
    PackedField,
};
use evident_runtime::value::{RealNum, Value};

fn en(enum_name: &str, variant: &str, fields: Vec<Value>) -> Value {
    Value::Enum { enum_name: enum_name.into(), variant: variant.into(), fields }
}

fn s(x: &str) -> Value {
    Value::Str(x.into())
}

#[test]
fn decodes_print_and_exit() {
    assert_eq!(decode_effect(&en("Effect", "Println", vec![s("hi")])), Ok(Effect::Println("hi".into())));
    assert_eq!(decode_effect(&en("Effect", "Exit", vec![Value::Int(3)])), Ok(Effect::Exit(3)));
    assert_eq!(decode_effect(&en("Effect", "NoEffect", vec![])), Ok(Effect::NoEffect));
}

#[test]
fn decodes_handles_as_unsigned() {
    assert_eq!(
        decode_effect(&en("Effect", "FFILookup", vec![Value::Int(-1), s("f")])),
        Ok(Effect::FFILookup(u64::MAX, "f".into()))
    );
    assert_eq!(
        decode_effect(&en("Effect", "WriteI32", vec![Value::Int(4), Value::Int(8), Value::Int(-2)])),
        Ok(Effect::WriteI32(4, 8, -2))
    );
}

#[test]
fn decodes_reals_from_ints_and_bits() {
    assert_eq!(
        decode_effect(&en("Effect", "WriteF64", vec![Value::Int(1), Value::Int(0), Value::Int(7)])),
        Ok(Effect::WriteF64(1, 0, RealNum::Int(7)))
    );
    let bits = 1.5f64.to_bits();
    assert_eq!(
        decode_effect(&en("Effect", "WriteF32", vec![Value::Int(1), Value::Int(0), Value::Real(RealNum::Bits(bits))])),
        Ok(Effect::WriteF32(1, 0, RealNum::Bits(bits)))
    );
}

#[test]
fn decodes_ffi_call_with_args() {
    let args = Value::SeqEnum(vec![
        en("FFIArg", "ArgInt", vec![Value::Int(5)]),
        en("FFIArg", "ArgStrArr", vec![Value::SeqStr(vec!["a".into(), "b".into()])]),
        en("FFIArg", "ArgIntOut", vec![]),
        en("FFIArg", "ArgI32Buf", vec![Value::SeqInt(vec![1, 4294967297])]),
    ]);
    let v = en("Effect", "FFICall", vec![Value::Int(2), s("fn"), args]);
    assert_eq!(
        decode_effect(&v),
        Ok(Effect::FFICall(
            2,
            "fn".into(),
            vec![
                EffectFfiArg::Int(5),
                EffectFfiArg::StrArr(vec!["a".into(), "b".into()]),
                EffectFfiArg::IntOut,
                EffectFfiArg::I32Buf(vec![1, 1]),
            ]
        ))
    );
}

#[test]
fn decodes_packed_field_lists() {
    let nil = en("PackedFieldList", "PfNil", vec![]);
    let cell = |h: Value, t: Value| en("PackedFieldList", "PfCons", vec![h, t]);
    let list = cell(
        en("PackedField", "PfU8", vec![Value::Int(300)]),
        cell(en("PackedField", "PfF32", vec![Value::Int(2)]), nil),
    );
    assert_eq!(
        decode_packed_field_list(&list),
        Ok(vec![PackedField::U8(44), PackedField::F32(RealNum::Int(2))])
    );
    assert_eq!(
        decode_packed_field(&en("PackedField", "PfI32", vec![Value::Int(-5)])),
        Ok(PackedField::I32(-5))
    );
}

#[test]
fn error_variants() {
    assert_eq!(decode_effect(&Value::Int(1)), Err(DecodeError::NotEnum { got: Value::Int(1) }));
    assert_eq!(
        decode_effect(&en("Other", "Print", vec![])),
        Err(DecodeError::WrongEnum { expected: "Effect".into(), got: "Other".into() })
    );
    assert_eq!(
        decode_effect(&en("Effect", "Teleport", vec![])),
        Err(DecodeError::UnknownVariant { enum_name: "Effect".into(), variant: "Teleport".into() })
    );
    assert_eq!(
        decode_effect(&en("Effect", "Print", vec![])),
        Err(DecodeError::WrongArity { variant: "Print".into(), expected: 1, got: 0 })
    );
    assert_eq!(
        decode_effect(&en("Effect", "Print", vec![Value::Int(1)])),
        Err(DecodeError::NotPrimitive { expected: "Str".into(), got: Value::Int(1) })
    );
    assert_eq!(
        decode_effect_list(&Value::Int(0)),
        Err(DecodeError::FieldKind { what: "effects".into(), want: "Seq(Effect)".into(), got: Value::Int(0) })
    );
    assert_eq!(
        decode_str_list(&Value::Bool(true)),
        Err(DecodeError::FieldKind {
            what: "ArgStrArr payload".into(),
            want: "Seq(String)".into(),
            got: Value::Bool(true)
        })
    );
    assert!(matches!(decode_int_list(&s("x")), Err(DecodeError::FieldKind { .. })));
    assert!(matches!(decode_arg_list(&s("x")), Err(DecodeError::FieldKind { .. })));
    assert_eq!(
        decode_ffi_arg(&en("FFIArg", "ArgBool", vec![s("no")])),
        Err(DecodeError::NotPrimitive { expected: "Bool".into(), got: s("no") })
    );
}

#[test]
fn effect_list_stops_at_first_error() {
    let v = Value::SeqEnum(vec![
        en("Effect", "Print", vec![s("a")]),
        en("Effect", "Bogus", vec![]),
        en("Effect", "Exit", vec![s("not an int")]),
    ]);
    assert_eq!(
        decode_effect_list(&v),
        Err(DecodeError::UnknownVariant { enum_name: "Effect".into(), variant: "Bogus".into() })
    );
    let ok = Value::SeqEnum(vec![en("Effect", "Print", vec![s("a")]), en("Effect", "Malloc", vec![Value::Int(8)])]);
    assert_eq!(decode_effect_list(&ok), Ok(vec![Effect::Print("a".into()), Effect::Malloc(8)]));
}

#[test]
fn decodes_install_steps() {
    let run = en("InstallStep", "Run", vec![en("Effect", "FFIOpen", vec![s("libm.so")])]);
    let bind = en("InstallStep", "Bind", vec![s("h"), en("Effect", "Malloc", vec![Value::Int(4)])]);
    assert_eq!(
        decode_install_step(&bind),
        Ok(InstallStep { field: Some("h".into()), effect: Effect::Malloc(4) })
    );
    assert_eq!(
        decode_install_step_list(&Value::SeqEnum(vec![run, bind])),
        Ok(vec![
            InstallStep { field: None, effect: Effect::FFIOpen("libm.so".into()) },
            InstallStep { field: Some("h".into()), effect: Effect::Malloc(4) },
        ])
    );
}

#[test]
fn results_roundtrip_through_values() {
    let results = vec![
        EffectResult::NoResult,
        EffectResult::Int(-4),
        EffectResult::Str("ok".into()),
        EffectResult::Bool(true),
        EffectResult::Real(RealNum::Bits(2.5f64.to_bits())),
        EffectResult::Handle(u64::MAX),
        EffectResult::Error("bad".into()),
    ];
    let v = effect_results_to_value(&results);
    let Value::SeqEnum(items) = &v else { panic!("expected a sequence of enums") };
    assert_eq!(items[5], en("Result", "HandleResult", vec![Value::Int(-1)]));
    for (item, r) in items.iter().zip(results.iter()) {
        assert_eq!(&decode_result(item).unwrap(), r);
    }
}

#[test]
fn decode_error_messages_name_the_problem() {
    assert_eq!(
        DecodeError::WrongArity { variant: "Print".into(), expected: 1, got: 2 }.message(""),
        "variant `Print`: expected 1 fields, got 2"
    );
    assert_eq!(
        DecodeError::WrongEnum { expected: "Effect".into(), got: "Color".into() }.message(""),
        "expected enum `Effect`; got `Color`"
    );
    assert_eq!(
        DecodeError::NotPrimitive { expected: "Int".into(), got: Value::Bool(true) }.message("true"),
        "expected primitive `Int`; got true"
    );
    assert_eq!(
        DecodeError::UnknownVariant { enum_name: "Effect".into(), variant: "Nope".into() }.message(""),
        "no decoder for variant `Nope` of enum `Effect`"
    );
}
