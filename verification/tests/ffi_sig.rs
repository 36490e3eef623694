use evident_runtime::ffi_sig::{is_shimmed_stdlib, parse_signature, plan_ffi_call, FfiArgKind, FfiError, ParsedSig, TypeCode};

#[test]
fn signature_with_pointer_and_string_args() {
    let p = parse_signature("i(ps)").unwrap();
    assert_eq!(p.ret, TypeCode::I);
    assert_eq!(p.args, vec![TypeCode::P, TypeCode::S]);
}

#[test]
fn void_return_with_no_args() {
    let p = parse_signature("v()").unwrap();
    assert_eq!(p.ret, TypeCode::V);
    assert!(p.args.is_empty());
}

#[test]
fn all_codes_parse() {
    let p = parse_signature("d(ibsdfp)").unwrap();
    assert_eq!(p.ret, TypeCode::D);
    assert_eq!(
        p.args,
        vec![TypeCode::I, TypeCode::B, TypeCode::S, TypeCode::D, TypeCode::F, TypeCode::P]
    );
}

#[test]
fn too_short_signature_is_refused() {
    let e = parse_signature("i(").unwrap_err();
    assert_eq!(e.message(), "ffi error: signature \"i(\" too short");
}

#[test]
fn unknown_return_code_is_refused() {
    let e = parse_signature("x(i)").unwrap_err();
    assert_eq!(e.0, "unknown type code 'x'");
}

#[test]
fn unknown_quote_code_is_escaped() {
    let e = parse_signature("'(i)").unwrap_err();
    assert_eq!(e.0, "unknown type code '\\''");
}

#[test]
fn missing_open_bracket_is_refused() {
    let e = parse_signature("ii)").unwrap_err();
    assert_eq!(e.0, "signature \"ii)\" missing `(` after return type");
}

#[test]
fn missing_close_bracket_is_refused() {
    let e = parse_signature("i(ii").unwrap_err();
    assert_eq!(e.0, "signature \"i(ii\" missing trailing `)`");
}

#[test]
fn void_argument_is_refused() {
    let e = parse_signature("i(iv)").unwrap_err();
    assert_eq!(e.0, "signature \"i(iv)\": void only valid as return type");
}

#[test]
fn first_bad_argument_decides_the_error() {
    let e = parse_signature("i(qv)").unwrap_err();
    assert_eq!(e.0, "unknown type code 'q'");
    let e = parse_signature("i(vq)").unwrap_err();
    assert_eq!(e.0, "signature \"i(vq)\": void only valid as return type");
}

#[test]
fn non_ascii_byte_is_named_as_a_char() {
    let e = parse_signature("é()").unwrap_err();
    assert_eq!(e.0, "unknown type code 'Ã'");
}

#[test]
fn type_code_parse_single_chars() {
    assert_eq!(TypeCode::parse('f').unwrap(), TypeCode::F);
    assert_eq!(TypeCode::parse('\n').unwrap_err().0, "unknown type code '\\n'");
}

#[test]
fn ffi_error_message_prefix() {
    assert_eq!(FfiError("boom".to_string()).message(), "ffi error: boom");
}

#[test]
fn shimmed_paths() {
    assert!(is_shimmed_stdlib("packages/sdl.ev"));
    assert!(is_shimmed_stdlib("stdlib/io.ev"));
    assert!(!is_shimmed_stdlib("stdlib/ast.ev"));
    assert!(!is_shimmed_stdlib("stdlib/io.ev "));
}

#[test]
fn plan_accepts_matching_args() {
    let reg = vec![7u64, 9];
    let args = vec![FfiArgKind::Int(3), FfiArgKind::Str("hi".into()), FfiArgKind::Handle(0), FfiArgKind::Real("1.5".into())];
    let p = plan_ffi_call(7, "i(ispd)", &args, &reg).unwrap();
    assert_eq!(p.ret, TypeCode::I);
    assert_eq!(p.args, vec![TypeCode::I, TypeCode::S, TypeCode::P, TypeCode::D]);
    let p = plan_ffi_call(9, "v(p)", &vec![FfiArgKind::IntOut], &reg).unwrap();
    assert_eq!(p.ret, TypeCode::V);
}

#[test]
fn plan_refuses_with_first_failing_check() {
    let reg = vec![7u64];
    let msg = |r: Result<ParsedSig, FfiError>| r.err().unwrap().0;
    assert_eq!(msg(plan_ffi_call(7, "i(ii)", &vec![FfiArgKind::Int(1)], &reg)), "signature \"i(ii)\" expects 2 args; got 1");
    assert_eq!(msg(plan_ffi_call(8, "i(i)", &vec![FfiArgKind::Int(1)], &reg)), "unknown handle 8");
    assert_eq!(
        msg(plan_ffi_call(7, "i(i)", &vec![FfiArgKind::Bool(true)], &reg)),
        "arg 0: type mismatch — value is Bool(true), signature says I"
    );
    assert_eq!(
        msg(plan_ffi_call(7, "i(is)", &vec![FfiArgKind::Int(1), FfiArgKind::Str("a\0b".into())], &reg)),
        "arg 1: string contains null byte"
    );
    assert_eq!(
        msg(plan_ffi_call(7, "i(p)", &vec![FfiArgKind::StrArr(vec!["ok".into(), "x\0".into()])], &reg)),
        "arg 0, string 1: contains null byte"
    );
    assert_eq!(msg(plan_ffi_call(7, "i(p)", &vec![FfiArgKind::Handle(5)], &reg)), "unknown handle 5");
    assert_eq!(
        msg(plan_ffi_call(7, "v(pp)", &vec![FfiArgKind::IntOut, FfiArgKind::IntOut], &reg)),
        "this call has 2 ArgIntOut slots; only 1 is supported per call"
    );
    assert!(msg(plan_ffi_call(7, "i(p)", &vec![FfiArgKind::IntOut], &reg)).starts_with("ArgIntOut requires a void-returning function"));
    assert_eq!(
        msg(plan_ffi_call(7, "i(s)", &vec![FfiArgKind::I32Buf(vec![1, -2])], &reg)),
        "arg 0: type mismatch — value is I32Buf([1, -2]), signature says S"
    );
}
