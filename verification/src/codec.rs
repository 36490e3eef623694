//! The effect codec: decoding the `Effect`, `FFIArg`, `PackedField`,
//! `InstallStep` and `Result` enum values that a solved model produces into
//! the runtime's effect types, and encoding effect results back into values.
//!
//! A real number is carried as a `RealNum` (see `value`); where a packed
//! field asks for an `f32`, the caller narrows it when packing.
use vstd::prelude::*;
use vstd::string::StringExecFns;
use crate::text::{concat_str, decimal, str_is, usize_decimal};
use crate::value::{
    RealNum, clone_i64_vec, clone_str_vec, clone_value, lemma_value_lists, str_seq_view, value_view, values_view, Value,
    ValueV,
};

verus! {

#[derive(PartialEq, Eq, Structural, Clone, Copy, Debug)]
pub enum PackedField {
    U8(u8),
    I32(i32),
    /// Narrowed to `f32` when packed.
    F32(RealNum),
}

#[derive(PartialEq, Debug)]
pub enum EffectFfiArg {
    Int(i64),
    Bool(bool),
    Str(String),
    Real(RealNum),
    Handle(u64),
    StrArr(Vec<String>),
    IntOut,
    PriorResult(usize),
    I32Buf(Vec<i32>),
    PackedBuf(Vec<PackedField>),
}

#[derive(PartialEq, Debug)]
pub enum Effect {
    NoEffect,
    Print(String),
    Println(String),
    Exit(i64),
    FFIOpen(String),
    FFILookup(u64, String),
    FFICall(u64, String, Vec<EffectFfiArg>),
    CloseHandle(u64),
    LibCall(String, String, String, Vec<EffectFfiArg>),
    ReadByte(u64, i64),
    ReadI16(u64, i64),
    ReadI32(u64, i64),
    ReadI64(u64, i64),
    ReadF32(u64, i64),
    ReadF64(u64, i64),
    ReadStr(u64, i64),
    WriteByte(u64, i64, i64),
    WriteI16(u64, i64, i64),
    WriteI32(u64, i64, i64),
    WriteI64(u64, i64, i64),
    WriteF32(u64, i64, RealNum),
    WriteF64(u64, i64, RealNum),
    WriteStr(u64, i64, String),
    Malloc(i64),
    RegisterCallback(String, String),
}

/// What an effect handed back.
#[derive(PartialEq, Debug)]
pub enum EffectResult {
    NoResult,
    Int(i64),
    Str(String),
    Bool(bool),
    Real(RealNum),
    Handle(u64),
    Error(String),
}

/// One step of a declarative install: run `effect`, binding its result to
/// `field` when there is one.
#[derive(PartialEq, Debug)]
pub struct InstallStep {
    pub field: Option<String>,
    pub effect: Effect,
}

/// Why a value does not decode. `got` holds the offending value where the
/// value itself was of the wrong kind.
#[derive(PartialEq, Debug)]
pub enum DecodeError {
    NotEnum { got: Value },
    WrongEnum { expected: String, got: String },
    UnknownVariant { enum_name: String, variant: String },
    WrongArity { variant: String, expected: usize, got: usize },
    NotPrimitive { expected: String, got: Value },
    FieldKind { what: String, want: String, got: Value },
}

// ───────────────────────────── views ─────────────────────────────

pub enum FfiArgV {
    Int(i64),
    Bool(bool),
    Str(Seq<char>),
    Real(RealNum),
    Handle(u64),
    StrArr(Seq<Seq<char>>),
    IntOut,
    PriorResult(usize),
    I32Buf(Seq<i32>),
    PackedBuf(Seq<PackedField>),
}

pub enum EffectV {
    NoEffect,
    Print(Seq<char>),
    Println(Seq<char>),
    Exit(i64),
    FFIOpen(Seq<char>),
    FFILookup(u64, Seq<char>),
    FFICall(u64, Seq<char>, Seq<FfiArgV>),
    CloseHandle(u64),
    LibCall(Seq<char>, Seq<char>, Seq<char>, Seq<FfiArgV>),
    ReadByte(u64, i64),
    ReadI16(u64, i64),
    ReadI32(u64, i64),
    ReadI64(u64, i64),
    ReadF32(u64, i64),
    ReadF64(u64, i64),
    ReadStr(u64, i64),
    WriteByte(u64, i64, i64),
    WriteI16(u64, i64, i64),
    WriteI32(u64, i64, i64),
    WriteI64(u64, i64, i64),
    WriteF32(u64, i64, RealNum),
    WriteF64(u64, i64, RealNum),
    WriteStr(u64, i64, Seq<char>),
    Malloc(i64),
    RegisterCallback(Seq<char>, Seq<char>),
}

pub enum EffectResultV {
    NoResult,
    Int(i64),
    Str(Seq<char>),
    Bool(bool),
    Real(RealNum),
    Handle(u64),
    Error(Seq<char>),
}

pub struct InstallStepV {
    pub field: Option<Seq<char>>,
    pub effect: EffectV,
}

pub enum DecodeErrorV {
    NotEnum { got: ValueV },
    WrongEnum { expected: Seq<char>, got: Seq<char> },
    UnknownVariant { enum_name: Seq<char>, variant: Seq<char> },
    WrongArity { variant: Seq<char>, expected: nat, got: nat },
    NotPrimitive { expected: Seq<char>, got: ValueV },
    FieldKind { what: Seq<char>, want: Seq<char>, got: ValueV },
}

pub open spec fn ffi_arg_view(a: EffectFfiArg) -> FfiArgV {
    match a {
        EffectFfiArg::Int(n) => FfiArgV::Int(n),
        EffectFfiArg::Bool(b) => FfiArgV::Bool(b),
        EffectFfiArg::Str(s) => FfiArgV::Str(s@),
        EffectFfiArg::Real(r) => FfiArgV::Real(r),
        EffectFfiArg::Handle(h) => FfiArgV::Handle(h),
        EffectFfiArg::StrArr(v) => FfiArgV::StrArr(str_seq_view(v@)),
        EffectFfiArg::IntOut => FfiArgV::IntOut,
        EffectFfiArg::PriorResult(i) => FfiArgV::PriorResult(i),
        EffectFfiArg::I32Buf(v) => FfiArgV::I32Buf(v@),
        EffectFfiArg::PackedBuf(v) => FfiArgV::PackedBuf(v@),
    }
}

pub open spec fn ffi_args_view(v: Seq<EffectFfiArg>) -> Seq<FfiArgV> {
    Seq::new(v.len(), |i: int| ffi_arg_view(v[i]))
}

pub open spec fn effect_view(e: Effect) -> EffectV {
    match e {
        Effect::NoEffect => EffectV::NoEffect,
        Effect::Print(s) => EffectV::Print(s@),
        Effect::Println(s) => EffectV::Println(s@),
        Effect::Exit(n) => EffectV::Exit(n),
        Effect::FFIOpen(s) => EffectV::FFIOpen(s@),
        Effect::FFILookup(h, s) => EffectV::FFILookup(h, s@),
        Effect::FFICall(h, s, a) => EffectV::FFICall(h, s@, ffi_args_view(a@)),
        Effect::CloseHandle(h) => EffectV::CloseHandle(h),
        Effect::LibCall(l, f, sig, a) => EffectV::LibCall(l@, f@, sig@, ffi_args_view(a@)),
        Effect::ReadByte(h, o) => EffectV::ReadByte(h, o),
        Effect::ReadI16(h, o) => EffectV::ReadI16(h, o),
        Effect::ReadI32(h, o) => EffectV::ReadI32(h, o),
        Effect::ReadI64(h, o) => EffectV::ReadI64(h, o),
        Effect::ReadF32(h, o) => EffectV::ReadF32(h, o),
        Effect::ReadF64(h, o) => EffectV::ReadF64(h, o),
        Effect::ReadStr(h, o) => EffectV::ReadStr(h, o),
        Effect::WriteByte(h, o, x) => EffectV::WriteByte(h, o, x),
        Effect::WriteI16(h, o, x) => EffectV::WriteI16(h, o, x),
        Effect::WriteI32(h, o, x) => EffectV::WriteI32(h, o, x),
        Effect::WriteI64(h, o, x) => EffectV::WriteI64(h, o, x),
        Effect::WriteF32(h, o, x) => EffectV::WriteF32(h, o, x),
        Effect::WriteF64(h, o, x) => EffectV::WriteF64(h, o, x),
        Effect::WriteStr(h, o, s) => EffectV::WriteStr(h, o, s@),
        Effect::Malloc(n) => EffectV::Malloc(n),
        Effect::RegisterCallback(a, b) => EffectV::RegisterCallback(a@, b@),
    }
}

pub open spec fn effects_view(v: Seq<Effect>) -> Seq<EffectV> {
    Seq::new(v.len(), |i: int| effect_view(v[i]))
}

pub open spec fn result_view(r: EffectResult) -> EffectResultV {
    match r {
        EffectResult::NoResult => EffectResultV::NoResult,
        EffectResult::Int(n) => EffectResultV::Int(n),
        EffectResult::Str(s) => EffectResultV::Str(s@),
        EffectResult::Bool(b) => EffectResultV::Bool(b),
        EffectResult::Real(b) => EffectResultV::Real(b),
        EffectResult::Handle(h) => EffectResultV::Handle(h),
        EffectResult::Error(s) => EffectResultV::Error(s@),
    }
}

pub open spec fn results_view(v: Seq<EffectResult>) -> Seq<EffectResultV> {
    Seq::new(v.len(), |i: int| result_view(v[i]))
}

pub open spec fn install_view(s: InstallStep) -> InstallStepV {
    InstallStepV {
        field: match s.field {
            Some(f) => Some(f@),
            None => None,
        },
        effect: effect_view(s.effect),
    }
}

pub open spec fn installs_view(v: Seq<InstallStep>) -> Seq<InstallStepV> {
    Seq::new(v.len(), |i: int| install_view(v[i]))
}

pub open spec fn error_view(e: DecodeError) -> DecodeErrorV {
    match e {
        DecodeError::NotEnum { got } => DecodeErrorV::NotEnum { got: got@ },
        DecodeError::WrongEnum { expected, got } => DecodeErrorV::WrongEnum { expected: expected@, got: got@ },
        DecodeError::UnknownVariant { enum_name, variant } => DecodeErrorV::UnknownVariant {
            enum_name: enum_name@,
            variant: variant@,
        },
        DecodeError::WrongArity { variant, expected, got } => DecodeErrorV::WrongArity {
            variant: variant@,
            expected: expected as nat,
            got: got as nat,
        },
        DecodeError::NotPrimitive { expected, got } => DecodeErrorV::NotPrimitive { expected: expected@, got: got@ },
        DecodeError::FieldKind { what, want, got } => DecodeErrorV::FieldKind { what: what@, want: want@, got: got@ },
    }
}


/// The text of a decode error; `shown` is how its offending value, where it
/// holds one, is written.
pub open spec fn decode_error_text(e: DecodeErrorV, shown: Seq<char>) -> Seq<char> {
    match e {
        DecodeErrorV::NotEnum { .. } => "expected an Enum value; got "@ + shown,
        DecodeErrorV::WrongEnum { expected, got } => "expected enum `"@ + expected + "`; got `"@ + got + "`"@,
        DecodeErrorV::UnknownVariant { enum_name, variant } => "no decoder for variant `"@ + variant + "` of enum `"@
            + enum_name + "`"@,
        DecodeErrorV::WrongArity { variant, expected, got } => "variant `"@ + variant + "`: expected "@ + decimal(expected)
            + " fields, got "@ + decimal(got),
        DecodeErrorV::NotPrimitive { expected, .. } => "expected primitive `"@ + expected + "`; got "@ + shown,
        DecodeErrorV::FieldKind { what, want, .. } => what + ": expected "@ + want + "; got "@ + shown,
    }
}

impl DecodeError {
    /// The error's text; see `decode_error_text`.
    pub fn message(&self, shown: &str) -> (r: String)
        ensures
            r@ == decode_error_text(error_view(*self), shown@),
    {
        match self {
            DecodeError::NotEnum { .. } => {
                let r = concat_str(&String::from_str("expected an Enum value; got "), shown);
                assert(r@ =~= decode_error_text(error_view(*self), shown@));
                r
            },
            DecodeError::WrongEnum { expected, got } => {
                let mut r = String::from_str("expected enum `");
                r = concat_str(&r, expected.as_str());
                r = concat_str(&r, "`; got `");
                r = concat_str(&r, got.as_str());
                r = concat_str(&r, "`");
                assert(r@ =~= decode_error_text(error_view(*self), shown@));
                r
            },
            DecodeError::UnknownVariant { enum_name, variant } => {
                let mut r = String::from_str("no decoder for variant `");
                r = concat_str(&r, variant.as_str());
                r = concat_str(&r, "` of enum `");
                r = concat_str(&r, enum_name.as_str());
                r = concat_str(&r, "`");
                assert(r@ =~= decode_error_text(error_view(*self), shown@));
                r
            },
            DecodeError::WrongArity { variant, expected, got } => {
                let mut r = String::from_str("variant `");
                r = concat_str(&r, variant.as_str());
                r = concat_str(&r, "`: expected ");
                r = concat_str(&r, usize_decimal(*expected).as_str());
                r = concat_str(&r, " fields, got ");
                r = concat_str(&r, usize_decimal(*got).as_str());
                assert(r@ =~= decode_error_text(error_view(*self), shown@));
                r
            },
            DecodeError::NotPrimitive { expected, .. } => {
                let mut r = String::from_str("expected primitive `");
                r = concat_str(&r, expected.as_str());
                r = concat_str(&r, "`; got ");
                r = concat_str(&r, shown);
                assert(r@ =~= decode_error_text(error_view(*self), shown@));
                r
            },
            DecodeError::FieldKind { what, want, .. } => {
                let mut r = concat_str(what, ": expected ");
                r = concat_str(&r, want.as_str());
                r = concat_str(&r, "; got ");
                r = concat_str(&r, shown);
                assert(r@ =~= decode_error_text(error_view(*self), shown@));
                r
            },
        }
    }
}

// ───────────────────────────── decoding, specified ─────────────────────────────

/// `r` is what `spec` says, element by element through `view`.
pub open spec fn decodes_to<T, U>(spec: Result<T, DecodeErrorV>, r: Result<U, DecodeError>, view: spec_fn(U) -> T) -> bool {
    match r {
        Ok(x) => spec == Ok::<T, DecodeErrorV>(view(x)),
        Err(e) => spec == Err::<T, DecodeErrorV>(error_view(e)),
    }
}

pub open spec fn and_then<A, B>(r: Result<A, DecodeErrorV>, f: spec_fn(A) -> Result<B, DecodeErrorV>) -> Result<
    B,
    DecodeErrorV,
> {
    match r {
        Ok(a) => f(a),
        Err(e) => Err(e),
    }
}

/// The variant and fields of an enum value of enum `expected`.
pub open spec fn check_enum_spec(v: ValueV, expected: Seq<char>) -> Result<(Seq<char>, Seq<ValueV>), DecodeErrorV> {
    match v {
        ValueV::Enum { enum_name, variant, fields } => if enum_name != expected {
            Err(DecodeErrorV::WrongEnum { expected, got: enum_name })
        } else {
            Ok((variant, fields))
        },
        _ => Err(DecodeErrorV::NotEnum { got: v }),
    }
}

/// `r`, provided `fields` has exactly `n` elements.
pub open spec fn with_arity<T>(variant: Seq<char>, fields: Seq<ValueV>, n: nat, r: Result<T, DecodeErrorV>) -> Result<
    T,
    DecodeErrorV,
> {
    if fields.len() != n {
        Err(DecodeErrorV::WrongArity { variant, expected: n, got: fields.len() })
    } else {
        r
    }
}

pub open spec fn dec_str(v: ValueV) -> Result<Seq<char>, DecodeErrorV> {
    match v {
        ValueV::Str(s) => Ok(s),
        _ => Err(DecodeErrorV::NotPrimitive { expected: "Str"@, got: v }),
    }
}

pub open spec fn dec_int(v: ValueV) -> Result<i64, DecodeErrorV> {
    match v {
        ValueV::Int(n) => Ok(n),
        _ => Err(DecodeErrorV::NotPrimitive { expected: "Int"@, got: v }),
    }
}

pub open spec fn dec_bool(v: ValueV) -> Result<bool, DecodeErrorV> {
    match v {
        ValueV::Bool(b) => Ok(b),
        _ => Err(DecodeErrorV::NotPrimitive { expected: "Bool"@, got: v }),
    }
}

/// A real operand: a `Real` as it is, an `Int` to be widened.
pub open spec fn dec_real(v: ValueV) -> Result<RealNum, DecodeErrorV> {
    match v {
        ValueV::Real(r) => Ok(r),
        ValueV::Int(n) => Ok(RealNum::Int(n)),
        _ => Err(DecodeErrorV::NotPrimitive { expected: "Real"@, got: v }),
    }
}

pub open spec fn unknown<T>(enum_name: Seq<char>, variant: Seq<char>) -> Result<T, DecodeErrorV> {
    Err(DecodeErrorV::UnknownVariant { enum_name, variant })
}

pub open spec fn dec_packed_field(v: ValueV) -> Result<PackedField, DecodeErrorV> {
    and_then(
        check_enum_spec(v, "PackedField"@),
        |vf: (Seq<char>, Seq<ValueV>)|
            {
                let (variant, fields) = vf;
                if variant == "PfU8"@ {
                    with_arity(variant, fields, 1, and_then(dec_int(fields[0]), |n: i64| Ok(PackedField::U8(n as u8))))
                } else if variant == "PfI32"@ {
                    with_arity(variant, fields, 1, and_then(dec_int(fields[0]), |n: i64| Ok(PackedField::I32(n as i32))))
                } else if variant == "PfF32"@ {
                    with_arity(variant, fields, 1, and_then(dec_real(fields[0]), |r: RealNum| Ok(PackedField::F32(r))))
                } else {
                    unknown("PackedField"@, variant)
                }
            },
    )
}

/// A `PfCons(head, tail)` / `PfNil` list of packed fields.
pub open spec fn dec_packed_list(v: ValueV) -> Result<Seq<PackedField>, DecodeErrorV>
    decreases v,
{
    match v {
        ValueV::Enum { enum_name, variant, fields } => if enum_name != "PackedFieldList"@ {
            Err(DecodeErrorV::WrongEnum { expected: "PackedFieldList"@, got: enum_name })
        } else if variant == "PfNil"@ {
            Ok(Seq::empty())
        } else if variant == "PfCons"@ {
            if fields.len() != 2 {
                Err(DecodeErrorV::WrongArity { variant, expected: 2, got: fields.len() })
            } else {
                match dec_packed_field(fields[0]) {
                    Err(e) => Err(e),
                    Ok(h) => match dec_packed_list(fields[1]) {
                        Err(e) => Err(e),
                        Ok(t) => Ok(seq![h] + t),
                    },
                }
            }
        } else {
            unknown("PackedFieldList"@, variant)
        },
        _ => Err(DecodeErrorV::NotEnum { got: v }),
    }
}

pub open spec fn dec_str_list(v: ValueV) -> Result<Seq<Seq<char>>, DecodeErrorV> {
    match v {
        ValueV::SeqStr(items) => Ok(items),
        _ => Err(DecodeErrorV::FieldKind { what: "ArgStrArr payload"@, want: "Seq(String)"@, got: v }),
    }
}

pub open spec fn dec_int_list(v: ValueV) -> Result<Seq<i64>, DecodeErrorV> {
    match v {
        ValueV::SeqInt(items) => Ok(items),
        _ => Err(DecodeErrorV::FieldKind { what: "ArgI32Buf payload"@, want: "Seq(Int)"@, got: v }),
    }
}

pub open spec fn dec_ffi_arg(v: ValueV) -> Result<FfiArgV, DecodeErrorV> {
    and_then(
        check_enum_spec(v, "FFIArg"@),
        |vf: (Seq<char>, Seq<ValueV>)|
            {
                let (variant, fields) = vf;
                if variant == "ArgInt"@ {
                    with_arity(variant, fields, 1, and_then(dec_int(fields[0]), |n: i64| Ok(FfiArgV::Int(n))))
                } else if variant == "ArgBool"@ {
                    with_arity(variant, fields, 1, and_then(dec_bool(fields[0]), |b: bool| Ok(FfiArgV::Bool(b))))
                } else if variant == "ArgStr"@ {
                    with_arity(variant, fields, 1, and_then(dec_str(fields[0]), |s: Seq<char>| Ok(FfiArgV::Str(s))))
                } else if variant == "ArgReal"@ {
                    with_arity(variant, fields, 1, and_then(dec_real(fields[0]), |r: RealNum| Ok(FfiArgV::Real(r))))
                } else if variant == "ArgHandle"@ {
                    with_arity(variant, fields, 1, and_then(dec_int(fields[0]), |n: i64| Ok(FfiArgV::Handle(n as u64))))
                } else if variant == "ArgStrArr"@ {
                    with_arity(
                        variant,
                        fields,
                        1,
                        and_then(dec_str_list(fields[0]), |xs: Seq<Seq<char>>| Ok(FfiArgV::StrArr(xs))),
                    )
                } else if variant == "ArgIntOut"@ {
                    with_arity(variant, fields, 0, Ok(FfiArgV::IntOut))
                } else if variant == "ArgPriorResult"@ {
                    with_arity(
                        variant,
                        fields,
                        1,
                        and_then(dec_int(fields[0]), |n: i64| Ok(FfiArgV::PriorResult(n as usize))),
                    )
                } else if variant == "ArgI32Buf"@ {
                    with_arity(
                        variant,
                        fields,
                        1,
                        and_then(
                            dec_int_list(fields[0]),
                            |xs: Seq<i64>| Ok(FfiArgV::I32Buf(Seq::new(xs.len(), |i: int| xs[i] as i32))),
                        ),
                    )
                } else if variant == "ArgPackedBuf"@ {
                    with_arity(
                        variant,
                        fields,
                        1,
                        and_then(dec_packed_list(fields[0]), |xs: Seq<PackedField>| Ok(FfiArgV::PackedBuf(xs))),
                    )
                } else {
                    unknown("FFIArg"@, variant)
                }
            },
    )
}

/// Decode each of `items` with `f`, stopping at the first error.
pub open spec fn dec_each<T>(items: Seq<ValueV>, f: spec_fn(ValueV) -> Result<T, DecodeErrorV>) -> Result<
    Seq<T>,
    DecodeErrorV,
>
    decreases items.len(),
{
    if items.len() == 0 {
        Ok(Seq::empty())
    } else {
        match dec_each(items.drop_last(), f) {
            Err(e) => Err(e),
            Ok(xs) => match f(items.last()) {
                Err(e) => Err(e),
                Ok(x) => Ok(xs.push(x)),
            },
        }
    }
}

pub open spec fn arg_decoder() -> spec_fn(ValueV) -> Result<FfiArgV, DecodeErrorV> {
    |x: ValueV| dec_ffi_arg(x)
}

pub open spec fn effect_decoder() -> spec_fn(ValueV) -> Result<EffectV, DecodeErrorV> {
    |x: ValueV| dec_effect(x)
}

pub open spec fn install_decoder() -> spec_fn(ValueV) -> Result<InstallStepV, DecodeErrorV> {
    |x: ValueV| dec_install_step(x)
}

/// Once a prefix fails to decode, the whole list fails with its error.
pub proof fn lemma_dec_each_prefix_err<T>(items: Seq<ValueV>, f: spec_fn(ValueV) -> Result<T, DecodeErrorV>, k: int)
    requires
        0 <= k <= items.len(),
        dec_each(items.take(k), f) is Err,
    ensures
        dec_each(items, f) == dec_each(items.take(k), f),
    decreases items.len(),
{
    if k == items.len() {
        assert(items.take(k) =~= items);
    } else {
        assert(items.drop_last().take(k) =~= items.take(k));
        lemma_dec_each_prefix_err(items.drop_last(), f, k);
    }
}

pub open spec fn dec_arg_list(v: ValueV) -> Result<Seq<FfiArgV>, DecodeErrorV> {
    match v {
        ValueV::SeqEnum(items) => dec_each(items, arg_decoder()),
        _ => Err(DecodeErrorV::FieldKind { what: "FFICall/LibCall args"@, want: "Seq(FFIArg)"@, got: v }),
    }
}

/// `(handle, offset)` fields.
pub open spec fn dec_read(variant: Seq<char>, fields: Seq<ValueV>, mk: spec_fn(u64, i64) -> EffectV) -> Result<
    EffectV,
    DecodeErrorV,
> {
    with_arity(
        variant,
        fields,
        2,
        and_then(dec_int(fields[0]), |h: i64| and_then(dec_int(fields[1]), |o: i64| Ok(mk(h as u64, o)))),
    )
}

/// `(handle, offset, int value)` fields.
pub open spec fn dec_write(variant: Seq<char>, fields: Seq<ValueV>, mk: spec_fn(u64, i64, i64) -> EffectV) -> Result<
    EffectV,
    DecodeErrorV,
> {
    with_arity(
        variant,
        fields,
        3,
        and_then(
            dec_int(fields[0]),
            |h: i64| and_then(dec_int(fields[1]), |o: i64| and_then(dec_int(fields[2]), |x: i64| Ok(mk(h as u64, o, x)))),
        ),
    )
}

/// `(handle, offset, real value)` fields.
pub open spec fn dec_write_real(variant: Seq<char>, fields: Seq<ValueV>, mk: spec_fn(u64, i64, RealNum) -> EffectV) -> Result<
    EffectV,
    DecodeErrorV,
> {
    with_arity(
        variant,
        fields,
        3,
        and_then(
            dec_int(fields[0]),
            |h: i64|
                and_then(dec_int(fields[1]), |o: i64| and_then(dec_real(fields[2]), |x: RealNum| Ok(mk(h as u64, o, x)))),
        ),
    )
}

pub open spec fn dec_effect(v: ValueV) -> Result<EffectV, DecodeErrorV> {
    and_then(check_enum_spec(v, "Effect"@), |vf: (Seq<char>, Seq<ValueV>)| dec_effect_fields(vf.0, vf.1))
}

pub open spec fn dec_effect_fields(variant: Seq<char>, fields: Seq<ValueV>) -> Result<EffectV, DecodeErrorV> {
    if variant == "NoEffect"@ {
        with_arity(variant, fields, 0, Ok(EffectV::NoEffect))
    } else if variant == "Print"@ {
        with_arity(variant, fields, 1, and_then(dec_str(fields[0]), |s: Seq<char>| Ok(EffectV::Print(s))))
    } else if variant == "Println"@ {
        with_arity(variant, fields, 1, and_then(dec_str(fields[0]), |s: Seq<char>| Ok(EffectV::Println(s))))
    } else if variant == "Exit"@ {
        with_arity(variant, fields, 1, and_then(dec_int(fields[0]), |n: i64| Ok(EffectV::Exit(n))))
    } else if variant == "FFIOpen"@ {
        with_arity(variant, fields, 1, and_then(dec_str(fields[0]), |s: Seq<char>| Ok(EffectV::FFIOpen(s))))
    } else if variant == "FFILookup"@ {
        with_arity(
            variant,
            fields,
            2,
            and_then(
                dec_int(fields[0]),
                |h: i64| and_then(dec_str(fields[1]), |s: Seq<char>| Ok(EffectV::FFILookup(h as u64, s))),
            ),
        )
    } else if variant == "FFICall"@ {
        with_arity(
            variant,
            fields,
            3,
            and_then(
                dec_int(fields[0]),
                |h: i64|
                    and_then(
                        dec_str(fields[1]),
                        |s: Seq<char>| and_then(dec_arg_list(fields[2]), |a: Seq<FfiArgV>| Ok(EffectV::FFICall(h as u64, s, a))),
                    ),
            ),
        )
    } else if variant == "CloseHandle"@ {
        with_arity(variant, fields, 1, and_then(dec_int(fields[0]), |h: i64| Ok(EffectV::CloseHandle(h as u64))))
    } else if variant == "LibCall"@ {
        with_arity(
            variant,
            fields,
            4,
            and_then(
                dec_str(fields[0]),
                |l: Seq<char>|
                    and_then(
                        dec_str(fields[1]),
                        |f: Seq<char>|
                            and_then(
                                dec_str(fields[2]),
                                |sig: Seq<char>|
                                    and_then(dec_arg_list(fields[3]), |a: Seq<FfiArgV>| Ok(EffectV::LibCall(l, f, sig, a))),
                            ),
                    ),
            ),
        )
    } else if variant == "ReadByte"@ {
        dec_read(variant, fields, |h: u64, o: i64| EffectV::ReadByte(h, o))
    } else if variant == "ReadI16"@ {
        dec_read(variant, fields, |h: u64, o: i64| EffectV::ReadI16(h, o))
    } else if variant == "ReadI32"@ {
        dec_read(variant, fields, |h: u64, o: i64| EffectV::ReadI32(h, o))
    } else if variant == "ReadI64"@ {
        dec_read(variant, fields, |h: u64, o: i64| EffectV::ReadI64(h, o))
    } else if variant == "ReadF32"@ {
        dec_read(variant, fields, |h: u64, o: i64| EffectV::ReadF32(h, o))
    } else if variant == "ReadF64"@ {
        dec_read(variant, fields, |h: u64, o: i64| EffectV::ReadF64(h, o))
    } else if variant == "ReadStr"@ {
        dec_read(variant, fields, |h: u64, o: i64| EffectV::ReadStr(h, o))
    } else if variant == "WriteByte"@ {
        dec_write(variant, fields, |h: u64, o: i64, x: i64| EffectV::WriteByte(h, o, x))
    } else if variant == "WriteI16"@ {
        dec_write(variant, fields, |h: u64, o: i64, x: i64| EffectV::WriteI16(h, o, x))
    } else if variant == "WriteI32"@ {
        dec_write(variant, fields, |h: u64, o: i64, x: i64| EffectV::WriteI32(h, o, x))
    } else if variant == "WriteI64"@ {
        dec_write(variant, fields, |h: u64, o: i64, x: i64| EffectV::WriteI64(h, o, x))
    } else if variant == "WriteF32"@ {
        dec_write_real(variant, fields, |h: u64, o: i64, x: RealNum| EffectV::WriteF32(h, o, x))
    } else if variant == "WriteF64"@ {
        dec_write_real(variant, fields, |h: u64, o: i64, x: RealNum| EffectV::WriteF64(h, o, x))
    } else if variant == "WriteStr"@ {
        with_arity(
            variant,
            fields,
            3,
            and_then(
                dec_int(fields[0]),
                |h: i64|
                    and_then(
                        dec_int(fields[1]),
                        |o: i64| and_then(dec_str(fields[2]), |s: Seq<char>| Ok(EffectV::WriteStr(h as u64, o, s))),
                    ),
            ),
        )
    } else if variant == "Malloc"@ {
        with_arity(variant, fields, 1, and_then(dec_int(fields[0]), |n: i64| Ok(EffectV::Malloc(n))))
    } else if variant == "RegisterCallback"@ {
        with_arity(
            variant,
            fields,
            2,
            and_then(
                dec_str(fields[0]),
                |a: Seq<char>| and_then(dec_str(fields[1]), |b: Seq<char>| Ok(EffectV::RegisterCallback(a, b))),
            ),
        )
    } else {
        unknown("Effect"@, variant)
    }
}

pub open spec fn dec_effect_list(v: ValueV) -> Result<Seq<EffectV>, DecodeErrorV> {
    match v {
        ValueV::SeqEnum(items) => dec_each(items, effect_decoder()),
        _ => Err(DecodeErrorV::FieldKind { what: "effects"@, want: "Seq(Effect)"@, got: v }),
    }
}

pub open spec fn dec_install_step(v: ValueV) -> Result<InstallStepV, DecodeErrorV> {
    and_then(
        check_enum_spec(v, "InstallStep"@),
        |vf: (Seq<char>, Seq<ValueV>)|
            {
                let (variant, fields) = vf;
                if variant == "Run"@ {
                    with_arity(
                        variant,
                        fields,
                        1,
                        and_then(dec_effect(fields[0]), |e: EffectV| Ok(InstallStepV { field: None, effect: e })),
                    )
                } else if variant == "Bind"@ {
                    with_arity(
                        variant,
                        fields,
                        2,
                        and_then(
                            dec_str(fields[0]),
                            |f: Seq<char>| and_then(dec_effect(fields[1]), |e: EffectV| Ok(InstallStepV { field: Some(f), effect: e })),
                        ),
                    )
                } else {
                    unknown("InstallStep"@, variant)
                }
            },
    )
}

pub open spec fn dec_install_list(v: ValueV) -> Result<Seq<InstallStepV>, DecodeErrorV> {
    match v {
        ValueV::SeqEnum(items) => dec_each(items, install_decoder()),
        _ => Err(DecodeErrorV::FieldKind { what: "install"@, want: "Seq(InstallStep)"@, got: v }),
    }
}

pub open spec fn dec_result(v: ValueV) -> Result<EffectResultV, DecodeErrorV> {
    and_then(
        check_enum_spec(v, "Result"@),
        |vf: (Seq<char>, Seq<ValueV>)|
            {
                let (variant, fields) = vf;
                if variant == "NoResult"@ {
                    with_arity(variant, fields, 0, Ok(EffectResultV::NoResult))
                } else if variant == "IntResult"@ {
                    with_arity(variant, fields, 1, and_then(dec_int(fields[0]), |n: i64| Ok(EffectResultV::Int(n))))
                } else if variant == "StringResult"@ {
                    with_arity(variant, fields, 1, and_then(dec_str(fields[0]), |s: Seq<char>| Ok(EffectResultV::Str(s))))
                } else if variant == "BoolResult"@ {
                    with_arity(variant, fields, 1, and_then(dec_bool(fields[0]), |b: bool| Ok(EffectResultV::Bool(b))))
                } else if variant == "RealResult"@ {
                    with_arity(variant, fields, 1, and_then(dec_real(fields[0]), |r: RealNum| Ok(EffectResultV::Real(r))))
                } else if variant == "HandleResult"@ {
                    with_arity(variant, fields, 1, and_then(dec_int(fields[0]), |n: i64| Ok(EffectResultV::Handle(n as u64))))
                } else if variant == "ErrorResult"@ {
                    with_arity(variant, fields, 1, and_then(dec_str(fields[0]), |s: Seq<char>| Ok(EffectResultV::Error(s))))
                } else {
                    unknown("Result"@, variant)
                }
            },
    )
}

// ───────────────────────────── decoding ─────────────────────────────

/// The variant and fields of `v`, which must be a value of enum `expected`.
fn check_enum<'a>(v: &'a Value, expected: &str) -> (r: Result<(&'a String, &'a Vec<Value>), DecodeError>)
    ensures
        match r {
            Ok((variant, fields)) => check_enum_spec(v@, expected@) == Ok::<(Seq<char>, Seq<ValueV>), DecodeErrorV>(
                (variant@, values_view(fields@)),
            ) && v is Enum && *fields == v->fields,
            Err(e) => check_enum_spec(v@, expected@) == Err::<(Seq<char>, Seq<ValueV>), DecodeErrorV>(error_view(e)),
        },
{
    proof {
        lemma_value_lists(*v);
    }
    match v {
        Value::Enum { enum_name, variant, fields } => {
            if !str_is(enum_name, expected) {
                return Err(DecodeError::WrongEnum { expected: String::from_str(expected), got: enum_name.clone() });
            }
            Ok((variant, fields))
        },
        _ => Err(DecodeError::NotEnum { got: clone_value(v) }),
    }
}

fn need_arity(variant: &String, fields: &Vec<Value>, expected: usize) -> (r: Result<(), DecodeError>)
    ensures
        match r {
            Ok(_) => fields.len() == expected,
            Err(e) => fields.len() != expected && error_view(e) == (DecodeErrorV::WrongArity {
                variant: variant@,
                expected: expected as nat,
                got: fields.len() as nat,
            }),
        },
{
    if fields.len() != expected {
        return Err(DecodeError::WrongArity { variant: variant.clone(), expected, got: fields.len() });
    }
    Ok(())
}

fn decode_str(v: &Value) -> (r: Result<String, DecodeError>)
    ensures
        decodes_to(dec_str(v@), r, |s: String| s@),
{
    match v {
        Value::Str(s) => Ok(s.clone()),
        _ => Err(DecodeError::NotPrimitive { expected: String::from_str("Str"), got: clone_value(v) }),
    }
}

fn decode_int(v: &Value) -> (r: Result<i64, DecodeError>)
    ensures
        decodes_to(dec_int(v@), r, |n| n),
{
    match v {
        Value::Int(n) => Ok(*n),
        _ => Err(DecodeError::NotPrimitive { expected: String::from_str("Int"), got: clone_value(v) }),
    }
}

fn decode_bool(v: &Value) -> (r: Result<bool, DecodeError>)
    ensures
        decodes_to(dec_bool(v@), r, |b| b),
{
    match v {
        Value::Bool(b) => Ok(*b),
        _ => Err(DecodeError::NotPrimitive { expected: String::from_str("Bool"), got: clone_value(v) }),
    }
}

fn decode_real(v: &Value) -> (r: Result<RealNum, DecodeError>)
    ensures
        decodes_to(dec_real(v@), r, |x| x),
{
    match v {
        Value::Real(x) => Ok(*x),
        Value::Int(n) => Ok(RealNum::Int(*n)),
        _ => Err(DecodeError::NotPrimitive { expected: String::from_str("Real"), got: clone_value(v) }),
    }
}

fn unknown_variant(enum_name: &str, variant: &String) -> (e: DecodeError)
    ensures
        error_view(e) == (DecodeErrorV::UnknownVariant { enum_name: enum_name@, variant: variant@ }),
{
    DecodeError::UnknownVariant { enum_name: String::from_str(enum_name), variant: variant.clone() }
}

/// Decode a `PackedField` value.
pub fn decode_packed_field(v: &Value) -> (r: Result<PackedField, DecodeError>)
    ensures
        decodes_to(dec_packed_field(v@), r, |p| p),
{
    let (variant, fields) = check_enum(v, "PackedField")?;
    if str_is(variant, "PfU8") {
        need_arity(variant, fields, 1)?;
        let n = decode_int(&fields[0])?;
        Ok(PackedField::U8(n as u8))
    } else if str_is(variant, "PfI32") {
        need_arity(variant, fields, 1)?;
        let n = decode_int(&fields[0])?;
        Ok(PackedField::I32(n as i32))
    } else if str_is(variant, "PfF32") {
        need_arity(variant, fields, 1)?;
        let x = decode_real(&fields[0])?;
        Ok(PackedField::F32(x))
    } else {
        Err(unknown_variant("PackedField", variant))
    }
}

/// Decode a `PfCons(head, tail)` / `PfNil` list of packed fields, in order.
pub fn decode_packed_field_list(v: &Value) -> (r: Result<Vec<PackedField>, DecodeError>)
    ensures
        decodes_to(dec_packed_list(v@), r, |xs: Vec<PackedField>| xs@),
    decreases v,
{
    let (variant, fields) = check_enum(v, "PackedFieldList")?;
    if str_is(variant, "PfNil") {
        return Ok(Vec::new());
    }
    if str_is(variant, "PfCons") {
        need_arity(variant, fields, 2)?;
        let head = decode_packed_field(&fields[0])?;
        proof {
            assert(decreases_to!(*v => v->fields));
            assert(decreases_to!(v->fields => fields@[1]));
        }
        let tail = decode_packed_field_list(&fields[1])?;
        let mut out: Vec<PackedField> = Vec::new();
        out.push(head);
        let mut i: usize = 0;
        while i < tail.len()
            invariant
                0 <= i <= tail.len(),
                out@ == seq![head] + tail@.take(i as int),
            decreases tail.len() - i,
        {
            out.push(tail[i]);
            assert(out@ =~= seq![head] + tail@.take(i + 1));
            i += 1;
        }
        assert(tail@.take(tail.len() as int) =~= tail@);
        return Ok(out);
    }
    Err(unknown_variant("PackedFieldList", variant))
}

/// Decode the `ArgStrArr` payload: a sequence of strings.
pub fn decode_str_list(v: &Value) -> (r: Result<Vec<String>, DecodeError>)
    ensures
        decodes_to(dec_str_list(v@), r, |xs: Vec<String>| str_seq_view(xs@)),
{
    match v {
        Value::SeqStr(items) => Ok(clone_str_vec(items)),
        _ => Err(
            DecodeError::FieldKind {
                what: String::from_str("ArgStrArr payload"),
                want: String::from_str("Seq(String)"),
                got: clone_value(v),
            },
        ),
    }
}

/// Decode the `ArgI32Buf` payload: a sequence of integers.
pub fn decode_int_list(v: &Value) -> (r: Result<Vec<i64>, DecodeError>)
    ensures
        decodes_to(dec_int_list(v@), r, |xs: Vec<i64>| xs@),
{
    match v {
        Value::SeqInt(items) => Ok(clone_i64_vec(items)),
        _ => Err(
            DecodeError::FieldKind {
                what: String::from_str("ArgI32Buf payload"),
                want: String::from_str("Seq(Int)"),
                got: clone_value(v),
            },
        ),
    }
}

/// Decode an `FFIArg` value.
pub fn decode_ffi_arg(v: &Value) -> (r: Result<EffectFfiArg, DecodeError>)
    ensures
        decodes_to(dec_ffi_arg(v@), r, |a| ffi_arg_view(a)),
{
    let (variant, fields) = check_enum(v, "FFIArg")?;
    if str_is(variant, "ArgInt") {
        need_arity(variant, fields, 1)?;
        Ok(EffectFfiArg::Int(decode_int(&fields[0])?))
    } else if str_is(variant, "ArgBool") {
        need_arity(variant, fields, 1)?;
        Ok(EffectFfiArg::Bool(decode_bool(&fields[0])?))
    } else if str_is(variant, "ArgStr") {
        need_arity(variant, fields, 1)?;
        Ok(EffectFfiArg::Str(decode_str(&fields[0])?))
    } else if str_is(variant, "ArgReal") {
        need_arity(variant, fields, 1)?;
        Ok(EffectFfiArg::Real(decode_real(&fields[0])?))
    } else if str_is(variant, "ArgHandle") {
        need_arity(variant, fields, 1)?;
        let n = decode_int(&fields[0])?;
        Ok(EffectFfiArg::Handle(n as u64))
    } else if str_is(variant, "ArgStrArr") {
        need_arity(variant, fields, 1)?;
        Ok(EffectFfiArg::StrArr(decode_str_list(&fields[0])?))
    } else if str_is(variant, "ArgIntOut") {
        need_arity(variant, fields, 0)?;
        Ok(EffectFfiArg::IntOut)
    } else if str_is(variant, "ArgPriorResult") {
        need_arity(variant, fields, 1)?;
        let n = decode_int(&fields[0])?;
        Ok(EffectFfiArg::PriorResult(n as usize))
    } else if str_is(variant, "ArgI32Buf") {
        need_arity(variant, fields, 1)?;
        let ints = decode_int_list(&fields[0])?;
        let mut out: Vec<i32> = Vec::new();
        let mut i: usize = 0;
        while i < ints.len()
            invariant
                0 <= i <= ints.len(),
                out.len() == i,
                forall|k: int| 0 <= k < i ==> out@[k] == ints@[k] as i32,
            decreases ints.len() - i,
        {
            out.push(ints[i] as i32);
            i += 1;
        }
        assert(out@ =~= Seq::new(ints@.len(), |k: int| ints@[k] as i32));
        Ok(EffectFfiArg::I32Buf(out))
    } else if str_is(variant, "ArgPackedBuf") {
        need_arity(variant, fields, 1)?;
        Ok(EffectFfiArg::PackedBuf(decode_packed_field_list(&fields[0])?))
    } else {
        Err(unknown_variant("FFIArg", variant))
    }
}


/// Decode the `FFICall`/`LibCall` argument list: a sequence of `FFIArg`
/// values, stopping at the first that does not decode.
pub fn decode_arg_list(v: &Value) -> (r: Result<Vec<EffectFfiArg>, DecodeError>)
    ensures
        decodes_to(dec_arg_list(v@), r, |xs: Vec<EffectFfiArg>| ffi_args_view(xs@)),
{
    proof {
        lemma_value_lists(*v);
    }
    if let Value::SeqEnum(items) = v {
        let ghost iv = values_view(items@);
        let mut out: Vec<EffectFfiArg> = Vec::new();
        let mut i: usize = 0;
        assert(iv.take(0) =~= Seq::<ValueV>::empty());
        assert(ffi_args_view(out@) =~= Seq::<FfiArgV>::empty());
        while i < items.len()
            invariant
                0 <= i <= items.len(),
                iv == values_view(items@),
                v@ == ValueV::SeqEnum(iv),
                dec_each(iv.take(i as int), arg_decoder()) == Ok::<Seq<FfiArgV>, DecodeErrorV>(ffi_args_view(out@)),
            decreases items.len() - i,
        {
            assert(iv.take(i + 1).drop_last() =~= iv.take(i as int));
            assert(iv.take(i + 1).last() == value_view(items@[i as int]));
            match decode_ffi_arg(&items[i]) {
                Ok(a) => {
                    let ghost prev = out@;
                    out.push(a);
                    assert(ffi_args_view(out@) =~= ffi_args_view(prev).push(ffi_arg_view(a)));
                },
                Err(e) => {
                    proof {
                        assert(arg_decoder()(iv[i as int]) == dec_ffi_arg(iv[i as int]));
                        assert(dec_each(iv.take(i + 1), arg_decoder()) == Err::<Seq<FfiArgV>, DecodeErrorV>(
                            error_view(e),
                        ));
                        lemma_dec_each_prefix_err(iv, arg_decoder(), i + 1);
                    }
                    return Err(e);
                },
            }
            i += 1;
        }
        assert(iv.take(items.len() as int) =~= iv);
        return Ok(out);
    }
    Err(
        DecodeError::FieldKind {
            what: String::from_str("FFICall/LibCall args"),
            want: String::from_str("Seq(FFIArg)"),
            got: clone_value(v),
        },
    )
}


/// The effect named by `variant` with payload `fields`; see `dec_effect_fields`.
#[verifier::rlimit(40)]
fn decode_effect_fields(variant: &String, fields: &Vec<Value>) -> (r: Result<Effect, DecodeError>)
    ensures
        decodes_to(dec_effect_fields(variant@, values_view(fields@)), r, |e: Effect| effect_view(e)),
{
    if str_is(variant, "NoEffect") {
        need_arity(variant, fields, 0)?;
        Ok(Effect::NoEffect)
    } else if str_is(variant, "Print") {
        need_arity(variant, fields, 1)?;
        Ok(Effect::Print(decode_str(&fields[0])?))
    } else if str_is(variant, "Println") {
        need_arity(variant, fields, 1)?;
        Ok(Effect::Println(decode_str(&fields[0])?))
    } else if str_is(variant, "Exit") {
        need_arity(variant, fields, 1)?;
        Ok(Effect::Exit(decode_int(&fields[0])?))
    } else if str_is(variant, "FFIOpen") {
        need_arity(variant, fields, 1)?;
        Ok(Effect::FFIOpen(decode_str(&fields[0])?))
    } else if str_is(variant, "FFILookup") {
        need_arity(variant, fields, 2)?;
        let h = decode_int(&fields[0])?;
        let s = decode_str(&fields[1])?;
        Ok(Effect::FFILookup(h as u64, s))
    } else if str_is(variant, "FFICall") {
        need_arity(variant, fields, 3)?;
        let h = decode_int(&fields[0])?;
        let s = decode_str(&fields[1])?;
        let a = decode_arg_list(&fields[2])?;
        Ok(Effect::FFICall(h as u64, s, a))
    } else if str_is(variant, "CloseHandle") {
        need_arity(variant, fields, 1)?;
        let h = decode_int(&fields[0])?;
        Ok(Effect::CloseHandle(h as u64))
    } else if str_is(variant, "LibCall") {
        need_arity(variant, fields, 4)?;
        let l = decode_str(&fields[0])?;
        let f = decode_str(&fields[1])?;
        let sig = decode_str(&fields[2])?;
        let a = decode_arg_list(&fields[3])?;
        Ok(Effect::LibCall(l, f, sig, a))
    } else if str_is(variant, "ReadByte") {
        need_arity(variant, fields, 2)?;
        let h = decode_int(&fields[0])?;
        let o = decode_int(&fields[1])?;
        Ok(Effect::ReadByte(h as u64, o))
    } else if str_is(variant, "ReadI16") {
        need_arity(variant, fields, 2)?;
        let h = decode_int(&fields[0])?;
        let o = decode_int(&fields[1])?;
        Ok(Effect::ReadI16(h as u64, o))
    } else if str_is(variant, "ReadI32") {
        need_arity(variant, fields, 2)?;
        let h = decode_int(&fields[0])?;
        let o = decode_int(&fields[1])?;
        Ok(Effect::ReadI32(h as u64, o))
    } else if str_is(variant, "ReadI64") {
        need_arity(variant, fields, 2)?;
        let h = decode_int(&fields[0])?;
        let o = decode_int(&fields[1])?;
        Ok(Effect::ReadI64(h as u64, o))
    } else if str_is(variant, "ReadF32") {
        need_arity(variant, fields, 2)?;
        let h = decode_int(&fields[0])?;
        let o = decode_int(&fields[1])?;
        Ok(Effect::ReadF32(h as u64, o))
    } else if str_is(variant, "ReadF64") {
        need_arity(variant, fields, 2)?;
        let h = decode_int(&fields[0])?;
        let o = decode_int(&fields[1])?;
        Ok(Effect::ReadF64(h as u64, o))
    } else if str_is(variant, "ReadStr") {
        need_arity(variant, fields, 2)?;
        let h = decode_int(&fields[0])?;
        let o = decode_int(&fields[1])?;
        Ok(Effect::ReadStr(h as u64, o))
    } else if str_is(variant, "WriteByte") {
        need_arity(variant, fields, 3)?;
        let h = decode_int(&fields[0])?;
        let o = decode_int(&fields[1])?;
        let x = decode_int(&fields[2])?;
        Ok(Effect::WriteByte(h as u64, o, x))
    } else if str_is(variant, "WriteI16") {
        need_arity(variant, fields, 3)?;
        let h = decode_int(&fields[0])?;
        let o = decode_int(&fields[1])?;
        let x = decode_int(&fields[2])?;
        Ok(Effect::WriteI16(h as u64, o, x))
    } else if str_is(variant, "WriteI32") {
        need_arity(variant, fields, 3)?;
        let h = decode_int(&fields[0])?;
        let o = decode_int(&fields[1])?;
        let x = decode_int(&fields[2])?;
        Ok(Effect::WriteI32(h as u64, o, x))
    } else if str_is(variant, "WriteI64") {
        need_arity(variant, fields, 3)?;
        let h = decode_int(&fields[0])?;
        let o = decode_int(&fields[1])?;
        let x = decode_int(&fields[2])?;
        Ok(Effect::WriteI64(h as u64, o, x))
    } else if str_is(variant, "WriteF32") {
        need_arity(variant, fields, 3)?;
        let h = decode_int(&fields[0])?;
        let o = decode_int(&fields[1])?;
        let x = decode_real(&fields[2])?;
        Ok(Effect::WriteF32(h as u64, o, x))
    } else if str_is(variant, "WriteF64") {
        need_arity(variant, fields, 3)?;
        let h = decode_int(&fields[0])?;
        let o = decode_int(&fields[1])?;
        let x = decode_real(&fields[2])?;
        Ok(Effect::WriteF64(h as u64, o, x))
    } else if str_is(variant, "WriteStr") {
        need_arity(variant, fields, 3)?;
        let h = decode_int(&fields[0])?;
        let o = decode_int(&fields[1])?;
        let x = decode_str(&fields[2])?;
        Ok(Effect::WriteStr(h as u64, o, x))
    } else if str_is(variant, "Malloc") {
        need_arity(variant, fields, 1)?;
        Ok(Effect::Malloc(decode_int(&fields[0])?))
    } else if str_is(variant, "RegisterCallback") {
        need_arity(variant, fields, 2)?;
        let a = decode_str(&fields[0])?;
        let b = decode_str(&fields[1])?;
        Ok(Effect::RegisterCallback(a, b))
    } else {
        Err(unknown_variant("Effect", variant))
    }
}

/// Decode an `Effect` value.
pub fn decode_effect(v: &Value) -> (r: Result<Effect, DecodeError>)
    ensures
        decodes_to(dec_effect(v@), r, |e: Effect| effect_view(e)),
{
    let (variant, fields) = check_enum(v, "Effect")?;
    decode_effect_fields(variant, fields)
}

/// Decode a sequence of `Effect` values, stopping at the first that does
/// not decode.
pub fn decode_effect_list(v: &Value) -> (r: Result<Vec<Effect>, DecodeError>)
    ensures
        decodes_to(dec_effect_list(v@), r, |xs: Vec<Effect>| effects_view(xs@)),
{
    proof {
        lemma_value_lists(*v);
    }
    if let Value::SeqEnum(items) = v {
        let ghost iv = values_view(items@);
        let mut out: Vec<Effect> = Vec::new();
        let mut i: usize = 0;
        assert(iv.take(0) =~= Seq::<ValueV>::empty());
        assert(effects_view(out@) =~= Seq::<EffectV>::empty());
        while i < items.len()
            invariant
                0 <= i <= items.len(),
                iv == values_view(items@),
                v@ == ValueV::SeqEnum(iv),
                dec_each(iv.take(i as int), effect_decoder()) == Ok::<Seq<EffectV>, DecodeErrorV>(effects_view(out@)),
            decreases items.len() - i,
        {
            assert(iv.take(i + 1).drop_last() =~= iv.take(i as int));
            assert(iv.take(i + 1).last() == value_view(items@[i as int]));
            match decode_effect(&items[i]) {
                Ok(a) => {
                    let ghost prev = out@;
                    out.push(a);
                    assert(effects_view(out@) =~= effects_view(prev).push(effect_view(a)));
                },
                Err(e) => {
                    proof {
                        assert(effect_decoder()(iv[i as int]) == dec_effect(iv[i as int]));
                        assert(dec_each(iv.take(i + 1), effect_decoder()) == Err::<Seq<EffectV>, DecodeErrorV>(
                            error_view(e),
                        ));
                        lemma_dec_each_prefix_err(iv, effect_decoder(), i + 1);
                    }
                    return Err(e);
                },
            }
            i += 1;
        }
        assert(iv.take(items.len() as int) =~= iv);
        return Ok(out);
    }
    Err(
        DecodeError::FieldKind {
            what: String::from_str("effects"),
            want: String::from_str("Seq(Effect)"),
            got: clone_value(v),
        },
    )
}

/// Decode an `InstallStep` value: `Run(effect)` or `Bind(field, effect)`.
pub fn decode_install_step(v: &Value) -> (r: Result<InstallStep, DecodeError>)
    ensures
        decodes_to(dec_install_step(v@), r, |s: InstallStep| install_view(s)),
{
    let (variant, fields) = check_enum(v, "InstallStep")?;
    if str_is(variant, "Run") {
        need_arity(variant, fields, 1)?;
        let effect = decode_effect(&fields[0])?;
        Ok(InstallStep { field: None, effect })
    } else if str_is(variant, "Bind") {
        need_arity(variant, fields, 2)?;
        let field = decode_str(&fields[0])?;
        let effect = decode_effect(&fields[1])?;
        Ok(InstallStep { field: Some(field), effect })
    } else {
        Err(unknown_variant("InstallStep", variant))
    }
}

/// Decode a sequence of `InstallStep` values, stopping at the first that
/// does not decode.
pub fn decode_install_step_list(v: &Value) -> (r: Result<Vec<InstallStep>, DecodeError>)
    ensures
        decodes_to(dec_install_list(v@), r, |xs: Vec<InstallStep>| installs_view(xs@)),
{
    proof {
        lemma_value_lists(*v);
    }
    if let Value::SeqEnum(items) = v {
        let ghost iv = values_view(items@);
        let mut out: Vec<InstallStep> = Vec::new();
        let mut i: usize = 0;
        assert(iv.take(0) =~= Seq::<ValueV>::empty());
        assert(installs_view(out@) =~= Seq::<InstallStepV>::empty());
        while i < items.len()
            invariant
                0 <= i <= items.len(),
                iv == values_view(items@),
                v@ == ValueV::SeqEnum(iv),
                dec_each(iv.take(i as int), install_decoder()) == Ok::<Seq<InstallStepV>, DecodeErrorV>(
                    installs_view(out@),
                ),
            decreases items.len() - i,
        {
            assert(iv.take(i + 1).drop_last() =~= iv.take(i as int));
            assert(iv.take(i + 1).last() == value_view(items@[i as int]));
            match decode_install_step(&items[i]) {
                Ok(a) => {
                    let ghost prev = out@;
                    let ghost av = install_view(a);
                    out.push(a);
                    assert(installs_view(out@) =~= installs_view(prev).push(av));
                },
                Err(e) => {
                    proof {
                        assert(install_decoder()(iv[i as int]) == dec_install_step(iv[i as int]));
                        assert(dec_each(iv.take(i + 1), install_decoder()) == Err::<Seq<InstallStepV>, DecodeErrorV>(
                            error_view(e),
                        ));
                        lemma_dec_each_prefix_err(iv, install_decoder(), i + 1);
                    }
                    return Err(e);
                },
            }
            i += 1;
        }
        assert(iv.take(items.len() as int) =~= iv);
        return Ok(out);
    }
    Err(
        DecodeError::FieldKind {
            what: String::from_str("install"),
            want: String::from_str("Seq(InstallStep)"),
            got: clone_value(v),
        },
    )
}

/// Decode a `Result` value into an effect result.
pub fn decode_result(v: &Value) -> (r: Result<EffectResult, DecodeError>)
    ensures
        decodes_to(dec_result(v@), r, |x: EffectResult| result_view(x)),
{
    let (variant, fields) = check_enum(v, "Result")?;
    if str_is(variant, "NoResult") {
        need_arity(variant, fields, 0)?;
        Ok(EffectResult::NoResult)
    } else if str_is(variant, "IntResult") {
        need_arity(variant, fields, 1)?;
        Ok(EffectResult::Int(decode_int(&fields[0])?))
    } else if str_is(variant, "StringResult") {
        need_arity(variant, fields, 1)?;
        Ok(EffectResult::Str(decode_str(&fields[0])?))
    } else if str_is(variant, "BoolResult") {
        need_arity(variant, fields, 1)?;
        Ok(EffectResult::Bool(decode_bool(&fields[0])?))
    } else if str_is(variant, "RealResult") {
        need_arity(variant, fields, 1)?;
        Ok(EffectResult::Real(decode_real(&fields[0])?))
    } else if str_is(variant, "HandleResult") {
        need_arity(variant, fields, 1)?;
        let n = decode_int(&fields[0])?;
        Ok(EffectResult::Handle(n as u64))
    } else if str_is(variant, "ErrorResult") {
        need_arity(variant, fields, 1)?;
        Ok(EffectResult::Error(decode_str(&fields[0])?))
    } else {
        Err(unknown_variant("Result", variant))
    }
}

// ───────────────────────────── encoding ─────────────────────────────

/// The `Result` enum value of an effect result.
pub open spec fn result_value(r: EffectResultV) -> ValueV {
    let (name, fields) = match r {
        EffectResultV::NoResult => ("NoResult"@, Seq::<ValueV>::empty()),
        EffectResultV::Int(n) => ("IntResult"@, seq![ValueV::Int(n)]),
        EffectResultV::Str(s) => ("StringResult"@, seq![ValueV::Str(s)]),
        EffectResultV::Bool(b) => ("BoolResult"@, seq![ValueV::Bool(b)]),
        EffectResultV::Real(x) => ("RealResult"@, seq![ValueV::Real(x)]),
        EffectResultV::Handle(h) => ("HandleResult"@, seq![ValueV::Int(h as i64)]),
        EffectResultV::Error(s) => ("ErrorResult"@, seq![ValueV::Str(s)]),
    };
    ValueV::Enum { enum_name: "Result"@, variant: name, fields }
}

fn result_enum(variant: &str, fields: Vec<Value>) -> (v: Value)
    ensures
        v@ == (ValueV::Enum { enum_name: "Result"@, variant: variant@, fields: values_view(fields@) }),
{
    let v = Value::Enum { enum_name: String::from_str("Result"), variant: String::from_str(variant), fields };
    proof {
        lemma_value_lists(v);
    }
    v
}

fn result_to_value(r: &EffectResult) -> (v: Value)
    ensures
        v@ == result_value(result_view(*r)),
{
    let mut fields: Vec<Value> = Vec::new();
    let v = match r {
        EffectResult::NoResult => {
            assert(values_view(fields@) =~= Seq::<ValueV>::empty());
            result_enum("NoResult", fields)
        },
        EffectResult::Int(n) => {
            fields.push(Value::Int(*n));
            assert(values_view(fields@) =~= seq![ValueV::Int(*n)]);
            result_enum("IntResult", fields)
        },
        EffectResult::Str(s) => {
            fields.push(Value::Str(s.clone()));
            assert(values_view(fields@) =~= seq![ValueV::Str(s@)]);
            result_enum("StringResult", fields)
        },
        EffectResult::Bool(b) => {
            fields.push(Value::Bool(*b));
            assert(values_view(fields@) =~= seq![ValueV::Bool(*b)]);
            result_enum("BoolResult", fields)
        },
        EffectResult::Real(x) => {
            fields.push(Value::Real(*x));
            assert(values_view(fields@) =~= seq![ValueV::Real(*x)]);
            result_enum("RealResult", fields)
        },
        EffectResult::Handle(h) => {
            fields.push(Value::Int(*h as i64));
            assert(values_view(fields@) =~= seq![ValueV::Int(*h as i64)]);
            result_enum("HandleResult", fields)
        },
        EffectResult::Error(s) => {
            fields.push(Value::Str(s.clone()));
            assert(values_view(fields@) =~= seq![ValueV::Str(s@)]);
            result_enum("ErrorResult", fields)
        },
    };
    v
}

/// The `last_results` value for a tick: the `Result` enum value of each
/// effect result, in order, as a sequence of enum values.
pub fn effect_results_to_value(items: &[EffectResult]) -> (v: Value)
    ensures
        v@ == ValueV::SeqEnum(Seq::new(items@.len(), |i: int| result_value(result_view(items@[i])))),
{
    let mut elems: Vec<Value> = Vec::new();
    let mut i: usize = 0;
    while i < items.len()
        invariant
            0 <= i <= items.len(),
            elems.len() == i,
            forall|k: int| 0 <= k < i ==> #[trigger] value_view(elems@[k]) == result_value(result_view(items@[k])),
        decreases items.len() - i,
    {
        elems.push(result_to_value(&items[i]));
        i += 1;
    }
    let v = Value::SeqEnum(elems);
    proof {
        lemma_value_lists(v);
        assert(values_view(elems@) =~= Seq::new(items@.len(), |i: int| result_value(result_view(items@[i]))));
    }
    v
}


/// Encoding an effect result as a `Result` value and decoding that value
/// gives the effect result back.
pub proof fn law_result_roundtrip(r: EffectResultV)
    ensures
        dec_result(result_value(r)) == Ok::<EffectResultV, DecodeErrorV>(r),
{
    reveal_strlit("Result");
    reveal_strlit("NoResult");
    reveal_strlit("IntResult");
    reveal_strlit("StringResult");
    reveal_strlit("BoolResult");
    reveal_strlit("RealResult");
    reveal_strlit("HandleResult");
    reveal_strlit("ErrorResult");
    let names = seq!["NoResult"@, "IntResult"@, "StringResult"@, "BoolResult"@, "RealResult"@, "HandleResult"@, "ErrorResult"@];
    assert(names[0].len() == 8 && names[1].len() == 9 && names[2].len() == 12 && names[3].len() == 10);
    assert(names[4].len() == 10 && names[5].len() == 12 && names[6].len() == 11);
    assert(names[3][0] != names[4][0] && names[2][0] != names[5][0]);
    assert(forall|i: int, j: int| 0 <= i < j < 7 ==> names[i] != names[j]);
    match r {
        EffectResultV::Handle(h) => {
            assert((h as i64) as u64 == h) by (bit_vector);
        },
        _ => {},
    }
}

/// A copy of a vector of copyable values.
fn copy_vec<T: Copy>(v: &Vec<T>) -> (r: Vec<T>)
    ensures
        r@ == v@,
{
    let mut out: Vec<T> = Vec::new();
    let mut i: usize = 0;
    while i < v.len()
        invariant
            0 <= i <= v.len(),
            out@ == v@.take(i as int),
        decreases v.len() - i,
    {
        out.push(v[i]);
        assert(out@ =~= v@.take(i + 1));
        i += 1;
    }
    assert(v@.take(v.len() as int) =~= v@);
    out
}

/// A copy of a foreign-call argument.
pub fn clone_ffi_arg(a: &EffectFfiArg) -> (r: EffectFfiArg)
    ensures
        ffi_arg_view(r) == ffi_arg_view(*a),
{
    match a {
        EffectFfiArg::Int(n) => EffectFfiArg::Int(*n),
        EffectFfiArg::Bool(b) => EffectFfiArg::Bool(*b),
        EffectFfiArg::Str(s) => EffectFfiArg::Str(s.clone()),
        EffectFfiArg::Real(r) => EffectFfiArg::Real(*r),
        EffectFfiArg::Handle(h) => EffectFfiArg::Handle(*h),
        EffectFfiArg::StrArr(v) => EffectFfiArg::StrArr(clone_str_vec(v)),
        EffectFfiArg::IntOut => EffectFfiArg::IntOut,
        EffectFfiArg::PriorResult(i) => EffectFfiArg::PriorResult(*i),
        EffectFfiArg::I32Buf(v) => EffectFfiArg::I32Buf(copy_vec(v)),
        EffectFfiArg::PackedBuf(v) => EffectFfiArg::PackedBuf(copy_vec(v)),
    }
}

/// A copy of each foreign-call argument.
pub fn clone_ffi_args(v: &Vec<EffectFfiArg>) -> (r: Vec<EffectFfiArg>)
    ensures
        ffi_args_view(r@) == ffi_args_view(v@),
{
    let mut out: Vec<EffectFfiArg> = Vec::new();
    let mut i: usize = 0;
    while i < v.len()
        invariant
            0 <= i <= v.len(),
            out.len() == i,
            forall|k: int| 0 <= k < i ==> #[trigger] ffi_arg_view(out@[k]) == ffi_arg_view(v@[k]),
        decreases v.len() - i,
    {
        out.push(clone_ffi_arg(&v[i]));
        i += 1;
    }
    assert(ffi_args_view(out@) =~= ffi_args_view(v@));
    out
}

/// A copy of an effect.
pub fn clone_effect(e: &Effect) -> (r: Effect)
    ensures
        effect_view(r) == effect_view(*e),
{
    match e {
        Effect::NoEffect => Effect::NoEffect,
        Effect::Print(s) => Effect::Print(s.clone()),
        Effect::Println(s) => Effect::Println(s.clone()),
        Effect::Exit(n) => Effect::Exit(*n),
        Effect::FFIOpen(s) => Effect::FFIOpen(s.clone()),
        Effect::FFILookup(h, s) => Effect::FFILookup(*h, s.clone()),
        Effect::FFICall(h, s, a) => Effect::FFICall(*h, s.clone(), clone_ffi_args(a)),
        Effect::CloseHandle(h) => Effect::CloseHandle(*h),
        Effect::LibCall(l, f, sig, a) => Effect::LibCall(l.clone(), f.clone(), sig.clone(), clone_ffi_args(a)),
        Effect::ReadByte(h, o) => Effect::ReadByte(*h, *o),
        Effect::ReadI16(h, o) => Effect::ReadI16(*h, *o),
        Effect::ReadI32(h, o) => Effect::ReadI32(*h, *o),
        Effect::ReadI64(h, o) => Effect::ReadI64(*h, *o),
        Effect::ReadF32(h, o) => Effect::ReadF32(*h, *o),
        Effect::ReadF64(h, o) => Effect::ReadF64(*h, *o),
        Effect::ReadStr(h, o) => Effect::ReadStr(*h, *o),
        Effect::WriteByte(h, o, x) => Effect::WriteByte(*h, *o, *x),
        Effect::WriteI16(h, o, x) => Effect::WriteI16(*h, *o, *x),
        Effect::WriteI32(h, o, x) => Effect::WriteI32(*h, *o, *x),
        Effect::WriteI64(h, o, x) => Effect::WriteI64(*h, *o, *x),
        Effect::WriteF32(h, o, x) => Effect::WriteF32(*h, *o, *x),
        Effect::WriteF64(h, o, x) => Effect::WriteF64(*h, *o, *x),
        Effect::WriteStr(h, o, s) => Effect::WriteStr(*h, *o, s.clone()),
        Effect::Malloc(n) => Effect::Malloc(*n),
        Effect::RegisterCallback(a, b) => Effect::RegisterCallback(a.clone(), b.clone()),
    }
}


// ───────────────────────────── equality ─────────────────────────────

fn i32s_equal(a: &Vec<i32>, b: &Vec<i32>) -> (r: bool)
    ensures
        r == (a@ == b@),
{
    if a.len() != b.len() {
        return false;
    }
    let mut i: usize = 0;
    while i < a.len()
        invariant
            a.len() == b.len(),
            0 <= i <= a.len(),
            forall|k: int| 0 <= k < i ==> a@[k] == b@[k],
        decreases a.len() - i,
    {
        if a[i] != b[i] {
            return false;
        }
        i += 1;
    }
    assert(a@ =~= b@);
    true
}

fn packed_equal(a: &Vec<PackedField>, b: &Vec<PackedField>) -> (r: bool)
    ensures
        r == (a@ == b@),
{
    if a.len() != b.len() {
        return false;
    }
    let mut i: usize = 0;
    while i < a.len()
        invariant
            a.len() == b.len(),
            0 <= i <= a.len(),
            forall|k: int| 0 <= k < i ==> a@[k] == b@[k],
        decreases a.len() - i,
    {
        if a[i] != b[i] {
            return false;
        }
        i += 1;
    }
    assert(a@ =~= b@);
    true
}

fn ffi_arg_equal(a: &EffectFfiArg, b: &EffectFfiArg) -> (r: bool)
    ensures
        r == (ffi_arg_view(*a) == ffi_arg_view(*b)),
{
    match (a, b) {
        (EffectFfiArg::Int(x), EffectFfiArg::Int(y)) => *x == *y,
        (EffectFfiArg::Bool(x), EffectFfiArg::Bool(y)) => *x == *y,
        (EffectFfiArg::Str(x), EffectFfiArg::Str(y)) => *x == *y,
        (EffectFfiArg::Real(x), EffectFfiArg::Real(y)) => *x == *y,
        (EffectFfiArg::Handle(x), EffectFfiArg::Handle(y)) => *x == *y,
        (EffectFfiArg::StrArr(x), EffectFfiArg::StrArr(y)) => crate::value::strs_equal(x, y),
        (EffectFfiArg::IntOut, EffectFfiArg::IntOut) => true,
        (EffectFfiArg::PriorResult(x), EffectFfiArg::PriorResult(y)) => *x == *y,
        (EffectFfiArg::I32Buf(x), EffectFfiArg::I32Buf(y)) => i32s_equal(x, y),
        (EffectFfiArg::PackedBuf(x), EffectFfiArg::PackedBuf(y)) => packed_equal(x, y),
        _ => false,
    }
}

fn ffi_args_equal(a: &Vec<EffectFfiArg>, b: &Vec<EffectFfiArg>) -> (r: bool)
    ensures
        r == (ffi_args_view(a@) == ffi_args_view(b@)),
{
    if a.len() != b.len() {
        assert(ffi_args_view(a@).len() != ffi_args_view(b@).len());
        return false;
    }
    let mut i: usize = 0;
    while i < a.len()
        invariant
            a.len() == b.len(),
            0 <= i <= a.len(),
            forall|k: int| 0 <= k < i ==> ffi_arg_view(a@[k]) == ffi_arg_view(b@[k]),
        decreases a.len() - i,
    {
        if !ffi_arg_equal(&a[i], &b[i]) {
            assert(ffi_args_view(a@)[i as int] != ffi_args_view(b@)[i as int]);
            return false;
        }
        i += 1;
    }
    assert(ffi_args_view(a@) =~= ffi_args_view(b@));
    true
}

/// Are the two effects equal (by their views)?
pub fn effects_equal(a: &Effect, b: &Effect) -> (r: bool)
    ensures
        r == (effect_view(*a) == effect_view(*b)),
{
    match (a, b) {
            (Effect::NoEffect, Effect::NoEffect) => true,
            (Effect::Print(x0), Effect::Print(y0)) => *x0 == *y0,
            (Effect::Println(x0), Effect::Println(y0)) => *x0 == *y0,
            (Effect::Exit(x0), Effect::Exit(y0)) => *x0 == *y0,
            (Effect::FFIOpen(x0), Effect::FFIOpen(y0)) => *x0 == *y0,
            (Effect::FFILookup(x0, x1), Effect::FFILookup(y0, y1)) => *x0 == *y0 && *x1 == *y1,
            (Effect::FFICall(x0, x1, x2), Effect::FFICall(y0, y1, y2)) => *x0 == *y0 && *x1 == *y1 && ffi_args_equal(x2, y2),
            (Effect::CloseHandle(x0), Effect::CloseHandle(y0)) => *x0 == *y0,
            (Effect::LibCall(x0, x1, x2, x3), Effect::LibCall(y0, y1, y2, y3)) => *x0 == *y0 && *x1 == *y1 && *x2 == *y2 && ffi_args_equal(x3, y3),
            (Effect::ReadByte(x0, x1), Effect::ReadByte(y0, y1)) => *x0 == *y0 && *x1 == *y1,
            (Effect::ReadI16(x0, x1), Effect::ReadI16(y0, y1)) => *x0 == *y0 && *x1 == *y1,
            (Effect::ReadI32(x0, x1), Effect::ReadI32(y0, y1)) => *x0 == *y0 && *x1 == *y1,
            (Effect::ReadI64(x0, x1), Effect::ReadI64(y0, y1)) => *x0 == *y0 && *x1 == *y1,
            (Effect::ReadF32(x0, x1), Effect::ReadF32(y0, y1)) => *x0 == *y0 && *x1 == *y1,
            (Effect::ReadF64(x0, x1), Effect::ReadF64(y0, y1)) => *x0 == *y0 && *x1 == *y1,
            (Effect::ReadStr(x0, x1), Effect::ReadStr(y0, y1)) => *x0 == *y0 && *x1 == *y1,
            (Effect::WriteByte(x0, x1, x2), Effect::WriteByte(y0, y1, y2)) => *x0 == *y0 && *x1 == *y1 && *x2 == *y2,
            (Effect::WriteI16(x0, x1, x2), Effect::WriteI16(y0, y1, y2)) => *x0 == *y0 && *x1 == *y1 && *x2 == *y2,
            (Effect::WriteI32(x0, x1, x2), Effect::WriteI32(y0, y1, y2)) => *x0 == *y0 && *x1 == *y1 && *x2 == *y2,
            (Effect::WriteI64(x0, x1, x2), Effect::WriteI64(y0, y1, y2)) => *x0 == *y0 && *x1 == *y1 && *x2 == *y2,
            (Effect::WriteF32(x0, x1, x2), Effect::WriteF32(y0, y1, y2)) => *x0 == *y0 && *x1 == *y1 && *x2 == *y2,
            (Effect::WriteF64(x0, x1, x2), Effect::WriteF64(y0, y1, y2)) => *x0 == *y0 && *x1 == *y1 && *x2 == *y2,
            (Effect::WriteStr(x0, x1, x2), Effect::WriteStr(y0, y1, y2)) => *x0 == *y0 && *x1 == *y1 && *x2 == *y2,
            (Effect::Malloc(x0), Effect::Malloc(y0)) => *x0 == *y0,
            (Effect::RegisterCallback(x0, x1), Effect::RegisterCallback(y0, y1)) => *x0 == *y0 && *x1 == *y1,
        _ => false,
    }
}

// ───────────────────────────── decoding laws ─────────────────────────────

/// The `Effect` enum value with `variant` and `fields`.
pub open spec fn effect_value(variant: Seq<char>, fields: Seq<ValueV>) -> ValueV {
    ValueV::Enum { enum_name: "Effect"@, variant, fields }
}

proof fn lemma_dec_noeffect(s: Seq<char>, t: Seq<char>, u: Seq<char>, h: i64, x: i64, argv: ValueV)
    ensures
        dec_effect(effect_value("NoEffect"@, seq![])) == Ok::<EffectV, DecodeErrorV>(EffectV::NoEffect),
{
    reveal_strlit("NoEffect");
    reveal_strlit("Effect");

}

proof fn lemma_dec_print(s: Seq<char>, t: Seq<char>, u: Seq<char>, h: i64, x: i64, argv: ValueV)
    ensures
        dec_effect(effect_value("Print"@, seq![ValueV::Str(s)])) == Ok::<EffectV, DecodeErrorV>(EffectV::Print(s)),
{
    reveal_strlit("NoEffect");
    reveal_strlit("Print");
    reveal_strlit("Effect");
    assert("Print"@.len() != "NoEffect"@.len());
}

proof fn lemma_dec_println(s: Seq<char>, t: Seq<char>, u: Seq<char>, h: i64, x: i64, argv: ValueV)
    ensures
        dec_effect(effect_value("Println"@, seq![ValueV::Str(s)])) == Ok::<EffectV, DecodeErrorV>(EffectV::Println(s)),
{
    reveal_strlit("NoEffect");
    reveal_strlit("Print");
    reveal_strlit("Println");
    reveal_strlit("Effect");
    assert("Println"@.len() != "NoEffect"@.len());
    assert("Println"@.len() != "Print"@.len());
}

proof fn lemma_dec_ffiopen(s: Seq<char>, t: Seq<char>, u: Seq<char>, h: i64, x: i64, argv: ValueV)
    ensures
        dec_effect(effect_value("FFIOpen"@, seq![ValueV::Str(s)])) == Ok::<EffectV, DecodeErrorV>(EffectV::FFIOpen(s)),
{
    reveal_strlit("NoEffect");
    reveal_strlit("Print");
    reveal_strlit("Println");
    reveal_strlit("Exit");
    reveal_strlit("FFIOpen");
    reveal_strlit("Effect");
    assert("FFIOpen"@.len() != "NoEffect"@.len());
    assert("FFIOpen"@.len() != "Print"@.len());
    assert("FFIOpen"@[0] != "Println"@[0]);
    assert("FFIOpen"@.len() != "Exit"@.len());
}

proof fn lemma_dec_exit(s: Seq<char>, t: Seq<char>, u: Seq<char>, h: i64, x: i64, argv: ValueV)
    ensures
        dec_effect(effect_value("Exit"@, seq![ValueV::Int(x)])) == Ok::<EffectV, DecodeErrorV>(EffectV::Exit(x)),
{
    reveal_strlit("NoEffect");
    reveal_strlit("Print");
    reveal_strlit("Println");
    reveal_strlit("Exit");
    reveal_strlit("Effect");
    assert("Exit"@.len() != "NoEffect"@.len());
    assert("Exit"@.len() != "Print"@.len());
    assert("Exit"@.len() != "Println"@.len());
}

proof fn lemma_dec_malloc(s: Seq<char>, t: Seq<char>, u: Seq<char>, h: i64, x: i64, argv: ValueV)
    ensures
        dec_effect(effect_value("Malloc"@, seq![ValueV::Int(x)])) == Ok::<EffectV, DecodeErrorV>(EffectV::Malloc(x)),
{
    reveal_strlit("NoEffect");
    reveal_strlit("Print");
    reveal_strlit("Println");
    reveal_strlit("Exit");
    reveal_strlit("FFIOpen");
    reveal_strlit("FFILookup");
    reveal_strlit("FFICall");
    reveal_strlit("CloseHandle");
    reveal_strlit("LibCall");
    reveal_strlit("ReadByte");
    reveal_strlit("ReadI16");
    reveal_strlit("ReadI32");
    reveal_strlit("ReadI64");
    reveal_strlit("ReadF32");
    reveal_strlit("ReadF64");
    reveal_strlit("ReadStr");
    reveal_strlit("WriteByte");
    reveal_strlit("WriteI16");
    reveal_strlit("WriteI32");
    reveal_strlit("WriteI64");
    reveal_strlit("WriteF32");
    reveal_strlit("WriteF64");
    reveal_strlit("WriteStr");
    reveal_strlit("Malloc");
    reveal_strlit("Effect");
    assert("Malloc"@.len() != "NoEffect"@.len());
    assert("Malloc"@.len() != "Print"@.len());
    assert("Malloc"@.len() != "Println"@.len());
    assert("Malloc"@.len() != "Exit"@.len());
    assert("Malloc"@.len() != "FFIOpen"@.len());
    assert("Malloc"@.len() != "FFILookup"@.len());
    assert("Malloc"@.len() != "FFICall"@.len());
    assert("Malloc"@.len() != "CloseHandle"@.len());
    assert("Malloc"@.len() != "LibCall"@.len());
    assert("Malloc"@.len() != "ReadByte"@.len());
    assert("Malloc"@.len() != "ReadI16"@.len());
    assert("Malloc"@.len() != "ReadI32"@.len());
    assert("Malloc"@.len() != "ReadI64"@.len());
    assert("Malloc"@.len() != "ReadF32"@.len());
    assert("Malloc"@.len() != "ReadF64"@.len());
    assert("Malloc"@.len() != "ReadStr"@.len());
    assert("Malloc"@.len() != "WriteByte"@.len());
    assert("Malloc"@.len() != "WriteI16"@.len());
    assert("Malloc"@.len() != "WriteI32"@.len());
    assert("Malloc"@.len() != "WriteI64"@.len());
    assert("Malloc"@.len() != "WriteF32"@.len());
    assert("Malloc"@.len() != "WriteF64"@.len());
    assert("Malloc"@.len() != "WriteStr"@.len());
}

proof fn lemma_dec_closehandle(s: Seq<char>, t: Seq<char>, u: Seq<char>, h: i64, x: i64, argv: ValueV)
    ensures
        dec_effect(effect_value("CloseHandle"@, seq![ValueV::Int(h)])) == Ok::<EffectV, DecodeErrorV>(EffectV::CloseHandle(h as u64)),
{
    reveal_strlit("NoEffect");
    reveal_strlit("Print");
    reveal_strlit("Println");
    reveal_strlit("Exit");
    reveal_strlit("FFIOpen");
    reveal_strlit("FFILookup");
    reveal_strlit("FFICall");
    reveal_strlit("CloseHandle");
    reveal_strlit("Effect");
    assert("CloseHandle"@.len() != "NoEffect"@.len());
    assert("CloseHandle"@.len() != "Print"@.len());
    assert("CloseHandle"@.len() != "Println"@.len());
    assert("CloseHandle"@.len() != "Exit"@.len());
    assert("CloseHandle"@.len() != "FFIOpen"@.len());
    assert("CloseHandle"@.len() != "FFILookup"@.len());
    assert("CloseHandle"@.len() != "FFICall"@.len());
}

proof fn lemma_dec_ffilookup(s: Seq<char>, t: Seq<char>, u: Seq<char>, h: i64, x: i64, argv: ValueV)
    ensures
        dec_effect(effect_value("FFILookup"@, seq![ValueV::Int(h), ValueV::Str(s)])) == Ok::<EffectV, DecodeErrorV>(EffectV::FFILookup(h as u64, s)),
{
    reveal_strlit("NoEffect");
    reveal_strlit("Print");
    reveal_strlit("Println");
    reveal_strlit("Exit");
    reveal_strlit("FFIOpen");
    reveal_strlit("FFILookup");
    reveal_strlit("Effect");
    assert("FFILookup"@.len() != "NoEffect"@.len());
    assert("FFILookup"@.len() != "Print"@.len());
    assert("FFILookup"@.len() != "Println"@.len());
    assert("FFILookup"@.len() != "Exit"@.len());
    assert("FFILookup"@.len() != "FFIOpen"@.len());
}

proof fn lemma_dec_registercallback(s: Seq<char>, t: Seq<char>, u: Seq<char>, h: i64, x: i64, argv: ValueV)
    ensures
        dec_effect(effect_value("RegisterCallback"@, seq![ValueV::Str(s), ValueV::Str(t)])) == Ok::<EffectV, DecodeErrorV>(EffectV::RegisterCallback(s, t)),
{
    reveal_strlit("NoEffect");
    reveal_strlit("Print");
    reveal_strlit("Println");
    reveal_strlit("Exit");
    reveal_strlit("FFIOpen");
    reveal_strlit("FFILookup");
    reveal_strlit("FFICall");
    reveal_strlit("CloseHandle");
    reveal_strlit("LibCall");
    reveal_strlit("ReadByte");
    reveal_strlit("ReadI16");
    reveal_strlit("ReadI32");
    reveal_strlit("ReadI64");
    reveal_strlit("ReadF32");
    reveal_strlit("ReadF64");
    reveal_strlit("ReadStr");
    reveal_strlit("WriteByte");
    reveal_strlit("WriteI16");
    reveal_strlit("WriteI32");
    reveal_strlit("WriteI64");
    reveal_strlit("WriteF32");
    reveal_strlit("WriteF64");
    reveal_strlit("WriteStr");
    reveal_strlit("Malloc");
    reveal_strlit("RegisterCallback");
    reveal_strlit("Effect");
    assert("RegisterCallback"@.len() != "NoEffect"@.len());
    assert("RegisterCallback"@.len() != "Print"@.len());
    assert("RegisterCallback"@.len() != "Println"@.len());
    assert("RegisterCallback"@.len() != "Exit"@.len());
    assert("RegisterCallback"@.len() != "FFIOpen"@.len());
    assert("RegisterCallback"@.len() != "FFILookup"@.len());
    assert("RegisterCallback"@.len() != "FFICall"@.len());
    assert("RegisterCallback"@.len() != "CloseHandle"@.len());
    assert("RegisterCallback"@.len() != "LibCall"@.len());
    assert("RegisterCallback"@.len() != "ReadByte"@.len());
    assert("RegisterCallback"@.len() != "ReadI16"@.len());
    assert("RegisterCallback"@.len() != "ReadI32"@.len());
    assert("RegisterCallback"@.len() != "ReadI64"@.len());
    assert("RegisterCallback"@.len() != "ReadF32"@.len());
    assert("RegisterCallback"@.len() != "ReadF64"@.len());
    assert("RegisterCallback"@.len() != "ReadStr"@.len());
    assert("RegisterCallback"@.len() != "WriteByte"@.len());
    assert("RegisterCallback"@.len() != "WriteI16"@.len());
    assert("RegisterCallback"@.len() != "WriteI32"@.len());
    assert("RegisterCallback"@.len() != "WriteI64"@.len());
    assert("RegisterCallback"@.len() != "WriteF32"@.len());
    assert("RegisterCallback"@.len() != "WriteF64"@.len());
    assert("RegisterCallback"@.len() != "WriteStr"@.len());
    assert("RegisterCallback"@.len() != "Malloc"@.len());
}

proof fn lemma_dec_fficall(s: Seq<char>, t: Seq<char>, u: Seq<char>, h: i64, x: i64, argv: ValueV)
    ensures
        dec_effect(effect_value("FFICall"@, seq![ValueV::Int(h), ValueV::Str(s), argv])) == (match dec_arg_list(argv) { Ok(a) => Ok::<EffectV, DecodeErrorV>(EffectV::FFICall(h as u64, s, a)), Err(e) => Err(e) }),
{
    reveal_strlit("NoEffect");
    reveal_strlit("Print");
    reveal_strlit("Println");
    reveal_strlit("Exit");
    reveal_strlit("FFIOpen");
    reveal_strlit("FFILookup");
    reveal_strlit("FFICall");
    reveal_strlit("Effect");
    assert("FFICall"@.len() != "NoEffect"@.len());
    assert("FFICall"@.len() != "Print"@.len());
    assert("FFICall"@[0] != "Println"@[0]);
    assert("FFICall"@.len() != "Exit"@.len());
    assert("FFICall"@[3] != "FFIOpen"@[3]);
    assert("FFICall"@.len() != "FFILookup"@.len());
}

proof fn lemma_dec_libcall(s: Seq<char>, t: Seq<char>, u: Seq<char>, h: i64, x: i64, argv: ValueV)
    ensures
        dec_effect(effect_value("LibCall"@, seq![ValueV::Str(s), ValueV::Str(t), ValueV::Str(u), argv])) == (match dec_arg_list(argv) { Ok(a) => Ok::<EffectV, DecodeErrorV>(EffectV::LibCall(s, t, u, a)), Err(e) => Err(e) }),
{
    reveal_strlit("NoEffect");
    reveal_strlit("Print");
    reveal_strlit("Println");
    reveal_strlit("Exit");
    reveal_strlit("FFIOpen");
    reveal_strlit("FFILookup");
    reveal_strlit("FFICall");
    reveal_strlit("CloseHandle");
    reveal_strlit("LibCall");
    reveal_strlit("Effect");
    assert("LibCall"@.len() != "NoEffect"@.len());
    assert("LibCall"@.len() != "Print"@.len());
    assert("LibCall"@[0] != "Println"@[0]);
    assert("LibCall"@.len() != "Exit"@.len());
    assert("LibCall"@[0] != "FFIOpen"@[0]);
    assert("LibCall"@.len() != "FFILookup"@.len());
    assert("LibCall"@[0] != "FFICall"@[0]);
    assert("LibCall"@.len() != "CloseHandle"@.len());
}

/// Law: an `Effect` value whose fields have the right kinds decodes to the
/// effect of the same name with those fields, in the order given; a
/// handle field is read as an unsigned number.
pub proof fn law_decode_effect_fields_in_order(s: Seq<char>, t: Seq<char>, u: Seq<char>, h: i64, x: i64, argv: ValueV)
    ensures
        dec_effect(effect_value("NoEffect"@, seq![])) == Ok::<EffectV, DecodeErrorV>(EffectV::NoEffect),
        dec_effect(effect_value("Print"@, seq![ValueV::Str(s)])) == Ok::<EffectV, DecodeErrorV>(EffectV::Print(s)),
        dec_effect(effect_value("Println"@, seq![ValueV::Str(s)])) == Ok::<EffectV, DecodeErrorV>(EffectV::Println(s)),
        dec_effect(effect_value("FFIOpen"@, seq![ValueV::Str(s)])) == Ok::<EffectV, DecodeErrorV>(EffectV::FFIOpen(s)),
        dec_effect(effect_value("Exit"@, seq![ValueV::Int(x)])) == Ok::<EffectV, DecodeErrorV>(EffectV::Exit(x)),
        dec_effect(effect_value("Malloc"@, seq![ValueV::Int(x)])) == Ok::<EffectV, DecodeErrorV>(EffectV::Malloc(x)),
        dec_effect(effect_value("CloseHandle"@, seq![ValueV::Int(h)])) == Ok::<EffectV, DecodeErrorV>(EffectV::CloseHandle(h as u64)),
        dec_effect(effect_value("FFILookup"@, seq![ValueV::Int(h), ValueV::Str(s)])) == Ok::<EffectV, DecodeErrorV>(EffectV::FFILookup(h as u64, s)),
        dec_effect(effect_value("RegisterCallback"@, seq![ValueV::Str(s), ValueV::Str(t)])) == Ok::<EffectV, DecodeErrorV>(EffectV::RegisterCallback(s, t)),
        dec_effect(effect_value("FFICall"@, seq![ValueV::Int(h), ValueV::Str(s), argv])) == (match dec_arg_list(argv) { Ok(a) => Ok::<EffectV, DecodeErrorV>(EffectV::FFICall(h as u64, s, a)), Err(e) => Err(e) }),
        dec_effect(effect_value("LibCall"@, seq![ValueV::Str(s), ValueV::Str(t), ValueV::Str(u), argv])) == (match dec_arg_list(argv) { Ok(a) => Ok::<EffectV, DecodeErrorV>(EffectV::LibCall(s, t, u, a)), Err(e) => Err(e) }),
{
    lemma_dec_noeffect(s, t, u, h, x, argv);
    lemma_dec_print(s, t, u, h, x, argv);
    lemma_dec_println(s, t, u, h, x, argv);
    lemma_dec_ffiopen(s, t, u, h, x, argv);
    lemma_dec_exit(s, t, u, h, x, argv);
    lemma_dec_malloc(s, t, u, h, x, argv);
    lemma_dec_closehandle(s, t, u, h, x, argv);
    lemma_dec_ffilookup(s, t, u, h, x, argv);
    lemma_dec_registercallback(s, t, u, h, x, argv);
    lemma_dec_fficall(s, t, u, h, x, argv);
    lemma_dec_libcall(s, t, u, h, x, argv);
}

proof fn lemma_dec_readbyte(h: i64, o: i64)
    ensures
        dec_effect(effect_value("ReadByte"@, seq![ValueV::Int(h), ValueV::Int(o)])) == Ok::<EffectV, DecodeErrorV>(EffectV::ReadByte(h as u64, o)),
{
    reveal_strlit("NoEffect");
    reveal_strlit("Print");
    reveal_strlit("Println");
    reveal_strlit("Exit");
    reveal_strlit("FFIOpen");
    reveal_strlit("FFILookup");
    reveal_strlit("FFICall");
    reveal_strlit("CloseHandle");
    reveal_strlit("LibCall");
    reveal_strlit("ReadByte");
    reveal_strlit("Effect");
    assert("ReadByte"@[0] != "NoEffect"@[0]);
    assert("ReadByte"@.len() != "Print"@.len());
    assert("ReadByte"@.len() != "Println"@.len());
    assert("ReadByte"@.len() != "Exit"@.len());
    assert("ReadByte"@.len() != "FFIOpen"@.len());
    assert("ReadByte"@.len() != "FFILookup"@.len());
    assert("ReadByte"@.len() != "FFICall"@.len());
    assert("ReadByte"@.len() != "CloseHandle"@.len());
    assert("ReadByte"@.len() != "LibCall"@.len());
}

proof fn lemma_dec_readi16(h: i64, o: i64)
    ensures
        dec_effect(effect_value("ReadI16"@, seq![ValueV::Int(h), ValueV::Int(o)])) == Ok::<EffectV, DecodeErrorV>(EffectV::ReadI16(h as u64, o)),
{
    reveal_strlit("NoEffect");
    reveal_strlit("Print");
    reveal_strlit("Println");
    reveal_strlit("Exit");
    reveal_strlit("FFIOpen");
    reveal_strlit("FFILookup");
    reveal_strlit("FFICall");
    reveal_strlit("CloseHandle");
    reveal_strlit("LibCall");
    reveal_strlit("ReadByte");
    reveal_strlit("ReadI16");
    reveal_strlit("Effect");
    assert("ReadI16"@.len() != "NoEffect"@.len());
    assert("ReadI16"@.len() != "Print"@.len());
    assert("ReadI16"@[0] != "Println"@[0]);
    assert("ReadI16"@.len() != "Exit"@.len());
    assert("ReadI16"@[0] != "FFIOpen"@[0]);
    assert("ReadI16"@.len() != "FFILookup"@.len());
    assert("ReadI16"@[0] != "FFICall"@[0]);
    assert("ReadI16"@.len() != "CloseHandle"@.len());
    assert("ReadI16"@[0] != "LibCall"@[0]);
    assert("ReadI16"@.len() != "ReadByte"@.len());
}

proof fn lemma_dec_readi32(h: i64, o: i64)
    ensures
        dec_effect(effect_value("ReadI32"@, seq![ValueV::Int(h), ValueV::Int(o)])) == Ok::<EffectV, DecodeErrorV>(EffectV::ReadI32(h as u64, o)),
{
    reveal_strlit("NoEffect");
    reveal_strlit("Print");
    reveal_strlit("Println");
    reveal_strlit("Exit");
    reveal_strlit("FFIOpen");
    reveal_strlit("FFILookup");
    reveal_strlit("FFICall");
    reveal_strlit("CloseHandle");
    reveal_strlit("LibCall");
    reveal_strlit("ReadByte");
    reveal_strlit("ReadI16");
    reveal_strlit("ReadI32");
    reveal_strlit("Effect");
    assert("ReadI32"@.len() != "NoEffect"@.len());
    assert("ReadI32"@.len() != "Print"@.len());
    assert("ReadI32"@[0] != "Println"@[0]);
    assert("ReadI32"@.len() != "Exit"@.len());
    assert("ReadI32"@[0] != "FFIOpen"@[0]);
    assert("ReadI32"@.len() != "FFILookup"@.len());
    assert("ReadI32"@[0] != "FFICall"@[0]);
    assert("ReadI32"@.len() != "CloseHandle"@.len());
    assert("ReadI32"@[0] != "LibCall"@[0]);
    assert("ReadI32"@.len() != "ReadByte"@.len());
    assert("ReadI32"@[5] != "ReadI16"@[5]);
}

proof fn lemma_dec_readi64(h: i64, o: i64)
    ensures
        dec_effect(effect_value("ReadI64"@, seq![ValueV::Int(h), ValueV::Int(o)])) == Ok::<EffectV, DecodeErrorV>(EffectV::ReadI64(h as u64, o)),
{
    reveal_strlit("NoEffect");
    reveal_strlit("Print");
    reveal_strlit("Println");
    reveal_strlit("Exit");
    reveal_strlit("FFIOpen");
    reveal_strlit("FFILookup");
    reveal_strlit("FFICall");
    reveal_strlit("CloseHandle");
    reveal_strlit("LibCall");
    reveal_strlit("ReadByte");
    reveal_strlit("ReadI16");
    reveal_strlit("ReadI32");
    reveal_strlit("ReadI64");
    reveal_strlit("Effect");
    assert("ReadI64"@.len() != "NoEffect"@.len());
    assert("ReadI64"@.len() != "Print"@.len());
    assert("ReadI64"@[0] != "Println"@[0]);
    assert("ReadI64"@.len() != "Exit"@.len());
    assert("ReadI64"@[0] != "FFIOpen"@[0]);
    assert("ReadI64"@.len() != "FFILookup"@.len());
    assert("ReadI64"@[0] != "FFICall"@[0]);
    assert("ReadI64"@.len() != "CloseHandle"@.len());
    assert("ReadI64"@[0] != "LibCall"@[0]);
    assert("ReadI64"@.len() != "ReadByte"@.len());
    assert("ReadI64"@[5] != "ReadI16"@[5]);
    assert("ReadI64"@[5] != "ReadI32"@[5]);
}

proof fn lemma_dec_readf32(h: i64, o: i64)
    ensures
        dec_effect(effect_value("ReadF32"@, seq![ValueV::Int(h), ValueV::Int(o)])) == Ok::<EffectV, DecodeErrorV>(EffectV::ReadF32(h as u64, o)),
{
    reveal_strlit("NoEffect");
    reveal_strlit("Print");
    reveal_strlit("Println");
    reveal_strlit("Exit");
    reveal_strlit("FFIOpen");
    reveal_strlit("FFILookup");
    reveal_strlit("FFICall");
    reveal_strlit("CloseHandle");
    reveal_strlit("LibCall");
    reveal_strlit("ReadByte");
    reveal_strlit("ReadI16");
    reveal_strlit("ReadI32");
    reveal_strlit("ReadI64");
    reveal_strlit("ReadF32");
    reveal_strlit("Effect");
    assert("ReadF32"@.len() != "NoEffect"@.len());
    assert("ReadF32"@.len() != "Print"@.len());
    assert("ReadF32"@[0] != "Println"@[0]);
    assert("ReadF32"@.len() != "Exit"@.len());
    assert("ReadF32"@[0] != "FFIOpen"@[0]);
    assert("ReadF32"@.len() != "FFILookup"@.len());
    assert("ReadF32"@[0] != "FFICall"@[0]);
    assert("ReadF32"@.len() != "CloseHandle"@.len());
    assert("ReadF32"@[0] != "LibCall"@[0]);
    assert("ReadF32"@.len() != "ReadByte"@.len());
    assert("ReadF32"@[4] != "ReadI16"@[4]);
    assert("ReadF32"@[4] != "ReadI32"@[4]);
    assert("ReadF32"@[4] != "ReadI64"@[4]);
}

proof fn lemma_dec_readf64(h: i64, o: i64)
    ensures
        dec_effect(effect_value("ReadF64"@, seq![ValueV::Int(h), ValueV::Int(o)])) == Ok::<EffectV, DecodeErrorV>(EffectV::ReadF64(h as u64, o)),
{
    reveal_strlit("NoEffect");
    reveal_strlit("Print");
    reveal_strlit("Println");
    reveal_strlit("Exit");
    reveal_strlit("FFIOpen");
    reveal_strlit("FFILookup");
    reveal_strlit("FFICall");
    reveal_strlit("CloseHandle");
    reveal_strlit("LibCall");
    reveal_strlit("ReadByte");
    reveal_strlit("ReadI16");
    reveal_strlit("ReadI32");
    reveal_strlit("ReadI64");
    reveal_strlit("ReadF32");
    reveal_strlit("ReadF64");
    reveal_strlit("Effect");
    assert("ReadF64"@.len() != "NoEffect"@.len());
    assert("ReadF64"@.len() != "Print"@.len());
    assert("ReadF64"@[0] != "Println"@[0]);
    assert("ReadF64"@.len() != "Exit"@.len());
    assert("ReadF64"@[0] != "FFIOpen"@[0]);
    assert("ReadF64"@.len() != "FFILookup"@.len());
    assert("ReadF64"@[0] != "FFICall"@[0]);
    assert("ReadF64"@.len() != "CloseHandle"@.len());
    assert("ReadF64"@[0] != "LibCall"@[0]);
    assert("ReadF64"@.len() != "ReadByte"@.len());
    assert("ReadF64"@[4] != "ReadI16"@[4]);
    assert("ReadF64"@[4] != "ReadI32"@[4]);
    assert("ReadF64"@[4] != "ReadI64"@[4]);
    assert("ReadF64"@[5] != "ReadF32"@[5]);
}

proof fn lemma_dec_readstr(h: i64, o: i64)
    ensures
        dec_effect(effect_value("ReadStr"@, seq![ValueV::Int(h), ValueV::Int(o)])) == Ok::<EffectV, DecodeErrorV>(EffectV::ReadStr(h as u64, o)),
{
    reveal_strlit("NoEffect");
    reveal_strlit("Print");
    reveal_strlit("Println");
    reveal_strlit("Exit");
    reveal_strlit("FFIOpen");
    reveal_strlit("FFILookup");
    reveal_strlit("FFICall");
    reveal_strlit("CloseHandle");
    reveal_strlit("LibCall");
    reveal_strlit("ReadByte");
    reveal_strlit("ReadI16");
    reveal_strlit("ReadI32");
    reveal_strlit("ReadI64");
    reveal_strlit("ReadF32");
    reveal_strlit("ReadF64");
    reveal_strlit("ReadStr");
    reveal_strlit("Effect");
    assert("ReadStr"@.len() != "NoEffect"@.len());
    assert("ReadStr"@.len() != "Print"@.len());
    assert("ReadStr"@[0] != "Println"@[0]);
    assert("ReadStr"@.len() != "Exit"@.len());
    assert("ReadStr"@[0] != "FFIOpen"@[0]);
    assert("ReadStr"@.len() != "FFILookup"@.len());
    assert("ReadStr"@[0] != "FFICall"@[0]);
    assert("ReadStr"@.len() != "CloseHandle"@.len());
    assert("ReadStr"@[0] != "LibCall"@[0]);
    assert("ReadStr"@.len() != "ReadByte"@.len());
    assert("ReadStr"@[4] != "ReadI16"@[4]);
    assert("ReadStr"@[4] != "ReadI32"@[4]);
    assert("ReadStr"@[4] != "ReadI64"@[4]);
    assert("ReadStr"@[4] != "ReadF32"@[4]);
    assert("ReadStr"@[4] != "ReadF64"@[4]);
}

/// Law: a read effect `(handle, offset)` decodes with the handle first and
/// the offset second.
pub proof fn law_decode_reads_in_order(h: i64, o: i64)
    ensures
        dec_effect(effect_value("ReadByte"@, seq![ValueV::Int(h), ValueV::Int(o)])) == Ok::<EffectV, DecodeErrorV>(EffectV::ReadByte(h as u64, o)),
        dec_effect(effect_value("ReadI16"@, seq![ValueV::Int(h), ValueV::Int(o)])) == Ok::<EffectV, DecodeErrorV>(EffectV::ReadI16(h as u64, o)),
        dec_effect(effect_value("ReadI32"@, seq![ValueV::Int(h), ValueV::Int(o)])) == Ok::<EffectV, DecodeErrorV>(EffectV::ReadI32(h as u64, o)),
        dec_effect(effect_value("ReadI64"@, seq![ValueV::Int(h), ValueV::Int(o)])) == Ok::<EffectV, DecodeErrorV>(EffectV::ReadI64(h as u64, o)),
        dec_effect(effect_value("ReadF32"@, seq![ValueV::Int(h), ValueV::Int(o)])) == Ok::<EffectV, DecodeErrorV>(EffectV::ReadF32(h as u64, o)),
        dec_effect(effect_value("ReadF64"@, seq![ValueV::Int(h), ValueV::Int(o)])) == Ok::<EffectV, DecodeErrorV>(EffectV::ReadF64(h as u64, o)),
        dec_effect(effect_value("ReadStr"@, seq![ValueV::Int(h), ValueV::Int(o)])) == Ok::<EffectV, DecodeErrorV>(EffectV::ReadStr(h as u64, o)),
{
    lemma_dec_readbyte(h, o);
    lemma_dec_readi16(h, o);
    lemma_dec_readi32(h, o);
    lemma_dec_readi64(h, o);
    lemma_dec_readf32(h, o);
    lemma_dec_readf64(h, o);
    lemma_dec_readstr(h, o);
}

proof fn lemma_dec_writebyte(h: i64, o: i64, x: i64, r: RealNum, s: Seq<char>)
    ensures
        dec_effect(effect_value("WriteByte"@, seq![ValueV::Int(h), ValueV::Int(o), ValueV::Int(x)])) == Ok::<EffectV, DecodeErrorV>(EffectV::WriteByte(h as u64, o, x)),
{
    reveal_strlit("NoEffect");
    reveal_strlit("Print");
    reveal_strlit("Println");
    reveal_strlit("Exit");
    reveal_strlit("FFIOpen");
    reveal_strlit("FFILookup");
    reveal_strlit("FFICall");
    reveal_strlit("CloseHandle");
    reveal_strlit("LibCall");
    reveal_strlit("ReadByte");
    reveal_strlit("ReadI16");
    reveal_strlit("ReadI32");
    reveal_strlit("ReadI64");
    reveal_strlit("ReadF32");
    reveal_strlit("ReadF64");
    reveal_strlit("ReadStr");
    reveal_strlit("WriteByte");
    reveal_strlit("Effect");
    assert("WriteByte"@.len() != "NoEffect"@.len());
    assert("WriteByte"@.len() != "Print"@.len());
    assert("WriteByte"@.len() != "Println"@.len());
    assert("WriteByte"@.len() != "Exit"@.len());
    assert("WriteByte"@.len() != "FFIOpen"@.len());
    assert("WriteByte"@[0] != "FFILookup"@[0]);
    assert("WriteByte"@.len() != "FFICall"@.len());
    assert("WriteByte"@.len() != "CloseHandle"@.len());
    assert("WriteByte"@.len() != "LibCall"@.len());
    assert("WriteByte"@.len() != "ReadByte"@.len());
    assert("WriteByte"@.len() != "ReadI16"@.len());
    assert("WriteByte"@.len() != "ReadI32"@.len());
    assert("WriteByte"@.len() != "ReadI64"@.len());
    assert("WriteByte"@.len() != "ReadF32"@.len());
    assert("WriteByte"@.len() != "ReadF64"@.len());
    assert("WriteByte"@.len() != "ReadStr"@.len());
}

proof fn lemma_dec_writei16(h: i64, o: i64, x: i64, r: RealNum, s: Seq<char>)
    ensures
        dec_effect(effect_value("WriteI16"@, seq![ValueV::Int(h), ValueV::Int(o), ValueV::Int(x)])) == Ok::<EffectV, DecodeErrorV>(EffectV::WriteI16(h as u64, o, x)),
{
    reveal_strlit("NoEffect");
    reveal_strlit("Print");
    reveal_strlit("Println");
    reveal_strlit("Exit");
    reveal_strlit("FFIOpen");
    reveal_strlit("FFILookup");
    reveal_strlit("FFICall");
    reveal_strlit("CloseHandle");
    reveal_strlit("LibCall");
    reveal_strlit("ReadByte");
    reveal_strlit("ReadI16");
    reveal_strlit("ReadI32");
    reveal_strlit("ReadI64");
    reveal_strlit("ReadF32");
    reveal_strlit("ReadF64");
    reveal_strlit("ReadStr");
    reveal_strlit("WriteByte");
    reveal_strlit("WriteI16");
    reveal_strlit("Effect");
    assert("WriteI16"@[0] != "NoEffect"@[0]);
    assert("WriteI16"@.len() != "Print"@.len());
    assert("WriteI16"@.len() != "Println"@.len());
    assert("WriteI16"@.len() != "Exit"@.len());
    assert("WriteI16"@.len() != "FFIOpen"@.len());
    assert("WriteI16"@.len() != "FFILookup"@.len());
    assert("WriteI16"@.len() != "FFICall"@.len());
    assert("WriteI16"@.len() != "CloseHandle"@.len());
    assert("WriteI16"@.len() != "LibCall"@.len());
    assert("WriteI16"@[0] != "ReadByte"@[0]);
    assert("WriteI16"@.len() != "ReadI16"@.len());
    assert("WriteI16"@.len() != "ReadI32"@.len());
    assert("WriteI16"@.len() != "ReadI64"@.len());
    assert("WriteI16"@.len() != "ReadF32"@.len());
    assert("WriteI16"@.len() != "ReadF64"@.len());
    assert("WriteI16"@.len() != "ReadStr"@.len());
    assert("WriteI16"@.len() != "WriteByte"@.len());
}

proof fn lemma_dec_writei32(h: i64, o: i64, x: i64, r: RealNum, s: Seq<char>)
    ensures
        dec_effect(effect_value("WriteI32"@, seq![ValueV::Int(h), ValueV::Int(o), ValueV::Int(x)])) == Ok::<EffectV, DecodeErrorV>(EffectV::WriteI32(h as u64, o, x)),
{
    reveal_strlit("NoEffect");
    reveal_strlit("Print");
    reveal_strlit("Println");
    reveal_strlit("Exit");
    reveal_strlit("FFIOpen");
    reveal_strlit("FFILookup");
    reveal_strlit("FFICall");
    reveal_strlit("CloseHandle");
    reveal_strlit("LibCall");
    reveal_strlit("ReadByte");
    reveal_strlit("ReadI16");
    reveal_strlit("ReadI32");
    reveal_strlit("ReadI64");
    reveal_strlit("ReadF32");
    reveal_strlit("ReadF64");
    reveal_strlit("ReadStr");
    reveal_strlit("WriteByte");
    reveal_strlit("WriteI16");
    reveal_strlit("WriteI32");
    reveal_strlit("Effect");
    assert("WriteI32"@[0] != "NoEffect"@[0]);
    assert("WriteI32"@.len() != "Print"@.len());
    assert("WriteI32"@.len() != "Println"@.len());
    assert("WriteI32"@.len() != "Exit"@.len());
    assert("WriteI32"@.len() != "FFIOpen"@.len());
    assert("WriteI32"@.len() != "FFILookup"@.len());
    assert("WriteI32"@.len() != "FFICall"@.len());
    assert("WriteI32"@.len() != "CloseHandle"@.len());
    assert("WriteI32"@.len() != "LibCall"@.len());
    assert("WriteI32"@[0] != "ReadByte"@[0]);
    assert("WriteI32"@.len() != "ReadI16"@.len());
    assert("WriteI32"@.len() != "ReadI32"@.len());
    assert("WriteI32"@.len() != "ReadI64"@.len());
    assert("WriteI32"@.len() != "ReadF32"@.len());
    assert("WriteI32"@.len() != "ReadF64"@.len());
    assert("WriteI32"@.len() != "ReadStr"@.len());
    assert("WriteI32"@.len() != "WriteByte"@.len());
    assert("WriteI32"@[6] != "WriteI16"@[6]);
}

proof fn lemma_dec_writei64(h: i64, o: i64, x: i64, r: RealNum, s: Seq<char>)
    ensures
        dec_effect(effect_value("WriteI64"@, seq![ValueV::Int(h), ValueV::Int(o), ValueV::Int(x)])) == Ok::<EffectV, DecodeErrorV>(EffectV::WriteI64(h as u64, o, x)),
{
    reveal_strlit("NoEffect");
    reveal_strlit("Print");
    reveal_strlit("Println");
    reveal_strlit("Exit");
    reveal_strlit("FFIOpen");
    reveal_strlit("FFILookup");
    reveal_strlit("FFICall");
    reveal_strlit("CloseHandle");
    reveal_strlit("LibCall");
    reveal_strlit("ReadByte");
    reveal_strlit("ReadI16");
    reveal_strlit("ReadI32");
    reveal_strlit("ReadI64");
    reveal_strlit("ReadF32");
    reveal_strlit("ReadF64");
    reveal_strlit("ReadStr");
    reveal_strlit("WriteByte");
    reveal_strlit("WriteI16");
    reveal_strlit("WriteI32");
    reveal_strlit("WriteI64");
    reveal_strlit("Effect");
    assert("WriteI64"@[0] != "NoEffect"@[0]);
    assert("WriteI64"@.len() != "Print"@.len());
    assert("WriteI64"@.len() != "Println"@.len());
    assert("WriteI64"@.len() != "Exit"@.len());
    assert("WriteI64"@.len() != "FFIOpen"@.len());
    assert("WriteI64"@.len() != "FFILookup"@.len());
    assert("WriteI64"@.len() != "FFICall"@.len());
    assert("WriteI64"@.len() != "CloseHandle"@.len());
    assert("WriteI64"@.len() != "LibCall"@.len());
    assert("WriteI64"@[0] != "ReadByte"@[0]);
    assert("WriteI64"@.len() != "ReadI16"@.len());
    assert("WriteI64"@.len() != "ReadI32"@.len());
    assert("WriteI64"@.len() != "ReadI64"@.len());
    assert("WriteI64"@.len() != "ReadF32"@.len());
    assert("WriteI64"@.len() != "ReadF64"@.len());
    assert("WriteI64"@.len() != "ReadStr"@.len());
    assert("WriteI64"@.len() != "WriteByte"@.len());
    assert("WriteI64"@[6] != "WriteI16"@[6]);
    assert("WriteI64"@[6] != "WriteI32"@[6]);
}

proof fn lemma_dec_writef32(h: i64, o: i64, x: i64, r: RealNum, s: Seq<char>)
    ensures
        dec_effect(effect_value("WriteF32"@, seq![ValueV::Int(h), ValueV::Int(o), ValueV::Real(r)])) == Ok::<EffectV, DecodeErrorV>(EffectV::WriteF32(h as u64, o, r)),
{
    reveal_strlit("NoEffect");
    reveal_strlit("Print");
    reveal_strlit("Println");
    reveal_strlit("Exit");
    reveal_strlit("FFIOpen");
    reveal_strlit("FFILookup");
    reveal_strlit("FFICall");
    reveal_strlit("CloseHandle");
    reveal_strlit("LibCall");
    reveal_strlit("ReadByte");
    reveal_strlit("ReadI16");
    reveal_strlit("ReadI32");
    reveal_strlit("ReadI64");
    reveal_strlit("ReadF32");
    reveal_strlit("ReadF64");
    reveal_strlit("ReadStr");
    reveal_strlit("WriteByte");
    reveal_strlit("WriteI16");
    reveal_strlit("WriteI32");
    reveal_strlit("WriteI64");
    reveal_strlit("WriteF32");
    reveal_strlit("Effect");
    assert("WriteF32"@[0] != "NoEffect"@[0]);
    assert("WriteF32"@.len() != "Print"@.len());
    assert("WriteF32"@.len() != "Println"@.len());
    assert("WriteF32"@.len() != "Exit"@.len());
    assert("WriteF32"@.len() != "FFIOpen"@.len());
    assert("WriteF32"@.len() != "FFILookup"@.len());
    assert("WriteF32"@.len() != "FFICall"@.len());
    assert("WriteF32"@.len() != "CloseHandle"@.len());
    assert("WriteF32"@.len() != "LibCall"@.len());
    assert("WriteF32"@[0] != "ReadByte"@[0]);
    assert("WriteF32"@.len() != "ReadI16"@.len());
    assert("WriteF32"@.len() != "ReadI32"@.len());
    assert("WriteF32"@.len() != "ReadI64"@.len());
    assert("WriteF32"@.len() != "ReadF32"@.len());
    assert("WriteF32"@.len() != "ReadF64"@.len());
    assert("WriteF32"@.len() != "ReadStr"@.len());
    assert("WriteF32"@.len() != "WriteByte"@.len());
    assert("WriteF32"@[5] != "WriteI16"@[5]);
    assert("WriteF32"@[5] != "WriteI32"@[5]);
    assert("WriteF32"@[5] != "WriteI64"@[5]);
}

proof fn lemma_dec_writef32_2(h: i64, o: i64, x: i64, r: RealNum, s: Seq<char>)
    ensures
        dec_effect(effect_value("WriteF32"@, seq![ValueV::Int(h), ValueV::Int(o), ValueV::Int(x)])) == Ok::<EffectV, DecodeErrorV>(EffectV::WriteF32(h as u64, o, RealNum::Int(x))),
{
    reveal_strlit("NoEffect");
    reveal_strlit("Print");
    reveal_strlit("Println");
    reveal_strlit("Exit");
    reveal_strlit("FFIOpen");
    reveal_strlit("FFILookup");
    reveal_strlit("FFICall");
    reveal_strlit("CloseHandle");
    reveal_strlit("LibCall");
    reveal_strlit("ReadByte");
    reveal_strlit("ReadI16");
    reveal_strlit("ReadI32");
    reveal_strlit("ReadI64");
    reveal_strlit("ReadF32");
    reveal_strlit("ReadF64");
    reveal_strlit("ReadStr");
    reveal_strlit("WriteByte");
    reveal_strlit("WriteI16");
    reveal_strlit("WriteI32");
    reveal_strlit("WriteI64");
    reveal_strlit("WriteF32");
    reveal_strlit("Effect");
    assert("WriteF32"@[0] != "NoEffect"@[0]);
    assert("WriteF32"@.len() != "Print"@.len());
    assert("WriteF32"@.len() != "Println"@.len());
    assert("WriteF32"@.len() != "Exit"@.len());
    assert("WriteF32"@.len() != "FFIOpen"@.len());
    assert("WriteF32"@.len() != "FFILookup"@.len());
    assert("WriteF32"@.len() != "FFICall"@.len());
    assert("WriteF32"@.len() != "CloseHandle"@.len());
    assert("WriteF32"@.len() != "LibCall"@.len());
    assert("WriteF32"@[0] != "ReadByte"@[0]);
    assert("WriteF32"@.len() != "ReadI16"@.len());
    assert("WriteF32"@.len() != "ReadI32"@.len());
    assert("WriteF32"@.len() != "ReadI64"@.len());
    assert("WriteF32"@.len() != "ReadF32"@.len());
    assert("WriteF32"@.len() != "ReadF64"@.len());
    assert("WriteF32"@.len() != "ReadStr"@.len());
    assert("WriteF32"@.len() != "WriteByte"@.len());
    assert("WriteF32"@[5] != "WriteI16"@[5]);
    assert("WriteF32"@[5] != "WriteI32"@[5]);
    assert("WriteF32"@[5] != "WriteI64"@[5]);
}

proof fn lemma_dec_writef64(h: i64, o: i64, x: i64, r: RealNum, s: Seq<char>)
    ensures
        dec_effect(effect_value("WriteF64"@, seq![ValueV::Int(h), ValueV::Int(o), ValueV::Real(r)])) == Ok::<EffectV, DecodeErrorV>(EffectV::WriteF64(h as u64, o, r)),
{
    reveal_strlit("NoEffect");
    reveal_strlit("Print");
    reveal_strlit("Println");
    reveal_strlit("Exit");
    reveal_strlit("FFIOpen");
    reveal_strlit("FFILookup");
    reveal_strlit("FFICall");
    reveal_strlit("CloseHandle");
    reveal_strlit("LibCall");
    reveal_strlit("ReadByte");
    reveal_strlit("ReadI16");
    reveal_strlit("ReadI32");
    reveal_strlit("ReadI64");
    reveal_strlit("ReadF32");
    reveal_strlit("ReadF64");
    reveal_strlit("ReadStr");
    reveal_strlit("WriteByte");
    reveal_strlit("WriteI16");
    reveal_strlit("WriteI32");
    reveal_strlit("WriteI64");
    reveal_strlit("WriteF32");
    reveal_strlit("WriteF64");
    reveal_strlit("Effect");
    assert("WriteF64"@[0] != "NoEffect"@[0]);
    assert("WriteF64"@.len() != "Print"@.len());
    assert("WriteF64"@.len() != "Println"@.len());
    assert("WriteF64"@.len() != "Exit"@.len());
    assert("WriteF64"@.len() != "FFIOpen"@.len());
    assert("WriteF64"@.len() != "FFILookup"@.len());
    assert("WriteF64"@.len() != "FFICall"@.len());
    assert("WriteF64"@.len() != "CloseHandle"@.len());
    assert("WriteF64"@.len() != "LibCall"@.len());
    assert("WriteF64"@[0] != "ReadByte"@[0]);
    assert("WriteF64"@.len() != "ReadI16"@.len());
    assert("WriteF64"@.len() != "ReadI32"@.len());
    assert("WriteF64"@.len() != "ReadI64"@.len());
    assert("WriteF64"@.len() != "ReadF32"@.len());
    assert("WriteF64"@.len() != "ReadF64"@.len());
    assert("WriteF64"@.len() != "ReadStr"@.len());
    assert("WriteF64"@.len() != "WriteByte"@.len());
    assert("WriteF64"@[5] != "WriteI16"@[5]);
    assert("WriteF64"@[5] != "WriteI32"@[5]);
    assert("WriteF64"@[5] != "WriteI64"@[5]);
    assert("WriteF64"@[6] != "WriteF32"@[6]);
}

proof fn lemma_dec_writef64_2(h: i64, o: i64, x: i64, r: RealNum, s: Seq<char>)
    ensures
        dec_effect(effect_value("WriteF64"@, seq![ValueV::Int(h), ValueV::Int(o), ValueV::Int(x)])) == Ok::<EffectV, DecodeErrorV>(EffectV::WriteF64(h as u64, o, RealNum::Int(x))),
{
    reveal_strlit("NoEffect");
    reveal_strlit("Print");
    reveal_strlit("Println");
    reveal_strlit("Exit");
    reveal_strlit("FFIOpen");
    reveal_strlit("FFILookup");
    reveal_strlit("FFICall");
    reveal_strlit("CloseHandle");
    reveal_strlit("LibCall");
    reveal_strlit("ReadByte");
    reveal_strlit("ReadI16");
    reveal_strlit("ReadI32");
    reveal_strlit("ReadI64");
    reveal_strlit("ReadF32");
    reveal_strlit("ReadF64");
    reveal_strlit("ReadStr");
    reveal_strlit("WriteByte");
    reveal_strlit("WriteI16");
    reveal_strlit("WriteI32");
    reveal_strlit("WriteI64");
    reveal_strlit("WriteF32");
    reveal_strlit("WriteF64");
    reveal_strlit("Effect");
    assert("WriteF64"@[0] != "NoEffect"@[0]);
    assert("WriteF64"@.len() != "Print"@.len());
    assert("WriteF64"@.len() != "Println"@.len());
    assert("WriteF64"@.len() != "Exit"@.len());
    assert("WriteF64"@.len() != "FFIOpen"@.len());
    assert("WriteF64"@.len() != "FFILookup"@.len());
    assert("WriteF64"@.len() != "FFICall"@.len());
    assert("WriteF64"@.len() != "CloseHandle"@.len());
    assert("WriteF64"@.len() != "LibCall"@.len());
    assert("WriteF64"@[0] != "ReadByte"@[0]);
    assert("WriteF64"@.len() != "ReadI16"@.len());
    assert("WriteF64"@.len() != "ReadI32"@.len());
    assert("WriteF64"@.len() != "ReadI64"@.len());
    assert("WriteF64"@.len() != "ReadF32"@.len());
    assert("WriteF64"@.len() != "ReadF64"@.len());
    assert("WriteF64"@.len() != "ReadStr"@.len());
    assert("WriteF64"@.len() != "WriteByte"@.len());
    assert("WriteF64"@[5] != "WriteI16"@[5]);
    assert("WriteF64"@[5] != "WriteI32"@[5]);
    assert("WriteF64"@[5] != "WriteI64"@[5]);
    assert("WriteF64"@[6] != "WriteF32"@[6]);
}

proof fn lemma_dec_writestr(h: i64, o: i64, x: i64, r: RealNum, s: Seq<char>)
    ensures
        dec_effect(effect_value("WriteStr"@, seq![ValueV::Int(h), ValueV::Int(o), ValueV::Str(s)])) == Ok::<EffectV, DecodeErrorV>(EffectV::WriteStr(h as u64, o, s)),
{
    reveal_strlit("NoEffect");
    reveal_strlit("Print");
    reveal_strlit("Println");
    reveal_strlit("Exit");
    reveal_strlit("FFIOpen");
    reveal_strlit("FFILookup");
    reveal_strlit("FFICall");
    reveal_strlit("CloseHandle");
    reveal_strlit("LibCall");
    reveal_strlit("ReadByte");
    reveal_strlit("ReadI16");
    reveal_strlit("ReadI32");
    reveal_strlit("ReadI64");
    reveal_strlit("ReadF32");
    reveal_strlit("ReadF64");
    reveal_strlit("ReadStr");
    reveal_strlit("WriteByte");
    reveal_strlit("WriteI16");
    reveal_strlit("WriteI32");
    reveal_strlit("WriteI64");
    reveal_strlit("WriteF32");
    reveal_strlit("WriteF64");
    reveal_strlit("WriteStr");
    reveal_strlit("Effect");
    assert("WriteStr"@[0] != "NoEffect"@[0]);
    assert("WriteStr"@.len() != "Print"@.len());
    assert("WriteStr"@.len() != "Println"@.len());
    assert("WriteStr"@.len() != "Exit"@.len());
    assert("WriteStr"@.len() != "FFIOpen"@.len());
    assert("WriteStr"@.len() != "FFILookup"@.len());
    assert("WriteStr"@.len() != "FFICall"@.len());
    assert("WriteStr"@.len() != "CloseHandle"@.len());
    assert("WriteStr"@.len() != "LibCall"@.len());
    assert("WriteStr"@[0] != "ReadByte"@[0]);
    assert("WriteStr"@.len() != "ReadI16"@.len());
    assert("WriteStr"@.len() != "ReadI32"@.len());
    assert("WriteStr"@.len() != "ReadI64"@.len());
    assert("WriteStr"@.len() != "ReadF32"@.len());
    assert("WriteStr"@.len() != "ReadF64"@.len());
    assert("WriteStr"@.len() != "ReadStr"@.len());
    assert("WriteStr"@.len() != "WriteByte"@.len());
    assert("WriteStr"@[5] != "WriteI16"@[5]);
    assert("WriteStr"@[5] != "WriteI32"@[5]);
    assert("WriteStr"@[5] != "WriteI64"@[5]);
    assert("WriteStr"@[5] != "WriteF32"@[5]);
    assert("WriteStr"@[5] != "WriteF64"@[5]);
}

/// Law: a write effect `(handle, offset, value)` decodes with the handle,
/// the offset and the value in that order; a real value may be given as
/// an integer, which is widened.
pub proof fn law_decode_writes_in_order(h: i64, o: i64, x: i64, r: RealNum, s: Seq<char>)
    ensures
        dec_effect(effect_value("WriteByte"@, seq![ValueV::Int(h), ValueV::Int(o), ValueV::Int(x)])) == Ok::<EffectV, DecodeErrorV>(EffectV::WriteByte(h as u64, o, x)),
        dec_effect(effect_value("WriteI16"@, seq![ValueV::Int(h), ValueV::Int(o), ValueV::Int(x)])) == Ok::<EffectV, DecodeErrorV>(EffectV::WriteI16(h as u64, o, x)),
        dec_effect(effect_value("WriteI32"@, seq![ValueV::Int(h), ValueV::Int(o), ValueV::Int(x)])) == Ok::<EffectV, DecodeErrorV>(EffectV::WriteI32(h as u64, o, x)),
        dec_effect(effect_value("WriteI64"@, seq![ValueV::Int(h), ValueV::Int(o), ValueV::Int(x)])) == Ok::<EffectV, DecodeErrorV>(EffectV::WriteI64(h as u64, o, x)),
        dec_effect(effect_value("WriteF32"@, seq![ValueV::Int(h), ValueV::Int(o), ValueV::Real(r)])) == Ok::<EffectV, DecodeErrorV>(EffectV::WriteF32(h as u64, o, r)),
        dec_effect(effect_value("WriteF32"@, seq![ValueV::Int(h), ValueV::Int(o), ValueV::Int(x)])) == Ok::<EffectV, DecodeErrorV>(EffectV::WriteF32(h as u64, o, RealNum::Int(x))),
        dec_effect(effect_value("WriteF64"@, seq![ValueV::Int(h), ValueV::Int(o), ValueV::Real(r)])) == Ok::<EffectV, DecodeErrorV>(EffectV::WriteF64(h as u64, o, r)),
        dec_effect(effect_value("WriteF64"@, seq![ValueV::Int(h), ValueV::Int(o), ValueV::Int(x)])) == Ok::<EffectV, DecodeErrorV>(EffectV::WriteF64(h as u64, o, RealNum::Int(x))),
        dec_effect(effect_value("WriteStr"@, seq![ValueV::Int(h), ValueV::Int(o), ValueV::Str(s)])) == Ok::<EffectV, DecodeErrorV>(EffectV::WriteStr(h as u64, o, s)),
{
    lemma_dec_writebyte(h, o, x, r, s);
    lemma_dec_writei16(h, o, x, r, s);
    lemma_dec_writei32(h, o, x, r, s);
    lemma_dec_writei64(h, o, x, r, s);
    lemma_dec_writef32(h, o, x, r, s);
    lemma_dec_writef32_2(h, o, x, r, s);
    lemma_dec_writef64(h, o, x, r, s);
    lemma_dec_writef64_2(h, o, x, r, s);
    lemma_dec_writestr(h, o, x, r, s);
}

/// The `FFIArg` enum value with `variant` and `fields`.
pub open spec fn arg_value(variant: Seq<char>, fields: Seq<ValueV>) -> ValueV {
    ValueV::Enum { enum_name: "FFIArg"@, variant, fields }
}

proof fn lemma_dec_arg_0(x: i64, b: bool, s: Seq<char>, r: RealNum, ss: Seq<Seq<char>>)
    ensures
        dec_ffi_arg(arg_value("ArgInt"@, seq![ValueV::Int(x)])) == Ok::<FfiArgV, DecodeErrorV>(FfiArgV::Int(x)),
{
    reveal_strlit("ArgInt");
    reveal_strlit("FFIArg");

}

proof fn lemma_dec_arg_1(x: i64, b: bool, s: Seq<char>, r: RealNum, ss: Seq<Seq<char>>)
    ensures
        dec_ffi_arg(arg_value("ArgBool"@, seq![ValueV::Bool(b)])) == Ok::<FfiArgV, DecodeErrorV>(FfiArgV::Bool(b)),
{
    reveal_strlit("ArgInt");
    reveal_strlit("ArgBool");
    reveal_strlit("FFIArg");
    assert("ArgBool"@.len() != "ArgInt"@.len());
}

proof fn lemma_dec_arg_2(x: i64, b: bool, s: Seq<char>, r: RealNum, ss: Seq<Seq<char>>)
    ensures
        dec_ffi_arg(arg_value("ArgStr"@, seq![ValueV::Str(s)])) == Ok::<FfiArgV, DecodeErrorV>(FfiArgV::Str(s)),
{
    reveal_strlit("ArgInt");
    reveal_strlit("ArgBool");
    reveal_strlit("ArgStr");
    reveal_strlit("FFIArg");
    assert("ArgStr"@[3] != "ArgInt"@[3]);
    assert("ArgStr"@.len() != "ArgBool"@.len());
}

proof fn lemma_dec_arg_3(x: i64, b: bool, s: Seq<char>, r: RealNum, ss: Seq<Seq<char>>)
    ensures
        dec_ffi_arg(arg_value("ArgReal"@, seq![ValueV::Real(r)])) == Ok::<FfiArgV, DecodeErrorV>(FfiArgV::Real(r)),
{
    reveal_strlit("ArgInt");
    reveal_strlit("ArgBool");
    reveal_strlit("ArgStr");
    reveal_strlit("ArgReal");
    reveal_strlit("FFIArg");
    assert("ArgReal"@.len() != "ArgInt"@.len());
    assert("ArgReal"@[3] != "ArgBool"@[3]);
    assert("ArgReal"@.len() != "ArgStr"@.len());
}

proof fn lemma_dec_arg_4(x: i64, b: bool, s: Seq<char>, r: RealNum, ss: Seq<Seq<char>>)
    ensures
        dec_ffi_arg(arg_value("ArgReal"@, seq![ValueV::Int(x)])) == Ok::<FfiArgV, DecodeErrorV>(FfiArgV::Real(RealNum::Int(x))),
{
    reveal_strlit("ArgInt");
    reveal_strlit("ArgBool");
    reveal_strlit("ArgStr");
    reveal_strlit("ArgReal");
    reveal_strlit("FFIArg");
    assert("ArgReal"@.len() != "ArgInt"@.len());
    assert("ArgReal"@[3] != "ArgBool"@[3]);
    assert("ArgReal"@.len() != "ArgStr"@.len());
}

proof fn lemma_dec_arg_5(x: i64, b: bool, s: Seq<char>, r: RealNum, ss: Seq<Seq<char>>)
    ensures
        dec_ffi_arg(arg_value("ArgHandle"@, seq![ValueV::Int(x)])) == Ok::<FfiArgV, DecodeErrorV>(FfiArgV::Handle(x as u64)),
{
    reveal_strlit("ArgInt");
    reveal_strlit("ArgBool");
    reveal_strlit("ArgStr");
    reveal_strlit("ArgReal");
    reveal_strlit("ArgHandle");
    reveal_strlit("FFIArg");
    assert("ArgHandle"@.len() != "ArgInt"@.len());
    assert("ArgHandle"@.len() != "ArgBool"@.len());
    assert("ArgHandle"@.len() != "ArgStr"@.len());
    assert("ArgHandle"@.len() != "ArgReal"@.len());
}

proof fn lemma_dec_arg_6(x: i64, b: bool, s: Seq<char>, r: RealNum, ss: Seq<Seq<char>>)
    ensures
        dec_ffi_arg(arg_value("ArgStrArr"@, seq![ValueV::SeqStr(ss)])) == Ok::<FfiArgV, DecodeErrorV>(FfiArgV::StrArr(ss)),
{
    reveal_strlit("ArgInt");
    reveal_strlit("ArgBool");
    reveal_strlit("ArgStr");
    reveal_strlit("ArgReal");
    reveal_strlit("ArgHandle");
    reveal_strlit("ArgStrArr");
    reveal_strlit("FFIArg");
    assert("ArgStrArr"@.len() != "ArgInt"@.len());
    assert("ArgStrArr"@.len() != "ArgBool"@.len());
    assert("ArgStrArr"@.len() != "ArgStr"@.len());
    assert("ArgStrArr"@.len() != "ArgReal"@.len());
    assert("ArgStrArr"@[3] != "ArgHandle"@[3]);
}

proof fn lemma_dec_arg_7(x: i64, b: bool, s: Seq<char>, r: RealNum, ss: Seq<Seq<char>>)
    ensures
        dec_ffi_arg(arg_value("ArgIntOut"@, seq![])) == Ok::<FfiArgV, DecodeErrorV>(FfiArgV::IntOut),
{
    reveal_strlit("ArgInt");
    reveal_strlit("ArgBool");
    reveal_strlit("ArgStr");
    reveal_strlit("ArgReal");
    reveal_strlit("ArgHandle");
    reveal_strlit("ArgStrArr");
    reveal_strlit("ArgIntOut");
    reveal_strlit("FFIArg");
    assert("ArgIntOut"@.len() != "ArgInt"@.len());
    assert("ArgIntOut"@.len() != "ArgBool"@.len());
    assert("ArgIntOut"@.len() != "ArgStr"@.len());
    assert("ArgIntOut"@.len() != "ArgReal"@.len());
    assert("ArgIntOut"@[3] != "ArgHandle"@[3]);
    assert("ArgIntOut"@[3] != "ArgStrArr"@[3]);
}

proof fn lemma_dec_arg_8(x: i64, b: bool, s: Seq<char>, r: RealNum, ss: Seq<Seq<char>>)
    ensures
        dec_ffi_arg(arg_value("ArgPriorResult"@, seq![ValueV::Int(x)])) == Ok::<FfiArgV, DecodeErrorV>(FfiArgV::PriorResult(x as usize)),
{
    reveal_strlit("ArgInt");
    reveal_strlit("ArgBool");
    reveal_strlit("ArgStr");
    reveal_strlit("ArgReal");
    reveal_strlit("ArgHandle");
    reveal_strlit("ArgStrArr");
    reveal_strlit("ArgIntOut");
    reveal_strlit("ArgPriorResult");
    reveal_strlit("FFIArg");
    assert("ArgPriorResult"@.len() != "ArgInt"@.len());
    assert("ArgPriorResult"@.len() != "ArgBool"@.len());
    assert("ArgPriorResult"@.len() != "ArgStr"@.len());
    assert("ArgPriorResult"@.len() != "ArgReal"@.len());
    assert("ArgPriorResult"@.len() != "ArgHandle"@.len());
    assert("ArgPriorResult"@.len() != "ArgStrArr"@.len());
    assert("ArgPriorResult"@.len() != "ArgIntOut"@.len());
}

/// Law: an `FFIArg` value decodes to the argument of the same kind with
/// its payload; a real may be given as an integer, which is widened, and a
/// handle is read as an unsigned number.
pub proof fn law_decode_ffi_args(x: i64, b: bool, s: Seq<char>, r: RealNum, ss: Seq<Seq<char>>)
    ensures
        dec_ffi_arg(arg_value("ArgInt"@, seq![ValueV::Int(x)])) == Ok::<FfiArgV, DecodeErrorV>(FfiArgV::Int(x)),
        dec_ffi_arg(arg_value("ArgBool"@, seq![ValueV::Bool(b)])) == Ok::<FfiArgV, DecodeErrorV>(FfiArgV::Bool(b)),
        dec_ffi_arg(arg_value("ArgStr"@, seq![ValueV::Str(s)])) == Ok::<FfiArgV, DecodeErrorV>(FfiArgV::Str(s)),
        dec_ffi_arg(arg_value("ArgReal"@, seq![ValueV::Real(r)])) == Ok::<FfiArgV, DecodeErrorV>(FfiArgV::Real(r)),
        dec_ffi_arg(arg_value("ArgReal"@, seq![ValueV::Int(x)])) == Ok::<FfiArgV, DecodeErrorV>(FfiArgV::Real(RealNum::Int(x))),
        dec_ffi_arg(arg_value("ArgHandle"@, seq![ValueV::Int(x)])) == Ok::<FfiArgV, DecodeErrorV>(FfiArgV::Handle(x as u64)),
        dec_ffi_arg(arg_value("ArgStrArr"@, seq![ValueV::SeqStr(ss)])) == Ok::<FfiArgV, DecodeErrorV>(FfiArgV::StrArr(ss)),
        dec_ffi_arg(arg_value("ArgIntOut"@, seq![])) == Ok::<FfiArgV, DecodeErrorV>(FfiArgV::IntOut),
        dec_ffi_arg(arg_value("ArgPriorResult"@, seq![ValueV::Int(x)])) == Ok::<FfiArgV, DecodeErrorV>(FfiArgV::PriorResult(x as usize)),
{
    lemma_dec_arg_0(x, b, s, r, ss);
    lemma_dec_arg_1(x, b, s, r, ss);
    lemma_dec_arg_2(x, b, s, r, ss);
    lemma_dec_arg_3(x, b, s, r, ss);
    lemma_dec_arg_4(x, b, s, r, ss);
    lemma_dec_arg_5(x, b, s, r, ss);
    lemma_dec_arg_6(x, b, s, r, ss);
    lemma_dec_arg_7(x, b, s, r, ss);
    lemma_dec_arg_8(x, b, s, r, ss);
}

} // verus!
