//! Foreign-call signatures: the one-letter type codes of a signature string
//! such as `"i(ps)"`, and the import paths whose absence the loader tolerates.
use vstd::prelude::*;
use vstd::string::StringExecFns;
use vstd::string::StringSliceAdditionalSpecFns;
use crate::functionize::{escape_char, push_escaped, quoted, quoted_exec};
use crate::text::{chars_to_string, concat_str, decimal, i64_decimal, signed_decimal, str_is, str_to_chars, u64_decimal, usize_decimal};

verus! {

/// A failed foreign call or signature; `message` gives its text.
#[derive(Debug, Clone)]
pub struct FfiError(pub String);

impl FfiError {
    /// `ffi error: ` followed by the error's own text.
    pub fn message(&self) -> (r: String)
        ensures
            r@ == "ffi error: "@ + self.0@,
    {
        concat_str(&String::from_str("ffi error: "), self.0.as_str())
    }
}

/// The type codes of a signature: `i` int, `b` bool, `s` string, `d` double,
/// `f` float, `p` pointer, `v` void (return type only).
#[derive(Debug, Clone, Copy, PartialEq, Eq, Structural)]
pub enum TypeCode {
    I,
    B,
    S,
    D,
    F,
    P,
    V,
}

/// A parsed signature: the return type and the argument types in order.
#[derive(Debug, Clone)]
pub struct ParsedSig {
    pub ret: TypeCode,
    pub args: Vec<TypeCode>,
}

/// The type code a char names, if any.
pub open spec fn code_of(c: char) -> Option<TypeCode> {
    if c == 'i' {
        Some(TypeCode::I)
    } else if c == 'b' {
        Some(TypeCode::B)
    } else if c == 's' {
        Some(TypeCode::S)
    } else if c == 'd' {
        Some(TypeCode::D)
    } else if c == 'f' {
        Some(TypeCode::F)
    } else if c == 'p' {
        Some(TypeCode::P)
    } else if c == 'v' {
        Some(TypeCode::V)
    } else {
        None
    }
}

/// A char as `{:?}` prints it: in single quotes, with `'` escaped and `"` not.
pub open spec fn char_debug(c: char) -> Seq<char> {
    seq!['\''] + (if c == '\'' {
        seq!['\\', '\'']
    } else if c == '"' {
        seq!['"']
    } else {
        escape_char(c)
    }) + seq!['\'']
}

pub open spec fn unknown_code_text(c: char) -> Seq<char> {
    "unknown type code "@ + char_debug(c)
}

/// The text of a signature error: `signature "<sig>"` and what is wrong.
pub open spec fn sig_error_text(sig: Seq<char>, what: Seq<char>) -> Seq<char> {
    "signature "@ + quoted(sig) + what
}

/// The argument codes of the bytes between the brackets, or the text of the
/// first error met from the left.
pub open spec fn parse_args(mid: Seq<u8>, sig: Seq<char>) -> Result<Seq<TypeCode>, Seq<char>>
    decreases mid.len(),
{
    if mid.len() == 0 {
        Ok(Seq::empty())
    } else {
        match parse_args(mid.drop_last(), sig) {
            Err(e) => Err(e),
            Ok(prev) => match code_of(mid.last() as char) {
                None => Err(unknown_code_text(mid.last() as char)),
                Some(TypeCode::V) => Err(sig_error_text(sig, ": void only valid as return type"@)),
                Some(c) => Ok(prev.push(c)),
            },
        }
    }
}

/// What `parse_signature` gives for a signature with UTF-8 bytes `b` and chars `sig`.
pub open spec fn parse_sig(b: Seq<u8>, sig: Seq<char>) -> Result<(TypeCode, Seq<TypeCode>), Seq<char>> {
    if b.len() < 3 {
        Err(sig_error_text(sig, " too short"@))
    } else {
        match code_of(b[0] as char) {
            None => Err(unknown_code_text(b[0] as char)),
            Some(ret) => if b[1] != 40u8 {
                Err(sig_error_text(sig, " missing `(` after return type"@))
            } else if b.last() != 41u8 {
                Err(sig_error_text(sig, " missing trailing `)`"@))
            } else {
                match parse_args(b.subrange(2, b.len() - 1), sig) {
                    Ok(args) => Ok((ret, args)),
                    Err(e) => Err(e),
                }
            },
        }
    }
}

fn char_debug_exec(c: char) -> (r: String)
    ensures
        r@ == char_debug(c),
{
    let mut out: Vec<char> = Vec::new();
    out.push('\'');
    if c == '\'' {
        out.push('\\');
        out.push('\'');
    } else if c == '"' {
        out.push('"');
    } else {
        push_escaped(&mut out, c);
    }
    out.push('\'');
    assert(out@ =~= char_debug(c));
    chars_to_string(&out)
}

impl TypeCode {
    /// The type code `c` names, or an error naming the unknown char.
    pub fn parse(c: char) -> (r: Result<TypeCode, FfiError>)
        ensures
            match r {
                Ok(t) => code_of(c) == Some(t),
                Err(e) => code_of(c) is None && e.0@ == unknown_code_text(c),
            },
    {
        if c == 'i' {
            Ok(TypeCode::I)
        } else if c == 'b' {
            Ok(TypeCode::B)
        } else if c == 's' {
            Ok(TypeCode::S)
        } else if c == 'd' {
            Ok(TypeCode::D)
        } else if c == 'f' {
            Ok(TypeCode::F)
        } else if c == 'p' {
            Ok(TypeCode::P)
        } else if c == 'v' {
            Ok(TypeCode::V)
        } else {
            let d = char_debug_exec(c);
            Err(FfiError(concat_str(&String::from_str("unknown type code "), d.as_str())))
        }
    }
}

fn sig_error(sig: &str, what: &str) -> (r: FfiError)
    ensures
        r.0@ == sig_error_text(sig@, what@),
{
    let q = quoted_exec(&String::from_str(sig));
    let a = concat_str(&String::from_str("signature "), q.as_str());
    FfiError(concat_str(&a, what))
}

/// Parses a signature such as `"i(ps)"`: a return code, `(`, argument codes
/// (never `v`), `)`. Works on the UTF-8 bytes, each taken as a char.
pub fn parse_signature(sig: &str) -> (r: Result<ParsedSig, FfiError>)
    ensures
        match r {
            Ok(p) => parse_sig(sig.spec_bytes(), sig@) == Ok::<(TypeCode, Seq<TypeCode>), Seq<char>>((p.ret, p.args@)),
            Err(e) => parse_sig(sig.spec_bytes(), sig@) == Err::<(TypeCode, Seq<TypeCode>), Seq<char>>(e.0@),
        },
{
    let bytes = sig.as_bytes();
    let n = bytes.len();
    if n < 3 {
        return Err(sig_error(sig, " too short"));
    }
    let ret = match TypeCode::parse(bytes[0] as char) {
        Ok(t) => t,
        Err(e) => {
            return Err(e);
        },
    };
    if bytes[1] != 40u8 {
        return Err(sig_error(sig, " missing `(` after return type"));
    }
    if bytes[n - 1] != 41u8 {
        return Err(sig_error(sig, " missing trailing `)`"));
    }
    let ghost mid = bytes@.subrange(2, n - 1);
    let mut args: Vec<TypeCode> = Vec::new();
    let mut i: usize = 2;
    while i < n - 1
        invariant
            bytes@ == sig.spec_bytes(),
            n == bytes@.len(),
            3 <= n,
            mid == bytes@.subrange(2, n - 1),
            code_of(bytes@[0] as char) == Some(ret),
            bytes@[1] == 40u8,
            bytes@[n - 1] == 41u8,
            2 <= i <= n - 1,
            parse_args(mid.take(i - 2), sig@) == Ok::<Seq<TypeCode>, Seq<char>>(args@),
        decreases n - 1 - i,
    {
        let c = bytes[i] as char;
        proof {
            assert(mid.take(i - 1).drop_last() =~= mid.take(i - 2));
            assert(mid.take(i - 1).last() == bytes@[i as int]);
        }
        match TypeCode::parse(c) {
            Ok(t) => {
                if t == TypeCode::V {
                    proof {
                        lemma_args_fail_prefix(mid, (i - 1) as int, sig@);
                    }
                    return Err(sig_error(sig, ": void only valid as return type"));
                }
                args.push(t);
            },
            Err(e) => {
                proof {
                    lemma_args_fail_prefix(mid, (i - 1) as int, sig@);
                }
                return Err(e);
            },
        }
        i += 1;
    }
    assert(mid.take(n - 3) =~= mid);
    Ok(ParsedSig { ret, args })
}

/// Once a prefix of the arguments fails, the whole list fails with the same text.
proof fn lemma_args_fail_prefix(mid: Seq<u8>, k: int, sig: Seq<char>)
    requires
        0 <= k <= mid.len(),
        parse_args(mid.take(k), sig) is Err,
    ensures
        parse_args(mid, sig) == parse_args(mid.take(k), sig),
    decreases mid.len() - k,
{
    if k < mid.len() {
        assert(mid.take(k + 1).drop_last() =~= mid.take(k));
        lemma_args_fail_prefix(mid, k + 1, sig);
    } else {
        assert(mid.take(k) =~= mid);
    }
}

/// Is `import_path` one of the library files whose absence an import tolerates?
pub open spec fn shimmed_path(p: Seq<char>) -> bool {
    p == "packages/sdl.ev"@ || p == "stdlib/io.ev"@
}

/// True iff `import_path` is `packages/sdl.ev` or `stdlib/io.ev`.
pub fn is_shimmed_stdlib(import_path: &str) -> (r: bool)
    ensures
        r == shimmed_path(import_path@),
{
    let s = String::from_str(import_path);
    str_is(&s, "packages/sdl.ev") || str_is(&s, "stdlib/io.ev")
}


// ───────────────────────────── planning a call ─────────────────────────────

/// An argument of a foreign call, as far as checking it goes. The value of
/// a real argument and the fields of a packed buffer are kept as their
/// `{:?}` text: no check reads them, only the error that shows them.
#[derive(Debug, Clone, PartialEq)]
pub enum FfiArgKind {
    Int(i64),
    Bool(bool),
    Str(String),
    Real(String),
    Handle(u64),
    StrArr(Vec<String>),
    IntOut,
    I32Buf(Vec<i32>),
    PackedBuf(String),
}

pub enum FfiArgKindV {
    Int(i64),
    Bool(bool),
    Str(Seq<char>),
    Real(Seq<char>),
    Handle(u64),
    StrArr(Seq<Seq<char>>),
    IntOut,
    I32Buf(Seq<i32>),
    PackedBuf(Seq<char>),
}

pub open spec fn str_list_view(v: Seq<String>) -> Seq<Seq<char>> {
    Seq::new(v.len(), |i: int| v[i]@)
}

pub open spec fn kind_view(a: FfiArgKind) -> FfiArgKindV {
    match a {
        FfiArgKind::Int(n) => FfiArgKindV::Int(n),
        FfiArgKind::Bool(b) => FfiArgKindV::Bool(b),
        FfiArgKind::Str(s) => FfiArgKindV::Str(s@),
        FfiArgKind::Real(t) => FfiArgKindV::Real(t@),
        FfiArgKind::Handle(h) => FfiArgKindV::Handle(h),
        FfiArgKind::StrArr(v) => FfiArgKindV::StrArr(str_list_view(v@)),
        FfiArgKind::IntOut => FfiArgKindV::IntOut,
        FfiArgKind::I32Buf(v) => FfiArgKindV::I32Buf(v@),
        FfiArgKind::PackedBuf(t) => FfiArgKindV::PackedBuf(t@),
    }
}

pub open spec fn kinds_view(v: Seq<FfiArgKind>) -> Seq<FfiArgKindV> {
    Seq::new(v.len(), |i: int| kind_view(v[i]))
}

pub open spec fn bool_text(b: bool) -> Seq<char> {
    if b {
        "true"@
    } else {
        "false"@
    }
}

/// The first `n` strings of `v`, each as `{:?}` prints it, joined by `, `.
pub open spec fn strs_debug(v: Seq<Seq<char>>, n: nat) -> Seq<char>
    decreases n,
{
    if n == 0 || n > v.len() {
        Seq::empty()
    } else if n == 1 {
        quoted(v[0])
    } else {
        strs_debug(v, (n - 1) as nat) + ", "@ + quoted(v[n - 1])
    }
}

/// The first `n` integers of `v` in decimal, joined by `, `.
pub open spec fn i32s_debug(v: Seq<i32>, n: nat) -> Seq<char>
    decreases n,
{
    if n == 0 || n > v.len() {
        Seq::empty()
    } else if n == 1 {
        signed_decimal(v[0] as int)
    } else {
        i32s_debug(v, (n - 1) as nat) + ", "@ + signed_decimal(v[n - 1] as int)
    }
}

/// An argument as `{:?}` prints it.
pub open spec fn arg_debug(a: FfiArgKindV) -> Seq<char> {
    match a {
        FfiArgKindV::Int(n) => "Int("@ + signed_decimal(n as int) + ")"@,
        FfiArgKindV::Bool(b) => "Bool("@ + bool_text(b) + ")"@,
        FfiArgKindV::Str(s) => "Str("@ + quoted(s) + ")"@,
        FfiArgKindV::Real(t) => "Real("@ + t + ")"@,
        FfiArgKindV::Handle(h) => "Handle("@ + decimal(h as nat) + ")"@,
        FfiArgKindV::StrArr(v) => "StrArr(["@ + strs_debug(v, v.len()) + "])"@,
        FfiArgKindV::IntOut => "IntOut"@,
        FfiArgKindV::I32Buf(v) => "I32Buf(["@ + i32s_debug(v, v.len()) + "])"@,
        FfiArgKindV::PackedBuf(t) => "PackedBuf("@ + t + ")"@,
    }
}

/// A type code as `{:?}` prints it.
pub open spec fn code_debug(c: TypeCode) -> Seq<char> {
    match c {
        TypeCode::I => "I"@,
        TypeCode::B => "B"@,
        TypeCode::S => "S"@,
        TypeCode::D => "D"@,
        TypeCode::F => "F"@,
        TypeCode::P => "P"@,
        TypeCode::V => "V"@,
    }
}

/// The first of the first `n` strings of `v` that holds a NUL char.
pub open spec fn first_nul(v: Seq<Seq<char>>, n: nat) -> Option<nat>
    decreases n,
{
    if n == 0 || n > v.len() {
        None
    } else {
        match first_nul(v, (n - 1) as nat) {
            Some(j) => Some(j),
            None => if v[n - 1].contains('\0') {
                Some((n - 1) as nat)
            } else {
                None
            },
        }
    }
}

pub open spec fn mismatch_text(a: FfiArgKindV, c: TypeCode, i: nat) -> Seq<char> {
    "arg "@ + decimal(i) + ": type mismatch — value is "@ + arg_debug(a) + ", signature says "@ + code_debug(c)
}

/// What is wrong with argument `i`, `a`, for the type code `c`, given the
/// registered handles `reg`: a kind the code does not take, a string with a
/// NUL char (C strings end at one), or a non-null handle not registered.
pub open spec fn arg_error(a: FfiArgKindV, c: TypeCode, reg: Seq<u64>, i: nat) -> Option<Seq<char>> {
    match a {
        FfiArgKindV::Int(_) => if c == TypeCode::I {
            None
        } else {
            Some(mismatch_text(a, c, i))
        },
        FfiArgKindV::Bool(_) => if c == TypeCode::B {
            None
        } else {
            Some(mismatch_text(a, c, i))
        },
        FfiArgKindV::Str(s) => if c != TypeCode::S {
            Some(mismatch_text(a, c, i))
        } else if s.contains('\0') {
            Some("arg "@ + decimal(i) + ": string contains null byte"@)
        } else {
            None
        },
        FfiArgKindV::Real(_) => if c == TypeCode::D || c == TypeCode::F {
            None
        } else {
            Some(mismatch_text(a, c, i))
        },
        FfiArgKindV::Handle(h) => if c != TypeCode::P {
            Some(mismatch_text(a, c, i))
        } else if h != 0 && !reg.contains(h) {
            Some("unknown handle "@ + decimal(h as nat))
        } else {
            None
        },
        FfiArgKindV::StrArr(v) => if c != TypeCode::P {
            Some(mismatch_text(a, c, i))
        } else {
            match first_nul(v, v.len()) {
                Some(j) => Some("arg "@ + decimal(i) + ", string "@ + decimal(j) + ": contains null byte"@),
                None => None,
            }
        },
        _ => if c == TypeCode::P {
            None
        } else {
            Some(mismatch_text(a, c, i))
        },
    }
}

/// The error of the first failing argument among the first `n`.
pub open spec fn args_error(args: Seq<FfiArgKindV>, codes: Seq<TypeCode>, reg: Seq<u64>, n: nat) -> Option<Seq<char>>
    decreases n,
{
    if n == 0 || n > args.len() {
        None
    } else {
        match args_error(args, codes, reg, (n - 1) as nat) {
            Some(e) => Some(e),
            None => arg_error(args[n - 1], codes[n - 1], reg, (n - 1) as nat),
        }
    }
}

/// How many of the first `n` arguments are `IntOut` slots.
pub open spec fn int_outs(args: Seq<FfiArgKindV>, n: nat) -> nat
    decreases n,
{
    if n == 0 || n > args.len() {
        0
    } else {
        int_outs(args, (n - 1) as nat) + if args[n - 1] is IntOut {
            1nat
        } else {
            0nat
        }
    }
}

pub open spec fn int_out_void_text() -> Seq<char> {
    "ArgIntOut requires a void-returning function (its read-back value replaces the void return); use the function's actual return value via the regular sig+ArgInt path otherwise"@
}

/// What checking a call of the function registered as `fn_id`, with the
/// signature whose chars are `sig` and UTF-8 bytes `b` and the arguments
/// `args`, gives, where `reg` holds the registered handles: the parsed
/// signature, or the text of the first failing check. In order: the
/// signature parses; it takes as many arguments as are given; the function
/// is registered; each argument passes `arg_error`; at most one `IntOut`
/// slot; an `IntOut` slot only with a void return.
pub open spec fn ffi_plan(
    sig: Seq<char>,
    b: Seq<u8>,
    args: Seq<FfiArgKindV>,
    fn_id: u64,
    reg: Seq<u64>,
) -> Result<(TypeCode, Seq<TypeCode>), Seq<char>> {
    match parse_sig(b, sig) {
        Err(e) => Err(e),
        Ok((ret, codes)) => if codes.len() != args.len() {
            Err("signature "@ + quoted(sig) + " expects "@ + decimal(codes.len()) + " args; got "@ + decimal(args.len()))
        } else if !reg.contains(fn_id) {
            Err("unknown handle "@ + decimal(fn_id as nat))
        } else {
            match args_error(args, codes, reg, args.len()) {
                Some(e) => Err(e),
                None => {
                    let k = int_outs(args, args.len());
                    if k > 1 {
                        Err("this call has "@ + decimal(k) + " ArgIntOut slots; only 1 is supported per call"@)
                    } else if k == 1 && ret != TypeCode::V {
                        Err(int_out_void_text())
                    } else {
                        Ok((ret, codes))
                    }
                },
            }
        },
    }
}

proof fn lemma_first_nul_stays(v: Seq<Seq<char>>, m: nat, n: nat)
    requires
        m <= n <= v.len(),
        first_nul(v, m) is Some,
    ensures
        first_nul(v, n) == first_nul(v, m),
    decreases n - m,
{
    if n > m {
        lemma_first_nul_stays(v, m, (n - 1) as nat);
    }
}

proof fn lemma_args_error_stays(args: Seq<FfiArgKindV>, codes: Seq<TypeCode>, reg: Seq<u64>, m: nat, n: nat)
    requires
        m <= n <= args.len(),
        args_error(args, codes, reg, m) is Some,
    ensures
        args_error(args, codes, reg, n) == args_error(args, codes, reg, m),
    decreases n - m,
{
    if n > m {
        lemma_args_error_stays(args, codes, reg, m, (n - 1) as nat);
    }
}

fn registered_has(reg: &Vec<u64>, h: u64) -> (r: bool)
    ensures
        r == reg@.contains(h),
{
    let mut i: usize = 0;
    while i < reg.len()
        invariant
            0 <= i <= reg.len(),
            forall|k: int| 0 <= k < i ==> reg@[k] != h,
        decreases reg.len() - i,
    {
        if reg[i] == h {
            assert(reg@[i as int] == h);
            return true;
        }
        i += 1;
    }
    false
}

fn has_nul(s: &String) -> (r: bool)
    ensures
        r == s@.contains('\0'),
{
    let c = str_to_chars(s.as_str());
    let mut i: usize = 0;
    while i < c.len()
        invariant
            0 <= i <= c.len(),
            c@ == s@,
            forall|k: int| 0 <= k < i ==> c@[k] != '\0',
        decreases c.len() - i,
    {
        if c[i] == '\0' {
            assert(s@[i as int] == '\0');
            return true;
        }
        i += 1;
    }
    false
}

fn strs_debug_exec(v: &Vec<String>) -> (r: String)
    ensures
        r@ == strs_debug(str_list_view(v@), v@.len()),
{
    let ghost sv = str_list_view(v@);
    let mut out = String::new();
    let mut i: usize = 0;
    while i < v.len()
        invariant
            0 <= i <= v.len(),
            sv == str_list_view(v@),
            out@ == strs_debug(sv, i as nat),
        decreases v.len() - i,
    {
        assert(sv[i as int] == v@[i as int]@);
        let q = quoted_exec(&v[i]);
        if i > 0 {
            out = concat_str(&out, ", ");
        }
        out = concat_str(&out, q.as_str());
        proof {
            reveal_strlit(", ");
            if i == 0 {
                assert(out@ =~= strs_debug(sv, 1));
            }
        }
        i += 1;
    }
    out
}

fn i32s_debug_exec(v: &Vec<i32>) -> (r: String)
    ensures
        r@ == i32s_debug(v@, v@.len()),
{
    let mut out = String::new();
    let mut i: usize = 0;
    while i < v.len()
        invariant
            0 <= i <= v.len(),
            out@ == i32s_debug(v@, i as nat),
        decreases v.len() - i,
    {
        let d = i64_decimal(v[i] as i64);
        if i > 0 {
            out = concat_str(&out, ", ");
        }
        out = concat_str(&out, d.as_str());
        proof {
            reveal_strlit(", ");
            if i == 0 {
                assert(out@ =~= i32s_debug(v@, 1));
            }
        }
        i += 1;
    }
    out
}

fn wrap(head: &str, mid: &str, tail: &str) -> (r: String)
    ensures
        r@ == head@ + mid@ + tail@,
{
    let a = concat_str(&String::from_str(head), mid);
    concat_str(&a, tail)
}

fn arg_debug_exec(a: &FfiArgKind) -> (r: String)
    ensures
        r@ == arg_debug(kind_view(*a)),
{
    match a {
        FfiArgKind::Int(n) => wrap("Int(", i64_decimal(*n).as_str(), ")"),
        FfiArgKind::Bool(b) => {
            proof {
                reveal_strlit("true");
                reveal_strlit("false");
            }
            wrap("Bool(", if *b { "true" } else { "false" }, ")")
        },
        FfiArgKind::Str(s) => wrap("Str(", quoted_exec(s).as_str(), ")"),
        FfiArgKind::Real(t) => wrap("Real(", t.as_str(), ")"),
        FfiArgKind::Handle(h) => wrap("Handle(", u64_decimal(*h).as_str(), ")"),
        FfiArgKind::StrArr(v) => wrap("StrArr([", strs_debug_exec(v).as_str(), "])"),
        FfiArgKind::IntOut => String::from_str("IntOut"),
        FfiArgKind::I32Buf(v) => wrap("I32Buf([", i32s_debug_exec(v).as_str(), "])"),
        FfiArgKind::PackedBuf(t) => wrap("PackedBuf(", t.as_str(), ")"),
    }
}

fn code_debug_exec(c: TypeCode) -> (r: &'static str)
    ensures
        r@ == code_debug(c),
{
    match c {
        TypeCode::I => "I",
        TypeCode::B => "B",
        TypeCode::S => "S",
        TypeCode::D => "D",
        TypeCode::F => "F",
        TypeCode::P => "P",
        TypeCode::V => "V",
    }
}

fn mismatch(a: &FfiArgKind, c: TypeCode, i: usize) -> (r: FfiError)
    ensures
        r.0@ == mismatch_text(kind_view(*a), c, i as nat),
{
    let mut r = String::from_str("arg ");
    r = concat_str(&r, usize_decimal(i).as_str());
    r = concat_str(&r, ": type mismatch — value is ");
    r = concat_str(&r, arg_debug_exec(a).as_str());
    r = concat_str(&r, ", signature says ");
    r = concat_str(&r, code_debug_exec(c));
    FfiError(r)
}

fn check_arg(a: &FfiArgKind, c: TypeCode, reg: &Vec<u64>, i: usize) -> (r: Option<FfiError>)
    ensures
        match r {
            Some(e) => arg_error(kind_view(*a), c, reg@, i as nat) == Some(e.0@),
            None => arg_error(kind_view(*a), c, reg@, i as nat) is None,
        },
{
    match a {
        FfiArgKind::Int(_) => if c == TypeCode::I {
            None
        } else {
            Some(mismatch(a, c, i))
        },
        FfiArgKind::Bool(_) => if c == TypeCode::B {
            None
        } else {
            Some(mismatch(a, c, i))
        },
        FfiArgKind::Str(s) => if c != TypeCode::S {
            Some(mismatch(a, c, i))
        } else if has_nul(s) {
            let r = concat_str(&String::from_str("arg "), usize_decimal(i).as_str());
            Some(FfiError(concat_str(&r, ": string contains null byte")))
        } else {
            None
        },
        FfiArgKind::Real(_) => if c == TypeCode::D || c == TypeCode::F {
            None
        } else {
            Some(mismatch(a, c, i))
        },
        FfiArgKind::Handle(h) => if c != TypeCode::P {
            Some(mismatch(a, c, i))
        } else if *h != 0 && !registered_has(reg, *h) {
            Some(FfiError(concat_str(&String::from_str("unknown handle "), u64_decimal(*h).as_str())))
        } else {
            None
        },
        FfiArgKind::StrArr(v) => {
            if c != TypeCode::P {
                return Some(mismatch(a, c, i));
            }
            let ghost sv = str_list_view(v@);
            let mut j: usize = 0;
            while j < v.len()
                invariant
                    0 <= j <= v.len(),
                    sv == str_list_view(v@),
                    sv.len() == v.len(),
                    first_nul(sv, j as nat) is None,
                    kind_view(*a) == FfiArgKindV::StrArr(sv),
                    c == TypeCode::P,
                decreases v.len() - j,
            {
                assert(sv[j as int] == v@[j as int]@);
                if has_nul(&v[j]) {
                    let mut r = String::from_str("arg ");
                    r = concat_str(&r, usize_decimal(i).as_str());
                    r = concat_str(&r, ", string ");
                    r = concat_str(&r, usize_decimal(j).as_str());
                    r = concat_str(&r, ": contains null byte");
                    proof {
                        lemma_first_nul_stays(sv, (j + 1) as nat, v.len() as nat);
                    }
                    return Some(FfiError(r));
                }
                j += 1;
            }
            None
        },
        _ => if c == TypeCode::P {
            None
        } else {
            Some(mismatch(a, c, i))
        },
    }
}

/// Checks a call of the function registered as `fn_id` with the signature
/// `sig` and the arguments `args`, where `registered` holds the ids of the
/// registered handles; see `ffi_plan`. On `Ok` the call may be made with
/// the parsed signature.
pub fn plan_ffi_call(fn_id: u64, sig: &str, args: &Vec<FfiArgKind>, registered: &Vec<u64>) -> (r: Result<ParsedSig, FfiError>)
    ensures
        match r {
            Ok(p) => ffi_plan(sig@, sig.spec_bytes(), kinds_view(args@), fn_id, registered@) == Ok::<
                (TypeCode, Seq<TypeCode>),
                Seq<char>,
            >((p.ret, p.args@)),
            Err(e) => ffi_plan(sig@, sig.spec_bytes(), kinds_view(args@), fn_id, registered@) == Err::<
                (TypeCode, Seq<TypeCode>),
                Seq<char>,
            >(e.0@),
        },
{
    let ghost av = kinds_view(args@);
    let parsed = match parse_signature(sig) {
        Ok(p) => p,
        Err(e) => {
            return Err(e);
        },
    };
    if parsed.args.len() != args.len() {
        let mut r = String::from_str("signature ");
        r = concat_str(&r, quoted_exec(&String::from_str(sig)).as_str());
        r = concat_str(&r, " expects ");
        r = concat_str(&r, usize_decimal(parsed.args.len()).as_str());
        r = concat_str(&r, " args; got ");
        r = concat_str(&r, usize_decimal(args.len()).as_str());
        return Err(FfiError(r));
    }
    if !registered_has(registered, fn_id) {
        return Err(FfiError(concat_str(&String::from_str("unknown handle "), u64_decimal(fn_id).as_str())));
    }
    let mut outs: usize = 0;
    let mut i: usize = 0;
    while i < args.len()
        invariant
            0 <= i <= args.len(),
            parsed.args.len() == args.len(),
            av == kinds_view(args@),
            av.len() == args.len(),
            parse_sig(sig.spec_bytes(), sig@) == Ok::<(TypeCode, Seq<TypeCode>), Seq<char>>((parsed.ret, parsed.args@)),
            registered@.contains(fn_id),
            args_error(av, parsed.args@, registered@, i as nat) is None,
            outs == int_outs(av, i as nat),
            outs <= i,
        decreases args.len() - i,
    {
        assert(av[i as int] == kind_view(args@[i as int]));
        if let Some(e) = check_arg(&args[i], parsed.args[i], registered, i) {
            proof {
                lemma_args_error_stays(av, parsed.args@, registered@, (i + 1) as nat, args.len() as nat);
            }
            return Err(e);
        }
        if let FfiArgKind::IntOut = &args[i] {
            outs = outs + 1;
        }
        i += 1;
    }
    if outs > 1 {
        let mut r = String::from_str("this call has ");
        r = concat_str(&r, usize_decimal(outs).as_str());
        r = concat_str(&r, " ArgIntOut slots; only 1 is supported per call");
        return Err(FfiError(r));
    }
    if outs == 1 && parsed.ret != TypeCode::V {
        return Err(FfiError(String::from_str(
            "ArgIntOut requires a void-returning function (its read-back value replaces the void return); use the function's actual return value via the regular sig+ArgInt path otherwise",
        )));
    }
    Ok(parsed)
}


// ───────────────────────────── laws ─────────────────────────────

proof fn lemma_first_nul_none(v: Seq<Seq<char>>, n: nat)
    requires
        n <= v.len(),
    ensures
        first_nul(v, n) is None <==> forall|j: int| 0 <= j < n ==> !(#[trigger] v[j]).contains('\0'),
    decreases n,
{
    if n > 0 {
        lemma_first_nul_none(v, (n - 1) as nat);
    }
}

proof fn lemma_args_error_none(args: Seq<FfiArgKindV>, codes: Seq<TypeCode>, reg: Seq<u64>, n: nat)
    requires
        n <= args.len(),
    ensures
        args_error(args, codes, reg, n) is None <==> forall|i: int|
            0 <= i < n ==> #[trigger] arg_error(args[i], codes[i], reg, i as nat) is None,
    decreases n,
{
    if n > 0 {
        lemma_args_error_none(args, codes, reg, (n - 1) as nat);
    }
}

proof fn lemma_int_outs(args: Seq<FfiArgKindV>, n: nat)
    requires
        n <= args.len(),
    ensures
        int_outs(args, n) == 0 <==> forall|i: int| 0 <= i < n ==> !(#[trigger] args[i] is IntOut),
        int_outs(args, n) <= 1 <==> forall|i: int, j: int|
            0 <= i < n && 0 <= j < n && #[trigger] args[i] is IntOut && #[trigger] args[j] is IntOut ==> i == j,
    decreases n,
{
    if n > 0 {
        lemma_int_outs(args, (n - 1) as nat);
        if int_outs(args, n) > 1 && args[n - 1] is IntOut {
            let i = choose|i: int| 0 <= i < n - 1 && args[i] is IntOut;
            assert(args[i] is IntOut && args[n - 1] is IntOut);
        }
        if int_outs(args, (n - 1) as nat) > 1 {
            let (i, j) = choose|i: int, j: int|
                0 <= i < n - 1 && 0 <= j < n - 1 && args[i] is IntOut && args[j] is IntOut && i != j;
            assert(args[i] is IntOut && args[j] is IntOut);
        }
    }
}

/// Law: which argument kinds a type code takes. An integer goes with `i`,
/// a boolean with `b`, a string without a NUL char with `s`, a real with
/// `d` or `f`, and a handle that is null or registered, a string array
/// without a NUL char, an `IntOut` slot and the buffers with `p`.
pub proof fn law_arg_acceptance(a: FfiArgKindV, c: TypeCode, reg: Seq<u64>, i: nat)
    ensures
        arg_error(a, c, reg, i) is None <==> match a {
            FfiArgKindV::Int(_) => c == TypeCode::I,
            FfiArgKindV::Bool(_) => c == TypeCode::B,
            FfiArgKindV::Str(s) => c == TypeCode::S && !s.contains('\0'),
            FfiArgKindV::Real(_) => c == TypeCode::D || c == TypeCode::F,
            FfiArgKindV::Handle(h) => c == TypeCode::P && (h == 0 || reg.contains(h)),
            FfiArgKindV::StrArr(v) => c == TypeCode::P && forall|j: int| 0 <= j < v.len() ==> !(#[trigger] v[j]).contains('\0'),
            FfiArgKindV::IntOut => c == TypeCode::P,
            FfiArgKindV::I32Buf(_) => c == TypeCode::P,
            FfiArgKindV::PackedBuf(_) => c == TypeCode::P,
        },
{
    if let FfiArgKindV::StrArr(v) = a {
        lemma_first_nul_none(v, v.len());
    }
}

/// Law: a call is accepted exactly when its signature parses, it gives as
/// many arguments as the signature takes, the function is registered, each
/// argument is one its type code takes (see `law_arg_acceptance`), at most
/// one argument is an `IntOut` slot, and a slot comes only with a void
/// return; the accepted call has the signature's return and argument codes.
pub proof fn law_plan_accepts(sig: Seq<char>, b: Seq<u8>, args: Seq<FfiArgKindV>, fn_id: u64, reg: Seq<u64>)
    ensures
        ffi_plan(sig, b, args, fn_id, reg) is Ok <==> (parse_sig(b, sig) matches Ok((ret, codes)) && {
            &&& codes.len() == args.len()
            &&& reg.contains(fn_id)
            &&& forall|i: int| 0 <= i < args.len() ==> #[trigger] arg_error(args[i], codes[i], reg, i as nat) is None
            &&& forall|i: int, j: int|
                0 <= i < args.len() && 0 <= j < args.len() && #[trigger] args[i] is IntOut && #[trigger] args[j] is IntOut
                    ==> i == j
            &&& (exists|i: int| 0 <= i < args.len() && #[trigger] args[i] is IntOut) ==> ret == TypeCode::V
        }),
        ffi_plan(sig, b, args, fn_id, reg) is Ok ==> parse_sig(b, sig) == ffi_plan(sig, b, args, fn_id, reg),
{
    if let Ok((ret, codes)) = parse_sig(b, sig) {
        if codes.len() == args.len() {
            lemma_args_error_none(args, codes, reg, args.len());
            lemma_int_outs(args, args.len());
        }
    }
}

proof fn lemma_parse_args(mid: Seq<u8>, sig: Seq<char>)
    ensures
        parse_args(mid, sig) is Ok <==> forall|i: int|
            0 <= i < mid.len() ==> #[trigger] code_of(mid[i] as char) is Some && code_of(mid[i] as char) != Some(TypeCode::V),
        parse_args(mid, sig) matches Ok(codes) ==> codes.len() == mid.len() && forall|i: int|
            0 <= i < mid.len() ==> code_of(#[trigger] mid[i] as char) == Some(codes[i]),
    decreases mid.len(),
{
    if mid.len() > 0 {
        let d = mid.drop_last();
        lemma_parse_args(d, sig);
        assert forall|i: int| 0 <= i < d.len() implies d[i] == mid[i] by {}
        if parse_args(mid, sig) is Ok {
            let codes = parse_args(mid, sig)->Ok_0;
            let prev = parse_args(d, sig)->Ok_0;
            assert forall|i: int| 0 <= i < mid.len() implies code_of(#[trigger] mid[i] as char) == Some(codes[i]) by {
                if i < d.len() {
                    assert(codes[i] == prev[i]);
                    assert(d[i] == mid[i]);
                }
            }
        }
        if forall|i: int| 0 <= i < mid.len() ==> #[trigger] code_of(mid[i] as char) is Some && code_of(mid[i] as char) != Some(TypeCode::V) {
            assert forall|i: int| 0 <= i < d.len() implies #[trigger] code_of(d[i] as char) is Some && code_of(d[i] as char) != Some(TypeCode::V) by {
                assert(d[i] == mid[i]);
                assert(code_of(mid[i] as char) is Some);
            }
            assert(code_of(mid[mid.len() - 1] as char) is Some);
        }
        if parse_args(mid, sig) is Ok {
            assert forall|i: int| 0 <= i < mid.len() implies #[trigger] code_of(mid[i] as char) is Some && code_of(mid[i] as char) != Some(TypeCode::V) by {
                if i < d.len() {
                    assert(d[i] == mid[i]);
                    assert(code_of(d[i] as char) is Some);
                }
            }
        }
    }
}

/// Law: a signature parses exactly when it is a return code, `(`, argument
/// codes other than `v`, and `)`; it gives the return code and the
/// argument codes in order. The codes are `i b s d f p v`.
pub proof fn law_signature_shape(b: Seq<u8>, sig: Seq<char>)
    ensures
        parse_sig(b, sig) is Ok <==> {
            &&& b.len() >= 3
            &&& code_of(b[0] as char) is Some
            &&& b[1] == 40u8
            &&& b.last() == 41u8
            &&& forall|i: int|
                2 <= i < b.len() - 1 ==> #[trigger] code_of(b[i] as char) is Some && code_of(b[i] as char) != Some(TypeCode::V)
        },
        parse_sig(b, sig) matches Ok((ret, codes)) ==> {
            &&& code_of(b[0] as char) == Some(ret)
            &&& codes.len() == b.len() - 3
            &&& forall|i: int| 0 <= i < codes.len() ==> code_of(#[trigger] b[i + 2] as char) == Some(codes[i])
        },
        code_of('i') == Some(TypeCode::I) && code_of('b') == Some(TypeCode::B) && code_of('s') == Some(TypeCode::S),
        code_of('d') == Some(TypeCode::D) && code_of('f') == Some(TypeCode::F) && code_of('p') == Some(TypeCode::P),
        code_of('v') == Some(TypeCode::V),
{
    if b.len() >= 3 {
        let mid = b.subrange(2, b.len() - 1);
        lemma_parse_args(mid, sig);
        assert forall|i: int| 2 <= i < b.len() - 1 implies mid[i - 2] == b[i] by {}
        if forall|i: int|
            2 <= i < b.len() - 1 ==> #[trigger] code_of(b[i] as char) is Some && code_of(b[i] as char) != Some(TypeCode::V) {
            assert forall|i: int| 0 <= i < mid.len() implies #[trigger] code_of(mid[i] as char) is Some && code_of(mid[i] as char) != Some(TypeCode::V) by {
                assert(mid[i] == b[i + 2]);
                assert(code_of(b[i + 2] as char) is Some);
            }
        }
        if parse_args(mid, sig) is Ok {
            assert forall|i: int| 2 <= i < b.len() - 1 implies #[trigger] code_of(b[i] as char) is Some && code_of(b[i] as char) != Some(TypeCode::V) by {
                assert(mid[i - 2] == b[i]);
                assert(code_of(mid[i - 2] as char) is Some);
            }
            let codes = parse_args(mid, sig)->Ok_0;
            assert forall|i: int| 0 <= i < codes.len() implies code_of(#[trigger] b[i + 2] as char) == Some(codes[i]) by {
                assert(mid[i] == b[i + 2]);
            }
        }
    }
}

} // verus!
