//! Native evaluation of substitution chains: each step's expression is
//! evaluated against the bindings so far, without a solver. `None` means
//! "cannot evaluate natively" (or the inputs conflict), and the caller
//! falls back to solving.
//!
//! Bindings are lists of `(name, value)` pairs looked up by first match.
//! Bare names that are not bound resolve through a caller-supplied list;
//! a call `Ctor(args)` builds the enum value of the first declared enum
//! with a variant `Ctor` of that arity. Real arithmetic is not evaluated
//! here: it needs floating point, and such expressions fall back.
use vstd::prelude::*;
use crate::ast::{
    arms_view, binop_view, expr_view, exprs_view, lemma_list_views, pattern_view, BinOp, BinOpV, Expr, ExprV, MatchArmV,
    MatchPattern, MatchPatternV,
};
use crate::functionize::{pairs_view, steps_view, Substitution, SubstitutionChain};
use crate::program::{enum_view, enums_view, EnumDecl, EnumDeclV};
use crate::value::{
    clone_value, env_find, env_get, env_insert, env_set, lemma_env_index, lemma_value_lists, record_view, value_view,
    values_equal, values_view, Value, ValueV,
};

verus! {

pub type EnvV = Seq<(Seq<char>, ValueV)>;

// ───────────────────────────── specification ─────────────────────────────

/// The value of a binary operator on two values; `None` where the operator
/// does not apply, an integer result leaves `i64`, or division is by zero.
/// Integer division is Euclidean (the remainder is never negative), as the
/// solver's integer `div` is, so a chain evaluated here agrees with it.
pub open spec fn eval_binop(op: BinOpV, l: ValueV, r: ValueV) -> Option<ValueV> {
    match (op, l, r) {
        (BinOpV::Add, ValueV::Int(a), ValueV::Int(b)) => match a.checked_add(b) {
            Some(x) => Some(ValueV::Int(x)),
            None => None,
        },
        (BinOpV::Sub, ValueV::Int(a), ValueV::Int(b)) => match a.checked_sub(b) {
            Some(x) => Some(ValueV::Int(x)),
            None => None,
        },
        (BinOpV::Mul, ValueV::Int(a), ValueV::Int(b)) => match a.checked_mul(b) {
            Some(x) => Some(ValueV::Int(x)),
            None => None,
        },
        (BinOpV::Div, ValueV::Int(a), ValueV::Int(b)) => match a.checked_div_euclid(b) {
            Some(x) => Some(ValueV::Int(x)),
            None => None,
        },
        (BinOpV::Eq, ValueV::Int(a), ValueV::Int(b)) => Some(ValueV::Bool(a == b)),
        (BinOpV::Neq, ValueV::Int(a), ValueV::Int(b)) => Some(ValueV::Bool(a != b)),
        (BinOpV::Lt, ValueV::Int(a), ValueV::Int(b)) => Some(ValueV::Bool(a < b)),
        (BinOpV::Le, ValueV::Int(a), ValueV::Int(b)) => Some(ValueV::Bool(a <= b)),
        (BinOpV::Gt, ValueV::Int(a), ValueV::Int(b)) => Some(ValueV::Bool(a > b)),
        (BinOpV::Ge, ValueV::Int(a), ValueV::Int(b)) => Some(ValueV::Bool(a >= b)),
        (BinOpV::Eq, ValueV::Bool(a), ValueV::Bool(b)) => Some(ValueV::Bool(a == b)),
        (BinOpV::And, ValueV::Bool(a), ValueV::Bool(b)) => Some(ValueV::Bool(a && b)),
        (BinOpV::Or, ValueV::Bool(a), ValueV::Bool(b)) => Some(ValueV::Bool(a || b)),
        (BinOpV::Concat, ValueV::Str(a), ValueV::Str(b)) => Some(ValueV::Str(a + b)),
        _ => None,
    }
}

/// Law: on integers, `+ - *` give the mathematical sum, difference (left
/// minus right) and product when it fits in `i64`; `/` gives the quotient
/// `q` whose remainder `a - q * b` lies in `[0, |b|)`, nothing for a zero
/// divisor, and a quotient whenever one fits; the comparisons compare left
/// against right.
pub proof fn law_binop_integers(a: i64, b: i64)
    ensures
        eval_binop(BinOpV::Add, ValueV::Int(a), ValueV::Int(b)) == (if i64::MIN <= a + b <= i64::MAX {
            Some(ValueV::Int((a + b) as i64))
        } else {
            None
        }),
        eval_binop(BinOpV::Sub, ValueV::Int(a), ValueV::Int(b)) == (if i64::MIN <= a - b <= i64::MAX {
            Some(ValueV::Int((a - b) as i64))
        } else {
            None
        }),
        eval_binop(BinOpV::Mul, ValueV::Int(a), ValueV::Int(b)) == (if i64::MIN <= a * b <= i64::MAX {
            Some(ValueV::Int((a * b) as i64))
        } else {
            None
        }),
        b == 0 ==> eval_binop(BinOpV::Div, ValueV::Int(a), ValueV::Int(b)) is None,
        b != 0 ==> match eval_binop(BinOpV::Div, ValueV::Int(a), ValueV::Int(b)) {
            Some(ValueV::Int(q)) => 0 <= a - q * b < (if b < 0 { -(b as int) } else { b as int }),
            Some(_) => false,
            None => a == i64::MIN && b == -1,
        },
        eval_binop(BinOpV::Eq, ValueV::Int(a), ValueV::Int(b)) == Some(ValueV::Bool(a == b)),
        eval_binop(BinOpV::Neq, ValueV::Int(a), ValueV::Int(b)) == Some(ValueV::Bool(a != b)),
        eval_binop(BinOpV::Lt, ValueV::Int(a), ValueV::Int(b)) == Some(ValueV::Bool(a < b)),
        eval_binop(BinOpV::Le, ValueV::Int(a), ValueV::Int(b)) == Some(ValueV::Bool(a <= b)),
        eval_binop(BinOpV::Gt, ValueV::Int(a), ValueV::Int(b)) == Some(ValueV::Bool(b < a)),
        eval_binop(BinOpV::Ge, ValueV::Int(a), ValueV::Int(b)) == Some(ValueV::Bool(b <= a)),
{
    if b != 0 {
        crate::declare::lemma_euclid(a as int, b as int);
    }
}

/// Law: on booleans `==`, `∧` and `∨` are equality, conjunction and
/// disjunction; on strings `++` puts the left string first.
pub proof fn law_binop_bools_and_strings(x: bool, y: bool, s: Seq<char>, t: Seq<char>)
    ensures
        eval_binop(BinOpV::Eq, ValueV::Bool(x), ValueV::Bool(y)) == Some(ValueV::Bool(x == y)),
        eval_binop(BinOpV::And, ValueV::Bool(x), ValueV::Bool(y)) == Some(ValueV::Bool(x && y)),
        eval_binop(BinOpV::Or, ValueV::Bool(x), ValueV::Bool(y)) == Some(ValueV::Bool(x || y)),
        eval_binop(BinOpV::Concat, ValueV::Str(s), ValueV::Str(t)) == Some(ValueV::Str(s + t)),
        eval_binop(BinOpV::Concat, ValueV::Str(s), ValueV::Str(t)) matches Some(ValueV::Str(u))
            && u.len() == s.len() + t.len() && u.subrange(0, s.len() as int) == s,
{
    assert((s + t).subrange(0, s.len() as int) =~= s);
}

/// Law: a binary expression applies its operator to the value of its left
/// operand and that of its right, in that order; a literal is its own value.
pub proof fn law_eval_binary(op: BinOpV, l: ExprV, r: ExprV, env: EnvV, idents: EnvV, enums: Seq<EnumDeclV>, a: ValueV, b: ValueV)
    requires
        eval_spec(l, env, idents, enums) == Some(a),
        eval_spec(r, env, idents, enums) == Some(b),
    ensures
        eval_spec(ExprV::Binary(op, Box::new(l), Box::new(r)), env, idents, enums) == eval_binop(op, a, b),
{
}

/// Law: a literal evaluates to itself, whatever the bindings.
pub proof fn law_eval_literals(n: i64, x: bool, s: Seq<char>, env: EnvV, idents: EnvV, enums: Seq<EnumDeclV>)
    ensures
        eval_spec(ExprV::Int(n), env, idents, enums) == Some(ValueV::Int(n)),
        eval_spec(ExprV::Bool(x), env, idents, enums) == Some(ValueV::Bool(x)),
        eval_spec(ExprV::Str(s), env, idents, enums) == Some(ValueV::Str(s)),
{
}

/// Does enum `e` declare a variant `name` with `n` fields?
pub open spec fn has_variant(e: EnumDeclV, name: Seq<char>, n: nat) -> bool {
    exists|i: int| 0 <= i < e.variants.len() && (#[trigger] e.variants[i]).name == name && e.variants[i].field_types.len() == n
}

/// The value `name(args)` builds: the first declared enum with a variant
/// `name` of that arity.
pub open spec fn ctor_value(enums: Seq<EnumDeclV>, name: Seq<char>, args: Seq<ValueV>) -> Option<ValueV>
    decreases enums.len(),
{
    if enums.len() == 0 {
        None
    } else if has_variant(enums[0], name, args.len()) {
        Some(ValueV::Enum { enum_name: enums[0].name, variant: name, fields: args })
    } else {
        ctor_value(enums.drop_first(), name, args)
    }
}

/// The sequence value of a sequence literal's element values: the kind of
/// the first element decides; an empty literal has no value here.
pub open spec fn classify_seq(vals: Seq<ValueV>) -> Option<ValueV> {
    if vals.len() == 0 {
        None
    } else {
        match vals[0] {
            ValueV::Int(_) => if forall|i: int| 0 <= i < vals.len() ==> (#[trigger] vals[i]) is Int {
                Some(ValueV::SeqInt(Seq::new(vals.len(), |i: int| vals[i]->Int_0)))
            } else {
                None
            },
            ValueV::Bool(_) => if forall|i: int| 0 <= i < vals.len() ==> (#[trigger] vals[i]) is Bool {
                Some(ValueV::SeqBool(Seq::new(vals.len(), |i: int| vals[i]->Bool_0)))
            } else {
                None
            },
            ValueV::Str(_) => if forall|i: int| 0 <= i < vals.len() ==> (#[trigger] vals[i]) is Str {
                Some(ValueV::SeqStr(Seq::new(vals.len(), |i: int| vals[i]->Str_0)))
            } else {
                None
            },
            ValueV::Enum { .. } => Some(ValueV::SeqEnum(vals)),
            _ => None,
        }
    }
}

/// Element `i` of a sequence value.
pub open spec fn index_value(target: ValueV, i: i64) -> Option<ValueV> {
    if i < 0 {
        None
    } else {
        match target {
            ValueV::SeqInt(v) => if i < v.len() { Some(ValueV::Int(v[i as int])) } else { None },
            ValueV::SeqBool(v) => if i < v.len() { Some(ValueV::Bool(v[i as int])) } else { None },
            ValueV::SeqStr(v) => if i < v.len() { Some(ValueV::Str(v[i as int])) } else { None },
            ValueV::SeqEnum(v) => if i < v.len() { Some(v[i as int]) } else { None },
            _ => None,
        }
    }
}

/// The element count of a sequence or set value.
pub open spec fn card_value(v: ValueV) -> Option<ValueV> {
    match v {
        ValueV::SeqInt(x) => Some(ValueV::Int(x.len() as i64)),
        ValueV::SeqBool(x) => Some(ValueV::Int(x.len() as i64)),
        ValueV::SeqStr(x) => Some(ValueV::Int(x.len() as i64)),
        ValueV::SeqEnum(x) => Some(ValueV::Int(x.len() as i64)),
        ValueV::SeqComposite(x) => Some(ValueV::Int(x.len() as i64)),
        ValueV::SetInt(x) => Some(ValueV::Int(x.len() as i64)),
        ValueV::SetBool(x) => Some(ValueV::Int(x.len() as i64)),
        ValueV::SetStr(x) => Some(ValueV::Int(x.len() as i64)),
        _ => None,
    }
}

/// Does arm pattern `p` select a scrutinee with variant `variant` and `n`
/// payload fields?
pub open spec fn arm_selects(p: MatchPatternV, variant: Seq<char>, n: nat) -> bool {
    match p {
        MatchPatternV::Ctor { name, binds } => name == variant && binds.len() == n,
        MatchPatternV::Wildcard => true,
    }
}

/// The first arm that selects the scrutinee, if any.
pub open spec fn first_arm(arms: Seq<MatchArmV>, variant: Seq<char>, n: nat) -> Option<int> {
    if exists|i: int| 0 <= i < arms.len() && arm_selects(#[trigger] arms[i].pattern, variant, n) {
        Some(
            choose|i: int|
                0 <= i < arms.len() && arm_selects(#[trigger] arms[i].pattern, variant, n) && forall|j: int|
                    0 <= j < i ==> !arm_selects(#[trigger] arms[j].pattern, variant, n),
        )
    } else {
        None
    }
}

/// `env` with each named binder bound to its payload field, in order.
pub open spec fn bind_fields(env: EnvV, binds: Seq<Option<Seq<char>>>, fields: Seq<ValueV>) -> EnvV
    decreases binds.len(),
{
    if binds.len() == 0 {
        env
    } else {
        let e1 = bind_fields(env, binds.drop_last(), fields);
        match binds.last() {
            Some(n) => env_set(e1, n, fields[binds.len() - 1]),
            None => e1,
        }
    }
}

pub open spec fn all_some(vals: Seq<Option<ValueV>>) -> bool {
    forall|i: int| 0 <= i < vals.len() ==> (#[trigger] vals[i]) is Some
}

pub open spec fn unwrap_all(vals: Seq<Option<ValueV>>) -> Seq<ValueV> {
    Seq::new(vals.len(), |i: int| vals[i]->Some_0)
}

/// The value of `e` under `env`; see the module's description.
pub open spec fn eval_spec(e: ExprV, env: EnvV, idents: EnvV, enums: Seq<EnumDeclV>) -> Option<ValueV>
    decreases e, 0int,
{
    match e {
        ExprV::Int(n) => Some(ValueV::Int(n)),
        ExprV::Real(r) => Some(ValueV::Real(r)),
        ExprV::Bool(b) => Some(ValueV::Bool(b)),
        ExprV::Str(s) => Some(ValueV::Str(s)),
        ExprV::Identifier(n) => match env_get(env, n) {
            Some(v) => Some(v),
            None => env_get(idents, n),
        },
        ExprV::Binary(op, l, r) => match (eval_spec(*l, env, idents, enums), eval_spec(*r, env, idents, enums)) {
            (Some(a), Some(b)) => eval_binop(op, a, b),
            _ => None,
        },
        ExprV::Not(x) => match eval_spec(*x, env, idents, enums) {
            Some(ValueV::Bool(b)) => Some(ValueV::Bool(!b)),
            _ => None,
        },
        ExprV::Ternary(c, a, b) => match eval_spec(*c, env, idents, enums) {
            Some(ValueV::Bool(cb)) => if cb {
                eval_spec(*a, env, idents, enums)
            } else {
                eval_spec(*b, env, idents, enums)
            },
            _ => None,
        },
        ExprV::Match(s, arms) => match eval_spec(*s, env, idents, enums) {
            Some(ValueV::Enum { variant, fields, .. }) => match first_arm(arms, variant, fields.len()) {
                Some(k) => if 0 <= k < arms.len() {
                    match arms[k].pattern {
                        MatchPatternV::Ctor { binds, .. } => eval_spec(
                            arms[k].body,
                            bind_fields(env, binds, fields),
                            idents,
                            enums,
                        ),
                        MatchPatternV::Wildcard => eval_spec(arms[k].body, env, idents, enums),
                    }
                } else {
                    None
                },
                None => None,
            },
            _ => None,
        },
        ExprV::SeqLit(items) => {
            let vals = eval_items(items, env, idents, enums);
            if all_some(vals) {
                classify_seq(unwrap_all(vals))
            } else {
                None
            }
        },
        ExprV::Call(name, args) => {
            let vals = eval_items(args, env, idents, enums);
            if all_some(vals) {
                ctor_value(enums, name, unwrap_all(vals))
            } else {
                None
            }
        },
        ExprV::Index(t, i) => match (eval_spec(*t, env, idents, enums), eval_spec(*i, env, idents, enums)) {
            (Some(tv), Some(ValueV::Int(n))) => index_value(tv, n),
            _ => None,
        },
        ExprV::Cardinality(t) => match eval_spec(*t, env, idents, enums) {
            Some(v) => card_value(v),
            None => None,
        },
        ExprV::Field(t, name) => match eval_spec(*t, env, idents, enums) {
            Some(ValueV::Composite(fs)) => env_get(fs, name),
            _ => None,
        },
        ExprV::Matches(s, p) => match eval_spec(*s, env, idents, enums) {
            Some(ValueV::Enum { variant, .. }) => match p {
                MatchPatternV::Ctor { name, .. } => Some(ValueV::Bool(variant == name)),
                MatchPatternV::Wildcard => Some(ValueV::Bool(true)),
            },
            _ => None,
        },
        _ => None,
    }
}


/// The value of each of `items`.
pub open spec fn eval_items(items: Seq<ExprV>, env: EnvV, idents: EnvV, enums: Seq<EnumDeclV>) -> Seq<Option<ValueV>>
    decreases items, 1int,
{
    Seq::new(items.len(), |i: int| if 0 <= i < items.len() { eval_spec(items[i], env, idents, enums) } else { None })
}


// ───────────────────────────── executable ─────────────────────────────

pub open spec fn opt_value_view(o: Option<Value>) -> Option<ValueV> {
    match o {
        Some(v) => Some(v@),
        None => None,
    }
}

fn eval_binop_exec(op: &BinOp, l: &Value, r: &Value) -> (out: Option<Value>)
    ensures
        opt_value_view(out) == eval_binop(binop_view(*op), l@, r@),
{
    match (op, l, r) {
        (BinOp::Add, Value::Int(a), Value::Int(b)) => match a.checked_add(*b) {
            Some(x) => Some(Value::Int(x)),
            None => None,
        },
        (BinOp::Sub, Value::Int(a), Value::Int(b)) => match a.checked_sub(*b) {
            Some(x) => Some(Value::Int(x)),
            None => None,
        },
        (BinOp::Mul, Value::Int(a), Value::Int(b)) => match a.checked_mul(*b) {
            Some(x) => Some(Value::Int(x)),
            None => None,
        },
        (BinOp::Div, Value::Int(a), Value::Int(b)) => match a.checked_div_euclid(*b) {
            Some(x) => Some(Value::Int(x)),
            None => None,
        },
        (BinOp::Eq, Value::Int(a), Value::Int(b)) => Some(Value::Bool(*a == *b)),
        (BinOp::Neq, Value::Int(a), Value::Int(b)) => Some(Value::Bool(*a != *b)),
        (BinOp::Lt, Value::Int(a), Value::Int(b)) => Some(Value::Bool(*a < *b)),
        (BinOp::Le, Value::Int(a), Value::Int(b)) => Some(Value::Bool(*a <= *b)),
        (BinOp::Gt, Value::Int(a), Value::Int(b)) => Some(Value::Bool(*a > *b)),
        (BinOp::Ge, Value::Int(a), Value::Int(b)) => Some(Value::Bool(*a >= *b)),
        (BinOp::Eq, Value::Bool(a), Value::Bool(b)) => Some(Value::Bool(*a == *b)),
        (BinOp::And, Value::Bool(a), Value::Bool(b)) => Some(Value::Bool(*a && *b)),
        (BinOp::Or, Value::Bool(a), Value::Bool(b)) => Some(Value::Bool(*a || *b)),
        (BinOp::Concat, Value::Str(a), Value::Str(b)) => {
            let mut s = a.clone();
            vstd::string::StringExecFns::append(&mut s, b.as_str());
            Some(Value::Str(s))
        },
        _ => None,
    }
}

/// Does enum `e` declare a variant `name` with `n` fields?
fn has_variant_exec(e: &EnumDecl, name: &String, n: usize) -> (r: bool)
    ensures
        r == has_variant(enum_view(*e), name@, n as nat),
{
    let ghost ev = enum_view(*e);
    let mut i: usize = 0;
    while i < e.variants.len()
        invariant
            0 <= i <= e.variants.len(),
            ev == enum_view(*e),
            forall|k: int| 0 <= k < i ==> !((#[trigger] ev.variants[k]).name == name@ && ev.variants[k].field_types.len() == n),
        decreases e.variants.len() - i,
    {
        assert(ev.variants[i as int] == crate::program::variant_view(e.variants@[i as int]));
        if e.variants[i].name == *name && e.variants[i].fields.len() == n {
            return true;
        }
        i += 1;
    }
    false
}

/// The value `name(args)`; see `ctor_value`.
fn ctor_value_exec(enums: &Vec<EnumDecl>, name: &String, args: Vec<Value>) -> (r: Option<Value>)
    ensures
        opt_value_view(r) == ctor_value(enums_view(enums@), name@, values_view(args@)),
{
    let ghost ev = enums_view(enums@);
    let ghost av = values_view(args@);
    let mut i: usize = 0;
    assert(ev.subrange(0, ev.len() as int) =~= ev);
    while i < enums.len()
        invariant
            0 <= i <= enums.len(),
            ev == enums_view(enums@),
            av == values_view(args@),
            ctor_value(ev, name@, av) == ctor_value(ev.subrange(i as int, ev.len() as int), name@, av),
        decreases enums.len() - i,
    {
        let ghost rest = ev.subrange(i as int, ev.len() as int);
        assert(rest[0] == enum_view(enums@[i as int]));
        assert(rest.drop_first() =~= ev.subrange(i + 1, ev.len() as int));
        if has_variant_exec(&enums[i], name, args.len()) {
            let v = Value::Enum { enum_name: enums[i].name.clone(), variant: name.clone(), fields: args };
            proof {
                lemma_value_lists(v);
            }
            return Some(v);
        }
        i += 1;
    }
    None
}

/// The sequence value of element values; see `classify_seq`.
fn classify_seq_exec(vals: Vec<Value>) -> (r: Option<Value>)
    ensures
        opt_value_view(r) == classify_seq(values_view(vals@)),
{
    let ghost vv = values_view(vals@);
    if vals.len() == 0 {
        return None;
    }
    assert(vv[0] == value_view(vals@[0]));
    match &vals[0] {
        Value::Int(_) => {
            let mut out: Vec<i64> = Vec::new();
            let mut i: usize = 0;
            while i < vals.len()
                invariant
                    0 <= i <= vals.len(),
                    vv == values_view(vals@),
                    vv.len() > 0 && vv[0] is Int,
                    out.len() == i,
                    forall|k: int| 0 <= k < i ==> (#[trigger] vv[k]) is Int && out@[k] == vv[k]->Int_0,
                decreases vals.len() - i,
            {
                assert(vv[i as int] == value_view(vals@[i as int]));
                match &vals[i] {
                    Value::Int(n) => out.push(*n),
                    _ => {
                        assert(!(vv[i as int] is Int));
                        return None;
                    },
                }
                i += 1;
            }
            assert(out@ =~= Seq::new(vv.len(), |k: int| vv[k]->Int_0));
            Some(Value::SeqInt(out))
        },
        Value::Bool(_) => {
            let mut out: Vec<bool> = Vec::new();
            let mut i: usize = 0;
            while i < vals.len()
                invariant
                    0 <= i <= vals.len(),
                    vv == values_view(vals@),
                    vv.len() > 0 && vv[0] is Bool,
                    out.len() == i,
                    forall|k: int| 0 <= k < i ==> (#[trigger] vv[k]) is Bool && out@[k] == vv[k]->Bool_0,
                decreases vals.len() - i,
            {
                assert(vv[i as int] == value_view(vals@[i as int]));
                match &vals[i] {
                    Value::Bool(b) => out.push(*b),
                    _ => {
                        assert(!(vv[i as int] is Bool));
                        return None;
                    },
                }
                i += 1;
            }
            assert(out@ =~= Seq::new(vv.len(), |k: int| vv[k]->Bool_0));
            Some(Value::SeqBool(out))
        },
        Value::Str(_) => {
            let mut out: Vec<String> = Vec::new();
            let mut i: usize = 0;
            while i < vals.len()
                invariant
                    0 <= i <= vals.len(),
                    vv == values_view(vals@),
                    vv.len() > 0 && vv[0] is Str,
                    out.len() == i,
                    forall|k: int| 0 <= k < i ==> (#[trigger] vv[k]) is Str && out@[k]@ == vv[k]->Str_0,
                decreases vals.len() - i,
            {
                assert(vv[i as int] == value_view(vals@[i as int]));
                match &vals[i] {
                    Value::Str(x) => out.push(x.clone()),
                    _ => {
                        assert(!(vv[i as int] is Str));
                        return None;
                    },
                }
                i += 1;
            }
            assert(crate::value::str_seq_view(out@) =~= Seq::new(vv.len(), |k: int| vv[k]->Str_0));
            Some(Value::SeqStr(out))
        },
        Value::Enum { .. } => {
            let v = Value::SeqEnum(vals);
            proof {
                lemma_value_lists(v);
            }
            Some(v)
        },
        _ => None,
    }
}

/// Element `i` of a sequence value; see `index_value`.
fn index_value_exec(target: &Value, i: i64) -> (r: Option<Value>)
    ensures
        opt_value_view(r) == index_value(target@, i),
{
    proof {
        lemma_value_lists(*target);
    }
    if i < 0 {
        return None;
    }
    let k = i as u64;
    match target {
        Value::SeqInt(v) => if k < v.len() as u64 { Some(Value::Int(v[k as usize])) } else { None },
        Value::SeqBool(v) => if k < v.len() as u64 { Some(Value::Bool(v[k as usize])) } else { None },
        Value::SeqStr(v) => if k < v.len() as u64 {
            Some(Value::Str(v[k as usize].clone()))
        } else {
            None
        },
        Value::SeqEnum(v) => if k < v.len() as u64 {
            assert(values_view(v@)[k as int] == value_view(v@[k as int]));
            Some(clone_value(&v[k as usize]))
        } else {
            None
        },
        _ => None,
    }
}

/// The element count of a sequence or set value; see `card_value`.
fn card_value_exec(v: &Value) -> (r: Option<Value>)
    ensures
        opt_value_view(r) == card_value(v@),
{
    proof {
        lemma_value_lists(*v);
    }
    match v {
        Value::SeqInt(x) => Some(Value::Int(x.len() as i64)),
        Value::SeqBool(x) => Some(Value::Int(x.len() as i64)),
        Value::SeqStr(x) => Some(Value::Int(x.len() as i64)),
        Value::SeqEnum(x) => Some(Value::Int(x.len() as i64)),
        Value::SeqComposite(x) => Some(Value::Int(x.len() as i64)),
        Value::SetInt(x) => Some(Value::Int(x.len() as i64)),
        Value::SetBool(x) => Some(Value::Int(x.len() as i64)),
        Value::SetStr(x) => Some(Value::Int(x.len() as i64)),
        _ => None,
    }
}

/// The value bound to `k`, cloned; see `env_get`.
fn lookup(env: &Vec<(String, Value)>, k: &String) -> (r: Option<Value>)
    ensures
        opt_value_view(r) == env_get(record_view(env@), k@),
{
    proof {
        lemma_env_index(record_view(env@), k@);
    }
    match env_find(env, k) {
        Some(i) => {
            assert(record_view(env@)[i as int] == (env@[i as int].0@, value_view(env@[i as int].1)));
            Some(clone_value(&env[i].1))
        },
        None => None,
    }
}


/// `env` with the payload fields bound to the named binders; see
/// `bind_fields`.
fn bind_payload(env: &Vec<(String, Value)>, binds: &Vec<Option<String>>, fields: &Vec<Value>) -> (r: Vec<(String, Value)>)
    requires
        binds.len() == fields.len(),
    ensures
        record_view(r@) == bind_fields(
            record_view(env@),
            Seq::new(binds.len() as nat, |i: int| crate::ast::opt_str_view(binds@[i])),
            values_view(fields@),
        ),
{
    let ghost bv = Seq::new(binds.len() as nat, |i: int| crate::ast::opt_str_view(binds@[i]));
    let ghost fv = values_view(fields@);
    let mut out = crate::value::clone_record(env);
    let mut j: usize = 0;
    assert(bv.take(0) =~= Seq::<Option<Seq<char>>>::empty());
    while j < binds.len()
        invariant
            0 <= j <= binds.len(),
            binds.len() == fields.len(),
            bv == Seq::new(binds.len() as nat, |i: int| crate::ast::opt_str_view(binds@[i])),
            fv == values_view(fields@),
            record_view(out@) == bind_fields(record_view(env@), bv.take(j as int), fv),
        decreases binds.len() - j,
    {
        assert(bv.take(j + 1).drop_last() =~= bv.take(j as int));
        assert(bv.take(j + 1).last() == crate::ast::opt_str_view(binds@[j as int]));
        assert(fv[j as int] == value_view(fields@[j as int]));
        if let Some(name) = &binds[j] {
            env_insert(&mut out, name.clone(), clone_value(&fields[j]));
        }
        j += 1;
    }
    assert(bv.take(binds.len() as int) =~= bv);
    out
}

/// The value of each of `xs`, or `None` at the first that has none.
fn eval_list(
    xs: &Vec<Expr>,
    env: &Vec<(String, Value)>,
    idents: &Vec<(String, Value)>,
    enums: &Vec<EnumDecl>,
) -> (r: Option<Vec<Value>>)
    ensures
        ({
            let vals = eval_items(exprs_view(xs@), record_view(env@), record_view(idents@), enums_view(enums@));
            match r {
                Some(vs) => all_some(vals) && values_view(vs@) == unwrap_all(vals),
                None => !all_some(vals),
            }
        }),
    decreases xs, 2int,
{
    let ghost vals = eval_items(exprs_view(xs@), record_view(env@), record_view(idents@), enums_view(enums@));
    let mut out: Vec<Value> = Vec::new();
    let mut i: usize = 0;
    while i < xs.len()
        invariant
            0 <= i <= xs.len(),
            vals == eval_items(exprs_view(xs@), record_view(env@), record_view(idents@), enums_view(enums@)),
            out.len() == i,
            forall|k: int| 0 <= k < i ==> (#[trigger] vals[k]) == Some(value_view(out@[k])),
        decreases xs.len() - i,
    {
        proof {
            assert(decreases_to!(*xs => xs@[i as int]));
        }
        assert(exprs_view(xs@)[i as int] == expr_view(xs@[i as int]));
        match eval_expr(&xs[i], env, idents, enums) {
            Some(v) => out.push(v),
            None => {
                assert(vals[i as int] is None);
                return None;
            },
        }
        i += 1;
    }
    assert(values_view(out@) =~= unwrap_all(vals));
    Some(out)
}

/// Does arm pattern `p` select a scrutinee with variant `variant` and `n`
/// payload fields?
fn arm_selects_exec(p: &MatchPattern, variant: &String, n: usize) -> (r: bool)
    ensures
        r == arm_selects(pattern_view(*p), variant@, n as nat),
{
    match p {
        MatchPattern::Ctor { name, binds } => *name == *variant && binds.len() == n,
        MatchPattern::Wildcard => true,
    }
}

/// The value of a `match` expression; see `eval_spec`.
#[verifier::rlimit(40)]
fn eval_match(
    e: &Expr,
    env: &Vec<(String, Value)>,
    idents: &Vec<(String, Value)>,
    enums: &Vec<EnumDecl>,
) -> (r: Option<Value>)
    requires
        e is Match,
    ensures
        opt_value_view(r) == eval_spec(e@, record_view(env@), record_view(idents@), enums_view(enums@)),
    decreases e, 0int,
{
    proof {
        lemma_list_views(*e);
    }
    let (scrut, arms) = match e {
        Expr::Match(scrut, arms) => (scrut, arms),
        _ => return None,
    };
    let sv = match eval_expr(scrut, env, idents, enums) {
        Some(v) => v,
        None => return None,
    };
    proof {
        lemma_value_lists(sv);
    }
    let (variant, fields) = match &sv {
        Value::Enum { variant, fields, .. } => (variant, fields),
        _ => return None,
    };
    let ghost av = arms_view(arms@);
    let ghost n = fields.len() as nat;
    let mut k: usize = 0;
    while k < arms.len() && !arm_selects_exec(&arms[k].pattern, variant, fields.len())
        invariant
            0 <= k <= arms.len(),
            av == arms_view(arms@),
            n == fields.len(),
            forall|j: int| 0 <= j < k ==> !arm_selects(#[trigger] av[j].pattern, variant@, n),
        decreases arms.len() - k,
    {
        assert(av[k as int].pattern == pattern_view(arms@[k as int].pattern));
        k += 1;
    }
    if k == arms.len() {
        return None;
    }
    proof {
        assert(av[k as int].pattern == pattern_view(arms@[k as int].pattern));
        assert(arm_selects(av[k as int].pattern, variant@, n));
        let c = first_arm(av, variant@, n).unwrap();
        assert(0 <= c < av.len() && arm_selects(av[c].pattern, variant@, n));
        if c < k as int {
            assert(!arm_selects(av[c].pattern, variant@, n));
        }
        if c > k as int {
            assert(!arm_selects(av[k as int].pattern, variant@, n));
        }
        assert(c == k as int);
        assert(av[k as int].body == expr_view(*arms@[k as int].body));
        assert(decreases_to!(*e => e->Match_1));
        assert(decreases_to!(e->Match_1 => arms@[k as int]));
        assert(decreases_to!(arms@[k as int] => arms@[k as int].body));
    }
    match &arms[k].pattern {
        MatchPattern::Ctor { binds, .. } => {
            let sub = bind_payload(env, binds, fields);
            eval_expr(&arms[k].body, &sub, idents, enums)
        },
        MatchPattern::Wildcard => eval_expr(&arms[k].body, env, idents, enums),
    }
}

/// Pure Rust interpreter for Evident expressions: literals, identifiers,
/// arithmetic, comparisons, logic, ternaries, `match`, sequence literals,
/// constructor calls, indexing, cardinality, record fields and
/// constructor tests; see `eval_spec`.
#[verifier::rlimit(100)]
pub fn eval_expr(
    e: &Expr,
    env: &Vec<(String, Value)>,
    idents: &Vec<(String, Value)>,
    enums: &Vec<EnumDecl>,
) -> (r: Option<Value>)
    ensures
        opt_value_view(r) == eval_spec(e@, record_view(env@), record_view(idents@), enums_view(enums@)),
    decreases e, 1int,
{
    proof {
        lemma_list_views(*e);
    }
    match e {
        Expr::Int(n) => Some(Value::Int(*n)),
        Expr::Real(x) => Some(Value::Real(*x)),
        Expr::Bool(b) => Some(Value::Bool(*b)),
        Expr::Str(s) => Some(Value::Str(s.clone())),
        Expr::Identifier(name) => match lookup(env, name) {
            Some(v) => Some(v),
            None => lookup(idents, name),
        },
        Expr::Binary(op, l, r) => {
            let lv = match eval_expr(l, env, idents, enums) {
                Some(v) => v,
                None => return None,
            };
            let rv = match eval_expr(r, env, idents, enums) {
                Some(v) => v,
                None => return None,
            };
            eval_binop_exec(op, &lv, &rv)
        },
        Expr::Not(x) => match eval_expr(x, env, idents, enums) {
            Some(Value::Bool(b)) => Some(Value::Bool(!b)),
            _ => None,
        },
        Expr::Ternary(c, a, b) => match eval_expr(c, env, idents, enums) {
            Some(Value::Bool(cb)) => if cb {
                eval_expr(a, env, idents, enums)
            } else {
                eval_expr(b, env, idents, enums)
            },
            _ => None,
        },
        Expr::Match(_, _) => eval_match(e, env, idents, enums),
        Expr::SeqLit(xs) => {
            proof {
                assert(decreases_to!(*e => e->SeqLit_0));
            }
            match eval_list(xs, env, idents, enums) {
                Some(vals) => classify_seq_exec(vals),
                None => None,
            }
        },
        Expr::Call(name, args) => {
            proof {
                assert(decreases_to!(*e => e->Call_1));
            }
            match eval_list(args, env, idents, enums) {
                Some(vals) => ctor_value_exec(enums, name, vals),
                None => None,
            }
        },
        Expr::Index(t, i) => {
            let tv = match eval_expr(t, env, idents, enums) {
                Some(v) => v,
                None => return None,
            };
            match eval_expr(i, env, idents, enums) {
                Some(Value::Int(n)) => index_value_exec(&tv, n),
                _ => None,
            }
        },
        Expr::Cardinality(t) => match eval_expr(t, env, idents, enums) {
            Some(v) => card_value_exec(&v),
            None => None,
        },
        Expr::Field(t, name) => {
            let tv = match eval_expr(t, env, idents, enums) {
                Some(v) => v,
                None => return None,
            };
            proof {
                lemma_value_lists(tv);
            }
            match &tv {
                Value::Composite(fs) => lookup(fs, name),
                _ => None,
            }
        },
        Expr::Matches(scrut, p) => match eval_expr(scrut, env, idents, enums) {
            Some(Value::Enum { variant, .. }) => match p {
                MatchPattern::Ctor { name, .. } => Some(Value::Bool(variant == *name)),
                MatchPattern::Wildcard => Some(Value::Bool(true)),
            },
            _ => None,
        },
        _ => None,
    }
}


// ───────────────────────────── chains ─────────────────────────────

/// Evaluate the steps in order against `env`: each value is bound to its
/// variable, and a value that differs from the variable's value in `given`
/// makes the whole evaluation fail.
pub open spec fn run_steps(
    steps: Seq<(Seq<char>, ExprV)>,
    given: EnvV,
    env: EnvV,
    idents: EnvV,
    enums: Seq<EnumDeclV>,
) -> Option<EnvV>
    decreases steps.len(),
{
    if steps.len() == 0 {
        Some(env)
    } else {
        match eval_spec(steps[0].1, env, idents, enums) {
            None => None,
            Some(v) => if env_get(given, steps[0].0) matches Some(p) && p != v {
                None
            } else {
                run_steps(steps.drop_first(), given, env_set(env, steps[0].0, v), idents, enums)
            },
        }
    }
}

/// Both sides of every check have values, and they are equal.
pub open spec fn checks_hold(checks: Seq<(ExprV, ExprV)>, env: EnvV, idents: EnvV, enums: Seq<EnumDeclV>) -> bool {
    forall|k: int|
        0 <= k < checks.len() ==> (#[trigger] eval_spec(checks[k].0, env, idents, enums)) is Some && eval_spec(
            checks[k].0,
            env,
            idents,
            enums,
        ) == eval_spec(checks[k].1, env, idents, enums)
}

/// The bindings a chain produces from `given`: the given bindings with
/// each step's value bound, when every step evaluates, agrees with
/// `given`, and every check holds.
pub open spec fn chain_result(
    steps: Seq<(Seq<char>, ExprV)>,
    checks: Seq<(ExprV, ExprV)>,
    given: EnvV,
    idents: EnvV,
    enums: Seq<EnumDeclV>,
) -> Option<EnvV> {
    match run_steps(steps, given, given, idents, enums) {
        Some(env) => if checks_hold(checks, env, idents, enums) {
            Some(env)
        } else {
            None
        },
        None => None,
    }
}

pub open spec fn opt_env_view(o: Option<Vec<(String, Value)>>) -> Option<EnvV> {
    match o {
        Some(v) => Some(record_view(v@)),
        None => None,
    }
}

/// Run every step of `steps` from `given`; see `run_steps`.
fn run_chain_steps(
    steps: &Vec<Substitution>,
    given: &Vec<(String, Value)>,
    idents: &Vec<(String, Value)>,
    enums: &Vec<EnumDecl>,
) -> (r: Option<Vec<(String, Value)>>)
    ensures
        opt_env_view(r) == run_steps(
            steps_view(steps@),
            record_view(given@),
            record_view(given@),
            record_view(idents@),
            enums_view(enums@),
        ),
{
    let ghost sv = steps_view(steps@);
    let ghost gv = record_view(given@);
    let ghost iv = record_view(idents@);
    let ghost ev = enums_view(enums@);
    let mut env = crate::value::clone_record(given);
    let mut i: usize = 0;
    assert(sv.subrange(0, sv.len() as int) =~= sv);
    while i < steps.len()
        invariant
            0 <= i <= steps.len(),
            sv == steps_view(steps@),
            gv == record_view(given@),
            iv == record_view(idents@),
            ev == enums_view(enums@),
            run_steps(sv, gv, gv, iv, ev) == run_steps(sv.subrange(i as int, sv.len() as int), gv, record_view(env@), iv, ev),
        decreases steps.len() - i,
    {
        let ghost rest = sv.subrange(i as int, sv.len() as int);
        assert(rest[0] == (steps@[i as int].var@, steps@[i as int].expr@));
        assert(rest.drop_first() =~= sv.subrange(i + 1, sv.len() as int));
        let step = &steps[i];
        let v = match eval_expr(&step.expr, &env, idents, enums) {
            Some(v) => v,
            None => return None,
        };
        match lookup(given, &step.var) {
            Some(pinned) => {
                if !values_equal(&pinned, &v) {
                    return None;
                }
            },
            None => {},
        }
        env_insert(&mut env, step.var.clone(), v);
        i += 1;
    }
    assert(sv.subrange(steps.len() as int, sv.len() as int) =~= Seq::<(Seq<char>, ExprV)>::empty());
    Some(env)
}

/// Whether every check holds in `env`; see `checks_hold`.
fn checks_pass(
    checks: &Vec<(Expr, Expr)>,
    env: &Vec<(String, Value)>,
    idents: &Vec<(String, Value)>,
    enums: &Vec<EnumDecl>,
) -> (r: bool)
    ensures
        r == checks_hold(pairs_view(checks@), record_view(env@), record_view(idents@), enums_view(enums@)),
{
    let ghost cv = pairs_view(checks@);
    let ghost env_v = record_view(env@);
    let ghost iv = record_view(idents@);
    let ghost ev = enums_view(enums@);
    let mut k: usize = 0;
    while k < checks.len()
        invariant
            0 <= k <= checks.len(),
            cv == pairs_view(checks@),
            env_v == record_view(env@),
            iv == record_view(idents@),
            ev == enums_view(enums@),
            forall|j: int|
                0 <= j < k ==> (#[trigger] eval_spec(cv[j].0, env_v, iv, ev)) is Some && eval_spec(cv[j].0, env_v, iv, ev)
                    == eval_spec(cv[j].1, env_v, iv, ev),
        decreases checks.len() - k,
    {
        assert(cv[k as int] == (checks@[k as int].0@, checks@[k as int].1@));
        let lv = match eval_expr(&checks[k].0, env, idents, enums) {
            Some(v) => v,
            None => return false,
        };
        let rv = match eval_expr(&checks[k].1, env, idents, enums) {
            Some(v) => v,
            None => {
                assert(eval_spec(cv[k as int].0, env_v, iv, ev) != eval_spec(cv[k as int].1, env_v, iv, ev));
                return false;
            },
        };
        if !values_equal(&lv, &rv) {
            return false;
        }
        k += 1;
    }
    true
}

/// Evaluate a substitution chain against the `given` bindings, resolving
/// unbound bare names through `idents` and constructor calls through the
/// variants of `enums`; see `chain_result`.
pub fn evaluate_chain_with_resolvers(
    chain: &SubstitutionChain,
    given: &Vec<(String, Value)>,
    idents: &Vec<(String, Value)>,
    enums: &Vec<EnumDecl>,
) -> (r: Option<Vec<(String, Value)>>)
    ensures
        opt_env_view(r) == chain_result(
            steps_view(chain.steps@),
            pairs_view(chain.checks@),
            record_view(given@),
            record_view(idents@),
            enums_view(enums@),
        ),
{
    match run_chain_steps(&chain.steps, given, idents, enums) {
        Some(env) => {
            if checks_pass(&chain.checks, &env, idents, enums) {
                Some(env)
            } else {
                None
            }
        },
        None => None,
    }
}

/// `evaluate_chain_with_resolvers` with a fallback for unbound bare names
/// and no constructors.
pub fn evaluate_chain_with_resolver(
    chain: &SubstitutionChain,
    given: &Vec<(String, Value)>,
    idents: &Vec<(String, Value)>,
) -> (r: Option<Vec<(String, Value)>>)
    ensures
        opt_env_view(r) == chain_result(
            steps_view(chain.steps@),
            pairs_view(chain.checks@),
            record_view(given@),
            record_view(idents@),
            Seq::empty(),
        ),
{
    let enums: Vec<EnumDecl> = Vec::new();
    assert(enums_view(enums@) =~= Seq::<EnumDeclV>::empty());
    evaluate_chain_with_resolvers(chain, given, idents, &enums)
}

/// Evaluate a substitution chain against the `given` bindings: the given
/// bindings with every step's value bound, or `None` when a step cannot be
/// evaluated natively, disagrees with `given`, or a check fails.
pub fn evaluate_chain(chain: &SubstitutionChain, given: &Vec<(String, Value)>) -> (r: Option<Vec<(String, Value)>>)
    ensures
        opt_env_view(r) == chain_result(
            steps_view(chain.steps@),
            pairs_view(chain.checks@),
            record_view(given@),
            Seq::empty(),
            Seq::empty(),
        ),
{
    let idents: Vec<(String, Value)> = Vec::new();
    assert(record_view(idents@) =~= Seq::<(Seq<char>, ValueV)>::empty());
    evaluate_chain_with_resolver(chain, given, &idents)
}

} // verus!
