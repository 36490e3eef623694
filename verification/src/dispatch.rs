//! Inlining support on the syntax tree: how a call target resolves (a plain
//! claim, a claim called on a receiver, or a subclaim of a member's type),
//! whether an expression calls a subclaim, substituting a quantifier's bound
//! variable, prefixing a type's field names with an instance name, and the
//! recursion-depth frames that bound inlining.
use vstd::prelude::*;
use vstd::string::StringExecFns;
use crate::ast::{
    arms_view, clone_binop, clone_expr, clone_pattern, clone_strings, expr_view, exprs_view, items_view,
    lemma_list_views, pattern_view, strs_view, BodyItem, BodyItemV, Expr, ExprV, MatchArm, MatchArmV, MatchPattern,
    MatchPatternV, SchemaDecl, SchemaDeclV,
};
use crate::text::{chars_to_string, concat_str, slice_chars, str_to_chars};
use crate::program::{find_schema, lookup_schema, schemas_view};
use crate::lower::{first_member_type, first_member_type_of, first_segment, lemma_first_segment, segment_from};
use crate::claim_args::{has_sub_named, last_dot, last_dot_of, lemma_last_dot, type_has_sub};

verus! {

// ───────────────────────────── call targets ─────────────────────────────

/// How a call target resolves.
#[derive(Debug)]
pub enum CallDispatch {
    /// `recv.name` where `name` is a subclaim of the type of member `recv`.
    Subschema { recv: String, ty: String, claim_name: String },
    /// `recv.name` where `name` is a schema, called with `recv` first.
    ReceiverPrefix { claim_name: String, recv: String },
    /// A schema called by its own name.
    Plain { claim_name: String },
}

pub enum CallDispatchV {
    Subschema { recv: Seq<char>, ty: Seq<char>, claim_name: Seq<char> },
    ReceiverPrefix { claim_name: Seq<char>, recv: Seq<char> },
    Plain { claim_name: Seq<char> },
}

pub open spec fn dispatch_view(d: CallDispatch) -> CallDispatchV {
    match d {
        CallDispatch::Subschema { recv, ty, claim_name } => CallDispatchV::Subschema { recv: recv@, ty: ty@, claim_name: claim_name@ },
        CallDispatch::ReceiverPrefix { claim_name, recv } => CallDispatchV::ReceiverPrefix { claim_name: claim_name@, recv: recv@ },
        CallDispatch::Plain { claim_name } => CallDispatchV::Plain { claim_name: claim_name@ },
    }
}

/// What a call target names: a bare name must be a schema; for
/// `prefix.suffix` (split at the last `.`), a subclaim `suffix` of the type
/// of the first member named `prefix` (when `prefix` has no `.`), else the
/// schema `suffix` with `prefix` as receiver.
pub open spec fn call_dispatch(name: Seq<char>, body: Seq<BodyItemV>, sc: Seq<SchemaDeclV>) -> Option<CallDispatchV> {
    let k = last_dot(name);
    if k < 0 {
        if find_schema(sc, name) is Some {
            Some(CallDispatchV::Plain { claim_name: name })
        } else {
            None
        }
    } else {
        let prefix = name.take(k);
        let suffix = name.skip(k + 1);
        let t = first_member_type(body, prefix);
        if last_dot(prefix) < 0 && t is Some && type_has_sub(sc, t.unwrap(), suffix) {
            Some(CallDispatchV::Subschema { recv: prefix, ty: t.unwrap(), claim_name: suffix })
        } else if find_schema(sc, suffix) is Some {
            Some(CallDispatchV::ReceiverPrefix { claim_name: suffix, recv: prefix })
        } else {
            None
        }
    }
}

pub open spec fn opt_dispatch_view(d: Option<CallDispatch>) -> Option<CallDispatchV> {
    match d {
        Some(x) => Some(dispatch_view(x)),
        None => None,
    }
}

/// Resolves a call target; see `call_dispatch`.
pub fn resolve_call(name: &String, body_items: &Vec<BodyItem>, schemas: &Vec<SchemaDecl>) -> (r: Option<CallDispatch>)
    ensures
        opt_dispatch_view(r) == call_dispatch(name@, items_view(body_items@), schemas_view(schemas@)),
{
    let v = str_to_chars(name.as_str());
    proof {
        lemma_last_dot(v@);
    }
    let k = match last_dot_of(&v) {
        None => {
            if lookup_schema(schemas, name).is_some() {
                return Some(CallDispatch::Plain { claim_name: name.clone() });
            }
            return None;
        },
        Some(k) => k,
    };
    let pv = slice_chars(&v, 0, k);
    let prefix = chars_to_string(&pv);
    let suffix = chars_to_string(&slice_chars(&v, k + 1, v.len()));
    assert(prefix@ =~= name@.take(k as int));
    assert(suffix@ =~= name@.skip(k + 1));
    if last_dot_of(&pv).is_none() {
        if let Some(t) = first_member_type_of(body_items, &pv) {
            if let Some(td) = lookup_schema(schemas, &t) {
                if has_sub_named(td, &suffix) {
                    return Some(CallDispatch::Subschema { recv: prefix, ty: t, claim_name: suffix });
                }
            }
        }
    }
    if lookup_schema(schemas, &suffix).is_some() {
        return Some(CallDispatch::ReceiverPrefix { claim_name: suffix, recv: prefix });
    }
    None
}

/// Resolves an identifier used as a call target; anything else names no call.
pub fn resolve_call_name(rhs: &Expr, body_items: &Vec<BodyItem>, schemas: &Vec<SchemaDecl>) -> (r: Option<CallDispatch>)
    ensures
        opt_dispatch_view(r) == match rhs@ {
            ExprV::Identifier(n) => call_dispatch(n, items_view(body_items@), schemas_view(schemas@)),
            _ => None,
        },
{
    match rhs {
        Expr::Identifier(n) => resolve_call(n, body_items, schemas),
        _ => None,
    }
}

/// A call as a claim name and an optional receiver: a plain call, or a
/// receiver-prefixed one. A subclaim call is none of these.
pub open spec fn method_dispatch(d: Option<CallDispatchV>) -> Option<(Seq<char>, Option<Seq<char>>)> {
    match d {
        Some(CallDispatchV::Plain { claim_name }) => Some((claim_name, None)),
        Some(CallDispatchV::ReceiverPrefix { claim_name, recv }) => Some((claim_name, Some(recv))),
        _ => None,
    }
}

pub open spec fn pair_view(p: Option<(String, Option<String>)>) -> Option<(Seq<char>, Option<Seq<char>>)> {
    match p {
        Some((a, Some(b))) => Some((a@, Some(b@))),
        Some((a, None)) => Some((a@, None)),
        None => None,
    }
}

/// See `method_dispatch`.
pub fn method_dispatch_call_compat(name: &String, body_items: &Vec<BodyItem>, schemas: &Vec<SchemaDecl>) -> (r: Option<(String, Option<String>)>)
    ensures
        pair_view(r) == method_dispatch(call_dispatch(name@, items_view(body_items@), schemas_view(schemas@))),
{
    match resolve_call(name, body_items, schemas) {
        Some(CallDispatch::Plain { claim_name }) => Some((claim_name, None)),
        Some(CallDispatch::ReceiverPrefix { claim_name, recv }) => Some((claim_name, Some(recv))),
        _ => None,
    }
}

/// `method_dispatch_call_compat` for an identifier; anything else names no call.
pub fn method_dispatch_name_compat(rhs: &Expr, body_items: &Vec<BodyItem>, schemas: &Vec<SchemaDecl>) -> (r: Option<(String, Option<String>)>)
    ensures
        pair_view(r) == match rhs@ {
            ExprV::Identifier(n) => method_dispatch(call_dispatch(n, items_view(body_items@), schemas_view(schemas@))),
            _ => None,
        },
{
    match rhs {
        Expr::Identifier(n) => method_dispatch_call_compat(n, body_items, schemas),
        _ => None,
    }
}

// ───────────────────────────── subclaim calls ─────────────────────────────

/// Does `e` call a subclaim (see `call_dispatch`)? Call arguments, deltas
/// and leaves are not looked into.
pub open spec fn has_sub_call(e: ExprV, body: Seq<BodyItemV>, sc: Seq<SchemaDeclV>) -> bool
    decreases e, 0nat, 0nat,
{
    match e {
        ExprV::Call(n, _) => call_dispatch(n, body, sc) matches Some(CallDispatchV::Subschema { .. }),
        ExprV::Binary(_, l, r) => has_sub_call(*l, body, sc) || has_sub_call(*r, body, sc),
        ExprV::Not(x) => has_sub_call(*x, body, sc),
        ExprV::Cardinality(x) => has_sub_call(*x, body, sc),
        ExprV::Ternary(c, a, b) => has_sub_call(*c, body, sc) || has_sub_call(*a, body, sc) || has_sub_call(*b, body, sc),
        ExprV::SeqLit(xs) => any_sub_call(xs, xs.len(), body, sc),
        ExprV::SetLit(xs) => any_sub_call(xs, xs.len(), body, sc),
        ExprV::Tuple(xs) => any_sub_call(xs, xs.len(), body, sc),
        ExprV::Forall(_, r, b) => has_sub_call(*r, body, sc) || has_sub_call(*b, body, sc),
        ExprV::Exists(_, r, b) => has_sub_call(*r, body, sc) || has_sub_call(*b, body, sc),
        ExprV::Index(a, b) => has_sub_call(*a, body, sc) || has_sub_call(*b, body, sc),
        ExprV::InExpr(a, b) => has_sub_call(*a, body, sc) || has_sub_call(*b, body, sc),
        ExprV::Range(a, b) => has_sub_call(*a, body, sc) || has_sub_call(*b, body, sc),
        ExprV::Field(x, _) => has_sub_call(*x, body, sc),
        ExprV::Match(s, arms) => has_sub_call(*s, body, sc) || any_arm_sub_call(arms, arms.len(), body, sc),
        ExprV::Matches(x, _) => has_sub_call(*x, body, sc),
        _ => false,
    }
}

pub open spec fn any_sub_call(xs: Seq<ExprV>, n: nat, body: Seq<BodyItemV>, sc: Seq<SchemaDeclV>) -> bool
    decreases xs, 1nat, n,
{
    if n == 0 || n > xs.len() {
        false
    } else {
        any_sub_call(xs, (n - 1) as nat, body, sc) || has_sub_call(xs[n - 1], body, sc)
    }
}

pub open spec fn any_arm_sub_call(arms: Seq<MatchArmV>, n: nat, body: Seq<BodyItemV>, sc: Seq<SchemaDeclV>) -> bool
    decreases arms, 1nat, n,
{
    if n == 0 || n > arms.len() {
        false
    } else {
        proof {
            assert(decreases_to!(arms => arms[n - 1]));
        }
        any_arm_sub_call(arms, (n - 1) as nat, body, sc) || has_sub_call(arms[n - 1].body, body, sc)
    }
}

fn any_sub_call_of(xs: &Vec<Expr>, body_items: &Vec<BodyItem>, schemas: &Vec<SchemaDecl>) -> (r: bool)
    ensures
        r == any_sub_call(exprs_view(xs@), xs.len() as nat, items_view(body_items@), schemas_view(schemas@)),
    decreases xs, 1int,
{
    let ghost xv = exprs_view(xs@);
    let mut i: usize = 0;
    while i < xs.len()
        invariant
            0 <= i <= xs.len(),
            xv == exprs_view(xs@),
            !any_sub_call(xv, i as nat, items_view(body_items@), schemas_view(schemas@)),
        decreases xs.len() - i,
    {
        proof {
            assert(decreases_to!(*xs => xs@[i as int]));
        }
        if body_contains_subschema_call(&xs[i], body_items, schemas) {
            proof {
                lemma_any_sub_call_grows(xv, (i + 1) as nat, xv.len(), items_view(body_items@), schemas_view(schemas@));
            }
            return true;
        }
        i += 1;
    }
    false
}

proof fn lemma_any_sub_call_grows(xs: Seq<ExprV>, i: nat, n: nat, body: Seq<BodyItemV>, sc: Seq<SchemaDeclV>)
    requires
        i <= n <= xs.len(),
        any_sub_call(xs, i, body, sc),
    ensures
        any_sub_call(xs, n, body, sc),
    decreases n,
{
    if i < n {
        lemma_any_sub_call_grows(xs, i, (n - 1) as nat, body, sc);
    }
}

proof fn lemma_any_arm_grows(arms: Seq<MatchArmV>, i: nat, n: nat, body: Seq<BodyItemV>, sc: Seq<SchemaDeclV>)
    requires
        i <= n <= arms.len(),
        any_arm_sub_call(arms, i, body, sc),
    ensures
        any_arm_sub_call(arms, n, body, sc),
    decreases n,
{
    if i < n {
        lemma_any_arm_grows(arms, i, (n - 1) as nat, body, sc);
    }
}

/// Does `e` call a subclaim? See `has_sub_call`.
pub fn body_contains_subschema_call(e: &Expr, body_items: &Vec<BodyItem>, schemas: &Vec<SchemaDecl>) -> (r: bool)
    ensures
        r == has_sub_call(e@, items_view(body_items@), schemas_view(schemas@)),
    decreases e, 0int,
{
    proof {
        lemma_list_views(*e);
    }
    match e {
        Expr::Call(name, _) => match resolve_call(name, body_items, schemas) {
            Some(CallDispatch::Subschema { .. }) => true,
            _ => false,
        },
        Expr::Binary(_, l, r) => body_contains_subschema_call(l, body_items, schemas) || body_contains_subschema_call(r, body_items, schemas),
        Expr::Not(x) | Expr::Cardinality(x) => body_contains_subschema_call(x, body_items, schemas),
        Expr::Ternary(c, a, b) => body_contains_subschema_call(c, body_items, schemas) || body_contains_subschema_call(a, body_items, schemas)
            || body_contains_subschema_call(b, body_items, schemas),
        Expr::SeqLit(xs) | Expr::SetLit(xs) | Expr::Tuple(xs) => {
            proof {
                assert(decreases_to!(*e => *xs));
            }
            any_sub_call_of(xs, body_items, schemas)
        },
        Expr::Forall(_, r, b) | Expr::Exists(_, r, b) => body_contains_subschema_call(r, body_items, schemas)
            || body_contains_subschema_call(b, body_items, schemas),
        Expr::Index(a, b) | Expr::InExpr(a, b) | Expr::Range(a, b) => body_contains_subschema_call(a, body_items, schemas)
            || body_contains_subschema_call(b, body_items, schemas),
        Expr::Field(x, _) => body_contains_subschema_call(x, body_items, schemas),
        Expr::Match(scrut, arms) => {
            if body_contains_subschema_call(scrut, body_items, schemas) {
                return true;
            }
            let ghost av = arms_view(arms@);
            let mut i: usize = 0;
            while i < arms.len()
                invariant
                    0 <= i <= arms.len(),
                    *e == Expr::Match(*scrut, *arms),
                    av == arms_view(arms@),
                    e@ == ExprV::Match(Box::new(expr_view(**scrut)), av),
                    !any_arm_sub_call(av, i as nat, items_view(body_items@), schemas_view(schemas@)),
                decreases arms.len() - i,
            {
                proof {
                    assert(decreases_to!(*e => e->Match_1));
                    assert(decreases_to!(e->Match_1 => arms@[i as int]));
                    assert(decreases_to!(arms@[i as int] => arms@[i as int].body));
                }
                if body_contains_subschema_call(&arms[i].body, body_items, schemas) {
                    proof {
                        lemma_any_arm_grows(av, (i + 1) as nat, av.len(), items_view(body_items@), schemas_view(schemas@));
                    }
                    return true;
                }
                i += 1;
            }
            false
        },
        Expr::Matches(x, _) => body_contains_subschema_call(x, body_items, schemas),
        _ => false,
    }
}


// ───────────────────────────── bound variables ─────────────────────────────

/// `base` followed by the fields of the dotted path `rest` (split at `.`).
pub open spec fn field_chain(base: ExprV, rest: Seq<char>) -> ExprV
    decreases rest.len(),
{
    let f = first_segment(rest);
    proof {
        lemma_first_segment(rest);
    }
    let out = ExprV::Field(Box::new(base), f);
    if f.len() < rest.len() {
        field_chain(out, rest.skip(f.len() as int + 1))
    } else {
        out
    }
}

/// `e` with the bound variable `bound` replaced by `elem`: `bound` itself by
/// `elem`, and `bound.a.b` by the field chain `elem.a.b`. A quantifier that
/// binds `bound` again keeps its body as it is.
pub open spec fn subst_bound(e: ExprV, bound: Seq<char>, elem: ExprV) -> ExprV
    decreases e,
{
    match e {
        ExprV::Identifier(n) => if n == bound {
            elem
        } else if n.len() > bound.len() && n.take(bound.len() as int) == bound && n[bound.len() as int] == '.' {
            field_chain(elem, n.skip(bound.len() as int + 1))
        } else {
            e
        },
        ExprV::Int(_) | ExprV::Real(_) | ExprV::Bool(_) | ExprV::Str(_) => e,
        ExprV::SetLit(xs) => ExprV::SetLit(Seq::new(xs.len(), |i: int| if 0 <= i < xs.len() { subst_bound(xs[i], bound, elem) } else { ExprV::Int(0) })),
        ExprV::SeqLit(xs) => ExprV::SeqLit(Seq::new(xs.len(), |i: int| if 0 <= i < xs.len() { subst_bound(xs[i], bound, elem) } else { ExprV::Int(0) })),
        ExprV::Tuple(xs) => ExprV::Tuple(Seq::new(xs.len(), |i: int| if 0 <= i < xs.len() { subst_bound(xs[i], bound, elem) } else { ExprV::Int(0) })),
        ExprV::Range(a, b) => ExprV::Range(Box::new(subst_bound(*a, bound, elem)), Box::new(subst_bound(*b, bound, elem))),
        ExprV::InExpr(a, b) => ExprV::InExpr(Box::new(subst_bound(*a, bound, elem)), Box::new(subst_bound(*b, bound, elem))),
        ExprV::Forall(vs, r, b) => if vs.contains(bound) {
            ExprV::Forall(vs, Box::new(subst_bound(*r, bound, elem)), b)
        } else {
            ExprV::Forall(vs, Box::new(subst_bound(*r, bound, elem)), Box::new(subst_bound(*b, bound, elem)))
        },
        ExprV::Exists(vs, r, b) => if vs.contains(bound) {
            ExprV::Exists(vs, Box::new(subst_bound(*r, bound, elem)), b)
        } else {
            ExprV::Exists(vs, Box::new(subst_bound(*r, bound, elem)), Box::new(subst_bound(*b, bound, elem)))
        },
        ExprV::Call(n, xs) => ExprV::Call(n, Seq::new(xs.len(), |i: int| if 0 <= i < xs.len() { subst_bound(xs[i], bound, elem) } else { ExprV::Int(0) })),
        ExprV::Cardinality(x) => ExprV::Cardinality(Box::new(subst_bound(*x, bound, elem))),
        ExprV::Index(a, b) => ExprV::Index(Box::new(subst_bound(*a, bound, elem)), Box::new(subst_bound(*b, bound, elem))),
        ExprV::Field(x, f) => ExprV::Field(Box::new(subst_bound(*x, bound, elem)), f),
        ExprV::Binary(op, a, b) => ExprV::Binary(op, Box::new(subst_bound(*a, bound, elem)), Box::new(subst_bound(*b, bound, elem))),
        ExprV::Not(x) => ExprV::Not(Box::new(subst_bound(*x, bound, elem))),
        ExprV::Delta(x) => ExprV::Delta(Box::new(subst_bound(*x, bound, elem))),
        ExprV::Ternary(c, a, b) => ExprV::Ternary(
            Box::new(subst_bound(*c, bound, elem)),
            Box::new(subst_bound(*a, bound, elem)),
            Box::new(subst_bound(*b, bound, elem)),
        ),
        ExprV::Match(sc, arms) => ExprV::Match(
            Box::new(subst_bound(*sc, bound, elem)),
            Seq::new(
                arms.len(),
                |i: int|
                    if 0 <= i < arms.len() {
                        MatchArmV { pattern: arms[i].pattern, body: subst_bound(arms[i].body, bound, elem) }
                    } else {
                        MatchArmV { pattern: MatchPatternV::Wildcard, body: ExprV::Int(0) }
                    },
            ),
        ),
        ExprV::Matches(x, p) => ExprV::Matches(Box::new(subst_bound(*x, bound, elem)), p),
    }
}

fn field_chain_of(base: Expr, v: &Vec<char>, from: usize) -> (r: Expr)
    requires
        from <= v.len(),
    ensures
        r@ == field_chain(base@, v@.skip(from as int)),
    decreases v.len() - from,
{
    let f = segment_from(v, from);
    proof {
        lemma_first_segment(v@.skip(from as int));
    }
    let out = Expr::Field(Box::new(base), chars_to_string(&f));
    if from + f.len() < v.len() {
        assert(v@.skip(from as int).skip(f.len() as int + 1) =~= v@.skip(from + f.len() + 1));
        field_chain_of(out, v, from + f.len() + 1)
    } else {
        out
    }
}

fn strings_have(v: &Vec<String>, s: &String) -> (r: bool)
    ensures
        r == strs_view(v@).contains(s@),
{
    let mut i: usize = 0;
    while i < v.len()
        invariant
            0 <= i <= v.len(),
            forall|k: int| 0 <= k < i ==> strs_view(v@)[k] != s@,
        decreases v.len() - i,
    {
        if v[i] == *s {
            assert(strs_view(v@)[i as int] == s@);
            return true;
        }
        i += 1;
    }
    false
}

fn subst_bound_all(xs: &Vec<Expr>, bound: &String, elem: &Expr) -> (r: Vec<Expr>)
    ensures
        r.len() == xs.len(),
        forall|k: int| 0 <= k < xs.len() ==> #[trigger] expr_view(r@[k]) == subst_bound(expr_view(xs@[k]), bound@, elem@),
    decreases xs, 1int,
{
    let mut out: Vec<Expr> = Vec::new();
    let mut i: usize = 0;
    while i < xs.len()
        invariant
            0 <= i <= xs.len(),
            out.len() == i,
            forall|k: int| 0 <= k < i ==> #[trigger] expr_view(out@[k]) == subst_bound(expr_view(xs@[k]), bound@, elem@),
        decreases xs.len() - i,
    {
        proof {
            assert(decreases_to!(*xs => xs@[i as int]));
        }
        out.push(subst_bound_in(&xs[i], bound, elem));
        i += 1;
    }
    out
}

fn subst_bound_in(e: &Expr, bound: &String, elem: &Expr) -> (r: Expr)
    ensures
        r@ == subst_bound(e@, bound@, elem@),
    decreases e, 0int,
{
    proof {
        lemma_list_views(*e);
    }
    match e {
        Expr::Identifier(n) => {
            if *n == *bound {
                return clone_expr(elem);
            }
            let v = str_to_chars(n.as_str());
            let b = str_to_chars(bound.as_str());
            if v.len() > b.len() && v[b.len()] == '.' {
                let head = slice_chars(&v, 0, b.len());
                if crate::text::chars_eq(&head, &b) {
                    assert(n@.take(bound@.len() as int) == bound@);
                    return field_chain_of(clone_expr(elem), &v, b.len() + 1);
                }
            }
            clone_expr(e)
        },
        Expr::Int(_) | Expr::Real(_) | Expr::Bool(_) | Expr::Str(_) => clone_expr(e),
        Expr::Call(n, xs) => {
            proof {
                assert(decreases_to!(*e => *xs));
            }
            let out = subst_bound_all(xs, bound, elem);
            let r = Expr::Call(n.clone(), out);
            proof {
                lemma_list_views(r);
                assert(exprs_view(out@) =~= subst_bound(e@, bound@, elem@)->Call_1);
            }
            r
        },
        Expr::SeqLit(xs) => {
            proof {
                assert(decreases_to!(*e => *xs));
            }
            let out = subst_bound_all(xs, bound, elem);
            let r = Expr::SeqLit(out);
            proof {
                lemma_list_views(r);
                assert(exprs_view(out@) =~= subst_bound(e@, bound@, elem@)->SeqLit_0);
            }
            r
        },
        Expr::SetLit(xs) => {
            proof {
                assert(decreases_to!(*e => *xs));
            }
            let out = subst_bound_all(xs, bound, elem);
            let r = Expr::SetLit(out);
            proof {
                lemma_list_views(r);
                assert(exprs_view(out@) =~= subst_bound(e@, bound@, elem@)->SetLit_0);
            }
            r
        },
        Expr::Tuple(xs) => {
            proof {
                assert(decreases_to!(*e => *xs));
            }
            let out = subst_bound_all(xs, bound, elem);
            let r = Expr::Tuple(out);
            proof {
                lemma_list_views(r);
                assert(exprs_view(out@) =~= subst_bound(e@, bound@, elem@)->Tuple_0);
            }
            r
        },
        Expr::Range(a, b) => Expr::Range(Box::new(subst_bound_in(a, bound, elem)), Box::new(subst_bound_in(b, bound, elem))),
        Expr::InExpr(a, b) => Expr::InExpr(Box::new(subst_bound_in(a, bound, elem)), Box::new(subst_bound_in(b, bound, elem))),
        Expr::Forall(vs, r, b) => {
            let r2 = subst_bound_in(r, bound, elem);
            if strings_have(vs, bound) {
                Expr::Forall(clone_strings(vs), Box::new(r2), Box::new(clone_expr(b)))
            } else {
                Expr::Forall(clone_strings(vs), Box::new(r2), Box::new(subst_bound_in(b, bound, elem)))
            }
        },
        Expr::Exists(vs, r, b) => {
            let r2 = subst_bound_in(r, bound, elem);
            if strings_have(vs, bound) {
                Expr::Exists(clone_strings(vs), Box::new(r2), Box::new(clone_expr(b)))
            } else {
                Expr::Exists(clone_strings(vs), Box::new(r2), Box::new(subst_bound_in(b, bound, elem)))
            }
        },
        Expr::Cardinality(x) => Expr::Cardinality(Box::new(subst_bound_in(x, bound, elem))),
        Expr::Index(a, b) => Expr::Index(Box::new(subst_bound_in(a, bound, elem)), Box::new(subst_bound_in(b, bound, elem))),
        Expr::Field(x, f) => Expr::Field(Box::new(subst_bound_in(x, bound, elem)), f.clone()),
        Expr::Binary(op, a, b) => Expr::Binary(clone_binop(op), Box::new(subst_bound_in(a, bound, elem)), Box::new(subst_bound_in(b, bound, elem))),
        Expr::Not(x) => Expr::Not(Box::new(subst_bound_in(x, bound, elem))),
        Expr::Delta(x) => Expr::Delta(Box::new(subst_bound_in(x, bound, elem))),
        Expr::Ternary(c, a, b) => Expr::Ternary(
            Box::new(subst_bound_in(c, bound, elem)),
            Box::new(subst_bound_in(a, bound, elem)),
            Box::new(subst_bound_in(b, bound, elem)),
        ),
        Expr::Match(scrut, arms) => {
            let s2 = subst_bound_in(scrut, bound, elem);
            let mut out: Vec<MatchArm> = Vec::new();
            let mut i: usize = 0;
            while i < arms.len()
                invariant
                    0 <= i <= arms.len(),
                    *e == Expr::Match(*scrut, *arms),
                    out.len() == i,
                    forall|k: int|
                        0 <= k < i ==> pattern_view(#[trigger] out@[k].pattern) == pattern_view(arms@[k].pattern)
                            && expr_view(*out@[k].body) == subst_bound(expr_view(*arms@[k].body), bound@, elem@),
                decreases arms.len() - i,
            {
                proof {
                    assert(decreases_to!(*e => e->Match_1));
                    assert(decreases_to!(e->Match_1 => arms@[i as int]));
                    assert(decreases_to!(arms@[i as int] => arms@[i as int].body));
                }
                let b = subst_bound_in(&arms[i].body, bound, elem);
                out.push(MatchArm { pattern: clone_pattern(&arms[i].pattern), body: Box::new(b) });
                i += 1;
            }
            let r = Expr::Match(Box::new(s2), out);
            proof {
                lemma_list_views(r);
                assert(arms_view(out@) =~= subst_bound(e@, bound@, elem@)->Match_1);
            }
            r
        },
        Expr::Matches(x, p) => Expr::Matches(Box::new(subst_bound_in(x, bound, elem)), clone_pattern(p)),
    }
}

/// `e` with the quantifier variable `bound` replaced by the element `elem`;
/// see `subst_bound`.
pub fn substitute_bound_var(e: &Expr, bound: &str, elem: &Expr) -> (r: Expr)
    ensures
        r@ == subst_bound(e@, bound@, elem@),
{
    subst_bound_in(e, &String::from_str(bound), elem)
}


// ───────────────────────────── instance prefixes ─────────────────────────────

/// The names a match arm's pattern binds.
pub open spec fn pattern_binds(p: MatchPatternV) -> Seq<Seq<char>> {
    match p {
        MatchPatternV::Ctor { binds, .. } => bound_names(binds, binds.len()),
        MatchPatternV::Wildcard => Seq::empty(),
    }
}

pub open spec fn bound_names(binds: Seq<Option<Seq<char>>>, n: nat) -> Seq<Seq<char>>
    decreases n,
{
    if n == 0 || n > binds.len() {
        Seq::empty()
    } else {
        bound_names(binds, (n - 1) as nat) + match binds[n - 1] {
            Some(b) => seq![b],
            None => Seq::empty(),
        }
    }
}

/// A field of the type that is not shadowed by an enclosing binder.
pub open spec fn active(fields: Seq<Seq<char>>, shadow: Seq<Seq<char>>, x: Seq<char>) -> bool {
    fields.contains(x) && !shadow.contains(x)
}

/// `e` with each identifier whose first segment is an active field (see
/// `active`) prefixed by `prefix.`. Quantifier bodies and match arms shadow
/// the names they bind; a quantifier's range does not.
pub open spec fn prefix_ids(e: ExprV, prefix: Seq<char>, fields: Seq<Seq<char>>, shadow: Seq<Seq<char>>) -> ExprV
    decreases e,
{
    match e {
        ExprV::Identifier(n) => if active(fields, shadow, first_segment(n)) {
            ExprV::Identifier(prefix + "."@ + n)
        } else {
            e
        },
        ExprV::Int(_) | ExprV::Real(_) | ExprV::Bool(_) | ExprV::Str(_) => e,
        ExprV::SetLit(xs) => ExprV::SetLit(Seq::new(xs.len(), |i: int| if 0 <= i < xs.len() { prefix_ids(xs[i], prefix, fields, shadow) } else { ExprV::Int(0) })),
        ExprV::SeqLit(xs) => ExprV::SeqLit(Seq::new(xs.len(), |i: int| if 0 <= i < xs.len() { prefix_ids(xs[i], prefix, fields, shadow) } else { ExprV::Int(0) })),
        ExprV::Tuple(xs) => ExprV::Tuple(Seq::new(xs.len(), |i: int| if 0 <= i < xs.len() { prefix_ids(xs[i], prefix, fields, shadow) } else { ExprV::Int(0) })),
        ExprV::Range(a, b) => ExprV::Range(Box::new(prefix_ids(*a, prefix, fields, shadow)), Box::new(prefix_ids(*b, prefix, fields, shadow))),
        ExprV::InExpr(a, b) => ExprV::InExpr(Box::new(prefix_ids(*a, prefix, fields, shadow)), Box::new(prefix_ids(*b, prefix, fields, shadow))),
        ExprV::Forall(vs, r, b) => ExprV::Forall(vs, Box::new(prefix_ids(*r, prefix, fields, shadow)), Box::new(prefix_ids(*b, prefix, fields, shadow + vs))),
        ExprV::Exists(vs, r, b) => ExprV::Exists(vs, Box::new(prefix_ids(*r, prefix, fields, shadow)), Box::new(prefix_ids(*b, prefix, fields, shadow + vs))),
        ExprV::Call(n, xs) => ExprV::Call(n, Seq::new(xs.len(), |i: int| if 0 <= i < xs.len() { prefix_ids(xs[i], prefix, fields, shadow) } else { ExprV::Int(0) })),
        ExprV::Cardinality(x) => ExprV::Cardinality(Box::new(prefix_ids(*x, prefix, fields, shadow))),
        ExprV::Index(a, b) => ExprV::Index(Box::new(prefix_ids(*a, prefix, fields, shadow)), Box::new(prefix_ids(*b, prefix, fields, shadow))),
        ExprV::Field(x, f) => ExprV::Field(Box::new(prefix_ids(*x, prefix, fields, shadow)), f),
        ExprV::Binary(op, a, b) => ExprV::Binary(op, Box::new(prefix_ids(*a, prefix, fields, shadow)), Box::new(prefix_ids(*b, prefix, fields, shadow))),
        ExprV::Not(x) => ExprV::Not(Box::new(prefix_ids(*x, prefix, fields, shadow))),
        ExprV::Delta(x) => ExprV::Delta(Box::new(prefix_ids(*x, prefix, fields, shadow))),
        ExprV::Ternary(c, a, b) => ExprV::Ternary(
            Box::new(prefix_ids(*c, prefix, fields, shadow)),
            Box::new(prefix_ids(*a, prefix, fields, shadow)),
            Box::new(prefix_ids(*b, prefix, fields, shadow)),
        ),
        ExprV::Match(sc, arms) => ExprV::Match(
            Box::new(prefix_ids(*sc, prefix, fields, shadow)),
            Seq::new(
                arms.len(),
                |i: int|
                    if 0 <= i < arms.len() {
                        MatchArmV {
                            pattern: arms[i].pattern,
                            body: prefix_ids(arms[i].body, prefix, fields, shadow + pattern_binds(arms[i].pattern)),
                        }
                    } else {
                        MatchArmV { pattern: MatchPatternV::Wildcard, body: ExprV::Int(0) }
                    },
            ),
        ),
        ExprV::Matches(x, p) => ExprV::Matches(Box::new(prefix_ids(*x, prefix, fields, shadow)), p),
    }
}

fn extend_shadow(shadow: &Vec<String>, more: &Vec<String>) -> (r: Vec<String>)
    ensures
        strs_view(r@) == strs_view(shadow@) + strs_view(more@),
{
    let mut out = clone_strings(shadow);
    let mut i: usize = 0;
    while i < more.len()
        invariant
            0 <= i <= more.len(),
            strs_view(out@) == strs_view(shadow@) + strs_view(more@).take(i as int),
        decreases more.len() - i,
    {
        let ghost prev = strs_view(out@);
        out.push(more[i].clone());
        assert(strs_view(out@) =~= prev.push(more@[i as int]@));
        assert(strs_view(out@) =~= strs_view(shadow@) + strs_view(more@).take(i + 1));
        i += 1;
    }
    assert(strs_view(more@).take(more.len() as int) =~= strs_view(more@));
    out
}

fn binds_of(p: &MatchPattern) -> (r: Vec<String>)
    ensures
        strs_view(r@) == pattern_binds(pattern_view(*p)),
{
    let mut out: Vec<String> = Vec::new();
    match p {
        MatchPattern::Ctor { binds, .. } => {
            let ghost bv = pattern_view(*p)->Ctor_binds;
            let mut i: usize = 0;
            assert(strs_view(out@) =~= bound_names(bv, 0));
            while i < binds.len()
                invariant
                    0 <= i <= binds.len(),
                    pattern_view(*p) == (MatchPatternV::Ctor { name: pattern_view(*p)->Ctor_name, binds: bv }),
                    bv.len() == binds.len(),
                    forall|k: int| 0 <= k < binds.len() ==> #[trigger] bv[k] == match binds@[k] {
                        Some(b) => Some(b@),
                        None => None,
                    },
                    strs_view(out@) == bound_names(bv, i as nat),
                decreases binds.len() - i,
            {
                let ghost prev = strs_view(out@);
                if let Some(b) = &binds[i] {
                    out.push(b.clone());
                    assert(strs_view(out@) =~= prev + seq![b@]);
                } else {
                    assert(strs_view(out@) =~= prev + Seq::<Seq<char>>::empty());
                }
                i += 1;
            }
        },
        MatchPattern::Wildcard => {
            assert(strs_view(out@) =~= Seq::<Seq<char>>::empty());
        },
    }
    out
}

fn prefix_all(xs: &Vec<Expr>, prefix: &String, fields: &Vec<String>, shadow: &Vec<String>) -> (r: Vec<Expr>)
    ensures
        r.len() == xs.len(),
        forall|k: int| 0 <= k < xs.len() ==> #[trigger] expr_view(r@[k]) == prefix_ids(expr_view(xs@[k]), prefix@, strs_view(fields@), strs_view(shadow@)),
    decreases xs, 1int,
{
    let mut out: Vec<Expr> = Vec::new();
    let mut i: usize = 0;
    while i < xs.len()
        invariant
            0 <= i <= xs.len(),
            out.len() == i,
            forall|k: int| 0 <= k < i ==> #[trigger] expr_view(out@[k]) == prefix_ids(expr_view(xs@[k]), prefix@, strs_view(fields@), strs_view(shadow@)),
        decreases xs.len() - i,
    {
        proof {
            assert(decreases_to!(*xs => xs@[i as int]));
        }
        out.push(prefix_in(&xs[i], prefix, fields, shadow));
        i += 1;
    }
    out
}

fn prefix_in(e: &Expr, prefix: &String, fields: &Vec<String>, shadow: &Vec<String>) -> (r: Expr)
    ensures
        r@ == prefix_ids(e@, prefix@, strs_view(fields@), strs_view(shadow@)),
    decreases e, 0int,
{
    proof {
        lemma_list_views(*e);
    }
    let ghost fv = strs_view(fields@);
    let ghost sv = strs_view(shadow@);
    match e {
        Expr::Identifier(n) => {
            let v = str_to_chars(n.as_str());
            let head = segment_from(&v, 0);
            assert(v@.skip(0) =~= v@);
            let hs = chars_to_string(&head);
            if strings_have(fields, &hs) && !strings_have(shadow, &hs) {
                let a = concat_str(prefix, ".");
                Expr::Identifier(concat_str(&a, n.as_str()))
            } else {
                clone_expr(e)
            }
        },
        Expr::Int(_) | Expr::Real(_) | Expr::Bool(_) | Expr::Str(_) => clone_expr(e),
        Expr::Call(n, xs) => {
            proof {
                assert(decreases_to!(*e => *xs));
            }
            let out = prefix_all(xs, prefix, fields, shadow);
            let r = Expr::Call(n.clone(), out);
            proof {
                lemma_list_views(r);
                assert(exprs_view(out@) =~= prefix_ids(e@, prefix@, fv, sv)->Call_1);
            }
            r
        },
        Expr::SeqLit(xs) => {
            proof {
                assert(decreases_to!(*e => *xs));
            }
            let out = prefix_all(xs, prefix, fields, shadow);
            let r = Expr::SeqLit(out);
            proof {
                lemma_list_views(r);
                assert(exprs_view(out@) =~= prefix_ids(e@, prefix@, fv, sv)->SeqLit_0);
            }
            r
        },
        Expr::SetLit(xs) => {
            proof {
                assert(decreases_to!(*e => *xs));
            }
            let out = prefix_all(xs, prefix, fields, shadow);
            let r = Expr::SetLit(out);
            proof {
                lemma_list_views(r);
                assert(exprs_view(out@) =~= prefix_ids(e@, prefix@, fv, sv)->SetLit_0);
            }
            r
        },
        Expr::Tuple(xs) => {
            proof {
                assert(decreases_to!(*e => *xs));
            }
            let out = prefix_all(xs, prefix, fields, shadow);
            let r = Expr::Tuple(out);
            proof {
                lemma_list_views(r);
                assert(exprs_view(out@) =~= prefix_ids(e@, prefix@, fv, sv)->Tuple_0);
            }
            r
        },
        Expr::Range(a, b) => Expr::Range(Box::new(prefix_in(a, prefix, fields, shadow)), Box::new(prefix_in(b, prefix, fields, shadow))),
        Expr::InExpr(a, b) => Expr::InExpr(Box::new(prefix_in(a, prefix, fields, shadow)), Box::new(prefix_in(b, prefix, fields, shadow))),
        Expr::Forall(vs, r, b) => {
            let inner = extend_shadow(shadow, vs);
            Expr::Forall(clone_strings(vs), Box::new(prefix_in(r, prefix, fields, shadow)), Box::new(prefix_in(b, prefix, fields, &inner)))
        },
        Expr::Exists(vs, r, b) => {
            let inner = extend_shadow(shadow, vs);
            Expr::Exists(clone_strings(vs), Box::new(prefix_in(r, prefix, fields, shadow)), Box::new(prefix_in(b, prefix, fields, &inner)))
        },
        Expr::Cardinality(x) => Expr::Cardinality(Box::new(prefix_in(x, prefix, fields, shadow))),
        Expr::Index(a, b) => Expr::Index(Box::new(prefix_in(a, prefix, fields, shadow)), Box::new(prefix_in(b, prefix, fields, shadow))),
        Expr::Field(x, f) => Expr::Field(Box::new(prefix_in(x, prefix, fields, shadow)), f.clone()),
        Expr::Binary(op, a, b) => Expr::Binary(clone_binop(op), Box::new(prefix_in(a, prefix, fields, shadow)), Box::new(prefix_in(b, prefix, fields, shadow))),
        Expr::Not(x) => Expr::Not(Box::new(prefix_in(x, prefix, fields, shadow))),
        Expr::Delta(x) => Expr::Delta(Box::new(prefix_in(x, prefix, fields, shadow))),
        Expr::Ternary(c, a, b) => Expr::Ternary(
            Box::new(prefix_in(c, prefix, fields, shadow)),
            Box::new(prefix_in(a, prefix, fields, shadow)),
            Box::new(prefix_in(b, prefix, fields, shadow)),
        ),
        Expr::Match(scrut, arms) => {
            let s2 = prefix_in(scrut, prefix, fields, shadow);
            let mut out: Vec<MatchArm> = Vec::new();
            let mut i: usize = 0;
            while i < arms.len()
                invariant
                    0 <= i <= arms.len(),
                    *e == Expr::Match(*scrut, *arms),
                    out.len() == i,
                    forall|k: int|
                        0 <= k < i ==> pattern_view(#[trigger] out@[k].pattern) == pattern_view(arms@[k].pattern)
                            && expr_view(*out@[k].body) == prefix_ids(
                                expr_view(*arms@[k].body),
                                prefix@,
                                strs_view(fields@),
                                strs_view(shadow@) + pattern_binds(pattern_view(arms@[k].pattern)),
                            ),
                decreases arms.len() - i,
            {
                proof {
                    assert(decreases_to!(*e => e->Match_1));
                    assert(decreases_to!(e->Match_1 => arms@[i as int]));
                    assert(decreases_to!(arms@[i as int] => arms@[i as int].body));
                }
                let bs = binds_of(&arms[i].pattern);
                let inner = extend_shadow(shadow, &bs);
                let b = prefix_in(&arms[i].body, prefix, fields, &inner);
                out.push(MatchArm { pattern: clone_pattern(&arms[i].pattern), body: Box::new(b) });
                i += 1;
            }
            let r = Expr::Match(Box::new(s2), out);
            proof {
                lemma_list_views(r);
                assert(arms_view(out@) =~= prefix_ids(e@, prefix@, fv, sv)->Match_1);
            }
            r
        },
        Expr::Matches(x, p) => Expr::Matches(Box::new(prefix_in(x, prefix, fields, shadow)), clone_pattern(p)),
    }
}

/// `e` with the identifiers that name one of `field_set` (by their first
/// segment) prefixed by `prefix.`; see `prefix_ids`.
pub fn rewrite_idents_with_prefix(e: &Expr, prefix: &str, field_set: &Vec<String>) -> (r: Expr)
    ensures
        r@ == prefix_ids(e@, prefix@, strs_view(field_set@), Seq::empty()),
{
    let shadow: Vec<String> = Vec::new();
    assert(strs_view(shadow@) =~= Seq::<Seq<char>>::empty());
    prefix_in(e, &String::from_str(prefix), field_set, &shadow)
}

// ───────────────────────────── recursion frames ─────────────────────────────

/// The most frames one claim may have open at once.
pub const MAX_INLINE_DEPTH: usize = 64;

pub open spec fn frames_view(v: Seq<(String, usize)>) -> Seq<(Seq<char>, usize)> {
    Seq::new(v.len(), |i: int| (v[i].0@, v[i].1))
}

/// The open frames of `name`: its first entry.
pub open spec fn frames_get(v: Seq<(Seq<char>, usize)>, name: Seq<char>) -> Option<usize>
    decreases v.len(),
{
    if v.len() == 0 {
        None
    } else if v[0].0 == name {
        Some(v[0].1)
    } else {
        frames_get(v.drop_first(), name)
    }
}

fn frames_find(v: &Vec<(String, usize)>, name: &String) -> (r: Option<usize>)
    ensures
        match r {
            Some(i) => i < v.len() && v@[i as int].0@ == name@ && frames_get(frames_view(v@), name@) == Some(v@[i as int].1)
                && forall|j: int| 0 <= j < i ==> v@[j].0@ != name@,
            None => frames_get(frames_view(v@), name@) is None && forall|j: int| 0 <= j < v.len() ==> v@[j].0@ != name@,
        },
{
    let ghost fv = frames_view(v@);
    let mut i: usize = 0;
    assert(fv.skip(0) =~= fv);
    while i < v.len()
        invariant
            0 <= i <= v.len(),
            fv == frames_view(v@),
            frames_get(fv, name@) == frames_get(fv.skip(i as int), name@),
            forall|j: int| 0 <= j < i ==> v@[j].0@ != name@,
        decreases v.len() - i,
    {
        assert(fv.skip(i as int)[0] == (v@[i as int].0@, v@[i as int].1));
        assert(fv.skip(i as int).drop_first() =~= fv.skip(i + 1));
        if v[i].0 == *name {
            return Some(i);
        }
        i += 1;
    }
    None
}

proof fn lemma_frames_get_other(v: Seq<(Seq<char>, usize)>, w: Seq<(Seq<char>, usize)>, i: int, name: Seq<char>, other: Seq<char>)
    requires
        0 <= i < v.len(),
        v[i].0 == name,
        forall|j: int| 0 <= j < i ==> v[j].0 != name,
        other != name,
        w.len() == v.len(),
        w[i].0 == name,
        forall|j: int| 0 <= j < v.len() && j != i ==> w[j] == v[j],
    ensures
        frames_get(w, other) == frames_get(v, other),
    decreases v.len(),
{
    if i > 0 {
        assert(w[0] == v[0]);
        if v[0].0 != other {
            lemma_frames_get_other(v.drop_first(), w.drop_first(), i - 1, name, other);
        }
    } else {
        assert(w.drop_first() =~= v.drop_first());
    }
}

/// `v1` is `v0` after opening a frame of `name` with result `r`.
pub open spec fn entered(v0: Seq<(Seq<char>, usize)>, v1: Seq<(Seq<char>, usize)>, name: Seq<char>, r: Option<usize>) -> bool {
    let cnt: nat = match frames_get(v0, name) {
        Some(c) => c as nat,
        None => 0,
    };
    &&& cnt >= MAX_INLINE_DEPTH ==> r is None && v1 == v0
    &&& cnt < MAX_INLINE_DEPTH ==> r == Some((cnt + 1) as usize) && frames_get(v1, name) == r
    &&& forall|other: Seq<char>| other != name ==> #[trigger] frames_get(v1, other) == frames_get(v0, other)
}

/// `v1` is `v0` after closing a frame of `name`.
pub open spec fn exited(v0: Seq<(Seq<char>, usize)>, v1: Seq<(Seq<char>, usize)>, name: Seq<char>) -> bool {
    &&& match frames_get(v0, name) {
        Some(c) => frames_get(v1, name) == (if c == 1 { None } else { Some((c - 1) as usize) }),
        None => v1 == v0,
    }
    &&& forall|other: Seq<char>| other != name ==> #[trigger] frames_get(v1, other) == frames_get(v0, other)
}

/// Opens a frame of `name`: `None` when it already has
/// `MAX_INLINE_DEPTH` open, else the new number of open frames; see
/// `entered`. Other names are untouched.
pub fn try_enter(visited: &mut Vec<(String, usize)>, name: &str) -> (r: Option<usize>)
    requires
        frames_wf(frames_view(old(visited)@)),
    ensures
        frames_wf(frames_view(final(visited)@)),
        entered(frames_view(old(visited)@), frames_view(final(visited)@), name@, r),
{
    let n = String::from_str(name);
    let ghost v0 = frames_view(visited@);
    match frames_find(visited, &n) {
        Some(i) => {
            let c = visited[i].1;
            if c >= MAX_INLINE_DEPTH {
                return None;
            }
            visited.set(i, (n, c + 1));
            proof {
                let v1 = frames_view(visited@);
                assert forall|a: int, b: int| 0 <= a < b < v1.len() implies v1[a].0 != v1[b].0 by {
                    assert(v1[a].0 == v0[a].0 && v1[b].0 == v0[b].0);
                }
                assert forall|a: int| 0 <= a < v1.len() implies v1[a].1 >= 1 by {
                    if a != i {
                        assert(v1[a] == v0[a]);
                    }
                }
                assert forall|other: Seq<char>| other != name@ implies frames_get(v1, other) == frames_get(v0, other) by {
                    lemma_frames_get_other(v0, v1, i as int, name@, other);
                }
                lemma_frames_get_at(v1, i as int, name@);
            }
            Some(c + 1)
        },
        None => {
            visited.push((n, 1));
            proof {
                let v1 = frames_view(visited@);
                assert(v1 =~= v0.push((name@, 1usize)));
                assert forall|a: int, b: int| 0 <= a < b < v1.len() implies v1[a].0 != v1[b].0 by {
                    if b == v0.len() {
                        assert(v1[a] == v0[a]);
                        assert(v0[a].0 == visited@[a].0@);
                    }
                }
                assert forall|a: int| 0 <= a < v1.len() implies v1[a].1 >= 1 by {
                    if a < v0.len() {
                        assert(v1[a] == v0[a]);
                    }
                }
                assert forall|other: Seq<char>| other != name@ implies frames_get(v1, other) == frames_get(v0, other) by {
                    lemma_frames_get_push(v0, (name@, 1usize), other);
                }
                lemma_frames_get_push(v0, (name@, 1usize), name@);
            }
            Some(1)
        },
    }
}

proof fn lemma_frames_get_at(v: Seq<(Seq<char>, usize)>, i: int, name: Seq<char>)
    requires
        0 <= i < v.len(),
        v[i].0 == name,
        forall|j: int| 0 <= j < i ==> v[j].0 != name,
    ensures
        frames_get(v, name) == Some(v[i].1),
    decreases v.len(),
{
    if i > 0 {
        lemma_frames_get_at(v.drop_first(), i - 1, name);
    }
}

proof fn lemma_frames_get_push(v: Seq<(Seq<char>, usize)>, e: (Seq<char>, usize), x: Seq<char>)
    ensures
        frames_get(v.push(e), x) == (if frames_get(v, x) is Some {
            frames_get(v, x)
        } else if e.0 == x {
            Some(e.1)
        } else {
            None::<usize>
        }),
    decreases v.len(),
{
    if v.len() > 0 {
        assert(v.push(e).drop_first() =~= v.drop_first().push(e));
        lemma_frames_get_push(v.drop_first(), e, x);
    } else {
        assert(v.push(e).drop_first() =~= Seq::<(Seq<char>, usize)>::empty());
        reveal_with_fuel(frames_get, 2);
    }
}

proof fn lemma_frames_get_remove(v: Seq<(Seq<char>, usize)>, i: int, name: Seq<char>, x: Seq<char>)
    requires
        0 <= i < v.len(),
        v[i].0 == name,
        forall|j: int| 0 <= j < v.len() && j != i ==> v[j].0 != name,
    ensures
        frames_get(v.remove(i), x) == (if x == name { None::<usize> } else { frames_get(v, x) }),
    decreases v.len(),
{
    if i > 0 {
        assert(v.remove(i).drop_first() =~= v.drop_first().remove(i - 1));
        if v[0].0 != x {
            lemma_frames_get_remove(v.drop_first(), i - 1, name, x);
        }
    } else {
        assert(v.remove(0) =~= v.drop_first());
        if x == name {
            lemma_frames_absent(v.drop_first(), name);
        }
    }
}

proof fn lemma_frames_absent(v: Seq<(Seq<char>, usize)>, name: Seq<char>)
    requires
        forall|j: int| 0 <= j < v.len() ==> v[j].0 != name,
    ensures
        frames_get(v, name) is None,
    decreases v.len(),
{
    if v.len() > 0 {
        lemma_frames_absent(v.drop_first(), name);
    }
}

/// Each name has one entry, with at least one frame open.
pub open spec fn frames_wf(v: Seq<(Seq<char>, usize)>) -> bool {
    &&& forall|a: int, b: int| 0 <= a < b < v.len() ==> v[a].0 != v[b].0
    &&& forall|a: int| 0 <= a < v.len() ==> v[a].1 >= 1
}

/// Closes a frame of `name`: one fewer open, the entry dropped when none
/// remains; nothing when `name` has no frame open.
pub fn exit_frame(visited: &mut Vec<(String, usize)>, name: &str)
    requires
        frames_wf(frames_view(old(visited)@)),
    ensures
        frames_wf(frames_view(final(visited)@)),
        exited(frames_view(old(visited)@), frames_view(final(visited)@), name@),
{
    let n = String::from_str(name);
    let ghost v0 = frames_view(visited@);
    if let Some(i) = frames_find(visited, &n) {
        let c = visited[i].1;
        proof {
            lemma_frames_get_at(v0, i as int, name@);
        }
        if c == 1 {
            visited.remove(i);
            proof {
                let v1 = frames_view(visited@);
                assert(v1 =~= v0.remove(i as int));
                assert forall|j: int| 0 <= j < v0.len() && j != i implies v0[j].0 != name@ by {
                    assert(v0[j].0 != v0[i as int].0 || j == i);
                }
                assert forall|x: Seq<char>| #![auto] true implies frames_get(v1, x) == (if x == name@ { None::<usize> } else { frames_get(v0, x) }) by {
                    lemma_frames_get_remove(v0, i as int, name@, x);
                }
                assert forall|a: int, b: int| 0 <= a < b < v1.len() implies v1[a].0 != v1[b].0 by {
                    let a0 = if a < i { a } else { a + 1 };
                    let b0 = if b < i { b } else { b + 1 };
                    assert(v1[a] == v0[a0] && v1[b] == v0[b0]);
                }
                assert forall|a: int| 0 <= a < v1.len() implies v1[a].1 >= 1 by {
                    let a0 = if a < i { a } else { a + 1 };
                    assert(v1[a] == v0[a0]);
                }
            }
        } else {
            visited.set(i, (n, c - 1));
            proof {
                let v1 = frames_view(visited@);
                assert forall|other: Seq<char>| other != name@ implies frames_get(v1, other) == frames_get(v0, other) by {
                    lemma_frames_get_other(v0, v1, i as int, name@, other);
                }
                lemma_frames_get_at(v1, i as int, name@);
                assert forall|a: int, b: int| 0 <= a < b < v1.len() implies v1[a].0 != v1[b].0 by {
                    assert(v1[a].0 == v0[a].0 && v1[b].0 == v0[b].0);
                }
                assert forall|a: int| 0 <= a < v1.len() implies v1[a].1 >= 1 by {
                    if a != i {
                        assert(v1[a] == v0[a]);
                    } else {
                        assert(v0[i as int].1 >= 1);
                    }
                }
            }
        }
    }
}


/// Closing a frame undoes opening it: after a successful `try_enter` and an
/// `exit_frame` of the same name, every name has as many frames open as before.
pub proof fn law_enter_then_exit(
    v0: Seq<(Seq<char>, usize)>,
    v1: Seq<(Seq<char>, usize)>,
    v2: Seq<(Seq<char>, usize)>,
    name: Seq<char>,
    r: Option<usize>,
)
    requires
        frames_wf(v0),
        entered(v0, v1, name, r),
        r is Some,
        exited(v1, v2, name),
    ensures
        forall|x: Seq<char>| #[trigger] frames_get(v2, x) == frames_get(v0, x),
{
    assert forall|x: Seq<char>| #[trigger] frames_get(v2, x) == frames_get(v0, x) by {
        if x != name {
            assert(frames_get(v2, x) == frames_get(v1, x));
            assert(frames_get(v1, x) == frames_get(v0, x));
        } else {
            lemma_frames_positive(v0, name);
        }
    }
}


proof fn lemma_frames_positive(v: Seq<(Seq<char>, usize)>, name: Seq<char>)
    requires
        forall|a: int| 0 <= a < v.len() ==> v[a].1 >= 1,
    ensures
        frames_get(v, name) != Some(0usize),
    decreases v.len(),
{
    if v.len() > 0 && v[0].0 != name {
        lemma_frames_positive(v.drop_first(), name);
    }
}

} // verus!
