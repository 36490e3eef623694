//! User-defined infix operators. A type may declare an operator
//! `a · b = r` with a body of constraints over `a`, `b` and `r`. Where the
//! left operand of `x · y` has such a type, the expression becomes a fresh
//! result variable `__opN`, declared with the operator's result type, and
//! the operator's constraints are added with `a`, `b`, `r` replaced by `x`,
//! `y`, `__opN`. Operands are rewritten first, so nested uses chain.
use vstd::prelude::*;
use vstd::string::StringExecFns;
use crate::ast::{
    arms_view, body_item_view, clone_binop, clone_body_item, clone_expr, clone_pattern, clone_strings, clone_schema,
    expr_view, exprs_view, items_view, lemma_list_views, lemma_schema_lists, mapping_view, mappings_view,
    binop_view, operator_view, operators_view, opt_str_view, pattern_view, BinOp, BinOpV, BodyItem, BodyItemV, Expr, ExprV,
    Mapping, MappingV, MatchArm, MatchArmV, MatchPatternV, OperatorDecl, OperatorDeclV, Pins, PinsV, SchemaDecl,
    SchemaDeclV,
};
use crate::text::{chars_to_string, concat_str, decimal, str_to_chars, usize_decimal};
use crate::program::{find_schema, lookup_schema, schemas_view};
use crate::nested::{decl_lookup, decls_view};
use crate::lower::{field_chain_type, field_chain_type_of, first_segment, lemma_first_segment, segment_from, with_body};

verus! {

// ───────────────────────────── operand types ─────────────────────────────

/// An identifier, or a field chain off one, as its dotted name (`dot.pos`).
pub open spec fn expr_dotted(e: ExprV) -> Option<Seq<char>>
    decreases e,
{
    match e {
        ExprV::Identifier(n) => Some(n),
        ExprV::Field(x, f) => match expr_dotted(*x) {
            Some(d) => Some(d + "."@ + f),
            None => None,
        },
        _ => None,
    }
}

/// The static type of an operand: the declared type of its head name, then
/// each field's type in turn (see `field_chain_type`).
pub open spec fn operand_type(e: ExprV, declared: Seq<(Seq<char>, Seq<char>)>, schemas: Seq<SchemaDeclV>) -> Option<Seq<char>> {
    match expr_dotted(e) {
        None => None,
        Some(d) => {
            let head = first_segment(d);
            match decl_lookup(declared, head) {
                None => None,
                Some(t) => if head.len() < d.len() {
                    field_chain_type(schemas, t, d.skip(head.len() as int + 1))
                } else {
                    Some(t)
                },
            }
        },
    }
}

/// The first operator declared with symbol `sym`.
pub open spec fn find_op(ops: Seq<OperatorDeclV>, sym: Seq<char>) -> Option<OperatorDeclV>
    decreases ops.len(),
{
    if ops.len() == 0 {
        None
    } else if ops[0].symbol == sym {
        Some(ops[0])
    } else {
        find_op(ops.drop_first(), sym)
    }
}

// ───────────────────────────── parameter substitution ─────────────────────────────

/// The expression bound to `n`: the last binding of `n`.
pub open spec fn param_lookup(m: Seq<(Seq<char>, ExprV)>, n: Seq<char>) -> Option<ExprV>
    decreases m.len(),
{
    if m.len() == 0 {
        None
    } else if m.last().0 == n {
        Some(m.last().1)
    } else {
        param_lookup(m.drop_last(), n)
    }
}

/// An operator body expression with its parameters replaced: a bound name
/// by its expression, and a field chain `a.x` whose head `a` is bound to an
/// identifier or field chain `p` by the dotted name `p.x`.
pub open spec fn subst_params(e: ExprV, m: Seq<(Seq<char>, ExprV)>) -> ExprV
    decreases e,
{
    match e {
        ExprV::Field(x, f) => {
            let walked = ExprV::Field(Box::new(subst_params(*x, m)), f);
            match expr_dotted(e) {
                None => walked,
                Some(d) => {
                    let head = first_segment(d);
                    match param_lookup(m, head) {
                        None => walked,
                        Some(b) => match expr_dotted(b) {
                            None => walked,
                            Some(bd) => ExprV::Identifier(bd + d.skip(head.len() as int)),
                        },
                    }
                },
            }
        },
        ExprV::Identifier(n) => match param_lookup(m, n) {
            Some(b) => b,
            None => e,
        },
        ExprV::Int(_) | ExprV::Real(_) | ExprV::Bool(_) | ExprV::Str(_) => e,
        ExprV::Binary(op, l, r) => ExprV::Binary(op, Box::new(subst_params(*l, m)), Box::new(subst_params(*r, m))),
        ExprV::Not(x) => ExprV::Not(Box::new(subst_params(*x, m))),
        ExprV::Delta(x) => ExprV::Delta(Box::new(subst_params(*x, m))),
        ExprV::Ternary(c, a, b) => ExprV::Ternary(
            Box::new(subst_params(*c, m)),
            Box::new(subst_params(*a, m)),
            Box::new(subst_params(*b, m)),
        ),
        ExprV::Call(n, xs) => ExprV::Call(n, Seq::new(xs.len(), |i: int| if 0 <= i < xs.len() { subst_params(xs[i], m) } else { ExprV::Int(0) })),
        ExprV::Index(a, b) => ExprV::Index(Box::new(subst_params(*a, m)), Box::new(subst_params(*b, m))),
        ExprV::Cardinality(x) => ExprV::Cardinality(Box::new(subst_params(*x, m))),
        ExprV::SeqLit(xs) => ExprV::SeqLit(Seq::new(xs.len(), |i: int| if 0 <= i < xs.len() { subst_params(xs[i], m) } else { ExprV::Int(0) })),
        ExprV::SetLit(xs) => ExprV::SetLit(Seq::new(xs.len(), |i: int| if 0 <= i < xs.len() { subst_params(xs[i], m) } else { ExprV::Int(0) })),
        ExprV::Tuple(xs) => ExprV::Tuple(Seq::new(xs.len(), |i: int| if 0 <= i < xs.len() { subst_params(xs[i], m) } else { ExprV::Int(0) })),
        ExprV::InExpr(a, b) => ExprV::InExpr(Box::new(subst_params(*a, m)), Box::new(subst_params(*b, m))),
        ExprV::Range(a, b) => ExprV::Range(Box::new(subst_params(*a, m)), Box::new(subst_params(*b, m))),
        ExprV::Forall(vs, r, b) => ExprV::Forall(vs, Box::new(subst_params(*r, m)), Box::new(subst_params(*b, m))),
        ExprV::Exists(vs, r, b) => ExprV::Exists(vs, Box::new(subst_params(*r, m)), Box::new(subst_params(*b, m))),
        ExprV::Match(sc, arms) => ExprV::Match(
            Box::new(subst_params(*sc, m)),
            Seq::new(
                arms.len(),
                |i: int|
                    if 0 <= i < arms.len() {
                        MatchArmV { pattern: arms[i].pattern, body: subst_params(arms[i].body, m) }
                    } else {
                        MatchArmV { pattern: MatchPatternV::Wildcard, body: ExprV::Int(0) }
                    },
            ),
        ),
        ExprV::Matches(x, p) => ExprV::Matches(Box::new(subst_params(*x, m)), p),
    }
}

/// The constraints of an operator body, parameters replaced; its other
/// items are dropped.
pub open spec fn op_constraints(body: Seq<BodyItemV>, m: Seq<(Seq<char>, ExprV)>) -> Seq<BodyItemV>
    decreases body.len(),
{
    if body.len() == 0 {
        Seq::empty()
    } else {
        op_constraints(body.drop_last(), m) + match body.last() {
            BodyItemV::Constraint(e) => seq![BodyItemV::Constraint(subst_params(e, m))],
            _ => Seq::empty(),
        }
    }
}

// ───────────────────────────── rewriting ─────────────────────────────

/// What the rewrite carries along: the declared types (last binding wins),
/// the number of results made so far, and the items to append.
pub struct OpState {
    pub declared: Seq<(Seq<char>, Seq<char>)>,
    pub counter: nat,
    pub extra: Seq<BodyItemV>,
}

/// The name of the `n`-th fresh result.
pub open spec fn op_result_name(n: nat) -> Seq<char> {
    "__op"@ + decimal(n)
}

/// `l · r` after its operands were rewritten: a fresh result when `l`'s type
/// declares a two-operand operator `·`, else the expression as it is.
pub open spec fn resolve_op(op: BinOpV, l: ExprV, r: ExprV, st: OpState, schemas: Seq<SchemaDeclV>) -> (ExprV, OpState) {
    let plain = (ExprV::Binary(op, Box::new(l), Box::new(r)), st);
    match op {
        BinOpV::UserOp(sym) => match operand_type(l, st.declared, schemas) {
            None => plain,
            Some(ty) => match find_schema(schemas, ty) {
                None => plain,
                Some(decl) => match find_op(decl.operators, sym) {
                    None => plain,
                    Some(o) => if o.operands.len() != 2 {
                        plain
                    } else {
                        let fresh = op_result_name(st.counter);
                        let m = seq![(o.operands[0], l), (o.operands[1], r), (o.result, ExprV::Identifier(fresh))];
                        (
                            ExprV::Identifier(fresh),
                            OpState {
                                declared: st.declared.push((fresh, o.result_type)),
                                counter: st.counter + 1,
                                extra: st.extra.push(BodyItemV::Membership { name: fresh, ty: o.result_type, pins: PinsV::Empty })
                                    + op_constraints(o.body, m),
                            },
                        )
                    },
                },
            },
        },
        _ => plain,
    }
}

/// `e` with its user operators resolved, children first, left to right.
pub open spec fn op_rewrite(e: ExprV, st: OpState, sc: Seq<SchemaDeclV>) -> (ExprV, OpState)
    decreases e, 0nat, 0nat,
{
    match e {
        ExprV::Binary(op, l, r) => {
            let (l2, s1) = op_rewrite(*l, st, sc);
            let (r2, s2) = op_rewrite(*r, s1, sc);
            resolve_op(op, l2, r2, s2, sc)
        },
        ExprV::Range(l, r) => {
            let (l2, s1) = op_rewrite(*l, st, sc);
            let (r2, s2) = op_rewrite(*r, s1, sc);
            (ExprV::Range(Box::new(l2), Box::new(r2)), s2)
        },
        ExprV::InExpr(l, r) => {
            let (l2, s1) = op_rewrite(*l, st, sc);
            let (r2, s2) = op_rewrite(*r, s1, sc);
            (ExprV::InExpr(Box::new(l2), Box::new(r2)), s2)
        },
        ExprV::Index(l, r) => {
            let (l2, s1) = op_rewrite(*l, st, sc);
            let (r2, s2) = op_rewrite(*r, s1, sc);
            (ExprV::Index(Box::new(l2), Box::new(r2)), s2)
        },
        ExprV::Ternary(c, a, b) => {
            let (c2, s1) = op_rewrite(*c, st, sc);
            let (a2, s2) = op_rewrite(*a, s1, sc);
            let (b2, s3) = op_rewrite(*b, s2, sc);
            (ExprV::Ternary(Box::new(c2), Box::new(a2), Box::new(b2)), s3)
        },
        ExprV::SetLit(xs) => {
            let (ys, s1) = op_rewrite_list(xs, xs.len(), st, sc);
            (ExprV::SetLit(ys), s1)
        },
        ExprV::SeqLit(xs) => {
            let (ys, s1) = op_rewrite_list(xs, xs.len(), st, sc);
            (ExprV::SeqLit(ys), s1)
        },
        ExprV::Tuple(xs) => {
            let (ys, s1) = op_rewrite_list(xs, xs.len(), st, sc);
            (ExprV::Tuple(ys), s1)
        },
        ExprV::Call(n, xs) => {
            let (ys, s1) = op_rewrite_list(xs, xs.len(), st, sc);
            (ExprV::Call(n, ys), s1)
        },
        ExprV::Forall(vs, r, b) => {
            let (r2, s1) = op_rewrite(*r, st, sc);
            let (b2, s2) = op_rewrite(*b, s1, sc);
            (ExprV::Forall(vs, Box::new(r2), Box::new(b2)), s2)
        },
        ExprV::Exists(vs, r, b) => {
            let (r2, s1) = op_rewrite(*r, st, sc);
            let (b2, s2) = op_rewrite(*b, s1, sc);
            (ExprV::Exists(vs, Box::new(r2), Box::new(b2)), s2)
        },
        ExprV::Cardinality(x) => {
            let (x2, s1) = op_rewrite(*x, st, sc);
            (ExprV::Cardinality(Box::new(x2)), s1)
        },
        ExprV::Not(x) => {
            let (x2, s1) = op_rewrite(*x, st, sc);
            (ExprV::Not(Box::new(x2)), s1)
        },
        ExprV::Delta(x) => {
            let (x2, s1) = op_rewrite(*x, st, sc);
            (ExprV::Delta(Box::new(x2)), s1)
        },
        ExprV::Matches(x, p) => {
            let (x2, s1) = op_rewrite(*x, st, sc);
            (ExprV::Matches(Box::new(x2), p), s1)
        },
        ExprV::Field(x, f) => {
            let (x2, s1) = op_rewrite(*x, st, sc);
            (ExprV::Field(Box::new(x2), f), s1)
        },
        ExprV::Match(scr, arms) => {
            let (s2, st1) = op_rewrite(*scr, st, sc);
            let (arms2, st2) = op_rewrite_arms(arms, arms.len(), st1, sc);
            (ExprV::Match(Box::new(s2), arms2), st2)
        },
        _ => (e, st),
    }
}

/// The first `n` of `xs` rewritten in order, the state threaded through.
pub open spec fn op_rewrite_list(xs: Seq<ExprV>, n: nat, st: OpState, sc: Seq<SchemaDeclV>) -> (Seq<ExprV>, OpState)
    decreases xs, 1nat, n,
{
    if n == 0 || n > xs.len() {
        (Seq::empty(), st)
    } else {
        let (prev, s1) = op_rewrite_list(xs, (n - 1) as nat, st, sc);
        let (y, s2) = op_rewrite(xs[n - 1], s1, sc);
        (prev.push(y), s2)
    }
}

/// The bodies of the first `n` arms rewritten in order.
pub open spec fn op_rewrite_arms(arms: Seq<MatchArmV>, n: nat, st: OpState, sc: Seq<SchemaDeclV>) -> (Seq<MatchArmV>, OpState)
    decreases arms, 1nat, n,
{
    if n == 0 || n > arms.len() {
        (Seq::empty(), st)
    } else {
        proof {
            assert(decreases_to!(arms => arms[n - 1]));
        }
        let (prev, s1) = op_rewrite_arms(arms, (n - 1) as nat, st, sc);
        let (b, s2) = op_rewrite(arms[n - 1].body, s1, sc);
        (prev.push(MatchArmV { pattern: arms[n - 1].pattern, body: b }), s2)
    }
}

/// The values of the first `n` mappings rewritten in order.
pub open spec fn op_rewrite_mappings(ms: Seq<MappingV>, n: nat, st: OpState, sc: Seq<SchemaDeclV>) -> (Seq<MappingV>, OpState)
    decreases n,
{
    if n == 0 || n > ms.len() {
        (Seq::empty(), st)
    } else {
        let (prev, s1) = op_rewrite_mappings(ms, (n - 1) as nat, st, sc);
        let (v, s2) = op_rewrite(ms[n - 1].value, s1, sc);
        (prev.push(MappingV { slot: ms[n - 1].slot, value: v }), s2)
    }
}

/// The first `n` items rewritten: constraints and call mappings; the rest as they are.
pub open spec fn op_items(items: Seq<BodyItemV>, n: nat, st: OpState, sc: Seq<SchemaDeclV>) -> (Seq<BodyItemV>, OpState)
    decreases n,
{
    if n == 0 || n > items.len() {
        (Seq::empty(), st)
    } else {
        let (prev, s1) = op_items(items, (n - 1) as nat, st, sc);
        match items[n - 1] {
            BodyItemV::Constraint(e) => {
                let (e2, s2) = op_rewrite(e, s1, sc);
                (prev.push(BodyItemV::Constraint(e2)), s2)
            },
            BodyItemV::ClaimCall { name, mappings } => {
                let (ms2, s2) = op_rewrite_mappings(mappings, mappings.len(), s1, sc);
                (prev.push(BodyItemV::ClaimCall { name, mappings: ms2 }), s2)
            },
            other => (prev.push(other), s1),
        }
    }
}

/// The memberships of a body as `(name, type)`, in order.
pub open spec fn member_decls(items: Seq<BodyItemV>) -> Seq<(Seq<char>, Seq<char>)>
    decreases items.len(),
{
    if items.len() == 0 {
        Seq::empty()
    } else {
        let prev = member_decls(items.drop_last());
        match items.last() {
            BodyItemV::Membership { name, ty, .. } => prev.push((name, ty)),
            _ => prev,
        }
    }
}

pub open spec fn initial_state(body: Seq<BodyItemV>) -> OpState {
    OpState { declared: member_decls(body), counter: 0, extra: Seq::empty() }
}

/// `s` with its user operators desugared (see the module comment): its
/// constraints and call mappings rewritten, the fresh declarations and
/// constraints appended, and each subclaim desugared in turn. External
/// declarations are left as they are.
pub open spec fn ops_schema(s: SchemaDeclV, sc: Seq<SchemaDeclV>) -> SchemaDeclV
    decreases s, 0nat,
{
    if s.external {
        s
    } else {
        let (items, st) = op_items(s.body, s.body.len(), initial_state(s.body), sc);
        with_body(s, ops_apply(s.body, items, sc) + st.extra)
    }
}

/// Each subclaim of `body` desugared, every other item taken from `items`.
pub open spec fn ops_apply(body: Seq<BodyItemV>, items: Seq<BodyItemV>, sc: Seq<SchemaDeclV>) -> Seq<BodyItemV>
    decreases body, 1nat,
{
    Seq::new(body.len(), |i: int| if 0 <= i < body.len() { ops_sub(body[i], items[i], sc) } else { items[i] })
}

/// A subclaim desugared; any other item is `rewritten`.
pub open spec fn ops_sub(item: BodyItemV, rewritten: BodyItemV, sc: Seq<SchemaDeclV>) -> BodyItemV
    decreases item, 1nat,
{
    match item {
        BodyItemV::SubclaimDecl(sub) => BodyItemV::SubclaimDecl(ops_schema(sub, sc)),
        _ => rewritten,
    }
}

// ───────────────────────────── how many results can be made ─────────────────────────────

/// The number of user-operator applications the rewrite visits in `e`.
pub open spec fn op_count(e: ExprV) -> nat
    decreases e, 0nat, 0nat,
{
    match e {
        ExprV::Binary(op, l, r) => op_count(*l) + op_count(*r) + if op is UserOp { 1nat } else { 0nat },
        ExprV::Range(l, r) => op_count(*l) + op_count(*r),
        ExprV::InExpr(l, r) => op_count(*l) + op_count(*r),
        ExprV::Index(l, r) => op_count(*l) + op_count(*r),
        ExprV::Ternary(c, a, b) => op_count(*c) + op_count(*a) + op_count(*b),
        ExprV::SetLit(xs) => op_count_list(xs, xs.len()),
        ExprV::SeqLit(xs) => op_count_list(xs, xs.len()),
        ExprV::Tuple(xs) => op_count_list(xs, xs.len()),
        ExprV::Call(_, xs) => op_count_list(xs, xs.len()),
        ExprV::Forall(_, r, b) => op_count(*r) + op_count(*b),
        ExprV::Exists(_, r, b) => op_count(*r) + op_count(*b),
        ExprV::Cardinality(x) => op_count(*x),
        ExprV::Not(x) => op_count(*x),
        ExprV::Delta(x) => op_count(*x),
        ExprV::Matches(x, _) => op_count(*x),
        ExprV::Field(x, _) => op_count(*x),
        ExprV::Match(s, arms) => op_count(*s) + op_count_arms(arms, arms.len()),
        _ => 0,
    }
}

pub open spec fn op_count_list(xs: Seq<ExprV>, n: nat) -> nat
    decreases xs, 1nat, n,
{
    if n == 0 || n > xs.len() {
        0
    } else {
        op_count_list(xs, (n - 1) as nat) + op_count(xs[n - 1])
    }
}

pub open spec fn op_count_arms(arms: Seq<MatchArmV>, n: nat) -> nat
    decreases arms, 1nat, n,
{
    if n == 0 || n > arms.len() {
        0
    } else {
        proof {
            assert(decreases_to!(arms => arms[n - 1]));
        }
        op_count_arms(arms, (n - 1) as nat) + op_count(arms[n - 1].body)
    }
}

pub open spec fn op_count_mappings(ms: Seq<MappingV>, n: nat) -> nat
    decreases n,
{
    if n == 0 || n > ms.len() {
        0
    } else {
        op_count_mappings(ms, (n - 1) as nat) + op_count(ms[n - 1].value)
    }
}

pub open spec fn op_count_items(items: Seq<BodyItemV>, n: nat) -> nat
    decreases n,
{
    if n == 0 || n > items.len() {
        0
    } else {
        op_count_items(items, (n - 1) as nat) + match items[n - 1] {
            BodyItemV::Constraint(e) => op_count(e),
            BodyItemV::ClaimCall { mappings, .. } => op_count_mappings(mappings, mappings.len()),
            _ => 0,
        }
    }
}

/// Each (non-external) declaration, subclaims included, has fewer operator
/// applications than `usize::MAX`, so that its result counter cannot overflow.
pub open spec fn ops_fit(s: SchemaDeclV) -> bool
    decreases s, 1nat, 0nat,
{
    s.external || (op_count_items(s.body, s.body.len()) < usize::MAX && subs_fit(s.body, s.body.len()))
}

pub open spec fn subs_fit(body: Seq<BodyItemV>, n: nat) -> bool
    decreases body, 0nat, n,
{
    if n == 0 || n > body.len() {
        true
    } else {
        proof {
            assert(decreases_to!(body => body[n - 1]));
        }
        subs_fit(body, (n - 1) as nat) && match body[n - 1] {
            BodyItemV::SubclaimDecl(sub) => ops_fit(sub),
            _ => true,
        }
    }
}


// ───────────────────────────── executable ─────────────────────────────

pub open spec fn state_of(declared: Seq<(String, String)>, counter: usize, extra: Seq<BodyItem>) -> OpState {
    OpState { declared: decls_view(declared), counter: counter as nat, extra: items_view(extra) }
}

/// The dotted name of an identifier or field chain; see `expr_dotted`.
fn expr_dotted_of(e: &Expr) -> (r: Option<String>)
    ensures
        opt_str_view(r) == expr_dotted(e@),
    decreases e,
{
    match e {
        Expr::Identifier(n) => Some(n.clone()),
        Expr::Field(x, f) => match expr_dotted_of(x) {
            Some(d) => {
                let a = concat_str(&d, ".");
                Some(concat_str(&a, f.as_str()))
            },
            None => None,
        },
        _ => None,
    }
}

/// The last type declared for `name`; see `decl_lookup`.
fn decl_last(declared: &Vec<(String, String)>, name: &String) -> (r: Option<String>)
    ensures
        opt_str_view(r) == decl_lookup(decls_view(declared@), name@),
{
    let ghost dv = decls_view(declared@);
    assert(dv.take(dv.len() as int) =~= dv);
    let mut i: usize = declared.len();
    while i > 0
        invariant
            i <= declared.len(),
            dv == decls_view(declared@),
            decl_lookup(dv, name@) == decl_lookup(dv.take(i as int), name@),
        decreases i,
    {
        assert(dv.take(i as int).drop_last() =~= dv.take(i - 1));
        assert(dv.take(i as int).last() == dv[i - 1]);
        if declared[i - 1].0 == *name {
            return Some(declared[i - 1].1.clone());
        }
        i -= 1;
    }
    None
}

/// The type of an operand; see `operand_type`.
fn operand_type_of(e: &Expr, declared: &Vec<(String, String)>, schemas: &Vec<SchemaDecl>) -> (r: Option<String>)
    ensures
        opt_str_view(r) == operand_type(e@, decls_view(declared@), schemas_view(schemas@)),
{
    let d = match expr_dotted_of(e) {
        Some(d) => d,
        None => {
            return None;
        },
    };
    let v = str_to_chars(d.as_str());
    let head = segment_from(&v, 0);
    assert(v@.skip(0) =~= v@);
    proof {
        lemma_first_segment(v@);
    }
    let hs = chars_to_string(&head);
    match decl_last(declared, &hs) {
        None => None,
        Some(t) => {
            if head.len() < v.len() {
                let r = field_chain_type_of(schemas, t, &v, head.len() + 1);
                r
            } else {
                Some(t)
            }
        },
    }
}

/// The first operator with symbol `sym`; see `find_op`.
fn find_op_of<'a>(ops: &'a Vec<OperatorDecl>, sym: &String) -> (r: Option<&'a OperatorDecl>)
    ensures
        match r {
            Some(o) => find_op(operators_view(ops@), sym@) == Some(operator_view(*o)),
            None => find_op(operators_view(ops@), sym@) is None,
        },
{
    let ghost ov = operators_view(ops@);
    let mut i: usize = 0;
    assert(ov.skip(0) =~= ov);
    while i < ops.len()
        invariant
            0 <= i <= ops.len(),
            ov == operators_view(ops@),
            find_op(ov, sym@) == find_op(ov.skip(i as int), sym@),
        decreases ops.len() - i,
    {
        assert(ov.skip(i as int)[0] == operator_view(ops@[i as int]));
        assert(ov.skip(i as int).drop_first() =~= ov.skip(i + 1));
        if ops[i].symbol == *sym {
            return Some(&ops[i]);
        }
        i += 1;
    }
    None
}

pub open spec fn params_view(m: Seq<(String, Expr)>) -> Seq<(Seq<char>, ExprV)> {
    Seq::new(m.len(), |i: int| (m[i].0@, expr_view(m[i].1)))
}

fn param_lookup_of(m: &Vec<(String, Expr)>, n: &String) -> (r: Option<Expr>)
    ensures
        match r {
            Some(x) => param_lookup(params_view(m@), n@) == Some(x@),
            None => param_lookup(params_view(m@), n@) is None,
        },
{
    let ghost mv = params_view(m@);
    assert(mv.take(mv.len() as int) =~= mv);
    let mut i: usize = m.len();
    while i > 0
        invariant
            i <= m.len(),
            mv == params_view(m@),
            param_lookup(mv, n@) == param_lookup(mv.take(i as int), n@),
        decreases i,
    {
        assert(mv.take(i as int).drop_last() =~= mv.take(i - 1));
        assert(mv.take(i as int).last() == mv[i - 1]);
        if m[i - 1].0 == *n {
            return Some(clone_expr(&m[i - 1].1));
        }
        i -= 1;
    }
    None
}

fn subst_params_all(xs: &Vec<Expr>, m: &Vec<(String, Expr)>) -> (r: Vec<Expr>)
    ensures
        r.len() == xs.len(),
        forall|k: int| 0 <= k < xs.len() ==> #[trigger] expr_view(r@[k]) == subst_params(expr_view(xs@[k]), params_view(m@)),
    decreases xs, 1int,
{
    let mut out: Vec<Expr> = Vec::new();
    let mut i: usize = 0;
    while i < xs.len()
        invariant
            0 <= i <= xs.len(),
            out.len() == i,
            forall|k: int| 0 <= k < i ==> #[trigger] expr_view(out@[k]) == subst_params(expr_view(xs@[k]), params_view(m@)),
        decreases xs.len() - i,
    {
        proof {
            assert(decreases_to!(*xs => xs@[i as int]));
        }
        out.push(subst_params_of(&xs[i], m));
        i += 1;
    }
    out
}

/// An operator body expression with its parameters replaced; see `subst_params`.
fn subst_params_of(e: &Expr, m: &Vec<(String, Expr)>) -> (r: Expr)
    ensures
        r@ == subst_params(e@, params_view(m@)),
    decreases e, 0int,
{
    proof {
        lemma_list_views(*e);
    }
    let ghost mv = params_view(m@);
    match e {
        Expr::Field(x, f) => {
            if let Some(d) = expr_dotted_of(e) {
                let v = str_to_chars(d.as_str());
                let head = segment_from(&v, 0);
                assert(v@.skip(0) =~= v@);
                proof {
                    lemma_first_segment(v@);
                }
                let hs = chars_to_string(&head);
                if let Some(b) = param_lookup_of(m, &hs) {
                    if let Some(bd) = expr_dotted_of(&b) {
                        let rest = chars_to_string(&crate::text::slice_chars(&v, head.len(), v.len()));
                        assert(rest@ =~= v@.skip(head.len() as int));
                        return Expr::Identifier(concat_str(&bd, rest.as_str()));
                    }
                }
            }
            Expr::Field(Box::new(subst_params_of(x, m)), f.clone())
        },
        Expr::Identifier(n) => match param_lookup_of(m, n) {
            Some(b) => b,
            None => clone_expr(e),
        },
        Expr::Int(_) | Expr::Real(_) | Expr::Bool(_) | Expr::Str(_) => clone_expr(e),
        Expr::Binary(op, l, r) => Expr::Binary(clone_binop(op), Box::new(subst_params_of(l, m)), Box::new(subst_params_of(r, m))),
        Expr::Not(x) => Expr::Not(Box::new(subst_params_of(x, m))),
        Expr::Delta(x) => Expr::Delta(Box::new(subst_params_of(x, m))),
        Expr::Ternary(c, a, b) => Expr::Ternary(
            Box::new(subst_params_of(c, m)),
            Box::new(subst_params_of(a, m)),
            Box::new(subst_params_of(b, m)),
        ),
        Expr::Call(n, xs) => {
            proof {
                assert(decreases_to!(*e => *xs));
            }
            let out = subst_params_all(xs, m);
            let r = Expr::Call(n.clone(), out);
            proof {
                lemma_list_views(r);
                assert(exprs_view(out@) =~= subst_params(e@, mv)->Call_1);
            }
            r
        },
        Expr::SeqLit(xs) => {
            proof {
                assert(decreases_to!(*e => *xs));
            }
            let out = subst_params_all(xs, m);
            let r = Expr::SeqLit(out);
            proof {
                lemma_list_views(r);
                assert(exprs_view(out@) =~= subst_params(e@, mv)->SeqLit_0);
            }
            r
        },
        Expr::SetLit(xs) => {
            proof {
                assert(decreases_to!(*e => *xs));
            }
            let out = subst_params_all(xs, m);
            let r = Expr::SetLit(out);
            proof {
                lemma_list_views(r);
                assert(exprs_view(out@) =~= subst_params(e@, mv)->SetLit_0);
            }
            r
        },
        Expr::Tuple(xs) => {
            proof {
                assert(decreases_to!(*e => *xs));
            }
            let out = subst_params_all(xs, m);
            let r = Expr::Tuple(out);
            proof {
                lemma_list_views(r);
                assert(exprs_view(out@) =~= subst_params(e@, mv)->Tuple_0);
            }
            r
        },
        Expr::Index(a, b) => Expr::Index(Box::new(subst_params_of(a, m)), Box::new(subst_params_of(b, m))),
        Expr::Cardinality(x) => Expr::Cardinality(Box::new(subst_params_of(x, m))),
        Expr::InExpr(a, b) => Expr::InExpr(Box::new(subst_params_of(a, m)), Box::new(subst_params_of(b, m))),
        Expr::Range(a, b) => Expr::Range(Box::new(subst_params_of(a, m)), Box::new(subst_params_of(b, m))),
        Expr::Forall(vs, r, b) => Expr::Forall(clone_strings(vs), Box::new(subst_params_of(r, m)), Box::new(subst_params_of(b, m))),
        Expr::Exists(vs, r, b) => Expr::Exists(clone_strings(vs), Box::new(subst_params_of(r, m)), Box::new(subst_params_of(b, m))),
        Expr::Match(scrut, arms) => {
            let s2 = subst_params_of(scrut, m);
            let mut out: Vec<MatchArm> = Vec::new();
            let mut i: usize = 0;
            while i < arms.len()
                invariant
                    0 <= i <= arms.len(),
                    *e == Expr::Match(*scrut, *arms),
                    out.len() == i,
                    forall|k: int|
                        0 <= k < i ==> pattern_view(#[trigger] out@[k].pattern) == pattern_view(arms@[k].pattern)
                            && expr_view(*out@[k].body) == subst_params(expr_view(*arms@[k].body), params_view(m@)),
                decreases arms.len() - i,
            {
                proof {
                    assert(decreases_to!(*e => e->Match_1));
                    assert(decreases_to!(e->Match_1 => arms@[i as int]));
                    assert(decreases_to!(arms@[i as int] => arms@[i as int].body));
                }
                let b = subst_params_of(&arms[i].body, m);
                out.push(MatchArm { pattern: clone_pattern(&arms[i].pattern), body: Box::new(b) });
                i += 1;
            }
            let r = Expr::Match(Box::new(s2), out);
            proof {
                lemma_list_views(r);
                assert(arms_view(out@) =~= subst_params(e@, mv)->Match_1);
            }
            r
        },
        Expr::Matches(x, p) => Expr::Matches(Box::new(subst_params_of(x, m)), clone_pattern(p)),
    }
}


proof fn lemma_count_list_mono(xs: Seq<ExprV>, i: nat, n: nat)
    requires
        i <= n <= xs.len(),
    ensures
        op_count_list(xs, i) <= op_count_list(xs, n),
    decreases n,
{
    if i < n {
        lemma_count_list_mono(xs, i, (n - 1) as nat);
    }
}

proof fn lemma_count_arms_mono(arms: Seq<MatchArmV>, i: nat, n: nat)
    requires
        i <= n <= arms.len(),
    ensures
        op_count_arms(arms, i) <= op_count_arms(arms, n),
    decreases n,
{
    if i < n {
        lemma_count_arms_mono(arms, i, (n - 1) as nat);
    }
}

proof fn lemma_count_mappings_mono(ms: Seq<MappingV>, i: nat, n: nat)
    requires
        i <= n <= ms.len(),
    ensures
        op_count_mappings(ms, i) <= op_count_mappings(ms, n),
    decreases n,
{
    if i < n {
        lemma_count_mappings_mono(ms, i, (n - 1) as nat);
    }
}

proof fn lemma_count_items_mono(items: Seq<BodyItemV>, i: nat, n: nat)
    requires
        i <= n <= items.len(),
    ensures
        op_count_items(items, i) <= op_count_items(items, n),
    decreases n,
{
    if i < n {
        lemma_count_items_mono(items, i, (n - 1) as nat);
    }
}

proof fn lemma_subs_fit(body: Seq<BodyItemV>, n: nat, i: int)
    requires
        subs_fit(body, n),
        0 <= i < n <= body.len(),
    ensures
        body[i] matches BodyItemV::SubclaimDecl(sub) ==> ops_fit(sub),
    decreases n,
{
    if i < n - 1 {
        lemma_subs_fit(body, (n - 1) as nat, i);
    }
}

/// `l · r` after its operands were rewritten; see `resolve_op`.
fn resolve_of(
    op: &BinOp,
    l: Expr,
    r: Expr,
    declared: &mut Vec<(String, String)>,
    counter: &mut usize,
    extra: &mut Vec<BodyItem>,
    schemas: &Vec<SchemaDecl>,
) -> (res: Expr)
    requires
        binop_view(*op) is UserOp ==> *old(counter) < usize::MAX,
    ensures
        resolve_op(binop_view(*op), l@, r@, state_of(old(declared)@, *old(counter), old(extra)@), schemas_view(schemas@))
            == (res@, state_of(final(declared)@, *final(counter), final(extra)@)),
        *final(counter) <= *old(counter) + if binop_view(*op) is UserOp { 1nat } else { 0nat },
{
    let ghost sv = schemas_view(schemas@);
    let ghost st = state_of(declared@, *counter, extra@);
    let sym = match op {
        BinOp::UserOp(sym) => sym,
        _ => {
            return Expr::Binary(clone_binop(op), Box::new(l), Box::new(r));
        },
    };
    let ty = match operand_type_of(&l, declared, schemas) {
        Some(t) => t,
        None => {
            return Expr::Binary(clone_binop(op), Box::new(l), Box::new(r));
        },
    };
    let decl = match lookup_schema(schemas, &ty) {
        Some(d) => d,
        None => {
            return Expr::Binary(clone_binop(op), Box::new(l), Box::new(r));
        },
    };
    proof {
        lemma_schema_lists(*decl);
    }
    let o = match find_op_of(&decl.operators, sym) {
        Some(o) => o,
        None => {
            return Expr::Binary(clone_binop(op), Box::new(l), Box::new(r));
        },
    };
    if o.operands.len() != 2 {
        return Expr::Binary(clone_binop(op), Box::new(l), Box::new(r));
    }
    let ghost ov = operator_view(*o);
    assert(ov.body =~= items_view(o.body@));
    let fresh = concat_str(&String::from_str("__op"), usize_decimal(*counter).as_str());
    assert(fresh@ =~= op_result_name(*counter as nat));
    let mut m: Vec<(String, Expr)> = Vec::new();
    m.push((o.operands[0].clone(), clone_expr(&l)));
    m.push((o.operands[1].clone(), clone_expr(&r)));
    m.push((o.result.clone(), Expr::Identifier(fresh.clone())));
    let ghost mv = seq![(ov.operands[0], l@), (ov.operands[1], r@), (ov.result, ExprV::Identifier(fresh@))];
    assert(params_view(m@) =~= mv);
    extra.push(BodyItem::Membership { name: fresh.clone(), ty: o.result_type.clone(), pins: Pins::Empty });
    declared.push((fresh.clone(), o.result_type.clone()));
    *counter = *counter + 1;
    let ghost base = items_view(extra@);
    let mut k: usize = 0;
    assert(ov.body.take(0) =~= Seq::<BodyItemV>::empty());
    assert(base + op_constraints(ov.body.take(0), mv) =~= base);
    while k < o.body.len()
        invariant
            0 <= k <= o.body.len(),
            ov == operator_view(*o),
            ov.body == items_view(o.body@),
            params_view(m@) == mv,
            items_view(extra@) == base + op_constraints(ov.body.take(k as int), mv),
        decreases o.body.len() - k,
    {
        assert(ov.body.take(k + 1).drop_last() =~= ov.body.take(k as int));
        assert(ov.body.take(k + 1).last() == body_item_view(o.body@[k as int]));
        let ghost prev = items_view(extra@);
        if let BodyItem::Constraint(be) = &o.body[k] {
            extra.push(BodyItem::Constraint(subst_params_of(be, &m)));
            assert(items_view(extra@) =~= prev + seq![BodyItemV::Constraint(subst_params(be@, mv))]);
        } else {
            assert(items_view(extra@) =~= prev + Seq::<BodyItemV>::empty());
        }
        assert(items_view(extra@) =~= base + op_constraints(ov.body.take(k + 1), mv));
        k += 1;
    }
    assert(ov.body.take(o.body.len() as int) =~= ov.body);
    assert(decls_view(declared@) =~= st.declared.push((fresh@, ov.result_type)));
    assert(items_view(extra@) =~= st.extra.push(
        BodyItemV::Membership { name: fresh@, ty: ov.result_type, pins: PinsV::Empty },
    ) + op_constraints(ov.body, mv));
    Expr::Identifier(fresh)
}

/// `e` with its user operators resolved; see `op_rewrite`.
fn rewrite_ops(
    e: &Expr,
    declared: &mut Vec<(String, String)>,
    counter: &mut usize,
    extra: &mut Vec<BodyItem>,
    schemas: &Vec<SchemaDecl>,
) -> (res: Expr)
    requires
        *old(counter) + op_count(e@) <= usize::MAX,
    ensures
        op_rewrite(e@, state_of(old(declared)@, *old(counter), old(extra)@), schemas_view(schemas@))
            == (res@, state_of(final(declared)@, *final(counter), final(extra)@)),
        *final(counter) <= *old(counter) + op_count(e@),
    decreases e, 0int,
{
    proof {
        lemma_list_views(*e);
    }
    match e {
        Expr::Binary(op, l, r) => {
            let l2 = rewrite_ops(l, declared, counter, extra, schemas);
            let r2 = rewrite_ops(r, declared, counter, extra, schemas);
            resolve_of(op, l2, r2, declared, counter, extra, schemas)
        },
        Expr::Range(l, r) => {
            let l2 = rewrite_ops(l, declared, counter, extra, schemas);
            let r2 = rewrite_ops(r, declared, counter, extra, schemas);
            Expr::Range(Box::new(l2), Box::new(r2))
        },
        Expr::InExpr(l, r) => {
            let l2 = rewrite_ops(l, declared, counter, extra, schemas);
            let r2 = rewrite_ops(r, declared, counter, extra, schemas);
            Expr::InExpr(Box::new(l2), Box::new(r2))
        },
        Expr::Index(l, r) => {
            let l2 = rewrite_ops(l, declared, counter, extra, schemas);
            let r2 = rewrite_ops(r, declared, counter, extra, schemas);
            Expr::Index(Box::new(l2), Box::new(r2))
        },
        Expr::Ternary(c, a, b) => {
            let c2 = rewrite_ops(c, declared, counter, extra, schemas);
            let a2 = rewrite_ops(a, declared, counter, extra, schemas);
            let b2 = rewrite_ops(b, declared, counter, extra, schemas);
            Expr::Ternary(Box::new(c2), Box::new(a2), Box::new(b2))
        },
        Expr::SetLit(xs) => {
            proof {
                assert(decreases_to!(*e => *xs));
            }
            let ys = rewrite_ops_list(xs, declared, counter, extra, schemas);
            let res = Expr::SetLit(ys);
            proof {
                lemma_list_views(res);
            }
            res
        },
        Expr::SeqLit(xs) => {
            proof {
                assert(decreases_to!(*e => *xs));
            }
            let ys = rewrite_ops_list(xs, declared, counter, extra, schemas);
            let res = Expr::SeqLit(ys);
            proof {
                lemma_list_views(res);
            }
            res
        },
        Expr::Tuple(xs) => {
            proof {
                assert(decreases_to!(*e => *xs));
            }
            let ys = rewrite_ops_list(xs, declared, counter, extra, schemas);
            let res = Expr::Tuple(ys);
            proof {
                lemma_list_views(res);
            }
            res
        },
        Expr::Call(n, xs) => {
            proof {
                assert(decreases_to!(*e => *xs));
            }
            let ys = rewrite_ops_list(xs, declared, counter, extra, schemas);
            let res = Expr::Call(n.clone(), ys);
            proof {
                lemma_list_views(res);
            }
            res
        },
        Expr::Forall(vs, r, b) => {
            let r2 = rewrite_ops(r, declared, counter, extra, schemas);
            let b2 = rewrite_ops(b, declared, counter, extra, schemas);
            Expr::Forall(clone_strings(vs), Box::new(r2), Box::new(b2))
        },
        Expr::Exists(vs, r, b) => {
            let r2 = rewrite_ops(r, declared, counter, extra, schemas);
            let b2 = rewrite_ops(b, declared, counter, extra, schemas);
            Expr::Exists(clone_strings(vs), Box::new(r2), Box::new(b2))
        },
        Expr::Cardinality(x) => Expr::Cardinality(Box::new(rewrite_ops(x, declared, counter, extra, schemas))),
        Expr::Not(x) => Expr::Not(Box::new(rewrite_ops(x, declared, counter, extra, schemas))),
        Expr::Delta(x) => Expr::Delta(Box::new(rewrite_ops(x, declared, counter, extra, schemas))),
        Expr::Matches(x, p) => {
            let x2 = rewrite_ops(x, declared, counter, extra, schemas);
            Expr::Matches(Box::new(x2), clone_pattern(p))
        },
        Expr::Field(x, f) => {
            let x2 = rewrite_ops(x, declared, counter, extra, schemas);
            Expr::Field(Box::new(x2), f.clone())
        },
        Expr::Match(scrut, arms) => {
            let s2 = rewrite_ops(scrut, declared, counter, extra, schemas);
            let ghost av = arms_view(arms@);
            let ghost sv = schemas_view(schemas@);
            let ghost st1 = state_of(declared@, *counter, extra@);
            let ghost c1 = *counter;
            let mut out: Vec<MatchArm> = Vec::new();
            let mut i: usize = 0;
            proof {
                lemma_count_arms_mono(av, 0, av.len());
            }
            while i < arms.len()
                invariant
                    0 <= i <= arms.len(),
                    *e == Expr::Match(*scrut, *arms),
                    av == arms_view(arms@),
                    sv == schemas_view(schemas@),
                    c1 + op_count_arms(av, av.len()) <= usize::MAX,
                    *counter <= c1 + op_count_arms(av, i as nat),
                    op_rewrite_arms(av, i as nat, st1, sv) == (arms_view(out@), state_of(declared@, *counter, extra@)),
                decreases arms.len() - i,
            {
                proof {
                    assert(decreases_to!(*e => e->Match_1));
                    assert(decreases_to!(e->Match_1 => arms@[i as int]));
                    assert(decreases_to!(arms@[i as int] => arms@[i as int].body));
                    lemma_count_arms_mono(av, (i + 1) as nat, av.len());
                }
                let b = rewrite_ops(&arms[i].body, declared, counter, extra, schemas);
                let ghost prev = arms_view(out@);
                out.push(MatchArm { pattern: clone_pattern(&arms[i].pattern), body: Box::new(b) });
                assert(arms_view(out@) =~= prev.push(MatchArmV { pattern: av[i as int].pattern, body: b@ }));
                i += 1;
            }
            let res = Expr::Match(Box::new(s2), out);
            proof {
                lemma_list_views(res);
            }
            res
        },
        _ => clone_expr(e),
    }
}

/// The expressions of `xs` rewritten in order; see `op_rewrite_list`.
fn rewrite_ops_list(
    xs: &Vec<Expr>,
    declared: &mut Vec<(String, String)>,
    counter: &mut usize,
    extra: &mut Vec<BodyItem>,
    schemas: &Vec<SchemaDecl>,
) -> (res: Vec<Expr>)
    requires
        *old(counter) + op_count_list(exprs_view(xs@), xs.len() as nat) <= usize::MAX,
    ensures
        op_rewrite_list(exprs_view(xs@), xs.len() as nat, state_of(old(declared)@, *old(counter), old(extra)@), schemas_view(schemas@))
            == (exprs_view(res@), state_of(final(declared)@, *final(counter), final(extra)@)),
        *final(counter) <= *old(counter) + op_count_list(exprs_view(xs@), xs.len() as nat),
    decreases xs, 1int,
{
    let ghost xv = exprs_view(xs@);
    let ghost sv = schemas_view(schemas@);
    let ghost st0 = state_of(declared@, *counter, extra@);
    let ghost c0 = *counter;
    let mut out: Vec<Expr> = Vec::new();
    let mut i: usize = 0;
    assert(exprs_view(out@) =~= Seq::<ExprV>::empty());
    while i < xs.len()
        invariant
            0 <= i <= xs.len(),
            xv == exprs_view(xs@),
            sv == schemas_view(schemas@),
            c0 + op_count_list(xv, xv.len()) <= usize::MAX,
            *counter <= c0 + op_count_list(xv, i as nat),
            op_rewrite_list(xv, i as nat, st0, sv) == (exprs_view(out@), state_of(declared@, *counter, extra@)),
        decreases xs.len() - i,
    {
        proof {
            assert(decreases_to!(*xs => xs@[i as int]));
            lemma_count_list_mono(xv, (i + 1) as nat, xv.len());
        }
        let y = rewrite_ops(&xs[i], declared, counter, extra, schemas);
        let ghost prev = exprs_view(out@);
        out.push(y);
        assert(exprs_view(out@) =~= prev.push(y@));
        i += 1;
    }
    out
}


pub(crate) fn member_decls_of(body: &Vec<BodyItem>) -> (r: Vec<(String, String)>)
    ensures
        decls_view(r@) == member_decls(items_view(body@)),
{
    let ghost bv = items_view(body@);
    let mut out: Vec<(String, String)> = Vec::new();
    let mut i: usize = 0;
    assert(decls_view(out@) =~= member_decls(bv.take(0)));
    while i < body.len()
        invariant
            0 <= i <= body.len(),
            bv == items_view(body@),
            decls_view(out@) == member_decls(bv.take(i as int)),
        decreases body.len() - i,
    {
        assert(bv.take(i + 1).drop_last() =~= bv.take(i as int));
        assert(bv.take(i + 1).last() == body_item_view(body@[i as int]));
        let ghost prev = decls_view(out@);
        if let BodyItem::Membership { name, ty, .. } = &body[i] {
            out.push((name.clone(), ty.clone()));
            assert(decls_view(out@) =~= prev.push((name@, ty@)));
        }
        i += 1;
    }
    assert(bv.take(body.len() as int) =~= bv);
    out
}

fn desugar_ops_of(s: &SchemaDecl, schemas: &Vec<SchemaDecl>) -> (r: SchemaDecl)
    requires
        ops_fit(s@),
    ensures
        r@ == ops_schema(s@, schemas_view(schemas@)),
    decreases s,
{
    proof {
        lemma_schema_lists(*s);
    }
    if s.external {
        return clone_schema(s);
    }
    let ghost bv = items_view(s.body@);
    let ghost sv = schemas_view(schemas@);
    let mut declared = member_decls_of(&s.body);
    let mut counter: usize = 0;
    let mut extra: Vec<BodyItem> = Vec::new();
    let ghost st0 = state_of(declared@, counter, extra@);
    assert(st0 == initial_state(bv)) by {
        assert(items_view(extra@) =~= Seq::<BodyItemV>::empty());
    }
    let mut items: Vec<BodyItem> = Vec::new();
    let mut i: usize = 0;
    proof {
        lemma_count_items_mono(bv, 0, bv.len());
    }
    while i < s.body.len()
        invariant
            0 <= i <= s.body.len(),
            bv == items_view(s.body@),
            sv == schemas_view(schemas@),
            ops_fit(s@),
            !s.external,
            schema_view_body(*s) == bv,
            op_count_items(bv, bv.len()) < usize::MAX,
            subs_fit(bv, bv.len()),
            counter <= op_count_items(bv, i as nat),
            items.len() == i,
            op_items(bv, i as nat, st0, sv).1 == state_of(declared@, counter, extra@),
            op_items(bv, i as nat, st0, sv).0.len() == i,
            forall|k: int| 0 <= k < i ==> #[trigger] body_item_view(items@[k]) == ops_sub(bv[k], op_items(bv, i as nat, st0, sv).0[k], sv),
        decreases s.body.len() - i,
    {
        proof {
            assert(decreases_to!(*s => s.body));
            assert(decreases_to!(s.body => s.body@[i as int]));
            lemma_count_items_mono(bv, (i + 1) as nat, bv.len());
            lemma_op_items_prefix(bv, i as nat, st0, sv);
        }
        let ghost before = op_items(bv, i as nat, st0, sv);
        assert(bv[i as int] == body_item_view(s.body@[i as int]));
        let item = match &s.body[i] {
            BodyItem::Constraint(e) => BodyItem::Constraint(rewrite_ops(e, &mut declared, &mut counter, &mut extra, schemas)),
            BodyItem::ClaimCall { name, mappings } => {
                let ghost mv = mappings_view(mappings@);
                let ghost sm = state_of(declared@, counter, extra@);
                let ghost cm = counter;
                let mut ms: Vec<Mapping> = Vec::new();
                let mut j: usize = 0;
                proof {
                    lemma_count_mappings_mono(mv, 0, mv.len());
                }
                assert(mappings_view(ms@) =~= Seq::<MappingV>::empty());
                while j < mappings.len()
                    invariant
                        0 <= j <= mappings.len(),
                        mv == mappings_view(mappings@),
                        sv == schemas_view(schemas@),
                        cm + op_count_mappings(mv, mv.len()) <= usize::MAX,
                        counter <= cm + op_count_mappings(mv, j as nat),
                        op_rewrite_mappings(mv, j as nat, sm, sv) == (mappings_view(ms@), state_of(declared@, counter, extra@)),
                    decreases mappings.len() - j,
                {
                    proof {
                        lemma_count_mappings_mono(mv, (j + 1) as nat, mv.len());
                    }
                    let v = rewrite_ops(&mappings[j].value, &mut declared, &mut counter, &mut extra, schemas);
                    let ghost prev = mappings_view(ms@);
                    ms.push(Mapping { slot: mappings[j].slot.clone(), value: v });
                    assert(mappings_view(ms@) =~= prev.push(MappingV { slot: mv[j as int].slot, value: v@ }));
                    j += 1;
                }
                BodyItem::ClaimCall { name: name.clone(), mappings: ms }
            },
            BodyItem::SubclaimDecl(sub) => {
                proof {
                    lemma_subs_fit(bv, bv.len(), i as int);
                }
                BodyItem::SubclaimDecl(desugar_ops_of(sub, schemas))
            },
            _ => clone_body_item(&s.body[i]),
        };
        items.push(item);
        proof {
            let after = op_items(bv, (i + 1) as nat, st0, sv);
            assert(after.0 == before.0.push(after.0[i as int]));
            assert forall|k: int| 0 <= k < i + 1 implies #[trigger] body_item_view(items@[k]) == ops_sub(bv[k], after.0[k], sv) by {
                if k < i {
                    assert(after.0[k] == before.0[k]);
                }
            }
        }
        i += 1;
    }
    let ghost fin = op_items(bv, bv.len(), st0, sv);
    let mut k: usize = 0;
    let ghost base = items_view(items@);
    while k < extra.len()
        invariant
            0 <= k <= extra.len(),
            items_view(items@) == base + items_view(extra@).take(k as int),
        decreases extra.len() - k,
    {
        let c = clone_body_item(&extra[k]);
        let ghost prev = items_view(items@);
        items.push(c);
        assert(items_view(items@) =~= prev.push(body_item_view(extra@[k as int])));
        assert(items_view(items@) =~= base + items_view(extra@).take(k + 1));
        k += 1;
    }
    assert(items_view(extra@).take(extra.len() as int) =~= items_view(extra@));
    let r = SchemaDecl {
        keyword: s.keyword,
        name: s.name.clone(),
        type_params: clone_strings(&s.type_params),
        param_count: s.param_count,
        external: s.external,
        body: items,
        operators: crate::ast::clone_operators(&s.operators),
    };
    proof {
        lemma_schema_lists(r);
        assert(base =~= ops_apply(bv, fin.0, sv));
        assert(fin.1.extra == items_view(extra@));
        assert(r@.body =~= base + fin.1.extra);
        assert(r@.type_params =~= s@.type_params);
        assert(r@.operators =~= s@.operators);
        assert(r@.name == s@.name);
        assert(s@.body == bv);
        assert(!s@.external);
        assert(op_items(s@.body, s@.body.len(), initial_state(s@.body), sv) == fin);
        assert(r@ =~= ops_schema(s@, sv));
    }
    r
}

pub open spec fn schema_view_body(s: SchemaDecl) -> Seq<BodyItemV> {
    s@.body
}

proof fn lemma_op_items_prefix(items: Seq<BodyItemV>, n: nat, st: OpState, sc: Seq<SchemaDeclV>)
    requires
        n < items.len(),
    ensures
        op_items(items, n + 1, st, sc).0.take(n as int) == op_items(items, n, st, sc).0,
        op_items(items, n + 1, st, sc).0.len() == n + 1,
{
    lemma_op_items_len(items, n, st, sc);
    let (prev, s1) = op_items(items, n, st, sc);
    assert(op_items(items, n + 1, st, sc).0.take(n as int) =~= prev);
}

proof fn lemma_op_items_len(items: Seq<BodyItemV>, n: nat, st: OpState, sc: Seq<SchemaDeclV>)
    requires
        n <= items.len(),
    ensures
        op_items(items, n, st, sc).0.len() == n,
    decreases n,
{
    if n > 0 {
        lemma_op_items_len(items, (n - 1) as nat, st, sc);
    }
}

/// Desugars the user operators of `s`, its subclaims included; see
/// `ops_schema`. Operator declarations are looked up in `schemas`.
pub fn desugar_operators(s: &mut SchemaDecl, schemas: &Vec<SchemaDecl>)
    requires
        ops_fit(old(s)@),
    ensures
        final(s)@ == ops_schema(old(s)@, schemas_view(schemas@)),
{
    let r = desugar_ops_of(s, schemas);
    *s = r;
}

} // verus!
