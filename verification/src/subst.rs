//! Expression-level rewriting used by the function-izer: occurrence tests,
//! capture-avoiding-by-shadowing substitution, constant folding of integer
//! bounds, and unrolling of `∀ i ∈ {lo..hi}` constraints.
use vstd::prelude::*;
use crate::ast::{
    arms_view, binop_view, body_item_view, expr_view, pattern_view, clone_binop, clone_body_item, clone_expr, clone_pattern, clone_strings,
    exprs_view, items_view, lemma_list_views, strings_contain, strs_view, BinOp, BinOpV, BodyItem,
    BodyItemV, Expr, ExprV, MatchArm, MatchArmV, MatchPatternV,
};

verus! {

// ───────────────────────────── specification ─────────────────────────────

/// Does `e` contain an identifier spelled `name`? Binders are not treated
/// specially: a quantifier's range and body are searched as they stand.
pub open spec fn expr_mentions(e: ExprV, name: Seq<char>) -> bool
    decreases e,
{
    match e {
        ExprV::Identifier(s) => s == name,
        ExprV::Int(_) | ExprV::Real(_) | ExprV::Bool(_) | ExprV::Str(_) => false,
        ExprV::Binary(_, l, r) => expr_mentions(*l, name) || expr_mentions(*r, name),
        ExprV::Not(x) => expr_mentions(*x, name),
        ExprV::Delta(x) => expr_mentions(*x, name),
        ExprV::Ternary(c, a, b) => expr_mentions(*c, name) || expr_mentions(*a, name) || expr_mentions(*b, name),
        ExprV::Call(_, args) => exists|i: int| 0 <= i < args.len() && expr_mentions(#[trigger] args[i], name),
        ExprV::Field(x, _) => expr_mentions(*x, name),
        ExprV::Index(a, b) => expr_mentions(*a, name) || expr_mentions(*b, name),
        ExprV::Cardinality(x) => expr_mentions(*x, name),
        ExprV::SeqLit(xs) => exists|i: int| 0 <= i < xs.len() && expr_mentions(#[trigger] xs[i], name),
        ExprV::SetLit(xs) => exists|i: int| 0 <= i < xs.len() && expr_mentions(#[trigger] xs[i], name),
        ExprV::Tuple(xs) => exists|i: int| 0 <= i < xs.len() && expr_mentions(#[trigger] xs[i], name),
        ExprV::InExpr(a, b) => expr_mentions(*a, name) || expr_mentions(*b, name),
        ExprV::Range(a, b) => expr_mentions(*a, name) || expr_mentions(*b, name),
        ExprV::Forall(_, r, b) => expr_mentions(*r, name) || expr_mentions(*b, name),
        ExprV::Exists(_, r, b) => expr_mentions(*r, name) || expr_mentions(*b, name),
        ExprV::Match(s, arms) => expr_mentions(*s, name) || exists|i: int|
            0 <= i < arms.len() && expr_mentions(#[trigger] arms[i].body, name),
        ExprV::Matches(s, _) => expr_mentions(*s, name),
    }
}

/// `e` with every identifier spelled `name` replaced by `value`. A
/// quantifier that binds `name` is left as it is, range and body included.
pub open spec fn subst_expr(e: ExprV, name: Seq<char>, value: ExprV) -> ExprV
    decreases e,
{
    match e {
        ExprV::Identifier(s) => if s == name { value } else { e },
        ExprV::Int(_) | ExprV::Real(_) | ExprV::Bool(_) | ExprV::Str(_) => e,
        ExprV::Binary(op, l, r) => ExprV::Binary(
            op,
            Box::new(subst_expr(*l, name, value)),
            Box::new(subst_expr(*r, name, value)),
        ),
        ExprV::Not(x) => ExprV::Not(Box::new(subst_expr(*x, name, value))),
        ExprV::Delta(x) => ExprV::Delta(Box::new(subst_expr(*x, name, value))),
        ExprV::Ternary(c, a, b) => ExprV::Ternary(
            Box::new(subst_expr(*c, name, value)),
            Box::new(subst_expr(*a, name, value)),
            Box::new(subst_expr(*b, name, value)),
        ),
        ExprV::Call(n, args) => ExprV::Call(n, Seq::new(args.len(), |i: int| if 0 <= i < args.len() { subst_expr(args[i], name, value) } else { ExprV::Int(0) })),
        ExprV::Field(x, f) => ExprV::Field(Box::new(subst_expr(*x, name, value)), f),
        ExprV::Index(a, b) => ExprV::Index(
            Box::new(subst_expr(*a, name, value)),
            Box::new(subst_expr(*b, name, value)),
        ),
        ExprV::Cardinality(x) => ExprV::Cardinality(Box::new(subst_expr(*x, name, value))),
        ExprV::SeqLit(xs) => ExprV::SeqLit(Seq::new(xs.len(), |i: int| if 0 <= i < xs.len() { subst_expr(xs[i], name, value) } else { ExprV::Int(0) })),
        ExprV::SetLit(xs) => ExprV::SetLit(Seq::new(xs.len(), |i: int| if 0 <= i < xs.len() { subst_expr(xs[i], name, value) } else { ExprV::Int(0) })),
        ExprV::Tuple(xs) => ExprV::Tuple(Seq::new(xs.len(), |i: int| if 0 <= i < xs.len() { subst_expr(xs[i], name, value) } else { ExprV::Int(0) })),
        ExprV::InExpr(a, b) => ExprV::InExpr(
            Box::new(subst_expr(*a, name, value)),
            Box::new(subst_expr(*b, name, value)),
        ),
        ExprV::Range(a, b) => ExprV::Range(
            Box::new(subst_expr(*a, name, value)),
            Box::new(subst_expr(*b, name, value)),
        ),
        ExprV::Forall(vs, r, b) => if vs.contains(name) {
            e
        } else {
            ExprV::Forall(vs, Box::new(subst_expr(*r, name, value)), Box::new(subst_expr(*b, name, value)))
        },
        ExprV::Exists(vs, r, b) => if vs.contains(name) {
            e
        } else {
            ExprV::Exists(vs, Box::new(subst_expr(*r, name, value)), Box::new(subst_expr(*b, name, value)))
        },
        ExprV::Match(s, arms) => ExprV::Match(
            Box::new(subst_expr(*s, name, value)),
            Seq::new(
                arms.len(),
                |i: int|
                    if 0 <= i < arms.len() {
                        MatchArmV { pattern: arms[i].pattern, body: subst_expr(arms[i].body, name, value) }
                    } else {
                        MatchArmV { pattern: MatchPatternV::Wildcard, body: ExprV::Int(0) }
                    },
            ),
        ),
        ExprV::Matches(s, p) => ExprV::Matches(Box::new(subst_expr(*s, name, value)), p),
    }
}

/// The value of an integer literal, or of `+ - *` over such, when every
/// intermediate result fits in `i64`.
pub open spec fn const_int(e: ExprV) -> Option<i64>
    decreases e,
{
    match e {
        ExprV::Int(n) => Some(n),
        ExprV::Binary(op, l, r) => match (op, const_int(*l), const_int(*r)) {
            (BinOpV::Add, Some(a), Some(b)) => fit_i64(a + b),
            (BinOpV::Sub, Some(a), Some(b)) => fit_i64(a - b),
            (BinOpV::Mul, Some(a), Some(b)) => fit_i64(a * b),
            _ => None,
        },
        _ => None,
    }
}

pub open spec fn fit_i64(x: int) -> Option<i64> {
    if i64::MIN <= x <= i64::MAX {
        Some(x as i64)
    } else {
        None
    }
}

/// The number of integers in `lo..=hi`.
pub open spec fn range_count(lo: i64, hi: i64) -> nat {
    if hi < lo {
        0
    } else {
        (hi - lo + 1) as nat
    }
}

/// `∀ v ∈ {lo..hi} : body` with one bound name and constant bounds, as the
/// constraints `body[v := lo]`, …, `body[v := hi]`.
pub open spec fn unroll_forall(e: ExprV) -> Option<Seq<BodyItemV>> {
    match e {
        ExprV::Forall(vs, range, body) => if vs.len() != 1 {
            None
        } else {
            match *range {
                ExprV::Range(lo, hi) => match (const_int(*lo), const_int(*hi)) {
                    (Some(a), Some(b)) => Some(
                        Seq::new(
                            range_count(a, b),
                            |k: int| BodyItemV::Constraint(subst_expr(*body, vs[0], ExprV::Int((a + k) as i64))),
                        ),
                    ),
                    _ => None,
                },
                _ => None,
            }
        },
        _ => None,
    }
}

/// How many `∀` wrap `e` directly, one inside the other's body.
pub open spec fn forall_depth(e: ExprV) -> nat
    decreases e,
{
    match e {
        ExprV::Forall(_, _, b) => 1 + forall_depth(*b),
        _ => 0,
    }
}

pub open spec fn item_depth(item: BodyItemV) -> nat {
    match item {
        BodyItemV::Constraint(e) => forall_depth(e),
        _ => 0,
    }
}

/// Substituting a literal keeps the `∀` nesting.
pub proof fn lemma_subst_literal_depth(e: ExprV, name: Seq<char>, n: i64)
    ensures
        forall_depth(subst_expr(e, name, ExprV::Int(n))) == forall_depth(e),
    decreases e,
{
    match e {
        ExprV::Forall(vs, r, b) => {
            if !vs.contains(name) {
                lemma_subst_literal_depth(*b, name, n);
            }
        },
        _ => {},
    }
}

pub proof fn lemma_unroll_depth(e: ExprV)
    ensures
        unroll_forall(e) matches Some(items) ==> forall|k: int|
            0 <= k < items.len() ==> #[trigger] item_depth(items[k]) < forall_depth(e),
{
    if let Some(items) = unroll_forall(e) {
        if let ExprV::Forall(vs, range, body) = e {
            assert forall|k: int| 0 <= k < items.len() implies #[trigger] item_depth(items[k]) < forall_depth(e) by {
                if let ExprV::Range(lo, hi) = *range {
                    let a = const_int(*lo).unwrap();
                    lemma_subst_literal_depth(*body, vs[0], (a + k) as i64);
                }
            }
        }
    }
}

/// One body item after unrolling: a constraint that is a `∀` over constant
/// bounds becomes its instances, each unrolled in turn; anything else stays.
pub open spec fn expand_item(item: BodyItemV) -> Seq<BodyItemV>
    decreases item_depth(item) + 1, 0nat,
{
    match item {
        BodyItemV::Constraint(e) => match unroll_forall(e) {
            Some(items) => {
                proof {
                    lemma_unroll_depth(e);
                }
                expand_items(items, item_depth(item))
            },
            None => seq![item],
        },
        _ => seq![item],
    }
}

/// `expand_item` over each of `items` (all of depth below `bound`), joined.
pub open spec fn expand_items(items: Seq<BodyItemV>, bound: nat) -> Seq<BodyItemV>
    decreases bound, items.len(),
{
    if items.len() == 0 {
        Seq::empty()
    } else if item_depth(items.last()) < bound {
        expand_items(items.drop_last(), bound) + expand_item(items.last())
    } else {
        Seq::empty()
    }
}

/// A whole body with every unrollable `∀` unrolled.
pub open spec fn expand_body(items: Seq<BodyItemV>) -> Seq<BodyItemV>
    decreases items.len(),
{
    if items.len() == 0 {
        Seq::empty()
    } else {
        expand_body(items.drop_last()) + expand_item(items.last())
    }
}


/// For an expression that holds a list `xs`, whether it mentions `name` is
/// whether one of `xs` does.
pub proof fn lemma_mentions_list(e: ExprV, xs: Seq<ExprV>, name: Seq<char>)
    requires
        (e is Call && e->Call_1 == xs) || (e is SeqLit && e->SeqLit_0 == xs) || (e is SetLit && e->SetLit_0 == xs)
            || (e is Tuple && e->Tuple_0 == xs),
    ensures
        expr_mentions(e, name) == (exists|k: int| 0 <= k < xs.len() && expr_mentions(#[trigger] xs[k], name)),
{
    if exists|k: int| 0 <= k < xs.len() && expr_mentions(#[trigger] xs[k], name) {
        let k = choose|k: int| 0 <= k < xs.len() && expr_mentions(#[trigger] xs[k], name);
        assert(expr_mentions(xs[k], name));
    }
    if expr_mentions(e, name) {
        let k = choose|k: int| 0 <= k < xs.len() && expr_mentions(#[trigger] xs[k], name);
        assert(0 <= k < xs.len() && expr_mentions(xs[k], name));
    }
}

// ───────────────────────────── executable ─────────────────────────────

/// Does `e` reference an identifier named `name`?
pub fn mentions(e: &Expr, name: &String) -> (r: bool)
    ensures
        r == expr_mentions(e@, name@),
    decreases e, 0int,
{
    proof {
        lemma_list_views(*e);
    }
    match e {
        Expr::Identifier(s) => s.eq(name),
        Expr::Int(_) | Expr::Real(_) | Expr::Bool(_) | Expr::Str(_) => false,
        Expr::Binary(_, l, r) => mentions(l, name) || mentions(r, name),
        Expr::Not(x) => mentions(x, name),
        Expr::Delta(x) => mentions(x, name),
        Expr::Ternary(c, a, b) => mentions(c, name) || mentions(a, name) || mentions(b, name),
        Expr::Call(_, xs) => {
            proof {
                assert(decreases_to!(*e => e->Call_1));
            }
            proof {
                lemma_mentions_list(e@, exprs_view(xs@), name@);
            }
            mentions_any(xs, name)
        },
        Expr::SeqLit(xs) => {
            proof {
                assert(decreases_to!(*e => e->SeqLit_0));
                lemma_mentions_list(e@, exprs_view(xs@), name@);
            }
            mentions_any(xs, name)
        },
        Expr::SetLit(xs) => {
            proof {
                assert(decreases_to!(*e => e->SetLit_0));
                lemma_mentions_list(e@, exprs_view(xs@), name@);
            }
            mentions_any(xs, name)
        },
        Expr::Tuple(xs) => {
            proof {
                assert(decreases_to!(*e => e->Tuple_0));
                lemma_mentions_list(e@, exprs_view(xs@), name@);
            }
            mentions_any(xs, name)
        },
        Expr::Field(x, _) => mentions(x, name),
        Expr::Index(a, b) => mentions(a, name) || mentions(b, name),
        Expr::Cardinality(x) => mentions(x, name),
        Expr::InExpr(a, b) => mentions(a, name) || mentions(b, name),
        Expr::Range(a, b) => mentions(a, name) || mentions(b, name),
        Expr::Forall(_, r, b) => mentions(r, name) || mentions(b, name),
        Expr::Exists(_, r, b) => mentions(r, name) || mentions(b, name),
        Expr::Match(scrut, arms) => {
            if mentions(scrut, name) {
                return true;
            }
            let mut i: usize = 0;
            while i < arms.len()
                invariant
                    0 <= i <= arms.len(),
                    *e == Expr::Match(*scrut, *arms),
                    e@ == ExprV::Match(Box::new(expr_view(**scrut)), arms_view(arms@)),
                    !expr_mentions(expr_view(**scrut), name@),
                    forall|k: int| 0 <= k < i ==> !expr_mentions(#[trigger] expr_view(*arms@[k].body), name@),
                decreases arms.len() - i,
            {
                proof {
                    assert(decreases_to!(*e => e->Match_1));
                    assert(decreases_to!(e->Match_1 => arms@[i as int]));
                    assert(decreases_to!(arms@[i as int] => arms@[i as int].body));
                }
                if mentions(&arms[i].body, name) {
                    assert(arms_view(arms@)[i as int].body == expr_view(*arms@[i as int].body));
                    assert(expr_mentions(arms_view(arms@)[i as int].body, name@));
                    return true;
                }
                i += 1;
            }
            assert forall|k: int| 0 <= k < arms_view(arms@).len() implies !expr_mentions(
                #[trigger] arms_view(arms@)[k].body,
                name@,
            ) by {
                assert(arms_view(arms@)[k].body == expr_view(*arms@[k].body));
            }
            assert(!expr_mentions(e@, name@));
            false
        },
        Expr::Matches(x, _) => mentions(x, name),
    }
}

/// Does any expression of `xs` reference `name`?
fn mentions_any(xs: &Vec<Expr>, name: &String) -> (r: bool)
    ensures
        r == (exists|k: int| 0 <= k < exprs_view(xs@).len() && expr_mentions(#[trigger] exprs_view(xs@)[k], name@)),
    decreases xs, 1int,
{
    let mut i: usize = 0;
    while i < xs.len()
        invariant
            0 <= i <= xs.len(),
            forall|k: int| 0 <= k < i ==> !expr_mentions(#[trigger] expr_view(xs@[k]), name@),
        decreases xs.len() - i,
    {
        proof {
            assert(decreases_to!(*xs => xs@[i as int]));
        }
        if mentions(&xs[i], name) {
            assert(exprs_view(xs@)[i as int] == expr_view(xs@[i as int]));
            return true;
        }
        i += 1;
    }
    assert forall|k: int| 0 <= k < exprs_view(xs@).len() implies !expr_mentions(
        #[trigger] exprs_view(xs@)[k],
        name@,
    ) by {
        assert(exprs_view(xs@)[k] == expr_view(xs@[k]));
    }
    false
}

/// `substitute` over each expression of `xs`.
fn substitute_all(xs: &Vec<Expr>, name: &String, value: &Expr) -> (r: Vec<Expr>)
    ensures
        r.len() == xs.len(),
        forall|k: int| 0 <= k < xs.len() ==> #[trigger] expr_view(r@[k]) == subst_expr(expr_view(xs@[k]), name@, value@),
    decreases xs, 1int,
{
    let mut out: Vec<Expr> = Vec::new();
    let mut i: usize = 0;
    while i < xs.len()
        invariant
            0 <= i <= xs.len(),
            out.len() == i,
            forall|k: int| 0 <= k < i ==> #[trigger] expr_view(out@[k]) == subst_expr(expr_view(xs@[k]), name@, value@),
        decreases xs.len() - i,
    {
        proof {
            assert(decreases_to!(*xs => xs@[i as int]));
        }
        out.push(substitute_in(&xs[i], name, value));
        i += 1;
    }
    out
}

/// `e` with `name` replaced by `value`; see `subst_expr`.
fn substitute_in(e: &Expr, name: &String, value: &Expr) -> (r: Expr)
    ensures
        r@ == subst_expr(e@, name@, value@),
    decreases e, 0int,
{
    proof {
        lemma_list_views(*e);
    }
    match e {
        Expr::Identifier(s) => {
            if *s == *name {
                clone_expr(value)
            } else {
                clone_expr(e)
            }
        },
        Expr::Int(_) | Expr::Real(_) | Expr::Bool(_) | Expr::Str(_) => clone_expr(e),
        Expr::Binary(op, l, r) => Expr::Binary(
            clone_binop(op),
            Box::new(substitute_in(l, name, value)),
            Box::new(substitute_in(r, name, value)),
        ),
        Expr::Not(x) => Expr::Not(Box::new(substitute_in(x, name, value))),
        Expr::Delta(x) => Expr::Delta(Box::new(substitute_in(x, name, value))),
        Expr::Ternary(c, a, b) => Expr::Ternary(
            Box::new(substitute_in(c, name, value)),
            Box::new(substitute_in(a, name, value)),
            Box::new(substitute_in(b, name, value)),
        ),
        Expr::Call(n, xs) => {
            proof {
                assert(decreases_to!(*e => *xs));
            }
            let out = substitute_all(xs, name, value);
            let r = Expr::Call(n.clone(), out);
            proof {
                lemma_list_views(r);
                assert(exprs_view(out@) =~= subst_expr(e@, name@, value@)->Call_1);
            }
            r
        },
        Expr::SeqLit(xs) => {
            proof {
                assert(decreases_to!(*e => *xs));
            }
            let out = substitute_all(xs, name, value);
            let r = Expr::SeqLit(out);
            proof {
                lemma_list_views(r);
                assert(exprs_view(out@) =~= subst_expr(e@, name@, value@)->SeqLit_0);
            }
            r
        },
        Expr::SetLit(xs) => {
            proof {
                assert(decreases_to!(*e => *xs));
            }
            let out = substitute_all(xs, name, value);
            let r = Expr::SetLit(out);
            proof {
                lemma_list_views(r);
                assert(exprs_view(out@) =~= subst_expr(e@, name@, value@)->SetLit_0);
            }
            r
        },
        Expr::Tuple(xs) => {
            proof {
                assert(decreases_to!(*e => *xs));
            }
            let out = substitute_all(xs, name, value);
            let r = Expr::Tuple(out);
            proof {
                lemma_list_views(r);
                assert(exprs_view(out@) =~= subst_expr(e@, name@, value@)->Tuple_0);
            }
            r
        },
        Expr::Field(x, f) => Expr::Field(Box::new(substitute_in(x, name, value)), f.clone()),
        Expr::Index(a, b) => Expr::Index(
            Box::new(substitute_in(a, name, value)),
            Box::new(substitute_in(b, name, value)),
        ),
        Expr::Cardinality(x) => Expr::Cardinality(Box::new(substitute_in(x, name, value))),
        Expr::InExpr(a, b) => Expr::InExpr(
            Box::new(substitute_in(a, name, value)),
            Box::new(substitute_in(b, name, value)),
        ),
        Expr::Range(a, b) => Expr::Range(
            Box::new(substitute_in(a, name, value)),
            Box::new(substitute_in(b, name, value)),
        ),
        Expr::Forall(vs, r, b) => {
            if strings_contain(vs, name) {
                clone_expr(e)
            } else {
                Expr::Forall(
                    clone_strings(vs),
                    Box::new(substitute_in(r, name, value)),
                    Box::new(substitute_in(b, name, value)),
                )
            }
        },
        Expr::Exists(vs, r, b) => {
            if strings_contain(vs, name) {
                clone_expr(e)
            } else {
                Expr::Exists(
                    clone_strings(vs),
                    Box::new(substitute_in(r, name, value)),
                    Box::new(substitute_in(b, name, value)),
                )
            }
        },
        Expr::Match(scrut, arms) => {
            let s2 = substitute_in(scrut, name, value);
            let mut out: Vec<MatchArm> = Vec::new();
            let mut i: usize = 0;
            while i < arms.len()
                invariant
                    0 <= i <= arms.len(),
                    *e == Expr::Match(*scrut, *arms),
                    out.len() == i,
                    forall|k: int|
                        0 <= k < i ==> pattern_view(#[trigger] out@[k].pattern) == pattern_view(arms@[k].pattern)
                            && expr_view(*out@[k].body) == subst_expr(expr_view(*arms@[k].body), name@, value@),
                decreases arms.len() - i,
            {
                proof {
                    assert(decreases_to!(*e => e->Match_1));
                    assert(decreases_to!(e->Match_1 => arms@[i as int]));
                    assert(decreases_to!(arms@[i as int] => arms@[i as int].body));
                }
                let b = substitute_in(&arms[i].body, name, value);
                out.push(MatchArm { pattern: clone_pattern(&arms[i].pattern), body: Box::new(b) });
                i += 1;
            }
            let r = Expr::Match(Box::new(s2), out);
            proof {
                lemma_list_views(r);
                assert(arms_view(out@) =~= subst_expr(e@, name@, value@)->Match_1);
            }
            r
        },
        Expr::Matches(x, p) => Expr::Matches(Box::new(substitute_in(x, name, value)), clone_pattern(p)),
    }
}

/// Substitute every `Expr::Identifier(name)` in `e` with `value`; a
/// quantifier that binds `name` is copied unchanged.
pub fn substitute(e: &Expr, name: &str, value: &Expr) -> (r: Expr)
    ensures
        r@ == subst_expr(e@, name@, value@),
{
    let n = name.to_owned();
    substitute_in(e, &n, value)
}

/// The constant value of an integer literal or of `+ - *` over such;
/// `None` where an intermediate result leaves `i64`.
fn try_eval_const_int(e: &Expr) -> (r: Option<i64>)
    ensures
        r == const_int(e@),
    decreases e,
{
    match e {
        Expr::Int(n) => Some(*n),
        Expr::Binary(op, l, r) => {
            let a = match try_eval_const_int(l) {
                Some(a) => a,
                None => return None,
            };
            let b = match try_eval_const_int(r) {
                Some(b) => b,
                None => return None,
            };
            match op {
                BinOp::Add => a.checked_add(b),
                BinOp::Sub => a.checked_sub(b),
                BinOp::Mul => a.checked_mul(b),
                _ => None,
            }
        },
        _ => None,
    }
}

/// `∀ v ∈ {lo..hi} : body` with constant bounds, as the constraints
/// `body[v := lo]` … `body[v := hi]`; see `unroll_forall`.
pub(crate) fn try_unroll_forall_range(e: &Expr) -> (r: Option<Vec<BodyItem>>)
    ensures
        match (r, unroll_forall(e@)) {
            (Some(v), Some(items)) => items_view(v@) == items,
            (None, None) => true,
            _ => false,
        },
{
    match e {
        Expr::Forall(vars, range, body) => {
            proof {
                reveal_with_fuel(expr_view, 2);
            }
            if vars.len() != 1 {
                return None;
            }
            match &**range {
                Expr::Range(lo, hi) => {
                    let lo_v = match try_eval_const_int(lo) {
                        Some(v) => v,
                        None => return None,
                    };
                    let hi_v = match try_eval_const_int(hi) {
                        Some(v) => v,
                        None => return None,
                    };
                    let var = &vars[0];
                    let ghost bv = expr_view(**body);
                    assert(strs_view(vars@)[0] == var@);
                    let mut out: Vec<BodyItem> = Vec::new();
                    let mut k: i128 = lo_v as i128;
                    while k <= hi_v as i128
                        invariant
                            lo_v <= k <= hi_v as i128 + 1 || (hi_v < lo_v && k == lo_v),
                            out.len() == k - lo_v,
                            bv == expr_view(**body),
                            forall|j: int|
                                0 <= j < out.len() ==> #[trigger] body_item_view(out@[j])
                                    == BodyItemV::Constraint(subst_expr(bv, var@, ExprV::Int((lo_v + j) as i64))),
                        decreases hi_v as i128 + 1 - k,
                    {
                        let inst = substitute_in(body, var, &Expr::Int(k as i64));
                        out.push(BodyItem::Constraint(inst));
                        k += 1;
                    }
                    assert(items_view(out@) =~= unroll_forall(e@).unwrap());
                    Some(out)
                },
                _ => None,
            }
        },
        _ => None,
    }
}

/// Append the unrolled form of `item` to `out`; see `expand_item`.
fn expand_item_into(item: &BodyItem, out: &mut Vec<BodyItem>)
    ensures
        items_view(final(out)@) == items_view(old(out)@) + expand_item(item@),
    decreases item_depth(item@),
{
    if let BodyItem::Constraint(e) = item {
        if let Some(unrolled) = try_unroll_forall_range(e) {
            let ghost items = items_view(unrolled@);
            let ghost bound = item_depth(item@);
            proof {
                lemma_unroll_depth(e@);
            }
            let mut i: usize = 0;
            while i < unrolled.len()
                invariant
                    0 <= i <= unrolled.len(),
                    items == items_view(unrolled@),
                    items == unroll_forall(e@).unwrap(),
                    bound == item_depth(item@),
                    item@ == BodyItemV::Constraint(e@),
                    forall|k: int| 0 <= k < items.len() ==> #[trigger] item_depth(items[k]) < bound,
                    items_view(out@) == items_view(old(out)@) + expand_items(items.take(i as int), bound),
                decreases unrolled.len() - i,
            {
                assert(items[i as int] == body_item_view(unrolled@[i as int]));
                expand_item_into(&unrolled[i], out);
                assert(items.take(i + 1).drop_last() =~= items.take(i as int));
                assert(items_view(out@) =~= items_view(old(out)@) + expand_items(items.take(i + 1), bound));
                i += 1;
            }
            assert(items.take(items.len() as int) =~= items);
            return;
        }
    }
    out.push(clone_body_item(item));
    assert(items_view(out@) =~= items_view(old(out)@) + seq![item@]);
}

/// Expand a body by unrolling every `∀ i ∈ {lo..hi}` constraint with
/// constant bounds into its instances; other items pass through.
pub fn expand_foralls(body: &Vec<BodyItem>) -> (r: Vec<BodyItem>)
    ensures
        items_view(r@) == expand_body(items_view(body@)),
{
    let mut out: Vec<BodyItem> = Vec::new();
    let mut i: usize = 0;
    while i < body.len()
        invariant
            0 <= i <= body.len(),
            items_view(out@) == expand_body(items_view(body@).take(i as int)),
        decreases body.len() - i,
    {
        expand_item_into(&body[i], &mut out);
        assert(items_view(body@).take(i + 1).drop_last() =~= items_view(body@).take(i as int));
        assert(items_view(body@)[i as int] == body_item_view(body@[i as int]));
        i += 1;
    }
    assert(items_view(body@).take(body.len() as int) =~= items_view(body@));
    out
}

} // verus!
