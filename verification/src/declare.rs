//! Analyses run over a schema body before it is encoded: which names an
//! expression refers to, which integers the body pins to constants, and how
//! long its sequences are.
use vstd::prelude::*;
use crate::ast::{body_item_view, exprs_view, expr_view, items_view, lemma_list_views, strs_view, BinOp, BinOpV, BodyItem, BodyItemV, Expr, ExprV};
use crate::value::{record_view, Value, ValueV};
use crate::ast::{SchemaDecl, SchemaDeclV};
use crate::program::{find_schema, lookup_schema, schemas_view};
use crate::lower::first_segment;
use crate::ast::lemma_schema_lists;
use crate::text::{chars_to_string, concat_str, str_to_chars};

verus! {

// ───────────────────────────── referenced names ─────────────────────────────

/// The names `e` refers to, in pre-order: identifiers, met through operators,
/// ranges, indexing, field access, membership, literals, quantifiers and call
/// arguments. The name under a `#` is listed once more. Ternaries, tuples,
/// matches and deltas are not looked into.
pub open spec fn referenced(e: ExprV) -> Seq<Seq<char>>
    decreases e, 0nat, 0nat,
{
    match e {
        ExprV::Identifier(n) => seq![n],
        ExprV::Cardinality(x) => match *x {
            ExprV::Identifier(n) => seq![n] + referenced(*x),
            _ => referenced(*x),
        },
        ExprV::Binary(_, l, r) => referenced(*l) + referenced(*r),
        ExprV::Not(x) => referenced(*x),
        ExprV::Range(l, r) => referenced(*l) + referenced(*r),
        ExprV::Index(l, r) => referenced(*l) + referenced(*r),
        ExprV::Field(x, _) => referenced(*x),
        ExprV::InExpr(l, r) => referenced(*l) + referenced(*r),
        ExprV::SetLit(xs) => referenced_list(xs, xs.len()),
        ExprV::SeqLit(xs) => referenced_list(xs, xs.len()),
        ExprV::Forall(_, r, b) => referenced(*r) + referenced(*b),
        ExprV::Exists(_, r, b) => referenced(*r) + referenced(*b),
        ExprV::Call(_, xs) => referenced_list(xs, xs.len()),
        _ => Seq::empty(),
    }
}

/// The names the first `n` of `xs` refer to, in order.
pub open spec fn referenced_list(xs: Seq<ExprV>, n: nat) -> Seq<Seq<char>>
    decreases xs, 1nat, n,
{
    if n == 0 || n > xs.len() {
        Seq::empty()
    } else {
        referenced_list(xs, (n - 1) as nat) + referenced(xs[n - 1])
    }
}

fn push_ref(out: &mut Vec<String>, s: &String)
    ensures
        strs_view(final(out)@) == strs_view(old(out)@).push(s@),
{
    out.push(s.clone());
    assert(strs_view(out@) =~= strs_view(old(out)@).push(s@));
}

fn collect_referenced_list(xs: &Vec<Expr>, out: &mut Vec<String>)
    ensures
        strs_view(final(out)@) == strs_view(old(out)@) + referenced_list(exprs_view(xs@), xs.len() as nat),
    decreases xs, 1int,
{
    let ghost xv = exprs_view(xs@);
    let ghost start = strs_view(out@);
    let mut i: usize = 0;
    assert(start + Seq::<Seq<char>>::empty() =~= start);
    while i < xs.len()
        invariant
            0 <= i <= xs.len(),
            xv == exprs_view(xs@),
            strs_view(out@) == start + referenced_list(xv, i as nat),
        decreases xs.len() - i,
    {
        proof {
            assert(decreases_to!(*xs => xs@[i as int]));
        }
        collect_referenced_names(&xs[i], out);
        assert(strs_view(out@) =~= start + referenced_list(xv, (i + 1) as nat));
        i += 1;
    }
}

/// Adds to `out` the names `e` refers to (see `referenced`); `out` is read
/// as a set, so a name may be listed more than once.
pub fn collect_referenced_names(e: &Expr, out: &mut Vec<String>)
    ensures
        strs_view(final(out)@) == strs_view(old(out)@) + referenced(expr_view(*e)),
    decreases e, 0int,
{
    proof {
        lemma_list_views(*e);
    }
    let ghost start = strs_view(out@);
    match e {
        Expr::Identifier(n) => {
            push_ref(out, n);
            assert(strs_view(out@) =~= start + seq![n@]);
        },
        Expr::Cardinality(inner) => {
            if let Expr::Identifier(name) = &**inner {
                push_ref(out, name);
            }
            collect_referenced_names(inner, out);
            assert(strs_view(out@) =~= start + referenced(expr_view(*e)));
        },
        Expr::Binary(_, l, r) | Expr::Range(l, r) | Expr::Index(l, r) | Expr::InExpr(l, r) => {
            collect_referenced_names(l, out);
            collect_referenced_names(r, out);
            assert(strs_view(out@) =~= start + (referenced(expr_view(**l)) + referenced(expr_view(**r))));
        },
        Expr::Forall(_, l, r) | Expr::Exists(_, l, r) => {
            collect_referenced_names(l, out);
            collect_referenced_names(r, out);
            assert(strs_view(out@) =~= start + (referenced(expr_view(**l)) + referenced(expr_view(**r))));
        },
        Expr::Not(x) => {
            collect_referenced_names(x, out);
        },
        Expr::Field(x, _) => {
            collect_referenced_names(x, out);
        },
        Expr::SetLit(xs) => {
            proof {
                assert(decreases_to!(*e => *xs));
            }
            collect_referenced_list(xs, out);
        },
        Expr::SeqLit(xs) => {
            proof {
                assert(decreases_to!(*e => *xs));
            }
            collect_referenced_list(xs, out);
        },
        Expr::Call(_, xs) => {
            proof {
                assert(decreases_to!(*e => *xs));
            }
            collect_referenced_list(xs, out);
        },
        _ => {
            assert(strs_view(out@) =~= start + referenced(expr_view(*e)));
        },
    }
}


// ───────────────────────────── integer maps ─────────────────────────────

pub open spec fn ints_view(v: Seq<(String, i64)>) -> Seq<(Seq<char>, i64)> {
    Seq::new(v.len(), |i: int| (v[i].0@, v[i].1))
}

/// The value bound to `k`: the first binding.
pub open spec fn im_get(m: Seq<(Seq<char>, i64)>, k: Seq<char>) -> Option<i64>
    decreases m.len(),
{
    if m.len() == 0 {
        None
    } else if m[0].0 == k {
        Some(m[0].1)
    } else {
        im_get(m.drop_first(), k)
    }
}

pub open spec fn im_has(m: Seq<(Seq<char>, i64)>, k: Seq<char>) -> bool {
    exists|i: int| 0 <= i < m.len() && #[trigger] m[i].0 == k
}

proof fn lemma_im_get(m: Seq<(Seq<char>, i64)>, k: Seq<char>)
    ensures
        im_get(m, k) is Some <==> im_has(m, k),
        im_get(m, k) matches Some(v) ==> exists|i: int| 0 <= i < m.len() && m[i] == (k, v) && forall|j: int| 0 <= j < i ==> m[j].0 != k,
        !im_has(m, k) ==> forall|j: int| 0 <= j < m.len() ==> m[j].0 != k,
    decreases m.len(),
{
    if m.len() > 0 {
        lemma_im_get(m.drop_first(), k);
        if m[0].0 != k {
            if im_has(m, k) {
                let i = choose|i: int| 0 <= i < m.len() && #[trigger] m[i].0 == k;
                assert(m.drop_first()[i - 1].0 == k);
            }
            if im_has(m.drop_first(), k) {
                let i = choose|i: int| 0 <= i < m.drop_first().len() && #[trigger] m.drop_first()[i].0 == k;
                assert(m[i + 1].0 == k);
            }
            if let Some(v) = im_get(m, k) {
                let i = choose|i: int| 0 <= i < m.drop_first().len() && m.drop_first()[i] == (k, v) && forall|j: int| 0 <= j < i ==> m.drop_first()[j].0 != k;
                assert(m[i + 1] == (k, v));
                assert forall|j: int| 0 <= j < i + 1 implies m[j].0 != k by {
                    if j > 0 {
                        assert(m[j] == m.drop_first()[j - 1]);
                    }
                }
            }
        } else {
            assert(m[0] == (k, m[0].1));
        }
        assert forall|j: int| 0 <= j < m.len() && !im_has(m, k) implies m[j].0 != k by {}
    }
}

fn im_find(m: &Vec<(String, i64)>, k: &String) -> (r: Option<i64>)
    ensures
        r == im_get(ints_view(m@), k@),
{
    let ghost mv = ints_view(m@);
    let mut i: usize = 0;
    assert(mv.skip(0) =~= mv);
    while i < m.len()
        invariant
            0 <= i <= m.len(),
            mv == ints_view(m@),
            im_get(mv, k@) == im_get(mv.skip(i as int), k@),
        decreases m.len() - i,
    {
        assert(mv.skip(i as int)[0] == (m@[i as int].0@, m@[i as int].1));
        assert(mv.skip(i as int).drop_first() =~= mv.skip(i + 1));
        if m[i].0 == *k {
            return Some(m[i].1);
        }
        i += 1;
    }
    None
}

// ───────────────────────────── constant folding ─────────────────────────────

/// The value of an integer expression over pinned names and known sequence
/// lengths (`#s`): literals, names, and `+ - * /` where no step overflows;
/// `/` is Euclidean (the remainder is never negative), as the solver divides.
pub open spec fn pure_int(e: ExprV, pinned: Seq<(Seq<char>, i64)>, lens: Seq<(Seq<char>, i64)>) -> Option<i64>
    decreases e,
{
    match e {
        ExprV::Int(n) => Some(n),
        ExprV::Identifier(n) => im_get(pinned, n),
        ExprV::Cardinality(x) => match *x {
            ExprV::Identifier(n) => im_get(lens, n),
            _ => None,
        },
        ExprV::Binary(op, l, r) => match (pure_int(*l, pinned, lens), pure_int(*r, pinned, lens)) {
            (Some(a), Some(b)) => match op {
                BinOpV::Add => a.checked_add(b),
                BinOpV::Sub => a.checked_sub(b),
                BinOpV::Mul => a.checked_mul(b),
                BinOpV::Div => if b == 0 {
                    None
                } else {
                    a.checked_div_euclid(b)
                },
                _ => None,
            },
            _ => None,
        },
        _ => None,
    }
}

/// Law: folding `l op r`, where both sides fold (to `a` and `b`), gives
/// the mathematical sum, difference (left minus right) and product when it
/// fits in `i64` and nothing otherwise; a quotient `q` with a remainder
/// `a - q * b` in `[0, |b|)` (Euclidean division), nothing for a zero
/// divisor, and a quotient whenever it fits.
pub proof fn law_fold_arithmetic(l: ExprV, r: ExprV, pinned: Seq<(Seq<char>, i64)>, lens: Seq<(Seq<char>, i64)>, a: i64, b: i64)
    requires
        pure_int(l, pinned, lens) == Some(a),
        pure_int(r, pinned, lens) == Some(b),
    ensures
        pure_int(ExprV::Binary(BinOpV::Add, Box::new(l), Box::new(r)), pinned, lens) == (if i64::MIN <= a + b <= i64::MAX {
            Some((a + b) as i64)
        } else {
            None
        }),
        pure_int(ExprV::Binary(BinOpV::Sub, Box::new(l), Box::new(r)), pinned, lens) == (if i64::MIN <= a - b <= i64::MAX {
            Some((a - b) as i64)
        } else {
            None
        }),
        pure_int(ExprV::Binary(BinOpV::Mul, Box::new(l), Box::new(r)), pinned, lens) == (if i64::MIN <= a * b <= i64::MAX {
            Some((a * b) as i64)
        } else {
            None
        }),
        b == 0 ==> pure_int(ExprV::Binary(BinOpV::Div, Box::new(l), Box::new(r)), pinned, lens) is None,
        b != 0 ==> match pure_int(ExprV::Binary(BinOpV::Div, Box::new(l), Box::new(r)), pinned, lens) {
            Some(q) => 0 <= a - q * b < (if b < 0 { -(b as int) } else { b as int }),
            None => a == i64::MIN && b == -1,
        },
{
    if b != 0 {
        lemma_euclid(a as int, b as int);
    }
}

/// Euclidean division in spec: `a == (a / b) * b + r` with `0 <= r < |b|`,
/// and the quotient leaves `i64` only for `i64::MIN / -1`.
pub proof fn lemma_euclid(a: int, b: int)
    requires
        b != 0,
        i64::MIN <= a <= i64::MAX,
        i64::MIN <= b <= i64::MAX,
    ensures
        0 <= a - (a / b) * b < (if b < 0 { -b } else { b }),
        !(i64::MIN <= a / b <= i64::MAX) ==> a == i64::MIN && b == -1,
{
    assert(a == b * (a / b) + a % b && 0 <= a % b < (if b < 0 { -b } else { b })) by (nonlinear_arith)
        requires
            b != 0,
    ;
    assert(a - (a / b) * b == a % b) by (nonlinear_arith)
        requires
            a == b * (a / b) + a % b,
    ;
    let q = a / b;
    let m = a % b;
    if b > 0 {
        assert(i64::MIN <= q <= i64::MAX) by (nonlinear_arith)
            requires
                a == b * q + m,
                0 <= m < b,
                b >= 1,
                i64::MIN <= a <= i64::MAX,
        {
            if q > 0 {
                assert(b * q >= q);
            } else if q < 0 {
                assert(b * q <= q);
            }
        }
    } else if !(a == i64::MIN && b == -1) {
        assert(i64::MIN <= q <= i64::MAX) by (nonlinear_arith)
            requires
                a == b * q + m,
                0 <= m < -b,
                b <= -1,
                i64::MIN <= a <= i64::MAX,
                !(a == i64::MIN && b == -1),
        {
            if b == -1 {
                assert(m == 0);
                assert(q == -a);
            } else {
                if q > 0 {
                    assert(b * q <= -2 * q);
                } else if q < 0 {
                    assert(b * q >= -2 * q);
                }
            }
        }
    }
}

proof fn lemma_im_get_first(m: Seq<(Seq<char>, i64)>, k: Seq<char>, i: int)
    requires
        0 <= i < m.len(),
        m[i].0 == k,
        forall|j: int| 0 <= j < i ==> m[j].0 != k,
    ensures
        im_get(m, k) == Some(m[i].1),
    decreases i,
{
    if i > 0 {
        lemma_im_get_first(m.drop_first(), k, i - 1);
    }
}

proof fn lemma_im_get_absent(m: Seq<(Seq<char>, i64)>, k: Seq<char>)
    requires
        forall|j: int| 0 <= j < m.len() ==> m[j].0 != k,
    ensures
        im_get(m, k) is None,
    decreases m.len(),
{
    if m.len() > 0 {
        lemma_im_get_absent(m.drop_first(), k);
    }
}

/// Law: a literal folds to itself; a name folds to the value of its first
/// pin, and `#s` to the first known length of `s`; a name with no pin, and
/// a sequence of unknown length, fold to nothing.
pub proof fn law_fold_leaves(n: i64, x: Seq<char>, pinned: Seq<(Seq<char>, i64)>, lens: Seq<(Seq<char>, i64)>, i: int)
    ensures
        pure_int(ExprV::Int(n), pinned, lens) == Some(n),
        (0 <= i < pinned.len() && pinned[i].0 == x && forall|j: int| 0 <= j < i ==> pinned[j].0 != x)
            ==> pure_int(ExprV::Identifier(x), pinned, lens) == Some(pinned[i].1),
        (forall|j: int| 0 <= j < pinned.len() ==> pinned[j].0 != x) ==> pure_int(ExprV::Identifier(x), pinned, lens) is None,
        (0 <= i < lens.len() && lens[i].0 == x && forall|j: int| 0 <= j < i ==> lens[j].0 != x)
            ==> pure_int(ExprV::Cardinality(Box::new(ExprV::Identifier(x))), pinned, lens) == Some(lens[i].1),
        (forall|j: int| 0 <= j < lens.len() ==> lens[j].0 != x)
            ==> pure_int(ExprV::Cardinality(Box::new(ExprV::Identifier(x))), pinned, lens) is None,
{
    if 0 <= i < pinned.len() && pinned[i].0 == x && forall|j: int| 0 <= j < i ==> pinned[j].0 != x {
        lemma_im_get_first(pinned, x, i);
    }
    if forall|j: int| 0 <= j < pinned.len() ==> pinned[j].0 != x {
        lemma_im_get_absent(pinned, x);
    }
    if 0 <= i < lens.len() && lens[i].0 == x && forall|j: int| 0 <= j < i ==> lens[j].0 != x {
        lemma_im_get_first(lens, x, i);
    }
    if forall|j: int| 0 <= j < lens.len() ==> lens[j].0 != x {
        lemma_im_get_absent(lens, x);
    }
}

/// Folds `e` to an integer; see `pure_int`.
pub fn eval_pure_int(e: &Expr, pinned: &Vec<(String, i64)>, seq_lengths: &Vec<(String, i64)>) -> (r: Option<i64>)
    ensures
        r == pure_int(e@, ints_view(pinned@), ints_view(seq_lengths@)),
    decreases e,
{
    match e {
        Expr::Int(n) => Some(*n),
        Expr::Identifier(n) => im_find(pinned, n),
        Expr::Cardinality(x) => match &**x {
            Expr::Identifier(n) => {
                proof {
                    reveal_with_fuel(expr_view, 2);
                }
                im_find(seq_lengths, n)
            },
            _ => {
                proof {
                    reveal_with_fuel(expr_view, 2);
                    assert(!(expr_view(**x) is Identifier));
                }
                None
            },
        },
        Expr::Binary(op, l, r) => {
            let a = match eval_pure_int(l, pinned, seq_lengths) {
                Some(a) => a,
                None => {
                    return None;
                },
            };
            let b = match eval_pure_int(r, pinned, seq_lengths) {
                Some(b) => b,
                None => {
                    return None;
                },
            };
            let r = match op {
                BinOp::Add => a.checked_add(b),
                BinOp::Sub => a.checked_sub(b),
                BinOp::Mul => a.checked_mul(b),
                BinOp::Div => if b == 0 {
                    None
                } else {
                    a.checked_div_euclid(b)
                },
                _ => None,
            };
            r
        },
        _ => None,
    }
}


// ───────────────────────────── pinned integers ─────────────────────────────

/// The integer values among the given ones.
pub open spec fn given_ints(g: Seq<(Seq<char>, ValueV)>) -> Seq<(Seq<char>, i64)>
    decreases g.len(),
{
    if g.len() == 0 {
        Seq::empty()
    } else {
        let prev = given_ints(g.drop_last());
        match g.last().1 {
            ValueV::Int(n) => prev.push((g.last().0, n)),
            _ => prev,
        }
    }
}

/// `a = b` read as a definition of `a`: a name not yet pinned is pinned to
/// the value of `b`, if `b` folds to one.
pub open spec fn try_pin(a: ExprV, b: ExprV, p: Seq<(Seq<char>, i64)>, lens: Seq<(Seq<char>, i64)>) -> Seq<(Seq<char>, i64)> {
    match a {
        ExprV::Identifier(n) => if im_has(p, n) {
            p
        } else {
            match pure_int(b, p, lens) {
                Some(v) => p.push((n, v)),
                None => p,
            }
        },
        _ => p,
    }
}

/// An equality constraint tried both ways, left side first.
pub open spec fn pin_item(item: BodyItemV, p: Seq<(Seq<char>, i64)>, lens: Seq<(Seq<char>, i64)>) -> Seq<(Seq<char>, i64)> {
    match item {
        BodyItemV::Constraint(ExprV::Binary(BinOpV::Eq, l, r)) => try_pin(*r, *l, try_pin(*l, *r, p, lens), lens),
        _ => p,
    }
}

/// One pass over the first `n` items.
pub open spec fn pin_pass(items: Seq<BodyItemV>, n: nat, p: Seq<(Seq<char>, i64)>, lens: Seq<(Seq<char>, i64)>) -> Seq<(Seq<char>, i64)>
    decreases n,
{
    if n == 0 || n > items.len() {
        p
    } else {
        pin_item(items[n - 1], pin_pass(items, (n - 1) as nat, p, lens), lens)
    }
}

/// `k` passes over the whole body.
pub open spec fn pin_rounds(items: Seq<BodyItemV>, p: Seq<(Seq<char>, i64)>, lens: Seq<(Seq<char>, i64)>, k: nat) -> Seq<(Seq<char>, i64)>
    decreases k,
{
    if k == 0 {
        p
    } else {
        pin_pass(items, items.len(), pin_rounds(items, p, lens, (k - 1) as nat), lens)
    }
}

/// `x` is a side of an equality constraint of `item`.
pub open spec fn eq_side(item: BodyItemV, x: Seq<char>) -> bool {
    match item {
        BodyItemV::Constraint(ExprV::Binary(BinOpV::Eq, l, r)) => *l == ExprV::Identifier(x) || *r == ExprV::Identifier(x),
        _ => false,
    }
}

pub open spec fn unpinned_side(e: ExprV, p: Seq<(Seq<char>, i64)>) -> nat {
    match e {
        ExprV::Identifier(n) => if im_has(p, n) { 0 } else { 1 },
        _ => 0,
    }
}

/// The sides of the equality constraints among the first `n` items that
/// are names not yet pinned: what a pass can still pin.
pub open spec fn unpinned(items: Seq<BodyItemV>, n: nat, p: Seq<(Seq<char>, i64)>) -> nat
    decreases n,
{
    if n == 0 || n > items.len() {
        0
    } else {
        unpinned(items, (n - 1) as nat, p) + match items[n - 1] {
            BodyItemV::Constraint(ExprV::Binary(BinOpV::Eq, l, r)) => unpinned_side(*l, p) + unpinned_side(*r, p),
            _ => 0,
        }
    }
}

proof fn lemma_prefix_has(p: Seq<(Seq<char>, i64)>, q: Seq<(Seq<char>, i64)>, k: Seq<char>)
    requires
        p.len() <= q.len(),
        q.take(p.len() as int) == p,
        im_has(p, k),
    ensures
        im_has(q, k),
{
    let i = choose|i: int| 0 <= i < p.len() && #[trigger] p[i].0 == k;
    assert(q[i] == q.take(p.len() as int)[i]);
}

proof fn lemma_pin_pass_ext(items: Seq<BodyItemV>, n: nat, p: Seq<(Seq<char>, i64)>, lens: Seq<(Seq<char>, i64)>)
    requires
        n <= items.len(),
    ensures
        pin_pass(items, n, p, lens).len() >= p.len(),
        pin_pass(items, n, p, lens).take(p.len() as int) == p,
        forall|j: int|
            p.len() <= j < pin_pass(items, n, p, lens).len() ==> !im_has(p, #[trigger] pin_pass(items, n, p, lens)[j].0)
                && exists|i: int| 0 <= i < n && eq_side(#[trigger] items[i], pin_pass(items, n, p, lens)[j].0),
    decreases n,
{
    if n > 0 {
        lemma_pin_pass_ext(items, (n - 1) as nat, p, lens);
        let q0 = pin_pass(items, (n - 1) as nat, p, lens);
        let q = pin_pass(items, n, p, lens);
        assert(q == pin_item(items[n - 1], q0, lens));
        if let BodyItemV::Constraint(ExprV::Binary(BinOpV::Eq, l, r)) = items[n - 1] {
            let q1 = try_pin(*l, *r, q0, lens);
            assert(q1.len() >= q0.len() && q1.take(q0.len() as int) =~= q0);
            assert(q.len() >= q1.len() && q.take(q1.len() as int) =~= q1);
            assert(q.take(p.len() as int) =~= p) by {
                assert(q.take(p.len() as int) =~= q1.take(p.len() as int));
                assert(q1.take(p.len() as int) =~= q0.take(p.len() as int));
            }
            assert forall|j: int| p.len() <= j < q.len() implies !im_has(p, #[trigger] q[j].0)
                && exists|i: int| 0 <= i < n && eq_side(#[trigger] items[i], q[j].0) by {
                if j < q0.len() {
                    assert(q[j] == q1[j] && q1[j] == q0[j]);
                    let i = choose|i: int| 0 <= i < n - 1 && eq_side(#[trigger] items[i], q0[j].0);
                    assert(eq_side(items[i], q[j].0));
                } else {
                    assert(eq_side(items[n - 1], q[j].0));
                    if j < q1.len() {
                        assert(q[j] == q1[j]);
                        assert(!im_has(q0, q1[j].0));
                    } else {
                        assert(!im_has(q1, q[j].0));
                        if im_has(q0, q[j].0) {
                            lemma_prefix_has(q0, q1, q[j].0);
                        }
                    }
                    if im_has(p, q[j].0) {
                        lemma_prefix_has(p, q0, q[j].0);
                    }
                }
            }
        }
    } else {
        assert(p.take(p.len() as int) =~= p);
    }
}

proof fn lemma_unpinned_mono(items: Seq<BodyItemV>, n: nat, p: Seq<(Seq<char>, i64)>, q: Seq<(Seq<char>, i64)>, x: Seq<char>)
    requires
        n <= items.len(),
        forall|k: Seq<char>| im_has(p, k) ==> im_has(q, k),
    ensures
        unpinned(items, n, q) <= unpinned(items, n, p),
        !im_has(p, x) && im_has(q, x) && (exists|i: int| 0 <= i < n && eq_side(#[trigger] items[i], x)) ==> unpinned(items, n, q)
            < unpinned(items, n, p),
    decreases n,
{
    if n > 0 {
        lemma_unpinned_mono(items, (n - 1) as nat, p, q, x);
        if !im_has(p, x) && im_has(q, x) && (exists|i: int| 0 <= i < n && eq_side(#[trigger] items[i], x)) {
            let i = choose|i: int| 0 <= i < n && eq_side(#[trigger] items[i], x);
            if i == n - 1 {
            } else {
                assert(exists|i: int| 0 <= i < n - 1 && eq_side(#[trigger] items[i], x));
            }
        }
    }
}

fn im_contains(m: &Vec<(String, i64)>, k: &String) -> (r: bool)
    ensures
        r == im_has(ints_view(m@), k@),
{
    proof {
        lemma_im_get(ints_view(m@), k@);
    }
    im_find(m, k).is_some()
}

fn try_pin_of(a: &Expr, b: &Expr, pinned: &mut Vec<(String, i64)>, lens: &Vec<(String, i64)>)
    ensures
        ints_view(final(pinned)@) == try_pin(a@, b@, ints_view(old(pinned)@), ints_view(lens@)),
{
    if let Expr::Identifier(name) = a {
        if !im_contains(pinned, name) {
            if let Some(v) = eval_pure_int(b, pinned, lens) {
                let ghost prev = ints_view(pinned@);
                pinned.push((name.clone(), v));
                assert(ints_view(pinned@) =~= prev.push((name@, v)));
            }
        }
    }
}

fn pin_pass_of(body: &Vec<BodyItem>, pinned: &mut Vec<(String, i64)>, lens: &Vec<(String, i64)>)
    ensures
        ints_view(final(pinned)@) == pin_pass(items_view(body@), body.len() as nat, ints_view(old(pinned)@), ints_view(lens@)),
{
    let ghost bv = items_view(body@);
    let ghost p0 = ints_view(pinned@);
    let mut i: usize = 0;
    while i < body.len()
        invariant
            0 <= i <= body.len(),
            bv == items_view(body@),
            ints_view(pinned@) == pin_pass(bv, i as nat, p0, ints_view(lens@)),
        decreases body.len() - i,
    {
        assert(bv[i as int] == body_item_view(body@[i as int]));
        if let BodyItem::Constraint(Expr::Binary(BinOp::Eq, l, r)) = &body[i] {
            try_pin_of(l, r, pinned, lens);
            try_pin_of(r, l, pinned, lens);
        }
        i += 1;
    }
}

fn given_ints_of(given: &Vec<(String, Value)>) -> (r: Vec<(String, i64)>)
    ensures
        ints_view(r@) == given_ints(record_view(given@)),
{
    let ghost gv = record_view(given@);
    let mut out: Vec<(String, i64)> = Vec::new();
    let mut i: usize = 0;
    assert(ints_view(out@) =~= given_ints(gv.take(0)));
    while i < given.len()
        invariant
            0 <= i <= given.len(),
            gv == record_view(given@),
            ints_view(out@) == given_ints(gv.take(i as int)),
        decreases given.len() - i,
    {
        assert(gv.take(i + 1).drop_last() =~= gv.take(i as int));
        assert(gv.take(i + 1).last() == (given@[i as int].0@, given@[i as int].1@));
        let ghost prev = ints_view(out@);
        if let Value::Int(n) = &given[i].1 {
            out.push((given[i].0.clone(), *n));
            assert(ints_view(out@) =~= prev.push((given@[i as int].0@, *n)));
        }
        i += 1;
    }
    assert(gv.take(given.len() as int) =~= gv);
    out
}

/// The names the body pins to constants: the given integers, then, pass
/// after pass over the body until a pass pins nothing new, each name on one
/// side of an equality whose other side folds to an integer (see
/// `pure_int`). The result is the first fixed point of `pin_pass`.
pub fn collect_pinned_ints(body: &Vec<BodyItem>, given: &Vec<(String, Value)>, seq_lengths: &Vec<(String, i64)>) -> (r: Vec<(String, i64)>)
    ensures
        exists|k: nat|
            ints_view(r@) == #[trigger] pin_rounds(items_view(body@), given_ints(record_view(given@)), ints_view(seq_lengths@), k),
        pin_pass(items_view(body@), body.len() as nat, ints_view(r@), ints_view(seq_lengths@)) == ints_view(r@),
{
    let ghost bv = items_view(body@);
    let ghost lv = ints_view(seq_lengths@);
    let ghost g0 = given_ints(record_view(given@));
    let mut pinned = given_ints_of(given);
    let ghost mut k: nat = 0;
    let mut changed = true;
    while changed
        invariant
            bv == items_view(body@),
            lv == ints_view(seq_lengths@),
            bv.len() == body.len(),
            ints_view(pinned@) == pin_rounds(bv, g0, lv, k),
            !changed ==> pin_pass(bv, bv.len(), ints_view(pinned@), lv) == ints_view(pinned@),
        decreases unpinned(bv, bv.len(), ints_view(pinned@)) + if changed { 1nat } else { 0nat },
    {
        let ghost p0 = ints_view(pinned@);
        let before = pinned.len();
        pin_pass_of(body, &mut pinned, seq_lengths);
        let ghost p1 = ints_view(pinned@);
        proof {
            lemma_pin_pass_ext(bv, bv.len(), p0, lv);
            assert forall|x: Seq<char>| im_has(p0, x) implies im_has(p1, x) by {
                lemma_prefix_has(p0, p1, x);
            }
            if p1.len() > p0.len() {
                let x = p1[p0.len() as int].0;
                assert(im_has(p1, x));
                lemma_unpinned_mono(bv, bv.len(), p0, p1, x);
            } else {
                assert(p1 =~= p0);
                lemma_unpinned_mono(bv, bv.len(), p0, p1, Seq::empty());
            }
            k = k + 1;
        }
        changed = pinned.len() != before;
    }
    pinned
}


// ───────────────────────────── sequence lengths ─────────────────────────────

/// The lengths of the given sequences and sets.
pub open spec fn given_lens(g: Seq<(Seq<char>, ValueV)>) -> Seq<(Seq<char>, i64)>
    decreases g.len(),
{
    if g.len() == 0 {
        Seq::empty()
    } else {
        let prev = given_lens(g.drop_last());
        let k = g.last().0;
        match g.last().1 {
            ValueV::SeqInt(v) => prev.push((k, v.len() as i64)),
            ValueV::SeqBool(v) => prev.push((k, v.len() as i64)),
            ValueV::SeqStr(v) => prev.push((k, v.len() as i64)),
            ValueV::SeqComposite(v) => prev.push((k, v.len() as i64)),
            ValueV::SeqEnum(v) => prev.push((k, v.len() as i64)),
            ValueV::SetInt(v) => prev.push((k, v.len() as i64)),
            ValueV::SetBool(v) => prev.push((k, v.len() as i64)),
            ValueV::SetStr(v) => prev.push((k, v.len() as i64)),
            _ => prev,
        }
    }
}

/// Every passthrough chain from `items` ends within `d - 1` steps: the
/// bodies a pass reaches by passthrough are finite.
pub open spec fn pt_ok(items: Seq<BodyItemV>, sc: Seq<SchemaDeclV>, d: nat) -> bool
    decreases d,
{
    d > 0 && forall|i: int|
        0 <= i < items.len() ==> match #[trigger] items[i] {
            BodyItemV::Passthrough { name, .. } => match find_schema(sc, name) {
                Some(c) => pt_ok(c.body, sc, (d - 1) as nat),
                None => true,
            },
            _ => true,
        }
}

/// The name under a `#`.
pub open spec fn card_name(a: ExprV) -> Option<Seq<char>> {
    match a {
        ExprV::Cardinality(x) => match *x {
            ExprV::Identifier(n) => Some(n),
            _ => None,
        },
        _ => None,
    }
}

/// `name = ⟨…⟩`: the name and the literal's length.
pub open spec fn seqlit_name(a: ExprV, b: ExprV) -> Option<(Seq<char>, nat)> {
    match a {
        ExprV::Identifier(n) => match b {
            ExprV::SeqLit(xs) => Some((n, xs.len())),
            _ => None,
        },
        _ => None,
    }
}

/// The names of the memberships of a body, in order.
pub open spec fn member_names(items: Seq<BodyItemV>) -> Seq<Seq<char>>
    decreases items.len(),
{
    if items.len() == 0 {
        Seq::empty()
    } else {
        member_names(items.drop_last()) + match items.last() {
            BodyItemV::Membership { name, .. } => seq![name],
            _ => Seq::empty(),
        }
    }
}

/// The key a length is recorded under: the name, or, inside an instance's
/// type, `instance.name` when the name's first segment is a field.
pub open spec fn len_key(n: Seq<char>, pre: Option<(Seq<char>, Seq<Seq<char>>)>) -> Option<Seq<char>> {
    match pre {
        None => Some(n),
        Some((prefix, fields)) => if fields.contains(first_segment(n)) {
            Some(prefix + "."@ + n)
        } else {
            None
        },
    }
}

/// One side `a = b` of an equality: `#n = b` records the value of `b`, and
/// `n = ⟨…⟩` the literal's length, under `len_key(n)` when not yet known.
pub open spec fn len_side(
    a: ExprV,
    b: ExprV,
    p: Seq<(Seq<char>, i64)>,
    o: Seq<(Seq<char>, i64)>,
    pre: Option<(Seq<char>, Seq<Seq<char>>)>,
) -> Seq<(Seq<char>, i64)> {
    let o1 = match card_name(a) {
        Some(n) => match len_key(n, pre) {
            Some(k) => if im_has(o, k) {
                o
            } else {
                match pure_int(b, p, o) {
                    Some(v) => o.push((k, v)),
                    None => o,
                }
            },
            None => o,
        },
        None => o,
    };
    match seqlit_name(a, b) {
        Some((n, len)) => match len_key(n, pre) {
            Some(k) => if im_has(o1, k) {
                o1
            } else {
                o1.push((k, len as i64))
            },
            None => o1,
        },
        None => o1,
    }
}

/// The equalities of the first `n` items of an instance's type body.
pub open spec fn len_prefix_items(
    items: Seq<BodyItemV>,
    n: nat,
    p: Seq<(Seq<char>, i64)>,
    o: Seq<(Seq<char>, i64)>,
    prefix: Seq<char>,
    fields: Seq<Seq<char>>,
) -> Seq<(Seq<char>, i64)>
    decreases n,
{
    if n == 0 || n > items.len() {
        o
    } else {
        let o1 = len_prefix_items(items, (n - 1) as nat, p, o, prefix, fields);
        match items[n - 1] {
            BodyItemV::Constraint(ExprV::Binary(BinOpV::Eq, l, r)) => {
                let pre = Some((prefix, fields));
                len_side(*r, *l, p, len_side(*l, *r, p, o1, pre), pre)
            },
            _ => o1,
        }
    }
}

/// One item of the length walk: an equality both ways, a passthrough's
/// body, and the type body of an instance (keys prefixed by the instance).
pub open spec fn len_item(item: BodyItemV, sc: Seq<SchemaDeclV>, d: nat, p: Seq<(Seq<char>, i64)>, o: Seq<(Seq<char>, i64)>) -> Seq<(Seq<char>, i64)>
    decreases d, 0nat, 0nat,
{
    match item {
        BodyItemV::Constraint(ExprV::Binary(BinOpV::Eq, l, r)) => len_side(*r, *l, p, len_side(*l, *r, p, o, None), None),
        BodyItemV::Passthrough { name, .. } => match find_schema(sc, name) {
            Some(c) => if d > 0 {
                len_items(c.body, c.body.len(), sc, (d - 1) as nat, p, o)
            } else {
                o
            },
            None => o,
        },
        BodyItemV::Membership { name, ty, .. } => match find_schema(sc, ty) {
            Some(td) => len_prefix_items(td.body, td.body.len(), p, o, name, member_names(td.body)),
            None => o,
        },
        _ => o,
    }
}

/// The length walk over the first `n` items.
pub open spec fn len_items(items: Seq<BodyItemV>, n: nat, sc: Seq<SchemaDeclV>, d: nat, p: Seq<(Seq<char>, i64)>, o: Seq<(Seq<char>, i64)>) -> Seq<(Seq<char>, i64)>
    decreases d, 1nat, n,
{
    if n == 0 || n > items.len() {
        o
    } else {
        len_item(items[n - 1], sc, d, p, len_items(items, (n - 1) as nat, sc, d, p, o))
    }
}

/// One item of the integer-pin scan: an equality both ways (see
/// `try_pin`), and a passthrough's body.
pub open spec fn scan_item(item: BodyItemV, sc: Seq<SchemaDeclV>, d: nat, p: Seq<(Seq<char>, i64)>, o: Seq<(Seq<char>, i64)>) -> Seq<(Seq<char>, i64)>
    decreases d, 0nat, 0nat,
{
    match item {
        BodyItemV::Constraint(ExprV::Binary(BinOpV::Eq, l, r)) => try_pin(*r, *l, try_pin(*l, *r, p, o), o),
        BodyItemV::Passthrough { name, .. } => match find_schema(sc, name) {
            Some(c) => if d > 0 {
                scan_items(c.body, c.body.len(), sc, (d - 1) as nat, p, o)
            } else {
                p
            },
            None => p,
        },
        _ => p,
    }
}

pub open spec fn scan_items(items: Seq<BodyItemV>, n: nat, sc: Seq<SchemaDeclV>, d: nat, p: Seq<(Seq<char>, i64)>, o: Seq<(Seq<char>, i64)>) -> Seq<(Seq<char>, i64)>
    decreases d, 1nat, n,
{
    if n == 0 || n > items.len() {
        p
    } else {
        scan_item(items[n - 1], sc, d, scan_items(items, (n - 1) as nat, sc, d, p, o), o)
    }
}

/// One round: the length walk under the current pins, then the pin scan
/// under the new lengths. The pair is (lengths, pins).
pub open spec fn len_round(
    body: Seq<BodyItemV>,
    sc: Seq<SchemaDeclV>,
    d: nat,
    st: (Seq<(Seq<char>, i64)>, Seq<(Seq<char>, i64)>),
) -> (Seq<(Seq<char>, i64)>, Seq<(Seq<char>, i64)>) {
    let o = len_items(body, body.len(), sc, d, st.1, st.0);
    (o, scan_items(body, body.len(), sc, d, st.1, o))
}

pub open spec fn len_rounds(
    body: Seq<BodyItemV>,
    sc: Seq<SchemaDeclV>,
    d: nat,
    st: (Seq<(Seq<char>, i64)>, Seq<(Seq<char>, i64)>),
    k: nat,
) -> (Seq<(Seq<char>, i64)>, Seq<(Seq<char>, i64)>)
    decreases k,
{
    if k == 0 {
        st
    } else {
        len_round(body, sc, d, len_rounds(body, sc, d, st, (k - 1) as nat))
    }
}

// ───────────────────────────── what a round can add ─────────────────────────────

/// The names on the sides of an equality: under a `#`, or bare.
pub open spec fn side_names(a: ExprV) -> Seq<Seq<char>> {
    match a {
        ExprV::Identifier(n) => seq![n],
        _ => match card_name(a) {
            Some(n) => seq![n],
            None => Seq::empty(),
        },
    }
}

pub open spec fn prefixed(prefix: Seq<char>, ns: Seq<Seq<char>>) -> Seq<Seq<char>> {
    Seq::new(ns.len(), |i: int| prefix + "."@ + ns[i])
}

pub open spec fn prefix_cands(items: Seq<BodyItemV>, n: nat, prefix: Seq<char>) -> Seq<Seq<char>>
    decreases n,
{
    if n == 0 || n > items.len() {
        Seq::empty()
    } else {
        prefix_cands(items, (n - 1) as nat, prefix) + match items[n - 1] {
            BodyItemV::Constraint(ExprV::Binary(BinOpV::Eq, l, r)) => prefixed(prefix, side_names(*l) + side_names(*r)),
            _ => Seq::empty(),
        }
    }
}

/// Every key a round can record, lengths and pins alike.
pub open spec fn item_cands(item: BodyItemV, sc: Seq<SchemaDeclV>, d: nat) -> Seq<Seq<char>>
    decreases d, 0nat, 0nat,
{
    match item {
        BodyItemV::Constraint(ExprV::Binary(BinOpV::Eq, l, r)) => side_names(*l) + side_names(*r),
        BodyItemV::Passthrough { name, .. } => match find_schema(sc, name) {
            Some(c) => if d > 0 {
                cands(c.body, c.body.len(), sc, (d - 1) as nat)
            } else {
                Seq::empty()
            },
            None => Seq::empty(),
        },
        BodyItemV::Membership { name, ty, .. } => match find_schema(sc, ty) {
            Some(td) => prefix_cands(td.body, td.body.len(), name),
            None => Seq::empty(),
        },
        _ => Seq::empty(),
    }
}

pub open spec fn cands(items: Seq<BodyItemV>, n: nat, sc: Seq<SchemaDeclV>, d: nat) -> Seq<Seq<char>>
    decreases d, 1nat, n,
{
    if n == 0 || n > items.len() {
        Seq::empty()
    } else {
        cands(items, (n - 1) as nat, sc, d) + item_cands(items[n - 1], sc, d)
    }
}

/// How many entries of `c` are not yet keys of `m`.
pub open spec fn missing(c: Seq<Seq<char>>, m: Seq<(Seq<char>, i64)>) -> nat
    decreases c.len(),
{
    if c.len() == 0 {
        0
    } else {
        missing(c.drop_last(), m) + if im_has(m, c.last()) { 0nat } else { 1nat }
    }
}


/// `r` is `o` with entries appended whose keys are new and listed in `c`.
pub open spec fn extends_within(o: Seq<(Seq<char>, i64)>, r: Seq<(Seq<char>, i64)>, c: Seq<Seq<char>>) -> bool {
    &&& r.len() >= o.len()
    &&& r.take(o.len() as int) == o
    &&& forall|j: int| o.len() <= j < r.len() ==> !im_has(o, #[trigger] r[j].0) && c.contains(r[j].0)
}

proof fn lemma_ext_refl(o: Seq<(Seq<char>, i64)>, c: Seq<Seq<char>>)
    ensures
        extends_within(o, o, c),
{
    assert(o.take(o.len() as int) =~= o);
}

proof fn lemma_ext_trans(a: Seq<(Seq<char>, i64)>, b: Seq<(Seq<char>, i64)>, e: Seq<(Seq<char>, i64)>, c1: Seq<Seq<char>>, c2: Seq<Seq<char>>)
    requires
        extends_within(a, b, c1),
        extends_within(b, e, c2),
    ensures
        extends_within(a, e, c1 + c2),
{
    assert(e.take(a.len() as int) =~= b.take(a.len() as int)) by {
        assert forall|j: int| 0 <= j < a.len() implies e.take(a.len() as int)[j] == b.take(a.len() as int)[j] by {
            assert(e[j] == e.take(b.len() as int)[j]);
        }
    }
    assert forall|j: int| a.len() <= j < e.len() implies !im_has(a, #[trigger] e[j].0) && (c1 + c2).contains(e[j].0) by {
        if j < b.len() {
            assert(e[j] == e.take(b.len() as int)[j]);
            let k = choose|k: int| 0 <= k < c1.len() && c1[k] == b[j].0;
            assert((c1 + c2)[k] == c1[k]);
        } else {
            if im_has(a, e[j].0) {
                lemma_prefix_has(a, b, e[j].0);
            }
            let k = choose|k: int| 0 <= k < c2.len() && c2[k] == e[j].0;
            assert((c1 + c2)[c1.len() + k] == c2[k]);
        }
    }
}

proof fn lemma_ext_widen(o: Seq<(Seq<char>, i64)>, r: Seq<(Seq<char>, i64)>, c: Seq<Seq<char>>, c2: Seq<Seq<char>>)
    requires
        extends_within(o, r, c),
        forall|x: Seq<char>| c.contains(x) ==> c2.contains(x),
    ensures
        extends_within(o, r, c2),
{
}

proof fn lemma_ext_has(o: Seq<(Seq<char>, i64)>, r: Seq<(Seq<char>, i64)>, c: Seq<Seq<char>>, x: Seq<char>)
    requires
        extends_within(o, r, c),
        im_has(o, x),
    ensures
        im_has(r, x),
{
    lemma_prefix_has(o, r, x);
}

proof fn lemma_len_side_ext(a: ExprV, b: ExprV, p: Seq<(Seq<char>, i64)>, o: Seq<(Seq<char>, i64)>, pre: Option<(Seq<char>, Seq<Seq<char>>)>)
    ensures
        extends_within(o, len_side(a, b, p, o, pre), match pre {
            None => side_names(a),
            Some((prefix, _)) => prefixed(prefix, side_names(a)),
        }),
{
    let c = match pre {
        None => side_names(a),
        Some((prefix, _)) => prefixed(prefix, side_names(a)),
    };
    let o1 = match card_name(a) {
        Some(n) => match len_key(n, pre) {
            Some(k) => if im_has(o, k) {
                o
            } else {
                match pure_int(b, p, o) {
                    Some(v) => o.push((k, v)),
                    None => o,
                }
            },
            None => o,
        },
        None => o,
    };
    lemma_ext_refl(o, c);
    if let Some(n) = card_name(a) {
        if let Some(k) = len_key(n, pre) {
            assert(side_names(a) == seq![n]);
            if !im_has(o, k) {
                if let Some(v) = pure_int(b, p, o) {
                    assert(o.push((k, v)).take(o.len() as int) =~= o);
                    assert(c[0] == k);
                }
            }
        }
    }
    assert(extends_within(o, o1, c));
    lemma_ext_refl(o1, c);
    if let Some((n, len)) = seqlit_name(a, b) {
        if let Some(k) = len_key(n, pre) {
            assert(side_names(a) == seq![n]);
            if !im_has(o1, k) {
                let r = o1.push((k, len as i64));
                assert(r.take(o1.len() as int) =~= o1);
                assert(c[0] == k);
                assert(extends_within(o1, r, c));
            }
        }
    }
    lemma_ext_trans(o, o1, len_side(a, b, p, o, pre), c, c);
    lemma_ext_widen(o, len_side(a, b, p, o, pre), c + c, c);
}

proof fn lemma_len_prefix_ext(items: Seq<BodyItemV>, n: nat, p: Seq<(Seq<char>, i64)>, o: Seq<(Seq<char>, i64)>, prefix: Seq<char>, fields: Seq<Seq<char>>)
    ensures
        extends_within(o, len_prefix_items(items, n, p, o, prefix, fields), prefix_cands(items, n, prefix)),
    decreases n,
{
    if n == 0 || n > items.len() {
        lemma_ext_refl(o, prefix_cands(items, n, prefix));
    } else {
        lemma_len_prefix_ext(items, (n - 1) as nat, p, o, prefix, fields);
        let o1 = len_prefix_items(items, (n - 1) as nat, p, o, prefix, fields);
        let c0 = prefix_cands(items, (n - 1) as nat, prefix);
        match items[n - 1] {
            BodyItemV::Constraint(ExprV::Binary(BinOpV::Eq, l, r)) => {
                let pre = Some((prefix, fields));
                let o2 = len_side(*l, *r, p, o1, pre);
                lemma_len_side_ext(*l, *r, p, o1, pre);
                lemma_len_side_ext(*r, *l, p, o2, pre);
                let cl = prefixed(prefix, side_names(*l));
                let cr = prefixed(prefix, side_names(*r));
                lemma_ext_trans(o1, o2, len_side(*r, *l, p, o2, pre), cl, cr);
                assert(cl + cr =~= prefixed(prefix, side_names(*l) + side_names(*r)));
                lemma_ext_trans(o, o1, len_side(*r, *l, p, o2, pre), c0, cl + cr);
            },
            _ => {
                lemma_ext_refl(o1, Seq::<Seq<char>>::empty());
                lemma_ext_trans(o, o1, o1, c0, Seq::<Seq<char>>::empty());
            },
        }
    }
}

proof fn lemma_len_item_ext(item: BodyItemV, sc: Seq<SchemaDeclV>, d: nat, p: Seq<(Seq<char>, i64)>, o: Seq<(Seq<char>, i64)>)
    ensures
        extends_within(o, len_item(item, sc, d, p, o), item_cands(item, sc, d)),
    decreases d, 0nat, 0nat,
{
    match item {
        BodyItemV::Constraint(ExprV::Binary(BinOpV::Eq, l, r)) => {
            let o1 = len_side(*l, *r, p, o, None);
            lemma_len_side_ext(*l, *r, p, o, None);
            lemma_len_side_ext(*r, *l, p, o1, None);
            lemma_ext_trans(o, o1, len_side(*r, *l, p, o1, None), side_names(*l), side_names(*r));
        },
        BodyItemV::Passthrough { name, .. } => match find_schema(sc, name) {
            Some(c) => if d > 0 {
                lemma_len_items_ext(c.body, c.body.len(), sc, (d - 1) as nat, p, o);
            } else {
                lemma_ext_refl(o, item_cands(item, sc, d));
            },
            None => {
                lemma_ext_refl(o, item_cands(item, sc, d));
            },
        },
        BodyItemV::Membership { name, ty, .. } => match find_schema(sc, ty) {
            Some(td) => {
                lemma_len_prefix_ext(td.body, td.body.len(), p, o, name, member_names(td.body));
            },
            None => {
                lemma_ext_refl(o, item_cands(item, sc, d));
            },
        },
        _ => {
            lemma_ext_refl(o, item_cands(item, sc, d));
        },
    }
}

proof fn lemma_len_items_ext(items: Seq<BodyItemV>, n: nat, sc: Seq<SchemaDeclV>, d: nat, p: Seq<(Seq<char>, i64)>, o: Seq<(Seq<char>, i64)>)
    ensures
        extends_within(o, len_items(items, n, sc, d, p, o), cands(items, n, sc, d)),
    decreases d, 1nat, n,
{
    if n == 0 || n > items.len() {
        lemma_ext_refl(o, cands(items, n, sc, d));
    } else {
        lemma_len_items_ext(items, (n - 1) as nat, sc, d, p, o);
        let o1 = len_items(items, (n - 1) as nat, sc, d, p, o);
        lemma_len_item_ext(items[n - 1], sc, d, p, o1);
        lemma_ext_trans(o, o1, len_items(items, n, sc, d, p, o), cands(items, (n - 1) as nat, sc, d), item_cands(items[n - 1], sc, d));
    }
}

proof fn lemma_try_pin_ext(a: ExprV, b: ExprV, p: Seq<(Seq<char>, i64)>, o: Seq<(Seq<char>, i64)>)
    ensures
        extends_within(p, try_pin(a, b, p, o), side_names(a)),
{
    lemma_ext_refl(p, side_names(a));
    if let ExprV::Identifier(n) = a {
        if !im_has(p, n) {
            if let Some(v) = pure_int(b, p, o) {
                assert(p.push((n, v)).take(p.len() as int) =~= p);
                assert(side_names(a)[0] == n);
            }
        }
    }
}

proof fn lemma_scan_item_ext(item: BodyItemV, sc: Seq<SchemaDeclV>, d: nat, p: Seq<(Seq<char>, i64)>, o: Seq<(Seq<char>, i64)>)
    ensures
        extends_within(p, scan_item(item, sc, d, p, o), item_cands(item, sc, d)),
    decreases d, 0nat, 0nat,
{
    match item {
        BodyItemV::Constraint(ExprV::Binary(BinOpV::Eq, l, r)) => {
            let p1 = try_pin(*l, *r, p, o);
            lemma_try_pin_ext(*l, *r, p, o);
            lemma_try_pin_ext(*r, *l, p1, o);
            lemma_ext_trans(p, p1, try_pin(*r, *l, p1, o), side_names(*l), side_names(*r));
        },
        BodyItemV::Passthrough { name, .. } => match find_schema(sc, name) {
            Some(c) => if d > 0 {
                lemma_scan_items_ext(c.body, c.body.len(), sc, (d - 1) as nat, p, o);
            } else {
                lemma_ext_refl(p, item_cands(item, sc, d));
            },
            None => {
                lemma_ext_refl(p, item_cands(item, sc, d));
            },
        },
        _ => {
            lemma_ext_refl(p, item_cands(item, sc, d));
        },
    }
}

proof fn lemma_scan_items_ext(items: Seq<BodyItemV>, n: nat, sc: Seq<SchemaDeclV>, d: nat, p: Seq<(Seq<char>, i64)>, o: Seq<(Seq<char>, i64)>)
    ensures
        extends_within(p, scan_items(items, n, sc, d, p, o), cands(items, n, sc, d)),
    decreases d, 1nat, n,
{
    if n == 0 || n > items.len() {
        lemma_ext_refl(p, cands(items, n, sc, d));
    } else {
        lemma_scan_items_ext(items, (n - 1) as nat, sc, d, p, o);
        let p1 = scan_items(items, (n - 1) as nat, sc, d, p, o);
        lemma_scan_item_ext(items[n - 1], sc, d, p1, o);
        lemma_ext_trans(p, p1, scan_items(items, n, sc, d, p, o), cands(items, (n - 1) as nat, sc, d), item_cands(items[n - 1], sc, d));
    }
}

proof fn lemma_missing(c: Seq<Seq<char>>, m1: Seq<(Seq<char>, i64)>, m2: Seq<(Seq<char>, i64)>, x: Seq<char>)
    requires
        forall|k: Seq<char>| im_has(m1, k) ==> im_has(m2, k),
    ensures
        missing(c, m2) <= missing(c, m1),
        !im_has(m1, x) && im_has(m2, x) && c.contains(x) ==> missing(c, m2) < missing(c, m1),
    decreases c.len(),
{
    if c.len() > 0 {
        lemma_missing(c.drop_last(), m1, m2, x);
        if !im_has(m1, x) && im_has(m2, x) && c.contains(x) {
            let k = choose|k: int| 0 <= k < c.len() && c[k] == x;
            if k < c.len() - 1 {
                assert(c.drop_last()[k] == x);
            }
        }
    }
}


pub open spec fn pre_view(pre: Option<(&String, &Vec<String>)>) -> Option<(Seq<char>, Seq<Seq<char>>)> {
    match pre {
        Some((pf, fs)) => Some((pf@, strs_view(fs@))),
        None => None,
    }
}

fn strings_contain_str(v: &Vec<String>, s: &String) -> (r: bool)
    ensures
        r == strs_view(v@).contains(s@),
{
    let mut i: usize = 0;
    while i < v.len()
        invariant
            0 <= i <= v.len(),
            forall|k: int| 0 <= k < i ==> strs_view(v@)[k] != s@,
        decreases v.len() - i,
    {
        if v[i] == *s {
            assert(strs_view(v@)[i as int] == s@);
            return true;
        }
        i += 1;
    }
    false
}

/// The key a length is recorded under; see `len_key`.
fn len_key_of(n: &String, pre: Option<(&String, &Vec<String>)>) -> (r: Option<String>)
    ensures
        match r {
            Some(k) => len_key(n@, pre_view(pre)) == Some(k@),
            None => len_key(n@, pre_view(pre)) is None,
        },
{
    match pre {
        None => Some(n.clone()),
        Some((prefix, fields)) => {
            let v = str_to_chars(n.as_str());
            let head = crate::lower::segment_from(&v, 0);
            assert(v@.skip(0) =~= v@);
            let hs = chars_to_string(&head);
            if strings_contain_str(fields, &hs) {
                let a = concat_str(prefix, ".");
                Some(concat_str(&a, n.as_str()))
            } else {
                None
            }
        },
    }
}

/// One side of an equality in the length walk; see `len_side`.
fn len_side_of(a: &Expr, b: &Expr, pinned: &Vec<(String, i64)>, out: &mut Vec<(String, i64)>, pre: Option<(&String, &Vec<String>)>)
    ensures
        ints_view(final(out)@) == len_side(a@, b@, ints_view(pinned@), ints_view(old(out)@), pre_view(pre)),
{
    proof {
        reveal_with_fuel(expr_view, 2);
    }
    if let Expr::Cardinality(x) = a {
        if let Expr::Identifier(n) = &**x {
            if let Some(k) = len_key_of(n, pre) {
                if !im_contains(out, &k) {
                    if let Some(v) = eval_pure_int(b, pinned, out) {
                        let ghost prev = ints_view(out@);
                        out.push((k, v));
                        assert(ints_view(out@) =~= prev.push((k@, v)));
                    }
                }
            }
        }
    }
    if let Expr::Identifier(n) = a {
        if let Expr::SeqLit(xs) = b {
            proof {
                lemma_list_views(*b);
            }
            if let Some(k) = len_key_of(n, pre) {
                if !im_contains(out, &k) {
                    let ghost prev = ints_view(out@);
                    out.push((k, xs.len() as i64));
                    assert(ints_view(out@) =~= prev.push((k@, exprs_view(xs@).len() as i64)));
                }
            }
        }
    }
}

fn member_names_of(body: &Vec<BodyItem>) -> (r: Vec<String>)
    ensures
        strs_view(r@) == member_names(items_view(body@)),
{
    let ghost bv = items_view(body@);
    let mut out: Vec<String> = Vec::new();
    let mut i: usize = 0;
    assert(strs_view(out@) =~= member_names(bv.take(0)));
    while i < body.len()
        invariant
            0 <= i <= body.len(),
            bv == items_view(body@),
            strs_view(out@) == member_names(bv.take(i as int)),
        decreases body.len() - i,
    {
        assert(bv.take(i + 1).drop_last() =~= bv.take(i as int));
        assert(bv.take(i + 1).last() == body_item_view(body@[i as int]));
        let ghost prev = strs_view(out@);
        if let BodyItem::Membership { name, .. } = &body[i] {
            out.push(name.clone());
            assert(strs_view(out@) =~= prev + seq![name@]);
        } else {
            assert(strs_view(out@) =~= prev + Seq::<Seq<char>>::empty());
        }
        i += 1;
    }
    assert(bv.take(body.len() as int) =~= bv);
    out
}

/// The length walk over an instance's type body, keys prefixed by the
/// instance; see `len_prefix_items`.
fn walk_constraints_with_prefix(
    body: &Vec<BodyItem>,
    pinned: &Vec<(String, i64)>,
    out: &mut Vec<(String, i64)>,
    prefix: &String,
    field_set: &Vec<String>,
)
    ensures
        ints_view(final(out)@) == len_prefix_items(items_view(body@), body.len() as nat, ints_view(pinned@), ints_view(old(out)@), prefix@,
            strs_view(field_set@)),
{
    let ghost bv = items_view(body@);
    let ghost o0 = ints_view(out@);
    let mut i: usize = 0;
    while i < body.len()
        invariant
            0 <= i <= body.len(),
            bv == items_view(body@),
            ints_view(out@) == len_prefix_items(bv, i as nat, ints_view(pinned@), o0, prefix@, strs_view(field_set@)),
        decreases body.len() - i,
    {
        assert(bv[i as int] == body_item_view(body@[i as int]));
        if let BodyItem::Constraint(Expr::Binary(BinOp::Eq, l, r)) = &body[i] {
            len_side_of(l, r, pinned, out, Some((prefix, field_set)));
            len_side_of(r, l, pinned, out, Some((prefix, field_set)));
        }
        i += 1;
    }
}

/// The length walk over a body, its passthroughs and its instances' types;
/// see `len_items`.
fn walk_constraints(body: &Vec<BodyItem>, schemas: &Vec<SchemaDecl>, pinned: &Vec<(String, i64)>, out: &mut Vec<(String, i64)>, Ghost(d): Ghost<nat>)
    requires
        pt_ok(items_view(body@), schemas_view(schemas@), d),
    ensures
        ints_view(final(out)@) == len_items(items_view(body@), body.len() as nat, schemas_view(schemas@), d, ints_view(pinned@),
            ints_view(old(out)@)),
    decreases d,
{
    let ghost bv = items_view(body@);
    let ghost sv = schemas_view(schemas@);
    let ghost o0 = ints_view(out@);
    let mut i: usize = 0;
    while i < body.len()
        invariant
            0 <= i <= body.len(),
            bv == items_view(body@),
            sv == schemas_view(schemas@),
            pt_ok(bv, sv, d),
            ints_view(out@) == len_items(bv, i as nat, sv, d, ints_view(pinned@), o0),
        decreases body.len() - i,
    {
        assert(bv[i as int] == body_item_view(body@[i as int]));
        let ghost before = ints_view(out@);
        match &body[i] {
            BodyItem::Constraint(Expr::Binary(BinOp::Eq, l, r)) => {
                len_side_of(l, r, pinned, out, None);
                len_side_of(r, l, pinned, out, None);
                assert(ints_view(out@) == len_item(bv[i as int], sv, d, ints_view(pinned@), before));
            },
            BodyItem::Passthrough { name, .. } => {
                if let Some(c) = lookup_schema(schemas, name) {
                    proof {
                        lemma_schema_lists(*c);
                        assert(match bv[i as int] {
                            BodyItemV::Passthrough { name, .. } => match find_schema(sv, name) {
                                Some(c) => pt_ok(c.body, sv, (d - 1) as nat),
                                None => true,
                            },
                            _ => true,
                        });
                    }
                    walk_constraints(&c.body, schemas, pinned, out, Ghost((d - 1) as nat));
                    assert(ints_view(out@) == len_item(bv[i as int], sv, d, ints_view(pinned@), before));
                } else {
                    assert(ints_view(out@) == len_item(bv[i as int], sv, d, ints_view(pinned@), before));
                }
            },
            BodyItem::Membership { name, ty, .. } => {
                if let Some(td) = lookup_schema(schemas, ty) {
                    proof {
                        lemma_schema_lists(*td);
                    }
                    let fields = member_names_of(&td.body);
                    walk_constraints_with_prefix(&td.body, pinned, out, name, &fields);
                    assert(ints_view(out@) == len_item(bv[i as int], sv, d, ints_view(pinned@), before));
                } else {
                    assert(ints_view(out@) == len_item(bv[i as int], sv, d, ints_view(pinned@), before));
                }
            },
            _ => {
                assert(ints_view(out@) == len_item(bv[i as int], sv, d, ints_view(pinned@), before));
            },
        }
        i += 1;
    }
}

/// The pin scan over a body and its passthroughs; see `scan_items`.
fn scan_int_pins(body: &Vec<BodyItem>, schemas: &Vec<SchemaDecl>, pinned: &mut Vec<(String, i64)>, seq_lens: &Vec<(String, i64)>, Ghost(d): Ghost<nat>)
    requires
        pt_ok(items_view(body@), schemas_view(schemas@), d),
    ensures
        ints_view(final(pinned)@) == scan_items(items_view(body@), body.len() as nat, schemas_view(schemas@), d, ints_view(old(pinned)@),
            ints_view(seq_lens@)),
    decreases d,
{
    let ghost bv = items_view(body@);
    let ghost sv = schemas_view(schemas@);
    let ghost p0 = ints_view(pinned@);
    let mut i: usize = 0;
    while i < body.len()
        invariant
            0 <= i <= body.len(),
            bv == items_view(body@),
            sv == schemas_view(schemas@),
            pt_ok(bv, sv, d),
            ints_view(pinned@) == scan_items(bv, i as nat, sv, d, p0, ints_view(seq_lens@)),
        decreases body.len() - i,
    {
        assert(bv[i as int] == body_item_view(body@[i as int]));
        let ghost before = ints_view(pinned@);
        match &body[i] {
            BodyItem::Constraint(Expr::Binary(BinOp::Eq, l, r)) => {
                try_pin_of(l, r, pinned, seq_lens);
                try_pin_of(r, l, pinned, seq_lens);
                assert(ints_view(pinned@) == scan_item(bv[i as int], sv, d, before, ints_view(seq_lens@)));
            },
            BodyItem::Passthrough { name, .. } => {
                if let Some(c) = lookup_schema(schemas, name) {
                    proof {
                        lemma_schema_lists(*c);
                        assert(match bv[i as int] {
                            BodyItemV::Passthrough { name, .. } => match find_schema(sv, name) {
                                Some(c) => pt_ok(c.body, sv, (d - 1) as nat),
                                None => true,
                            },
                            _ => true,
                        });
                    }
                    scan_int_pins(&c.body, schemas, pinned, seq_lens, Ghost((d - 1) as nat));
                    assert(ints_view(pinned@) == scan_item(bv[i as int], sv, d, before, ints_view(seq_lens@)));
                } else {
                    assert(ints_view(pinned@) == scan_item(bv[i as int], sv, d, before, ints_view(seq_lens@)));
                }
            },
            _ => {
                assert(ints_view(pinned@) == scan_item(bv[i as int], sv, d, before, ints_view(seq_lens@)));
            },
        }
        i += 1;
    }
}

fn given_lens_of(given: &Vec<(String, Value)>) -> (r: Vec<(String, i64)>)
    ensures
        ints_view(r@) == given_lens(record_view(given@)),
{
    let ghost gv = record_view(given@);
    let mut out: Vec<(String, i64)> = Vec::new();
    let mut i: usize = 0;
    assert(ints_view(out@) =~= given_lens(gv.take(0)));
    while i < given.len()
        invariant
            0 <= i <= given.len(),
            gv == record_view(given@),
            ints_view(out@) == given_lens(gv.take(i as int)),
        decreases given.len() - i,
    {
        assert(gv.take(i + 1).drop_last() =~= gv.take(i as int));
        assert(gv.take(i + 1).last() == (given@[i as int].0@, given@[i as int].1@));
        proof {
            crate::value::lemma_value_lists(given@[i as int].1);
        }
        let ghost prev = ints_view(out@);
        let len: Option<usize> = match &given[i].1 {
            Value::SeqInt(v) => Some(v.len()),
            Value::SeqBool(v) => Some(v.len()),
            Value::SeqStr(v) => Some(v.len()),
            Value::SeqComposite(v) => Some(v.len()),
            Value::SeqEnum(v) => Some(v.len()),
            Value::SetInt(v) => Some(v.len()),
            Value::SetBool(v) => Some(v.len()),
            Value::SetStr(v) => Some(v.len()),
            _ => None,
        };
        if let Some(n) = len {
            out.push((given[i].0.clone(), n as i64));
            assert(ints_view(out@) =~= prev.push((given@[i as int].0@, n as i64)));
        }
        i += 1;
    }
    assert(gv.take(given.len() as int) =~= gv);
    out
}

/// A passthrough depth that bounds every chain from `body`.
pub open spec fn pt_depth(body: Seq<BodyItemV>, sc: Seq<SchemaDeclV>) -> nat {
    choose|d: nat| pt_ok(body, sc, d)
}

pub open spec fn sc_view(schemas: Option<&Vec<SchemaDecl>>) -> Seq<SchemaDeclV> {
    match schemas {
        Some(v) => schemas_view(v@),
        None => Seq::empty(),
    }
}

/// The lengths the body fixes: from the given sequences and sets, then,
/// round after round until a round records nothing new (see `len_round`),
/// from `#s = e` and `s = ⟨…⟩` equalities in the body, its passthroughs and
/// its instances' type bodies, with integers pinned as `scan_items` finds
/// them. The result is the lengths of the first fixed point.
pub fn collect_seq_lengths_with_schemas(body: &Vec<BodyItem>, given: &Vec<(String, Value)>, schemas: Option<&Vec<SchemaDecl>>) -> (r: Vec<(String, i64)>)
    requires
        exists|d: nat| pt_ok(items_view(body@), sc_view(schemas), d),
    ensures
        ({
            let bv = items_view(body@);
            let sv = sc_view(schemas);
            let st0 = (given_lens(record_view(given@)), given_ints(record_view(given@)));
            exists|k: nat|
                #[trigger] len_rounds(bv, sv, pt_depth(bv, sv), st0, k).0 == ints_view(r@) && len_round(
                    bv,
                    sv,
                    pt_depth(bv, sv),
                    len_rounds(bv, sv, pt_depth(bv, sv), st0, k),
                ) == len_rounds(bv, sv, pt_depth(bv, sv), st0, k)
        }),
{
    let empty: Vec<SchemaDecl> = Vec::new();
    let sc: &Vec<SchemaDecl> = match schemas {
        Some(v) => v,
        None => &empty,
    };
    let ghost bv = items_view(body@);
    let ghost sv = schemas_view(sc@);
    assert(sv =~= sc_view(schemas));
    let ghost d = pt_depth(bv, sv);
    let mut out = given_lens_of(given);
    let mut pinned = given_ints_of(given);
    let ghost st0 = (ints_view(out@), ints_view(pinned@));
    let ghost c = cands(bv, bv.len(), sv, d);
    let ghost mut k: nat = 0;
    let mut changed = true;
    while changed
        invariant
            bv == items_view(body@),
            sv == schemas_view(sc@),
            bv.len() == body.len(),
            pt_ok(bv, sv, d),
            c == cands(bv, bv.len(), sv, d),
            (ints_view(out@), ints_view(pinned@)) == len_rounds(bv, sv, d, st0, k),
            !changed ==> len_round(bv, sv, d, (ints_view(out@), ints_view(pinned@))) == (ints_view(out@), ints_view(pinned@)),
        decreases missing(c, ints_view(out@)) + missing(c, ints_view(pinned@)) + if changed { 1nat } else { 0nat },
    {
        let ghost o0 = ints_view(out@);
        let ghost p0 = ints_view(pinned@);
        let o_len = out.len();
        let p_len = pinned.len();
        walk_constraints(body, sc, &pinned, &mut out, Ghost(d));
        scan_int_pins(body, sc, &mut pinned, &out, Ghost(d));
        let ghost o1 = ints_view(out@);
        let ghost p1 = ints_view(pinned@);
        proof {
            lemma_len_items_ext(bv, bv.len(), sv, d, p0, o0);
            lemma_scan_items_ext(bv, bv.len(), sv, d, p0, o1);
            assert forall|x: Seq<char>| im_has(o0, x) implies im_has(o1, x) by {
                lemma_prefix_has(o0, o1, x);
            }
            assert forall|x: Seq<char>| im_has(p0, x) implies im_has(p1, x) by {
                lemma_prefix_has(p0, p1, x);
            }
            if o1.len() > o0.len() {
                lemma_missing(c, o0, o1, o1[o0.len() as int].0);
                assert(im_has(o1, o1[o0.len() as int].0));
            } else {
                lemma_missing(c, o0, o1, Seq::empty());
                assert(o1 =~= o0);
            }
            if p1.len() > p0.len() {
                lemma_missing(c, p0, p1, p1[p0.len() as int].0);
                assert(im_has(p1, p1[p0.len() as int].0));
            } else {
                lemma_missing(c, p0, p1, Seq::empty());
                assert(p1 =~= p0);
            }
            k = k + 1;
        }
        changed = out.len() != o_len || pinned.len() != p_len;
    }
    out
}

} // verus!
