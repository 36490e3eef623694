//! Parameterized passthroughs: `..Name(slot ↦ other, …)` includes the body
//! of claim `Name` with some of its fields renamed onto names of the
//! including scope and every other field freshened with a per-instance
//! suffix, so two passthroughs of one claim make independent sub-systems.
//! A previous-tick name `_a` follows its base `a`, and a dotted name `a.f`
//! follows `a`. The shared `is_first_tick` is never renamed.
use vstd::prelude::*;
use vstd::string::StringExecFns;
use crate::ast::{
    arms_view, body_item_view, clone_binop, clone_body_item, clone_expr, clone_pattern, clone_pins, clone_strings,
    expr_view, exprs_view, items_view, lemma_list_views, lemma_schema_lists, mapping_view, mappings_view,
    pattern_view, pins_view, BodyItem, BodyItemV, Expr, ExprV, Mapping, MappingV, MatchArm, MatchArmV,
    MatchPatternV, SchemaDecl, SchemaDeclV,
};
use crate::text::{chars_to_string, str_to_chars, u64_decimal, decimal, concat_str, str_is};
use crate::program::{find_schema, lookup_schema, schemas_view};
use crate::lower::with_body;

verus! {

// ───────────────────────────── the substitution ─────────────────────────────

/// The replacement bound to `k`: the first binding of `k`.
pub open spec fn sub_get(sub: Seq<(Seq<char>, Seq<char>)>, k: Seq<char>) -> Option<Seq<char>>
    decreases sub.len(),
{
    if sub.len() == 0 {
        None
    } else if sub[0].0 == k {
        Some(sub[0].1)
    } else {
        sub_get(sub.drop_first(), k)
    }
}

/// The index of the first binding of `k`, or `-1`.
pub open spec fn sub_index(sub: Seq<(Seq<char>, Seq<char>)>, k: Seq<char>) -> int
    decreases sub.len(),
{
    if sub.len() == 0 {
        -1
    } else if sub[0].0 == k {
        0
    } else {
        let i = sub_index(sub.drop_first(), k);
        if i < 0 {
            -1
        } else {
            i + 1
        }
    }
}

/// `sub` with `k` bound to `v`: the first binding replaced, or a new one at the end.
pub open spec fn sub_set(sub: Seq<(Seq<char>, Seq<char>)>, k: Seq<char>, v: Seq<char>) -> Seq<(Seq<char>, Seq<char>)> {
    let i = sub_index(sub, k);
    if i < 0 {
        sub.push((k, v))
    } else {
        sub.update(i, (k, v))
    }
}

pub proof fn lemma_sub_index(sub: Seq<(Seq<char>, Seq<char>)>, k: Seq<char>)
    ensures
        -1 <= sub_index(sub, k) < sub.len(),
        sub_index(sub, k) >= 0 ==> sub[sub_index(sub, k)].0 == k && sub_get(sub, k) == Some(sub[sub_index(sub, k)].1)
            && forall|j: int| 0 <= j < sub_index(sub, k) ==> sub[j].0 != k,
        sub_index(sub, k) < 0 ==> sub_get(sub, k) is None && forall|j: int| 0 <= j < sub.len() ==> sub[j].0 != k,
    decreases sub.len(),
{
    if sub.len() > 0 && sub[0].0 != k {
        lemma_sub_index(sub.drop_first(), k);
        assert forall|j: int| 1 <= j < sub.len() implies sub[j] == sub.drop_first()[j - 1] by {}
    }
}

pub open spec fn subs_view(v: Seq<(String, String)>) -> Seq<(Seq<char>, Seq<char>)> {
    Seq::new(v.len(), |i: int| (v[i].0@, v[i].1@))
}

fn sub_find(sub: &Vec<(String, String)>, k: &String) -> (r: Option<usize>)
    ensures
        match r {
            Some(i) => i as int == sub_index(subs_view(sub@), k@),
            None => sub_index(subs_view(sub@), k@) < 0,
        },
{
    let ghost sv = subs_view(sub@);
    proof {
        lemma_sub_index(sv, k@);
    }
    let mut i: usize = 0;
    while i < sub.len()
        invariant
            0 <= i <= sub.len(),
            sv == subs_view(sub@),
            forall|j: int| 0 <= j < i ==> sv[j].0 != k@,
            -1 <= sub_index(sv, k@) < sv.len(),
            sub_index(sv, k@) >= 0 ==> sv[sub_index(sv, k@)].0 == k@ && forall|j: int|
                0 <= j < sub_index(sv, k@) ==> sv[j].0 != k@,
            sub_index(sv, k@) < 0 ==> forall|j: int| 0 <= j < sv.len() ==> sv[j].0 != k@,
        decreases sub.len() - i,
    {
        assert(sv[i as int].0 == sub@[i as int].0@);
        if sub[i].0 == *k {
            return Some(i);
        }
        i += 1;
    }
    None
}

fn sub_insert(sub: &mut Vec<(String, String)>, k: String, v: String)
    ensures
        subs_view(final(sub)@) == sub_set(subs_view(old(sub)@), k@, v@),
{
    let ghost sv = subs_view(sub@);
    proof {
        lemma_sub_index(sv, k@);
    }
    match sub_find(sub, &k) {
        Some(i) => {
            let ghost kv = (k@, v@);
            sub.set(i, (k, v));
            assert(subs_view(sub@) =~= sv.update(i as int, kv));
        },
        None => {
            let ghost kv = (k@, v@);
            sub.push((k, v));
            assert(subs_view(sub@) =~= sv.push(kv));
        },
    }
}

// ───────────────────────────── identifiers ─────────────────────────────

/// The index of the first `.` in `s`, or its length.
pub open spec fn dot_at(s: Seq<char>) -> nat
    decreases s.len(),
{
    if s.len() == 0 || s[0] == '.' {
        0
    } else {
        1 + dot_at(s.drop_first())
    }
}

/// The previous-tick marker of `ident` (`_` or nothing) and the rest.
pub open spec fn prev_marker(ident: Seq<char>) -> (Seq<char>, Seq<char>) {
    if ident.len() > 0 && ident[0] == '_' {
        (seq!['_'], ident.drop_first())
    } else {
        (Seq::empty(), ident)
    }
}

/// The replacement of an identifier: its base (without a leading `_` and
/// without a `.field` chain) looked up in `sub`, and the marker and the
/// chain put back around the replacement. `None` when the base is unbound.
pub open spec fn remap(ident: Seq<char>, sub: Seq<(Seq<char>, Seq<char>)>) -> Option<Seq<char>> {
    let (marker, rest) = prev_marker(ident);
    let k = dot_at(rest);
    match sub_get(sub, rest.take(k as int)) {
        Some(r) => Some(marker + r + rest.skip(k as int)),
        None => None,
    }
}

pub open spec fn remap_or_keep(ident: Seq<char>, sub: Seq<(Seq<char>, Seq<char>)>) -> Seq<char> {
    match remap(ident, sub) {
        Some(r) => r,
        None => ident,
    }
}

proof fn lemma_dot_at(s: Seq<char>)
    ensures
        dot_at(s) <= s.len(),
        dot_at(s) < s.len() ==> s[dot_at(s) as int] == '.',
        forall|j: int| 0 <= j < dot_at(s) ==> s[j] != '.',
    decreases s.len(),
{
    if s.len() > 0 && s[0] != '.' {
        lemma_dot_at(s.drop_first());
        assert forall|j: int| 0 <= j < dot_at(s) implies s[j] != '.' by {
            if j > 0 {
                assert(s[j] == s.drop_first()[j - 1]);
            }
        }
    }
}

/// The replacement of `ident` under `sub`; see `remap`.
fn remap_identifier(ident: &String, sub: &Vec<(String, String)>) -> (r: Option<String>)
    ensures
        match r {
            Some(x) => remap(ident@, subs_view(sub@)) == Some(x@),
            None => remap(ident@, subs_view(sub@)) is None,
        },
{
    let chars = str_to_chars(ident.as_str());
    let start: usize = if chars.len() > 0 && chars[0] == '_' { 1 } else { 0 };
    let ghost rest = prev_marker(ident@).1;
    assert(rest =~= chars@.skip(start as int));
    proof {
        lemma_dot_at(rest);
    }
    let mut k: usize = start;
    while k < chars.len() && chars[k] != '.'
        invariant
            start <= k <= chars.len(),
            chars@ == ident@,
            rest == chars@.skip(start as int),
            dot_at(rest) <= rest.len(),
            dot_at(rest) < rest.len() ==> rest[dot_at(rest) as int] == '.',
            forall|j: int| 0 <= j < dot_at(rest) ==> rest[j] != '.',
            forall|j: int| start <= j < k ==> chars@[j] != '.',
        decreases chars.len() - k,
    {
        k += 1;
    }
    assert(k - start == dot_at(rest)) by {
        if k - start < dot_at(rest) {
            assert(rest[k - start] != '.');
            assert(rest[k - start] == chars@[k as int]);
        }
        if k - start > dot_at(rest) {
            assert(chars@[start + dot_at(rest)] == rest[dot_at(rest) as int]);
        }
    }
    let base = chars_to_string(&crate::text::slice_chars(&chars, start, k));
    assert(base@ =~= rest.take(dot_at(rest) as int));
    match sub_find(sub, &base) {
        None => {
            proof {
                lemma_sub_index(subs_view(sub@), base@);
            }
            None
        },
        Some(i) => {
            proof {
                lemma_sub_index(subs_view(sub@), base@);
            }
            let mut out: Vec<char> = Vec::new();
            if start == 1 {
                out.push('_');
            }
            let repl = str_to_chars(sub[i].1.as_str());
            crate::text::append_chars(&mut out, &repl);
            let tail = crate::text::slice_chars(&chars, k, chars.len());
            crate::text::append_chars(&mut out, &tail);
            assert(out@ =~= prev_marker(ident@).0 + subs_view(sub@)[i as int].1 + rest.skip(dot_at(rest) as int));
            Some(chars_to_string(&out))
        },
    }
}

// ───────────────────────────── renaming ─────────────────────────────

/// `e` with every identifier remapped under `sub` (see `remap`); binders,
/// field names and patterns are left as they are.
pub open spec fn rename_expr(e: ExprV, sub: Seq<(Seq<char>, Seq<char>)>) -> ExprV
    decreases e,
{
    match e {
        ExprV::Identifier(s) => ExprV::Identifier(remap_or_keep(s, sub)),
        ExprV::Int(_) | ExprV::Real(_) | ExprV::Bool(_) | ExprV::Str(_) => e,
        ExprV::Binary(op, l, r) => ExprV::Binary(op, Box::new(rename_expr(*l, sub)), Box::new(rename_expr(*r, sub))),
        ExprV::Not(x) => ExprV::Not(Box::new(rename_expr(*x, sub))),
        ExprV::Delta(x) => ExprV::Delta(Box::new(rename_expr(*x, sub))),
        ExprV::Ternary(c, a, b) => ExprV::Ternary(
            Box::new(rename_expr(*c, sub)),
            Box::new(rename_expr(*a, sub)),
            Box::new(rename_expr(*b, sub)),
        ),
        ExprV::Call(n, xs) => ExprV::Call(n, Seq::new(xs.len(), |i: int| if 0 <= i < xs.len() { rename_expr(xs[i], sub) } else { ExprV::Int(0) })),
        ExprV::Field(x, f) => ExprV::Field(Box::new(rename_expr(*x, sub)), f),
        ExprV::Index(a, b) => ExprV::Index(Box::new(rename_expr(*a, sub)), Box::new(rename_expr(*b, sub))),
        ExprV::Cardinality(x) => ExprV::Cardinality(Box::new(rename_expr(*x, sub))),
        ExprV::SeqLit(xs) => ExprV::SeqLit(Seq::new(xs.len(), |i: int| if 0 <= i < xs.len() { rename_expr(xs[i], sub) } else { ExprV::Int(0) })),
        ExprV::SetLit(xs) => ExprV::SetLit(Seq::new(xs.len(), |i: int| if 0 <= i < xs.len() { rename_expr(xs[i], sub) } else { ExprV::Int(0) })),
        ExprV::Tuple(xs) => ExprV::Tuple(Seq::new(xs.len(), |i: int| if 0 <= i < xs.len() { rename_expr(xs[i], sub) } else { ExprV::Int(0) })),
        ExprV::InExpr(a, b) => ExprV::InExpr(Box::new(rename_expr(*a, sub)), Box::new(rename_expr(*b, sub))),
        ExprV::Range(a, b) => ExprV::Range(Box::new(rename_expr(*a, sub)), Box::new(rename_expr(*b, sub))),
        ExprV::Forall(vs, r, b) => ExprV::Forall(vs, Box::new(rename_expr(*r, sub)), Box::new(rename_expr(*b, sub))),
        ExprV::Exists(vs, r, b) => ExprV::Exists(vs, Box::new(rename_expr(*r, sub)), Box::new(rename_expr(*b, sub))),
        ExprV::Match(sc, arms) => ExprV::Match(
            Box::new(rename_expr(*sc, sub)),
            Seq::new(
                arms.len(),
                |i: int|
                    if 0 <= i < arms.len() {
                        MatchArmV { pattern: arms[i].pattern, body: rename_expr(arms[i].body, sub) }
                    } else {
                        MatchArmV { pattern: MatchPatternV::Wildcard, body: ExprV::Int(0) }
                    },
            ),
        ),
        ExprV::Matches(x, p) => ExprV::Matches(Box::new(rename_expr(*x, sub)), p),
    }
}

/// A body item renamed: a membership's declared name, a constraint, a call's
/// mapped values. Subclaims and passthroughs are kept as they are.
pub open spec fn rename_item(item: BodyItemV, sub: Seq<(Seq<char>, Seq<char>)>) -> BodyItemV {
    match item {
        BodyItemV::Membership { name, ty, pins } => BodyItemV::Membership { name: remap_or_keep(name, sub), ty, pins },
        BodyItemV::Constraint(e) => BodyItemV::Constraint(rename_expr(e, sub)),
        BodyItemV::ClaimCall { name, mappings } => BodyItemV::ClaimCall {
            name,
            mappings: Seq::new(mappings.len(), |i: int| MappingV { slot: mappings[i].slot, value: rename_expr(mappings[i].value, sub) }),
        },
        _ => item,
    }
}

fn rename_all(xs: &Vec<Expr>, sub: &Vec<(String, String)>) -> (r: Vec<Expr>)
    ensures
        r.len() == xs.len(),
        forall|k: int| 0 <= k < xs.len() ==> #[trigger] expr_view(r@[k]) == rename_expr(expr_view(xs@[k]), subs_view(sub@)),
    decreases xs, 1int,
{
    let mut out: Vec<Expr> = Vec::new();
    let mut i: usize = 0;
    while i < xs.len()
        invariant
            0 <= i <= xs.len(),
            out.len() == i,
            forall|k: int| 0 <= k < i ==> #[trigger] expr_view(out@[k]) == rename_expr(expr_view(xs@[k]), subs_view(sub@)),
        decreases xs.len() - i,
    {
        proof {
            assert(decreases_to!(*xs => xs@[i as int]));
        }
        out.push(rename_in(&xs[i], sub));
        i += 1;
    }
    out
}

/// `e` with its identifiers remapped; see `rename_expr`.
fn rename_in(e: &Expr, sub: &Vec<(String, String)>) -> (r: Expr)
    ensures
        r@ == rename_expr(e@, subs_view(sub@)),
    decreases e, 0int,
{
    proof {
        lemma_list_views(*e);
    }
    match e {
        Expr::Identifier(s) => match remap_identifier(s, sub) {
            Some(x) => Expr::Identifier(x),
            None => clone_expr(e),
        },
        Expr::Int(_) | Expr::Real(_) | Expr::Bool(_) | Expr::Str(_) => clone_expr(e),
        Expr::Binary(op, l, r) => Expr::Binary(clone_binop(op), Box::new(rename_in(l, sub)), Box::new(rename_in(r, sub))),
        Expr::Not(x) => Expr::Not(Box::new(rename_in(x, sub))),
        Expr::Delta(x) => Expr::Delta(Box::new(rename_in(x, sub))),
        Expr::Ternary(c, a, b) => Expr::Ternary(
            Box::new(rename_in(c, sub)),
            Box::new(rename_in(a, sub)),
            Box::new(rename_in(b, sub)),
        ),
        Expr::Call(n, xs) => {
            proof {
                assert(decreases_to!(*e => *xs));
            }
            let out = rename_all(xs, sub);
            let r = Expr::Call(n.clone(), out);
            proof {
                lemma_list_views(r);
                assert(exprs_view(out@) =~= rename_expr(e@, subs_view(sub@))->Call_1);
            }
            r
        },
        Expr::SeqLit(xs) => {
            proof {
                assert(decreases_to!(*e => *xs));
            }
            let out = rename_all(xs, sub);
            let r = Expr::SeqLit(out);
            proof {
                lemma_list_views(r);
                assert(exprs_view(out@) =~= rename_expr(e@, subs_view(sub@))->SeqLit_0);
            }
            r
        },
        Expr::SetLit(xs) => {
            proof {
                assert(decreases_to!(*e => *xs));
            }
            let out = rename_all(xs, sub);
            let r = Expr::SetLit(out);
            proof {
                lemma_list_views(r);
                assert(exprs_view(out@) =~= rename_expr(e@, subs_view(sub@))->SetLit_0);
            }
            r
        },
        Expr::Tuple(xs) => {
            proof {
                assert(decreases_to!(*e => *xs));
            }
            let out = rename_all(xs, sub);
            let r = Expr::Tuple(out);
            proof {
                lemma_list_views(r);
                assert(exprs_view(out@) =~= rename_expr(e@, subs_view(sub@))->Tuple_0);
            }
            r
        },
        Expr::Field(x, f) => Expr::Field(Box::new(rename_in(x, sub)), f.clone()),
        Expr::Index(a, b) => Expr::Index(Box::new(rename_in(a, sub)), Box::new(rename_in(b, sub))),
        Expr::Cardinality(x) => Expr::Cardinality(Box::new(rename_in(x, sub))),
        Expr::InExpr(a, b) => Expr::InExpr(Box::new(rename_in(a, sub)), Box::new(rename_in(b, sub))),
        Expr::Range(a, b) => Expr::Range(Box::new(rename_in(a, sub)), Box::new(rename_in(b, sub))),
        Expr::Forall(vs, r, b) => Expr::Forall(clone_strings(vs), Box::new(rename_in(r, sub)), Box::new(rename_in(b, sub))),
        Expr::Exists(vs, r, b) => Expr::Exists(clone_strings(vs), Box::new(rename_in(r, sub)), Box::new(rename_in(b, sub))),
        Expr::Match(scrut, arms) => {
            let s2 = rename_in(scrut, sub);
            let mut out: Vec<MatchArm> = Vec::new();
            let mut i: usize = 0;
            while i < arms.len()
                invariant
                    0 <= i <= arms.len(),
                    *e == Expr::Match(*scrut, *arms),
                    out.len() == i,
                    forall|k: int|
                        0 <= k < i ==> pattern_view(#[trigger] out@[k].pattern) == pattern_view(arms@[k].pattern)
                            && expr_view(*out@[k].body) == rename_expr(expr_view(*arms@[k].body), subs_view(sub@)),
                decreases arms.len() - i,
            {
                proof {
                    assert(decreases_to!(*e => e->Match_1));
                    assert(decreases_to!(e->Match_1 => arms@[i as int]));
                    assert(decreases_to!(arms@[i as int] => arms@[i as int].body));
                }
                let b = rename_in(&arms[i].body, sub);
                out.push(MatchArm { pattern: clone_pattern(&arms[i].pattern), body: Box::new(b) });
                i += 1;
            }
            let r = Expr::Match(Box::new(s2), out);
            proof {
                lemma_list_views(r);
                assert(arms_view(out@) =~= rename_expr(e@, subs_view(sub@))->Match_1);
            }
            r
        },
        Expr::Matches(x, p) => Expr::Matches(Box::new(rename_in(x, sub)), clone_pattern(p)),
    }
}

/// Renames one body item in place; see `rename_item`.
fn rewrite_body_item(item: &mut BodyItem, sub: &Vec<(String, String)>)
    ensures
        body_item_view(*final(item)) == rename_item(body_item_view(*old(item)), subs_view(sub@)),
{
    let ghost sv = subs_view(sub@);
    let r = match &*item {
        BodyItem::Membership { name, ty, pins } => {
            let n = match remap_identifier(name, sub) {
                Some(x) => x,
                None => name.clone(),
            };
            BodyItem::Membership { name: n, ty: ty.clone(), pins: clone_pins(pins) }
        },
        BodyItem::Constraint(e) => BodyItem::Constraint(rename_in(e, sub)),
        BodyItem::ClaimCall { name, mappings } => {
            let mut out: Vec<Mapping> = Vec::new();
            let mut i: usize = 0;
            while i < mappings.len()
                invariant
                    0 <= i <= mappings.len(),
                    out.len() == i,
                    forall|k: int|
                        0 <= k < i ==> #[trigger] mapping_view(out@[k]) == (MappingV {
                            slot: mapping_view(mappings@[k]).slot,
                            value: rename_expr(mapping_view(mappings@[k]).value, subs_view(sub@)),
                        }),
                decreases mappings.len() - i,
            {
                out.push(Mapping { slot: mappings[i].slot.clone(), value: rename_in(&mappings[i].value, sub) });
                i += 1;
            }
            let ghost mv = mappings_view(mappings@);
            assert(mappings_view(out@) =~= Seq::new(
                mv.len(),
                |j: int| MappingV { slot: mv[j].slot, value: rename_expr(mv[j].value, sv) },
            ));
            BodyItem::ClaimCall { name: name.clone(), mappings: out }
        },
        _ => clone_body_item(item),
    };
    *item = r;
}


// ───────────────────────────── the substitution of one instance ─────────────────────────────

/// The renames of a call site: `slot ↦ target` for each mapping whose value
/// is an identifier; a later mapping of a slot replaces an earlier one.
pub open spec fn renames_sub(ms: Seq<MappingV>) -> Seq<(Seq<char>, Seq<char>)>
    decreases ms.len(),
{
    if ms.len() == 0 {
        Seq::empty()
    } else {
        let prev = renames_sub(ms.drop_last());
        match ms.last().value {
            ExprV::Identifier(t) => sub_set(prev, ms.last().slot, t),
            _ => prev,
        }
    }
}

/// The freshened form of a carried field for instance `id`.
pub open spec fn fresh_name(name: Seq<char>, id: u64) -> Seq<char> {
    name + "__pt"@ + decimal(id as nat)
}

/// Is `name` left out of freshening: a previous-tick name (it follows its
/// base), the shared first-tick flag, or a name already bound?
pub open spec fn kept_name(name: Seq<char>, sub: Seq<(Seq<char>, Seq<char>)>) -> bool {
    (name.len() > 0 && name[0] == '_') || name == "is_first_tick"@ || sub_get(sub, name) is Some
}

/// `sub` extended, over the first `n` items, with each field declared by a
/// membership bound to its freshened form, unless `kept_name` holds.
pub open spec fn members_sub(items: Seq<BodyItemV>, n: nat, sub: Seq<(Seq<char>, Seq<char>)>, id: u64) -> Seq<(Seq<char>, Seq<char>)>
    decreases n,
{
    if n == 0 || n > items.len() {
        sub
    } else {
        let prev = members_sub(items, (n - 1) as nat, sub, id);
        match items[n - 1] {
            BodyItemV::Membership { name, .. } => if kept_name(name, prev) {
                prev
            } else {
                prev.push((name, fresh_name(name, id)))
            },
            _ => prev,
        }
    }
}

/// The substitution of one instance: the call-site renames, then every other
/// declared field freshened with `id`.
pub open spec fn substitution(body: Seq<BodyItemV>, renames: Seq<MappingV>, id: u64) -> Seq<(Seq<char>, Seq<char>)> {
    members_sub(body, body.len(), renames_sub(renames), id)
}

/// The body an instance of `claim` contributes.
pub open spec fn instance_body(claim: SchemaDeclV, renames: Seq<MappingV>, id: u64) -> Seq<BodyItemV> {
    let sub = substitution(claim.body, renames, id);
    Seq::new(claim.body.len(), |i: int| rename_item(claim.body[i], sub))
}

fn starts_with_underscore(s: &String) -> (r: bool)
    ensures
        r == (s@.len() > 0 && s@[0] == '_'),
{
    let c = str_to_chars(s.as_str());
    c.len() > 0 && c[0] == '_'
}

/// The substitution of one instance of `claim`, freshened with `fresh`; see `substitution`.
pub fn build_substitution(claim: &SchemaDecl, renames: &Vec<Mapping>, fresh: u64) -> (r: Vec<(String, String)>)
    ensures
        subs_view(r@) == substitution(crate::ast::schema_view(*claim).body, mappings_view(renames@), fresh),
{
    proof {
        lemma_schema_lists(*claim);
    }
    let ghost mv = mappings_view(renames@);
    let mut sub: Vec<(String, String)> = Vec::new();
    let mut i: usize = 0;
    assert(subs_view(sub@) =~= renames_sub(mv.take(0)));
    while i < renames.len()
        invariant
            0 <= i <= renames.len(),
            mv == mappings_view(renames@),
            subs_view(sub@) == renames_sub(mv.take(i as int)),
        decreases renames.len() - i,
    {
        assert(mv.take(i + 1).drop_last() =~= mv.take(i as int));
        assert(mv.take(i + 1).last() == mapping_view(renames@[i as int]));
        if let Expr::Identifier(t) = &renames[i].value {
            sub_insert(&mut sub, renames[i].slot.clone(), t.clone());
        }
        i += 1;
    }
    assert(mv.take(renames.len() as int) =~= mv);
    let ghost bv = items_view(claim.body@);
    let ghost base = subs_view(sub@);
    let suffix = u64_decimal(fresh);
    let mut j: usize = 0;
    while j < claim.body.len()
        invariant
            0 <= j <= claim.body.len(),
            bv == items_view(claim.body@),
            base == renames_sub(mv),
            suffix@ == decimal(fresh as nat),
            subs_view(sub@) == members_sub(bv, j as nat, base, fresh),
        decreases claim.body.len() - j,
    {
        if let BodyItem::Membership { name, .. } = &claim.body[j] {
            let skip = starts_with_underscore(name) || str_is(name, "is_first_tick") || sub_find(&sub, name).is_some();
            proof {
                lemma_sub_index(subs_view(sub@), name@);
            }
            if !skip {
                let f = concat_str(&concat_str(name, "__pt"), suffix.as_str());
                let ghost kv = (name@, f@);
                let ghost before = subs_view(sub@);
                sub.push((name.clone(), f));
                assert(subs_view(sub@) =~= before.push(kv));
            }
        }
        j += 1;
    }
    sub
}

/// The body that an instance of `claim` with call-site `renames`
/// contributes, freshened with `fresh`; see `instance_body`.
pub fn rewrite_passthrough_body(claim: &SchemaDecl, renames: &Vec<Mapping>, fresh: u64) -> (r: Vec<BodyItem>)
    ensures
        items_view(r@) == instance_body(crate::ast::schema_view(*claim), mappings_view(renames@), fresh),
{
    proof {
        lemma_schema_lists(*claim);
    }
    let sub = build_substitution(claim, renames, fresh);
    let ghost sv = subs_view(sub@);
    let mut body: Vec<BodyItem> = Vec::new();
    let mut i: usize = 0;
    while i < claim.body.len()
        invariant
            0 <= i <= claim.body.len(),
            body.len() == i,
            sv == subs_view(sub@),
            sv == substitution(items_view(claim.body@), mappings_view(renames@), fresh),
            forall|k: int| 0 <= k < i ==> #[trigger] body_item_view(body@[k]) == rename_item(body_item_view(claim.body@[k]), sv),
        decreases claim.body.len() - i,
    {
        let mut item = clone_body_item(&claim.body[i]);
        rewrite_body_item(&mut item, &sub);
        body.push(item);
        i += 1;
    }
    assert(items_view(body@) =~= instance_body(crate::ast::schema_view(*claim), mappings_view(renames@), fresh));
    body
}

// ───────────────────────────── expansion ─────────────────────────────

/// The instance id after `id`, wrapping around.
pub open spec fn next_id(id: u64) -> u64 {
    if id == u64::MAX {
        0
    } else {
        (id + 1) as u64
    }
}

/// The first `n` items of a body with each parameterized passthrough of a
/// known claim replaced by its instance body, and the id after the last
/// one used. Each such passthrough takes the next id, in order; a
/// passthrough without renames, or of an unknown claim, is kept.
pub open spec fn expand_items(items: Seq<BodyItemV>, n: nat, schemas: Seq<SchemaDeclV>, id: u64) -> (Seq<BodyItemV>, u64)
    decreases n,
{
    if n == 0 || n > items.len() {
        (Seq::empty(), id)
    } else {
        let (prev, cur) = expand_items(items, (n - 1) as nat, schemas, id);
        let item = items[n - 1];
        match item {
            BodyItemV::Passthrough { name, renames } => if renames.len() > 0 {
                match find_schema(schemas, name) {
                    Some(claim) => (prev + instance_body(claim, renames, cur), next_id(cur)),
                    None => (prev.push(item), cur),
                }
            } else {
                (prev.push(item), cur)
            },
            _ => (prev.push(item), cur),
        }
    }
}

/// Replaces each parameterized passthrough in `s` by the renamed and
/// freshened body of the claim it names, looked up in `schemas`; see
/// `expand_items`. `next_id` is the counter of instance ids, advanced once
/// per expanded passthrough.
pub fn expand_parameterized_passthroughs(s: &mut SchemaDecl, schemas: &Vec<SchemaDecl>, next_id: &mut u64)
    ensures
        crate::ast::schema_view(*final(s)) == with_body(
            crate::ast::schema_view(*old(s)),
            expand_items(crate::ast::schema_view(*old(s)).body, crate::ast::schema_view(*old(s)).body.len(), schemas_view(schemas@), *old(next_id)).0,
        ),
        *final(next_id) == expand_items(
            crate::ast::schema_view(*old(s)).body,
            crate::ast::schema_view(*old(s)).body.len(),
            schemas_view(schemas@),
            *old(next_id),
        ).1,
{
    proof {
        lemma_schema_lists(*s);
    }
    let ghost bv = items_view(s.body@);
    let ghost sv = schemas_view(schemas@);
    let ghost id0 = *next_id;
    let ghost old_s = crate::ast::schema_view(*s);
    let mut out: Vec<BodyItem> = Vec::new();
    let mut i: usize = 0;
    while i < s.body.len()
        invariant
            0 <= i <= s.body.len(),
            bv == items_view(s.body@),
            sv == schemas_view(schemas@),
            expand_items(bv, i as nat, sv, id0) == (items_view(out@), *next_id),
        decreases s.body.len() - i,
    {
        let ghost before = items_view(out@);
        let mut done = false;
        if let BodyItem::Passthrough { name, renames } = &s.body[i] {
            if renames.len() > 0 {
                if let Some(claim) = lookup_schema(schemas, name) {
                    let extra = rewrite_passthrough_body(claim, renames, *next_id);
                    let mut k: usize = 0;
                    while k < extra.len()
                        invariant
                            0 <= k <= extra.len(),
                            items_view(out@) == before + items_view(extra@).take(k as int),
                        decreases extra.len() - k,
                    {
                        let c = clone_body_item(&extra[k]);
                        let ghost prev_out = items_view(out@);
                        out.push(c);
                        assert(items_view(out@) =~= prev_out.push(body_item_view(extra@[k as int])));
                        assert(items_view(out@) =~= before + items_view(extra@).take(k + 1));
                        k += 1;
                    }
                    assert(items_view(extra@).take(extra.len() as int) =~= items_view(extra@));
                    *next_id = if *next_id == u64::MAX { 0 } else { *next_id + 1 };
                    done = true;
                }
            }
        }
        if !done {
            out.push(clone_body_item(&s.body[i]));
            assert(items_view(out@) =~= before.push(bv[i as int]));
        }
        i += 1;
    }
    assert(expand_items(bv, bv.len(), sv, id0).0 == items_view(out@));
    s.body = out;
    proof {
        lemma_schema_lists(*s);
        assert(crate::ast::schema_view(*s) =~= with_body(old_s, items_view(s.body@)));
    }
}


// ───────────────────────────── laws ─────────────────────────────

proof fn lemma_decimal_nonempty(n: nat)
    ensures
        decimal(n).len() >= 1,
        n >= 10 ==> decimal(n).len() >= 2,
    decreases n,
{
    if n >= 10 {
        lemma_decimal_nonempty(n / 10);
    }
}

proof fn lemma_decimal_digits(n: nat)
    ensures
        forall|i: int| 0 <= i < decimal(n).len() ==> '0' <= #[trigger] decimal(n)[i] <= '9',
    decreases n,
{
    if n >= 10 {
        lemma_decimal_digits(n / 10);
        let d = decimal(n / 10);
        assert forall|i: int| 0 <= i < decimal(n).len() implies '0' <= #[trigger] decimal(n)[i] <= '9' by {
            if i < d.len() {
                assert(decimal(n)[i] == d[i]);
            }
        }
    }
}

proof fn lemma_decimal_injective(a: nat, b: nat)
    requires
        decimal(a) == decimal(b),
    ensures
        a == b,
    decreases a,
{
    lemma_decimal_nonempty(a);
    lemma_decimal_nonempty(b);
    if a < 10 && b < 10 {
        assert(decimal(a)[0] == digit_char_of(a as int));
    } else if a >= 10 && b >= 10 {
        let da = decimal(a / 10);
        let db = decimal(b / 10);
        assert(decimal(a).drop_last() =~= da);
        assert(decimal(b).drop_last() =~= db);
        lemma_decimal_injective(a / 10, b / 10);
        assert(decimal(a).last() == crate::text::digit_char((a % 10) as int));
        assert(decimal(b).last() == crate::text::digit_char((b % 10) as int));
    }
}

spec fn digit_char_of(d: int) -> char {
    crate::text::digit_char(d)
}

/// Two instances with different ids never freshen any two fields to the
/// same name: the two passthroughs of one claim stay independent.
pub proof fn law_instances_are_disjoint(n: Seq<char>, m: Seq<char>, a: u64, b: u64)
    requires
        a != b,
    ensures
        fresh_name(n, a) != fresh_name(m, b),
{
    let da = decimal(a as nat);
    let db = decimal(b as nat);
    let x = fresh_name(n, a);
    let y = fresh_name(m, b);
    lemma_decimal_digits(a as nat);
    lemma_decimal_digits(b as nat);
    reveal_strlit("__pt");
    assert(x =~= n + seq!['_', '_', 'p', 't'] + da);
    assert(y =~= m + seq!['_', '_', 'p', 't'] + db);
    if x == y {
        if da.len() == db.len() {
            assert(da =~= x.skip(x.len() - da.len()));
            assert(db =~= y.skip(y.len() - db.len()));
            lemma_decimal_injective(a as nat, b as nat);
        } else if da.len() < db.len() {
            let p = x.len() - da.len() - 1;
            assert(x[p] == (n + seq!['_', '_', 'p', 't'] + da)[n.len() + 3int]);
            assert(y[p] == db[p - (y.len() - db.len())]);
        } else {
            let p = y.len() - db.len() - 1;
            assert(y[p] == (m + seq!['_', '_', 'p', 't'] + db)[m.len() + 3int]);
            assert(x[p] == da[p - (x.len() - da.len())]);
        }
    }
}

proof fn lemma_sub_get_push(s: Seq<(Seq<char>, Seq<char>)>, k: Seq<char>, v: Seq<char>, x: Seq<char>)
    ensures
        sub_get(s.push((k, v)), x) == (if sub_get(s, x) is Some {
            sub_get(s, x)
        } else if k == x {
            Some(v)
        } else {
            None::<Seq<char>>
        }),
    decreases s.len(),
{
    if s.len() > 0 {
        assert(s.push((k, v)).drop_first() =~= s.drop_first().push((k, v)));
        lemma_sub_get_push(s.drop_first(), k, v, x);
    } else {
        assert(s.push((k, v)).drop_first() =~= Seq::<(Seq<char>, Seq<char>)>::empty());
        reveal_with_fuel(sub_get, 2);
    }
}

proof fn lemma_members_keep(items: Seq<BodyItemV>, n: nat, sub: Seq<(Seq<char>, Seq<char>)>, id: u64, x: Seq<char>)
    requires
        sub_get(sub, x) is Some,
    ensures
        sub_get(members_sub(items, n, sub, id), x) == sub_get(sub, x),
    decreases n,
{
    if n > 0 && n <= items.len() {
        lemma_members_keep(items, (n - 1) as nat, sub, id, x);
        let prev = members_sub(items, (n - 1) as nat, sub, id);
        if let BodyItemV::Membership { name, .. } = items[n - 1] {
            if !kept_name(name, prev) {
                lemma_sub_get_push(prev, name, fresh_name(name, id), x);
            }
        }
    }
}

/// A call-site rename is never overridden by freshening: the slot keeps its
/// target in the instance's substitution.
pub proof fn law_renames_win(body: Seq<BodyItemV>, renames: Seq<MappingV>, id: u64, slot: Seq<char>)
    requires
        sub_get(renames_sub(renames), slot) is Some,
    ensures
        sub_get(substitution(body, renames, id), slot) == sub_get(renames_sub(renames), slot),
{
    lemma_members_keep(body, body.len(), renames_sub(renames), id, slot);
}

proof fn lemma_dot_free(s: Seq<char>)
    requires
        forall|j: int| 0 <= j < s.len() ==> s[j] != '.',
    ensures
        dot_at(s) == s.len(),
    decreases s.len(),
{
    if s.len() > 0 {
        lemma_dot_free(s.drop_first());
    }
}

/// A field's previous-tick name follows the field: when `base` (no `.`, not
/// itself starting with `_`) is bound to `r`, `base` becomes `r` and `_base`
/// becomes `_r`.
pub proof fn law_prev_tick_follows(sub: Seq<(Seq<char>, Seq<char>)>, base: Seq<char>, r: Seq<char>)
    requires
        sub_get(sub, base) == Some(r),
        base.len() > 0,
        base[0] != '_',
        forall|j: int| 0 <= j < base.len() ==> base[j] != '.',
    ensures
        remap(base, sub) == Some(r),
        remap(seq!['_'] + base, sub) == Some(seq!['_'] + r),
{
    lemma_dot_free(base);
    assert(base.take(base.len() as int) =~= base);
    assert(base.skip(base.len() as int) =~= Seq::<char>::empty());
    assert((seq!['_'] + base).drop_first() =~= base);
    assert(r + Seq::<char>::empty() =~= r);
    assert(Seq::<char>::empty() + r =~= r);
    assert(seq!['_'] + r + Seq::<char>::empty() =~= seq!['_'] + r);
}

} // verus!
