//! Types of undeclared claim arguments. When a body calls a claim,
//! `c(x, y)` or `(x, y) ∈ c`, with a bare name that nothing declares, that
//! the body uses at least twice, and that is no schema, the name is declared
//! with the type of the claim's parameter in its position. The new
//! declarations go right after the schema's parameters, sorted by name.
use vstd::prelude::*;
use vstd::string::StringExecFns;
use crate::ast::{
    body_item_view, expr_view, exprs_view, items_view, lemma_list_views, lemma_schema_lists, strs_view, BodyItem,
    BodyItemV, Expr, ExprV, Pins, SchemaDecl, SchemaDeclV,
};
use crate::text::{chars_to_string, slice_chars, str_to_chars};
use crate::program::{find_schema, lookup_schema, schemas_view};
use crate::nested::decls_view;
use crate::lower::{
    body_declares, body_idents, collect_body_idents, declares, insert_items, is_member_named, member, occurrences,
    splice_items, with_body,
};
use crate::operators::member_decls;
use crate::functionize::{lemma_str_lt_total, lemma_str_lt_trans, str_lt, string_lt};

verus! {

// ───────────────────────────── which claim a call names ─────────────────────────────

/// The index of the last `.` of `s`, or `-1`.
pub open spec fn last_dot(s: Seq<char>) -> int
    decreases s.len(),
{
    if s.len() == 0 {
        -1
    } else if s.last() == '.' {
        s.len() - 1
    } else {
        last_dot(s.drop_last())
    }
}

pub open spec fn is_sub_named(item: BodyItemV, suffix: Seq<char>) -> bool {
    match item {
        BodyItemV::SubclaimDecl(sub) => sub.name == suffix,
        _ => false,
    }
}

/// The declaration of type `ty` holds a subclaim named `suffix`.
pub open spec fn type_has_sub(sc: Seq<SchemaDeclV>, ty: Seq<char>, suffix: Seq<char>) -> bool {
    match find_schema(sc, ty) {
        Some(td) => exists|j: int| 0 <= j < td.body.len() && is_sub_named(#[trigger] td.body[j], suffix),
        None => false,
    }
}

pub open spec fn member_with_sub(item: BodyItemV, prefix: Seq<char>, suffix: Seq<char>, sc: Seq<SchemaDeclV>) -> bool {
    match item {
        BodyItemV::Membership { name, ty, .. } => name == prefix && type_has_sub(sc, ty, suffix),
        _ => false,
    }
}

/// Some membership of `body` named `prefix` has a type whose declaration
/// holds a subclaim named `suffix`.
pub open spec fn member_has_sub(body: Seq<BodyItemV>, prefix: Seq<char>, suffix: Seq<char>, sc: Seq<SchemaDeclV>) -> bool {
    exists|i: int| 0 <= i < body.len() && member_with_sub(#[trigger] body[i], prefix, suffix, sc)
}

/// The claim a call target names, with the offset of the first argument
/// among the claim's parameters: a schema by its name (offset 0); else,
/// for `prefix.suffix`, a subclaim `suffix` of the type of member `prefix`
/// (offset 0), or the schema `suffix` as a method called on `prefix`
/// (offset 1).
pub open spec fn resolve_claim(name: Seq<char>, body: Seq<BodyItemV>, sc: Seq<SchemaDeclV>) -> Option<(Seq<char>, nat)> {
    if find_schema(sc, name) is Some {
        Some((name, 0))
    } else {
        let k = last_dot(name);
        if k < 0 {
            None
        } else {
            let prefix = name.take(k);
            let suffix = name.skip(k + 1);
            if last_dot(prefix) < 0 && member_has_sub(body, prefix, suffix, sc) {
                Some((suffix, 0))
            } else if find_schema(sc, suffix) is Some {
                Some((suffix, 1))
            } else {
                None
            }
        }
    }
}

// ───────────────────────────── what gets declared ─────────────────────────────

pub open spec fn map_has(m: Seq<(Seq<char>, Seq<char>)>, n: Seq<char>) -> bool {
    exists|i: int| 0 <= i < m.len() && #[trigger] m[i].0 == n
}

/// One argument at position `i`: a bare name that is not declared, not a
/// schema, used at least twice, and has a parameter in its position, is
/// typed by that parameter, unless already typed.
pub open spec fn arg_step(
    m: Seq<(Seq<char>, Seq<char>)>,
    arg: ExprV,
    pos: int,
    params: Seq<(Seq<char>, Seq<char>)>,
    body: Seq<BodyItemV>,
    sc: Seq<SchemaDeclV>,
) -> Seq<(Seq<char>, Seq<char>)> {
    match arg {
        ExprV::Identifier(a) => if last_dot(a) >= 0 || declares(body, a) || find_schema(sc, a) is Some || pos >= params.len()
            || occurrences(body_idents(body), a) < 2 || map_has(m, a) {
            m
        } else {
            m.push((a, params[pos].1))
        },
        _ => m,
    }
}

/// The first `k` arguments of a call of a claim with parameters `params`.
pub open spec fn args_fold(
    m: Seq<(Seq<char>, Seq<char>)>,
    args: Seq<ExprV>,
    k: nat,
    params: Seq<(Seq<char>, Seq<char>)>,
    off: nat,
    body: Seq<BodyItemV>,
    sc: Seq<SchemaDeclV>,
) -> Seq<(Seq<char>, Seq<char>)>
    decreases k,
{
    if k == 0 || k > args.len() {
        m
    } else {
        arg_step(args_fold(m, args, (k - 1) as nat, params, off, body, sc), args[k - 1], k - 1 + off, params, body, sc)
    }
}

/// A call of the claim `cn`; nothing when no schema is named `cn`.
pub open spec fn call_step(
    m: Seq<(Seq<char>, Seq<char>)>,
    target: Seq<char>,
    args: Seq<ExprV>,
    body: Seq<BodyItemV>,
    sc: Seq<SchemaDeclV>,
) -> Seq<(Seq<char>, Seq<char>)> {
    match resolve_claim(target, body, sc) {
        None => m,
        Some((cn, off)) => match find_schema(sc, cn) {
            None => m,
            Some(claim) => args_fold(m, args, args.len(), member_decls(claim.body), off, body, sc),
        },
    }
}

/// The names to declare, with their types, from the calls among the first
/// `n` items, in order of first finding.
pub open spec fn arg_types(body: Seq<BodyItemV>, n: nat, sc: Seq<SchemaDeclV>) -> Seq<(Seq<char>, Seq<char>)>
    decreases n,
{
    if n == 0 || n > body.len() {
        Seq::empty()
    } else {
        let m = arg_types(body, (n - 1) as nat, sc);
        match call_target(body[n - 1]) {
            Some((target, args)) => call_step(m, target, args, body, sc),
            None => m,
        }
    }
}

/// The call an item makes, if it is one: `c(args)`, or `(args) ∈ c`.
pub open spec fn call_target(item: BodyItemV) -> Option<(Seq<char>, Seq<ExprV>)> {
    match item {
        BodyItemV::Constraint(ExprV::Call(target, args)) => Some((target, args)),
        BodyItemV::Constraint(ExprV::InExpr(l, r)) => match (*l, *r) {
            (ExprV::Tuple(items), ExprV::Identifier(target)) => Some((target, items)),
            _ => None,
        },
        _ => None,
    }
}

/// `ks` lists the entries of `m` in strictly increasing name order.
pub open spec fn sorted_entries(m: Seq<(Seq<char>, Seq<char>)>, ks: Seq<(Seq<char>, Seq<char>)>) -> bool {
    &&& forall|a: int, b: int| 0 <= a < b < ks.len() ==> str_lt(#[trigger] ks[a].0, #[trigger] ks[b].0)
    &&& forall|p: (Seq<char>, Seq<char>)| #[trigger] ks.contains(p) <==> m.contains(p)
}

pub open spec fn arg_members(ks: Seq<(Seq<char>, Seq<char>)>) -> Seq<BodyItemV> {
    Seq::new(ks.len(), |i: int| member(ks[i].0, ks[i].1))
}

pub open spec fn claim_args_apply(s: SchemaDeclV, sc: Seq<SchemaDeclV>) -> bool {
    !s.external && arg_types(s.body, s.body.len(), sc).len() > 0
}

// ───────────────────────────── executable ─────────────────────────────

pub proof fn lemma_last_dot(s: Seq<char>)
    ensures
        -1 <= last_dot(s) < s.len(),
        last_dot(s) >= 0 ==> s[last_dot(s)] == '.',
        forall|j: int| last_dot(s) < j < s.len() ==> s[j] != '.',
    decreases s.len(),
{
    if s.len() > 0 && s.last() != '.' {
        lemma_last_dot(s.drop_last());
        assert forall|j: int| last_dot(s) < j < s.len() implies s[j] != '.' by {
            if j < s.len() - 1 {
                assert(s[j] == s.drop_last()[j]);
            }
        }
    }
}

pub(crate) fn last_dot_of(v: &Vec<char>) -> (r: Option<usize>)
    ensures
        match r {
            Some(k) => k as int == last_dot(v@),
            None => last_dot(v@) < 0,
        },
{
    let mut i: usize = v.len();
    assert(v@.take(v.len() as int) =~= v@);
    while i > 0
        invariant
            i <= v.len(),
            last_dot(v@) == last_dot(v@.take(i as int)),
        decreases i,
    {
        assert(v@.take(i as int).drop_last() =~= v@.take(i - 1));
        assert(v@.take(i as int).last() == v@[i - 1]);
        if v[i - 1] == '.' {
            return Some(i - 1);
        }
        i -= 1;
    }
    assert(v@.take(0) =~= Seq::<char>::empty());
    None
}

pub(crate) fn has_sub_named(td: &SchemaDecl, suffix: &String) -> (r: bool)
    ensures
        r == exists|j: int| 0 <= j < td@.body.len() && is_sub_named(#[trigger] td@.body[j], suffix@),
{
    proof {
        lemma_schema_lists(*td);
    }
    let mut j: usize = 0;
    while j < td.body.len()
        invariant
            0 <= j <= td.body.len(),
            td@.body == items_view(td.body@),
            forall|k: int| 0 <= k < j ==> !is_sub_named(#[trigger] td@.body[k], suffix@),
        decreases td.body.len() - j,
    {
        assert(td@.body[j as int] == body_item_view(td.body@[j as int]));
        if let BodyItem::SubclaimDecl(sub) = &td.body[j] {
            if sub.name == *suffix {
                return true;
            }
        }
        j += 1;
    }
    false
}

fn member_has_sub_of(body: &Vec<BodyItem>, prefix: &String, suffix: &String, schemas: &Vec<SchemaDecl>) -> (r: bool)
    ensures
        r == member_has_sub(items_view(body@), prefix@, suffix@, schemas_view(schemas@)),
{
    let ghost bv = items_view(body@);
    let ghost sv = schemas_view(schemas@);
    let mut i: usize = 0;
    while i < body.len()
        invariant
            0 <= i <= body.len(),
            bv == items_view(body@),
            sv == schemas_view(schemas@),
            forall|k: int| 0 <= k < i ==> !member_with_sub(#[trigger] bv[k], prefix@, suffix@, sv),
        decreases body.len() - i,
    {
        assert(bv[i as int] == body_item_view(body@[i as int]));
        if let BodyItem::Membership { name, ty, .. } = &body[i] {
            if *name == *prefix {
                if let Some(td) = lookup_schema(schemas, ty) {
                    if has_sub_named(td, suffix) {
                        return true;
                    }
                }
            }
        }
        i += 1;
    }
    false
}

/// The claim a call target names; see `resolve_claim`.
fn resolve_claim_of(name: &String, body: &Vec<BodyItem>, schemas: &Vec<SchemaDecl>) -> (r: Option<(String, usize)>)
    ensures
        match r {
            Some((cn, off)) => resolve_claim(name@, items_view(body@), schemas_view(schemas@)) == Some((cn@, off as nat)),
            None => resolve_claim(name@, items_view(body@), schemas_view(schemas@)) is None,
        },
{
    if lookup_schema(schemas, name).is_some() {
        return Some((name.clone(), 0));
    }
    let v = str_to_chars(name.as_str());
    let k = match last_dot_of(&v) {
        Some(k) => k,
        None => {
            return None;
        },
    };
    proof {
        lemma_last_dot(v@);
    }
    let pv = slice_chars(&v, 0, k);
    let prefix = chars_to_string(&pv);
    let suffix = chars_to_string(&slice_chars(&v, k + 1, v.len()));
    assert(prefix@ =~= name@.take(k as int));
    assert(suffix@ =~= name@.skip(k + 1));
    if last_dot_of(&pv).is_none() && member_has_sub_of(body, &prefix, &suffix, schemas) {
        return Some((suffix, 0));
    }
    if lookup_schema(schemas, &suffix).is_some() {
        return Some((suffix, 1));
    }
    None
}

fn map_has_of(m: &Vec<(String, String)>, n: &String) -> (r: bool)
    ensures
        r == map_has(decls_view(m@), n@),
{
    let ghost mv = decls_view(m@);
    let mut i: usize = 0;
    while i < m.len()
        invariant
            0 <= i <= m.len(),
            mv == decls_view(m@),
            forall|k: int| 0 <= k < i ==> #[trigger] mv[k].0 != n@,
        decreases m.len() - i,
    {
        assert(mv[i as int].0 == m@[i as int].0@);
        if m[i].0 == *n {
            return true;
        }
        i += 1;
    }
    false
}

fn count_in(ids: &Vec<String>, n: &String) -> (r: usize)
    ensures
        r as nat == occurrences(strs_view(ids@), n@),
{
    let ghost iv = strs_view(ids@);
    let mut c: usize = 0;
    let mut i: usize = 0;
    assert(iv.take(0) =~= Seq::<Seq<char>>::empty());
    while i < ids.len()
        invariant
            0 <= i <= ids.len(),
            iv == strs_view(ids@),
            c as nat == occurrences(iv.take(i as int), n@),
            c <= i,
        decreases ids.len() - i,
    {
        assert(iv.take(i + 1).drop_last() =~= iv.take(i as int));
        assert(iv.take(i + 1).last() == ids@[i as int]@);
        if ids[i] == *n {
            c += 1;
        }
        i += 1;
    }
    assert(iv.take(ids.len() as int) =~= iv);
    c
}

fn is_bare_name(a: &String) -> (r: bool)
    ensures
        r == (last_dot(a@) < 0),
{
    let v = str_to_chars(a.as_str());
    last_dot_of(&v).is_none()
}

/// Each argument of one call; see `args_fold`.
fn fold_args(
    m: &mut Vec<(String, String)>,
    args: &Vec<Expr>,
    params: &Vec<(String, String)>,
    off: usize,
    body: &Vec<BodyItem>,
    ids: &Vec<String>,
    schemas: &Vec<SchemaDecl>,
)
    requires
        strs_view(ids@) == body_idents(items_view(body@)),
    ensures
        decls_view(final(m)@) == args_fold(decls_view(old(m)@), exprs_view(args@), args.len() as nat, decls_view(params@), off as nat,
            items_view(body@), schemas_view(schemas@)),
{
    let ghost m0 = decls_view(m@);
    let ghost xv = exprs_view(args@);
    let ghost pv = decls_view(params@);
    let ghost bv = items_view(body@);
    let ghost sv = schemas_view(schemas@);
    let mut i: usize = 0;
    while i < args.len()
        invariant
            0 <= i <= args.len(),
            xv == exprs_view(args@),
            pv == decls_view(params@),
            bv == items_view(body@),
            sv == schemas_view(schemas@),
            strs_view(ids@) == body_idents(bv),
            decls_view(m@) == args_fold(m0, xv, i as nat, pv, off as nat, bv, sv),
        decreases args.len() - i,
    {
        let ghost before = decls_view(m@);
        assert(xv[i as int] == expr_view(args@[i as int]));
        if let Expr::Identifier(a) = &args[i] {
            let skip = !is_bare_name(a) || body_declares(body, a.as_str()) || lookup_schema(schemas, a).is_some()
                || off >= params.len() || i >= params.len() - off || count_in(ids, a) < 2 || map_has_of(m, a);
            if !skip {
                let ty = params[i + off].1.clone();
                m.push((a.clone(), ty));
                assert(decls_view(m@) =~= before.push((a@, pv[i + off].1)));
            }
        }
        i += 1;
    }
}

/// The names to declare, with their types; see `arg_types`.
fn arg_types_of(body: &Vec<BodyItem>, schemas: &Vec<SchemaDecl>) -> (r: Vec<(String, String)>)
    ensures
        decls_view(r@) == arg_types(items_view(body@), body.len() as nat, schemas_view(schemas@)),
{
    let ghost bv = items_view(body@);
    let ghost sv = schemas_view(schemas@);
    let ids = collect_body_idents(body);
    let mut m: Vec<(String, String)> = Vec::new();
    let mut i: usize = 0;
    assert(decls_view(m@) =~= Seq::<(Seq<char>, Seq<char>)>::empty());
    while i < body.len()
        invariant
            0 <= i <= body.len(),
            bv == items_view(body@),
            sv == schemas_view(schemas@),
            strs_view(ids@) == body_idents(bv),
            decls_view(m@) == arg_types(bv, i as nat, sv),
        decreases body.len() - i,
    {
        assert(bv[i as int] == body_item_view(body@[i as int]));
        let mut target: Option<(&String, &Vec<Expr>)> = None;
        if let BodyItem::Constraint(e) = &body[i] {
            proof {
                lemma_list_views(*e);
            }
            match e {
                Expr::Call(t, args) => {
                    assert(call_target(bv[i as int]) == Some((t@, exprs_view(args@))));
                    target = Some((t, args));
                },
                Expr::InExpr(l, r) => {
                    if let (Expr::Tuple(items), Expr::Identifier(t)) = (&**l, &**r) {
                        proof {
                            lemma_list_views(**l);
                            assert(expr_view(**l) == ExprV::Tuple(exprs_view(items@)));
                            assert(expr_view(**r) == ExprV::Identifier(t@));
                            assert(bv[i as int] == BodyItemV::Constraint(ExprV::InExpr(Box::new(expr_view(**l)), Box::new(expr_view(**r)))));
                        }
                        target = Some((t, items));
                    }
                },
                _ => {},
            }
        }
        let ghost before = decls_view(m@);
        assert(match target {
            Some((t, args)) => call_target(bv[i as int]) == Some((t@, exprs_view(args@))),
            None => call_target(bv[i as int]) is None,
        });
        if let Some((t, args)) = target {
            if let Some((cn, off)) = resolve_claim_of(t, body, schemas) {
                if let Some(claim) = lookup_schema(schemas, &cn) {
                    proof {
                        lemma_schema_lists(*claim);
                    }
                    let params = crate::operators::member_decls_of(&claim.body);
                    fold_args(&mut m, args, &params, off, body, &ids, schemas);
                }
            }
        }
        i += 1;
    }
    m
}

/// Sorts entries with distinct names by name.
fn sort_by_name(v: Vec<(String, String)>) -> (r: Vec<(String, String)>)
    requires
        forall|a: int, b: int| 0 <= a < b < v.len() ==> decls_view(v@)[a].0 != decls_view(v@)[b].0,
    ensures
        sorted_entries(decls_view(v@), decls_view(r@)),
{
    let ghost src = decls_view(v@);
    let mut pk = v;
    let mut out: Vec<(String, String)> = Vec::new();
    while pk.len() > 0
        invariant
            forall|a: int, b: int| 0 <= a < b < pk.len() ==> decls_view(pk@)[a].0 != decls_view(pk@)[b].0,
            forall|a: int, b: int| 0 <= a < b < out.len() ==> str_lt(#[trigger] decls_view(out@)[a].0, #[trigger] decls_view(out@)[b].0),
            forall|p: (Seq<char>, Seq<char>)| #[trigger] src.contains(p) <==> (decls_view(pk@).contains(p) || decls_view(out@).contains(p)),
            forall|a: int, b: int| 0 <= a < pk.len() && 0 <= b < out.len() ==> #[trigger] decls_view(pk@)[a].0 != #[trigger] decls_view(out@)[b].0,
        decreases pk.len(),
    {
        let ghost pv = decls_view(pk@);
        let ghost ov = decls_view(out@);
        let x = pk.pop().unwrap();
        let ghost xv = (x.0@, x.1@);
        assert(pv.last() == xv);
        assert(decls_view(pk@) =~= pv.drop_last());
        let mut j: usize = 0;
        while j < out.len() && string_lt(&out[j].0, &x.0)
            invariant
                0 <= j <= out.len(),
                ov == decls_view(out@),
                xv == (x.0@, x.1@),
                forall|a: int| 0 <= a < j ==> str_lt(#[trigger] ov[a].0, xv.0),
            decreases out.len() - j,
        {
            assert(ov[j as int] == (out@[j as int].0@, out@[j as int].1@));
            j += 1;
        }
        proof {
            assert forall|b: int| 0 <= b < ov.len() implies #[trigger] ov[b].0 != xv.0 by {
                assert(pv[pv.len() - 1].0 != ov[b].0);
            }
            if j < out.len() {
                assert(ov[j as int] == (out@[j as int].0@, out@[j as int].1@));
                assert(!str_lt(ov[j as int].0, xv.0));
                lemma_str_lt_total(ov[j as int].0, xv.0);
                assert forall|b: int| j <= b < ov.len() implies str_lt(xv.0, #[trigger] ov[b].0) by {
                    if b > j {
                        assert(str_lt(ov[j as int].0, ov[b].0));
                        lemma_str_lt_trans(xv.0, ov[j as int].0, ov[b].0);
                    }
                }
            }
        }
        out.insert(j, x);
        proof {
            let nv = decls_view(out@);
            assert(nv =~= ov.insert(j as int, xv));
            assert forall|a: int, b: int| 0 <= a < b < nv.len() implies str_lt(#[trigger] nv[a].0, #[trigger] nv[b].0) by {
                if a < j && b == j {
                } else if a < j && b > j {
                    assert(nv[a] == ov[a] && nv[b] == ov[b - 1]);
                } else if a == j {
                    assert(nv[b] == ov[b - 1]);
                } else if a > j {
                    assert(nv[a] == ov[a - 1] && nv[b] == ov[b - 1]);
                } else {
                    assert(nv[a] == ov[a] && nv[b] == ov[b]);
                }
            }
            assert forall|p: (Seq<char>, Seq<char>)| #[trigger] src.contains(p) <==> (decls_view(pk@).contains(p) || nv.contains(p)) by {
                if p == xv {
                    assert(nv[j as int] == xv);
                    assert(pv[pv.len() - 1] == xv);
                }
                if ov.contains(p) {
                    let a = choose|a: int| 0 <= a < ov.len() && ov[a] == p;
                    if a < j {
                        assert(nv[a] == p);
                    } else {
                        assert(nv[a + 1] == p);
                    }
                }
                if nv.contains(p) {
                    let a = choose|a: int| 0 <= a < nv.len() && nv[a] == p;
                    if a < j {
                        assert(ov[a] == p);
                    } else if a > j {
                        assert(ov[a - 1] == p);
                    }
                }
                if pv.contains(p) {
                    let a = choose|a: int| 0 <= a < pv.len() && pv[a] == p;
                    if a < pv.len() - 1 {
                        assert(decls_view(pk@)[a] == p);
                    }
                }
                if decls_view(pk@).contains(p) {
                    let a = choose|a: int| 0 <= a < decls_view(pk@).len() && decls_view(pk@)[a] == p;
                    assert(pv[a] == p);
                }
            }
            assert forall|a: int, b: int| 0 <= a < decls_view(pk@).len() && 0 <= b < nv.len() implies #[trigger] decls_view(pk@)[a].0 != #[trigger] nv[b].0 by {
                assert(decls_view(pk@)[a] == pv[a]);
                if b < j {
                    assert(nv[b] == ov[b]);
                } else if b > j {
                    assert(nv[b] == ov[b - 1]);
                } else {
                    assert(pv[a].0 != pv[pv.len() - 1].0);
                }
            }
            assert forall|a: int, b: int| 0 <= a < b < decls_view(pk@).len() implies decls_view(pk@)[a].0 != decls_view(pk@)[b].0 by {
                assert(decls_view(pk@)[a] == pv[a] && decls_view(pk@)[b] == pv[b]);
            }
        }
    }
    out
}


proof fn lemma_arg_types_distinct(body: Seq<BodyItemV>, n: nat, sc: Seq<SchemaDeclV>)
    ensures
        forall|a: int, b: int| 0 <= a < b < arg_types(body, n, sc).len() ==> arg_types(body, n, sc)[a].0 != arg_types(body, n, sc)[b].0,
    decreases n,
{
    if n > 0 && n <= body.len() {
        lemma_arg_types_distinct(body, (n - 1) as nat, sc);
        let m = arg_types(body, (n - 1) as nat, sc);
        if let Some((target, args)) = call_target(body[n - 1]) {
            if let Some((cn, off)) = resolve_claim(target, body, sc) {
                if let Some(claim) = find_schema(sc, cn) {
                    lemma_args_fold_distinct(m, args, args.len(), member_decls(claim.body), off, body, sc);
                }
            }
        }
    }
}

proof fn lemma_args_fold_distinct(
    m: Seq<(Seq<char>, Seq<char>)>,
    args: Seq<ExprV>,
    k: nat,
    params: Seq<(Seq<char>, Seq<char>)>,
    off: nat,
    body: Seq<BodyItemV>,
    sc: Seq<SchemaDeclV>,
)
    requires
        forall|a: int, b: int| 0 <= a < b < m.len() ==> m[a].0 != m[b].0,
    ensures
        forall|a: int, b: int| 0 <= a < b < args_fold(m, args, k, params, off, body, sc).len() ==> args_fold(m, args, k, params, off, body, sc)[a].0
            != args_fold(m, args, k, params, off, body, sc)[b].0,
    decreases k,
{
    if k > 0 && k <= args.len() {
        lemma_args_fold_distinct(m, args, (k - 1) as nat, params, off, body, sc);
        let p = args_fold(m, args, (k - 1) as nat, params, off, body, sc);
        let q = args_fold(m, args, k, params, off, body, sc);
        if q.len() > p.len() {
            assert forall|a: int, b: int| 0 <= a < b < q.len() implies q[a].0 != q[b].0 by {
                if b == p.len() {
                    assert(q[a] == p[a]);
                    assert(!map_has(p, q[b].0));
                }
            }
        }
    }
}

/// Declares each undeclared claim argument with the type of its parameter,
/// right after the schema's parameters and sorted by name; see `arg_types`.
/// External schemas, and bodies that need nothing, are unchanged.
pub fn inject_claim_arg_types(s: &mut SchemaDecl, schemas: &Vec<SchemaDecl>)
    requires
        claim_args_apply(old(s)@, schemas_view(schemas@)) ==> old(s).param_count <= old(s).body.len(),
    ensures
        claim_args_apply(old(s)@, schemas_view(schemas@)) ==> exists|ks: Seq<(Seq<char>, Seq<char>)>|
            sorted_entries(arg_types(old(s)@.body, old(s)@.body.len(), schemas_view(schemas@)), ks) && final(s)@ == with_body(
                old(s)@,
                insert_items(old(s)@.body, old(s).param_count as int, #[trigger] arg_members(ks)),
            ),
        !claim_args_apply(old(s)@, schemas_view(schemas@)) ==> final(s)@ == old(s)@,
{
    if s.external {
        return;
    }
    proof {
        lemma_schema_lists(*s);
    }
    let ghost old_s = s@;
    let entries = arg_types_of(&s.body, schemas);
    if entries.len() == 0 {
        return;
    }
    proof {
        lemma_arg_types_distinct(old_s.body, old_s.body.len(), schemas_view(schemas@));
    }
    let sorted = sort_by_name(entries);
    let ghost ks = decls_view(sorted@);
    let mut items: Vec<BodyItem> = Vec::new();
    let mut i: usize = 0;
    while i < sorted.len()
        invariant
            0 <= i <= sorted.len(),
            ks == decls_view(sorted@),
            items_view(items@) == arg_members(ks).take(i as int),
        decreases sorted.len() - i,
    {
        let ghost prev = items_view(items@);
        let it = BodyItem::Membership { name: sorted[i].0.clone(), ty: sorted[i].1.clone(), pins: Pins::Empty };
        assert(ks[i as int] == (sorted@[i as int].0@, sorted@[i as int].1@));
        assert(body_item_view(it) == member(ks[i as int].0, ks[i as int].1));
        items.push(it);
        assert(items_view(items@) =~= prev.push(member(ks[i as int].0, ks[i as int].1)));
        assert(items_view(items@) =~= arg_members(ks).take(i + 1));
        i += 1;
    }
    assert(arg_members(ks).take(sorted.len() as int) =~= arg_members(ks));
    let pos = s.param_count;
    splice_items(&mut s.body, pos, items);
    proof {
        lemma_schema_lists(*s);
        assert(s@ =~= with_body(old_s, insert_items(old_s.body, pos as int, arg_members(ks))));
    }
}

} // verus!
