//! Nested FSMs: `run(F, init)` drives a schema declared `fsm` to halt. This
//! module holds what decides whether `F` can be driven (its shape) and how
//! `init` seeds its state.
use vstd::prelude::*;
use vstd::string::StringExecFns;
use crate::ast::{
    body_item_view, items_view, lemma_schema_lists, BodyItem, BodyItemV, Keyword, SchemaDecl, SchemaDeclV,
};
use crate::functionize::{lemma_str_lt_irrefl_asym, lemma_str_lt_total, lemma_str_lt_trans, str_lt, string_lt};
use crate::program::{enum_view, find_enum, find_schema, EnumDeclV, Program};
use crate::text::{concat_str, decimal, ends_with, has_prefix, has_suffix, starts_with, str_is, usize_decimal};
use crate::value::{clone_value, lemma_value_lists, value_view, Value, ValueV};

verus! {

/// Why a `run(F, init)` cannot be evaluated.
#[derive(PartialEq, Debug)]
pub enum RunError {
    /// `run(F, ..)` named a schema that doesn't exist.
    UnknownFsm(String),
    /// `F` isn't declared `fsm`.
    NotFsm { fsm: String, keyword: String },
    /// `F` has no `name, name_next ∈ T` state pair.
    NoStatePair(String),
    /// `F` declares more than one state pair.
    MultipleStatePairs(String, usize),
    /// `F` has no `halt ∈ Bool` declaration.
    NoHaltVar(String),
    /// `F` is `external fsm`: its body is native, nothing to drive.
    ExternalNative(String),
    /// `init` couldn't be coerced to `F`'s state type.
    BadInit { fsm: String, ty: String, got: Value },
    /// A per-tick solve came back UNSAT.
    Unsat { fsm: String, step: usize },
    /// A per-tick model didn't bind the expected output or `halt`.
    MissingBinding { fsm: String, name: String, step: usize },
    /// A per-tick model bound `halt` to something other than a boolean.
    HaltNotBool { fsm: String, step: usize, got: Value },
    /// `halt` never fired within `max_steps` ticks.
    MaxItersExceeded { fsm: String, max_steps: usize },
    /// A runtime invariant did not hold.
    Internal(String),
}

/// A detected state pair: `input, output ∈ ty` with
/// `output == input ++ "_next"`.
#[derive(PartialEq, Debug)]
pub struct StatePair {
    pub input: String,
    pub output: String,
    pub ty: String,
}

pub open spec fn pair_view(p: StatePair) -> (Seq<char>, Seq<char>, Seq<char>) {
    (p.input@, p.output@, p.ty@)
}

pub open spec fn pairs_view(v: Seq<StatePair>) -> Seq<(Seq<char>, Seq<char>, Seq<char>)> {
    Seq::new(v.len(), |i: int| pair_view(v[i]))
}

// ───────────────────────────── state pairs ─────────────────────────────

/// The type most recently declared for `n` among the memberships of `items`.
pub open spec fn decl_type(items: Seq<BodyItemV>, n: Seq<char>) -> Option<Seq<char>>
    decreases items.len(),
{
    if items.len() == 0 {
        None
    } else {
        match items.last() {
            BodyItemV::Membership { name, ty, .. } => if name == n {
                Some(ty)
            } else {
                decl_type(items.drop_last(), n)
            },
            _ => decl_type(items.drop_last(), n),
        }
    }
}

/// `n` is declared, does not end in `_next`, and `n_next` is declared with
/// the same type.
pub open spec fn is_state_input(items: Seq<BodyItemV>, n: Seq<char>) -> bool {
    &&& decl_type(items, n) is Some
    &&& !has_suffix(n, "_next"@)
    &&& decl_type(items, n + "_next"@) == decl_type(items, n)
}

/// `pairs` lists every state pair of `items` once, ordered by input name.
pub open spec fn is_state_pair_list(items: Seq<BodyItemV>, pairs: Seq<(Seq<char>, Seq<char>, Seq<char>)>) -> bool {
    &&& forall|i: int, j: int| 0 <= i < j < pairs.len() ==> str_lt(#[trigger] pairs[i].0, #[trigger] pairs[j].0)
    &&& forall|i: int|
        0 <= i < pairs.len() ==> is_state_input(items, #[trigger] pairs[i].0) && pairs[i].1 == pairs[i].0 + "_next"@
            && decl_type(items, pairs[i].0) == Some(pairs[i].2)
    &&& forall|n: Seq<char>| #[trigger] is_state_input(items, n) ==> exists|i: int| 0 <= i < pairs.len() && pairs[i].0 == n
}

pub open spec fn decl_lookup(decls: Seq<(Seq<char>, Seq<char>)>, n: Seq<char>) -> Option<Seq<char>>
    decreases decls.len(),
{
    if decls.len() == 0 {
        None
    } else if decls.last().0 == n {
        Some(decls.last().1)
    } else {
        decl_lookup(decls.drop_last(), n)
    }
}

pub open spec fn decls_view(v: Seq<(String, String)>) -> Seq<(Seq<char>, Seq<char>)> {
    Seq::new(v.len(), |i: int| (v[i].0@, v[i].1@))
}

pub proof fn lemma_decl_lookup_in(decls: Seq<(Seq<char>, Seq<char>)>, n: Seq<char>)
    ensures
        decl_lookup(decls, n) is Some ==> exists|k: int| 0 <= k < decls.len() && decls[k].0 == n && decls[k].1 == decl_lookup(decls, n).unwrap(),
        (exists|k: int| 0 <= k < decls.len() && #[trigger] decls[k].0 == n) ==> decl_lookup(decls, n) is Some,
    decreases decls.len(),
{
    if decls.len() > 0 {
        lemma_decl_lookup_in(decls.drop_last(), n);
        if decl_lookup(decls, n) is Some && decls.last().0 != n {
            let k = choose|k: int| 0 <= k < decls.drop_last().len() && decls.drop_last()[k].0 == n
                && decls.drop_last()[k].1 == decl_lookup(decls.drop_last(), n).unwrap();
            assert(decls[k] == decls.drop_last()[k]);
        }
        if exists|k: int| 0 <= k < decls.len() && #[trigger] decls[k].0 == n {
            let k = choose|k: int| 0 <= k < decls.len() && #[trigger] decls[k].0 == n;
            if k < decls.len() - 1 {
                assert(decls.drop_last()[k].0 == n);
            }
        }
    }
}

/// With names unique, the lookup finds the one entry with the name.
pub proof fn lemma_decl_lookup_unique(decls: Seq<(Seq<char>, Seq<char>)>, n: Seq<char>)
    requires
        forall|a: int, b: int| 0 <= a < b < decls.len() ==> decls[a].0 != decls[b].0,
    ensures
        forall|k: int| 0 <= k < decls.len() && #[trigger] decls[k].0 == n ==> decl_lookup(decls, n) == Some(decls[k].1),
        (forall|k: int| 0 <= k < decls.len() ==> #[trigger] decls[k].0 != n) ==> decl_lookup(decls, n) is None,
    decreases decls.len(),
{
    if decls.len() > 0 {
        let d = decls.drop_last();
        assert forall|a: int, b: int| 0 <= a < b < d.len() implies d[a].0 != d[b].0 by {
            assert(d[a] == decls[a] && d[b] == decls[b]);
        }
        lemma_decl_lookup_unique(d, n);
        assert forall|k: int| 0 <= k < decls.len() && #[trigger] decls[k].0 == n implies decl_lookup(decls, n) == Some(
            decls[k].1,
        ) by {
            if k < decls.len() - 1 {
                assert(d[k] == decls[k]);
                assert(decls.last().0 != n);
            }
        }
        if forall|k: int| 0 <= k < decls.len() ==> #[trigger] decls[k].0 != n {
            assert forall|k: int| 0 <= k < d.len() implies #[trigger] d[k].0 != n by {
                assert(d[k] == decls[k]);
            }
            assert(decls[decls.len() - 1].0 != n);
        }
    }
}

/// The index of the entry named `name`.
pub(crate) fn find_decl(decls: &Vec<(String, String)>, name: &String) -> (r: Option<usize>)
    ensures
        match r {
            Some(j) => j < decls.len() && decls@[j as int].0@ == name@,
            None => forall|k: int| 0 <= k < decls.len() ==> decls@[k].0@ != name@,
        },
{
    let mut j: usize = 0;
    while j < decls.len()
        invariant
            0 <= j <= decls.len(),
            forall|k: int| 0 <= k < j ==> decls@[k].0@ != name@,
        decreases decls.len() - j,
    {
        if decls[j].0 == *name {
            return Some(j);
        }
        j += 1;
    }
    None
}

/// The latest type of each declared name, one entry per name.
pub(crate) fn declared_types(body: &Vec<BodyItem>) -> (r: Vec<(String, String)>)
    ensures
        forall|n: Seq<char>| #[trigger] decl_lookup(decls_view(r@), n) == decl_type(items_view(body@), n),
        forall|a: int, b: int| 0 <= a < b < r.len() ==> r@[a].0@ != r@[b].0@,
{
    let ghost iv = items_view(body@);
    let mut decls: Vec<(String, String)> = Vec::new();
    let mut i: usize = 0;
    while i < body.len()
        invariant
            0 <= i <= body.len(),
            iv == items_view(body@),
            forall|n: Seq<char>| #[trigger] decl_lookup(decls_view(decls@), n) == decl_type(iv.take(i as int), n),
            forall|a: int, b: int| 0 <= a < b < decls.len() ==> decls@[a].0@ != decls@[b].0@,
        decreases body.len() - i,
    {
        assert(iv.take(i + 1).drop_last() =~= iv.take(i as int));
        assert(iv.take(i + 1).last() == body_item_view(body@[i as int]));
        if let BodyItem::Membership { name, ty, .. } = &body[i] {
            let ghost old_dv = decls_view(decls@);
            let ghost mut idx: int = 0;
            match find_decl(&decls, name) {
                Some(j) => {
                    decls.set(j, (name.clone(), ty.clone()));
                    proof {
                        idx = j as int;
                    }
                },
                None => {
                    decls.push((name.clone(), ty.clone()));
                    proof {
                        idx = old_dv.len() as int;
                    }
                },
            }
            assert(decls_view(decls@)[idx] == (name@, ty@));
            assert(0 <= idx < decls.len());
            proof {
                let dv = decls_view(decls@);
                assert forall|a: int, b: int| 0 <= a < b < decls.len() implies decls@[a].0@ != decls@[b].0@ by {
                    assert(dv[a].0 == decls@[a].0@ && dv[b].0 == decls@[b].0@);
                    if a < old_dv.len() && b < old_dv.len() && a != b {
                        assert(old_dv[a].0 == dv[a].0 || dv[a].0 == name@);
                    }
                }
                assert(forall|a: int, b: int| 0 <= a < b < dv.len() ==> dv[a].0 != dv[b].0);
                assert(forall|a: int, b: int| 0 <= a < b < old_dv.len() ==> old_dv[a].0 != old_dv[b].0);
                assert forall|n: Seq<char>| #[trigger] decl_lookup(dv, n) == decl_type(iv.take(i + 1), n) by {
                    lemma_decl_lookup_unique(dv, n);
                    lemma_decl_lookup_unique(old_dv, n);
                    if n == name@ {
                        assert(dv[idx].0 == n);
                    } else {
                        if exists|k: int| 0 <= k < old_dv.len() && #[trigger] old_dv[k].0 == n {
                            let k = choose|k: int| 0 <= k < old_dv.len() && #[trigger] old_dv[k].0 == n;
                            assert(dv[k] == old_dv[k]);
                        } else {
                            assert forall|k: int| 0 <= k < dv.len() implies #[trigger] dv[k].0 != n by {
                                if k < old_dv.len() && dv[k].0 == n {
                                    assert(dv[k] == old_dv[k]);
                                }
                            }
                        }
                    }
                }
            }
        } else {
            assert forall|n: Seq<char>| #[trigger] decl_lookup(decls_view(decls@), n) == decl_type(iv.take(i + 1), n) by {}
        }
        i += 1;
    }
    assert(iv.take(body.len() as int) =~= iv);
    decls
}


pub open spec fn sorted_by_input(v: Seq<(Seq<char>, Seq<char>, Seq<char>)>) -> bool {
    forall|i: int, j: int| 0 <= i < j < v.len() ==> str_lt(#[trigger] v[i].0, #[trigger] v[j].0)
}

/// Insert `p` into `out`, which is ordered by input and does not hold
/// `p`'s input, keeping the order.
fn insert_by_input(out: &mut Vec<StatePair>, p: StatePair)
    requires
        sorted_by_input(pairs_view(old(out)@)),
        forall|k: int| 0 <= k < old(out).len() ==> old(out)@[k].input@ != p.input@,
    ensures
        sorted_by_input(pairs_view(final(out)@)),
        final(out).len() == old(out).len() + 1,
        forall|x: (Seq<char>, Seq<char>, Seq<char>)| pairs_view(final(out)@).contains(x) <==> (pairs_view(old(out)@).contains(x) || x == pair_view(p)),
{
    let ghost ov = pairs_view(out@);
    let mut k: usize = 0;
    while k < out.len() && string_lt(&out[k].input, &p.input)
        invariant
            0 <= k <= out.len(),
            ov == pairs_view(out@),
            forall|m: int| 0 <= m < k ==> str_lt(#[trigger] ov[m].0, p.input@),
        decreases out.len() - k,
    {
        k += 1;
    }
    let ghost pv = pair_view(p);
    out.insert(k, p);
    proof {
        let nv = pairs_view(out@);
        assert(nv =~= ov.insert(k as int, pv));
        if k < ov.len() {
            assert(!str_lt(ov[k as int].0, pv.0));
            assert(ov[k as int].0 != pv.0);
            lemma_str_lt_total(ov[k as int].0, pv.0);
        }
        assert forall|i: int, j: int| 0 <= i < j < nv.len() implies str_lt(#[trigger] nv[i].0, #[trigger] nv[j].0) by {
            if i < k && j == k {
            } else if i == k && j > k {
                if j - 1 > k {
                    lemma_str_lt_trans(pv.0, ov[k as int].0, ov[j - 1].0);
                }
            } else if i < k && j > k {
                assert(nv[i] == ov[i] && nv[j] == ov[j - 1]);
            } else if i > k {
                assert(nv[i] == ov[i - 1] && nv[j] == ov[j - 1]);
            } else {
                assert(nv[i] == ov[i] && nv[j] == ov[j]);
            }
        }
        assert forall|x: (Seq<char>, Seq<char>, Seq<char>)| nv.contains(x) <==> (ov.contains(x) || x == pv) by {
            if nv.contains(x) {
                let m = choose|m: int| 0 <= m < nv.len() && nv[m] == x;
                if m < k {
                    assert(ov[m] == x);
                } else if m > k {
                    assert(ov[m - 1] == x);
                }
            }
            if ov.contains(x) {
                let m = choose|m: int| 0 <= m < ov.len() && ov[m] == x;
                if m < k {
                    assert(nv[m] == x);
                } else {
                    assert(nv[m + 1] == x);
                }
            }
            if x == pv {
                assert(nv[k as int] == x);
            }
        }
    }
}

/// `is_state_input` over the declared-type table.
pub open spec fn is_pair_input(dv: Seq<(Seq<char>, Seq<char>)>, n: Seq<char>) -> bool {
    &&& decl_lookup(dv, n) is Some
    &&& !has_suffix(n, "_next"@)
    &&& decl_lookup(dv, n + "_next"@) == decl_lookup(dv, n)
}

/// The state pair whose input is the `i`-th declared name, if it is one.
fn state_pair_at(decls: &Vec<(String, String)>, i: usize) -> (r: Option<StatePair>)
    requires
        i < decls.len(),
        forall|a: int, b: int| 0 <= a < b < decls.len() ==> decls@[a].0@ != decls@[b].0@,
    ensures
        match r {
            Some(p) => pair_view(p) == (decls@[i as int].0@, decls@[i as int].0@ + "_next"@, decls@[i as int].1@)
                && is_pair_input(decls_view(decls@), decls@[i as int].0@) && decl_lookup(
                decls_view(decls@),
                decls@[i as int].0@,
            ) == Some(decls@[i as int].1@),
            None => !is_pair_input(decls_view(decls@), decls@[i as int].0@),
        },
{
    let ghost dv = decls_view(decls@);
    assert(forall|a: int, b: int| 0 <= a < b < dv.len() ==> dv[a].0 != dv[b].0);
    proof {
        lemma_decl_lookup_unique(dv, dv[i as int].0);
    }
    assert(dv[i as int] == (decls@[i as int].0@, decls@[i as int].1@));
    let name = &decls[i].0;
    let ty = &decls[i].1;
    if ends_with(name, "_next") {
        return None;
    }
    let next = concat_str(name, "_next");
    proof {
        lemma_decl_lookup_unique(dv, next@);
    }
    match find_decl(decls, &next) {
        Some(k) => {
            assert(dv[k as int] == (decls@[k as int].0@, decls@[k as int].1@));
            if decls[k].1 == *ty {
                Some(StatePair { input: name.clone(), output: next, ty: ty.clone() })
            } else {
                None
            }
        },
        None => None,
    }
}

pub open spec fn inputs_of(v: Seq<(Seq<char>, Seq<char>, Seq<char>)>) -> Seq<Seq<char>> {
    Seq::new(v.len(), |m: int| v[m].0)
}

pub open spec fn names_of(dv: Seq<(Seq<char>, Seq<char>)>) -> Seq<Seq<char>> {
    Seq::new(dv.len(), |a: int| dv[a].0)
}

/// What `detect_state_pairs` keeps while it scans the first `i` names.
pub open spec fn pairs_so_far(dv: Seq<(Seq<char>, Seq<char>)>, out: Seq<(Seq<char>, Seq<char>, Seq<char>)>, i: int) -> bool {
    &&& sorted_by_input(out)
    &&& forall|m: int|
        0 <= m < out.len() ==> is_pair_input(dv, #[trigger] out[m].0) && out[m].1 == out[m].0 + "_next"@ && decl_lookup(
            dv,
            out[m].0,
        ) == Some(out[m].2)
    &&& forall|m: int| 0 <= m < out.len() ==> names_of(dv).take(i).contains(#[trigger] out[m].0)
    &&& forall|a: int| 0 <= a < i && is_pair_input(dv, #[trigger] dv[a].0) ==> inputs_of(out).contains(dv[a].0)
}

/// The `name, name_next ∈ T` pairs of the schema body (both halves with
/// the same, most recently declared type), ordered by `name`.
fn detect_state_pairs(schema: &SchemaDecl) -> (r: Vec<StatePair>)
    ensures
        is_state_pair_list(schema@.body, pairs_view(r@)),
{
    proof {
        lemma_schema_lists(*schema);
    }
    let ghost iv = items_view(schema.body@);
    let decls = declared_types(&schema.body);
    let ghost dv = decls_view(decls@);
    let mut out: Vec<StatePair> = Vec::new();
    let mut i: usize = 0;
    while i < decls.len()
        invariant
            0 <= i <= decls.len(),
            dv == decls_view(decls@),
            forall|a: int, b: int| 0 <= a < b < decls.len() ==> decls@[a].0@ != decls@[b].0@,
            pairs_so_far(dv, pairs_view(out@), i as int),
        decreases decls.len() - i,
    {
        assert(dv[i as int] == (decls@[i as int].0@, decls@[i as int].1@));
        let ghost before = pairs_view(out@);
        if let Some(p) = state_pair_at(&decls, i) {
            let ghost pv = pair_view(p);
            proof {
                lemma_fresh_input(dv, before, i as int);
                assert forall|m: int| 0 <= m < out.len() implies out@[m].input@ != p.input@ by {
                    assert(before[m].0 == out@[m].input@);
                }
            }
            insert_by_input(&mut out, p);
            proof {
                lemma_insert_keeps(dv, before, pairs_view(out@), pv, i as int);
            }
        } else {
            proof {
                lemma_skip_keeps(dv, before, i as int);
            }
        }
        i += 1;
    }
    proof {
        let ov = pairs_view(out@);
        assert(names_of(dv).take(dv.len() as int) =~= names_of(dv));
        assert forall|n: Seq<char>| #[trigger] is_state_input(iv, n) implies exists|m: int|
            0 <= m < ov.len() && ov[m].0 == n by {
            lemma_decl_lookup_in(dv, n);
            let a = choose|a: int| 0 <= a < dv.len() && dv[a].0 == n && dv[a].1 == decl_lookup(dv, n).unwrap();
            assert(is_pair_input(dv, dv[a].0));
            assert(inputs_of(ov).contains(n));
            let m = choose|m: int| 0 <= m < inputs_of(ov).len() && inputs_of(ov)[m] == n;
            assert(ov[m].0 == n);
        }
        assert forall|m: int| 0 <= m < ov.len() implies is_state_input(iv, #[trigger] ov[m].0) by {
            assert(is_pair_input(dv, ov[m].0));
        }
    }
    out
}

/// The `i`-th declared name is not yet among the inputs found so far.
proof fn lemma_fresh_input(dv: Seq<(Seq<char>, Seq<char>)>, before: Seq<(Seq<char>, Seq<char>, Seq<char>)>, i: int)
    requires
        0 <= i < dv.len(),
        forall|a: int, b: int| 0 <= a < b < dv.len() ==> dv[a].0 != dv[b].0,
        pairs_so_far(dv, before, i),
    ensures
        forall|m: int| 0 <= m < before.len() ==> #[trigger] before[m].0 != dv[i].0,
{
    assert forall|m: int| 0 <= m < before.len() implies #[trigger] before[m].0 != dv[i].0 by {
        assert(names_of(dv).take(i).contains(before[m].0));
        let a = choose|a: int| 0 <= a < names_of(dv).take(i).len() && names_of(dv).take(i)[a] == before[m].0;
        assert(names_of(dv)[a] == dv[a].0);
    }
}

proof fn lemma_skip_keeps(dv: Seq<(Seq<char>, Seq<char>)>, out: Seq<(Seq<char>, Seq<char>, Seq<char>)>, i: int)
    requires
        0 <= i < dv.len(),
        pairs_so_far(dv, out, i),
        !is_pair_input(dv, dv[i].0),
    ensures
        pairs_so_far(dv, out, i + 1),
{
    assert forall|m: int| 0 <= m < out.len() implies names_of(dv).take(i + 1).contains(#[trigger] out[m].0) by {
        assert(names_of(dv).take(i).contains(out[m].0));
        let a = choose|a: int| 0 <= a < names_of(dv).take(i).len() && names_of(dv).take(i)[a] == out[m].0;
        assert(names_of(dv).take(i + 1)[a] == out[m].0);
    }
}

/// The loop step of `detect_state_pairs`: inserting the pair of the
/// `i`-th declared name keeps what the loop maintains.
proof fn lemma_insert_keeps(
    dv: Seq<(Seq<char>, Seq<char>)>,
    before: Seq<(Seq<char>, Seq<char>, Seq<char>)>,
    after: Seq<(Seq<char>, Seq<char>, Seq<char>)>,
    pv: (Seq<char>, Seq<char>, Seq<char>),
    i: int,
)
    requires
        0 <= i < dv.len(),
        pv == (dv[i].0, dv[i].0 + "_next"@, dv[i].1),
        is_pair_input(dv, dv[i].0),
        decl_lookup(dv, dv[i].0) == Some(dv[i].1),
        forall|x: (Seq<char>, Seq<char>, Seq<char>)| after.contains(x) <==> (before.contains(x) || x == pv),
        sorted_by_input(after),
        pairs_so_far(dv, before, i),
    ensures
        pairs_so_far(dv, after, i + 1),
{
    assert forall|m: int| 0 <= m < after.len() implies is_pair_input(dv, #[trigger] after[m].0) && after[m].1 == after[m].0
        + "_next"@ && decl_lookup(dv, after[m].0) == Some(after[m].2) by {
        assert(after.contains(after[m]));
        if after[m] != pv {
            let mm = choose|mm: int| 0 <= mm < before.len() && before[mm] == after[m];
            assert(is_pair_input(dv, before[mm].0));
        }
    }
    assert forall|m: int| 0 <= m < after.len() implies names_of(dv).take(i + 1).contains(#[trigger] after[m].0) by {
        assert(after.contains(after[m]));
        if after[m] != pv {
            let mm = choose|mm: int| 0 <= mm < before.len() && before[mm] == after[m];
            assert(names_of(dv).take(i).contains(before[mm].0));
            let a = choose|a: int| 0 <= a < names_of(dv).take(i).len() && names_of(dv).take(i)[a] == before[mm].0;
            assert(names_of(dv).take(i + 1)[a] == after[m].0);
        } else {
            assert(names_of(dv).take(i + 1)[i] == after[m].0);
        }
    }
    assert forall|a: int| 0 <= a < i + 1 && is_pair_input(dv, #[trigger] dv[a].0) implies inputs_of(after).contains(
        dv[a].0,
    ) by {
        if a < i {
            assert(inputs_of(before).contains(dv[a].0));
            let mm = choose|mm: int| 0 <= mm < inputs_of(before).len() && inputs_of(before)[mm] == dv[a].0;
            assert(before.contains(before[mm]));
            assert(after.contains(before[mm]));
            let k = choose|k: int| 0 <= k < after.len() && after[k] == before[mm];
            assert(inputs_of(after)[k] == dv[a].0);
        } else {
            assert(after.contains(pv));
            let k = choose|k: int| 0 <= k < after.len() && after[k] == pv;
            assert(inputs_of(after)[k] == dv[a].0);
        }
    }
}


// ───────────────────────────── shape ─────────────────────────────

pub enum RunErrorV {
    UnknownFsm(Seq<char>),
    NotFsm { fsm: Seq<char>, keyword: Seq<char> },
    NoStatePair(Seq<char>),
    MultipleStatePairs(Seq<char>, nat),
    NoHaltVar(Seq<char>),
    ExternalNative(Seq<char>),
    BadInit { fsm: Seq<char>, ty: Seq<char>, got: ValueV },
    Unsat { fsm: Seq<char>, step: nat },
    MissingBinding { fsm: Seq<char>, name: Seq<char>, step: nat },
    HaltNotBool { fsm: Seq<char>, step: nat, got: ValueV },
    MaxItersExceeded { fsm: Seq<char>, max_steps: nat },
    Internal(Seq<char>),
}

pub open spec fn run_error_view(e: RunError) -> RunErrorV {
    match e {
        RunError::UnknownFsm(n) => RunErrorV::UnknownFsm(n@),
        RunError::NotFsm { fsm, keyword } => RunErrorV::NotFsm { fsm: fsm@, keyword: keyword@ },
        RunError::NoStatePair(n) => RunErrorV::NoStatePair(n@),
        RunError::MultipleStatePairs(n, k) => RunErrorV::MultipleStatePairs(n@, k as nat),
        RunError::NoHaltVar(n) => RunErrorV::NoHaltVar(n@),
        RunError::ExternalNative(n) => RunErrorV::ExternalNative(n@),
        RunError::BadInit { fsm, ty, got } => RunErrorV::BadInit { fsm: fsm@, ty: ty@, got: got@ },
        RunError::Unsat { fsm, step } => RunErrorV::Unsat { fsm: fsm@, step: step as nat },
        RunError::MissingBinding { fsm, name, step } => RunErrorV::MissingBinding {
            fsm: fsm@,
            name: name@,
            step: step as nat,
        },
        RunError::HaltNotBool { fsm, step, got } => RunErrorV::HaltNotBool { fsm: fsm@, step: step as nat, got: got@ },
        RunError::MaxItersExceeded { fsm, max_steps } => RunErrorV::MaxItersExceeded {
            fsm: fsm@,
            max_steps: max_steps as nat,
        },
        RunError::Internal(s) => RunErrorV::Internal(s@),
    }
}

/// The surface word of a keyword.
pub open spec fn keyword_text(k: Keyword) -> Seq<char> {
    match k {
        Keyword::Schema => "schema"@,
        Keyword::Claim => "claim"@,
        Keyword::Type => "type"@,
        Keyword::Subclaim => "subclaim"@,
        Keyword::Fsm => "fsm"@,
    }
}

/// Does the body declare `halt ∈ Bool`?
pub open spec fn declares_halt(items: Seq<BodyItemV>) -> bool {
    exists|i: int|
        0 <= i < items.len() && (#[trigger] items[i] matches BodyItemV::Membership { name, ty, .. } && name == "halt"@ && ty
            == "Bool"@)
}

/// The first membership named `effects` or typed `Seq(Effect)`.
pub open spec fn effects_channel(items: Seq<BodyItemV>) -> Option<Seq<char>>
    decreases items.len(),
{
    if items.len() == 0 {
        None
    } else {
        match items[0] {
            BodyItemV::Membership { name, ty, .. } => if name == "effects"@ || ty == "Seq(Effect)"@ {
                Some(name)
            } else {
                effects_channel(items.drop_first())
            },
            _ => effects_channel(items.drop_first()),
        }
    }
}

/// Is `schema` drivable by `run`: declared `fsm`, not external, with
/// exactly one state pair and `halt ∈ Bool`? On success, the pair.
pub open spec fn shape_ok(schema: SchemaDeclV, pair: (Seq<char>, Seq<char>, Seq<char>)) -> bool {
    &&& schema.keyword == Keyword::Fsm
    &&& !schema.external
    &&& is_state_pair_list(schema.body, seq![pair])
    &&& declares_halt(schema.body)
}

/// The error that `check_shape` reports for `schema`, if any; the first
/// failing requirement in the order: keyword, external, pair count, halt.
pub open spec fn shape_error(schema: SchemaDeclV, fsm: Seq<char>, e: RunErrorV) -> bool {
    if schema.keyword != Keyword::Fsm {
        e == (RunErrorV::NotFsm { fsm, keyword: keyword_text(schema.keyword) })
    } else if schema.external {
        e == RunErrorV::ExternalNative(fsm)
    } else {
        exists|p: Seq<(Seq<char>, Seq<char>, Seq<char>)>|
            #[trigger] is_state_pair_list(schema.body, p) && if p.len() == 0 {
                e == RunErrorV::NoStatePair(fsm)
            } else if p.len() > 1 {
                e == RunErrorV::MultipleStatePairs(fsm, p.len())
            } else {
                !declares_halt(schema.body) && e == RunErrorV::NoHaltVar(fsm)
            }
    }
}

/// The surface word of a keyword.
fn keyword_word(kw: &Keyword) -> (r: &'static str)
    ensures
        r@ == keyword_text(*kw),
{
    match kw {
        Keyword::Schema => "schema",
        Keyword::Claim => "claim",
        Keyword::Type => "type",
        Keyword::Subclaim => "subclaim",
        Keyword::Fsm => "fsm",
    }
}

fn has_halt_bool(schema: &SchemaDecl) -> (r: bool)
    ensures
        r == declares_halt(schema@.body),
{
    proof {
        lemma_schema_lists(*schema);
    }
    let ghost iv = items_view(schema.body@);
    let mut i: usize = 0;
    while i < schema.body.len()
        invariant
            0 <= i <= schema.body.len(),
            iv == items_view(schema.body@),
            iv == schema@.body,
            forall|k: int|
                0 <= k < i ==> !(#[trigger] iv[k] matches BodyItemV::Membership { name, ty, .. } && name == "halt"@ && ty
                    == "Bool"@),
        decreases schema.body.len() - i,
    {
        assert(iv[i as int] == body_item_view(schema.body@[i as int]));
        if let BodyItem::Membership { name, ty, .. } = &schema.body[i] {
            if str_is(name, "halt") && str_is(ty, "Bool") {
                return true;
            }
        }
        i += 1;
    }
    false
}

/// The name of the `effects ∈ Seq(Effect)` channel, if the body has one.
pub(crate) fn effects_var_name(schema: &SchemaDecl) -> (r: Option<String>)
    ensures
        match r {
            Some(n) => effects_channel(schema@.body) == Some(n@),
            None => effects_channel(schema@.body) is None,
        },
{
    proof {
        lemma_schema_lists(*schema);
    }
    let ghost iv = items_view(schema.body@);
    let mut i: usize = 0;
    assert(iv.subrange(0, iv.len() as int) =~= iv);
    while i < schema.body.len()
        invariant
            0 <= i <= schema.body.len(),
            iv == items_view(schema.body@),
            iv == schema@.body,
            effects_channel(iv) == effects_channel(iv.subrange(i as int, iv.len() as int)),
        decreases schema.body.len() - i,
    {
        let ghost rest = iv.subrange(i as int, iv.len() as int);
        assert(rest[0] == body_item_view(schema.body@[i as int]));
        assert(rest.drop_first() =~= iv.subrange(i + 1, iv.len() as int));
        if let BodyItem::Membership { name, ty, .. } = &schema.body[i] {
            if str_is(name, "effects") || str_is(ty, "Seq(Effect)") {
                return Some(name.clone());
            }
        }
        i += 1;
    }
    None
}

/// The shape check shared by `validate_run_target` and `run`: the state
/// pair of a drivable FSM, or why it is not one.
pub(crate) fn check_shape(schema: &SchemaDecl, fsm_name: &str) -> (r: Result<StatePair, RunError>)
    ensures
        match r {
            Ok(p) => shape_ok(schema@, pair_view(p)),
            Err(e) => shape_error(schema@, fsm_name@, run_error_view(e)),
        },
{
    if !matches!(schema.keyword, Keyword::Fsm) {
        return Err(
            RunError::NotFsm {
                fsm: String::from_str(fsm_name),
                keyword: String::from_str(keyword_word(&schema.keyword)),
            },
        );
    }
    if schema.external {
        return Err(RunError::ExternalNative(String::from_str(fsm_name)));
    }
    let mut pairs = detect_state_pairs(schema);
    let ghost pv = pairs_view(pairs@);
    assert(is_state_pair_list(schema@.body, pv));
    if pairs.len() == 0 {
        return Err(RunError::NoStatePair(String::from_str(fsm_name)));
    }
    if pairs.len() > 1 {
        return Err(RunError::MultipleStatePairs(String::from_str(fsm_name), pairs.len()));
    }
    if !has_halt_bool(schema) {
        return Err(RunError::NoHaltVar(String::from_str(fsm_name)));
    }
    let p = pairs.remove(0);
    assert(pv =~= seq![pair_view(p)]);
    Ok(p)
}

/// Check at load time that `fsm_name` names a drivable FSM: declared
/// `fsm`, not external, one state pair and `halt ∈ Bool`.
pub fn validate_run_target(rt: &Program, fsm_name: &str) -> (r: Result<(), RunError>)
    ensures
        match find_schema(rt.schemas_v(), fsm_name@) {
            None => r matches Err(e) && run_error_view(e) == RunErrorV::UnknownFsm(fsm_name@),
            Some(s) => match r {
                Ok(_) => exists|p: (Seq<char>, Seq<char>, Seq<char>)| shape_ok(s, p),
                Err(e) => shape_error(s, fsm_name@, run_error_view(e)),
            },
        },
{
    let name = String::from_str(fsm_name);
    let schema = match rt.get_schema(&name) {
        Some(s) => s,
        None => return Err(RunError::UnknownFsm(name)),
    };
    match check_shape(schema, fsm_name) {
        Ok(p) => {
            assert(shape_ok(schema@, pair_view(p)));
            Ok(())
        },
        Err(e) => Err(e),
    }
}


// ───────────────────────────── seeding ─────────────────────────────

pub open spec fn is_primitive_name(t: Seq<char>) -> bool {
    t == "Int"@ || t == "Bool"@ || t == "Real"@ || t == "String"@
}

/// `X` of a type written `Seq(X)`.
pub open spec fn seq_elem_type(t: Seq<char>) -> Option<Seq<char>> {
    if t.len() >= 5 && has_prefix(t, "Seq("@) && has_suffix(t, ")"@) {
        Some(t.subrange(4, t.len() - 1))
    } else {
        None
    }
}

pub open spec fn is_int_like(t: Seq<char>) -> bool {
    t == "Int"@ || t == "Nat"@ || t == "Pos"@
}

/// Does `v`'s kind match a payload field declared with type `ft`? An
/// empty sequence of enum values matches any `Seq(..)`.
pub open spec fn matches_field_type(v: ValueV, ft: Seq<char>) -> bool {
    match v {
        ValueV::Int(_) => is_int_like(ft),
        ValueV::Bool(_) => ft == "Bool"@,
        ValueV::Real(_) => ft == "Real"@,
        ValueV::Str(_) => ft == "String"@,
        ValueV::Enum { enum_name, .. } => ft == enum_name,
        ValueV::SeqInt(_) => seq_elem_type(ft) matches Some(x) && is_int_like(x),
        ValueV::SeqBool(_) => seq_elem_type(ft) == Some("Bool"@),
        ValueV::SeqStr(_) => seq_elem_type(ft) == Some("String"@),
        ValueV::SeqEnum(elems) => match seq_elem_type(ft) {
            Some(inner) => elems.len() == 0 || (elems[0] matches ValueV::Enum { enum_name, .. } && enum_name == inner),
            None => false,
        },
        _ => false,
    }
}

/// `init` wrapped in the first variant of enum `ty`, when that variant has
/// one payload field whose type `init` matches.
pub open spec fn seeded(enums: Seq<EnumDeclV>, ty: Seq<char>, init: ValueV) -> Option<ValueV> {
    match find_enum(enums, ty) {
        Some(e) => if e.variants.len() > 0 && e.variants[0].field_types.len() == 1 && matches_field_type(
            init,
            e.variants[0].field_types[0],
        ) {
            Some(ValueV::Enum { enum_name: ty, variant: e.variants[0].name, fields: seq![init] })
        } else {
            None
        },
        None => None,
    }
}

pub open spec fn primitive_kind_ok(ty: Seq<char>, init: ValueV) -> bool {
    (ty == "Int"@ && init is Int) || (ty == "Bool"@ && init is Bool) || (ty == "Real"@ && init is Real) || (ty
        == "String"@ && init is Str)
}

/// The state `init` seeds for state type `ty`: `init` itself for a
/// matching primitive or a value of the enum `ty`, otherwise `seeded`.
pub open spec fn coerced(enums: Seq<EnumDeclV>, ty: Seq<char>, init: ValueV) -> Option<ValueV> {
    if is_primitive_name(ty) {
        if primitive_kind_ok(ty, init) {
            Some(init)
        } else {
            None
        }
    } else if init matches ValueV::Enum { enum_name, .. } && enum_name == ty {
        Some(init)
    } else {
        seeded(enums, ty, init)
    }
}

fn is_primitive(t: &String) -> (r: bool)
    ensures
        r == is_primitive_name(t@),
{
    str_is(t, "Int") || str_is(t, "Bool") || str_is(t, "Real") || str_is(t, "String")
}

fn is_int_like_exec(t: &String) -> (r: bool)
    ensures
        r == is_int_like(t@),
{
    str_is(t, "Int") || str_is(t, "Nat") || str_is(t, "Pos")
}

/// `X` of a type written `Seq(X)`.
fn parse_seq_type(t: &String) -> (r: Option<String>)
    ensures
        match r {
            Some(x) => seq_elem_type(t@) == Some(x@),
            None => seq_elem_type(t@) is None,
        },
{
    let chars = crate::text::str_to_chars(t.as_str());
    if chars.len() >= 5 && starts_with(t, "Seq(") && ends_with(t, ")") {
        let inner = crate::text::slice_chars(&chars, 4, chars.len() - 1);
        Some(crate::text::chars_to_string(&inner))
    } else {
        None
    }
}

/// Does `v`'s kind match a payload field declared with type `ft`?
fn value_matches_field_type(v: &Value, ft: &String) -> (r: bool)
    ensures
        r == matches_field_type(v@, ft@),
{
    proof {
        lemma_value_lists(*v);
    }
    match v {
        Value::Int(_) => is_int_like_exec(ft),
        Value::Bool(_) => str_is(ft, "Bool"),
        Value::Real(_) => str_is(ft, "Real"),
        Value::Str(_) => str_is(ft, "String"),
        Value::Enum { enum_name, .. } => *ft == *enum_name,
        Value::SeqInt(_) => match parse_seq_type(ft) {
            Some(x) => is_int_like_exec(&x),
            None => false,
        },
        Value::SeqBool(_) => match parse_seq_type(ft) {
            Some(x) => str_is(&x, "Bool"),
            None => false,
        },
        Value::SeqStr(_) => match parse_seq_type(ft) {
            Some(x) => str_is(&x, "String"),
            None => false,
        },
        Value::SeqEnum(elems) => match parse_seq_type(ft) {
            Some(inner) => {
                if elems.len() == 0 {
                    true
                } else {
                    proof {
                        lemma_value_lists(elems@[0]);
                    }
                    assert(values_view_at(elems@, 0) == value_view(elems@[0]));
                    match &elems[0] {
                        Value::Enum { enum_name, .. } => *enum_name == inner,
                        _ => false,
                    }
                }
            },
            None => false,
        },
        _ => false,
    }
}

pub open spec fn values_view_at(v: Seq<Value>, i: int) -> ValueV {
    crate::value::values_view(v)[i]
}

/// `init` wrapped in the first variant of enum `ty`; see `seeded`.
fn seed_first_variant(rt: &Program, ty: &String, init: &Value) -> (r: Option<Value>)
    ensures
        match r {
            Some(v) => seeded(rt.enums_v(), ty@, init@) == Some(v@),
            None => seeded(rt.enums_v(), ty@, init@) is None,
        },
{
    let e = match rt.get_enum(ty) {
        Some(e) => e,
        None => return None,
    };
    if e.variants.len() == 0 {
        return None;
    }
    let first = &e.variants[0];
    assert(enum_view(*e).variants[0] == crate::program::variant_view(*first));
    if first.fields.len() != 1 {
        return None;
    }
    if !value_matches_field_type(init, &first.fields[0].ty) {
        return None;
    }
    let mut fields: Vec<Value> = Vec::new();
    fields.push(clone_value(init));
    let v = Value::Enum { enum_name: ty.clone(), variant: first.name.clone(), fields };
    proof {
        lemma_value_lists(v);
        assert(crate::value::values_view(fields@) =~= seq![init@]);
    }
    Some(v)
}

/// Coerce `init` to the state type `ty` of `fsm_name`; see `coerced`.
pub(crate) fn coerce_init(rt: &Program, fsm_name: &str, ty: &String, init: &Value) -> (r: Result<Value, RunError>)
    ensures
        match r {
            Ok(v) => coerced(rt.enums_v(), ty@, init@) == Some(v@),
            Err(e) => coerced(rt.enums_v(), ty@, init@) is None && run_error_view(e) == (RunErrorV::BadInit {
                fsm: fsm_name@,
                ty: ty@,
                got: init@,
            }),
        },
{
    proof {
        lemma_value_lists(*init);
    }
    if is_primitive(ty) {
        let ok = match init {
            Value::Int(_) => str_is(ty, "Int"),
            Value::Bool(_) => str_is(ty, "Bool"),
            Value::Real(_) => str_is(ty, "Real"),
            Value::Str(_) => str_is(ty, "String"),
            _ => false,
        };
        if ok {
            return Ok(clone_value(init));
        }
        return Err(RunError::BadInit { fsm: String::from_str(fsm_name), ty: ty.clone(), got: clone_value(init) });
    }
    if let Value::Enum { enum_name, .. } = init {
        if *enum_name == *ty {
            return Ok(clone_value(init));
        }
    }
    if let Some(seeded) = seed_first_variant(rt, ty, init) {
        return Ok(seeded);
    }
    Err(RunError::BadInit { fsm: String::from_str(fsm_name), ty: ty.clone(), got: clone_value(init) })
}


// ───────────────────────────── messages ─────────────────────────────

/// The text of a run error; `shown` is how the offending value of `BadInit`
/// and `HaltNotBool` is written.
pub open spec fn run_error_text(e: RunErrorV, shown: Seq<char>) -> Seq<char> {
    match e {
        RunErrorV::UnknownFsm(n) => "run: first argument `"@ + n + "` doesn't name a known schema"@,
        RunErrorV::NotFsm { fsm, keyword } => "run's target `"@ + fsm + "` must be declared `fsm`, not `"@ + keyword
            + "` — the `fsm` keyword is the sole signal that a schema is an FSM (no shape-detection). Relabel `"@
            + keyword + " "@ + fsm + "` to `fsm "@ + fsm + "`."@,
        RunErrorV::NoStatePair(n) => "run("@ + n
            + ", ..): `run`'s first argument must name an FSM-shaped schema (a `name, name_next ∈ T` state pair + `halt ∈ Bool`); `"@
            + n + "` has no state pair"@,
        RunErrorV::MultipleStatePairs(n, k) => "run("@ + n + ", ..): FSM has "@ + decimal(k)
            + " state pairs; v1 supports exactly one"@,
        RunErrorV::NoHaltVar(n) => "run("@ + n
            + ", ..): `run`'s first argument must name an FSM-shaped schema (state pair + `halt ∈ Bool`); `"@ + n
            + "` declares no `halt ∈ Bool`"@,
        RunErrorV::ExternalNative(n) => "run("@ + n + ", ..): `run`'s target can't be an `external fsm` (`"@ + n
            + "`) — its body is implemented in Rust, so there's no per-tick body to drive as a value. Run it as a top-level or spawned FSM instead"@,
        RunErrorV::BadInit { fsm, ty, .. } => "run("@ + fsm + ", ..): can't seed state of type `"@ + ty
            + "` from init value "@ + shown,
        RunErrorV::Unsat { fsm, step } => "run("@ + fsm + ", ..): FSM body returned UNSAT at step "@ + decimal(step)
            + " (no model for the pinned input state)"@,
        RunErrorV::MissingBinding { fsm, name, step } => "run("@ + fsm + ", ..): step "@ + decimal(step)
            + " model has no `"@ + name + "` binding"@,
        RunErrorV::HaltNotBool { fsm, step, .. } => "run("@ + fsm + ", ..): step "@ + decimal(step)
            + " model binds `halt` to "@ + shown + ", not a Bool"@,
        RunErrorV::MaxItersExceeded { fsm, max_steps } => "run("@ + fsm + ", ..): exceeded the "@ + decimal(max_steps)
            + "-step max-iteration guard without `halt` ever firing — non-terminating (or too-slow) FSM. Raise the guard via LoopOpts.max_steps if this is a legitimately long run."@,
        RunErrorV::Internal(m) => "run: internal: "@ + m,
    }
}

impl RunError {
    /// The error's text; see `run_error_text`.
    pub fn message(&self, shown: &str) -> (r: String)
        ensures
            r@ == run_error_text(run_error_view(*self), shown@),
    {
        match self {
            RunError::UnknownFsm(n) => {
                let mut r = String::from_str("run: first argument `");
                r = concat_str(&r, n.as_str());
                r = concat_str(&r, "` doesn't name a known schema");
                assert(r@ =~= run_error_text(run_error_view(*self), shown@));
                r
            },
            RunError::NotFsm { fsm, keyword } => {
                let mut r = String::from_str("run's target `");
                r = concat_str(&r, fsm.as_str());
                r = concat_str(&r, "` must be declared `fsm`, not `");
                r = concat_str(&r, keyword.as_str());
                r = concat_str(&r, "` — the `fsm` keyword is the sole signal that a schema is an FSM (no shape-detection). Relabel `");
                r = concat_str(&r, keyword.as_str());
                r = concat_str(&r, " ");
                r = concat_str(&r, fsm.as_str());
                r = concat_str(&r, "` to `fsm ");
                r = concat_str(&r, fsm.as_str());
                r = concat_str(&r, "`.");
                assert(r@ =~= run_error_text(run_error_view(*self), shown@));
                r
            },
            RunError::NoStatePair(n) => {
                let mut r = String::from_str("run(");
                r = concat_str(&r, n.as_str());
                r = concat_str(&r, ", ..): `run`'s first argument must name an FSM-shaped schema (a `name, name_next ∈ T` state pair + `halt ∈ Bool`); `");
                r = concat_str(&r, n.as_str());
                r = concat_str(&r, "` has no state pair");
                assert(r@ =~= run_error_text(run_error_view(*self), shown@));
                r
            },
            RunError::MultipleStatePairs(n, k) => {
                let d = usize_decimal(*k);
                let mut r = String::from_str("run(");
                r = concat_str(&r, n.as_str());
                r = concat_str(&r, ", ..): FSM has ");
                r = concat_str(&r, d.as_str());
                r = concat_str(&r, " state pairs; v1 supports exactly one");
                assert(r@ =~= run_error_text(run_error_view(*self), shown@));
                r
            },
            RunError::NoHaltVar(n) => {
                let mut r = String::from_str("run(");
                r = concat_str(&r, n.as_str());
                r = concat_str(&r, ", ..): `run`'s first argument must name an FSM-shaped schema (state pair + `halt ∈ Bool`); `");
                r = concat_str(&r, n.as_str());
                r = concat_str(&r, "` declares no `halt ∈ Bool`");
                assert(r@ =~= run_error_text(run_error_view(*self), shown@));
                r
            },
            RunError::ExternalNative(n) => {
                let mut r = String::from_str("run(");
                r = concat_str(&r, n.as_str());
                r = concat_str(&r, ", ..): `run`'s target can't be an `external fsm` (`");
                r = concat_str(&r, n.as_str());
                r = concat_str(&r, "`) — its body is implemented in Rust, so there's no per-tick body to drive as a value. Run it as a top-level or spawned FSM instead");
                assert(r@ =~= run_error_text(run_error_view(*self), shown@));
                r
            },
            RunError::BadInit { fsm, ty, .. } => {
                let mut r = String::from_str("run(");
                r = concat_str(&r, fsm.as_str());
                r = concat_str(&r, ", ..): can't seed state of type `");
                r = concat_str(&r, ty.as_str());
                r = concat_str(&r, "` from init value ");
                r = concat_str(&r, shown);
                assert(r@ =~= run_error_text(run_error_view(*self), shown@));
                r
            },
            RunError::Unsat { fsm, step } => {
                let d = usize_decimal(*step);
                let mut r = String::from_str("run(");
                r = concat_str(&r, fsm.as_str());
                r = concat_str(&r, ", ..): FSM body returned UNSAT at step ");
                r = concat_str(&r, d.as_str());
                r = concat_str(&r, " (no model for the pinned input state)");
                assert(r@ =~= run_error_text(run_error_view(*self), shown@));
                r
            },
            RunError::MissingBinding { fsm, name, step } => {
                let d = usize_decimal(*step);
                let mut r = String::from_str("run(");
                r = concat_str(&r, fsm.as_str());
                r = concat_str(&r, ", ..): step ");
                r = concat_str(&r, d.as_str());
                r = concat_str(&r, " model has no `");
                r = concat_str(&r, name.as_str());
                r = concat_str(&r, "` binding");
                assert(r@ =~= run_error_text(run_error_view(*self), shown@));
                r
            },
            RunError::HaltNotBool { fsm, step, .. } => {
                let d = usize_decimal(*step);
                let mut r = String::from_str("run(");
                r = concat_str(&r, fsm.as_str());
                r = concat_str(&r, ", ..): step ");
                r = concat_str(&r, d.as_str());
                r = concat_str(&r, " model binds `halt` to ");
                r = concat_str(&r, shown);
                r = concat_str(&r, ", not a Bool");
                assert(r@ =~= run_error_text(run_error_view(*self), shown@));
                r
            },
            RunError::MaxItersExceeded { fsm, max_steps } => {
                let d = usize_decimal(*max_steps);
                let mut r = String::from_str("run(");
                r = concat_str(&r, fsm.as_str());
                r = concat_str(&r, ", ..): exceeded the ");
                r = concat_str(&r, d.as_str());
                r = concat_str(&r, "-step max-iteration guard without `halt` ever firing — non-terminating (or too-slow) FSM. Raise the guard via LoopOpts.max_steps if this is a legitimately long run.");
                assert(r@ =~= run_error_text(run_error_view(*self), shown@));
                r
            },
            RunError::Internal(m) => {
                let mut r = String::from_str("run: internal: ");
                r = concat_str(&r, m.as_str());
                assert(r@ =~= run_error_text(run_error_view(*self), shown@));
                r
            },
        }
    }
}

} // verus!
