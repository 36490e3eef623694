//! Which effects of a solved model run this tick, and in what order.
//!
//! With an `effects` slot, its sequence is the dispatch list. Without one,
//! every `Effect` value of the model is a node (an element of a sequence
//! of effects is the node `name[i]`, an element of a sequence field of a
//! record sequence is `name[i].field[j]`), consecutive elements of one
//! such sequence are ordered, and each sequence literal of the claim's
//! body that lists nodes orders them too; the nodes are then sorted along
//! those edges with ties broken at random.
use vstd::prelude::*;
use vstd::string::StringExecFns;
use crate::ast::{
    body_item_view, expr_view, exprs_view, items_view, lemma_list_views, strings_contain, strs_view, BinOp, BinOpV,
    BodyItem, BodyItemV, Expr, ExprV,
};
use crate::codec::{clone_effect, dec_effect, decode_effect, effect_view, effects_view, Effect, EffectV};
use crate::value::{lemma_value_lists, record_view, records_view, value_view, values_view, Value, ValueV};
use crate::text::{i64_decimal, signed_decimal};
use crate::program::{find_schema, Program};
use crate::ast::SchemaDeclV;
use crate::kahn::{lemma_strs_multiset, seeded_rng, shuffle_vec};
use crate::toposort::{fallback, name_pairs, topo_prefix, topo_sort_with_random_tiebreak, topo_stalled};
use crate::value::{env_find, env_get, lemma_env_index};

verus! {

// ───────────────────────────── node names ─────────────────────────────

/// `n[i]`.
pub open spec fn index_name(n: Seq<char>, i: int) -> Seq<char> {
    n + "["@ + signed_decimal(i) + "]"@
}

/// `n[i]`; see `index_name`.
fn index_name_of(n: &String, i: i64) -> (r: String)
    ensures
        r@ == index_name(n@, i as int),
{
    let mut s = n.clone();
    s.append("[");
    let d = i64_decimal(i);
    s.append(d.as_str());
    s.append("]");
    s
}

/// The node an element of a sequence literal names: a node name itself,
/// `name[i]`, or `outer[i].field[j]`, when that is one of `set`.
pub open spec fn chain_node(e: ExprV, set: Seq<Seq<char>>) -> Option<Seq<char>> {
    match e {
        ExprV::Identifier(n) => if set.contains(n) {
            Some(n)
        } else {
            None
        },
        ExprV::Index(sq, idx) => match *sq {
            ExprV::Identifier(name) => match *idx {
                ExprV::Int(i) => if set.contains(index_name(name, i as int)) {
                    Some(index_name(name, i as int))
                } else {
                    None
                },
                _ => None,
            },
            ExprV::Field(inner, field) => match *inner {
                ExprV::Index(outer, oidx) => match (*outer, *oidx, *idx) {
                    (ExprV::Identifier(on), ExprV::Int(i), ExprV::Int(j)) => {
                        let syn = index_name(on, i as int) + "."@ + index_name(field, j as int);
                        if set.contains(syn) {
                            Some(syn)
                        } else {
                            None
                        }
                    },
                    _ => None,
                },
                _ => None,
            },
            _ => None,
        },
        _ => None,
    }
}

/// The elements of the sequence literal on either side of `a = b` (the
/// right side first).
pub open spec fn eq_seq_lit(item: BodyItemV) -> Option<Seq<ExprV>> {
    match item {
        BodyItemV::Constraint(ExprV::Binary(BinOpV::Eq, l, r)) => match *r {
            ExprV::SeqLit(xs) => Some(xs),
            _ => match *l {
                ExprV::SeqLit(xs) => Some(xs),
                _ => None,
            },
        },
        _ => None,
    }
}

/// The chain a body item declares: the nodes of a sequence literal every
/// element of which names a node.
pub open spec fn item_chain(item: BodyItemV, set: Seq<Seq<char>>) -> Option<Seq<Seq<char>>> {
    match eq_seq_lit(item) {
        Some(xs) => if forall|i: int| 0 <= i < xs.len() ==> (#[trigger] chain_node(xs[i], set)) is Some {
            Some(Seq::new(xs.len(), |i: int| chain_node(xs[i], set).unwrap()))
        } else {
            None
        },
        None => None,
    }
}

/// The chains of the first `n` body items, in order.
pub open spec fn chains(body: Seq<BodyItemV>, set: Seq<Seq<char>>, n: nat) -> Seq<Seq<Seq<char>>>
    decreases n,
{
    if n == 0 || n > body.len() {
        Seq::empty()
    } else {
        chains(body, set, (n - 1) as nat) + match item_chain(body[n - 1], set) {
            Some(c) => seq![c],
            None => Seq::empty(),
        }
    }
}

/// The node an element names; see `chain_node`.
fn chain_node_of(e: &Expr, set: &Vec<String>) -> (r: Option<String>)
    ensures
        opt_name(r) == chain_node(e@, strs_view(set@)),
{
    proof {
        reveal_with_fuel(expr_view, 4);
    }
    match e {
        Expr::Identifier(n) => {
            if strings_contain(set, n) {
                Some(n.clone())
            } else {
                None
            }
        },
        Expr::Index(sq, idx) => match &**sq {
            Expr::Identifier(name) => match &**idx {
                Expr::Int(i) => {
                    let syn = index_name_of(name, *i);
                    if strings_contain(set, &syn) {
                        Some(syn)
                    } else {
                        None
                    }
                },
                _ => None,
            },
            Expr::Field(inner, field) => match &**inner {
                Expr::Index(outer, oidx) => match (&**outer, &**oidx, &**idx) {
                    (Expr::Identifier(on), Expr::Int(i), Expr::Int(j)) => {
                        let mut syn = index_name_of(on, *i);
                        syn.append(".");
                        let tail = index_name_of(field, *j);
                        syn.append(tail.as_str());
                        if strings_contain(set, &syn) {
                            Some(syn)
                        } else {
                            None
                        }
                    },
                    _ => None,
                },
                _ => None,
            },
            _ => None,
        },
        _ => None,
    }
}

pub open spec fn opt_name(o: Option<String>) -> Option<Seq<char>> {
    match o {
        Some(s) => Some(s@),
        None => None,
    }
}

pub open spec fn chains_view(v: Seq<Vec<String>>) -> Seq<Seq<Seq<char>>> {
    Seq::new(v.len(), |i: int| strs_view(v[i]@))
}

/// The chain a body item declares; see `item_chain`.
fn item_chain_of(item: &BodyItem, set: &Vec<String>) -> (r: Option<Vec<String>>)
    ensures
        match r {
            Some(c) => item_chain(item@, strs_view(set@)) == Some(strs_view(c@)),
            None => item_chain(item@, strs_view(set@)) is None,
        },
{
    proof {
        reveal_with_fuel(expr_view, 2);
    }
    let xs: &Vec<Expr> = match item {
        BodyItem::Constraint(Expr::Binary(BinOp::Eq, l, r)) => {
            proof {
                lemma_list_views(**l);
                lemma_list_views(**r);
            }
            match &**r {
                Expr::SeqLit(xs) => xs,
                _ => match &**l {
                    Expr::SeqLit(xs) => xs,
                    _ => {
                        return None;
                    },
                },
            }
        },
        _ => {
            return None;
        },
    };
    let ghost xv = exprs_view(xs@);
    assert(eq_seq_lit(item@) == Some(xv));
    let ghost sv = strs_view(set@);
    let mut names: Vec<String> = Vec::new();
    let mut i: usize = 0;
    while i < xs.len()
        invariant
            0 <= i <= xs.len(),
            xv == exprs_view(xs@),
            sv == strs_view(set@),
            eq_seq_lit(item@) == Some(xv),
            names.len() == i,
            forall|k: int| 0 <= k < i ==> (#[trigger] chain_node(xv[k], sv)) == Some(names@[k]@),
        decreases xs.len() - i,
    {
        match chain_node_of(&xs[i], set) {
            Some(n) => names.push(n),
            None => {
                assert(chain_node(xv[i as int], sv) is None);
                return None;
            },
        }
        i += 1;
    }
    assert(strs_view(names@) =~= Seq::new(xv.len(), |k: int| chain_node(xv[k], sv).unwrap()));
    Some(names)
}

/// The ordering chains the body's sequence literals declare over the node
/// names `set`: one per literal every element of which names a node.
pub fn extract_seq_effect_chains(body: &Vec<BodyItem>, set: &Vec<String>) -> (r: Vec<Vec<String>>)
    ensures
        chains_view(r@) == chains(items_view(body@), strs_view(set@), body.len() as nat),
{
    let ghost bv = items_view(body@);
    let ghost sv = strs_view(set@);
    let mut out: Vec<Vec<String>> = Vec::new();
    let mut i: usize = 0;
    while i < body.len()
        invariant
            0 <= i <= body.len(),
            bv == items_view(body@),
            sv == strs_view(set@),
            chains_view(out@) == chains(bv, sv, i as nat),
        decreases body.len() - i,
    {
        assert(bv[i as int] == body_item_view(body@[i as int]));
        let ghost before = chains_view(out@);
        match item_chain_of(&body[i], set) {
            Some(c) => {
                out.push(c);
                assert(chains_view(out@) =~= before.push(strs_view(c@)));
                assert(chains(bv, sv, (i + 1) as nat) =~= before + seq![strs_view(c@)]);
            },
            None => {
                assert(chains(bv, sv, (i + 1) as nat) =~= before);
            },
        }
        i += 1;
    }
    out
}

// ───────────────────────────── resolving names ─────────────────────────────

/// The effect last stored under `n`.
pub open spec fn lookup_node(vals: Seq<(Seq<char>, EffectV)>, n: Seq<char>) -> Option<EffectV>
    decreases vals.len(),
{
    if vals.len() == 0 {
        None
    } else if vals.last().0 == n {
        Some(vals.last().1)
    } else {
        lookup_node(vals.drop_last(), n)
    }
}

/// The effects of the named nodes, in order; names without one are
/// skipped.
pub open spec fn resolved(names: Seq<Seq<char>>, vals: Seq<(Seq<char>, EffectV)>) -> Seq<EffectV>
    decreases names.len(),
{
    if names.len() == 0 {
        Seq::empty()
    } else {
        resolved(names.drop_last(), vals) + match lookup_node(vals, names.last()) {
            Some(e) => seq![e],
            None => Seq::empty(),
        }
    }
}

pub open spec fn node_vals_view(v: Seq<(String, Effect)>) -> Seq<(Seq<char>, EffectV)> {
    Seq::new(v.len(), |i: int| (v[i].0@, effect_view(v[i].1)))
}

/// The effect last stored under `n`; see `lookup_node`.
fn lookup_node_of(vals: &Vec<(String, Effect)>, n: &String) -> (r: Option<Effect>)
    ensures
        match r {
            Some(e) => lookup_node(node_vals_view(vals@), n@) == Some(effect_view(e)),
            None => lookup_node(node_vals_view(vals@), n@) is None,
        },
{
    let ghost vv = node_vals_view(vals@);
    let mut i: usize = vals.len();
    assert(vv.take(vv.len() as int) =~= vv);
    while i > 0
        invariant
            0 <= i <= vals.len(),
            vv == node_vals_view(vals@),
            lookup_node(vv, n@) == lookup_node(vv.take(i as int), n@),
        decreases i,
    {
        let ghost t = vv.take(i as int);
        assert(t.last() == (vals@[i - 1].0@, effect_view(vals@[i - 1].1)));
        assert(t.drop_last() =~= vv.take(i - 1));
        if vals[i - 1].0 == *n {
            return Some(clone_effect(&vals[i - 1].1));
        }
        i -= 1;
    }
    None
}

/// The effects of the named nodes, in order; see `resolved`.
pub fn resolve_synthetic_names_to_effects(names: &Vec<String>, node_values: &Vec<(String, Effect)>) -> (r: Vec<Effect>)
    ensures
        effects_view(r@) == resolved(strs_view(names@), node_vals_view(node_values@)),
{
    let ghost nv = strs_view(names@);
    let mut out: Vec<Effect> = Vec::new();
    let mut i: usize = 0;
    while i < names.len()
        invariant
            0 <= i <= names.len(),
            nv == strs_view(names@),
            effects_view(out@) == resolved(nv.take(i as int), node_vals_view(node_values@)),
        decreases names.len() - i,
    {
        assert(nv.take(i + 1).drop_last() =~= nv.take(i as int));
        assert(nv.take(i + 1).last() == names@[i as int]@);
        let ghost before = effects_view(out@);
        match lookup_node_of(node_values, &names[i]) {
            Some(e) => {
                out.push(e);
                assert(effects_view(out@) =~= before.push(effect_view(out@.last())));
            },
            None => {},
        }
        assert(effects_view(out@) =~= resolved(nv.take(i + 1), node_vals_view(node_values@)));
        i += 1;
    }
    assert(nv.take(names.len() as int) =~= nv);
    out
}


// ───────────────────────────── nodes and edges of a model ─────────────────────────────

/// An `Effect` enum value.
pub open spec fn is_effect_enum(v: ValueV) -> bool {
    match v {
        ValueV::Enum { enum_name, .. } => enum_name == "Effect"@,
        _ => false,
    }
}

/// A non-empty sequence of `Effect` enum values.
pub open spec fn effect_seq(items: Seq<ValueV>) -> bool {
    items.len() > 0 && forall|i: int| 0 <= i < items.len() ==> is_effect_enum(#[trigger] items[i])
}

/// The elements among the first `n` of `items` that decode, as nodes
/// `base[j]` with their effects.
pub open spec fn run_nodes(base: Seq<char>, items: Seq<ValueV>, n: nat) -> Seq<(Seq<char>, EffectV)>
    decreases n,
{
    if n == 0 || n > items.len() {
        Seq::empty()
    } else {
        run_nodes(base, items, (n - 1) as nat) + match dec_effect(items[n - 1]) {
            Ok(e) => seq![(index_name(base, n - 1), e)],
            Err(_) => Seq::empty(),
        }
    }
}

pub open spec fn node_names(ns: Seq<(Seq<char>, EffectV)>) -> Seq<Seq<char>> {
    Seq::new(ns.len(), |i: int| ns[i].0)
}

/// Consecutive pairs.
pub open spec fn adjacent(names: Seq<Seq<char>>) -> Seq<(Seq<char>, Seq<char>)> {
    if names.len() == 0 {
        Seq::empty()
    } else {
        Seq::new((names.len() - 1) as nat, |i: int| (names[i], names[i + 1]))
    }
}

/// A sequence of effects in a model: its nodes, and its order.
pub open spec fn run(base: Seq<char>, items: Seq<ValueV>) -> (Seq<(Seq<char>, EffectV)>, Seq<(Seq<char>, Seq<char>)>) {
    let ns = run_nodes(base, items, items.len());
    (ns, adjacent(node_names(ns)))
}

/// The runs of the first `m` fields of record `i` of the sequence `name`:
/// each field holding effects is the run `name[i].field`.
pub open spec fn row_runs(name: Seq<char>, i: int, fields: Seq<(Seq<char>, ValueV)>, m: nat) -> (
    Seq<(Seq<char>, EffectV)>,
    Seq<(Seq<char>, Seq<char>)>,
)
    decreases m,
{
    if m == 0 || m > fields.len() {
        (Seq::empty(), Seq::empty())
    } else {
        let prev = row_runs(name, i, fields, (m - 1) as nat);
        match fields[m - 1].1 {
            ValueV::SeqEnum(inner) => if effect_seq(inner) {
                let r = run(index_name(name, i) + "."@ + fields[m - 1].0, inner);
                (prev.0 + r.0, prev.1 + r.1)
            } else {
                prev
            },
            _ => prev,
        }
    }
}

/// The runs of the first `n` records of the sequence `name`.
pub open spec fn comp_runs(name: Seq<char>, rows: Seq<Seq<(Seq<char>, ValueV)>>, n: nat) -> (
    Seq<(Seq<char>, EffectV)>,
    Seq<(Seq<char>, Seq<char>)>,
)
    decreases n,
{
    if n == 0 || n > rows.len() {
        (Seq::empty(), Seq::empty())
    } else {
        let prev = comp_runs(name, rows, (n - 1) as nat);
        let r = row_runs(name, n - 1, rows[n - 1], rows[n - 1].len());
        (prev.0 + r.0, prev.1 + r.1)
    }
}

/// The nodes and ordering edges one binding contributes. A sequence that
/// the body writes as a literal only orders other nodes.
pub open spec fn binding_runs(name: Seq<char>, v: ValueV, lits: Seq<Seq<char>>) -> (
    Seq<(Seq<char>, EffectV)>,
    Seq<(Seq<char>, Seq<char>)>,
) {
    match v {
        ValueV::Enum { .. } => if is_effect_enum(v) && dec_effect(v) is Ok {
            (seq![(name, dec_effect(v)->Ok_0)], Seq::empty())
        } else {
            (Seq::empty(), Seq::empty())
        },
        ValueV::SeqEnum(items) => if effect_seq(items) && !lits.contains(name) {
            run(name, items)
        } else {
            (Seq::empty(), Seq::empty())
        },
        ValueV::SeqComposite(rows) => comp_runs(name, rows, rows.len()),
        _ => (Seq::empty(), Seq::empty()),
    }
}

/// The nodes and edges of the first `n` bindings, in order.
pub open spec fn model_runs(bindings: Seq<(Seq<char>, ValueV)>, lits: Seq<Seq<char>>, n: nat) -> (
    Seq<(Seq<char>, EffectV)>,
    Seq<(Seq<char>, Seq<char>)>,
)
    decreases n,
{
    if n == 0 || n > bindings.len() {
        (Seq::empty(), Seq::empty())
    } else {
        let prev = model_runs(bindings, lits, (n - 1) as nat);
        let r = binding_runs(bindings[n - 1].0, bindings[n - 1].1, lits);
        (prev.0 + r.0, prev.1 + r.1)
    }
}

/// `x = ⟨…⟩` or `⟨…⟩ = x`: the name written as a literal.
pub open spec fn lit_bound_name(item: BodyItemV) -> Option<Seq<char>> {
    match item {
        BodyItemV::Constraint(ExprV::Binary(BinOpV::Eq, l, r)) => match (*l, *r) {
            (ExprV::Identifier(n), ExprV::SeqLit(_)) => Some(n),
            (ExprV::SeqLit(_), ExprV::Identifier(n)) => Some(n),
            _ => None,
        },
        _ => None,
    }
}

/// The names the first `n` items write as literals, in order.
pub open spec fn lit_names(body: Seq<BodyItemV>, n: nat) -> Seq<Seq<char>>
    decreases n,
{
    if n == 0 || n > body.len() {
        Seq::empty()
    } else {
        lit_names(body, (n - 1) as nat) + match lit_bound_name(body[n - 1]) {
            Some(x) => seq![x],
            None => Seq::empty(),
        }
    }
}

struct Collected {
    vals: Vec<(String, Effect)>,
    names: Vec<String>,
    auto: Vec<(String, String)>,
}

impl Collected {
    spec fn wf(&self) -> bool {
        &&& strs_view(self.names@) == node_names(node_vals_view(self.vals@))
    }

    spec fn state(&self) -> (Seq<(Seq<char>, EffectV)>, Seq<(Seq<char>, Seq<char>)>) {
        (node_vals_view(self.vals@), name_pairs(self.auto@))
    }
}

proof fn lemma_adjacent_push(s: Seq<Seq<char>>, x: Seq<char>)
    ensures
        adjacent(s.push(x)) == if s.len() == 0 {
            Seq::<(Seq<char>, Seq<char>)>::empty()
        } else {
            adjacent(s).push((s.last(), x))
        },
{
    if s.len() > 0 {
        assert(adjacent(s.push(x)) =~= adjacent(s).push((s.last(), x)));
    } else {
        assert(adjacent(s.push(x)) =~= Seq::<(Seq<char>, Seq<char>)>::empty());
    }
}

/// `base[j]` for an index `j`.
fn index_name_usize(n: &String, j: usize) -> (r: String)
    ensures
        r@ == index_name(n@, j as int),
{
    let mut s = n.clone();
    s.append("[");
    let d = crate::text::usize_decimal(j);
    s.append(d.as_str());
    s.append("]");
    s
}

/// Add the run `base` of `items` to `c`; see `run`.
fn push_run(c: &mut Collected, base: &String, items: &Vec<Value>)
    requires
        old(c).wf(),
    ensures
        final(c).wf(),
        final(c).state() == ({
            let r = run(base@, values_view(items@));
            (old(c).state().0 + r.0, old(c).state().1 + r.1)
        }),
{
    let ghost iv = values_view(items@);
    let ghost s0 = c.state();
    let mut prev: Option<String> = None;
    let mut j: usize = 0;
    assert(s0.0 + run_nodes(base@, iv, 0) =~= s0.0);
    assert(s0.1 + adjacent(node_names(run_nodes(base@, iv, 0))) =~= s0.1);
    while j < items.len()
        invariant
            0 <= j <= items.len(),
            iv == values_view(items@),
            c.wf(),
            c.state().0 == s0.0 + run_nodes(base@, iv, j as nat),
            c.state().1 == s0.1 + adjacent(node_names(run_nodes(base@, iv, j as nat))),
            match prev {
                Some(p) => run_nodes(base@, iv, j as nat).len() > 0 && p@ == run_nodes(base@, iv, j as nat).last().0,
                None => run_nodes(base@, iv, j as nat).len() == 0,
            },
        decreases items.len() - j,
    {
        assert(iv[j as int] == items@[j as int]@);
        let ghost rn = run_nodes(base@, iv, j as nat);
        let ghost before = c.state();
        match decode_effect(&items[j]) {
            Ok(e) => {
                let syn = index_name_usize(base, j);
                let ghost ev = effect_view(e);
                let ghost sv = syn@;
                let ghost names0 = strs_view(c.names@);
                let ghost vals0 = node_vals_view(c.vals@);
                let ghost auto0 = name_pairs(c.auto@);
                proof {
                    lemma_adjacent_push(node_names(rn), syn@);
                    assert(node_names(rn.push((syn@, ev))) =~= node_names(rn).push(syn@));
                }
                match prev {
                    Some(p) => {
                        let ghost pv = p@;
                        c.auto.push((p, syn.clone()));
                        proof {
                            assert(name_pairs(c.auto@) =~= auto0.push((pv, sv)));
                            assert(node_names(rn).last() == pv);
                            assert(adjacent(node_names(rn).push(sv)) == adjacent(node_names(rn)).push((pv, sv)));
                            assert(name_pairs(c.auto@) =~= s0.1 + adjacent(node_names(rn).push(sv)));
                        }
                    },
                    None => {
                        proof {
                            assert(adjacent(node_names(rn).push(sv)) =~= Seq::<(Seq<char>, Seq<char>)>::empty());
                            assert(name_pairs(c.auto@) =~= s0.1 + adjacent(node_names(rn).push(sv)));
                        }
                    },
                }
                prev = Some(syn.clone());
                let syn2 = syn.clone();
                c.names.push(syn2);
                c.vals.push((syn, e));
                proof {
                    assert(strs_view(c.names@) =~= names0.push(sv));
                    assert(node_vals_view(c.vals@) =~= vals0.push((sv, ev)));
                    assert(node_names(vals0.push((sv, ev))) =~= node_names(vals0).push(sv));
                    assert(run_nodes(base@, iv, (j + 1) as nat) =~= rn.push((sv, ev)));
                    assert(c.state().0 =~= s0.0 + run_nodes(base@, iv, (j + 1) as nat));
                    assert(node_names(run_nodes(base@, iv, (j + 1) as nat)) =~= node_names(rn).push(sv));
                    assert(strs_view(c.names@) =~= node_names(node_vals_view(c.vals@)));
                }
            },
            Err(_) => {
                assert(run_nodes(base@, iv, (j + 1) as nat) =~= rn);
            },
        }
        j += 1;
    }
}


/// See `lit_bound_name`.
fn lit_bound_name_of(item: &BodyItem) -> (r: Option<String>)
    ensures
        opt_name(r) == lit_bound_name(item@),
{
    proof {
        reveal_with_fuel(expr_view, 2);
    }
    if let BodyItem::Constraint(Expr::Binary(BinOp::Eq, l, r)) = item {
        match (&**l, &**r) {
            (Expr::Identifier(n), Expr::SeqLit(_)) => {
                return Some(n.clone());
            },
            (Expr::SeqLit(_), Expr::Identifier(n)) => {
                return Some(n.clone());
            },
            _ => {},
        }
    }
    None
}

/// See `lit_names`.
fn literal_names(body: &Vec<BodyItem>) -> (r: Vec<String>)
    ensures
        strs_view(r@) == lit_names(items_view(body@), body.len() as nat),
{
    let ghost bv = items_view(body@);
    let mut out: Vec<String> = Vec::new();
    let mut i: usize = 0;
    while i < body.len()
        invariant
            0 <= i <= body.len(),
            bv == items_view(body@),
            strs_view(out@) == lit_names(bv, i as nat),
        decreases body.len() - i,
    {
        assert(bv[i as int] == body_item_view(body@[i as int]));
        let ghost before = strs_view(out@);
        match lit_bound_name_of(&body[i]) {
            Some(n) => {
                out.push(n);
                assert(strs_view(out@) =~= before.push(out@.last()@));
                assert(lit_names(bv, (i + 1) as nat) =~= before + seq![out@.last()@]);
            },
            None => {
                assert(lit_names(bv, (i + 1) as nat) =~= before);
            },
        }
        i += 1;
    }
    out
}

/// See `effect_seq`.
fn is_effect_seq(items: &Vec<Value>) -> (r: bool)
    ensures
        r == effect_seq(values_view(items@)),
{
    let ghost iv = values_view(items@);
    if items.len() == 0 {
        return false;
    }
    let mut i: usize = 0;
    while i < items.len()
        invariant
            0 <= i <= items.len(),
            iv == values_view(items@),
            items.len() > 0,
            forall|k: int| 0 <= k < i ==> is_effect_enum(#[trigger] iv[k]),
        decreases items.len() - i,
    {
        assert(iv[i as int] == items@[i as int]@);
        proof {
            lemma_value_lists(items@[i as int]);
        }
        match &items[i] {
            Value::Enum { enum_name, .. } => {
                if !crate::text::str_is(enum_name, "Effect") {
                    return false;
                }
            },
            _ => {
                return false;
            },
        }
        i += 1;
    }
    true
}

/// Add the runs of a record sequence `name`; see `comp_runs`.
fn push_comp_runs(c: &mut Collected, name: &String, rows: &Vec<Vec<(String, Value)>>)
    requires
        old(c).wf(),
    ensures
        final(c).wf(),
        final(c).state() == ({
            let r = comp_runs(name@, records_view(rows@), rows.len() as nat);
            (old(c).state().0 + r.0, old(c).state().1 + r.1)
        }),
{
    let ghost rv = records_view(rows@);
    let ghost s0 = c.state();
    let mut i: usize = 0;
    assert(s0.0 + comp_runs(name@, rv, 0).0 =~= s0.0);
    assert(s0.1 + comp_runs(name@, rv, 0).1 =~= s0.1);
    while i < rows.len()
        invariant
            0 <= i <= rows.len(),
            rv == records_view(rows@),
            c.wf(),
            c.state().0 == s0.0 + comp_runs(name@, rv, i as nat).0,
            c.state().1 == s0.1 + comp_runs(name@, rv, i as nat).1,
        decreases rows.len() - i,
    {
        let row = &rows[i];
        let ghost fv = rv[i as int];
        assert(fv == record_view(row@));
        let ghost s1 = c.state();
        let mut m: usize = 0;
        assert(s1.0 + row_runs(name@, i as int, fv, 0).0 =~= s1.0);
        assert(s1.1 + row_runs(name@, i as int, fv, 0).1 =~= s1.1);
        while m < row.len()
            invariant
                0 <= m <= row.len(),
                fv == record_view(row@),
                c.wf(),
                c.state().0 == s1.0 + row_runs(name@, i as int, fv, m as nat).0,
                c.state().1 == s1.1 + row_runs(name@, i as int, fv, m as nat).1,
            decreases row.len() - m,
        {
            assert(fv[m as int] == (row@[m as int].0@, row@[m as int].1@));
            proof {
                lemma_value_lists(row@[m as int].1);
            }
            let ghost s2 = c.state();
            match &row[m].1 {
                Value::SeqEnum(inner) => {
                    if is_effect_seq(inner) {
                        let mut base = index_name_usize(name, i);
                        base.append(".");
                        base.append(row[m].0.as_str());
                        push_run(c, &base, inner);
                        assert(c.state().0 =~= s1.0 + row_runs(name@, i as int, fv, (m + 1) as nat).0);
                        assert(c.state().1 =~= s1.1 + row_runs(name@, i as int, fv, (m + 1) as nat).1);
                    }
                },
                _ => {},
            }
            m += 1;
        }
        assert(c.state().0 =~= s0.0 + comp_runs(name@, rv, (i + 1) as nat).0);
        assert(c.state().1 =~= s0.1 + comp_runs(name@, rv, (i + 1) as nat).1);
        i += 1;
    }
}

/// The nodes and edges of the model's bindings; see `model_runs`.
fn collect_model(bindings: &Vec<(String, Value)>, lits: &Vec<String>) -> (c: Collected)
    ensures
        c.wf(),
        c.state() == model_runs(record_view(bindings@), strs_view(lits@), bindings.len() as nat),
{
    let ghost bv = record_view(bindings@);
    let ghost lv = strs_view(lits@);
    let mut c = Collected { vals: Vec::new(), names: Vec::new(), auto: Vec::new() };
    assert(c.state().0 =~= model_runs(bv, lv, 0).0);
    assert(c.state().1 =~= model_runs(bv, lv, 0).1);
    assert(strs_view(c.names@) =~= node_names(node_vals_view(c.vals@)));
    let mut k: usize = 0;
    while k < bindings.len()
        invariant
            0 <= k <= bindings.len(),
            bv == record_view(bindings@),
            lv == strs_view(lits@),
            c.wf(),
            c.state() == model_runs(bv, lv, k as nat),
        decreases bindings.len() - k,
    {
        let name = &bindings[k].0;
        let v = &bindings[k].1;
        assert(bv[k as int] == (name@, v@));
        proof {
            lemma_value_lists(*v);
        }
        let ghost s0 = c.state();
        let ghost r = binding_runs(name@, v@, lv);
        match v {
            Value::Enum { enum_name, .. } => {
                if crate::text::str_is(enum_name, "Effect") {
                    match decode_effect(v) {
                        Ok(e) => {
                            let ghost names0 = strs_view(c.names@);
                            let ghost vals0 = node_vals_view(c.vals@);
                            let ghost ev = effect_view(e);
                            c.names.push(name.clone());
                            c.vals.push((name.clone(), e));
                            proof {
                                assert(strs_view(c.names@) =~= names0.push(name@));
                                assert(node_vals_view(c.vals@) =~= vals0.push((name@, ev)));
                                assert(node_names(vals0.push((name@, ev))) =~= node_names(vals0).push(name@));
                            }
                        },
                        Err(_) => {},
                    }
                }
            },
            Value::SeqEnum(items) => {
                if is_effect_seq(items) && !strings_contain(lits, name) {
                    push_run(&mut c, name, items);
                }
            },
            Value::SeqComposite(rows) => {
                push_comp_runs(&mut c, name, rows);
            },
            _ => {},
        }
        assert(c.state().0 =~= s0.0 + r.0);
        assert(c.state().1 =~= s0.1 + r.1);
        k += 1;
    }
    c
}


// ───────────────────────────── dispatch ─────────────────────────────

/// `c` with repeats dropped, first occurrences kept.
pub open spec fn dedup_first(c: Seq<Seq<char>>) -> Seq<Seq<char>>
    decreases c.len(),
{
    if c.len() == 0 {
        Seq::empty()
    } else {
        let d = dedup_first(c.drop_last());
        if d.contains(c.last()) {
            d
        } else {
            d.push(c.last())
        }
    }
}

/// The ordering edges the chains declare: consecutive distinct nodes.
pub open spec fn chain_edges(cs: Seq<Seq<Seq<char>>>) -> Seq<(Seq<char>, Seq<char>)>
    decreases cs.len(),
{
    if cs.len() == 0 {
        Seq::empty()
    } else {
        chain_edges(cs.drop_last()) + adjacent(dedup_first(cs.last()))
    }
}

/// The effects of the elements that decode, in order.
pub open spec fn decoded_effects(items: Seq<ValueV>) -> Seq<EffectV>
    decreases items.len(),
{
    if items.len() == 0 {
        Seq::empty()
    } else {
        decoded_effects(items.drop_last()) + match dec_effect(items.last()) {
            Ok(e) => seq![e],
            Err(_) => Seq::empty(),
        }
    }
}

/// `order` is how the shuffled nodes `sn` may come out: as they are when
/// there is no edge, else sorted along the edges (see
/// `topo_sort_with_random_tiebreak`).
pub open spec fn dispatch_order(sn: Seq<Seq<char>>, es: Seq<(Seq<char>, Seq<char>)>, order: Seq<Seq<char>>) -> bool {
    if es.len() == 0 {
        order == sn
    } else {
        exists|em: Seq<Seq<char>>|
            #![trigger fallback(sn, em)]
            topo_prefix(sn, es, em) && topo_stalled(sn, es, em) && order == em + fallback(sn, em)
    }
}

/// The body of the claim named `claim`, or none.
pub open spec fn claim_body(rt: Seq<crate::ast::SchemaDeclV>, claim: Seq<char>) -> Seq<BodyItemV> {
    match find_schema(rt, claim) {
        Some(s) => s.body,
        None => Seq::empty(),
    }
}

/// The dedup of one chain; see `dedup_first`.
fn dedup_chain(c: &Vec<String>) -> (r: Vec<String>)
    ensures
        strs_view(r@) == dedup_first(strs_view(c@)),
{
    let ghost cv = strs_view(c@);
    let mut out: Vec<String> = Vec::new();
    let mut i: usize = 0;
    while i < c.len()
        invariant
            0 <= i <= c.len(),
            cv == strs_view(c@),
            strs_view(out@) == dedup_first(cv.take(i as int)),
        decreases c.len() - i,
    {
        assert(cv.take(i + 1).drop_last() =~= cv.take(i as int));
        assert(cv.take(i + 1).last() == c@[i as int]@);
        if !strings_contain(&out, &c[i]) {
            let ghost before = strs_view(out@);
            out.push(c[i].clone());
            assert(strs_view(out@) =~= before.push(c@[i as int]@));
        }
        i += 1;
    }
    assert(cv.take(c.len() as int) =~= cv);
    out
}

/// The edges the chains declare; see `chain_edges`.
fn chain_edges_of(cs: &Vec<Vec<String>>) -> (r: Vec<(String, String)>)
    ensures
        name_pairs(r@) == chain_edges(chains_view(cs@)),
{
    let ghost cv = chains_view(cs@);
    let mut out: Vec<(String, String)> = Vec::new();
    let mut i: usize = 0;
    while i < cs.len()
        invariant
            0 <= i <= cs.len(),
            cv == chains_view(cs@),
            name_pairs(out@) == chain_edges(cv.take(i as int)),
        decreases cs.len() - i,
    {
        assert(cv.take(i + 1).drop_last() =~= cv.take(i as int));
        assert(cv.take(i + 1).last() == strs_view(cs@[i as int]@));
        let d = dedup_chain(&cs[i]);
        let ghost dv = strs_view(d@);
        let ghost start = name_pairs(out@);
        if d.len() > 0 {
            let mut j: usize = 1;
            assert(dv.take(1).len() == 1);
            assert(adjacent(dv.take(1)) =~= Seq::<(Seq<char>, Seq<char>)>::empty());
            assert(start + adjacent(dv.take(1)) =~= start);
            while j < d.len()
                invariant
                    1 <= j <= d.len(),
                    dv == strs_view(d@),
                    name_pairs(out@) == start + adjacent(dv.take(j as int)),
                decreases d.len() - j,
            {
                let ghost before = name_pairs(out@);
                proof {
                    lemma_adjacent_push(dv.take(j as int), dv[j as int]);
                    assert(dv.take(j + 1) =~= dv.take(j as int).push(dv[j as int]));
                }
                out.push((d[j - 1].clone(), d[j].clone()));
                assert(name_pairs(out@) =~= before.push((dv[j - 1], dv[j as int])));
                assert(name_pairs(out@) =~= start + adjacent(dv.take(j + 1)));
                j += 1;
            }
            assert(dv.take(d.len() as int) =~= dv);
        } else {
            assert(adjacent(dv) =~= Seq::<(Seq<char>, Seq<char>)>::empty());
            assert(name_pairs(out@) =~= start + adjacent(dv));
        }
        assert(name_pairs(out@) =~= chain_edges(cv.take(i + 1)));
        i += 1;
    }
    assert(cv.take(cs.len() as int) =~= cv);
    out
}

/// The effects of the elements that decode; see `decoded_effects`.
fn decode_all(items: &Vec<Value>) -> (r: Vec<Effect>)
    ensures
        effects_view(r@) == decoded_effects(values_view(items@)),
{
    let ghost iv = values_view(items@);
    let mut out: Vec<Effect> = Vec::new();
    let mut i: usize = 0;
    while i < items.len()
        invariant
            0 <= i <= items.len(),
            iv == values_view(items@),
            effects_view(out@) == decoded_effects(iv.take(i as int)),
        decreases items.len() - i,
    {
        assert(iv.take(i + 1).drop_last() =~= iv.take(i as int));
        assert(iv.take(i + 1).last() == items@[i as int]@);
        let ghost before = effects_view(out@);
        match decode_effect(&items[i]) {
            Ok(e) => {
                out.push(e);
                assert(effects_view(out@) =~= before.push(effect_view(out@.last())));
            },
            Err(_) => {},
        }
        assert(effects_view(out@) =~= decoded_effects(iv.take(i + 1)));
        i += 1;
    }
    assert(iv.take(items.len() as int) =~= iv);
    out
}

/// `s` with each effect kept only at its first occurrence: later effects
/// equal to an earlier one are dropped.
pub open spec fn dedup_effects(s: Seq<EffectV>) -> Seq<EffectV>
    decreases s.len(),
{
    if s.len() == 0 {
        s
    } else {
        let p = dedup_effects(s.drop_last());
        if s.drop_last().contains(s.last()) {
            p
        } else {
            p.push(s.last())
        }
    }
}

fn dedup_effect_list(v: Vec<Effect>) -> (r: Vec<Effect>)
    ensures
        effects_view(r@) == dedup_effects(effects_view(v@)),
{
    let ghost vv = effects_view(v@);
    let mut out: Vec<Effect> = Vec::new();
    let mut i: usize = 0;
    while i < v.len()
        invariant
            0 <= i <= v.len(),
            vv == effects_view(v@),
            effects_view(out@) == dedup_effects(vv.take(i as int)),
        decreases v.len() - i,
    {
        let mut seen = false;
        let mut j: usize = 0;
        while j < i
            invariant
                0 <= j <= i < v.len(),
                vv == effects_view(v@),
                seen == vv.take(j as int).contains(vv[i as int]),
            decreases i - j,
        {
            let ghost x = vv[i as int];
            let ghost a = vv.take(j as int);
            let ghost b = vv.take(j + 1);
            assert(b.contains(x) <==> (a.contains(x) || vv[j as int] == x)) by {
                if b.contains(x) {
                    let k = choose|k: int| 0 <= k < b.len() && b[k] == x;
                    if k < j {
                        assert(a[k] == x);
                    }
                }
                if a.contains(x) {
                    let k = choose|k: int| 0 <= k < a.len() && a[k] == x;
                    assert(b[k] == x);
                }
                if vv[j as int] == x {
                    assert(b[j as int] == x);
                }
            }
            assert(vv[j as int] == crate::codec::effect_view(v@[j as int]));
            assert(vv[i as int] == crate::codec::effect_view(v@[i as int]));
            if crate::codec::effects_equal(&v[j], &v[i]) {
                seen = true;
            }
            j += 1;
        }
        let ghost t = vv.take(i + 1);
        assert(t.drop_last() =~= vv.take(i as int));
        assert(t.last() == vv[i as int]);
        if !seen {
            let ghost prev = effects_view(out@);
            out.push(crate::codec::clone_effect(&v[i]));
            assert(effects_view(out@) =~= prev.push(vv[i as int]));
        }
        i += 1;
    }
    assert(vv.take(v.len() as int) =~= vv);
    out
}

/// The effect nodes of a tick of `claim` under the model `bv` when no
/// dispatch slot decides, each with its effect.
pub open spec fn graph_nodes(schemas: Seq<SchemaDeclV>, claim: Seq<char>, bv: Seq<(Seq<char>, ValueV)>) -> Seq<(Seq<char>, EffectV)> {
    let body = claim_body(schemas, claim);
    model_runs(bv, lit_names(body, body.len()), bv.len()).0
}

/// The ordering edges between those nodes: the claim's sequence literals'
/// chains, then the runs' own order.
pub open spec fn graph_edges(schemas: Seq<SchemaDeclV>, claim: Seq<char>, bv: Seq<(Seq<char>, ValueV)>) -> Seq<(Seq<char>, Seq<char>)> {
    let body = claim_body(schemas, claim);
    let m = model_runs(bv, lit_names(body, body.len()), bv.len());
    chain_edges(chains(body, node_names(m.0), body.len())) + m.1
}

fn dispatch_graph(rt: &Program, claim_name: &str, bindings: &Vec<(String, Value)>) -> (r: (
    Vec<(String, Effect)>,
    Vec<String>,
    Vec<(String, String)>,
))
    ensures
        node_vals_view(r.0@) == graph_nodes(rt.schemas_v(), claim_name@, record_view(bindings@)),
        strs_view(r.1@) == node_names(graph_nodes(rt.schemas_v(), claim_name@, record_view(bindings@))),
        name_pairs(r.2@) == graph_edges(rt.schemas_v(), claim_name@, record_view(bindings@)),
{
    let ghost bv = record_view(bindings@);
    let empty: Vec<BodyItem> = Vec::new();
    let name = String::from_str(claim_name);
    let body: &Vec<BodyItem> = match rt.get_schema(&name) {
        Some(s) => {
            proof {
                crate::ast::lemma_schema_lists(*s);
            }
            &s.body
        },
        None => &empty,
    };
    assert(items_view(body@) == claim_body(rt.schemas_v(), claim_name@)) by {
        if find_schema(rt.schemas_v(), claim_name@) is None {
            assert(items_view(empty@) =~= Seq::<BodyItemV>::empty());
        }
    }
    let ghost body_v = claim_body(rt.schemas_v(), claim_name@);
    let ghost m = model_runs(bv, lit_names(body_v, body_v.len()), bv.len());
    let ghost names_v = node_names(m.0);
    let ghost es_v = chain_edges(chains(body_v, names_v, body_v.len())) + m.1;
    let lits = literal_names(body);
    let c = collect_model(bindings, &lits);
    assert(c.state() == m);
    assert(strs_view(c.names@) == names_v);
    let chains_found = extract_seq_effect_chains(body, &c.names);
    let mut edges = chain_edges_of(&chains_found);
    let ghost e1 = name_pairs(edges@);
    let mut auto = copy_pairs(&c.auto);
    edges.append(&mut auto);
    assert(name_pairs(edges@) =~= e1 + name_pairs(c.auto@));
    assert(name_pairs(edges@) == es_v);
    (c.vals, c.names, edges)
}

/// `r` is what a tick of `claim` dispatches under the model `bv`: when
/// `primary` names a sequence of effects in the model, its elements that
/// decode, in order; else every effect node of the model, in an order that
/// respects the claim's sequence literals and runs after a shuffle (see
/// `dispatch_order`), each effect value once, at its first position (see
/// `dedup_effects`); nothing when there is no node.
pub open spec fn dispatchable(
    schemas: Seq<SchemaDeclV>,
    claim: Seq<char>,
    bv: Seq<(Seq<char>, ValueV)>,
    primary_var: Option<Seq<char>>,
    r: Seq<EffectV>,
) -> bool {
    let primary = match primary_var {
        Some(pv) => match env_get(bv, pv) {
            Some(ValueV::SeqEnum(items)) => Some(items),
            _ => None,
        },
        None => None,
    };
    match primary {
        Some(items) => r == decoded_effects(items),
        None => {
            let nodes = graph_nodes(schemas, claim, bv);
            let names = node_names(nodes);
            let es = graph_edges(schemas, claim, bv);
            if names.len() == 0 {
                r.len() == 0
            } else {
                exists|sn: Seq<Seq<char>>, order: Seq<Seq<char>>|
                    #![trigger dispatch_order(sn, es, order)]
                    sn.to_multiset() == names.to_multiset() && dispatch_order(sn, es, order) && r == dedup_effects(resolved(order, nodes))
            }
        },
    }
}

// ───────────────────────────── orders kept per shape ─────────────────────────────

/// An order remembered for a dispatch shape: the shape's node names and
/// edges, the shuffled nodes it was sorted from, and the order it got.
pub struct OrderEntry {
    pub nodes: Vec<String>,
    pub edges: Vec<(String, String)>,
    pub shuffled: Vec<String>,
    pub order: Vec<String>,
}

/// The order is a dispatch order of the shape.
pub open spec fn entry_ok(e: OrderEntry) -> bool {
    &&& strs_view(e.shuffled@).to_multiset() == strs_view(e.nodes@).to_multiset()
    &&& dispatch_order(strs_view(e.shuffled@), name_pairs(e.edges@), strs_view(e.order@))
}

/// The entry is the one for the shape with node names `names` and edges `es`.
pub open spec fn entry_is(e: OrderEntry, names: Seq<Seq<char>>, es: Seq<(Seq<char>, Seq<char>)>) -> bool {
    strs_view(e.nodes@) == names && name_pairs(e.edges@) == es
}

/// The first of the first `n` entries that is the one for the shape.
pub open spec fn entry_for(c: Seq<OrderEntry>, names: Seq<Seq<char>>, es: Seq<(Seq<char>, Seq<char>)>, n: nat) -> Option<OrderEntry>
    decreases n,
{
    if n == 0 || n > c.len() {
        None
    } else {
        match entry_for(c, names, es, (n - 1) as nat) {
            Some(e) => Some(e),
            None => if entry_is(c[n - 1], names, es) {
                Some(c[n - 1])
            } else {
                None
            },
        }
    }
}

/// The orders of a run, at most one per dispatch shape that has edges: a
/// later tick with the same shape dispatches in the same order.
pub struct OrderCache {
    pub entries: Vec<OrderEntry>,
}

impl OrderCache {
    pub open spec fn wf(&self) -> bool {
        forall|i: int| 0 <= i < self.entries@.len() ==> #[trigger] entry_ok(self.entries@[i])
    }

    pub fn new() -> (r: OrderCache)
        ensures
            r.wf(),
            r.entries@.len() == 0,
    {
        OrderCache { entries: Vec::new() }
    }
}

proof fn lemma_entry_for_stays(c: Seq<OrderEntry>, names: Seq<Seq<char>>, es: Seq<(Seq<char>, Seq<char>)>, m: nat, n: nat)
    requires
        m <= n <= c.len(),
        entry_for(c, names, es, m) is Some,
    ensures
        entry_for(c, names, es, n) == entry_for(c, names, es, m),
    decreases n - m,
{
    if n > m {
        lemma_entry_for_stays(c, names, es, m, (n - 1) as nat);
    }
}

proof fn lemma_entry_for_is(c: Seq<OrderEntry>, names: Seq<Seq<char>>, es: Seq<(Seq<char>, Seq<char>)>, n: nat)
    requires
        entry_for(c, names, es, n) is Some,
    ensures
        entry_is(entry_for(c, names, es, n)->Some_0, names, es),
    decreases n,
{
    if n > 0 && n <= c.len() && entry_for(c, names, es, (n - 1) as nat) is Some {
        lemma_entry_for_is(c, names, es, (n - 1) as nat);
    }
}

fn pairs_equal(a: &Vec<(String, String)>, b: &Vec<(String, String)>) -> (r: bool)
    ensures
        r == (name_pairs(a@) == name_pairs(b@)),
{
    if a.len() != b.len() {
        assert(name_pairs(a@).len() != name_pairs(b@).len());
        return false;
    }
    let mut i: usize = 0;
    while i < a.len()
        invariant
            a.len() == b.len(),
            0 <= i <= a.len(),
            forall|k: int| 0 <= k < i ==> name_pairs(a@)[k] == name_pairs(b@)[k],
        decreases a.len() - i,
    {
        if a[i].0 != b[i].0 || a[i].1 != b[i].1 {
            assert(name_pairs(a@)[i as int] != name_pairs(b@)[i as int]);
            return false;
        }
        assert(name_pairs(a@)[i as int] == name_pairs(b@)[i as int]);
        i += 1;
    }
    assert(name_pairs(a@) =~= name_pairs(b@));
    true
}

fn find_entry(c: &Vec<OrderEntry>, names: &Vec<String>, edges: &Vec<(String, String)>) -> (r: Option<usize>)
    ensures
        match r {
            Some(k) => k < c@.len() && entry_for(c@, strs_view(names@), name_pairs(edges@), c@.len()) == Some(c@[k as int]),
            None => entry_for(c@, strs_view(names@), name_pairs(edges@), c@.len()) is None,
        },
{
    let mut i: usize = 0;
    while i < c.len()
        invariant
            0 <= i <= c.len(),
            entry_for(c@, strs_view(names@), name_pairs(edges@), i as nat) is None,
        decreases c.len() - i,
    {
        if crate::value::strs_equal(&c[i].nodes, names) && pairs_equal(&c[i].edges, edges) {
            proof {
                lemma_entry_for_stays(c@, strs_view(names@), name_pairs(edges@), (i + 1) as nat, c@.len());
            }
            return Some(i);
        }
        i += 1;
    }
    None
}

/// The dispatch slot holds a sequence in the model.
pub open spec fn slot_items(bv: Seq<(Seq<char>, ValueV)>, primary_var: Option<Seq<char>>) -> Option<Seq<ValueV>> {
    match primary_var {
        Some(pv) => match env_get(bv, pv) {
            Some(ValueV::SeqEnum(items)) => Some(items),
            _ => None,
        },
        None => None,
    }
}

/// What a tick does to the kept orders `o`, leaving `f`, where `r` is what
/// it dispatched: a tick with no slot and a shape that has nodes and edges
/// reuses the order kept for its shape, or keeps the order it drew.
pub open spec fn orders_kept(
    schemas: Seq<SchemaDeclV>,
    claim: Seq<char>,
    bv: Seq<(Seq<char>, ValueV)>,
    primary_var: Option<Seq<char>>,
    o: Seq<OrderEntry>,
    f: Seq<OrderEntry>,
    r: Seq<EffectV>,
) -> bool {
    let nodes = graph_nodes(schemas, claim, bv);
    let names = node_names(nodes);
    let es = graph_edges(schemas, claim, bv);
    if slot_items(bv, primary_var) is Some || names.len() == 0 || es.len() == 0 {
        f == o
    } else {
        match entry_for(o, names, es, o.len()) {
            Some(e) => f == o && r == dedup_effects(resolved(strs_view(e.order@), nodes)),
            None => {
                &&& f.len() == o.len() + 1
                &&& f.take(o.len() as int) == o
                &&& entry_is(f.last(), names, es)
                &&& r == dedup_effects(resolved(strs_view(f.last().order@), nodes))
            },
        }
    }
}

/// The effects to run this tick, from the model's `bindings` (each name
/// once). With `primary_var` naming a sequence of effects in the model,
/// its elements that decode, in order. Otherwise every effect node of the
/// model (see `model_runs`), shuffled with a generator seeded from
/// `seed`, then sorted along the edges that the claim's sequence literals
/// and the runs declare (see `dispatch_order`), with value-equal effects
/// run once, at their first position; nothing when there is no node.
/// A shape with edges whose order `cache` keeps is dispatched in that
/// order again; else the order drawn is kept (see `orders_kept`).
pub fn collect_dispatchable_effects_cached(
    rt: &Program,
    claim_name: &str,
    bindings: &Vec<(String, Value)>,
    primary_var: Option<&str>,
    seed: u64,
    cache: &mut OrderCache,
) -> (r: Vec<Effect>)
    requires
        old(cache).wf(),
    ensures
        final(cache).wf(),
        dispatchable(
            rt.schemas_v(),
            claim_name@,
            record_view(bindings@),
            match primary_var {
                Some(pv) => Some(pv@),
                None => None,
            },
            effects_view(r@),
        ),
        orders_kept(
            rt.schemas_v(),
            claim_name@,
            record_view(bindings@),
            match primary_var {
                Some(pv) => Some(pv@),
                None => None,
            },
            old(cache).entries@,
            final(cache).entries@,
            effects_view(r@),
        ),
{
    let ghost bv = record_view(bindings@);
    let ghost pvv: Option<Seq<char>> = match primary_var {
        Some(pv) => Some(pv@),
        None => None,
    };
    match primary_var {
        Some(pv) => {
            let pvs = String::from_str(pv);
            proof {
                lemma_env_index(bv, pv@);
            }
            match env_find(bindings, &pvs) {
                Some(i) => {
                    proof {
                        lemma_value_lists(bindings@[i as int].1);
                    }
                    assert(bv[i as int] == (bindings@[i as int].0@, bindings@[i as int].1@));
                    if let Value::SeqEnum(items) = &bindings[i].1 {
                        return decode_all(items);
                    }
                },
                None => {},
            }
        },
        None => {},
    }
    assert(slot_items(bv, pvv) is None);
    let (vals, names, edges) = dispatch_graph(rt, claim_name, bindings);
    let ghost nodes_v = graph_nodes(rt.schemas_v(), claim_name@, bv);
    let ghost names_v = node_names(nodes_v);
    let ghost es_v = graph_edges(rt.schemas_v(), claim_name@, bv);
    if names.len() == 0 {
        return Vec::new();
    }
    if edges.len() > 0 {
        if let Some(k) = find_entry(&cache.entries, &names, &edges) {
            let ghost e = cache.entries@[k as int];
            proof {
                lemma_entry_for_is(cache.entries@, names_v, es_v, cache.entries@.len());
            }
            assert(entry_ok(e));
            assert(entry_is(e, names_v, es_v));
            let r = dedup_effect_list(resolve_synthetic_names_to_effects(&cache.entries[k].order, &vals));
            assert(dispatch_order(strs_view(e.shuffled@), es_v, strs_view(e.order@)));
            return r;
        }
    }
    let mut rng = seeded_rng(seed);
    let mut nodes = copy_strings(&names);
    let ghost before = nodes@;
    shuffle_vec(&mut nodes, &mut rng);
    proof {
        lemma_strs_multiset(before, nodes@);
        assert(strs_view(before) == names_v);
    }
    if edges.len() == 0 {
        let r = dedup_effect_list(resolve_synthetic_names_to_effects(&nodes, &vals));
        assert(dispatch_order(strs_view(nodes@), es_v, strs_view(nodes@)));
        return r;
    }
    let sorted = topo_sort_with_random_tiebreak(&nodes, &edges, &mut rng);
    let r = dedup_effect_list(resolve_synthetic_names_to_effects(&sorted, &vals));
    assert(dispatch_order(strs_view(nodes@), es_v, strs_view(sorted@)));
    let entry = OrderEntry {
        nodes: copy_strings(&names),
        edges: copy_pairs(&edges),
        shuffled: copy_strings(&nodes),
        order: copy_strings(&sorted),
    };
    assert(entry_ok(entry));
    let ghost o = cache.entries@;
    cache.entries.push(entry);
    assert(cache.entries@.take(o.len() as int) =~= o);
    assert forall|i: int| 0 <= i < cache.entries@.len() implies #[trigger] entry_ok(cache.entries@[i]) by {
        if i < o.len() {
            assert(cache.entries@[i] == o[i]);
        }
    }
    r
}

/// `collect_dispatchable_effects_cached` with no order kept from before.
pub fn collect_dispatchable_effects(
    rt: &Program,
    claim_name: &str,
    bindings: &Vec<(String, Value)>,
    primary_var: Option<&str>,
    seed: u64,
) -> (r: Vec<Effect>)
    ensures
        dispatchable(
            rt.schemas_v(),
            claim_name@,
            record_view(bindings@),
            match primary_var {
                Some(pv) => Some(pv@),
                None => None,
            },
            effects_view(r@),
        ),
{
    let mut cache = OrderCache::new();
    collect_dispatchable_effects_cached(rt, claim_name, bindings, primary_var, seed, &mut cache)
}

fn copy_pairs(v: &Vec<(String, String)>) -> (r: Vec<(String, String)>)
    ensures
        name_pairs(r@) == name_pairs(v@),
{
    let mut out: Vec<(String, String)> = Vec::new();
    let mut i: usize = 0;
    while i < v.len()
        invariant
            0 <= i <= v.len(),
            out.len() == i,
            forall|k: int| 0 <= k < i ==> (#[trigger] out@[k]).0@ == v@[k].0@ && out@[k].1@ == v@[k].1@,
        decreases v.len() - i,
    {
        out.push((v[i].0.clone(), v[i].1.clone()));
        i += 1;
    }
    assert(name_pairs(out@) =~= name_pairs(v@));
    out
}

fn copy_strings(v: &Vec<String>) -> (r: Vec<String>)
    ensures
        strs_view(r@) == strs_view(v@),
{
    let mut out: Vec<String> = Vec::new();
    let mut i: usize = 0;
    while i < v.len()
        invariant
            0 <= i <= v.len(),
            out.len() == i,
            forall|k: int| 0 <= k < i ==> #[trigger] out@[k]@ == v@[k]@,
        decreases v.len() - i,
    {
        out.push(v[i].clone());
        i += 1;
    }
    assert(strs_view(out@) =~= strs_view(v@));
    out
}

} // verus!
