//! Function-izer: extract substitution chains (`var = expr` steps in
//! dependency order) from schema bodies whose constraints are plain
//! equalities, so that they can be evaluated without a solver.
//!
//! The caller's knowledge of the program is passed as plain lists: the
//! names of enum types, of simple record types, of claims whose bodies are
//! themselves pure, and the bodies of claims that a `..name` passthrough
//! may inline.
use vstd::prelude::*;
use vstd::string::StringExecFns;
use crate::ast::{
    binop_view, lemma_schema_lists, strings_contain, body_item_view, clone_body_item, clone_body_items, clone_expr, expr_view, items_view, strs_view, BinOp,
    BinOpV, BodyItem, BodyItemV, Expr, ExprV, Keyword, SchemaDecl, SchemaDeclV,
};
use crate::text::{chars_to_string, str_to_chars};
use crate::subst::{expand_body, expand_foralls, expr_mentions, mentions, unroll_forall};
pub use crate::subst::substitute;
pub use crate::chain_eval::{evaluate_chain, evaluate_chain_with_resolver, evaluate_chain_with_resolvers};

verus! {

/// A connected group of variables of a schema, with the indices of the
/// constraints that relate them.
#[derive(PartialEq, Debug)]
pub struct Component {
    pub vars: Vec<String>,
    pub constraint_indices: Vec<usize>,
}

/// One step in a substitution chain: `var = expr`.
#[derive(PartialEq, Debug)]
pub struct Substitution {
    pub var: String,
    pub expr: Expr,
}

/// Steps ordered so that each `expr` only references variables defined
/// earlier in the chain (or inputs), and equalities (`checks`) that define
/// nothing new but must hold.
#[derive(PartialEq, Debug)]
pub struct SubstitutionChain {
    pub steps: Vec<Substitution>,
    pub checks: Vec<(Expr, Expr)>,
}

/// The body of a claim that a `..name` passthrough may inline.
#[derive(PartialEq, Debug)]
pub struct ClaimBody {
    pub name: String,
    pub body: Vec<BodyItem>,
}

pub struct ClaimBodyV {
    pub name: Seq<char>,
    pub body: Seq<BodyItemV>,
}

pub open spec fn claim_body_view(c: ClaimBody) -> ClaimBodyV {
    ClaimBodyV { name: c.name@, body: items_view(c.body@) }
}

pub open spec fn table_view(t: Seq<ClaimBody>) -> Seq<ClaimBodyV> {
    Seq::new(t.len(), |i: int| claim_body_view(t[i]))
}

pub open spec fn steps_view(v: Seq<Substitution>) -> Seq<(Seq<char>, ExprV)> {
    Seq::new(v.len(), |i: int| (v[i].var@, v[i].expr@))
}

pub open spec fn pairs_view(v: Seq<(Expr, Expr)>) -> Seq<(ExprV, ExprV)> {
    Seq::new(v.len(), |i: int| (v[i].0@, v[i].1@))
}

// ───────────────────────── passthrough flattening ─────────────────────────

/// The claim names of the `..name` items of `items`, in order.
pub open spec fn passthrough_names(items: Seq<BodyItemV>) -> Seq<Seq<char>>
    decreases items.len(),
{
    if items.len() == 0 {
        Seq::empty()
    } else {
        passthrough_names(items.drop_last()) + match items.last() {
            BodyItemV::Passthrough { name, .. } => seq![name],
            _ => Seq::empty(),
        }
    }
}

/// The body of the first entry of `table` named `name`.
pub open spec fn lookup_body(table: Seq<ClaimBodyV>, name: Seq<char>) -> Option<Seq<BodyItemV>>
    decreases table.len(),
{
    if table.len() == 0 {
        None
    } else if table[0].name == name {
        Some(table[0].body)
    } else {
        lookup_body(table.drop_first(), name)
    }
}

/// How many entries of `table` carry a name outside `walked`.
pub open spec fn unwalked(table: Seq<ClaimBodyV>, walked: Set<Seq<char>>) -> nat
    decreases table.len(),
{
    if table.len() == 0 {
        0
    } else {
        unwalked(table.drop_first(), walked) + if walked.contains(table[0].name) {
            0nat
        } else {
            1nat
        }
    }
}

pub proof fn lemma_unwalked_insert(table: Seq<ClaimBodyV>, walked: Set<Seq<char>>, n: Seq<char>)
    ensures
        unwalked(table, walked.insert(n)) <= unwalked(table, walked),
        lookup_body(table, n) is None ==> unwalked(table, walked.insert(n)) == unwalked(table, walked),
        lookup_body(table, n) is Some && !walked.contains(n) ==> unwalked(table, walked.insert(n)) < unwalked(
            table,
            walked,
        ),
    decreases table.len(),
{
    if table.len() > 0 {
        lemma_unwalked_insert(table.drop_first(), walked, n);
    }
}

/// The worklist walk that flattens passthroughs: pop a name from the end
/// of `stack`; the first time a name is seen and `table` has its body,
/// append that body to `acc` and push its own passthrough names.
pub open spec fn walk(table: Seq<ClaimBodyV>, stack: Seq<Seq<char>>, walked: Set<Seq<char>>, acc: Seq<BodyItemV>) -> Seq<
    BodyItemV,
>
    decreases unwalked(table, walked), stack.len(),
{
    if stack.len() == 0 {
        acc
    } else {
        let n = stack.last();
        let rest = stack.drop_last();
        if walked.contains(n) {
            walk(table, rest, walked, acc)
        } else {
            proof {
                lemma_unwalked_insert(table, walked, n);
            }
            match lookup_body(table, n) {
                None => walk(table, rest, walked.insert(n), acc),
                Some(body) => walk(table, rest + passthrough_names(body), walked.insert(n), acc + body),
            }
        }
    }
}

/// A schema body with the bodies of the claims it passes through (and
/// those they pass through) appended.
pub open spec fn flattened_body(body: Seq<BodyItemV>, table: Seq<ClaimBodyV>) -> Seq<BodyItemV> {
    walk(table, passthrough_names(body), Set::empty(), body)
}

/// The expressions of the `Constraint` items of `items`, in order.
pub open spec fn body_constraints(items: Seq<BodyItemV>) -> Seq<ExprV>
    decreases items.len(),
{
    if items.len() == 0 {
        Seq::empty()
    } else {
        body_constraints(items.drop_last()) + match items.last() {
            BodyItemV::Constraint(e) => seq![e],
            _ => Seq::empty(),
        }
    }
}

// ───────────────────────── candidate collection ─────────────────────────

pub open spec fn has_key(c: Seq<(Seq<char>, ExprV)>, n: Seq<char>) -> bool {
    exists|k: int| 0 <= k < c.len() && (#[trigger] c[k]).0 == n
}

/// The expression recorded for `n` first in `c`.
pub open spec fn cand_expr(c: Seq<(Seq<char>, ExprV)>, n: Seq<char>) -> ExprV
    decreases c.len(),
{
    if c.len() == 0 {
        ExprV::Int(0)
    } else if c[0].0 == n {
        c[0].1
    } else {
        cand_expr(c.drop_first(), n)
    }
}

/// One constraint's effect on the candidates and checks: `n = e` or
/// `e = n` with `n` a target not yet defined and not mentioned by `e`
/// defines `n` (the left side is tried first); any other equality is a
/// check; a constraint that is not an equality changes nothing.
pub open spec fn collect_step(
    st: (Seq<(Seq<char>, ExprV)>, Seq<(ExprV, ExprV)>),
    c: ExprV,
    targets: Seq<Seq<char>>,
) -> (Seq<(Seq<char>, ExprV)>, Seq<(ExprV, ExprV)>) {
    match c {
        ExprV::Binary(BinOpV::Eq, l, r) => {
            let (cands, checks) = st;
            if (*l matches ExprV::Identifier(n) && targets.contains(n) && !has_key(cands, n) && !expr_mentions(
                *r,
                n,
            )) {
                (cands.push((l->Identifier_0, *r)), checks)
            } else if (*r matches ExprV::Identifier(n) && targets.contains(n) && !has_key(cands, n)
                && !expr_mentions(*l, n)) {
                (cands.push((r->Identifier_0, *l)), checks)
            } else {
                (cands, checks.push((*l, *r)))
            }
        },
        _ => st,
    }
}

/// The candidates and checks gathered from `cs`, in order.
pub open spec fn collect(cs: Seq<ExprV>, targets: Seq<Seq<char>>) -> (Seq<(Seq<char>, ExprV)>, Seq<(ExprV, ExprV)>)
    decreases cs.len(),
{
    if cs.len() == 0 {
        (Seq::empty(), Seq::empty())
    } else {
        collect_step(collect(cs.drop_last(), targets), cs.last(), targets)
    }
}


pub open spec fn names_set(v: Seq<String>) -> Set<Seq<char>> {
    Set::new(|x: Seq<char>| strs_view(v).contains(x))
}

pub open spec fn cands_view(v: Seq<(String, Expr)>) -> Seq<(Seq<char>, ExprV)> {
    Seq::new(v.len(), |i: int| (v[i].0@, v[i].1@))
}

// ───────────────────────── executable: flattening ─────────────────────────

/// The index of the first entry of `table` named `name`.
fn lookup_claim(table: &Vec<ClaimBody>, name: &String) -> (r: Option<usize>)
    ensures
        match r {
            Some(i) => i < table.len() && lookup_body(table_view(table@), name@) == Some(
                items_view(table@[i as int].body@),
            ),
            None => lookup_body(table_view(table@), name@) is None,
        },
{
    let ghost tv = table_view(table@);
    let mut i: usize = 0;
    assert(tv.subrange(0, tv.len() as int) =~= tv);
    while i < table.len()
        invariant
            0 <= i <= table.len(),
            tv == table_view(table@),
            lookup_body(tv, name@) == lookup_body(tv.subrange(i as int, tv.len() as int), name@),
        decreases table.len() - i,
    {
        assert(tv.subrange(i as int, tv.len() as int)[0] == claim_body_view(table@[i as int]));
        if table[i].name == *name {
            return Some(i);
        }
        assert(tv.subrange(i as int, tv.len() as int).drop_first() =~= tv.subrange(i + 1, tv.len() as int));
        i += 1;
    }
    None
}

/// Push the passthrough names of `items` onto `stack`, in order.
fn push_passthrough_names(items: &Vec<BodyItem>, stack: &mut Vec<String>)
    ensures
        strs_view(final(stack)@) == strs_view(old(stack)@) + passthrough_names(items_view(items@)),
{
    let mut i: usize = 0;
    while i < items.len()
        invariant
            0 <= i <= items.len(),
            strs_view(stack@) == strs_view(old(stack)@) + passthrough_names(items_view(items@).take(i as int)),
        decreases items.len() - i,
    {
        assert(items_view(items@).take(i + 1).drop_last() =~= items_view(items@).take(i as int));
        assert(items_view(items@)[i as int] == body_item_view(items@[i as int]));
        let ghost prev = stack@;
        assert(items_view(items@).take(i + 1).last() == body_item_view(items@[i as int]));
        if let BodyItem::Passthrough { name, .. } = &items[i] {
            stack.push(name.clone());
            assert(strs_view(stack@) =~= strs_view(prev).push(name@));
        } else {
            assert(strs_view(stack@) =~= strs_view(prev));
        }
        assert(strs_view(stack@) =~= strs_view(old(stack)@) + passthrough_names(items_view(items@).take(i + 1)));
        i += 1;
    }
    assert(items_view(items@).take(items.len() as int) =~= items_view(items@));
}

/// Append deep copies of `src` to `dst`.
fn append_items(dst: &mut Vec<BodyItem>, src: &Vec<BodyItem>)
    ensures
        items_view(final(dst)@) == items_view(old(dst)@) + items_view(src@),
{
    let mut i: usize = 0;
    while i < src.len()
        invariant
            0 <= i <= src.len(),
            items_view(dst@) == items_view(old(dst)@) + items_view(src@).take(i as int),
        decreases src.len() - i,
    {
        let ghost prev = dst@;
        dst.push(clone_body_item(&src[i]));
        assert(items_view(dst@) =~= items_view(prev).push(body_item_view(src@[i as int])));
        assert(items_view(src@).take(i + 1) =~= items_view(src@).take(i as int).push(body_item_view(src@[i as int])));
        assert(items_view(dst@) =~= items_view(old(dst)@) + items_view(src@).take(i + 1));
        i += 1;
    }
    assert(items_view(src@).take(src.len() as int) =~= items_view(src@));
}

/// `body` with the bodies of the claims it passes through appended; see
/// `flattened_body`.
fn flatten_passthroughs(body: &Vec<BodyItem>, table: &Vec<ClaimBody>) -> (r: Vec<BodyItem>)
    ensures
        items_view(r@) == flattened_body(items_view(body@), table_view(table@)),
{
    let ghost tv = table_view(table@);
    let ghost target = flattened_body(items_view(body@), tv);
    let mut acc = clone_body_items(body);
    let mut stack: Vec<String> = Vec::new();
    push_passthrough_names(body, &mut stack);
    assert(strs_view(stack@) =~= passthrough_names(items_view(body@)));
    let mut walked: Vec<String> = Vec::new();
    assert(names_set(walked@) =~= Set::<Seq<char>>::empty());
    while stack.len() > 0
        invariant
            tv == table_view(table@),
            walk(tv, strs_view(stack@), names_set(walked@), items_view(acc@)) == target,
        decreases unwalked(tv, names_set(walked@)), stack.len(),
    {
        let ghost before = stack@;
        let n = stack.pop().unwrap();
        assert(strs_view(stack@) =~= strs_view(before).drop_last());
        assert(n@ == strs_view(before).last());
        if strings_contain(&walked, &n) {
            assert(names_set(walked@).contains(n@));
            continue;
        }
        proof {
            lemma_unwalked_insert(tv, names_set(walked@), n@);
        }
        let ghost walked_before = walked@;
        walked.push(n.clone());
        assert(names_set(walked@) =~= names_set(walked_before).insert(n@)) by {
            assert forall|x: Seq<char>| names_set(walked@).contains(x) <==> names_set(walked_before).insert(n@).contains(x) by {
                if strs_view(walked@).contains(x) {
                    let k = choose|k: int| 0 <= k < strs_view(walked@).len() && strs_view(walked@)[k] == x;
                    if k < walked_before.len() {
                        assert(strs_view(walked_before)[k] == x);
                    }
                }
                if strs_view(walked_before).contains(x) {
                    let k = choose|k: int| 0 <= k < strs_view(walked_before).len() && strs_view(walked_before)[k] == x;
                    assert(strs_view(walked@)[k] == x);
                }
                if x == n@ {
                    assert(strs_view(walked@)[walked_before.len() as int] == x);
                }
            }
        }
        match lookup_claim(table, &n) {
            None => {},
            Some(i) => {
                push_passthrough_names(&table[i].body, &mut stack);
                append_items(&mut acc, &table[i].body);
            },
        }
    }
    acc
}


// ───────────────────────── dependency order ─────────────────────────

/// Code-point lexicographic order on strings (the byte order of their
/// UTF-8 encodings).
pub open spec fn str_lt(a: Seq<char>, b: Seq<char>) -> bool
    decreases a.len(),
{
    if a.len() == 0 {
        b.len() > 0
    } else if b.len() == 0 {
        false
    } else if a[0] != b[0] {
        (a[0] as int) < (b[0] as int)
    } else {
        str_lt(a.drop_first(), b.drop_first())
    }
}

pub proof fn lemma_str_lt_irrefl_asym(a: Seq<char>, b: Seq<char>)
    ensures
        !str_lt(a, a),
        str_lt(a, b) ==> !str_lt(b, a),
    decreases a.len(),
{
    if a.len() > 0 && b.len() > 0 && a[0] == b[0] {
        lemma_str_lt_irrefl_asym(a.drop_first(), b.drop_first());
    }
    if a.len() > 0 {
        lemma_str_lt_irrefl_asym(a.drop_first(), a.drop_first());
    }
}

pub proof fn lemma_str_lt_total(a: Seq<char>, b: Seq<char>)
    ensures
        a != b ==> str_lt(a, b) || str_lt(b, a),
    decreases a.len(),
{
    if a.len() > 0 && b.len() > 0 && a[0] == b[0] {
        lemma_str_lt_total(a.drop_first(), b.drop_first());
        if a != b {
            assert(a =~= seq![a[0]] + a.drop_first());
            assert(b =~= seq![b[0]] + b.drop_first());
        }
    }
    if a.len() == 0 && b.len() == 0 {
        assert(a =~= b);
    }
    if a.len() > 0 && b.len() > 0 && a[0] != b[0] {
        assert((a[0] as int) != (b[0] as int));
    }
}

pub proof fn lemma_str_lt_trans(a: Seq<char>, b: Seq<char>, c: Seq<char>)
    requires
        str_lt(a, b),
        str_lt(b, c),
    ensures
        str_lt(a, c),
    decreases a.len(),
{
    if a.len() > 0 && b.len() > 0 && c.len() > 0 && a[0] == b[0] && b[0] == c[0] {
        lemma_str_lt_trans(a.drop_first(), b.drop_first(), c.drop_first());
    }
}

/// Every component variable other than `v` that `v`'s defining expression
/// mentions is already in `placed`.
pub open spec fn deps_placed(
    c: Seq<(Seq<char>, ExprV)>,
    vars: Seq<Seq<char>>,
    v: Seq<char>,
    placed: Seq<Seq<char>>,
) -> bool {
    forall|j: int|
        0 <= j < vars.len() && vars[j] != v && #[trigger] expr_mentions(cand_expr(c, v), vars[j])
            ==> placed.contains(vars[j])
}

/// `v` is a component variable not yet placed whose dependencies are.
pub open spec fn is_ready(c: Seq<(Seq<char>, ExprV)>, vars: Seq<Seq<char>>, placed: Seq<Seq<char>>, v: Seq<char>) -> bool {
    vars.contains(v) && !placed.contains(v) && deps_placed(c, vars, v, placed)
}

/// `v` is the greatest ready variable (in `str_lt` order).
pub open spec fn greatest_ready(
    c: Seq<(Seq<char>, ExprV)>,
    vars: Seq<Seq<char>>,
    placed: Seq<Seq<char>>,
    v: Seq<char>,
) -> bool {
    is_ready(c, vars, placed, v) && forall|u: Seq<char>| #[trigger]
        is_ready(c, vars, placed, u) && u != v ==> str_lt(u, v)
}

/// `order` places all of `vars`, each step taking the greatest variable
/// whose dependencies are already placed.
pub open spec fn is_greedy_order(c: Seq<(Seq<char>, ExprV)>, vars: Seq<Seq<char>>, order: Seq<Seq<char>>) -> bool {
    &&& order.len() == vars.len()
    &&& forall|k: int| 0 <= k < order.len() ==> #[trigger] greatest_ready(c, vars, order.take(k), order[k])
}

/// `p` lists each of `vars` once, and no variable's defining expression
/// mentions a variable listed after it.
pub open spec fn is_topo_order(c: Seq<(Seq<char>, ExprV)>, vars: Seq<Seq<char>>, p: Seq<Seq<char>>) -> bool {
    &&& p.len() == vars.len()
    &&& p.no_duplicates()
    &&& forall|i: int| 0 <= i < p.len() ==> vars.contains(#[trigger] p[i])
    &&& forall|i: int, j: int| 0 <= i < j < p.len() ==> !expr_mentions(cand_expr(c, #[trigger] p[i]), #[trigger] p[j])
}

pub open spec fn has_topo_order(c: Seq<(Seq<char>, ExprV)>, vars: Seq<Seq<char>>) -> bool {
    exists|p: Seq<Seq<char>>| is_topo_order(c, vars, p)
}

/// A list without repeats that draws from `vars` and is as long contains
/// every element of `vars`.
pub proof fn lemma_covers(p: Seq<Seq<char>>, vars: Seq<Seq<char>>)
    requires
        p.no_duplicates(),
        vars.no_duplicates(),
        p.len() == vars.len(),
        forall|i: int| 0 <= i < p.len() ==> vars.contains(#[trigger] p[i]),
    ensures
        forall|v: Seq<char>| vars.contains(v) ==> p.contains(v),
{
    p.unique_seq_to_set();
    vars.unique_seq_to_set();
    assert(p.to_set().subset_of(vars.to_set())) by {
        assert forall|x: Seq<char>| p.to_set().contains(x) implies vars.to_set().contains(x) by {
            let i = choose|i: int| 0 <= i < p.len() && p[i] == x;
            assert(vars.contains(p[i]));
        }
    }
    vstd::set_lib::lemma_subset_equality(p.to_set(), vars.to_set());
    assert forall|v: Seq<char>| vars.contains(v) implies p.contains(v) by {
        assert(vars.to_set().contains(v));
        assert(p.to_set().contains(v));
    }
}

/// A greedy order is a topological order.
pub proof fn lemma_greedy_is_topo(c: Seq<(Seq<char>, ExprV)>, vars: Seq<Seq<char>>, order: Seq<Seq<char>>)
    requires
        is_greedy_order(c, vars, order),
    ensures
        is_topo_order(c, vars, order),
{
    assert forall|i: int, j: int| 0 <= i < j < order.len() implies order[i] != order[j] by {
        assert(greatest_ready(c, vars, order.take(j), order[j]));
        assert(order.take(j)[i] == order[i]);
    }
    assert forall|i: int| 0 <= i < order.len() implies vars.contains(#[trigger] order[i]) by {
        assert(greatest_ready(c, vars, order.take(i), order[i]));
    }
    assert forall|i: int, j: int| 0 <= i < j < order.len() implies !expr_mentions(
        cand_expr(c, #[trigger] order[i]),
        #[trigger] order[j],
    ) by {
        assert(greatest_ready(c, vars, order.take(i), order[i]));
        assert(greatest_ready(c, vars, order.take(j), order[j]));
        if expr_mentions(cand_expr(c, order[i]), order[j]) {
            let jj = choose|jj: int| 0 <= jj < vars.len() && vars[jj] == order[j];
            assert(order[i] != order[j]) by {
                assert(order.take(j)[i] == order[i]);
            }
            assert(expr_mentions(cand_expr(c, order[i]), vars[jj]));
            assert(order.take(i).contains(vars[jj]));
            let m = choose|m: int| 0 <= m < order.take(i).len() && order.take(i)[m] == vars[jj];
            assert(order.take(j)[m] == order[j]);
        }
    }
}

/// When no variable is ready but some are unplaced, no topological order
/// exists: the first unplaced variable of any candidate order depends on
/// another unplaced one, which that order lists after it.
pub proof fn lemma_stuck_no_topo(c: Seq<(Seq<char>, ExprV)>, vars: Seq<Seq<char>>, placed: Seq<Seq<char>>)
    requires
        vars.no_duplicates(),
        placed.no_duplicates(),
        forall|i: int| 0 <= i < placed.len() ==> vars.contains(#[trigger] placed[i]),
        placed.len() < vars.len(),
        forall|v: Seq<char>| !#[trigger] is_ready(c, vars, placed, v),
    ensures
        !has_topo_order(c, vars),
{
    if has_topo_order(c, vars) {
        let p = choose|p: Seq<Seq<char>>| is_topo_order(c, vars, p);
        lemma_covers(p, vars);
        // some element of p is not placed
        assert(exists|i: int| 0 <= i < p.len() && !placed.contains(p[i])) by {
            if forall|i: int| 0 <= i < p.len() ==> placed.contains(p[i]) {
                p.unique_seq_to_set();
                placed.lemma_cardinality_of_set();
                assert(p.to_set().subset_of(placed.to_set())) by {
                    assert forall|x: Seq<char>| p.to_set().contains(x) implies placed.to_set().contains(x) by {
                        let i = choose|i: int| 0 <= i < p.len() && p[i] == x;
                        assert(placed.contains(p[i]));
                    }
                }
                vstd::set_lib::lemma_len_subset(p.to_set(), placed.to_set());
            }
        }
        let i0 = choose|i: int| 0 <= i < p.len() && !placed.contains(p[i]);
        let i = lemma_first_unplaced(p, placed, i0);
        let r = p[i];
        assert(vars.contains(r));
        assert(!is_ready(c, vars, placed, r));
        let j = choose|j: int|
            0 <= j < vars.len() && vars[j] != r && #[trigger] expr_mentions(cand_expr(c, r), vars[j])
                && !placed.contains(vars[j]);
        assert(p.contains(vars[j]));
        let m = choose|m: int| 0 <= m < p.len() && p[m] == vars[j];
        if m < i {
            assert(placed.contains(p[m]));
        }
        assert(m > i);
        assert(!expr_mentions(cand_expr(c, p[i]), p[m]));
    }
}

/// The first index of `p` whose element is not in `placed`.
pub proof fn lemma_first_unplaced(p: Seq<Seq<char>>, placed: Seq<Seq<char>>, i0: int) -> (i: int)
    requires
        0 <= i0 < p.len(),
        !placed.contains(p[i0]),
    ensures
        0 <= i <= i0,
        !placed.contains(p[i]),
        forall|m: int| 0 <= m < i ==> placed.contains(#[trigger] p[m]),
    decreases i0,
{
    if forall|m: int| 0 <= m < i0 ==> placed.contains(#[trigger] p[m]) {
        i0
    } else {
        let m = choose|m: int| 0 <= m < i0 && !placed.contains(#[trigger] p[m]);
        lemma_first_unplaced(p, placed, m)
    }
}


// ───────────────────────── executable: candidates and order ─────────────────────────

/// `str_lt` on two strings.
pub fn string_lt(a: &String, b: &String) -> (r: bool)
    ensures
        r == str_lt(a@, b@),
{
    let x = str_to_chars(a.as_str());
    let y = str_to_chars(b.as_str());
    let mut i: usize = 0;
    assert(x@.subrange(0, x@.len() as int) =~= x@);
    assert(y@.subrange(0, y@.len() as int) =~= y@);
    while i < x.len() && i < y.len()
        invariant
            0 <= i <= x.len(),
            i <= y.len(),
            x@ == a@,
            y@ == b@,
            str_lt(a@, b@) == str_lt(x@.subrange(i as int, x@.len() as int), y@.subrange(i as int, y@.len() as int)),
        decreases x.len() - i,
    {
        let ghost xs = x@.subrange(i as int, x@.len() as int);
        let ghost ys = y@.subrange(i as int, y@.len() as int);
        assert(xs[0] == x@[i as int]);
        assert(ys[0] == y@[i as int]);
        if x[i] != y[i] {
            return x[i] < y[i];
        }
        assert(xs.drop_first() =~= x@.subrange(i + 1, x@.len() as int));
        assert(ys.drop_first() =~= y@.subrange(i + 1, y@.len() as int));
        i += 1;
    }
    i < y.len()
}

/// The index of the first candidate recorded for `name`.
fn find_cand(cands: &Vec<(String, Expr)>, name: &String) -> (r: Option<usize>)
    ensures
        match r {
            Some(i) => i < cands.len() && has_key(cands_view(cands@), name@) && cand_expr(cands_view(cands@), name@)
                == cands@[i as int].1@,
            None => !has_key(cands_view(cands@), name@),
        },
{
    let ghost cv = cands_view(cands@);
    let mut i: usize = 0;
    assert(cv.subrange(0, cv.len() as int) =~= cv);
    while i < cands.len()
        invariant
            0 <= i <= cands.len(),
            cv == cands_view(cands@),
            cand_expr(cv, name@) == cand_expr(cv.subrange(i as int, cv.len() as int), name@),
            forall|k: int| 0 <= k < i ==> cv[k].0 != name@,
        decreases cands.len() - i,
    {
        assert(cv.subrange(i as int, cv.len() as int)[0] == cv[i as int]);
        if cands[i].0 == *name {
            assert(cv[i as int].0 == name@);
            return Some(i);
        }
        assert(cv.subrange(i as int, cv.len() as int).drop_first() =~= cv.subrange(i + 1, cv.len() as int));
        i += 1;
    }
    None
}


/// One constraint's effect on `cands` and `checks`; see `collect_step`.
fn collect_one(e: &Expr, targets: &Vec<String>, cands: &mut Vec<(String, Expr)>, checks: &mut Vec<(Expr, Expr)>)
    ensures
        (cands_view(final(cands)@), pairs_view(final(checks)@)) == collect_step(
            (cands_view(old(cands)@), pairs_view(old(checks)@)),
            e@,
            strs_view(targets@),
        ),
{
    proof {
        reveal_with_fuel(expr_view, 2);
    }
    if let Expr::Binary(BinOp::Eq, l, r) = e {
        if let Expr::Identifier(n) = &**l {
            if strings_contain(targets, n) && find_cand(cands, n).is_none() && !mentions(r, n) {
                let ghost prev = cands@;
                cands.push((n.clone(), clone_expr(r)));
                assert(cands_view(cands@) =~= cands_view(prev).push((n@, expr_view(**r))));
                return;
            }
        }
        if let Expr::Identifier(n) = &**r {
            if strings_contain(targets, n) && find_cand(cands, n).is_none() && !mentions(l, n) {
                let ghost prev = cands@;
                cands.push((n.clone(), clone_expr(l)));
                assert(cands_view(cands@) =~= cands_view(prev).push((n@, expr_view(**l))));
                return;
            }
        }
        let ghost prev = checks@;
        checks.push((clone_expr(l), clone_expr(r)));
        assert(pairs_view(checks@) =~= pairs_view(prev).push((expr_view(**l), expr_view(**r))));
    }
}

/// The candidates and checks of the constraints of `all`; see `collect`.
fn collect_candidates(all: &Vec<BodyItem>, targets: &Vec<String>) -> (r: (Vec<(String, Expr)>, Vec<(Expr, Expr)>))
    ensures
        (cands_view(r.0@), pairs_view(r.1@)) == collect(body_constraints(items_view(all@)), strs_view(targets@)),
{
    let mut cands: Vec<(String, Expr)> = Vec::new();
    let mut checks: Vec<(Expr, Expr)> = Vec::new();
    let ghost tv = strs_view(targets@);
    let ghost iv = items_view(all@);
    assert(cands_view(cands@) =~= Seq::<(Seq<char>, ExprV)>::empty());
    assert(pairs_view(checks@) =~= Seq::<(ExprV, ExprV)>::empty());
    let mut i: usize = 0;
    while i < all.len()
        invariant
            0 <= i <= all.len(),
            tv == strs_view(targets@),
            iv == items_view(all@),
            (cands_view(cands@), pairs_view(checks@)) == collect(body_constraints(iv.take(i as int)), tv),
        decreases all.len() - i,
    {
        assert(iv.take(i + 1).drop_last() =~= iv.take(i as int));
        assert(iv.take(i + 1).last() == body_item_view(all@[i as int]));
        if let BodyItem::Constraint(e) = &all[i] {
            let ghost prev = body_constraints(iv.take(i as int));
            assert(body_constraints(iv.take(i + 1)) == prev.push(e@));
            assert(prev.push(e@).drop_last() =~= prev);
            collect_one(e, targets, &mut cands, &mut checks);
        } else {
            assert(body_constraints(iv.take(i + 1)) =~= body_constraints(iv.take(i as int)));
        }
        i += 1;
    }
    assert(iv.take(all.len() as int) =~= iv);
    (cands, checks)
}

/// Does `placed` hold `v`, and does every variable other than `v` that
/// `e` mentions appear in `placed`?
fn deps_all_placed(e: &Expr, vars: &Vec<String>, v: &String, placed: &Vec<String>) -> (r: bool)
    ensures
        r == (forall|j: int|
            0 <= j < vars.len() && strs_view(vars@)[j] != v@ && #[trigger] expr_mentions(e@, strs_view(vars@)[j])
                ==> strs_view(placed@).contains(strs_view(vars@)[j])),
{
    let mut j: usize = 0;
    while j < vars.len()
        invariant
            0 <= j <= vars.len(),
            forall|k: int|
                0 <= k < j && strs_view(vars@)[k] != v@ && #[trigger] expr_mentions(e@, strs_view(vars@)[k])
                    ==> strs_view(placed@).contains(strs_view(vars@)[k]),
        decreases vars.len() - j,
    {
        assert(strs_view(vars@)[j as int] == vars@[j as int]@);
        if vars[j] != *v && mentions(e, &vars[j]) && !strings_contain(placed, &vars[j]) {
            return false;
        }
        j += 1;
    }
    true
}

/// Order `vars` by repeatedly placing the greatest variable whose
/// dependencies are placed; `None` when no such order exists.
fn dependency_order(vars: &Vec<String>, cands: &Vec<(String, Expr)>) -> (r: Option<Vec<String>>)
    requires
        strs_view(vars@).no_duplicates(),
        forall|k: int| 0 <= k < vars.len() ==> has_key(cands_view(cands@), #[trigger] strs_view(vars@)[k]),
    ensures
        match r {
            Some(order) => is_greedy_order(cands_view(cands@), strs_view(vars@), strs_view(order@)),
            None => !has_topo_order(cands_view(cands@), strs_view(vars@)),
        },
{
    let ghost cv = cands_view(cands@);
    let ghost vv = strs_view(vars@);
    let mut placed: Vec<String> = Vec::new();
    while placed.len() < vars.len()
        invariant
            cv == cands_view(cands@),
            vv == strs_view(vars@),
            vv.no_duplicates(),
            forall|k: int| 0 <= k < vars.len() ==> has_key(cv, #[trigger] vv[k]),
            placed.len() <= vars.len(),
            strs_view(placed@).no_duplicates(),
            forall|k: int| 0 <= k < placed.len() ==> vv.contains(#[trigger] strs_view(placed@)[k]),
            forall|k: int|
                0 <= k < placed.len() ==> #[trigger] greatest_ready(
                    cv,
                    vv,
                    strs_view(placed@).take(k),
                    strs_view(placed@)[k],
                ),
        decreases vars.len() - placed.len(),
    {
        let ghost pv = strs_view(placed@);
        let mut best: Option<usize> = None;
        let mut j: usize = 0;
        while j < vars.len()
            invariant
                0 <= j <= vars.len(),
                cv == cands_view(cands@),
                vv == strs_view(vars@),
                pv == strs_view(placed@),
                forall|k: int| 0 <= k < vars.len() ==> has_key(cv, #[trigger] vv[k]),
                match best {
                    Some(b) => b < j && is_ready(cv, vv, pv, vv[b as int]) && forall|k: int|
                        0 <= k < j && #[trigger] is_ready(cv, vv, pv, vv[k]) && vv[k] != vv[b as int] ==> str_lt(
                            vv[k],
                            vv[b as int],
                        ),
                    None => forall|k: int| 0 <= k < j ==> !#[trigger] is_ready(cv, vv, pv, vv[k]),
                },
            decreases vars.len() - j,
        {
            assert(vv[j as int] == vars@[j as int]@);
            if !strings_contain(&placed, &vars[j]) {
                let ci = find_cand(cands, &vars[j]).unwrap();
                if deps_all_placed(&cands[ci].1, vars, &vars[j], &placed) {
                    assert(vv.contains(vv[j as int]));
                    assert(is_ready(cv, vv, pv, vv[j as int]));
                    match best {
                        None => {
                            best = Some(j);
                        },
                        Some(b) => {
                            if string_lt(&vars[b], &vars[j]) {
                                proof {
                                    assert forall|k: int|
                                        0 <= k < j + 1 && #[trigger] is_ready(cv, vv, pv, vv[k]) && vv[k] != vv[j as int]
                                            implies str_lt(vv[k], vv[j as int]) by {
                                        if k < j && vv[k] != vv[b as int] {
                                            lemma_str_lt_trans(vv[k], vv[b as int], vv[j as int]);
                                        }
                                    }
                                }
                                best = Some(j);
                            } else {
                                proof {
                                    lemma_str_lt_total(vv[b as int], vv[j as int]);
                                }
                            }
                        },
                    }
                } else {
                    assert(!is_ready(cv, vv, pv, vv[j as int]));
                }
            } else {
                assert(!is_ready(cv, vv, pv, vv[j as int]));
            }
            j += 1;
        }
        match best {
            None => {
                proof {
                    assert forall|v: Seq<char>| !#[trigger] is_ready(cv, vv, pv, v) by {
                        if is_ready(cv, vv, pv, v) {
                            let k = choose|k: int| 0 <= k < vv.len() && vv[k] == v;
                            assert(!is_ready(cv, vv, pv, vv[k]));
                        }
                    }
                    lemma_stuck_no_topo(cv, vv, pv);
                }
                return None;
            },
            Some(b) => {
                proof {
                    assert forall|u: Seq<char>| #[trigger] is_ready(cv, vv, pv, u) && u != vv[b as int] implies str_lt(
                        u,
                        vv[b as int],
                    ) by {
                        let k = choose|k: int| 0 <= k < vv.len() && vv[k] == u;
                        assert(is_ready(cv, vv, pv, vv[k]));
                    }
                    assert(greatest_ready(cv, vv, pv, vv[b as int]));
                }
                placed.push(vars[b].clone());
                proof {
                    let nv = strs_view(placed@);
                    assert(nv =~= pv.push(vv[b as int]));
                    assert(nv.take(pv.len() as int) =~= pv);
                    assert forall|k: int| 0 <= k < nv.len() implies #[trigger] greatest_ready(cv, vv, nv.take(k), nv[k]) by {
                        if k < pv.len() {
                            assert(nv.take(k) =~= pv.take(k));
                            assert(nv[k] == pv[k]);
                        }
                    }
                    assert forall|k: int| 0 <= k < nv.len() implies vv.contains(#[trigger] nv[k]) by {
                        if k < pv.len() {
                            assert(nv[k] == pv[k]);
                        }
                    }
                    assert(nv.no_duplicates()) by {
                        assert forall|x: int, y: int| 0 <= x < y < nv.len() implies nv[x] != nv[y] by {
                            if y == pv.len() {
                                assert(!pv.contains(vv[b as int]));
                                assert(nv[x] == pv[x]);
                            } else {
                                assert(nv[x] == pv[x] && nv[y] == pv[y]);
                            }
                        }
                    }
                    // placed stays within vars, so its length cannot pass vars'
                    assert(placed@.len() <= vars@.len()) by {
                        nv.unique_seq_to_set();
                        vv.lemma_cardinality_of_set();
                        assert(nv.to_set().subset_of(vv.to_set())) by {
                            assert forall|x: Seq<char>| nv.to_set().contains(x) implies vv.to_set().contains(x) by {
                                let i = choose|i: int| 0 <= i < nv.len() && nv[i] == x;
                                assert(vv.contains(nv[i]));
                            }
                        }
                        vstd::set_lib::lemma_len_subset(nv.to_set(), vv.to_set());
                    }
                }
            },
        }
    }
    Some(placed)
}


// ───────────────────────── purity ─────────────────────────

/// The name of a `BinOp` variant as `{:?}` prints it.
pub open spec fn binop_debug(op: BinOpV) -> Seq<char> {
    match op {
        BinOpV::Add => "Add"@,
        BinOpV::Sub => "Sub"@,
        BinOpV::Mul => "Mul"@,
        BinOpV::Div => "Div"@,
        BinOpV::Eq => "Eq"@,
        BinOpV::Neq => "Neq"@,
        BinOpV::Lt => "Lt"@,
        BinOpV::Le => "Le"@,
        BinOpV::Gt => "Gt"@,
        BinOpV::Ge => "Ge"@,
        BinOpV::And => "And"@,
        BinOpV::Or => "Or"@,
        BinOpV::Implies => "Implies"@,
        BinOpV::Concat => "Concat"@,
        BinOpV::UserOp(sym) => "UserOp("@ + quoted(sym) + ")"@,
    }
}

pub open spec fn hex_digit(d: int) -> char {
    seq!['0', '1', '2', '3', '4', '5', '6', '7', '8', '9', 'a', 'b', 'c', 'd', 'e', 'f'][d]
}

/// A char as it appears inside a `{:?}`-printed string: quotes, backslashes
/// and ASCII control characters escaped.
pub open spec fn escape_char(c: char) -> Seq<char> {
    if c == '"' {
        seq!['\\', '"']
    } else if c == '\\' {
        seq!['\\', '\\']
    } else if c == '\n' {
        seq!['\\', 'n']
    } else if c == '\r' {
        seq!['\\', 'r']
    } else if c == '\t' {
        seq!['\\', 't']
    } else if c == '\0' {
        seq!['\\', '0']
    } else if (c as int) < 16 {
        seq!['\\', 'u', '{', hex_digit(c as int), '}']
    } else if (c as int) < 32 || (c as int) == 127 {
        seq!['\\', 'u', '{', hex_digit((c as int) / 16), hex_digit((c as int) % 16), '}']
    } else {
        seq![c]
    }
}

pub open spec fn escape_str(s: Seq<char>) -> Seq<char>
    decreases s.len(),
{
    if s.len() == 0 {
        Seq::empty()
    } else {
        escape_str(s.drop_last()) + escape_char(s.last())
    }
}

pub open spec fn quoted(s: Seq<char>) -> Seq<char> {
    "\""@ + escape_str(s) + "\""@
}

/// Why a non-equality constraint is refused, or `None` for an equality.
pub open spec fn constraint_kind(e: ExprV) -> Option<Seq<char>> {
    match e {
        ExprV::Binary(BinOpV::Eq, _, _) => None,
        ExprV::Forall(_, _, _) => Some("Forall (non-static bounds)"@),
        ExprV::Exists(_, _, _) => Some("Exists"@),
        ExprV::Binary(op, _, _) => Some("non-Eq Binary op "@ + binop_debug(op)),
        ExprV::Ternary(_, _, _) => Some("top-level Ternary"@),
        ExprV::Match(_, _) => Some("top-level Match"@),
        ExprV::Identifier(_) => Some("bare-identifier constraint"@),
        ExprV::Call(name, _) => Some("body Call "@ + name),
        _ => Some("non-Eq Constraint"@),
    }
}

/// The first refusal among the unrolled instances of a `∀`.
pub open spec fn unrolled_failure(items: Seq<BodyItemV>) -> Option<Seq<char>>
    decreases items.len(),
{
    if items.len() == 0 {
        None
    } else {
        match items[0] {
            BodyItemV::Constraint(e) => match constraint_kind(e) {
                Some(why) => Some("Forall body: "@ + why),
                None => unrolled_failure(items.drop_first()),
            },
            _ => unrolled_failure(items.drop_first()),
        }
    }
}

pub open spec fn is_primitive_type(t: Seq<char>) -> bool {
    t == "Int"@ || t == "Real"@ || t == "Bool"@ || t == "String"@
}

/// Why one body item keeps the schema off the native path, if it does.
pub open spec fn item_refusal(
    item: BodyItemV,
    enums: Seq<Seq<char>>,
    records: Seq<Seq<char>>,
    pures: Seq<Seq<char>>,
) -> Option<Seq<char>> {
    match item {
        BodyItemV::Constraint(e) => match e {
            ExprV::Binary(BinOpV::Eq, _, _) => None,
            _ => match unroll_forall(e) {
                Some(unrolled) => unrolled_failure(unrolled),
                None => constraint_kind(e),
            },
        },
        BodyItemV::Membership { name, ty, .. } => if is_primitive_type(ty) || enums.contains(ty) || records.contains(ty) {
            None
        } else {
            Some("Membership "@ + name + "∈"@ + ty)
        },
        BodyItemV::Passthrough { name, .. } => if pures.contains(name) {
            None
        } else {
            Some(".."@ + name + " not pure"@)
        },
        BodyItemV::ClaimCall { name, .. } => Some("ClaimCall "@ + name),
        BodyItemV::SubclaimDecl(_) => None,
    }
}

pub open spec fn first_failure(
    items: Seq<BodyItemV>,
    enums: Seq<Seq<char>>,
    records: Seq<Seq<char>>,
    pures: Seq<Seq<char>>,
) -> Option<Seq<char>>
    decreases items.len(),
{
    if items.len() == 0 {
        None
    } else {
        match item_refusal(items[0], enums, records, pures) {
            Some(why) => Some(why),
            None => first_failure(items.drop_first(), enums, records, pures),
        }
    }
}

/// `None` when the body holds only equalities (after unrolling `∀` over
/// constant ranges) and declarations of accepted types and passthroughs,
/// otherwise the first reason for refusal.
pub open spec fn purity_refusal(
    schema: SchemaDeclV,
    enums: Seq<Seq<char>>,
    records: Seq<Seq<char>>,
    pures: Seq<Seq<char>>,
) -> Option<Seq<char>> {
    if schema.keyword == Keyword::Subclaim {
        Some("keyword Subclaim"@)
    } else {
        first_failure(schema.body, enums, records, pures)
    }
}

pub open spec fn opt_string_view(o: Option<String>) -> Option<Seq<char>> {
    match o {
        Some(s) => Some(s@),
        None => None,
    }
}


// ───────────────────────── executable: purity ─────────────────────────

fn hex_digit_exec(d: u32) -> (c: char)
    requires
        d < 16,
    ensures
        c == hex_digit(d as int),
{
    let table: [char; 16] = ['0', '1', '2', '3', '4', '5', '6', '7', '8', '9', 'a', 'b', 'c', 'd', 'e', 'f'];
    let c = table[d as usize];
    assert(table@ =~= seq!['0', '1', '2', '3', '4', '5', '6', '7', '8', '9', 'a', 'b', 'c', 'd', 'e', 'f']);
    c
}

/// Append `escape_char(c)` to `out`.
pub(crate) fn push_escaped(out: &mut Vec<char>, c: char)
    ensures
        final(out)@ == old(out)@ + escape_char(c),
{
    let ghost prev = out@;
    let v = c as u32;
    assert(v == c as int);
    if c == '"' {
        out.push('\\');
        out.push('"');
    } else if c == '\\' {
        out.push('\\');
        out.push('\\');
    } else if c == '\n' {
        out.push('\\');
        out.push('n');
    } else if c == '\r' {
        out.push('\\');
        out.push('r');
    } else if c == '\t' {
        out.push('\\');
        out.push('t');
    } else if c == '\0' {
        out.push('\\');
        out.push('0');
    } else if v < 16 {
        out.push('\\');
        out.push('u');
        out.push('{');
        out.push(hex_digit_exec(v));
        out.push('}');
    } else if v < 32 || v == 127 {
        out.push('\\');
        out.push('u');
        out.push('{');
        out.push(hex_digit_exec(v / 16));
        out.push(hex_digit_exec(v % 16));
        out.push('}');
    } else {
        out.push(c);
    }
    assert(out@ =~= prev + escape_char(c));
}

/// `quoted(s@)`: `s` as `{:?}` prints it.
pub(crate) fn quoted_exec(s: &String) -> (r: String)
    ensures
        r@ == quoted(s@),
{
    let chars = str_to_chars(s.as_str());
    let mut out: Vec<char> = Vec::new();
    out.push('"');
    let mut i: usize = 0;
    while i < chars.len()
        invariant
            0 <= i <= chars.len(),
            chars@ == s@,
            out@ == seq!['"'] + escape_str(chars@.take(i as int)),
        decreases chars.len() - i,
    {
        push_escaped(&mut out, chars[i]);
        assert(chars@.take(i + 1).drop_last() =~= chars@.take(i as int));
        assert(out@ =~= seq!['"'] + escape_str(chars@.take(i + 1)));
        i += 1;
    }
    out.push('"');
    assert(chars@.take(chars.len() as int) =~= chars@);
    let r = chars_to_string(&out);
    proof {
        reveal_strlit("\"");
    }
    assert(r@ =~= quoted(s@));
    r
}

fn binop_debug_exec(op: &BinOp) -> (r: String)
    ensures
        r@ == binop_debug(binop_view(*op)),
{
    match op {
        BinOp::Add => String::from_str("Add"),
        BinOp::Sub => String::from_str("Sub"),
        BinOp::Mul => String::from_str("Mul"),
        BinOp::Div => String::from_str("Div"),
        BinOp::Eq => String::from_str("Eq"),
        BinOp::Neq => String::from_str("Neq"),
        BinOp::Lt => String::from_str("Lt"),
        BinOp::Le => String::from_str("Le"),
        BinOp::Gt => String::from_str("Gt"),
        BinOp::Ge => String::from_str("Ge"),
        BinOp::And => String::from_str("And"),
        BinOp::Or => String::from_str("Or"),
        BinOp::Implies => String::from_str("Implies"),
        BinOp::Concat => String::from_str("Concat"),
        BinOp::UserOp(sym) => {
            let mut s = String::from_str("UserOp(");
            let q = quoted_exec(sym);
            s.append(q.as_str());
            s.append(")");
            s
        },
    }
}

/// Why a non-equality constraint is refused; see `constraint_kind`.
fn constraint_kind_exec(e: &Expr) -> (r: Option<String>)
    ensures
        opt_string_view(r) == constraint_kind(e@),
{
    match e {
        Expr::Binary(BinOp::Eq, _, _) => None,
        Expr::Forall(_, _, _) => Some(String::from_str("Forall (non-static bounds)")),
        Expr::Exists(_, _, _) => Some(String::from_str("Exists")),
        Expr::Binary(op, _, _) => {
            let mut s = String::from_str("non-Eq Binary op ");
            let d = binop_debug_exec(op);
            s.append(d.as_str());
            Some(s)
        },
        Expr::Ternary(_, _, _) => Some(String::from_str("top-level Ternary")),
        Expr::Match(_, _) => Some(String::from_str("top-level Match")),
        Expr::Identifier(_) => Some(String::from_str("bare-identifier constraint")),
        Expr::Call(name, _) => {
            let mut s = String::from_str("body Call ");
            s.append(name.as_str());
            Some(s)
        },
        _ => Some(String::from_str("non-Eq Constraint")),
    }
}


fn is_primitive_type_exec(t: &String) -> (r: bool)
    ensures
        r == is_primitive_type(t@),
{
    let a = String::from_str("Int");
    let b = String::from_str("Real");
    let c = String::from_str("Bool");
    let d = String::from_str("String");
    *t == a || *t == b || *t == c || *t == d
}

/// Why one body item is refused; see `item_refusal`.
fn item_refusal_exec(
    item: &BodyItem,
    enum_types: &Vec<String>,
    record_types: &Vec<String>,
    pure_claims: &Vec<String>,
) -> (r: Option<String>)
    ensures
        opt_string_view(r) == item_refusal(item@, strs_view(enum_types@), strs_view(record_types@), strs_view(pure_claims@)),
{
    match item {
        BodyItem::Constraint(e) => {
            if let Expr::Binary(BinOp::Eq, _, _) = e {
                return None;
            }
            match crate::subst::try_unroll_forall_range(e) {
                Some(unrolled) => {
                    let ghost uv = items_view(unrolled@);
                    let mut i: usize = 0;
                    assert(uv.subrange(0, uv.len() as int) =~= uv);
                    while i < unrolled.len()
                        invariant
                            0 <= i <= unrolled.len(),
                            uv == items_view(unrolled@),
                            unroll_forall(e@) == Some(uv),
                            item@ == BodyItemV::Constraint(e@),
                            !(e@ matches ExprV::Binary(BinOpV::Eq, _, _)),
                            unrolled_failure(uv) == unrolled_failure(uv.subrange(i as int, uv.len() as int)),
                        decreases unrolled.len() - i,
                    {
                        let ghost rest = uv.subrange(i as int, uv.len() as int);
                        assert(rest[0] == body_item_view(unrolled@[i as int]));
                        assert(rest.drop_first() =~= uv.subrange(i + 1, uv.len() as int));
                        if let BodyItem::Constraint(sub) = &unrolled[i] {
                            if let Some(why) = constraint_kind_exec(sub) {
                                let mut s = String::from_str("Forall body: ");
                                s.append(why.as_str());
                                return Some(s);
                            }
                        }
                        i += 1;
                    }
                    None
                },
                None => constraint_kind_exec(e),
            }
        },
        BodyItem::Membership { name, ty, .. } => {
            if is_primitive_type_exec(ty) || strings_contain(enum_types, ty) || strings_contain(record_types, ty) {
                None
            } else {
                let mut s = String::from_str("Membership ");
                s.append(name.as_str());
                s.append("∈");
                s.append(ty.as_str());
                Some(s)
            }
        },
        BodyItem::Passthrough { name, .. } => {
            if strings_contain(pure_claims, name) {
                None
            } else {
                let mut s = String::from_str("..");
                s.append(name.as_str());
                s.append(" not pure");
                Some(s)
            }
        },
        BodyItem::ClaimCall { name, .. } => {
            let mut s = String::from_str("ClaimCall ");
            s.append(name.as_str());
            Some(s)
        },
        BodyItem::SubclaimDecl(_) => None,
    }
}

/// Why the schema is not pure: `None` when it is, otherwise a short
/// reason for the refusal (see `purity_refusal`). The
/// caller names the enum types, the simple record types and the claims
/// whose passthrough is itself pure.
pub fn gate_diagnostics(
    schema: &SchemaDecl,
    enum_types: &Vec<String>,
    record_types: &Vec<String>,
    pure_claims: &Vec<String>,
) -> (r: Option<String>)
    ensures
        opt_string_view(r) == purity_refusal(schema@, strs_view(enum_types@), strs_view(record_types@), strs_view(pure_claims@)),
{
    proof {
        lemma_schema_lists(*schema);
    }
    if let Keyword::Subclaim = schema.keyword {
        return Some(String::from_str("keyword Subclaim"));
    }
    let ghost bv = items_view(schema.body@);
    let ghost ev = strs_view(enum_types@);
    let ghost rv = strs_view(record_types@);
    let ghost pv = strs_view(pure_claims@);
    let mut i: usize = 0;
    assert(bv.subrange(0, bv.len() as int) =~= bv);
    while i < schema.body.len()
        invariant
            0 <= i <= schema.body.len(),
            bv == items_view(schema.body@),
            bv == schema@.body,
            ev == strs_view(enum_types@),
            rv == strs_view(record_types@),
            pv == strs_view(pure_claims@),
            schema@.keyword != Keyword::Subclaim,
            first_failure(bv, ev, rv, pv) == first_failure(bv.subrange(i as int, bv.len() as int), ev, rv, pv),
        decreases schema.body.len() - i,
    {
        let ghost rest = bv.subrange(i as int, bv.len() as int);
        assert(rest[0] == body_item_view(schema.body@[i as int]));
        assert(rest.drop_first() =~= bv.subrange(i + 1, bv.len() as int));
        let why = item_refusal_exec(&schema.body[i], enum_types, record_types, pure_claims);
        if why.is_some() {
            return why;
        }
        i += 1;
    }
    None
}

/// Is the schema pure? With every predicate: enum types, simple record types,
/// and passthroughs to claims the caller vouches for.
pub fn is_pure_assignment_body_xl(
    schema: &SchemaDecl,
    enum_types: &Vec<String>,
    record_types: &Vec<String>,
    pure_claims: &Vec<String>,
) -> (r: bool)
    ensures
        r == purity_refusal(schema@, strs_view(enum_types@), strs_view(record_types@), strs_view(pure_claims@)) is None,
{
    gate_diagnostics(schema, enum_types, record_types, pure_claims).is_none()
}

/// Is the schema pure, accepting enum and simple record types? Every
/// passthrough is refused.
pub fn is_pure_assignment_body_full(schema: &SchemaDecl, enum_types: &Vec<String>, record_types: &Vec<String>) -> (r:
    bool)
    ensures
        r == purity_refusal(schema@, strs_view(enum_types@), strs_view(record_types@), Seq::empty()) is None,
{
    let none: Vec<String> = Vec::new();
    assert(strs_view(none@) =~= Seq::<Seq<char>>::empty());
    is_pure_assignment_body_xl(schema, enum_types, record_types, &none)
}

/// Is the schema pure, accepting enum types?
pub fn is_pure_assignment_body_with_enums(schema: &SchemaDecl, enum_types: &Vec<String>) -> (r: bool)
    ensures
        r == purity_refusal(schema@, strs_view(enum_types@), Seq::empty(), Seq::empty()) is None,
{
    let none: Vec<String> = Vec::new();
    assert(strs_view(none@) =~= Seq::<Seq<char>>::empty());
    is_pure_assignment_body_full(schema, enum_types, &none)
}

/// Is the schema pure: does its body hold only equalities and declarations of
/// primitive types.
pub fn is_pure_assignment_body(schema: &SchemaDecl) -> (r: bool)
    ensures
        r == purity_refusal(schema@, Seq::empty(), Seq::empty(), Seq::empty()) is None,
{
    let none: Vec<String> = Vec::new();
    assert(strs_view(none@) =~= Seq::<Seq<char>>::empty());
    is_pure_assignment_body_with_enums(schema, &none)
}


// ───────────────────────── chain extraction ─────────────────────────

/// The candidates and checks that extraction works from: the constraints
/// of the schema body, passthroughs flattened and `∀` unrolled.
pub open spec fn chain_inputs(schema: SchemaDeclV, vars: Seq<Seq<char>>, table: Seq<ClaimBodyV>) -> (
    Seq<(Seq<char>, ExprV)>,
    Seq<(ExprV, ExprV)>,
) {
    collect(body_constraints(expand_body(flattened_body(schema.body, table))), vars)
}

/// When extraction yields a chain: the schema is pure, each
/// variable of the component is defined once and has a defining equation,
/// and the definitions admit an order.
pub open spec fn extraction_succeeds(
    schema: SchemaDeclV,
    vars: Seq<Seq<char>>,
    enums: Seq<Seq<char>>,
    records: Seq<Seq<char>>,
    pures: Seq<Seq<char>>,
    table: Seq<ClaimBodyV>,
) -> bool {
    let cands = chain_inputs(schema, vars, table).0;
    &&& purity_refusal(schema, enums, records, pures) is None
    &&& forall|k: int| 0 <= k < vars.len() ==> has_key(cands, #[trigger] vars[k])
    &&& vars.no_duplicates()
    &&& has_topo_order(cands, vars)
}

pub open spec fn step_names(steps: Seq<(Seq<char>, ExprV)>) -> Seq<Seq<char>> {
    Seq::new(steps.len(), |i: int| steps[i].0)
}

/// What an extracted chain holds: the checks in body order, and one step
/// per variable, in the greedy dependency order (hence a topological
/// order), each with the variable's first defining expression.
pub open spec fn is_extracted_chain(
    steps: Seq<(Seq<char>, ExprV)>,
    checks: Seq<(ExprV, ExprV)>,
    schema: SchemaDeclV,
    vars: Seq<Seq<char>>,
    table: Seq<ClaimBodyV>,
) -> bool {
    let (cands, cks) = chain_inputs(schema, vars, table);
    &&& checks == cks
    &&& is_greedy_order(cands, vars, step_names(steps))
    &&& is_topo_order(cands, vars, step_names(steps))
    &&& forall|k: int| 0 <= k < steps.len() ==> (#[trigger] steps[k]).1 == cand_expr(cands, steps[k].0)
}

/// Do all of `v` differ from each other?
fn strings_distinct(v: &Vec<String>) -> (r: bool)
    ensures
        r == strs_view(v@).no_duplicates(),
{
    let ghost sv = strs_view(v@);
    let mut i: usize = 0;
    while i < v.len()
        invariant
            0 <= i <= v.len(),
            sv == strs_view(v@),
            forall|a: int, b: int| 0 <= a < b < v.len() && a < i ==> sv[a] != sv[b],
        decreases v.len() - i,
    {
        let mut j: usize = i + 1;
        while j < v.len()
            invariant
                i < j <= v.len(),
                sv == strs_view(v@),
                forall|a: int, b: int| 0 <= a < b < v.len() && a < i ==> sv[a] != sv[b],
                forall|b: int| i < b < j ==> sv[i as int] != sv[b],
            decreases v.len() - j,
        {
            if v[i] == v[j] {
                assert(sv[i as int] == sv[j as int]);
                return false;
            }
            j += 1;
        }
        i += 1;
    }
    true
}

/// Does every name of `vars` have a candidate in `cands`?
fn all_defined(vars: &Vec<String>, cands: &Vec<(String, Expr)>) -> (r: bool)
    ensures
        r == forall|k: int| 0 <= k < vars.len() ==> has_key(cands_view(cands@), #[trigger] strs_view(vars@)[k]),
{
    let mut i: usize = 0;
    while i < vars.len()
        invariant
            0 <= i <= vars.len(),
            forall|k: int| 0 <= k < i ==> has_key(cands_view(cands@), #[trigger] strs_view(vars@)[k]),
        decreases vars.len() - i,
    {
        assert(strs_view(vars@)[i as int] == vars@[i as int]@);
        if find_cand(cands, &vars[i]).is_none() {
            return false;
        }
        i += 1;
    }
    true
}

/// The substitution chain of `component` over the schema body, inlining
/// the bodies in `claim_bodies` for passthroughs: `Some` exactly when
/// `extraction_succeeds`, with the chain that `is_extracted_chain` describes.
pub fn extract_chain_xl(
    schema: &SchemaDecl,
    component: &Component,
    enum_types: &Vec<String>,
    record_types: &Vec<String>,
    pure_claims: &Vec<String>,
    claim_bodies: &Vec<ClaimBody>,
) -> (r: Option<SubstitutionChain>)
    ensures
        r is Some <==> extraction_succeeds(
            schema@,
            strs_view(component.vars@),
            strs_view(enum_types@),
            strs_view(record_types@),
            strs_view(pure_claims@),
            table_view(claim_bodies@),
        ),
        r matches Some(chain) ==> chain.steps.len() == component.vars.len() && is_extracted_chain(
            steps_view(chain.steps@),
            pairs_view(chain.checks@),
            schema@,
            strs_view(component.vars@),
            table_view(claim_bodies@),
        ),
{
    let ghost vv = strs_view(component.vars@);
    let ghost tv = table_view(claim_bodies@);
    if !is_pure_assignment_body_xl(schema, enum_types, record_types, pure_claims) {
        return None;
    }
    proof {
        lemma_schema_lists(*schema);
    }
    let flat = flatten_passthroughs(&schema.body, claim_bodies);
    let all_body = expand_foralls(&flat);
    let (cands, checks) = collect_candidates(&all_body, &component.vars);
    let ghost cv = cands_view(cands@);
    assert(cv == chain_inputs(schema@, vv, tv).0);
    if !all_defined(&component.vars, &cands) {
        return None;
    }
    if !strings_distinct(&component.vars) {
        return None;
    }
    let order = match dependency_order(&component.vars, &cands) {
        Some(order) => order,
        None => return None,
    };
    proof {
        lemma_greedy_is_topo(cv, vv, strs_view(order@));
    }
    let mut steps: Vec<Substitution> = Vec::new();
    let mut i: usize = 0;
    while i < order.len()
        invariant
            0 <= i <= order.len(),
            cv == cands_view(cands@),
            steps.len() == i,
            is_greedy_order(cv, vv, strs_view(order@)),
            forall|k: int| 0 <= k < vv.len() ==> has_key(cv, #[trigger] vv[k]),
            forall|k: int|
                0 <= k < i ==> (#[trigger] steps@[k]).var@ == strs_view(order@)[k] && steps@[k].expr@ == cand_expr(
                    cv,
                    strs_view(order@)[k],
                ),
        decreases order.len() - i,
    {
        assert(strs_view(order@)[i as int] == order@[i as int]@);
        assert(greatest_ready(cv, vv, strs_view(order@).take(i as int), strs_view(order@)[i as int]));
        let ci = find_cand(&cands, &order[i]).unwrap();
        steps.push(Substitution { var: order[i].clone(), expr: clone_expr(&cands[ci].1) });
        i += 1;
    }
    proof {
        assert(step_names(steps_view(steps@)) =~= strs_view(order@));
    }
    Some(SubstitutionChain { steps, checks })
}

/// `extract_chain_xl` with full predicates but no passthrough inlining.
pub fn extract_chain_full(
    schema: &SchemaDecl,
    component: &Component,
    enum_types: &Vec<String>,
    record_types: &Vec<String>,
) -> (r: Option<SubstitutionChain>)
    ensures
        r is Some <==> extraction_succeeds(
            schema@,
            strs_view(component.vars@),
            strs_view(enum_types@),
            strs_view(record_types@),
            Seq::empty(),
            Seq::empty(),
        ),
        r matches Some(chain) ==> chain.steps.len() == component.vars.len() && is_extracted_chain(
            steps_view(chain.steps@),
            pairs_view(chain.checks@),
            schema@,
            strs_view(component.vars@),
            Seq::empty(),
        ),
{
    let none: Vec<String> = Vec::new();
    let bodies: Vec<ClaimBody> = Vec::new();
    assert(strs_view(none@) =~= Seq::<Seq<char>>::empty());
    assert(table_view(bodies@) =~= Seq::<ClaimBodyV>::empty());
    extract_chain_xl(schema, component, enum_types, record_types, &none, &bodies)
}

/// `extract_chain` that accepts enum-typed memberships.
pub fn extract_chain_with_enums(schema: &SchemaDecl, component: &Component, enum_types: &Vec<String>) -> (r: Option<
    SubstitutionChain,
>)
    ensures
        r is Some <==> extraction_succeeds(
            schema@,
            strs_view(component.vars@),
            strs_view(enum_types@),
            Seq::empty(),
            Seq::empty(),
            Seq::empty(),
        ),
        r matches Some(chain) ==> chain.steps.len() == component.vars.len() && is_extracted_chain(
            steps_view(chain.steps@),
            pairs_view(chain.checks@),
            schema@,
            strs_view(component.vars@),
            Seq::empty(),
        ),
{
    let none: Vec<String> = Vec::new();
    assert(strs_view(none@) =~= Seq::<Seq<char>>::empty());
    extract_chain_full(schema, component, enum_types, &none)
}

/// The substitution chain of `component`: `Some` exactly when every
/// variable has a directly stated defining equation in a pure body, and
/// the definitions admit an order.
pub fn extract_chain(schema: &SchemaDecl, component: &Component) -> (r: Option<SubstitutionChain>)
    ensures
        r is Some <==> extraction_succeeds(
            schema@,
            strs_view(component.vars@),
            Seq::empty(),
            Seq::empty(),
            Seq::empty(),
            Seq::empty(),
        ),
        r matches Some(chain) ==> chain.steps.len() == component.vars.len() && is_extracted_chain(
            steps_view(chain.steps@),
            pairs_view(chain.checks@),
            schema@,
            strs_view(component.vars@),
            Seq::empty(),
        ),
{
    let none: Vec<String> = Vec::new();
    assert(strs_view(none@) =~= Seq::<Seq<char>>::empty());
    extract_chain_with_enums(schema, component, &none)
}

// ───────────────────────── schema-wide checks ─────────────────────────

pub open spec fn is_given_ident(e: ExprV, given: Seq<Seq<char>>) -> bool {
    e matches ExprV::Identifier(n) && given.contains(n)
}

/// The equalities among `cs` with a side that is a given variable.
pub open spec fn wide_checks(cs: Seq<ExprV>, given: Seq<Seq<char>>) -> Seq<(ExprV, ExprV)>
    decreases cs.len(),
{
    if cs.len() == 0 {
        Seq::empty()
    } else {
        wide_checks(cs.drop_last(), given) + match cs.last() {
            ExprV::Binary(BinOpV::Eq, l, r) => if is_given_ident(*l, given) || is_given_ident(*r, given) {
                seq![(*l, *r)]
            } else {
                Seq::empty()
            },
            _ => Seq::empty(),
        }
    }
}

/// Every equality of the schema body (passthroughs flattened) with a side
/// that is an identifier the caller pins in `given`.
pub fn extract_schema_wide_checks(schema: &SchemaDecl, given: &Vec<String>, claim_bodies: &Vec<ClaimBody>) -> (r: Vec<
    (Expr, Expr),
>)
    ensures
        pairs_view(r@) == wide_checks(
            body_constraints(flattened_body(schema@.body, table_view(claim_bodies@))),
            strs_view(given@),
        ),
{
    proof {
        lemma_schema_lists(*schema);
        reveal_with_fuel(expr_view, 2);
    }
    let all = flatten_passthroughs(&schema.body, claim_bodies);
    let ghost iv = items_view(all@);
    let ghost gv = strs_view(given@);
    let mut out: Vec<(Expr, Expr)> = Vec::new();
    let mut i: usize = 0;
    assert(pairs_view(out@) =~= Seq::<(ExprV, ExprV)>::empty());
    while i < all.len()
        invariant
            0 <= i <= all.len(),
            iv == items_view(all@),
            gv == strs_view(given@),
            pairs_view(out@) == wide_checks(body_constraints(iv.take(i as int)), gv),
        decreases all.len() - i,
    {
        assert(iv.take(i + 1).drop_last() =~= iv.take(i as int));
        assert(iv.take(i + 1).last() == body_item_view(all@[i as int]));
        let ghost prev_out = out@;
        if let BodyItem::Constraint(e) = &all[i] {
            let ghost prev = body_constraints(iv.take(i as int));
            assert(body_constraints(iv.take(i + 1)) == prev.push(e@));
            assert(prev.push(e@).drop_last() =~= prev);
            if let Expr::Binary(BinOp::Eq, l, r) = e {
                let lg = match &**l {
                    Expr::Identifier(n) => strings_contain(given, n),
                    _ => false,
                };
                let rg = match &**r {
                    Expr::Identifier(n) => strings_contain(given, n),
                    _ => false,
                };
                if lg || rg {
                    out.push((clone_expr(l), clone_expr(r)));
                    assert(pairs_view(out@) =~= pairs_view(prev_out).push((expr_view(**l), expr_view(**r))));
                }
            }
            assert(pairs_view(out@) =~= wide_checks(body_constraints(iv.take(i + 1)), gv));
        } else {
            assert(body_constraints(iv.take(i + 1)) =~= body_constraints(iv.take(i as int)));
        }
        i += 1;
    }
    assert(iv.take(all.len() as int) =~= iv);
    out
}

} // verus!
