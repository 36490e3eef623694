//! Schema lowering passes run before encoding: forward differences,
//! sequence concatenation, user operators, and the declarations that an
//! FSM body implies but does not write (previous-tick copies, the effect
//! channels, result variables of calls and of `name = expr`).
//!
//! Each pass is stated over the schema's view: a spec function says what
//! the lowered body is, and the pass is proved to produce exactly that.
use vstd::prelude::*;
use vstd::string::StringExecFns;
use crate::text::{append_chars, chars_to_string, str_is, str_to_chars};
use crate::program::{enum_of_variant, enums_view, find_schema, lookup_schema, schemas_view, variant_enum, EnumDecl, EnumDeclV};
use crate::nested::{decl_lookup, decl_type, declared_types, decls_view, find_decl, lemma_decl_lookup_unique};
use crate::functionize::{lemma_str_lt_total, lemma_str_lt_trans, str_lt, string_lt};
use crate::ast::{
    clone_operators, opt_str_view, strs_view, strings_contain,
    arms_view, binop_view, body_item_view, clone_binop, clone_body_item, clone_expr, clone_mappings, clone_pattern,
    clone_strings, expr_view, exprs_view, items_view, lemma_list_views, lemma_schema_lists, mapping_view,
    mappings_view, pattern_view, pins_view, BinOp, BinOpV, BodyItem, BodyItemV, Expr, ExprV, Keyword, Mapping,
    MappingV, MatchArm, MatchArmV, MatchPatternV, Pins, PinsV, SchemaDecl, SchemaDeclV,
};

verus! {

// ───────────────────────────── identifiers ─────────────────────────────

/// Every identifier occurrence in `e`, in pre-order.
pub open spec fn expr_idents(e: ExprV) -> Seq<Seq<char>>
    decreases e, 0nat, 0nat,
{
    match e {
        ExprV::Identifier(s) => seq![s],
        ExprV::Int(_) | ExprV::Real(_) | ExprV::Bool(_) | ExprV::Str(_) => Seq::empty(),
        ExprV::Binary(_, l, r) => expr_idents(*l) + expr_idents(*r),
        ExprV::Not(x) => expr_idents(*x),
        ExprV::Delta(x) => expr_idents(*x),
        ExprV::Ternary(c, a, b) => expr_idents(*c) + expr_idents(*a) + expr_idents(*b),
        ExprV::Call(_, xs) => list_idents(xs, xs.len()),
        ExprV::Field(x, _) => expr_idents(*x),
        ExprV::Index(a, b) => expr_idents(*a) + expr_idents(*b),
        ExprV::Cardinality(x) => expr_idents(*x),
        ExprV::SeqLit(xs) => list_idents(xs, xs.len()),
        ExprV::SetLit(xs) => list_idents(xs, xs.len()),
        ExprV::Tuple(xs) => list_idents(xs, xs.len()),
        ExprV::InExpr(a, b) => expr_idents(*a) + expr_idents(*b),
        ExprV::Range(a, b) => expr_idents(*a) + expr_idents(*b),
        ExprV::Forall(_, r, b) => expr_idents(*r) + expr_idents(*b),
        ExprV::Exists(_, r, b) => expr_idents(*r) + expr_idents(*b),
        ExprV::Match(s, arms) => expr_idents(*s) + arm_idents(arms, arms.len()),
        ExprV::Matches(x, _) => expr_idents(*x),
    }
}

/// The identifiers of the first `n` of `xs`, in order.
pub open spec fn list_idents(xs: Seq<ExprV>, n: nat) -> Seq<Seq<char>>
    decreases xs, 1nat, n,
{
    if n == 0 || n > xs.len() {
        Seq::empty()
    } else {
        list_idents(xs, (n - 1) as nat) + expr_idents(xs[n - 1])
    }
}

/// The identifiers of the bodies of the first `n` arms, in order.
pub open spec fn arm_idents(arms: Seq<MatchArmV>, n: nat) -> Seq<Seq<char>>
    decreases arms, 1nat, n,
{
    if n == 0 || n > arms.len() {
        Seq::empty()
    } else {
        proof {
            assert(decreases_to!(arms => arms[n - 1]));
        }
        arm_idents(arms, (n - 1) as nat) + expr_idents(arms[n - 1].body)
    }
}

/// The identifiers of a body item's expressions: a constraint's, or the
/// mapped values of a claim call; other items contribute none.
pub open spec fn item_idents(item: BodyItemV) -> Seq<Seq<char>> {
    match item {
        BodyItemV::Constraint(e) => expr_idents(e),
        BodyItemV::ClaimCall { mappings, .. } => Seq::new(mappings.len(), |i: int| expr_idents(mappings[i].value)).flatten(),
        _ => Seq::empty(),
    }
}

/// The identifiers of every body item, in order.
pub open spec fn body_idents(items: Seq<BodyItemV>) -> Seq<Seq<char>> {
    Seq::new(items.len(), |i: int| item_idents(items[i])).flatten()
}

/// How often `n` occurs in `s`.
pub open spec fn occurrences(s: Seq<Seq<char>>, n: Seq<char>) -> nat
    decreases s.len(),
{
    if s.len() == 0 {
        0
    } else {
        occurrences(s.drop_last(), n) + if s.last() == n { 1nat } else { 0nat }
    }
}

/// Append the identifiers of each of `xs` to `out`.
fn collect_list_idents(xs: &Vec<Expr>, out: &mut Vec<String>)
    ensures
        strs_view(final(out)@) == strs_view(old(out)@) + list_idents(exprs_view(xs@), xs.len() as nat),
    decreases xs, 1int,
{
    let ghost xv = exprs_view(xs@);
    let ghost start = strs_view(out@);
    let mut i: usize = 0;
    assert(start + Seq::<Seq<char>>::empty() =~= start);
    while i < xs.len()
        invariant
            0 <= i <= xs.len(),
            xv == exprs_view(xs@),
            strs_view(out@) == start + list_idents(xv, i as nat),
        decreases xs.len() - i,
    {
        proof {
            assert(decreases_to!(*xs => xs@[i as int]));
        }
        collect_idents(&xs[i], out);
        assert(strs_view(out@) =~= start + list_idents(xv, (i + 1) as nat));
        i += 1;
    }
}

fn push_name(out: &mut Vec<String>, s: &String)
    ensures
        strs_view(final(out)@) == strs_view(old(out)@).push(s@),
{
    out.push(s.clone());
    assert(strs_view(out@) =~= strs_view(old(out)@).push(s@));
}

/// Append the identifiers of `e` to `out`; see `expr_idents`.
fn collect_idents(e: &Expr, out: &mut Vec<String>)
    ensures
        strs_view(final(out)@) == strs_view(old(out)@) + expr_idents(e@),
    decreases e, 0int,
{
    proof {
        lemma_list_views(*e);
    }
    let ghost start = strs_view(out@);
    match e {
        Expr::Identifier(s) => {
            push_name(out, s);
            assert(expr_idents(e@) == seq![s@]);
            assert(strs_view(out@) =~= start + seq![s@]);
        },
        Expr::Int(_) | Expr::Real(_) | Expr::Bool(_) | Expr::Str(_) => {
            assert(strs_view(out@) =~= start + Seq::<Seq<char>>::empty());
        },
        Expr::Binary(_, l, r) | Expr::Index(l, r) | Expr::InExpr(l, r) | Expr::Range(l, r) => {
            collect_idents(l, out);
            collect_idents(r, out);
            assert(strs_view(out@) =~= start + (expr_idents(l@) + expr_idents(r@)));
        },
        Expr::Forall(_, l, r) | Expr::Exists(_, l, r) => {
            collect_idents(l, out);
            collect_idents(r, out);
            assert(strs_view(out@) =~= start + (expr_idents(l@) + expr_idents(r@)));
        },
        Expr::Not(x) | Expr::Delta(x) | Expr::Cardinality(x) => {
            collect_idents(x, out);
        },
        Expr::Field(x, _) => {
            collect_idents(x, out);
        },
        Expr::Matches(x, _) => {
            collect_idents(x, out);
        },
        Expr::Ternary(c, a, b) => {
            collect_idents(c, out);
            collect_idents(a, out);
            collect_idents(b, out);
            assert(strs_view(out@) =~= start + (expr_idents(c@) + expr_idents(a@) + expr_idents(b@)));
        },
        Expr::Call(_, xs) => {
            proof {
                assert(decreases_to!(*e => *xs));
            }
            collect_list_idents(xs, out);
        },
        Expr::SeqLit(xs) => {
            proof {
                assert(decreases_to!(*e => *xs));
            }
            collect_list_idents(xs, out);
        },
        Expr::SetLit(xs) => {
            proof {
                assert(decreases_to!(*e => *xs));
            }
            collect_list_idents(xs, out);
        },
        Expr::Tuple(xs) => {
            proof {
                assert(decreases_to!(*e => *xs));
            }
            collect_list_idents(xs, out);
        },
        Expr::Match(scrut, arms) => {
            collect_idents(scrut, out);
            let ghost av = arms_view(arms@);
            let ghost mid = strs_view(out@);
            let mut i: usize = 0;
            assert(mid + Seq::<Seq<char>>::empty() =~= mid);
            while i < arms.len()
                invariant
                    0 <= i <= arms.len(),
                    *e == Expr::Match(*scrut, *arms),
                    av == arms_view(arms@),
                    strs_view(out@) == mid + arm_idents(av, i as nat),
                decreases arms.len() - i,
            {
                proof {
                    assert(decreases_to!(*e => e->Match_1));
                    assert(decreases_to!(e->Match_1 => arms@[i as int]));
                    assert(decreases_to!(arms@[i as int] => arms@[i as int].body));
                }
                collect_idents(&arms[i].body, out);
                assert(strs_view(out@) =~= mid + arm_idents(av, (i + 1) as nat));
                i += 1;
            }
            assert(strs_view(out@) =~= start + (expr_idents(expr_view(**scrut)) + arm_idents(av, av.len())));
        },
    }
}

/// Append the identifiers of a body item to `out`; see `item_idents`.
fn collect_item_idents(item: &BodyItem, out: &mut Vec<String>)
    ensures
        strs_view(final(out)@) == strs_view(old(out)@) + item_idents(item@),
{
    let ghost start = strs_view(out@);
    match item {
        BodyItem::Constraint(e) => collect_idents(e, out),
        BodyItem::ClaimCall { mappings, .. } => {
            let ghost mv = mappings_view(mappings@);
            let mut i: usize = 0;
            proof {
                assert(Seq::new(0nat, |j: int| expr_idents(mv[j].value)) =~= Seq::<Seq<Seq<char>>>::empty());
                assert(start + Seq::<Seq<char>>::empty() =~= start);
            }
            while i < mappings.len()
                invariant
                    0 <= i <= mappings.len(),
                    mv == mappings_view(mappings@),
                    strs_view(out@) == start + Seq::new(i as nat, |j: int| expr_idents(mv[j].value)).flatten(),
                decreases mappings.len() - i,
            {
                collect_idents(&mappings[i].value, out);
                proof {
                    let prev = Seq::new(i as nat, |j: int| expr_idents(mv[j].value));
                    let next = Seq::new((i + 1) as nat, |j: int| expr_idents(mv[j].value));
                    assert(next =~= prev.push(expr_idents(mv[i as int].value)));
                    prev.lemma_flatten_push(expr_idents(mv[i as int].value));
                }
                i += 1;
            }
            assert(Seq::new(mappings.len() as nat, |j: int| expr_idents(mv[j].value)) =~= Seq::new(
                mv.len(),
                |j: int| expr_idents(mv[j].value),
            ));
        },
        _ => {
            assert(strs_view(out@) =~= start + Seq::<Seq<char>>::empty());
        },
    }
}

/// Every identifier of the body's constraints and claim-call mappings; see
/// `body_idents`.
pub(crate) fn collect_body_idents(body: &Vec<BodyItem>) -> (r: Vec<String>)
    ensures
        strs_view(r@) == body_idents(items_view(body@)),
{
    let ghost iv = items_view(body@);
    let mut out: Vec<String> = Vec::new();
    let mut i: usize = 0;
    assert(strs_view(out@) =~= Seq::new(0nat, |j: int| item_idents(iv[j])).flatten());
    while i < body.len()
        invariant
            0 <= i <= body.len(),
            iv == items_view(body@),
            strs_view(out@) == Seq::new(i as nat, |j: int| item_idents(iv[j])).flatten(),
        decreases body.len() - i,
    {
        collect_item_idents(&body[i], &mut out);
        proof {
            let prev = Seq::new(i as nat, |j: int| item_idents(iv[j]));
            let next = Seq::new((i + 1) as nat, |j: int| item_idents(iv[j]));
            assert(next =~= prev.push(item_idents(iv[i as int])));
            prev.lemma_flatten_push(item_idents(iv[i as int]));
        }
        i += 1;
    }
    assert(Seq::new(body.len() as nat, |j: int| item_idents(iv[j])) =~= Seq::new(iv.len(), |j: int| item_idents(iv[j])));
    out
}

// ───────────────────────────── shared helpers ─────────────────────────────

/// `s` with its body replaced.
pub open spec fn with_body(s: SchemaDeclV, body: Seq<BodyItemV>) -> SchemaDeclV {
    SchemaDeclV {
        keyword: s.keyword,
        name: s.name,
        type_params: s.type_params,
        param_count: s.param_count,
        external: s.external,
        body,
        operators: s.operators,
    }
}

/// `body` with `items` inserted, in order, at position `pos`.
pub open spec fn insert_items(body: Seq<BodyItemV>, pos: int, items: Seq<BodyItemV>) -> Seq<BodyItemV> {
    if items.len() == 0 {
        body
    } else {
        body.take(pos) + items + body.skip(pos)
    }
}

/// Inserting `items` at the parameter position does not run past the end of
/// the body (nothing to insert always fits).
pub open spec fn fits(s: SchemaDeclV, items: Seq<BodyItemV>) -> bool {
    items.len() == 0 || s.param_count <= s.body.len()
}

/// `n` is declared by a membership of `items`.
pub open spec fn declares(items: Seq<BodyItemV>, n: Seq<char>) -> bool {
    exists|k: int| 0 <= k < items.len() && is_member_named(#[trigger] items[k], n)
}

/// `item` is a membership declaring `n`.
pub open spec fn is_member_named(item: BodyItemV, n: Seq<char>) -> bool {
    match item {
        BodyItemV::Membership { name, .. } => name == n,
        _ => false,
    }
}

/// A membership with no pins.
pub open spec fn member(name: Seq<char>, ty: Seq<char>) -> BodyItemV {
    BodyItemV::Membership { name, ty, pins: PinsV::Empty }
}

/// Does a membership of `body` declare `n`?
pub(crate) fn body_declares(body: &Vec<BodyItem>, n: &str) -> (r: bool)
    ensures
        r == declares(items_view(body@), n@),
{
    let ghost iv = items_view(body@);
    let mut i: usize = 0;
    while i < body.len()
        invariant
            0 <= i <= body.len(),
            iv == items_view(body@),
            forall|k: int| 0 <= k < i ==> !is_member_named(#[trigger] iv[k], n@),
        decreases body.len() - i,
    {
        assert(iv[i as int] == body_item_view(body@[i as int]));
        if let BodyItem::Membership { name, .. } = &body[i] {
            if str_is(name, n) {
                return true;
            }
        }
        i += 1;
    }
    false
}

/// Insert `items`, in order, at position `pos` of `body`.
pub(crate) fn splice_items(body: &mut Vec<BodyItem>, pos: usize, items: Vec<BodyItem>)
    requires
        items.len() == 0 || pos <= old(body).len(),
    ensures
        items_view(final(body)@) == insert_items(items_view(old(body)@), pos as int, items_view(items@)),
{
    let ghost ov = body@;
    let ghost iv = items@;
    if items.len() == 0 {
        return;
    }
    let mut items = items;
    let mut tail = body.split_off(pos);
    body.append(&mut items);
    body.append(&mut tail);
    assert(items_view(body@) =~= items_view(ov).take(pos as int) + items_view(iv) + items_view(ov).skip(pos as int));
}

// ───────────────────────────── FSM effect channels ─────────────────────────────

/// The effect-channel declarations an FSM body uses without declaring:
/// `last_results ∈ Seq(Result)` and then `effects ∈ Seq(Effect)`, each when
/// the name is referenced by a constraint or a call mapping and no
/// membership declares it.
pub open spec fn fsm_param_decls(body: Seq<BodyItemV>) -> Seq<BodyItemV> {
    let refs = body_idents(body);
    (if !declares(body, "last_results"@) && refs.contains("last_results"@) {
        seq![member("last_results"@, "Seq(Result)"@)]
    } else {
        Seq::empty()
    }) + (if !declares(body, "effects"@) && refs.contains("effects"@) {
        seq![member("effects"@, "Seq(Effect)"@)]
    } else {
        Seq::empty()
    })
}

/// Declare the effect channels an FSM uses without declaring them, right
/// after its parameters; other schemas, and external ones, are unchanged.
pub fn inject_fsm_params(s: &mut SchemaDecl)
    requires
        old(s).keyword == Keyword::Fsm && !old(s).external ==> fits(old(s)@, fsm_param_decls(old(s)@.body)),
    ensures
        final(s)@ == (if old(s).keyword == Keyword::Fsm && !old(s).external {
            with_body(
                old(s)@,
                insert_items(old(s)@.body, old(s).param_count as int, fsm_param_decls(old(s)@.body)),
            )
        } else {
            old(s)@
        }),
{
    if s.keyword != Keyword::Fsm || s.external {
        return;
    }
    proof {
        lemma_schema_lists(*s);
    }
    let ghost old_s = *s;
    let have_last_results = body_declares(&s.body, "last_results");
    let have_effects = body_declares(&s.body, "effects");
    let refs = collect_body_idents(&s.body);
    let lr = String::from_str("last_results");
    let ef = String::from_str("effects");
    let ref_last_results = strings_contain(&refs, &lr);
    let ref_effects = strings_contain(&refs, &ef);
    let mut injected: Vec<BodyItem> = Vec::new();
    if !have_last_results && ref_last_results {
        injected.push(BodyItem::Membership { name: lr, ty: String::from_str("Seq(Result)"), pins: Pins::Empty });
    }
    if !have_effects && ref_effects {
        injected.push(BodyItem::Membership { name: ef, ty: String::from_str("Seq(Effect)"), pins: Pins::Empty });
    }
    assert(items_view(injected@) =~= fsm_param_decls(old_s@.body));
    let pos = s.param_count;
    splice_items(&mut s.body, pos, injected);
    proof {
        lemma_schema_lists(*s);
        assert(s@.operators == old_s@.operators);
    }
}


// ───────────────────────────── forward differences ─────────────────────────────

/// `e` one tick earlier: every identifier gains a leading underscore
/// (`x` → `_x`, `p.x` → `_p.x`), through fields, indexing and binary
/// operators; any other expression is its own previous value.
pub open spec fn prev_of(e: ExprV) -> ExprV
    decreases e,
{
    match e {
        ExprV::Identifier(n) => ExprV::Identifier("_"@ + n),
        ExprV::Field(r, f) => ExprV::Field(Box::new(prev_of(*r)), f),
        ExprV::Index(a, b) => ExprV::Index(Box::new(prev_of(*a)), Box::new(prev_of(*b))),
        ExprV::Binary(op, l, r) => ExprV::Binary(op, Box::new(prev_of(*l)), Box::new(prev_of(*r))),
        _ => e,
    }
}

/// `e` with every `Δx` lowered to `x − prev_of(x)`, innermost first, so
/// that `ΔΔx` is the second difference.
pub open spec fn delta_lower(e: ExprV) -> ExprV
    decreases e,
{
    match e {
        ExprV::Delta(x) => {
            let c = delta_lower(*x);
            ExprV::Binary(BinOpV::Sub, Box::new(c), Box::new(prev_of(c)))
        },
        ExprV::Identifier(_) | ExprV::Int(_) | ExprV::Real(_) | ExprV::Bool(_) | ExprV::Str(_) => e,
        ExprV::Binary(op, l, r) => ExprV::Binary(op, Box::new(delta_lower(*l)), Box::new(delta_lower(*r))),
        ExprV::Not(x) => ExprV::Not(Box::new(delta_lower(*x))),
        ExprV::Ternary(c, a, b) => ExprV::Ternary(
            Box::new(delta_lower(*c)),
            Box::new(delta_lower(*a)),
            Box::new(delta_lower(*b)),
        ),
        ExprV::Call(n, xs) => ExprV::Call(n, Seq::new(xs.len(), |i: int| if 0 <= i < xs.len() { delta_lower(xs[i]) } else { ExprV::Int(0) })),
        ExprV::Field(x, f) => ExprV::Field(Box::new(delta_lower(*x)), f),
        ExprV::Index(a, b) => ExprV::Index(Box::new(delta_lower(*a)), Box::new(delta_lower(*b))),
        ExprV::Cardinality(x) => ExprV::Cardinality(Box::new(delta_lower(*x))),
        ExprV::SeqLit(xs) => ExprV::SeqLit(Seq::new(xs.len(), |i: int| if 0 <= i < xs.len() { delta_lower(xs[i]) } else { ExprV::Int(0) })),
        ExprV::SetLit(xs) => ExprV::SetLit(Seq::new(xs.len(), |i: int| if 0 <= i < xs.len() { delta_lower(xs[i]) } else { ExprV::Int(0) })),
        ExprV::Tuple(xs) => ExprV::Tuple(Seq::new(xs.len(), |i: int| if 0 <= i < xs.len() { delta_lower(xs[i]) } else { ExprV::Int(0) })),
        ExprV::InExpr(a, b) => ExprV::InExpr(Box::new(delta_lower(*a)), Box::new(delta_lower(*b))),
        ExprV::Range(a, b) => ExprV::Range(Box::new(delta_lower(*a)), Box::new(delta_lower(*b))),
        ExprV::Forall(vs, r, b) => ExprV::Forall(vs, Box::new(delta_lower(*r)), Box::new(delta_lower(*b))),
        ExprV::Exists(vs, r, b) => ExprV::Exists(vs, Box::new(delta_lower(*r)), Box::new(delta_lower(*b))),
        ExprV::Match(sc, arms) => ExprV::Match(
            Box::new(delta_lower(*sc)),
            Seq::new(
                arms.len(),
                |i: int|
                    if 0 <= i < arms.len() {
                        MatchArmV { pattern: arms[i].pattern, body: delta_lower(arms[i].body) }
                    } else {
                        MatchArmV { pattern: MatchPatternV::Wildcard, body: ExprV::Int(0) }
                    },
            ),
        ),
        ExprV::Matches(x, p) => ExprV::Matches(Box::new(delta_lower(*x)), p),
    }
}

/// A body item with its constraint, or its call mappings, lowered.
pub open spec fn delta_item(item: BodyItemV) -> BodyItemV {
    match item {
        BodyItemV::Constraint(e) => BodyItemV::Constraint(delta_lower(e)),
        BodyItemV::ClaimCall { name, mappings } => BodyItemV::ClaimCall {
            name,
            mappings: Seq::new(mappings.len(), |i: int| MappingV { slot: mappings[i].slot, value: delta_lower(mappings[i].value) }),
        },
        _ => item,
    }
}

/// `e` one tick earlier; see `prev_of`.
fn prev_expr(e: &Expr) -> (r: Expr)
    ensures
        r@ == prev_of(e@),
    decreases e,
{
    match e {
        Expr::Identifier(n) => {
            let mut p = String::from_str("_");
            p.append(n.as_str());
            proof {
                reveal_strlit("_");
            }
            Expr::Identifier(p)
        },
        Expr::Field(r, f) => Expr::Field(Box::new(prev_expr(r)), f.clone()),
        Expr::Index(a, b) => Expr::Index(Box::new(prev_expr(a)), Box::new(prev_expr(b))),
        Expr::Binary(op, l, r) => Expr::Binary(clone_binop(op), Box::new(prev_expr(l)), Box::new(prev_expr(r))),
        _ => clone_expr(e),
    }
}

/// `delta_lower` over each of `xs`.
fn lower_delta_all(xs: &Vec<Expr>) -> (r: Vec<Expr>)
    ensures
        r.len() == xs.len(),
        forall|k: int| 0 <= k < xs.len() ==> #[trigger] expr_view(r@[k]) == delta_lower(expr_view(xs@[k])),
    decreases xs, 1int,
{
    let mut out: Vec<Expr> = Vec::new();
    let mut i: usize = 0;
    while i < xs.len()
        invariant
            0 <= i <= xs.len(),
            out.len() == i,
            forall|k: int| 0 <= k < i ==> #[trigger] expr_view(out@[k]) == delta_lower(expr_view(xs@[k])),
        decreases xs.len() - i,
    {
        proof {
            assert(decreases_to!(*xs => xs@[i as int]));
        }
        out.push(lower_delta(&xs[i]));
        i += 1;
    }
    out
}

/// `e` with its forward differences lowered; see `delta_lower`.
fn lower_delta(e: &Expr) -> (r: Expr)
    ensures
        r@ == delta_lower(e@),
    decreases e, 0int,
{
    proof {
        lemma_list_views(*e);
    }
    match e {
        Expr::Delta(x) => {
            let c = lower_delta(x);
            let p = prev_expr(&c);
            Expr::Binary(BinOp::Sub, Box::new(c), Box::new(p))
        },
        Expr::Identifier(_) | Expr::Int(_) | Expr::Real(_) | Expr::Bool(_) | Expr::Str(_) => clone_expr(e),
        Expr::Binary(op, l, r) => Expr::Binary(clone_binop(op), Box::new(lower_delta(l)), Box::new(lower_delta(r))),
        Expr::Not(x) => Expr::Not(Box::new(lower_delta(x))),
        Expr::Ternary(c, a, b) => Expr::Ternary(
            Box::new(lower_delta(c)),
            Box::new(lower_delta(a)),
            Box::new(lower_delta(b)),
        ),
        Expr::Call(n, xs) => {
            proof {
                assert(decreases_to!(*e => *xs));
            }
            let out = lower_delta_all(xs);
            let r = Expr::Call(n.clone(), out);
            proof {
                lemma_list_views(r);
                assert(exprs_view(out@) =~= delta_lower(e@)->Call_1);
            }
            r
        },
        Expr::SeqLit(xs) => {
            proof {
                assert(decreases_to!(*e => *xs));
            }
            let out = lower_delta_all(xs);
            let r = Expr::SeqLit(out);
            proof {
                lemma_list_views(r);
                assert(exprs_view(out@) =~= delta_lower(e@)->SeqLit_0);
            }
            r
        },
        Expr::SetLit(xs) => {
            proof {
                assert(decreases_to!(*e => *xs));
            }
            let out = lower_delta_all(xs);
            let r = Expr::SetLit(out);
            proof {
                lemma_list_views(r);
                assert(exprs_view(out@) =~= delta_lower(e@)->SetLit_0);
            }
            r
        },
        Expr::Tuple(xs) => {
            proof {
                assert(decreases_to!(*e => *xs));
            }
            let out = lower_delta_all(xs);
            let r = Expr::Tuple(out);
            proof {
                lemma_list_views(r);
                assert(exprs_view(out@) =~= delta_lower(e@)->Tuple_0);
            }
            r
        },
        Expr::Field(x, f) => Expr::Field(Box::new(lower_delta(x)), f.clone()),
        Expr::Index(a, b) => Expr::Index(Box::new(lower_delta(a)), Box::new(lower_delta(b))),
        Expr::Cardinality(x) => Expr::Cardinality(Box::new(lower_delta(x))),
        Expr::InExpr(a, b) => Expr::InExpr(Box::new(lower_delta(a)), Box::new(lower_delta(b))),
        Expr::Range(a, b) => Expr::Range(Box::new(lower_delta(a)), Box::new(lower_delta(b))),
        Expr::Forall(vs, r, b) => Expr::Forall(clone_strings(vs), Box::new(lower_delta(r)), Box::new(lower_delta(b))),
        Expr::Exists(vs, r, b) => Expr::Exists(clone_strings(vs), Box::new(lower_delta(r)), Box::new(lower_delta(b))),
        Expr::Match(scrut, arms) => {
            let s2 = lower_delta(scrut);
            let mut out: Vec<MatchArm> = Vec::new();
            let mut i: usize = 0;
            while i < arms.len()
                invariant
                    0 <= i <= arms.len(),
                    *e == Expr::Match(*scrut, *arms),
                    out.len() == i,
                    forall|k: int|
                        0 <= k < i ==> pattern_view(#[trigger] out@[k].pattern) == pattern_view(arms@[k].pattern)
                            && expr_view(*out@[k].body) == delta_lower(expr_view(*arms@[k].body)),
                decreases arms.len() - i,
            {
                proof {
                    assert(decreases_to!(*e => e->Match_1));
                    assert(decreases_to!(e->Match_1 => arms@[i as int]));
                    assert(decreases_to!(arms@[i as int] => arms@[i as int].body));
                }
                let b = lower_delta(&arms[i].body);
                out.push(MatchArm { pattern: clone_pattern(&arms[i].pattern), body: Box::new(b) });
                i += 1;
            }
            let r = Expr::Match(Box::new(s2), out);
            proof {
                lemma_list_views(r);
                assert(arms_view(out@) =~= delta_lower(e@)->Match_1);
            }
            r
        },
        Expr::Matches(x, p) => Expr::Matches(Box::new(lower_delta(x)), clone_pattern(p)),
    }
}

/// Each mapping with its value lowered.
fn lower_delta_mappings(ms: &Vec<Mapping>) -> (r: Vec<Mapping>)
    ensures
        mappings_view(r@) == Seq::new(
            ms.len() as nat,
            |i: int| MappingV { slot: mappings_view(ms@)[i].slot, value: delta_lower(mappings_view(ms@)[i].value) },
        ),
{
    let mut out: Vec<Mapping> = Vec::new();
    let mut i: usize = 0;
    while i < ms.len()
        invariant
            0 <= i <= ms.len(),
            out.len() == i,
            forall|k: int|
                0 <= k < i ==> #[trigger] mapping_view(out@[k]) == (MappingV {
                    slot: mapping_view(ms@[k]).slot,
                    value: delta_lower(mapping_view(ms@[k]).value),
                }),
        decreases ms.len() - i,
    {
        out.push(Mapping { slot: ms[i].slot.clone(), value: lower_delta(&ms[i].value) });
        i += 1;
    }
    assert(mappings_view(out@) =~= Seq::new(
        ms.len() as nat,
        |i: int| MappingV { slot: mappings_view(ms@)[i].slot, value: delta_lower(mappings_view(ms@)[i].value) },
    ));
    out
}

/// Lower every forward difference `Δe` in the constraints and call
/// mappings of `s` to `e − prev_of(e)` (see `delta_lower`); the rest of the
/// schema is unchanged.
pub fn desugar_delta(s: &mut SchemaDecl)
    ensures
        final(s)@ == with_body(old(s)@, Seq::new(old(s)@.body.len(), |i: int| delta_item(old(s)@.body[i]))),
{
    proof {
        lemma_schema_lists(*s);
    }
    let ghost old_s = *s;
    let mut nb: Vec<BodyItem> = Vec::new();
    let mut i: usize = 0;
    while i < s.body.len()
        invariant
            0 <= i <= s.body.len(),
            *s == old_s,
            nb.len() == i,
            forall|k: int| 0 <= k < i ==> #[trigger] body_item_view(nb@[k]) == delta_item(body_item_view(s.body@[k])),
        decreases s.body.len() - i,
    {
        let item = match &s.body[i] {
            BodyItem::Constraint(e) => BodyItem::Constraint(lower_delta(e)),
            BodyItem::ClaimCall { name, mappings } => {
                let ms = lower_delta_mappings(mappings);
                let r = BodyItem::ClaimCall { name: name.clone(), mappings: ms };
                proof {
                    let mv = mappings_view(mappings@);
                    assert(mappings_view(ms@) =~= Seq::new(
                        mv.len(),
                        |j: int| MappingV { slot: mv[j].slot, value: delta_lower(mv[j].value) },
                    ));
                }
                r
            },
            other => clone_body_item(other),
        };
        nb.push(item);
        i += 1;
    }
    s.body = nb;
    proof {
        lemma_schema_lists(*s);
        assert(s@.body =~= Seq::new(old_s@.body.len(), |j: int| delta_item(old_s@.body[j])));
    }
}


// ───────────────────────────── previous-tick declarations ─────────────────────────────

/// The number of leading underscores of `n`: how many ticks back it reads.
pub open spec fn lead(n: Seq<char>) -> nat
    decreases n.len(),
{
    if n.len() > 0 && n[0] == '_' {
        1 + lead(n.drop_first())
    } else {
        0
    }
}

/// `s` up to its first `.`.
pub open spec fn first_segment(s: Seq<char>) -> Seq<char>
    decreases s.len(),
{
    if s.len() == 0 || s[0] == '.' {
        Seq::empty()
    } else {
        seq![s[0]] + first_segment(s.drop_first())
    }
}

/// The variable an identifier reads: its first segment after the leading
/// underscores (`__pos.x` reads `pos`).
pub open spec fn base_name(n: Seq<char>) -> Seq<char> {
    first_segment(n.skip(lead(n) as int))
}

/// `k` underscores.
pub open spec fn underscores(k: nat) -> Seq<char> {
    Seq::new(k, |i: int| '_')
}

/// The name of `seg` read `k` ticks back.
pub open spec fn prev_key(p: (nat, Seq<char>)) -> Seq<char> {
    underscores(p.0) + p.1
}

/// Some identifier of the body reads the declared variable `seg` at least
/// `k ≥ 1` ticks back.
pub open spec fn prev_wanted(body: Seq<BodyItemV>, p: (nat, Seq<char>)) -> bool {
    let ids = body_idents(body);
    &&& 1 <= p.0
    &&& decl_type(body, p.1) is Some
    &&& exists|j: int| 0 <= j < ids.len() && lead(#[trigger] ids[j]) >= p.0 && base_name(ids[j]) == p.1
}

/// Some identifier reads a declared variable at least `k` ticks back.
pub open spec fn reads_back(body: Seq<BodyItemV>, k: nat) -> bool {
    let ids = body_idents(body);
    exists|j: int| 0 <= j < ids.len() && lead(#[trigger] ids[j]) >= k && decl_type(body, base_name(ids[j])) is Some
}

/// Shallower history first, then by name.
pub open spec fn prev_before(a: (nat, Seq<char>), b: (nat, Seq<char>)) -> bool {
    a.0 < b.0 || (a.0 == b.0 && str_lt(a.1, b.1))
}

/// `pk` lists, in strictly increasing `prev_before` order, exactly the
/// previous-tick reads of `body` whose names it does not declare.
pub open spec fn prev_keys_of(body: Seq<BodyItemV>, pk: Seq<(nat, Seq<char>)>) -> bool {
    &&& forall|a: int, b: int| 0 <= a < b < pk.len() ==> prev_before(#[trigger] pk[a], #[trigger] pk[b])
    &&& forall|p: (nat, Seq<char>)| #[trigger] pk.contains(p) <==> prev_wanted(body, p) && !declares(body, prev_key(p))
}

/// The declaration of a previous-tick name: the type of the variable it reads.
pub open spec fn prev_member(body: Seq<BodyItemV>, p: (nat, Seq<char>)) -> BodyItemV {
    member(prev_key(p), decl_type(body, p.1).unwrap())
}

/// What an FSM body gains: the previous-tick names `pk`, then
/// `is_first_tick ∈ Bool` when anything reads back or it is referenced,
/// then `is_second_tick ∈ Bool` when something reads two ticks back; each
/// only where the body does not declare it.
pub open spec fn prev_tick_injection(body: Seq<BodyItemV>, pk: Seq<(nat, Seq<char>)>) -> Seq<BodyItemV> {
    Seq::new(pk.len(), |i: int| prev_member(body, pk[i])) + (if (reads_back(body, 1) || body_idents(body).contains(
        "is_first_tick"@,
    )) && !declares(body, "is_first_tick"@) {
        seq![member("is_first_tick"@, "Bool"@)]
    } else {
        Seq::empty()
    }) + (if reads_back(body, 2) && !declares(body, "is_second_tick"@) {
        seq![member("is_second_tick"@, "Bool"@)]
    } else {
        Seq::empty()
    })
}

proof fn lemma_decl_type_declares(items: Seq<BodyItemV>, n: Seq<char>)
    ensures
        decl_type(items, n) is Some <==> declares(items, n),
    decreases items.len(),
{
    if items.len() > 0 {
        lemma_decl_type_declares(items.drop_last(), n);
        if declares(items.drop_last(), n) {
            let k = choose|k: int| 0 <= k < items.drop_last().len() && is_member_named(#[trigger] items.drop_last()[k], n);
            assert(items[k] == items.drop_last()[k]);
        }
        if declares(items, n) {
            let k = choose|k: int| 0 <= k < items.len() && is_member_named(#[trigger] items[k], n);
            if k < items.len() - 1 {
                assert(items.drop_last()[k] == items[k]);
            }
        }
    }
}

/// The number of leading underscores of `v`; see `lead`.
fn leading_underscores(v: &Vec<char>) -> (d: usize)
    ensures
        d == lead(v@),
        d <= v.len(),
{
    let mut i: usize = 0;
    assert(v@.skip(0) =~= v@);
    while i < v.len() && v[i] == '_'
        invariant
            0 <= i <= v.len(),
            lead(v@) == i + lead(v@.skip(i as int)),
        decreases v.len() - i,
    {
        assert(v@.skip(i as int).drop_first() =~= v@.skip(i + 1));
        i += 1;
    }
    i
}

/// `v` from `from` up to the next `.`; see `first_segment`.
pub(crate) fn segment_from(v: &Vec<char>, from: usize) -> (r: Vec<char>)
    requires
        from <= v.len(),
    ensures
        r@ == first_segment(v@.skip(from as int)),
{
    let mut out: Vec<char> = Vec::new();
    let mut j: usize = from;
    assert(out@ + first_segment(v@.skip(from as int)) =~= first_segment(v@.skip(from as int)));
    while j < v.len() && v[j] != '.'
        invariant
            from <= j <= v.len(),
            first_segment(v@.skip(from as int)) == out@ + first_segment(v@.skip(j as int)),
        decreases v.len() - j,
    {
        assert(v@.skip(j as int).drop_first() =~= v@.skip(j + 1));
        out.push(v[j]);
        assert(out@ + first_segment(v@.skip(j + 1)) =~= out@.drop_last() + (seq![v@[j as int]] + first_segment(v@.skip(j + 1))));
        j += 1;
    }
    assert(first_segment(v@.skip(j as int)) =~= Seq::<char>::empty());
    assert(out@ + Seq::<char>::empty() =~= out@);
    out
}

/// The type declared for `name`, from the unique-name list `decls`.
fn lookup_type(decls: &Vec<(String, String)>, name: &String) -> (r: Option<String>)
    requires
        forall|a: int, b: int| 0 <= a < b < decls.len() ==> decls@[a].0@ != decls@[b].0@,
    ensures
        opt_str_view(r) == decl_lookup(decls_view(decls@), name@),
{
    let ghost dv = decls_view(decls@);
    proof {
        assert forall|a: int, b: int| 0 <= a < b < dv.len() implies dv[a].0 != dv[b].0 by {
            assert(dv[a].0 == decls@[a].0@ && dv[b].0 == decls@[b].0@);
        }
        lemma_decl_lookup_unique(dv, name@);
    }
    match find_decl(decls, name) {
        Some(j) => {
            assert(dv[j as int].0 == name@);
            Some(decls[j].1.clone())
        },
        None => {
            assert forall|k: int| 0 <= k < dv.len() implies #[trigger] dv[k].0 != name@ by {
                assert(dv[k].0 == decls@[k].0@);
            }
            None
        },
    }
}

/// `k` underscores followed by `seg`.
fn prev_key_string(k: usize, seg: &Vec<char>) -> (r: String)
    ensures
        r@ == prev_key((k as nat, seg@)),
{
    let mut c: Vec<char> = Vec::new();
    let mut i: usize = 0;
    while i < k
        invariant
            0 <= i <= k,
            c@ == underscores(i as nat),
        decreases k - i,
    {
        c.push('_');
        assert(c@ =~= underscores((i + 1) as nat));
        i += 1;
    }
    append_chars(&mut c, seg);
    chars_to_string(&c)
}

pub open spec fn prev_keys_view(v: Seq<(usize, String)>) -> Seq<(nat, Seq<char>)> {
    Seq::new(v.len(), |i: int| (v[i].0 as nat, v[i].1@))
}

/// Is `(k, seg)` already listed in `pk`?
fn prev_listed(pk: &Vec<(usize, String)>, k: usize, seg: &String) -> (r: bool)
    ensures
        r == prev_keys_view(pk@).contains((k as nat, seg@)),
{
    let ghost pv = prev_keys_view(pk@);
    let mut i: usize = 0;
    while i < pk.len()
        invariant
            0 <= i <= pk.len(),
            pv == prev_keys_view(pk@),
            forall|j: int| 0 <= j < i ==> pv[j] != (k as nat, seg@),
        decreases pk.len() - i,
    {
        if pk[i].0 == k && pk[i].1 == *seg {
            assert(pv[i as int] == (k as nat, seg@));
            return true;
        }
        i += 1;
    }
    false
}

/// Is `a` before `b` in `prev_before` order?
fn prev_lt(a: &(usize, String), b: &(usize, String)) -> (r: bool)
    ensures
        r == prev_before((a.0 as nat, a.1@), (b.0 as nat, b.1@)),
{
    a.0 < b.0 || (a.0 == b.0 && string_lt(&a.1, &b.1))
}

/// Sort the distinct entries of `pk` into `prev_before` order.
fn sort_prev_keys(pk: Vec<(usize, String)>) -> (r: Vec<(usize, String)>)
    requires
        forall|a: int, b: int| 0 <= a < b < pk.len() ==> prev_keys_view(pk@)[a] != prev_keys_view(pk@)[b],
    ensures
        forall|p: (nat, Seq<char>)| #[trigger] prev_keys_view(r@).contains(p) <==> prev_keys_view(pk@).contains(p),
        forall|a: int, b: int| 0 <= a < b < r.len() ==> prev_before(#[trigger] prev_keys_view(r@)[a], #[trigger] prev_keys_view(r@)[b]),
{
    let ghost src = prev_keys_view(pk@);
    let mut pk = pk;
    let mut out: Vec<(usize, String)> = Vec::new();
    while pk.len() > 0
        invariant
            forall|a: int, b: int| 0 <= a < b < pk.len() ==> prev_keys_view(pk@)[a] != prev_keys_view(pk@)[b],
            forall|a: int, b: int| 0 <= a < b < out.len() ==> prev_before(#[trigger] prev_keys_view(out@)[a], #[trigger] prev_keys_view(out@)[b]),
            forall|p: (nat, Seq<char>)| #[trigger] src.contains(p) <==> (prev_keys_view(pk@).contains(p) || prev_keys_view(out@).contains(p)),
            forall|p: (nat, Seq<char>)| prev_keys_view(pk@).contains(p) ==> !prev_keys_view(out@).contains(p),
        decreases pk.len(),
    {
        let ghost pv = prev_keys_view(pk@);
        let ghost ov = prev_keys_view(out@);
        let x = pk.pop().unwrap();
        let ghost xv = (x.0 as nat, x.1@);
        assert(pv.last() == xv);
        assert(prev_keys_view(pk@) =~= pv.drop_last());
        // position: after every entry before x
        let mut j: usize = 0;
        while j < out.len() && prev_lt(&out[j], &x)
            invariant
                0 <= j <= out.len(),
                ov == prev_keys_view(out@),
                xv == (x.0 as nat, x.1@),
                forall|a: int| 0 <= a < j ==> prev_before(#[trigger] ov[a], xv),
            decreases out.len() - j,
        {
            assert(ov[j as int] == (out@[j as int].0 as nat, out@[j as int].1@));
            j += 1;
        }
        proof {
            assert(!ov.contains(xv));
            if j < out.len() {
                assert(ov[j as int] == (out@[j as int].0 as nat, out@[j as int].1@));
                assert(!prev_before(ov[j as int], xv));
                assert(ov[j as int] != xv);
                lemma_str_lt_total(ov[j as int].1, xv.1);
                assert(prev_before(xv, ov[j as int]));
                assert forall|b: int| j <= b < ov.len() implies prev_before(xv, #[trigger] ov[b]) by {
                    if b > j {
                        assert(prev_before(ov[j as int], ov[b]));
                        if xv.0 == ov[j as int].0 && ov[j as int].0 == ov[b].0 {
                            lemma_str_lt_trans(xv.1, ov[j as int].1, ov[b].1);
                        }
                    }
                }
            }
        }
        out.insert(j, x);
        proof {
            let nv = prev_keys_view(out@);
            assert(nv =~= ov.insert(j as int, xv));
            assert forall|a: int, b: int| 0 <= a < b < nv.len() implies prev_before(#[trigger] nv[a], #[trigger] nv[b]) by {
                if a < j && b == j {
                } else if a < j && b > j {
                    assert(nv[a] == ov[a] && nv[b] == ov[b - 1]);
                } else if a == j {
                    assert(nv[b] == ov[b - 1]);
                } else if a > j {
                    assert(nv[a] == ov[a - 1] && nv[b] == ov[b - 1]);
                } else {
                    assert(nv[a] == ov[a] && nv[b] == ov[b]);
                }
            }
            assert forall|p: (nat, Seq<char>)| #[trigger] src.contains(p) <==> (prev_keys_view(pk@).contains(p) || nv.contains(p)) by {
                if p == xv {
                    assert(nv[j as int] == xv);
                    assert(pv[pv.len() - 1] == xv);
                }
                if ov.contains(p) {
                    let a = choose|a: int| 0 <= a < ov.len() && ov[a] == p;
                    if a < j {
                        assert(nv[a] == p);
                    } else {
                        assert(nv[a + 1] == p);
                    }
                }
                if nv.contains(p) {
                    let a = choose|a: int| 0 <= a < nv.len() && nv[a] == p;
                    if a < j {
                        assert(ov[a] == p);
                    } else if a > j {
                        assert(ov[a - 1] == p);
                    }
                }
                if pv.contains(p) {
                    let a = choose|a: int| 0 <= a < pv.len() && pv[a] == p;
                    if a < pv.len() - 1 {
                        assert(prev_keys_view(pk@)[a] == p);
                    }
                }
                if prev_keys_view(pk@).contains(p) {
                    let a = choose|a: int| 0 <= a < prev_keys_view(pk@).len() && prev_keys_view(pk@)[a] == p;
                    assert(pv[a] == p);
                }
            }
            assert forall|p: (nat, Seq<char>)| prev_keys_view(pk@).contains(p) implies !nv.contains(p) by {
                let a = choose|a: int| 0 <= a < prev_keys_view(pk@).len() && prev_keys_view(pk@)[a] == p;
                assert(pv[a] == p);
                assert(pv.contains(p));
                assert(a != pv.len() - 1);
                assert(p != xv);
                if nv.contains(p) {
                    let b = choose|b: int| 0 <= b < nv.len() && nv[b] == p;
                    if b < j {
                        assert(ov[b] == p);
                    } else if b > j {
                        assert(ov[b - 1] == p);
                    }
                }
            }
            assert forall|a: int, b: int| 0 <= a < b < pk.len() implies prev_keys_view(pk@)[a] != prev_keys_view(pk@)[b] by {
                assert(prev_keys_view(pk@)[a] == pv[a] && prev_keys_view(pk@)[b] == pv[b]);
            }
        }
    }
    out
}


proof fn lemma_push_contains(s: Seq<Seq<char>>, x: Seq<char>, y: Seq<char>)
    ensures
        s.push(x).contains(y) <==> s.contains(y) || x == y,
{
    if s.push(x).contains(y) && x != y {
        let a = choose|a: int| 0 <= a < s.push(x).len() && s.push(x)[a] == y;
        assert(s[a] == y);
    }
    if s.contains(y) {
        let a = choose|a: int| 0 <= a < s.len() && s[a] == y;
        assert(s.push(x)[a] == y);
    }
    if x == y {
        assert(s.push(x)[s.len() as int] == y);
    }
}

/// `prev_wanted` over the first `i` identifiers.
pub open spec fn wanted_upto(body: Seq<BodyItemV>, ids: Seq<Seq<char>>, i: int, p: (nat, Seq<char>)) -> bool {
    &&& 1 <= p.0
    &&& decl_type(body, p.1) is Some
    &&& exists|j: int| 0 <= j < i && lead(#[trigger] ids[j]) >= p.0 && base_name(ids[j]) == p.1
}

/// `reads_back` over the first `i` identifiers.
pub open spec fn reads_back_upto(body: Seq<BodyItemV>, ids: Seq<Seq<char>>, i: int, k: nat) -> bool {
    exists|j: int| 0 <= j < i && lead(#[trigger] ids[j]) >= k && decl_type(body, base_name(ids[j])) is Some
}

/// Declare the previous-tick names an FSM body reads (`_x`, `__x`, …, each
/// with the type of `x`), then `is_first_tick` and, for two-tick history,
/// `is_second_tick`, right after its parameters; see
/// `prev_tick_injection`. Other schemas, and external ones, are unchanged.
pub fn inject_prev_tick_decls(s: &mut SchemaDecl)
    requires
        old(s).keyword == Keyword::Fsm && !old(s).external ==> forall|pk: Seq<(nat, Seq<char>)>|
            prev_keys_of(old(s)@.body, pk) ==> #[trigger] fits(old(s)@, prev_tick_injection(old(s)@.body, pk)),
    ensures
        old(s).keyword == Keyword::Fsm && !old(s).external ==> exists|pk: Seq<(nat, Seq<char>)>|
            prev_keys_of(old(s)@.body, pk) && final(s)@ == with_body(
                old(s)@,
                insert_items(old(s)@.body, old(s).param_count as int, #[trigger] prev_tick_injection(old(s)@.body, pk)),
            ),
        !(old(s).keyword == Keyword::Fsm && !old(s).external) ==> final(s)@ == old(s)@,
{
    if s.keyword != Keyword::Fsm || s.external {
        return;
    }
    proof {
        lemma_schema_lists(*s);
    }
    let ghost old_s = *s;
    let ghost body = s@.body;
    let decls = declared_types(&s.body);
    let ghost dv = decls_view(decls@);
    let ids = collect_body_idents(&s.body);
    let ghost idv = strs_view(ids@);
    let mut pk: Vec<(usize, String)> = Vec::new();
    let mut first_tick = false;
    let mut back1 = false;
    let mut back2 = false;
    let mut i: usize = 0;
    while i < ids.len()
        invariant
            0 <= i <= ids.len(),
            body == items_view(s.body@),
            *s == old_s,
            dv == decls_view(decls@),
            forall|n: Seq<char>| #[trigger] decl_lookup(dv, n) == decl_type(body, n),
            forall|a: int, b: int| 0 <= a < b < decls.len() ==> decls@[a].0@ != decls@[b].0@,
            idv == strs_view(ids@),
            idv == body_idents(body),
            forall|a: int, b: int| 0 <= a < b < pk.len() ==> prev_keys_view(pk@)[a] != prev_keys_view(pk@)[b],
            forall|p: (nat, Seq<char>)| #[trigger] prev_keys_view(pk@).contains(p) <==> wanted_upto(body, idv, i as int, p)
                && !declares(body, prev_key(p)),
            first_tick == idv.take(i as int).contains("is_first_tick"@),
            back1 == reads_back_upto(body, idv, i as int, 1),
            back2 == reads_back_upto(body, idv, i as int, 2),
        decreases ids.len() - i,
    {
        let ghost id = idv[i as int];
        assert(id == ids@[i as int]@);
        assert(idv.take(i + 1) =~= idv.take(i as int).push(id));
        if str_is(&ids[i], "is_first_tick") {
            first_tick = true;
        }
        proof {
            lemma_push_contains(idv.take(i as int), id, "is_first_tick"@);
        }
        let c = str_to_chars(ids[i].as_str());
        let d = leading_underscores(&c);
        let mut found = false;
        if d > 0 {
            let seg_c = segment_from(&c, d);
            let seg = chars_to_string(&seg_c);
            assert(seg@ == base_name(id));
            match lookup_type(&decls, &seg) {
                Some(_) => {
                    found = true;
                    back1 = true;
                    if d >= 2 {
                        back2 = true;
                    }
                    let mut k: usize = 0;
                    while k < d
                        invariant
                            0 <= k <= d,
                            d == lead(id),
                            seg@ == base_name(id),
                            seg_c@ == seg@,
                            decl_type(body, seg@) is Some,
                            dv == decls_view(decls@),
                            forall|n: Seq<char>| #[trigger] decl_lookup(dv, n) == decl_type(body, n),
                            forall|a: int, b: int| 0 <= a < b < decls.len() ==> decls@[a].0@ != decls@[b].0@,
                            forall|a: int, b: int| 0 <= a < b < pk.len() ==> prev_keys_view(pk@)[a] != prev_keys_view(pk@)[b],
                            forall|p: (nat, Seq<char>)| #[trigger] prev_keys_view(pk@).contains(p) <==> ((wanted_upto(body, idv, i as int, p)
                                || (p.1 == seg@ && 1 <= p.0 <= k)) && !declares(body, prev_key(p))),
                        decreases d - k,
                    {
                        let kk = k + 1;
                        let key = prev_key_string(kk, &seg_c);
                        let declared = lookup_type(&decls, &key);
                        proof {
                            lemma_decl_type_declares(body, key@);
                        }
                        if declared.is_none() && !prev_listed(&pk, kk, &seg) {
                            let ghost before = prev_keys_view(pk@);
                            pk.push((kk, seg.clone()));
                            proof {
                                let after = prev_keys_view(pk@);
                                assert(after =~= before.push((kk as nat, seg@)));
                                assert forall|p: (nat, Seq<char>)| #[trigger] after.contains(p) <==> ((wanted_upto(body, idv, i as int, p)
                                    || (p.1 == seg@ && 1 <= p.0 <= k + 1)) && !declares(body, prev_key(p))) by {
                                    if after.contains(p) && p != (kk as nat, seg@) {
                                        let a = choose|a: int| 0 <= a < after.len() && after[a] == p;
                                        assert(before[a] == p);
                                    }
                                    if p == (kk as nat, seg@) {
                                        assert(after[after.len() - 1] == p);
                                    } else if before.contains(p) {
                                        let a = choose|a: int| 0 <= a < before.len() && before[a] == p;
                                        assert(after[a] == p);
                                    }
                                }
                            }
                        } else {
                            proof {
                                let pv = prev_keys_view(pk@);
                                assert forall|p: (nat, Seq<char>)| #[trigger] pv.contains(p) <==> ((wanted_upto(body, idv, i as int, p)
                                    || (p.1 == seg@ && 1 <= p.0 <= k + 1)) && !declares(body, prev_key(p))) by {
                                    if p == (kk as nat, seg@) && !declares(body, prev_key(p)) {
                                        assert(pv.contains(p));
                                    }
                                }
                            }
                        }
                        k = kk;
                    }
                    proof {
                        let pv = prev_keys_view(pk@);
                        assert forall|p: (nat, Seq<char>)| #[trigger] pv.contains(p) <==> wanted_upto(body, idv, i + 1, p)
                            && !declares(body, prev_key(p)) by {
                            if wanted_upto(body, idv, i + 1, p) && !wanted_upto(body, idv, i as int, p) {
                                let j = choose|j: int| 0 <= j < i + 1 && lead(#[trigger] idv[j]) >= p.0 && base_name(idv[j]) == p.1;
                                assert(j == i);
                            }
                            if p.1 == seg@ && 1 <= p.0 <= k {
                                assert(lead(idv[i as int]) >= p.0 && base_name(idv[i as int]) == p.1);
                            }
                        }
                    }
                },
                None => {},
            }
        }
        proof {
            if !found {
                let pv = prev_keys_view(pk@);
                assert forall|p: (nat, Seq<char>)| #[trigger] pv.contains(p) <==> wanted_upto(body, idv, i + 1, p)
                    && !declares(body, prev_key(p)) by {
                    if wanted_upto(body, idv, i + 1, p) && !wanted_upto(body, idv, i as int, p) {
                        let j = choose|j: int| 0 <= j < i + 1 && lead(#[trigger] idv[j]) >= p.0 && base_name(idv[j]) == p.1;
                        assert(j == i);
                    }
                }
                if reads_back_upto(body, idv, i + 1, 1) {
                    let j = choose|j: int| 0 <= j < i + 1 && lead(#[trigger] idv[j]) >= 1 && decl_type(body, base_name(idv[j])) is Some;
                    assert(j != i);
                }
                if reads_back_upto(body, idv, i + 1, 2) {
                    let j = choose|j: int| 0 <= j < i + 1 && lead(#[trigger] idv[j]) >= 2 && decl_type(body, base_name(idv[j])) is Some;
                    assert(j != i);
                }
            } else {
                assert(lead(idv[i as int]) >= 1);
                if d >= 2 {
                    assert(lead(idv[i as int]) >= 2);
                }
                if reads_back_upto(body, idv, i + 1, 2) && d < 2 {
                    let j = choose|j: int| 0 <= j < i + 1 && lead(#[trigger] idv[j]) >= 2 && decl_type(body, base_name(idv[j])) is Some;
                    assert(j != i);
                }
            }
        }
        i += 1;
    }
    let sorted = sort_prev_keys(pk);
    let ghost sv = prev_keys_view(sorted@);
    let mut injected: Vec<BodyItem> = Vec::new();
    let mut j: usize = 0;
    while j < sorted.len()
        invariant
            0 <= j <= sorted.len(),
            sv == prev_keys_view(sorted@),
            forall|p: (nat, Seq<char>)| #[trigger] sv.contains(p) ==> decl_type(body, p.1) is Some,
            dv == decls_view(decls@),
            forall|n: Seq<char>| #[trigger] decl_lookup(dv, n) == decl_type(body, n),
            forall|a: int, b: int| 0 <= a < b < decls.len() ==> decls@[a].0@ != decls@[b].0@,
            injected.len() == j,
            forall|a: int| 0 <= a < j ==> #[trigger] body_item_view(injected@[a]) == prev_member(body, sv[a]),
        decreases sorted.len() - j,
    {
        assert(sv[j as int] == (sorted@[j as int].0 as nat, sorted@[j as int].1@));
        assert(sv.contains(sv[j as int]));
        let seg_c = str_to_chars(sorted[j].1.as_str());
        let key = prev_key_string(sorted[j].0, &seg_c);
        let ty = lookup_type(&decls, &sorted[j].1);
        let ty = match ty {
            Some(t) => t,
            None => String::new(),
        };
        injected.push(BodyItem::Membership { name: key, ty, pins: Pins::Empty });
        j += 1;
    }
    let ghost ft_cond = (reads_back(body, 1) || idv.contains("is_first_tick"@)) && !declares(body, "is_first_tick"@);
    let ghost st_cond = reads_back(body, 2) && !declares(body, "is_second_tick"@);
    proof {
        assert(idv.take(idv.len() as int) =~= idv);
        lemma_decl_type_declares(body, "is_first_tick"@);
        lemma_decl_type_declares(body, "is_second_tick"@);
        assert(back1 == reads_back(body, 1));
        assert(back2 == reads_back(body, 2));
    }
    let ghost before_extra = items_view(injected@);
    let ift = String::from_str("is_first_tick");
    if (back1 || first_tick) && lookup_type(&decls, &ift).is_none() {
        injected.push(BodyItem::Membership { name: ift, ty: String::from_str("Bool"), pins: Pins::Empty });
    }
    let ist = String::from_str("is_second_tick");
    if back2 && lookup_type(&decls, &ist).is_none() {
        injected.push(BodyItem::Membership { name: ist, ty: String::from_str("Bool"), pins: Pins::Empty });
    }
    proof {
        assert(prev_keys_of(body, sv));
        assert(before_extra =~= Seq::new(sv.len(), |a: int| prev_member(body, sv[a])));
        assert(items_view(injected@) =~= prev_tick_injection(body, sv));
        assert(fits(old_s@, prev_tick_injection(body, sv)));
    }
    let pos = s.param_count;
    splice_items(&mut s.body, pos, injected);
    proof {
        lemma_schema_lists(*s);
        assert(s@.operators == old_s@.operators);
        assert(s@ == with_body(old_s@, insert_items(body, old_s.param_count as int, prev_tick_injection(body, sv))));
    }
}


// ───────────────────────────── sequence concatenation ─────────────────────────────

/// `name = ⟨xs⟩`: a literal definition of a sequence.
pub open spec fn seq_lit_def(item: BodyItemV) -> Option<(Seq<char>, Seq<ExprV>)> {
    match item {
        BodyItemV::Constraint(ExprV::Binary(BinOpV::Eq, l, r)) => match (*l, *r) {
            (ExprV::Identifier(n), ExprV::SeqLit(xs)) => Some((n, xs)),
            _ => None,
        },
        _ => None,
    }
}

/// `#name = n` with `n ≥ 0`: a pinned sequence length.
pub open spec fn seq_len_def(item: BodyItemV) -> Option<(Seq<char>, i64)> {
    match item {
        BodyItemV::Constraint(ExprV::Binary(BinOpV::Eq, l, r)) => match (*l, *r) {
            (ExprV::Cardinality(inner), ExprV::Int(n)) => if n >= 0 {
                match *inner {
                    ExprV::Identifier(name) => Some((name, n)),
                    _ => None,
                }
            } else {
                None
            },
            _ => None,
        },
        _ => None,
    }
}

/// The literal elements the body gives `name` (its last such definition).
pub open spec fn seq_lit_of(body: Seq<BodyItemV>, name: Seq<char>) -> Option<Seq<ExprV>>
    decreases body.len(),
{
    if body.len() == 0 {
        None
    } else {
        match seq_lit_def(body.last()) {
            Some((n, xs)) => if n == name {
                Some(xs)
            } else {
                seq_lit_of(body.drop_last(), name)
            },
            None => seq_lit_of(body.drop_last(), name),
        }
    }
}

/// The length the body pins for `name` (its last such pin).
pub open spec fn seq_len_of(body: Seq<BodyItemV>, name: Seq<char>) -> Option<i64>
    decreases body.len(),
{
    if body.len() == 0 {
        None
    } else {
        match seq_len_def(body.last()) {
            Some((n, len)) => if n == name {
                Some(len)
            } else {
                seq_len_of(body.drop_last(), name)
            },
            None => seq_len_of(body.drop_last(), name),
        }
    }
}

/// `⟨name[0], …, name[len − 1]⟩`.
pub open spec fn indexed_elems(name: Seq<char>, len: i64) -> Seq<ExprV> {
    Seq::new(len as nat, |i: int| ExprV::Index(Box::new(ExprV::Identifier(name)), Box::new(ExprV::Int(i as i64))))
}

/// The elements of a `++` chain whose every operand is a literal, a name
/// with a literal definition, or a name with a pinned length.
pub open spec fn flatten_concat(e: ExprV, body: Seq<BodyItemV>) -> Option<Seq<ExprV>>
    decreases e,
{
    match e {
        ExprV::Binary(BinOpV::Concat, l, r) => match (flatten_concat(*l, body), flatten_concat(*r, body)) {
            (Some(a), Some(b)) => Some(a + b),
            _ => None,
        },
        ExprV::SeqLit(xs) => Some(xs),
        ExprV::Identifier(n) => match seq_lit_of(body, n) {
            Some(xs) => Some(xs),
            None => match seq_len_of(body, n) {
                Some(len) => Some(indexed_elems(n, len)),
                None => None,
            },
        },
        _ => None,
    }
}

/// `e` with each outermost `++` chain that flattens replaced by the
/// literal of its elements. Forward differences are not entered.
pub open spec fn concat_rewrite(e: ExprV, body: Seq<BodyItemV>) -> ExprV
    decreases e,
{
    if e matches ExprV::Binary(BinOpV::Concat, _, _) && flatten_concat(e, body) is Some {
        ExprV::SeqLit(flatten_concat(e, body).unwrap())
    } else {
        match e {
            ExprV::Binary(op, l, r) => ExprV::Binary(op, Box::new(concat_rewrite(*l, body)), Box::new(concat_rewrite(*r, body))),
            ExprV::Range(a, b) => ExprV::Range(Box::new(concat_rewrite(*a, body)), Box::new(concat_rewrite(*b, body))),
            ExprV::InExpr(a, b) => ExprV::InExpr(Box::new(concat_rewrite(*a, body)), Box::new(concat_rewrite(*b, body))),
            ExprV::Index(a, b) => ExprV::Index(Box::new(concat_rewrite(*a, body)), Box::new(concat_rewrite(*b, body))),
            ExprV::Ternary(c, a, b) => ExprV::Ternary(
                Box::new(concat_rewrite(*c, body)),
                Box::new(concat_rewrite(*a, body)),
                Box::new(concat_rewrite(*b, body)),
            ),
            ExprV::SetLit(xs) => ExprV::SetLit(Seq::new(xs.len(), |i: int| if 0 <= i < xs.len() { concat_rewrite(xs[i], body) } else { ExprV::Int(0) })),
            ExprV::SeqLit(xs) => ExprV::SeqLit(Seq::new(xs.len(), |i: int| if 0 <= i < xs.len() { concat_rewrite(xs[i], body) } else { ExprV::Int(0) })),
            ExprV::Tuple(xs) => ExprV::Tuple(Seq::new(xs.len(), |i: int| if 0 <= i < xs.len() { concat_rewrite(xs[i], body) } else { ExprV::Int(0) })),
            ExprV::Call(n, xs) => ExprV::Call(n, Seq::new(xs.len(), |i: int| if 0 <= i < xs.len() { concat_rewrite(xs[i], body) } else { ExprV::Int(0) })),
            ExprV::Forall(vs, r, b) => ExprV::Forall(vs, Box::new(concat_rewrite(*r, body)), Box::new(concat_rewrite(*b, body))),
            ExprV::Exists(vs, r, b) => ExprV::Exists(vs, Box::new(concat_rewrite(*r, body)), Box::new(concat_rewrite(*b, body))),
            ExprV::Cardinality(x) => ExprV::Cardinality(Box::new(concat_rewrite(*x, body))),
            ExprV::Not(x) => ExprV::Not(Box::new(concat_rewrite(*x, body))),
            ExprV::Matches(x, p) => ExprV::Matches(Box::new(concat_rewrite(*x, body)), p),
            ExprV::Field(x, f) => ExprV::Field(Box::new(concat_rewrite(*x, body)), f),
            ExprV::Match(sc, arms) => ExprV::Match(
                Box::new(concat_rewrite(*sc, body)),
                Seq::new(
                    arms.len(),
                    |i: int|
                        if 0 <= i < arms.len() {
                            MatchArmV { pattern: arms[i].pattern, body: concat_rewrite(arms[i].body, body) }
                        } else {
                            MatchArmV { pattern: MatchPatternV::Wildcard, body: ExprV::Int(0) }
                        },
                ),
            ),
            _ => e,
        }
    }
}

/// A schema with its `++` chains rewritten (see `concat_rewrite`, against
/// the schema's own definitions), then the same done to each nested
/// subclaim; external schemas are unchanged.
pub open spec fn concat_schema(s: SchemaDeclV) -> SchemaDeclV
    decreases s, 0nat,
{
    if s.external {
        s
    } else {
        with_body(s, Seq::new(s.body.len(), |i: int| if 0 <= i < s.body.len() { concat_item(s.body[i], s.body) } else { s.body[i] }))
    }
}

/// One body item of `concat_schema`.
pub open spec fn concat_item(item: BodyItemV, body: Seq<BodyItemV>) -> BodyItemV
    decreases item, 1nat,
{
    match item {
        BodyItemV::Constraint(e) => BodyItemV::Constraint(concat_rewrite(e, body)),
        BodyItemV::ClaimCall { name, mappings } => BodyItemV::ClaimCall {
            name,
            mappings: Seq::new(mappings.len(), |i: int| MappingV { slot: mappings[i].slot, value: concat_rewrite(mappings[i].value, body) }),
        },
        BodyItemV::SubclaimDecl(sub) => BodyItemV::SubclaimDecl(concat_schema(sub)),
        _ => item,
    }
}

proof fn lemma_seq_len_nonneg(body: Seq<BodyItemV>, name: Seq<char>)
    ensures
        seq_len_of(body, name) matches Some(n) ==> n >= 0,
    decreases body.len(),
{
    if body.len() > 0 {
        lemma_seq_len_nonneg(body.drop_last(), name);
    }
}

/// The literal elements the body gives `name`; see `seq_lit_of`.
fn find_seq_lit(body: &Vec<BodyItem>, name: &String) -> (r: Option<Vec<Expr>>)
    ensures
        match r {
            Some(xs) => seq_lit_of(items_view(body@), name@) == Some(exprs_view(xs@)),
            None => seq_lit_of(items_view(body@), name@) is None,
        },
{
    let ghost iv = items_view(body@);
    let mut i: usize = body.len();
    assert(iv.take(iv.len() as int) =~= iv);
    while i > 0
        invariant
            0 <= i <= body.len(),
            iv == items_view(body@),
            seq_lit_of(iv, name@) == seq_lit_of(iv.take(i as int), name@),
        decreases i,
    {
        let ghost t = iv.take(i as int);
        assert(t.last() == body_item_view(body@[i - 1]));
        assert(t.drop_last() =~= iv.take(i - 1));
        proof {
            reveal_with_fuel(expr_view, 3);
        }
        if let BodyItem::Constraint(Expr::Binary(BinOp::Eq, l, r)) = &body[i - 1] {
            proof {
                lemma_list_views(**r);
            }
            if let (Expr::Identifier(n), Expr::SeqLit(xs)) = (&**l, &**r) {
                if *n == *name {
                    proof {
                        lemma_list_views(**r);
                    }
                    return Some(crate::ast::clone_exprs(xs));
                }
            }
        }
        i -= 1;
    }
    None
}

/// The length the body pins for `name`; see `seq_len_of`.
fn find_seq_len(body: &Vec<BodyItem>, name: &String) -> (r: Option<i64>)
    ensures
        r == seq_len_of(items_view(body@), name@),
        r matches Some(n) ==> n >= 0,
{
    proof {
        lemma_seq_len_nonneg(items_view(body@), name@);
    }
    let ghost iv = items_view(body@);
    let mut i: usize = body.len();
    assert(iv.take(iv.len() as int) =~= iv);
    while i > 0
        invariant
            0 <= i <= body.len(),
            iv == items_view(body@),
            seq_len_of(iv, name@) == seq_len_of(iv.take(i as int), name@),
        decreases i,
    {
        let ghost t = iv.take(i as int);
        assert(t.last() == body_item_view(body@[i - 1]));
        assert(t.drop_last() =~= iv.take(i - 1));
        proof {
            reveal_with_fuel(expr_view, 3);
        }
        if let BodyItem::Constraint(Expr::Binary(BinOp::Eq, l, r)) = &body[i - 1] {
            if let (Expr::Cardinality(inner), Expr::Int(n)) = (&**l, &**r) {
                if *n >= 0 {
                    if let Expr::Identifier(m) = &**inner {
                        if *m == *name {
                            return Some(*n);
                        }
                    }
                }
            }
        }
        i -= 1;
    }
    None
}

/// The elements of a flattenable `++` chain; see `flatten_concat`.
fn flatten_chain(e: &Expr, body: &Vec<BodyItem>) -> (r: Option<Vec<Expr>>)
    ensures
        match r {
            Some(xs) => flatten_concat(e@, items_view(body@)) == Some(exprs_view(xs@)),
            None => flatten_concat(e@, items_view(body@)) is None,
        },
    decreases e,
{
    proof {
        lemma_list_views(*e);
    }
    match e {
        Expr::Binary(BinOp::Concat, l, r) => {
            let a = flatten_chain(l, body);
            let b = flatten_chain(r, body);
            match (a, b) {
                (Some(mut a), Some(b)) => {
                    let ghost av = exprs_view(a@);
                    let mut b = b;
                    let ghost bv = exprs_view(b@);
                    a.append(&mut b);
                    assert(exprs_view(a@) =~= av + bv);
                    Some(a)
                },
                _ => None,
            }
        },
        Expr::SeqLit(xs) => Some(crate::ast::clone_exprs(xs)),
        Expr::Identifier(n) => match find_seq_lit(body, n) {
            Some(xs) => Some(xs),
            None => match find_seq_len(body, n) {
                Some(len) => {
                    let mut out: Vec<Expr> = Vec::new();
                    let mut i: i64 = 0;
                    while i < len
                        invariant
                            0 <= i <= len,
                            out.len() == i,
                            forall|k: int| 0 <= k < i ==> #[trigger] expr_view(out@[k]) == indexed_elems(n@, len)[k],
                        decreases len - i,
                    {
                        proof {
                            reveal_with_fuel(expr_view, 2);
                        }
                        out.push(Expr::Index(Box::new(Expr::Identifier(n.clone())), Box::new(Expr::Int(i))));
                        i += 1;
                    }
                    assert(exprs_view(out@) =~= indexed_elems(n@, len));
                    Some(out)
                },
                None => None,
            },
        },
        _ => None,
    }
}

/// `concat_rewrite` over each of `xs`.
fn concat_rewrite_all(xs: &Vec<Expr>, body: &Vec<BodyItem>) -> (r: Vec<Expr>)
    ensures
        r.len() == xs.len(),
        forall|k: int| 0 <= k < xs.len() ==> #[trigger] expr_view(r@[k]) == concat_rewrite(expr_view(xs@[k]), items_view(body@)),
    decreases xs, 1int,
{
    let mut out: Vec<Expr> = Vec::new();
    let mut i: usize = 0;
    while i < xs.len()
        invariant
            0 <= i <= xs.len(),
            out.len() == i,
            forall|k: int| 0 <= k < i ==> #[trigger] expr_view(out@[k]) == concat_rewrite(expr_view(xs@[k]), items_view(body@)),
        decreases xs.len() - i,
    {
        proof {
            assert(decreases_to!(*xs => xs@[i as int]));
        }
        out.push(rewrite_concat(&xs[i], body));
        i += 1;
    }
    out
}

/// `e` with its flattenable `++` chains replaced; see `concat_rewrite`.
fn rewrite_concat(e: &Expr, body: &Vec<BodyItem>) -> (r: Expr)
    ensures
        r@ == concat_rewrite(e@, items_view(body@)),
    decreases e, 0int,
{
    proof {
        lemma_list_views(*e);
    }
    let ghost bv = items_view(body@);
    if let Expr::Binary(BinOp::Concat, _, _) = e {
        if let Some(items) = flatten_chain(e, body) {
            let r = Expr::SeqLit(items);
            proof {
                lemma_list_views(r);
            }
            return r;
        }
    }
    match e {
        Expr::Binary(op, l, r) => Expr::Binary(clone_binop(op), Box::new(rewrite_concat(l, body)), Box::new(rewrite_concat(r, body))),
        Expr::Range(a, b) => Expr::Range(Box::new(rewrite_concat(a, body)), Box::new(rewrite_concat(b, body))),
        Expr::InExpr(a, b) => Expr::InExpr(Box::new(rewrite_concat(a, body)), Box::new(rewrite_concat(b, body))),
        Expr::Index(a, b) => Expr::Index(Box::new(rewrite_concat(a, body)), Box::new(rewrite_concat(b, body))),
        Expr::Ternary(c, a, b) => Expr::Ternary(
            Box::new(rewrite_concat(c, body)),
            Box::new(rewrite_concat(a, body)),
            Box::new(rewrite_concat(b, body)),
        ),
        Expr::SetLit(xs) => {
            proof {
                assert(decreases_to!(*e => *xs));
            }
            let out = concat_rewrite_all(xs, body);
            let r = Expr::SetLit(out);
            proof {
                lemma_list_views(r);
                assert(exprs_view(out@) =~= concat_rewrite(e@, bv)->SetLit_0);
            }
            r
        },
        Expr::SeqLit(xs) => {
            proof {
                assert(decreases_to!(*e => *xs));
            }
            let out = concat_rewrite_all(xs, body);
            let r = Expr::SeqLit(out);
            proof {
                lemma_list_views(r);
                assert(exprs_view(out@) =~= concat_rewrite(e@, bv)->SeqLit_0);
            }
            r
        },
        Expr::Tuple(xs) => {
            proof {
                assert(decreases_to!(*e => *xs));
            }
            let out = concat_rewrite_all(xs, body);
            let r = Expr::Tuple(out);
            proof {
                lemma_list_views(r);
                assert(exprs_view(out@) =~= concat_rewrite(e@, bv)->Tuple_0);
            }
            r
        },
        Expr::Call(n, xs) => {
            proof {
                assert(decreases_to!(*e => *xs));
            }
            let out = concat_rewrite_all(xs, body);
            let r = Expr::Call(n.clone(), out);
            proof {
                lemma_list_views(r);
                assert(exprs_view(out@) =~= concat_rewrite(e@, bv)->Call_1);
            }
            r
        },
        Expr::Forall(vs, r, b) => Expr::Forall(clone_strings(vs), Box::new(rewrite_concat(r, body)), Box::new(rewrite_concat(b, body))),
        Expr::Exists(vs, r, b) => Expr::Exists(clone_strings(vs), Box::new(rewrite_concat(r, body)), Box::new(rewrite_concat(b, body))),
        Expr::Cardinality(x) => Expr::Cardinality(Box::new(rewrite_concat(x, body))),
        Expr::Not(x) => Expr::Not(Box::new(rewrite_concat(x, body))),
        Expr::Matches(x, p) => Expr::Matches(Box::new(rewrite_concat(x, body)), clone_pattern(p)),
        Expr::Field(x, f) => Expr::Field(Box::new(rewrite_concat(x, body)), f.clone()),
        Expr::Match(scrut, arms) => {
            let s2 = rewrite_concat(scrut, body);
            let mut out: Vec<MatchArm> = Vec::new();
            let mut i: usize = 0;
            while i < arms.len()
                invariant
                    0 <= i <= arms.len(),
                    *e == Expr::Match(*scrut, *arms),
                    out.len() == i,
                    forall|k: int|
                        0 <= k < i ==> pattern_view(#[trigger] out@[k].pattern) == pattern_view(arms@[k].pattern)
                            && expr_view(*out@[k].body) == concat_rewrite(expr_view(*arms@[k].body), items_view(body@)),
                decreases arms.len() - i,
            {
                proof {
                    assert(decreases_to!(*e => e->Match_1));
                    assert(decreases_to!(e->Match_1 => arms@[i as int]));
                    assert(decreases_to!(arms@[i as int] => arms@[i as int].body));
                }
                let b = rewrite_concat(&arms[i].body, body);
                out.push(MatchArm { pattern: clone_pattern(&arms[i].pattern), body: Box::new(b) });
                i += 1;
            }
            let r = Expr::Match(Box::new(s2), out);
            proof {
                lemma_list_views(r);
                assert(arms_view(out@) =~= concat_rewrite(e@, bv)->Match_1);
            }
            r
        },
        _ => clone_expr(e),
    }
}

/// `s` with its sequence concatenations lowered; see `concat_schema`.
fn concat_schema_of(s: &SchemaDecl) -> (r: SchemaDecl)
    ensures
        r@ == concat_schema(s@),
    decreases s,
{
    proof {
        lemma_schema_lists(*s);
    }
    if s.external {
        return crate::ast::clone_schema(s);
    }
    let ghost bv = items_view(s.body@);
    let mut nb: Vec<BodyItem> = Vec::new();
    let mut i: usize = 0;
    while i < s.body.len()
        invariant
            0 <= i <= s.body.len(),
            bv == items_view(s.body@),
            nb.len() == i,
            forall|k: int| 0 <= k < i ==> #[trigger] body_item_view(nb@[k]) == concat_item(body_item_view(s.body@[k]), bv),
        decreases s.body.len() - i,
    {
        proof {
            assert(decreases_to!(*s => s.body));
            assert(decreases_to!(s.body => s.body@[i as int]));
        }
        let item = match &s.body[i] {
            BodyItem::Constraint(e) => BodyItem::Constraint(rewrite_concat(e, &s.body)),
            BodyItem::ClaimCall { name, mappings } => {
                let mut ms: Vec<Mapping> = Vec::new();
                let mut j: usize = 0;
                while j < mappings.len()
                    invariant
                        0 <= j <= mappings.len(),
                        bv == items_view(s.body@),
                        ms.len() == j,
                        forall|k: int|
                            0 <= k < j ==> #[trigger] mapping_view(ms@[k]) == (MappingV {
                                slot: mapping_view(mappings@[k]).slot,
                                value: concat_rewrite(mapping_view(mappings@[k]).value, bv),
                            }),
                    decreases mappings.len() - j,
                {
                    ms.push(Mapping { slot: mappings[j].slot.clone(), value: rewrite_concat(&mappings[j].value, &s.body) });
                    j += 1;
                }
                proof {
                    let mv = mappings_view(mappings@);
                    assert(mappings_view(ms@) =~= Seq::new(
                        mv.len(),
                        |k: int| MappingV { slot: mv[k].slot, value: concat_rewrite(mv[k].value, bv) },
                    ));
                }
                BodyItem::ClaimCall { name: name.clone(), mappings: ms }
            },
            BodyItem::SubclaimDecl(sub) => {
                proof {
                    assert(decreases_to!(s.body@[i as int] => *sub));
                }
                BodyItem::SubclaimDecl(concat_schema_of(sub))
            },
            other => clone_body_item(other),
        };
        nb.push(item);
        i += 1;
    }
    let r = SchemaDecl {
        keyword: s.keyword,
        name: s.name.clone(),
        type_params: clone_strings(&s.type_params),
        param_count: s.param_count,
        external: s.external,
        body: nb,
        operators: clone_operators(&s.operators),
    };
    proof {
        lemma_schema_lists(r);
        assert(r@.body =~= concat_schema(s@).body);
        assert(r@.type_params =~= s@.type_params);
    }
    r
}

/// Lower `a ++ b ++ …` chains whose operands are sequence literals, names
/// defined by a literal, or names with a pinned length, to the literal of
/// their elements, in `s` and in its nested subclaims; see
/// `concat_schema`.
pub fn desugar_seq_concat(s: &mut SchemaDecl)
    ensures
        final(s)@ == concat_schema(old(s)@),
{
    let r = concat_schema_of(s);
    *s = r;
}


// ───────────────────────────── result types of `name = expr` ─────────────────────────────

pub proof fn lemma_first_segment(s: Seq<char>)
    ensures
        first_segment(s).len() <= s.len(),
        first_segment(s).len() < s.len() ==> s[first_segment(s).len() as int] == '.',
        first_segment(s).len() == s.len() ==> first_segment(s) == s,
        forall|k: int| 0 <= k < first_segment(s).len() ==> s[k] != '.' && first_segment(s)[k] == s[k],
    decreases s.len(),
{
    if s.len() > 0 && s[0] != '.' {
        lemma_first_segment(s.drop_first());
        let f = first_segment(s.drop_first());
        assert(first_segment(s) == seq![s[0]] + f);
        if f.len() == s.drop_first().len() {
            assert(seq![s[0]] + f =~= s);
        }
        assert forall|k: int| 0 <= k < first_segment(s).len() implies s[k] != '.' && first_segment(s)[k] == s[k] by {
            if k > 0 {
                assert(s[k] == s.drop_first()[k - 1]);
            }
        }
    }
}

/// The type of the first membership of `items` named `f`.
pub open spec fn first_member_type(items: Seq<BodyItemV>, f: Seq<char>) -> Option<Seq<char>>
    decreases items.len(),
{
    if items.len() == 0 {
        None
    } else {
        match items[0] {
            BodyItemV::Membership { name, ty, .. } => if name == f {
                Some(ty)
            } else {
                first_member_type(items.drop_first(), f)
            },
            _ => first_member_type(items.drop_first(), f),
        }
    }
}

/// Follow the dotted fields `rest` from a value of type `ty`, through the
/// first membership of each field in the schema of the current type.
pub open spec fn field_chain_type(schemas: Seq<SchemaDeclV>, ty: Seq<char>, rest: Seq<char>) -> Option<Seq<char>>
    decreases rest.len(),
{
    let f = first_segment(rest);
    proof {
        lemma_first_segment(rest);
    }
    match find_schema(schemas, ty) {
        None => None,
        Some(decl) => match first_member_type(decl.body, f) {
            None => None,
            Some(t) => if f.len() < rest.len() {
                field_chain_type(schemas, t, rest.skip(f.len() as int + 1))
            } else {
                Some(t)
            },
        },
    }
}

/// The type of a dotted name `head.f1.f2…`: the declared type of `head`,
/// then each field's type in turn.
pub open spec fn dotted_type(body: Seq<BodyItemV>, schemas: Seq<SchemaDeclV>, dotted: Seq<char>) -> Option<Seq<char>> {
    let head = first_segment(dotted);
    match decl_type(body, head) {
        None => None,
        Some(t) => if head.len() < dotted.len() {
            field_chain_type(schemas, t, dotted.skip(head.len() as int + 1))
        } else {
            Some(t)
        },
    }
}

/// The type of an expression, as far as its shape shows it.
pub open spec fn infer_rec(e: ExprV, body: Seq<BodyItemV>, schemas: Seq<SchemaDeclV>, enums: Seq<EnumDeclV>) -> Option<Seq<char>>
    decreases e,
{
    match e {
        ExprV::Int(_) => Some("Int"@),
        ExprV::Bool(_) => Some("Bool"@),
        ExprV::Str(_) => Some("String"@),
        ExprV::Real(_) => Some("Real"@),
        ExprV::Identifier(n) => match decl_type(body, n) {
            Some(t) => Some(t),
            None => if n.contains('.') {
                dotted_type(body, schemas, n)
            } else {
                None
            },
        },
        ExprV::Field(recv, field) => match *recv {
            ExprV::Identifier(head) => dotted_type(body, schemas, head + "."@ + field),
            _ => None,
        },
        ExprV::Call(name, _) => match enum_of_variant(enums, name) {
            Some(en) => Some(en),
            None => if find_schema(schemas, name) is Some {
                Some(name)
            } else {
                None
            },
        },
        ExprV::Ternary(_, a, b) => match infer_rec(*a, body, schemas, enums) {
            Some(t) => Some(t),
            None => infer_rec(*b, body, schemas, enums),
        },
        ExprV::Match(_, arms) => infer_arms(arms, body, schemas, enums, 0),
        ExprV::Binary(op, l, r) => match op {
            BinOpV::Lt | BinOpV::Le | BinOpV::Gt | BinOpV::Ge | BinOpV::Eq | BinOpV::Neq | BinOpV::And | BinOpV::Or
            | BinOpV::Implies => Some("Bool"@),
            BinOpV::Add | BinOpV::Sub | BinOpV::Mul | BinOpV::Div => match infer_rec(*l, body, schemas, enums) {
                Some(t) => Some(t),
                None => infer_rec(*r, body, schemas, enums),
            },
            BinOpV::Concat => Some("String"@),
            BinOpV::UserOp(_) => None,
        },
        ExprV::Not(_) => Some("Bool"@),
        ExprV::Cardinality(_) => Some("Int"@),
        _ => None,
    }
}

/// The type of the first arm body, from arm `k` on, whose type shows.
pub open spec fn infer_arms(arms: Seq<MatchArmV>, body: Seq<BodyItemV>, schemas: Seq<SchemaDeclV>, enums: Seq<EnumDeclV>, k: nat) -> Option<Seq<char>>
    decreases arms, arms.len() - k,
{
    if k >= arms.len() {
        None
    } else {
        proof {
            assert(decreases_to!(arms => arms[k as int]));
        }
        match infer_rec(arms[k as int].body, body, schemas, enums) {
            Some(t) => Some(t),
            None => infer_arms(arms, body, schemas, enums, k + 1),
        }
    }
}

/// The type a definition `name = e` gives `name`: none for a literal.
pub open spec fn infer_def_type(e: ExprV, body: Seq<BodyItemV>, schemas: Seq<SchemaDeclV>, enums: Seq<EnumDeclV>) -> Option<Seq<char>> {
    match e {
        ExprV::Int(_) | ExprV::Bool(_) | ExprV::Str(_) | ExprV::Real(_) => None,
        _ => infer_rec(e, body, schemas, enums),
    }
}

/// `name = e` where `name` is plain, undeclared, not a schema, and `e` has
/// an inferable type: the declaration it implies.
pub open spec fn lhs_candidate(item: BodyItemV, body: Seq<BodyItemV>, schemas: Seq<SchemaDeclV>, enums: Seq<EnumDeclV>) -> Option<(Seq<char>, Seq<char>)> {
    match item {
        BodyItemV::Constraint(ExprV::Binary(BinOpV::Eq, l, r)) => match *l {
            ExprV::Identifier(name) => if !name.contains('.') && decl_type(body, name) is None && find_schema(schemas, name) is None {
                match infer_def_type(*r, body, schemas, enums) {
                    Some(t) => Some((name, t)),
                    None => None,
                }
            } else {
                None
            },
            _ => None,
        },
        _ => None,
    }
}

/// Does `decls` declare `n`?
pub open spec fn declares_member(decls: Seq<BodyItemV>, n: Seq<char>) -> bool {
    exists|k: int| 0 <= k < decls.len() && is_member_named(#[trigger] decls[k], n)
}

/// The declarations implied by the first `n` items, each name once, in
/// order of first definition.
pub open spec fn lhs_decls(body: Seq<BodyItemV>, schemas: Seq<SchemaDeclV>, enums: Seq<EnumDeclV>, n: nat) -> Seq<BodyItemV>
    decreases n,
{
    if n == 0 || n > body.len() {
        Seq::empty()
    } else {
        let prev = lhs_decls(body, schemas, enums, (n - 1) as nat);
        match lhs_candidate(body[n - 1], body, schemas, enums) {
            Some((name, t)) => if declares_member(prev, name) {
                prev
            } else {
                prev.push(member(name, t))
            },
            None => prev,
        }
    }
}

/// `s` with the declarations implied by its definitions inserted after
/// its parameters (see `lhs_decls`), then the same done to each nested
/// subclaim.
pub open spec fn lhs_schema(s: SchemaDeclV, schemas: Seq<SchemaDeclV>, enums: Seq<EnumDeclV>) -> SchemaDeclV
    decreases s, 0nat,
{
    with_body(
        s,
        insert_items(lhs_sub_items(s.body, schemas, enums), s.param_count as int, lhs_decls(s.body, schemas, enums, s.body.len())),
    )
}

/// `lhs_sub_item` over each item.
pub open spec fn lhs_sub_items(body: Seq<BodyItemV>, schemas: Seq<SchemaDeclV>, enums: Seq<EnumDeclV>) -> Seq<BodyItemV>
    decreases body, 1nat,
{
    Seq::new(body.len(), |i: int| if 0 <= i < body.len() { lhs_sub_item(body[i], schemas, enums) } else { body[i] })
}

/// One body item of `lhs_schema`: subclaims are processed in turn.
pub open spec fn lhs_sub_item(item: BodyItemV, schemas: Seq<SchemaDeclV>, enums: Seq<EnumDeclV>) -> BodyItemV
    decreases item, 2nat,
{
    match item {
        BodyItemV::SubclaimDecl(sub) => BodyItemV::SubclaimDecl(lhs_schema(sub, schemas, enums)),
        _ => item,
    }
}

/// Every insertion of `lhs_schema`, nested ones included, fits.
pub open spec fn lhs_fits(s: SchemaDeclV, schemas: Seq<SchemaDeclV>, enums: Seq<EnumDeclV>) -> bool
    decreases s, 0nat,
{
    &&& fits(s, lhs_decls(s.body, schemas, enums, s.body.len()))
    &&& forall|i: int| 0 <= i < s.body.len() ==> lhs_item_fits(#[trigger] s.body[i], schemas, enums)
}

pub open spec fn lhs_item_fits(item: BodyItemV, schemas: Seq<SchemaDeclV>, enums: Seq<EnumDeclV>) -> bool
    decreases item, 1nat,
{
    match item {
        BodyItemV::SubclaimDecl(sub) => lhs_fits(sub, schemas, enums),
        _ => true,
    }
}


/// Does `v` hold a `.`?
fn has_dot(v: &Vec<char>) -> (r: bool)
    ensures
        r == v@.contains('.'),
{
    let mut i: usize = 0;
    while i < v.len()
        invariant
            0 <= i <= v.len(),
            forall|k: int| 0 <= k < i ==> v@[k] != '.',
        decreases v.len() - i,
    {
        if v[i] == '.' {
            assert(v@[i as int] == '.');
            return true;
        }
        i += 1;
    }
    false
}

/// The type of the first membership named `f`; see `first_member_type`.
pub(crate) fn first_member_type_of(items: &Vec<BodyItem>, f: &Vec<char>) -> (r: Option<String>)
    ensures
        opt_str_view(r) == first_member_type(items_view(items@), f@),
{
    let ghost iv = items_view(items@);
    let mut i: usize = 0;
    assert(iv.skip(0) =~= iv);
    while i < items.len()
        invariant
            0 <= i <= items.len(),
            iv == items_view(items@),
            first_member_type(iv, f@) == first_member_type(iv.skip(i as int), f@),
        decreases items.len() - i,
    {
        assert(iv.skip(i as int)[0] == body_item_view(items@[i as int]));
        assert(iv.skip(i as int).drop_first() =~= iv.skip(i + 1));
        if let BodyItem::Membership { name, ty, .. } = &items[i] {
            let nc = str_to_chars(name.as_str());
            if crate::text::chars_eq(&nc, f) {
                return Some(ty.clone());
            }
        }
        i += 1;
    }
    None
}

/// The type reached from `ty` through the dotted fields of `v` from `from`;
/// see `field_chain_type`.
pub(crate) fn field_chain_type_of(schemas: &Vec<SchemaDecl>, ty: String, v: &Vec<char>, from: usize) -> (r: Option<String>)
    requires
        from <= v.len(),
    ensures
        opt_str_view(r) == field_chain_type(schemas_view(schemas@), ty@, v@.skip(from as int)),
{
    let ghost sv = schemas_view(schemas@);
    let mut cur = ty;
    let mut pos = from;
    loop
        invariant
            pos <= v.len(),
            sv == schemas_view(schemas@),
            field_chain_type(sv, ty@, v@.skip(from as int)) == field_chain_type(sv, cur@, v@.skip(pos as int)),
        decreases v.len() - pos,
    {
        let f = segment_from(v, pos);
        proof {
            lemma_first_segment(v@.skip(pos as int));
        }
        let decl = match lookup_schema(schemas, &cur) {
            Some(d) => d,
            None => return None,
        };
        proof {
            lemma_schema_lists(*decl);
        }
        let t = match first_member_type_of(&decl.body, &f) {
            Some(t) => t,
            None => return None,
        };
        if pos + f.len() < v.len() {
            assert(v@.skip(pos as int).skip(f.len() as int + 1) =~= v@.skip(pos + f.len() + 1));
            cur = t;
            pos = pos + f.len() + 1;
        } else {
            return Some(t);
        }
    }
}

/// The type of a dotted name; see `dotted_type`.
fn dotted_type_of(
    decls: &Vec<(String, String)>,
    schemas: &Vec<SchemaDecl>,
    dotted: &Vec<char>,
    Ghost(body): Ghost<Seq<BodyItemV>>,
) -> (r: Option<String>)
    requires
        forall|n: Seq<char>| #[trigger] decl_lookup(decls_view(decls@), n) == decl_type(body, n),
        forall|a: int, b: int| 0 <= a < b < decls.len() ==> decls@[a].0@ != decls@[b].0@,
    ensures
        opt_str_view(r) == dotted_type(body, schemas_view(schemas@), dotted@),
{
    let head = segment_from(dotted, 0);
    assert(dotted@.skip(0) =~= dotted@);
    proof {
        lemma_first_segment(dotted@);
    }
    let hs = chars_to_string(&head);
    match lookup_type(decls, &hs) {
        None => None,
        Some(t) => {
            if head.len() < dotted.len() {
                field_chain_type_of(schemas, t, dotted, head.len() + 1)
            } else {
                Some(t)
            }
        },
    }
}

/// The type of `e` as far as its shape shows it; see `infer_rec`.
fn infer_expr_type(
    e: &Expr,
    decls: &Vec<(String, String)>,
    schemas: &Vec<SchemaDecl>,
    enums: &Vec<EnumDecl>,
    Ghost(body): Ghost<Seq<BodyItemV>>,
) -> (r: Option<String>)
    requires
        forall|n: Seq<char>| #[trigger] decl_lookup(decls_view(decls@), n) == decl_type(body, n),
        forall|a: int, b: int| 0 <= a < b < decls.len() ==> decls@[a].0@ != decls@[b].0@,
    ensures
        opt_str_view(r) == infer_rec(e@, body, schemas_view(schemas@), enums_view(enums@)),
    decreases e,
{
    proof {
        lemma_list_views(*e);
    }
    let ghost sv = schemas_view(schemas@);
    let ghost ev = enums_view(enums@);
    match e {
        Expr::Int(_) => Some(String::from_str("Int")),
        Expr::Bool(_) => Some(String::from_str("Bool")),
        Expr::Str(_) => Some(String::from_str("String")),
        Expr::Real(_) => Some(String::from_str("Real")),
        Expr::Identifier(n) => match lookup_type(decls, n) {
            Some(t) => Some(t),
            None => {
                let nc = str_to_chars(n.as_str());
                if has_dot(&nc) {
                    dotted_type_of(decls, schemas, &nc, Ghost(body))
                } else {
                    None
                }
            },
        },
        Expr::Field(recv, field) => match &**recv {
            Expr::Identifier(head) => {
                let mut d = str_to_chars(head.as_str());
                d.push('.');
                let fc = str_to_chars(field.as_str());
                append_chars(&mut d, &fc);
                proof {
                    reveal_strlit(".");
                    reveal_with_fuel(expr_view, 2);
                    assert(d@ =~= head@ + "."@ + field@);
                }
                dotted_type_of(decls, schemas, &d, Ghost(body))
            },
            _ => {
                proof {
                    reveal_with_fuel(expr_view, 2);
                }
                None
            },
        },
        Expr::Call(name, _) => match variant_enum(enums, name) {
            Some(en) => Some(en),
            None => match lookup_schema(schemas, name) {
                Some(_) => Some(name.clone()),
                None => None,
            },
        },
        Expr::Ternary(_, a, b) => match infer_expr_type(a, decls, schemas, enums, Ghost(body)) {
            Some(t) => Some(t),
            None => infer_expr_type(b, decls, schemas, enums, Ghost(body)),
        },
        Expr::Match(scr, arms) => {
            let ghost av = arms_view(arms@);
            let mut k: usize = arms.len();
            let mut found: Option<String> = None;
            // scan from the back, keeping the earliest arm that infers
            while k > 0
                invariant
                    0 <= k <= arms.len(),
                    av == arms_view(arms@),
                    *e == Expr::Match(*scr, *arms),
                    e@ matches ExprV::Match(_, a) && a == av,
                    forall|n: Seq<char>| #[trigger] decl_lookup(decls_view(decls@), n) == decl_type(body, n),
                    forall|a: int, b: int| 0 <= a < b < decls.len() ==> decls@[a].0@ != decls@[b].0@,
                    opt_str_view(found) == infer_arms(av, body, sv, ev, k as nat),
                    sv == schemas_view(schemas@),
                    ev == enums_view(enums@),
                decreases k,
            {
                proof {
                    assert(decreases_to!(*e => e->Match_1));
                    assert(decreases_to!(e->Match_1 => arms@[k - 1]));
                    assert(decreases_to!(arms@[k - 1] => arms@[k - 1].body));
                }
                match infer_expr_type(&arms[k - 1].body, decls, schemas, enums, Ghost(body)) {
                    Some(t) => {
                        found = Some(t);
                    },
                    None => {},
                }
                k -= 1;
            }
            found
        },
        Expr::Binary(op, l, r) => match op {
            BinOp::Lt | BinOp::Le | BinOp::Gt | BinOp::Ge | BinOp::Eq | BinOp::Neq | BinOp::And | BinOp::Or
            | BinOp::Implies => Some(String::from_str("Bool")),
            BinOp::Add | BinOp::Sub | BinOp::Mul | BinOp::Div => match infer_expr_type(l, decls, schemas, enums, Ghost(body)) {
                Some(t) => Some(t),
                None => infer_expr_type(r, decls, schemas, enums, Ghost(body)),
            },
            BinOp::Concat => Some(String::from_str("String")),
            BinOp::UserOp(_) => None,
        },
        Expr::Not(_) => Some(String::from_str("Bool")),
        Expr::Cardinality(_) => Some(String::from_str("Int")),
        _ => None,
    }
}


proof fn lemma_queue_push(prev: Seq<BodyItemV>, next: Seq<BodyItemV>, qv: Seq<Seq<char>>, name: Seq<char>, m: BodyItemV)
    requires
        forall|n: Seq<char>| #[trigger] qv.contains(n) <==> declares_member(prev, n),
        next == prev.push(m),
        is_member_named(m, name),
        m matches BodyItemV::Membership { .. },
    ensures
        forall|n: Seq<char>| #[trigger] qv.push(name).contains(n) <==> declares_member(next, n),
{
    assert forall|n: Seq<char>| #[trigger] qv.push(name).contains(n) <==> declares_member(next, n) by {
        lemma_push_contains(qv, name, n);
        if declares_member(next, n) {
            let k = choose|k: int| 0 <= k < next.len() && is_member_named(#[trigger] next[k], n);
            if k < prev.len() {
                assert(prev[k] == next[k]);
            }
        }
        if declares_member(prev, n) {
            let k = choose|k: int| 0 <= k < prev.len() && is_member_named(#[trigger] prev[k], n);
            assert(next[k] == prev[k]);
        }
        assert(next[prev.len() as int] == m);
    }
}

/// The declaration a body item implies; see `lhs_candidate`.
fn lhs_candidate_of(
    item: &BodyItem,
    decls: &Vec<(String, String)>,
    schemas: &Vec<SchemaDecl>,
    enums: &Vec<EnumDecl>,
    Ghost(body): Ghost<Seq<BodyItemV>>,
) -> (r: Option<(String, String)>)
    requires
        forall|n: Seq<char>| #[trigger] decl_lookup(decls_view(decls@), n) == decl_type(body, n),
        forall|a: int, b: int| 0 <= a < b < decls.len() ==> decls@[a].0@ != decls@[b].0@,
    ensures
        match r {
            Some((n, t)) => lhs_candidate(item@, body, schemas_view(schemas@), enums_view(enums@)) == Some((n@, t@)),
            None => lhs_candidate(item@, body, schemas_view(schemas@), enums_view(enums@)) is None,
        },
{
    proof {
        reveal_with_fuel(expr_view, 2);
    }
    if let BodyItem::Constraint(Expr::Binary(BinOp::Eq, l, r)) = item {
        if let Expr::Identifier(name) = &**l {
            let nc = str_to_chars(name.as_str());
            if !has_dot(&nc) && lookup_type(decls, name).is_none() && lookup_schema(schemas, name).is_none() {
                match infer_def(r, decls, schemas, enums, Ghost(body)) {
                    Some(t) => {
                        return Some((name.clone(), t));
                    },
                    None => {},
                }
            }
        }
    }
    None
}

/// The type a definition gives its name; see `infer_def_type`.
fn infer_def(
    e: &Expr,
    decls: &Vec<(String, String)>,
    schemas: &Vec<SchemaDecl>,
    enums: &Vec<EnumDecl>,
    Ghost(body): Ghost<Seq<BodyItemV>>,
) -> (r: Option<String>)
    requires
        forall|n: Seq<char>| #[trigger] decl_lookup(decls_view(decls@), n) == decl_type(body, n),
        forall|a: int, b: int| 0 <= a < b < decls.len() ==> decls@[a].0@ != decls@[b].0@,
    ensures
        opt_str_view(r) == infer_def_type(e@, body, schemas_view(schemas@), enums_view(enums@)),
{
    match e {
        Expr::Int(_) | Expr::Bool(_) | Expr::Str(_) | Expr::Real(_) => None,
        _ => infer_expr_type(e, decls, schemas, enums, Ghost(body)),
    }
}

/// `s` with the declarations its definitions imply; see `lhs_schema`.
fn lhs_schema_of(s: &SchemaDecl, schemas: &Vec<SchemaDecl>, enums: &Vec<EnumDecl>) -> (r: SchemaDecl)
    requires
        lhs_fits(s@, schemas_view(schemas@), enums_view(enums@)),
    ensures
        r@ == lhs_schema(s@, schemas_view(schemas@), enums_view(enums@)),
    decreases s,
{
    proof {
        lemma_schema_lists(*s);
    }
    let ghost sv = schemas_view(schemas@);
    let ghost ev = enums_view(enums@);
    let ghost body = s@.body;
    let decls = declared_types(&s.body);
    let mut injected: Vec<BodyItem> = Vec::new();
    let mut queued: Vec<String> = Vec::new();
    let mut i: usize = 0;
    while i < s.body.len()
        invariant
            0 <= i <= s.body.len(),
            body == items_view(s.body@),
            sv == schemas_view(schemas@),
            ev == enums_view(enums@),
            forall|n: Seq<char>| #[trigger] decl_lookup(decls_view(decls@), n) == decl_type(body, n),
            forall|a: int, b: int| 0 <= a < b < decls.len() ==> decls@[a].0@ != decls@[b].0@,
            items_view(injected@) == lhs_decls(body, sv, ev, i as nat),
            forall|n: Seq<char>| #[trigger] strs_view(queued@).contains(n) <==> declares_member(items_view(injected@), n),
        decreases s.body.len() - i,
    {
        assert(body[i as int] == body_item_view(s.body@[i as int]));
        let ghost prev = items_view(injected@);
        match lhs_candidate_of(&s.body[i], &decls, schemas, enums, Ghost(body)) {
            Some((name, t)) => {
                if !strings_contain(&queued, &name) {
                    let ghost name_v = name@;
                    let ghost qv = strs_view(queued@);
                    injected.push(BodyItem::Membership { name: name.clone(), ty: t, pins: Pins::Empty });
                    queued.push(name);
                    proof {
                        assert(strs_view(queued@) =~= qv.push(name_v));
                        assert(items_view(injected@) =~= prev.push(items_view(injected@).last()));
                        lemma_queue_push(prev, items_view(injected@), qv, name_v, items_view(injected@).last());
                    }
                }
            },
            None => {},
        }
        i += 1;
    }
    let mut nb: Vec<BodyItem> = Vec::new();
    let mut j: usize = 0;
    while j < s.body.len()
        invariant
            0 <= j <= s.body.len(),
            body == items_view(s.body@),
            sv == schemas_view(schemas@),
            ev == enums_view(enums@),
            lhs_fits(s@, sv, ev),
            s@.body == body,
            nb.len() == j,
            forall|k: int| 0 <= k < j ==> #[trigger] body_item_view(nb@[k]) == lhs_sub_item(body[k], sv, ev),
        decreases s.body.len() - j,
    {
        assert(body[j as int] == body_item_view(s.body@[j as int]));
        let item = match &s.body[j] {
            BodyItem::SubclaimDecl(sub) => {
                proof {
                    assert(decreases_to!(*s => s.body));
                    assert(decreases_to!(s.body => s.body@[j as int]));
                    assert(decreases_to!(s.body@[j as int] => *sub));
                    assert(lhs_item_fits(body[j as int], sv, ev));
                }
                BodyItem::SubclaimDecl(lhs_schema_of(sub, schemas, enums))
            },
            other => clone_body_item(other),
        };
        nb.push(item);
        j += 1;
    }
    let ghost mapped = items_view(nb@);
    assert(items_view(injected@) == lhs_decls(body, sv, ev, body.len()));
    assert(mapped =~= lhs_sub_items(body, sv, ev));
    assert(injected.len() == 0 || s.param_count <= nb.len());
    splice_items(&mut nb, s.param_count, injected);
    let r = SchemaDecl {
        keyword: s.keyword,
        name: s.name.clone(),
        type_params: clone_strings(&s.type_params),
        param_count: s.param_count,
        external: s.external,
        body: nb,
        operators: clone_operators(&s.operators),
    };
    proof {
        lemma_schema_lists(r);
        assert(r@.type_params =~= s@.type_params);
        assert(body.len() == s.body.len());
        assert(r@.body == insert_items(lhs_sub_items(body, sv, ev), s.param_count as int, lhs_decls(body, sv, ev, body.len())));
        assert(r@.operators == s@.operators);
    }
    r
}

/// Declare, right after its parameters, each plain undeclared name that a
/// definition `name = expr` gives a type (see `infer_def_type`), in order
/// of first definition; then the same in each nested subclaim. Schemas
/// and enum variants are looked up in `schemas` and `enums`.
pub fn inject_lhs_eq_types(s: &mut SchemaDecl, schemas: &Vec<SchemaDecl>, enums: &Vec<EnumDecl>)
    requires
        lhs_fits(old(s)@, schemas_view(schemas@), enums_view(enums@)),
    ensures
        final(s)@ == lhs_schema(old(s)@, schemas_view(schemas@), enums_view(enums@)),
{
    let r = lhs_schema_of(s, schemas, enums);
    *s = r;
}

} // verus!
