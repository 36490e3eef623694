//! Preparing a claim for the kernel and shaping the SMT-LIB text that the
//! solver serialises: the single-writer rule for `effects`, the manifest
//! header, the fixed `Result` prelude, and the renaming of datatype
//! accessors so that each is unique within its datatype.
use vstd::prelude::*;
use vstd::string::StringExecFns;
use crate::ast::{
    strs_view,
    body_item_view, clone_schema, expr_view, items_view, lemma_list_views, lemma_schema_lists, BinOp, BinOpV, BodyItem,
    BodyItemV, Expr, ExprV, Pins, PinsV, SchemaDecl, SchemaDeclV,
};
use crate::program::{find_schema, Program};
use crate::lower::{declares, is_member_named, with_body};
use crate::text::{concat_str, decimal, str_is, usize_decimal};

verus! {

/// Why a claim cannot be emitted for the kernel.
#[derive(PartialEq, Debug)]
pub enum EmitError {
    UnknownClaim(String),
    /// `effects` has no writer, or more than one unconditional one.
    EffectsWriterCount { claim: String, count: usize },
    /// `effects` is constrained but not to a sequence literal.
    EffectsNotSeqLit { claim: String },
}

pub enum EmitErrorV {
    UnknownClaim(Seq<char>),
    EffectsWriterCount { claim: Seq<char>, count: nat },
    EffectsNotSeqLit { claim: Seq<char> },
}

impl View for EmitError {
    type V = EmitErrorV;

    open spec fn view(&self) -> EmitErrorV {
        match self {
            EmitError::UnknownClaim(n) => EmitErrorV::UnknownClaim(n@),
            EmitError::EffectsWriterCount { claim, count } => EmitErrorV::EffectsWriterCount {
                claim: claim@,
                count: *count as nat,
            },
            EmitError::EffectsNotSeqLit { claim } => EmitErrorV::EffectsNotSeqLit { claim: claim@ },
        }
    }
}

/// The text of an emit error.
pub open spec fn emit_error_text(e: EmitErrorV) -> Seq<char> {
    match e {
        EmitErrorV::UnknownClaim(n) => "unknown claim `"@ + n + "`"@,
        EmitErrorV::EffectsWriterCount { claim, count } => "schema `"@ + claim + "`: `effects` has "@ + decimal(count)
            + " SeqLit-equality constraints; exactly 1 required (sub-FSMs should write to per-concern Seq names and an assembly FSM should write `effects = ... ++ ...`)"@,
        EmitErrorV::EffectsNotSeqLit { claim } => "schema `"@ + claim
            + "`: `effects` is constrained but the RHS isn't a Seq literal after `++` flattening. The kernel requires a fully-pinned SeqLit."@,
    }
}

impl EmitError {
    /// The error's text; see `emit_error_text`.
    pub fn message(&self) -> (r: String)
        ensures
            r@ == emit_error_text(self@),
    {
        match self {
            EmitError::UnknownClaim(n) => {
                let a = concat_str(&String::from_str("unknown claim `"), n.as_str());
                concat_str(&a, "`")
            },
            EmitError::EffectsWriterCount { claim, count } => {
                let a = concat_str(&String::from_str("schema `"), claim.as_str());
                let b = concat_str(&a, "`: `effects` has ");
                let d = usize_decimal(*count);
                let c = concat_str(&b, d.as_str());
                concat_str(
                    &c,
                    " SeqLit-equality constraints; exactly 1 required (sub-FSMs should write to per-concern Seq names and an assembly FSM should write `effects = ... ++ ...`)",
                )
            },
            EmitError::EffectsNotSeqLit { claim } => {
                let a = concat_str(&String::from_str("schema `"), claim.as_str());
                concat_str(
                    &a,
                    "`: `effects` is constrained but the RHS isn't a Seq literal after `++` flattening. The kernel requires a fully-pinned SeqLit.",
                )
            },
        }
    }
}

/// The default bound on the number of effects per tick.
pub const DEFAULT_MAX_EFFECTS: usize = 16;

/// The `Result` datatype and the `last_results` array, declared by hand:
/// the solver omits them when nothing constrains them, and the kernel
/// always uses them.
pub open spec fn result_prelude() -> Seq<char> {
    "(declare-datatypes ((Result 0)) (((NoResult) (IntResult (IntResult__f0 Int)) (StringResult (StringResult__f0 String)) (RealResult (RealResult__f0 Real)) (EofResult) (ErrorResult (ErrorResult__f0 String)))))\n(declare-fun last_results () (Array Int Result))\n"@
}

/// See `result_prelude`.
pub fn result_and_last_results_decls() -> (r: String)
    ensures
        r@ == result_prelude(),
{
    String::from_str(
        "(declare-datatypes ((Result 0)) (((NoResult) (IntResult (IntResult__f0 Int)) (StringResult (StringResult__f0 String)) (RealResult (RealResult__f0 Real)) (EofResult) (ErrorResult (ErrorResult__f0 String)))))\n(declare-fun last_results () (Array Int Result))\n",
    )
}

/// `effects = ⟨xs⟩`: the length of the literal.
pub open spec fn effects_lit_len(item: BodyItemV) -> Option<nat> {
    match item {
        BodyItemV::Constraint(ExprV::Binary(BinOpV::Eq, l, r)) => match (*l, *r) {
            (ExprV::Identifier(n), ExprV::SeqLit(xs)) => if n == "effects"@ {
                Some(xs.len())
            } else {
                None
            },
            _ => None,
        },
        _ => None,
    }
}

/// The length of the first `effects = ⟨…⟩` literal of the body.
pub open spec fn effects_len_of(items: Seq<BodyItemV>) -> Option<nat>
    decreases items.len(),
{
    if items.len() == 0 {
        None
    } else {
        match effects_lit_len(items[0]) {
            Some(n) => Some(n),
            None => effects_len_of(items.drop_first()),
        }
    }
}

fn item_effects_len(item: &BodyItem) -> (r: Option<usize>)
    ensures
        match r {
            Some(n) => effects_lit_len(item@) == Some(n as nat),
            None => effects_lit_len(item@) is None,
        },
{
    proof {
        reveal_with_fuel(expr_view, 3);
    }
    if let BodyItem::Constraint(Expr::Binary(BinOp::Eq, l, r)) = item {
        proof {
            lemma_list_views(**r);
        }
        if let (Expr::Identifier(n), Expr::SeqLit(xs)) = (&**l, &**r) {
            if str_is(n, "effects") {
                return Some(xs.len());
            }
        }
    }
    None
}

/// The length of the sequence literal that `effects` is set to; see
/// `effects_len_of`.
pub fn effects_seqlit_length(schema: &SchemaDecl) -> (r: Option<usize>)
    ensures
        match r {
            Some(n) => effects_len_of(schema@.body) == Some(n as nat),
            None => effects_len_of(schema@.body) is None,
        },
{
    proof {
        lemma_schema_lists(*schema);
    }
    let ghost iv = items_view(schema.body@);
    let mut i: usize = 0;
    assert(iv.skip(0) =~= iv);
    while i < schema.body.len()
        invariant
            0 <= i <= schema.body.len(),
            iv == items_view(schema.body@),
            iv == schema@.body,
            effects_len_of(iv) == effects_len_of(iv.skip(i as int)),
        decreases schema.body.len() - i,
    {
        assert(iv.skip(i as int)[0] == body_item_view(schema.body@[i as int]));
        assert(iv.skip(i as int).drop_first() =~= iv.skip(i + 1));
        match item_effects_len(&schema.body[i]) {
            Some(n) => {
                return Some(n);
            },
            None => {},
        }
        i += 1;
    }
    None
}

/// Does a membership of the schema declare `last_results`?
pub fn has_last_results_decl(schema: &SchemaDecl) -> (r: bool)
    ensures
        r == declares(schema@.body, "last_results"@),
{
    proof {
        lemma_schema_lists(*schema);
    }
    let ghost iv = items_view(schema.body@);
    let mut i: usize = 0;
    while i < schema.body.len()
        invariant
            0 <= i <= schema.body.len(),
            iv == items_view(schema.body@),
            iv == schema@.body,
            forall|k: int| 0 <= k < i ==> !is_member_named(#[trigger] iv[k], "last_results"@),
        decreases schema.body.len() - i,
    {
        assert(iv[i as int] == body_item_view(schema.body@[i as int]));
        if let BodyItem::Membership { name, .. } = &schema.body[i] {
            if str_is(name, "last_results") {
                return true;
            }
        }
        i += 1;
    }
    false
}


// ───────────────────────────── the writers of `effects` ─────────────────────────────

/// `effects = …` (unconditional).
pub open spec fn writes_effects(e: ExprV) -> bool {
    match e {
        ExprV::Binary(BinOpV::Eq, l, _) => *l == ExprV::Identifier("effects"@),
        _ => false,
    }
}

/// `cond ⇒ effects = …`.
pub open spec fn guard_writes_effects(e: ExprV) -> bool {
    match e {
        ExprV::Binary(BinOpV::Implies, _, c) => writes_effects(*c),
        _ => false,
    }
}

/// The number of unconditional writers of `effects` among the first `n` items.
pub open spec fn unguarded_writers(items: Seq<BodyItemV>, n: nat) -> nat
    decreases n,
{
    if n == 0 || n > items.len() {
        0
    } else {
        unguarded_writers(items, (n - 1) as nat) + match items[n - 1] {
            BodyItemV::Constraint(e) => if writes_effects(e) { 1nat } else { 0nat },
            _ => 0nat,
        }
    }
}

/// The number of writers of `effects`, guarded or not, among the first `n`
/// items.
pub open spec fn all_writers(items: Seq<BodyItemV>, n: nat) -> nat
    decreases n,
{
    if n == 0 || n > items.len() {
        0
    } else {
        all_writers(items, (n - 1) as nat) + match items[n - 1] {
            BodyItemV::Constraint(e) => if writes_effects(e) || guard_writes_effects(e) { 1nat } else { 0nat },
            _ => 0nat,
        }
    }
}

fn item_writer_kind(item: &BodyItem) -> (r: (bool, bool))
    ensures
        r.0 == (item@ matches BodyItemV::Constraint(e) && writes_effects(e)),
        r.1 == (item@ matches BodyItemV::Constraint(e) && (writes_effects(e) || guard_writes_effects(e))),
{
    proof {
        reveal_with_fuel(expr_view, 3);
    }
    if let BodyItem::Constraint(e) = item {
        if let Expr::Binary(BinOp::Eq, l, _) = e {
            if let Expr::Identifier(n) = &**l {
                if str_is(n, "effects") {
                    return (true, true);
                }
            }
        } else if let Expr::Binary(BinOp::Implies, _, c) = e {
            if let Expr::Binary(BinOp::Eq, l, _) = &**c {
                if let Expr::Identifier(n) = &**l {
                    if str_is(n, "effects") {
                        return (false, true);
                    }
                }
            }
        }
    }
    (false, false)
}

/// At most one unconditional `effects = …`, and at least one writer of
/// `effects`, guarded or not; otherwise the error gives the number of
/// writers.
pub fn validate_effects_single_writer(schema: &SchemaDecl) -> (r: Result<(), EmitError>)
    ensures
        ({
            let b = schema@.body;
            let u = unguarded_writers(b, b.len());
            let a = all_writers(b, b.len());
            match r {
                Ok(()) => u <= 1 && a > 0,
                Err(e) => (u > 1 || a == 0) && e@ == EmitErrorV::EffectsWriterCount { claim: schema@.name, count: a },
            }
        }),
{
    proof {
        lemma_schema_lists(*schema);
    }
    let ghost b = schema@.body;
    let mut unguarded: usize = 0;
    let mut any_writer: usize = 0;
    let mut i: usize = 0;
    while i < schema.body.len()
        invariant
            0 <= i <= schema.body.len(),
            b == items_view(schema.body@),
            unguarded as nat == unguarded_writers(b, i as nat),
            any_writer as nat == all_writers(b, i as nat),
            unguarded <= i,
            any_writer <= i,
        decreases schema.body.len() - i,
    {
        assert(b[i as int] == body_item_view(schema.body@[i as int]));
        let (u, a) = item_writer_kind(&schema.body[i]);
        if u {
            unguarded += 1;
        }
        if a {
            any_writer += 1;
        }
        i += 1;
    }
    if unguarded > 1 || any_writer == 0 {
        return Err(EmitError::EffectsWriterCount { claim: schema.name.clone(), count: any_writer });
    }
    Ok(())
}

/// The claim named `claim_name`, checked for a single writer of `effects`
/// and, when it does not declare `last_results`, with
/// `last_results ∈ Seq(Result)` appended so that the solver declares it.
pub fn prepare_kernel_schema(rt: &Program, claim_name: &str) -> (r: Result<SchemaDecl, EmitError>)
    ensures
        match find_schema(rt.schemas_v(), claim_name@) {
            None => r matches Err(e) && e@ == EmitErrorV::UnknownClaim(claim_name@),
            Some(s) => {
                let b = s.body;
                let u = unguarded_writers(b, b.len());
                let a = all_writers(b, b.len());
                if u > 1 || a == 0 {
                    r matches Err(e) && e@ == EmitErrorV::EffectsWriterCount { claim: s.name, count: a }
                } else if declares(b, "last_results"@) {
                    r matches Ok(t) && t@ == s
                } else {
                    r matches Ok(t) && t@ == with_body(
                        s,
                        b.push(BodyItemV::Membership { name: "last_results"@, ty: "Seq(Result)"@, pins: PinsV::Empty }),
                    )
                }
            },
        },
{
    let name = String::from_str(claim_name);
    let schema = match rt.get_schema(&name) {
        Some(s) => s,
        None => {
            return Err(EmitError::UnknownClaim(name));
        },
    };
    match validate_effects_single_writer(schema) {
        Err(e) => {
            return Err(e);
        },
        Ok(()) => {},
    }
    let mut out = clone_schema(schema);
    if !has_last_results_decl(schema) {
        let ghost before = out@;
        proof {
            lemma_schema_lists(out);
        }
        out.body.push(
            BodyItem::Membership {
                name: String::from_str("last_results"),
                ty: String::from_str("Seq(Result)"),
                pins: Pins::Empty,
            },
        );
        proof {
            lemma_schema_lists(out);
            assert(out@.body =~= before.body.push(
                BodyItemV::Membership { name: "last_results"@, ty: "Seq(Result)"@, pins: PinsV::Empty },
            ));
        }
    }
    Ok(out)
}

// ───────────────────────────── text assembly ─────────────────────────────

/// `p` occurs in `s`.
pub open spec fn has_substring(s: Seq<char>, p: Seq<char>) -> bool {
    exists|i: int| 0 <= i && i + p.len() <= s.len() && #[trigger] s.subrange(i, i + p.len()) == p
}

/// Does `p` occur in `s` at `i`?
fn occurs_at(s: &Vec<char>, p: &Vec<char>, i: usize) -> (r: bool)
    requires
        i + p.len() <= s.len(),
    ensures
        r == (s@.subrange(i as int, i + p.len()) == p@),
{
    let mut k: usize = 0;
    while k < p.len()
        invariant
            0 <= k <= p.len(),
            i + p.len() <= s.len(),
            forall|j: int| 0 <= j < k ==> s@[i + j] == p@[j],
        decreases p.len() - k,
    {
        if s[i + k] != p[k] {
            assert(s@.subrange(i as int, i + p.len())[k as int] != p@[k as int]);
            return false;
        }
        k += 1;
    }
    assert(s@.subrange(i as int, i + p.len()) =~= p@);
    true
}

/// The first position at or after `from` where `p` occurs in `s`.
pub open spec fn first_occ(s: Seq<char>, p: Seq<char>, from: int) -> Option<int>
    decreases s.len() + 1 - from,
{
    if from < 0 || from + p.len() > s.len() {
        None
    } else if s.subrange(from, from + p.len()) == p {
        Some(from)
    } else {
        first_occ(s, p, from + 1)
    }
}

/// The first position of `p` in `s` at or after `from`; see `first_occ`.
fn find_from(s: &Vec<char>, p: &Vec<char>, from: usize) -> (r: Option<usize>)
    ensures
        match r {
            Some(i) => first_occ(s@, p@, from as int) == Some(i as int) && from <= i && i + p@.len() <= s@.len() && s@.subrange(
                i as int,
                i + p@.len(),
            ) == p@,
            None => first_occ(s@, p@, from as int) is None && forall|j: int|
                from <= j && j + p@.len() <= s@.len() ==> #[trigger] s@.subrange(j, j + p@.len()) != p@,
        },
{
    if p.len() > s.len() {
        return None;
    }
    let last = s.len() - p.len();
    if from > last {
        return None;
    }
    let mut i: usize = from;
    while i <= last
        invariant
            p.len() <= s.len(),
            last == s.len() - p.len(),
            from <= i <= last + 1,
            first_occ(s@, p@, from as int) == first_occ(s@, p@, i as int),
            forall|j: int| from <= j < i ==> #[trigger] s@.subrange(j, j + p@.len()) != p@,
        decreases last + 1 - i,
    {
        if occurs_at(s, p, i) {
            return Some(i);
        }
        if i == last {
            assert(first_occ(s@, p@, i + 1) is None);
            return None;
        }
        i += 1;
    }
    None
}

/// `s`, preceded by a declaration of `is_first_tick` when it does not
/// mention it.
pub open spec fn with_first_tick_decl(s: Seq<char>) -> Seq<char> {
    if has_substring(s, "is_first_tick"@) {
        s
    } else {
        "(declare-fun is_first_tick () Bool)\n"@ + s
    }
}

/// See `with_first_tick_decl`.
pub fn ensure_is_first_tick_decl(s: &str) -> (r: String)
    ensures
        r@ == with_first_tick_decl(s@),
{
    let v = crate::text::str_to_chars(s);
    let p = crate::text::str_to_chars("is_first_tick");
    match find_from(&v, &p, 0) {
        Some(i) => {
            assert(v@.subrange(i as int, i + p@.len()) == p@);
            String::from_str(s)
        },
        None => {
            assert(!has_substring(v@, p@));
            let mut out = String::from_str("(declare-fun is_first_tick () Bool)\n");
            out.append(s);
            out
        },
    }
}

/// `n:t` for each state field, separated by single spaces.
pub open spec fn fields_text(fields: Seq<(Seq<char>, Seq<char>)>) -> Seq<char>
    decreases fields.len(),
{
    if fields.len() == 0 {
        Seq::empty()
    } else if fields.len() == 1 {
        fields[0].0 + ":"@ + fields[0].1
    } else {
        fields_text(fields.drop_last()) + " "@ + fields.last().0 + ":"@ + fields.last().1
    }
}

pub open spec fn pairs_of(v: Seq<(String, String)>) -> Seq<(Seq<char>, Seq<char>)> {
    Seq::new(v.len(), |i: int| (v[i].0@, v[i].1@))
}

/// The manifest header the kernel reads.
pub open spec fn manifest_text(fields: Seq<(Seq<char>, Seq<char>)>, max_effects: nat) -> Seq<char> {
    ";; manifest: state-fields = "@ + fields_text(fields) + "\n;; manifest: effects-name = effects\n;; manifest: effect-enum-name = Effect\n;; manifest: result-enum-name = Result\n;; manifest: max-effects = "@
        + decimal(max_effects) + "\n"@
}

/// See `manifest_text`.
pub fn build_manifest(state_fields: &Vec<(String, String)>, max_effects: usize) -> (r: String)
    ensures
        r@ == manifest_text(pairs_of(state_fields@), max_effects as nat),
{
    let ghost fv = pairs_of(state_fields@);
    let mut fields = String::new();
    let mut i: usize = 0;
    while i < state_fields.len()
        invariant
            0 <= i <= state_fields.len(),
            fv == pairs_of(state_fields@),
            fields@ == fields_text(fv.take(i as int)),
        decreases state_fields.len() - i,
    {
        assert(fv.take(i + 1).drop_last() =~= fv.take(i as int));
        if i > 0 {
            fields.append(" ");
        }
        fields.append(state_fields[i].0.as_str());
        fields.append(":");
        fields.append(state_fields[i].1.as_str());
        proof {
            reveal_strlit(" ");
            reveal_strlit(":");
            if i == 0 {
                assert(fields@ =~= fields_text(fv.take(1)));
            } else {
                assert(fields@ =~= fields_text(fv.take(i + 1)));
            }
        }
        i += 1;
    }
    assert(fv.take(state_fields.len() as int) =~= fv);
    let mut out = String::from_str(";; manifest: state-fields = ");
    out.append(fields.as_str());
    out.append(
        "\n;; manifest: effects-name = effects\n;; manifest: effect-enum-name = Effect\n;; manifest: result-enum-name = Result\n;; manifest: max-effects = ",
    );
    let d = usize_decimal(max_effects);
    out.append(d.as_str());
    out.append("\n");
    out
}


// ───────────────────────────── s-expressions ─────────────────────────────

/// An s-expression of the solver's output: an atom or a list.
#[derive(PartialEq, Debug)]
pub enum Sexpr {
    Atom(String),
    List(Vec<Sexpr>),
}

pub enum SexprV {
    Atom(Seq<char>),
    List(Seq<SexprV>),
}

pub open spec fn sexpr_view(e: Sexpr) -> SexprV
    decreases e,
{
    match e {
        Sexpr::Atom(s) => SexprV::Atom(s@),
        Sexpr::List(xs) => SexprV::List(Seq::new(xs.len() as nat, |i: int| if 0 <= i < xs.len() { sexpr_view(xs@[i]) } else { SexprV::Atom(Seq::empty()) })),
    }
}

pub open spec fn sexprs_view(v: Seq<Sexpr>) -> Seq<SexprV> {
    Seq::new(v.len(), |i: int| sexpr_view(v[i]))
}

impl View for Sexpr {
    type V = SexprV;

    open spec fn view(&self) -> SexprV {
        sexpr_view(*self)
    }
}

pub proof fn lemma_sexpr_list(e: Sexpr)
    ensures
        e matches Sexpr::List(xs) ==> sexpr_view(e) == SexprV::List(sexprs_view(xs@)),
{
    if let Sexpr::List(xs) = e {
        assert(sexpr_view(e)->List_0 =~= sexprs_view(xs@));
    }
}

/// Unicode white space, as `char::is_whitespace` has it.
pub open spec fn is_ws(c: char) -> bool {
    ||| 0x9 <= (c as u32) <= 0xD
    ||| c == ' '
    ||| c == '\u{85}'
    ||| c == '\u{A0}'
    ||| c == '\u{1680}'
    ||| 0x2000 <= (c as u32) <= 0x200A
    ||| c == '\u{2028}'
    ||| c == '\u{2029}'
    ||| c == '\u{202F}'
    ||| c == '\u{205F}'
    ||| c == '\u{3000}'
}

pub open spec fn trim_start(s: Seq<char>) -> Seq<char>
    decreases s.len(),
{
    if s.len() > 0 && is_ws(s[0]) {
        trim_start(s.drop_first())
    } else {
        s
    }
}

pub open spec fn trim_end(s: Seq<char>) -> Seq<char>
    decreases s.len(),
{
    if s.len() > 0 && is_ws(s.last()) {
        trim_end(s.drop_last())
    } else {
        s
    }
}

/// `s` without white space at either end.
pub open spec fn trim(s: Seq<char>) -> Seq<char> {
    trim_end(trim_start(s))
}

fn is_ws_exec(c: char) -> (r: bool)
    ensures
        r == is_ws(c),
{
    let u = c as u32;
    assert(u == c as u32);
    (0x9 <= u && u <= 0xD) || c == ' ' || c == '\u{85}' || c == '\u{A0}' || c == '\u{1680}' || (0x2000 <= u && u
        <= 0x200A) || c == '\u{2028}' || c == '\u{2029}' || c == '\u{202F}' || c == '\u{205F}' || c == '\u{3000}'
}

/// See `trim`.
#[verifier::rlimit(40)]
fn trim_chars(v: &Vec<char>) -> (r: Vec<char>)
    ensures
        r@ == trim(v@),
{
    let mut a: usize = 0;
    assert(v@.skip(0) =~= v@);
    while a < v.len() && is_ws_exec(v[a])
        invariant
            0 <= a <= v.len(),
            trim_start(v@) == trim_start(v@.skip(a as int)),
        decreases v.len() - a,
    {
        assert(v@.skip(a as int).drop_first() =~= v@.skip(a + 1));
        a += 1;
    }
    let ghost t = v@.skip(a as int);
    assert(trim_start(v@) == t);
    let mut b: usize = v.len();
    assert(t.take(t.len() as int) =~= t);
    while b > a && is_ws_exec(v[b - 1])
        invariant
            a <= b <= v.len(),
            t == v@.skip(a as int),
            trim_end(t) == trim_end(t.take(b - a)),
        decreases b,
    {
        assert(t.take(b - a).drop_last() =~= t.take(b - a - 1));
        assert(t.take(b - a).last() == v@[b - 1]);
        b -= 1;
    }
    let r = crate::text::slice_chars(v, a, b);
    assert(r@ =~= t.take(b - a));
    r
}

/// The tokenizer's state after one more character: a parenthesis or
/// white space ends the pending atom (trimmed, and kept when not empty);
/// a parenthesis is a token of its own.
pub open spec fn tok_step(st: (Seq<Seq<char>>, Seq<char>), c: char) -> (Seq<Seq<char>>, Seq<char>) {
    let flushed = if trim(st.1).len() > 0 { st.0.push(trim(st.1)) } else { st.0 };
    if c == '(' || c == ')' {
        (flushed.push(seq![c]), Seq::empty())
    } else if c == ' ' || c == '\t' || c == '\n' || c == '\r' {
        (flushed, Seq::empty())
    } else {
        (st.0, st.1.push(c))
    }
}

pub open spec fn tok_run(s: Seq<char>, n: nat) -> (Seq<Seq<char>>, Seq<char>)
    decreases n,
{
    if n == 0 || n > s.len() {
        (Seq::empty(), Seq::empty())
    } else {
        tok_step(tok_run(s, (n - 1) as nat), s[n - 1])
    }
}

/// The tokens of `s`: parentheses and trimmed atoms.
pub open spec fn tokens(s: Seq<char>) -> Seq<Seq<char>> {
    let st = tok_run(s, s.len());
    if trim(st.1).len() > 0 {
        st.0.push(trim(st.1))
    } else {
        st.0
    }
}

proof fn lemma_tok_count(s: Seq<char>, n: nat)
    requires
        n <= s.len(),
    ensures
        tok_run(s, n).0.len() + tok_run(s, n).1.len() <= n,
        tok_run(s, n).1.len() > 0 ==> tok_run(s, n).0.len() < n,
    decreases n,
{
    if n > 0 {
        lemma_tok_count(s, (n - 1) as nat);
        lemma_trim_len(tok_run(s, (n - 1) as nat).1);
    }
}

proof fn lemma_trim_len(s: Seq<char>)
    ensures
        trim(s).len() <= s.len(),
{
    lemma_trim_start_len(s);
    lemma_trim_end_len(trim_start(s));
}

proof fn lemma_trim_start_len(s: Seq<char>)
    ensures
        trim_start(s).len() <= s.len(),
    decreases s.len(),
{
    if s.len() > 0 && is_ws(s[0]) {
        lemma_trim_start_len(s.drop_first());
    }
}

proof fn lemma_trim_end_len(s: Seq<char>)
    ensures
        trim_end(s).len() <= s.len(),
    decreases s.len(),
{
    if s.len() > 0 && is_ws(s.last()) {
        lemma_trim_end_len(s.drop_last());
    }
}

/// Split the text into s-expression tokens; see `tokens`.
pub fn sexpr_tokens(s: &str) -> (r: Vec<String>)
    ensures
        strs_view(r@) == tokens(s@),
        r.len() <= s@.len(),
{
    let v = crate::text::str_to_chars(s);
    let mut out: Vec<String> = Vec::new();
    let mut cur: Vec<char> = Vec::new();
    let mut i: usize = 0;
    while i < v.len()
        invariant
            0 <= i <= v.len(),
            v@ == s@,
            (strs_view(out@), cur@) == tok_run(v@, i as nat),
        decreases v.len() - i,
    {
        let c = v[i];
        proof {
            lemma_tok_count(v@, i as nat);
        }
        if c == '(' || c == ')' || c == ' ' || c == '\t' || c == '\n' || c == '\r' {
            let t = trim_chars(&cur);
            if t.len() > 0 {
                out.push(crate::text::chars_to_string(&t));
            }
            cur = Vec::new();
            if c == '(' || c == ')' {
                let mut one = String::new();
                crate::text::push_char(&mut one, c);
                out.push(one);
            }
        } else {
            cur.push(c);
        }
        proof {
            assert(strs_view(out@) =~= tok_run(v@, (i + 1) as nat).0);
            assert(cur@ =~= tok_run(v@, (i + 1) as nat).1);
        }
        i += 1;
    }
    let t = trim_chars(&cur);
    if t.len() > 0 {
        out.push(crate::text::chars_to_string(&t));
    }
    proof {
        lemma_tok_count(v@, v@.len());
        lemma_trim_len(cur@);
        assert(strs_view(out@) =~= tokens(s@));
    }
    out
}


/// How many tokens are left from `i` on.
pub open spec fn left(toks: Seq<Seq<char>>, i: int) -> nat {
    if i <= toks.len() {
        (toks.len() - i) as nat
    } else {
        0
    }
}

/// The s-expression starting at token `start`, and the index after it. An
/// unbalanced list runs to the end of the tokens.
pub open spec fn parse_at(toks: Seq<Seq<char>>, start: int) -> (SexprV, int)
    decreases left(toks, start), 0nat,
{
    if start < 0 || start >= toks.len() {
        (SexprV::Atom(Seq::empty()), start + 1)
    } else if toks[start] != "("@ {
        (SexprV::Atom(toks[start]), start + 1)
    } else {
        parse_list(toks, start + 1, Seq::empty())
    }
}

/// The rest of a list whose items so far are `acc`, from token `i`.
pub open spec fn parse_list(toks: Seq<Seq<char>>, i: int, acc: Seq<SexprV>) -> (SexprV, int)
    decreases left(toks, i), 1nat,
{
    if 0 <= i < toks.len() && toks[i] != ")"@ {
        let (e, next) = parse_at(toks, i);
        if next <= i {
            (SexprV::List(acc), i + 1)
        } else {
            parse_list(toks, next, acc.push(e))
        }
    } else {
        (SexprV::List(acc), i + 1)
    }
}

proof fn lemma_parse_advances(toks: Seq<Seq<char>>, start: int)
    requires
        0 <= start < toks.len(),
    ensures
        parse_at(toks, start).1 > start,
        parse_at(toks, start).1 <= 2 * toks.len() + 1 - start,
    decreases left(toks, start), 0nat,
{
    if toks[start] == "("@ {
        lemma_list_advances(toks, start + 1, Seq::empty());
    }
}

proof fn lemma_list_advances(toks: Seq<Seq<char>>, i: int, acc: Seq<SexprV>)
    requires
        0 <= i <= toks.len(),
    ensures
        parse_list(toks, i, acc).1 > i,
        parse_list(toks, i, acc).1 <= 2 * toks.len() + 2 - i,
    decreases left(toks, i), 1nat,
{
    if i < toks.len() && toks[i] != ")"@ {
        lemma_parse_advances(toks, i);
        let (e, next) = parse_at(toks, i);
        if next <= toks.len() {
            lemma_list_advances(toks, next, acc.push(e));
        } else {
            assert(parse_list(toks, next, acc.push(e)).1 == next + 1);
        }
    }
}

/// Parse the s-expression starting at token `start`; see `parse_at`.
pub fn parse_sexpr(toks: &Vec<String>, start: usize) -> (r: (Sexpr, usize))
    requires
        start < toks.len(),
        2 * toks.len() + 2 <= usize::MAX,
    ensures
        (r.0@, r.1 as int) == parse_at(strs_view(toks@), start as int),
    decreases toks.len() - start,
{
    let ghost tv = strs_view(toks@);
    proof {
        lemma_parse_advances(tv, start as int);
    }
    if !str_is(&toks[start], "(") {
        return (Sexpr::Atom(toks[start].clone()), start + 1);
    }
    assert(tv[start as int] == "("@);
    let mut i = start + 1;
    let mut items: Vec<Sexpr> = Vec::new();
    assert(sexprs_view(items@) =~= Seq::<SexprV>::empty());
    while i < toks.len() && !str_is(&toks[i], ")")
        invariant
            start < i <= 2 * toks.len() + 1,
            2 * toks.len() + 2 <= usize::MAX,
            tv == strs_view(toks@),
            parse_at(tv, start as int) == parse_list(tv, i as int, sexprs_view(items@)),
        decreases 2 * toks.len() + 2 - i,
    {
        proof {
            lemma_parse_advances(tv, i as int);
        }
        let (e, next) = parse_sexpr(toks, i);
        let ghost before = sexprs_view(items@);
        items.push(e);
        assert(sexprs_view(items@) =~= before.push(e@));
        i = next;
    }
    let r = Sexpr::List(items);
    proof {
        lemma_sexpr_list(r);
    }
    (r, i + 1)
}

/// Prefix each accessor of a variant `(V (a T) …)` with `V__`.
pub open spec fn rename_one(e: SexprV) -> SexprV {
    match e {
        SexprV::Atom(_) => e,
        SexprV::List(parts) => SexprV::List(
            Seq::new(
                parts.len(),
                |i: int|
                    if i >= 1 && parts[0] is Atom && parts[i] is List && parts[i]->List_0.len() >= 1 && parts[i]->List_0[0] is Atom {
                        SexprV::List(
                            parts[i]->List_0.update(0, SexprV::Atom(parts[0]->Atom_0 + "__"@ + parts[i]->List_0[0]->Atom_0)),
                        )
                    } else {
                        parts[i]
                    },
            ),
        ),
    }
}

/// `rename_one` over each variant of a block.
pub open spec fn rename_block(e: SexprV) -> SexprV {
    match e {
        SexprV::Atom(_) => e,
        SexprV::List(vs) => SexprV::List(Seq::new(vs.len(), |i: int| rename_one(vs[i]))),
    }
}

/// Rename the accessors of every `(declare-datatypes sorts blocks)` form
/// of the tree; other lists are searched through.
pub open spec fn rename_dt(e: SexprV) -> SexprV
    decreases e,
{
    match e {
        SexprV::Atom(_) => e,
        SexprV::List(items) => if items.len() == 3 && items[0] == SexprV::Atom("declare-datatypes"@) {
            match items[2] {
                SexprV::List(bs) => SexprV::List(seq![items[0], items[1], SexprV::List(Seq::new(bs.len(), |i: int| rename_block(bs[i])))]),
                _ => e,
            }
        } else {
            SexprV::List(Seq::new(items.len(), |i: int| if 0 <= i < items.len() { rename_dt(items[i]) } else { items[i] }))
        },
    }
}

/// The text of an s-expression: atoms as they are, lists in parentheses
/// with their items separated by single spaces.
pub open spec fn sexpr_text(e: SexprV) -> Seq<char>
    decreases e, 0nat, 0nat,
{
    match e {
        SexprV::Atom(s) => s,
        SexprV::List(items) => "("@ + items_text(items, items.len()) + ")"@,
    }
}

/// The first `n` items, separated by single spaces.
pub open spec fn items_text(items: Seq<SexprV>, n: nat) -> Seq<char>
    decreases items, 1nat, n,
{
    if n == 0 || n > items.len() {
        Seq::empty()
    } else if n == 1 {
        sexpr_text(items[0])
    } else {
        items_text(items, (n - 1) as nat) + " "@ + sexpr_text(items[n - 1])
    }
}

fn clone_sexpr(e: &Sexpr) -> (r: Sexpr)
    ensures
        r@ == e@,
    decreases e,
{
    match e {
        Sexpr::Atom(s) => Sexpr::Atom(s.clone()),
        Sexpr::List(xs) => {
            let mut out: Vec<Sexpr> = Vec::new();
            let mut i: usize = 0;
            while i < xs.len()
                invariant
                    0 <= i <= xs.len(),
                    *e == Sexpr::List(*xs),
                    out.len() == i,
                    forall|k: int| 0 <= k < i ==> #[trigger] sexpr_view(out@[k]) == sexpr_view(xs@[k]),
                decreases xs.len() - i,
            {
                proof {
                    assert(decreases_to!(*e => e->List_0));
                    assert(decreases_to!(e->List_0 => xs@[i as int]));
                }
                out.push(clone_sexpr(&xs[i]));
                i += 1;
            }
            let r = Sexpr::List(out);
            proof {
                lemma_sexpr_list(r);
                lemma_sexpr_list(*e);
                assert(sexprs_view(out@) =~= sexprs_view(xs@));
            }
            r
        },
    }
}

/// See `rename_one`.
pub fn rename_one_variant(e: &Sexpr) -> (r: Sexpr)
    ensures
        r@ == rename_one(e@),
{
    proof {
        lemma_sexpr_list(*e);
    }
    match e {
        Sexpr::Atom(_) => clone_sexpr(e),
        Sexpr::List(parts) => {
            let ghost pv = sexprs_view(parts@);
            let mut out: Vec<Sexpr> = Vec::new();
            let mut i: usize = 0;
            while i < parts.len()
                invariant
                    0 <= i <= parts.len(),
                    pv == sexprs_view(parts@),
                    e@ == SexprV::List(pv),
                    out.len() == i,
                    forall|k: int| 0 <= k < i ==> #[trigger] sexpr_view(out@[k]) == rename_one(e@)->List_0[k],
                decreases parts.len() - i,
            {
                let mut done = false;
                if i >= 1 {
                    if let Sexpr::Atom(vname) = &parts[0] {
                        if let Sexpr::List(pair) = &parts[i] {
                            proof {
                                lemma_sexpr_list(parts@[i as int]);
                            }
                            if pair.len() >= 1 {
                                if let Sexpr::Atom(acc) = &pair[0] {
                                    let mut nm = vname.clone();
                                    nm.append("__");
                                    nm.append(acc.as_str());
                                    let mut np: Vec<Sexpr> = Vec::new();
                                    np.push(Sexpr::Atom(nm));
                                    let mut k: usize = 1;
                                    while k < pair.len()
                                        invariant
                                            1 <= k <= pair.len(),
                                            np.len() == k,
                                            sexpr_view(np@[0]) == SexprV::Atom(vname@ + "__"@ + acc@),
                                            forall|j: int| 1 <= j < k ==> #[trigger] sexpr_view(np@[j]) == sexpr_view(pair@[j]),
                                        decreases pair.len() - k,
                                    {
                                        np.push(clone_sexpr(&pair[k]));
                                        k += 1;
                                    }
                                    let item = Sexpr::List(np);
                                    proof {
                                        lemma_sexpr_list(item);
                                        assert(sexprs_view(np@) =~= sexprs_view(pair@).update(
                                            0,
                                            SexprV::Atom(vname@ + "__"@ + acc@),
                                        ));
                                    }
                                    out.push(item);
                                    done = true;
                                }
                            }
                        }
                    }
                }
                if !done {
                    proof {
                        if i >= 1 && parts@[0] is Atom && parts@[i as int] is List {
                            lemma_sexpr_list(parts@[i as int]);
                        }
                    }
                    out.push(clone_sexpr(&parts[i]));
                }
                i += 1;
            }
            let r = Sexpr::List(out);
            proof {
                lemma_sexpr_list(r);
                assert(sexprs_view(out@) =~= rename_one(e@)->List_0);
            }
            r
        },
    }
}

/// See `rename_block`.
pub fn rename_variant_block(e: &Sexpr) -> (r: Sexpr)
    ensures
        r@ == rename_block(e@),
{
    proof {
        lemma_sexpr_list(*e);
    }
    match e {
        Sexpr::Atom(_) => clone_sexpr(e),
        Sexpr::List(vs) => {
            let mut out: Vec<Sexpr> = Vec::new();
            let mut i: usize = 0;
            while i < vs.len()
                invariant
                    0 <= i <= vs.len(),
                    out.len() == i,
                    forall|k: int| 0 <= k < i ==> #[trigger] sexpr_view(out@[k]) == rename_one(sexpr_view(vs@[k])),
                decreases vs.len() - i,
            {
                out.push(rename_one_variant(&vs[i]));
                i += 1;
            }
            let r = Sexpr::List(out);
            proof {
                lemma_sexpr_list(r);
                assert(sexprs_view(out@) =~= rename_block(e@)->List_0);
            }
            r
        },
    }
}

/// See `rename_dt`.
pub fn rename_in_dt(e: &Sexpr) -> (r: Sexpr)
    ensures
        r@ == rename_dt(e@),
    decreases e,
{
    proof {
        lemma_sexpr_list(*e);
    }
    match e {
        Sexpr::Atom(_) => clone_sexpr(e),
        Sexpr::List(items) => {
            let ghost iv = sexprs_view(items@);
            if items.len() == 3 {
                if let Sexpr::Atom(head) = &items[0] {
                    if str_is(head, "declare-datatypes") {
                        assert(iv[0] == SexprV::Atom("declare-datatypes"@));
                        match &items[2] {
                            Sexpr::List(bs) => {
                                proof {
                                    lemma_sexpr_list(items@[2]);
                                }
                                let mut out: Vec<Sexpr> = Vec::new();
                                let mut i: usize = 0;
                                while i < bs.len()
                                    invariant
                                        0 <= i <= bs.len(),
                                        out.len() == i,
                                        forall|k: int| 0 <= k < i ==> #[trigger] sexpr_view(out@[k]) == rename_block(sexpr_view(bs@[k])),
                                    decreases bs.len() - i,
                                {
                                    out.push(rename_variant_block(&bs[i]));
                                    i += 1;
                                }
                                let inner = Sexpr::List(out);
                                let mut three: Vec<Sexpr> = Vec::new();
                                three.push(clone_sexpr(&items[0]));
                                three.push(clone_sexpr(&items[1]));
                                three.push(inner);
                                let r = Sexpr::List(three);
                                proof {
                                    lemma_sexpr_list(inner);
                                    lemma_sexpr_list(r);
                                    assert(sexprs_view(out@) =~= Seq::new(
                                        sexprs_view(bs@).len(),
                                        |k: int| rename_block(sexprs_view(bs@)[k]),
                                    ));
                                    assert(sexprs_view(three@) =~= rename_dt(e@)->List_0);
                                }
                                return r;
                            },
                            _ => {
                                return clone_sexpr(e);
                            },
                        }
                    }
                }
            }
            assert(!(iv.len() == 3 && iv[0] == SexprV::Atom("declare-datatypes"@))) by {
                if iv.len() == 3 && iv[0] == SexprV::Atom("declare-datatypes"@) {
                    assert(items@[0] is Atom);
                }
            }
            let mut out: Vec<Sexpr> = Vec::new();
            let mut i: usize = 0;
            while i < items.len()
                invariant
                    0 <= i <= items.len(),
                    *e == Sexpr::List(*items),
                    out.len() == i,
                    forall|k: int| 0 <= k < i ==> #[trigger] sexpr_view(out@[k]) == rename_dt(sexpr_view(items@[k])),
                decreases items.len() - i,
            {
                proof {
                    assert(decreases_to!(*e => e->List_0));
                    assert(decreases_to!(e->List_0 => items@[i as int]));
                }
                out.push(rename_in_dt(&items[i]));
                i += 1;
            }
            let r = Sexpr::List(out);
            proof {
                lemma_sexpr_list(r);
                assert(sexprs_view(out@) =~= rename_dt(e@)->List_0);
            }
            r
        },
    }
}

/// Append the text of `e` to `out`; see `sexpr_text`.
pub fn emit_sexpr(e: &Sexpr, out: &mut String)
    ensures
        final(out)@ == old(out)@ + sexpr_text(e@),
    decreases e,
{
    proof {
        lemma_sexpr_list(*e);
    }
    match e {
        Sexpr::Atom(s) => {
            out.append(s.as_str());
        },
        Sexpr::List(items) => {
            let ghost iv = sexprs_view(items@);
            let ghost start = out@;
            crate::text::push_char(out, '(');
            proof {
                reveal_strlit("(");
                assert(out@ =~= start + "("@ + items_text(iv, 0));
            }
            let mut i: usize = 0;
            while i < items.len()
                invariant
                    0 <= i <= items.len(),
                    *e == Sexpr::List(*items),
                    iv == sexprs_view(items@),
                    out@ == start + "("@ + items_text(iv, i as nat),
                decreases items.len() - i,
            {
                proof {
                    reveal_strlit("(");
                    reveal_strlit(" ");
                    assert(decreases_to!(*e => e->List_0));
                    assert(decreases_to!(e->List_0 => items@[i as int]));
                }
                if i > 0 {
                    crate::text::push_char(out, ' ');
                }
                emit_sexpr(&items[i], out);
                proof {
                    assert(out@ =~= start + "("@ + items_text(iv, (i + 1) as nat));
                }
                i += 1;
            }
            crate::text::push_char(out, ')');
            proof {
                reveal_strlit(")");
                reveal_strlit("(");
                assert(out@ =~= start + sexpr_text(e@));
            }
        },
    }
}


// ───────────────────────────── datatype accessors ─────────────────────────────

/// Where a datatype declaration starts.
pub open spec fn dd_marker() -> Seq<char> {
    "(declare-datatypes"@
}

/// The position after the parenthesis that closes the one open at depth
/// `depth` when scanning from `j`.
pub open spec fn close_of(s: Seq<char>, j: int, depth: int) -> Option<int>
    decreases s.len() - j,
{
    if j < 0 || j >= s.len() {
        None
    } else if s[j] == '(' {
        close_of(s, j + 1, depth + 1)
    } else if s[j] == ')' {
        if depth - 1 == 0 {
            Some(j + 1)
        } else {
            close_of(s, j + 1, depth - 1)
        }
    } else {
        close_of(s, j + 1, depth)
    }
}

/// The end of the first datatype declaration at or after `from`.
pub open spec fn find_dd(s: Seq<char>, from: int) -> Option<int> {
    match first_occ(s, dd_marker(), from) {
        None => None,
        Some(st) => close_of(s, st, 0),
    }
}

proof fn lemma_close_after(s: Seq<char>, j: int, depth: int)
    ensures
        close_of(s, j, depth) matches Some(e) ==> j < e <= s.len(),
    decreases s.len() - j,
{
    if 0 <= j < s.len() {
        if s[j] == '(' {
            lemma_close_after(s, j + 1, depth + 1);
        } else if s[j] == ')' {
            if depth - 1 != 0 {
                lemma_close_after(s, j + 1, depth - 1);
            }
        } else {
            lemma_close_after(s, j + 1, depth);
        }
    }
}

/// The end of the first `(declare-datatypes …)` form at or after `from`;
/// see `find_dd`.
pub fn find_declare_datatypes(v: &Vec<char>, from: usize) -> (r: Option<usize>)
    ensures
        match r {
            Some(e) => find_dd(v@, from as int) == Some(e as int),
            None => find_dd(v@, from as int) is None,
        },
{
    let marker = crate::text::str_to_chars("(declare-datatypes");
    let st = match find_from(v, &marker, from) {
        Some(st) => st,
        None => return None,
    };
    proof {
        reveal_strlit("(declare-datatypes");
        assert(v@[st as int] == v@.subrange(st as int, st + marker@.len())[0]);
        assert(marker@ == dd_marker());
    }
    let mut depth: usize = 0;
    let mut j: usize = st;
    while j < v.len()
        invariant
            st <= j <= v.len(),
            st < v.len(),
            v@[st as int] == '(',
            j == st ==> depth == 0,
            j > st ==> depth >= 1,
            depth <= j - st,
            close_of(v@, st as int, 0) == close_of(v@, j as int, depth as int),
            first_occ(v@, dd_marker(), from as int) == Some(st as int),
        decreases v.len() - j,
    {
        let c = v[j];
        assert(c == v@[j as int]);
        if c == '(' {
            depth += 1;
        } else if c == ')' {
            if depth == 1 {
                assert(close_of(v@, j as int, 1) == Some(j + 1));
                return Some(j + 1);
            }
            depth -= 1;
        }
        j += 1;
    }
    None
}

/// A datatype declaration with its accessors renamed: parsed, renamed
/// (see `rename_dt`) and printed again.
pub open spec fn rewrite_block(b: Seq<char>) -> Seq<char> {
    sexpr_text(rename_dt(parse_at(tokens(b), 0).0))
}

/// `s` from `i` with each datatype declaration rewritten.
pub open spec fn dedupe_from(s: Seq<char>, i: int) -> Seq<char>
    decreases s.len() - i,
{
    if i < 0 || i > s.len() {
        Seq::empty()
    } else {
        match find_dd(s, i) {
            Some(end) => if end <= i || end > s.len() {
                Seq::empty()
            } else {
                let st = first_occ(s, dd_marker(), i).unwrap();
                s.subrange(i, st) + rewrite_block(s.subrange(st, end)) + dedupe_from(s, end)
            },
            None => s.subrange(i, s.len() as int),
        }
    }
}

/// The text of the tree with its datatype accessors renamed.
pub fn rewrite_tree(e: &Sexpr) -> (r: String)
    ensures
        r@ == sexpr_text(rename_dt(e@)),
{
    let mut out = String::new();
    let t = rename_in_dt(e);
    emit_sexpr(&t, &mut out);
    assert(out@ =~= sexpr_text(rename_dt(e@)));
    out
}

/// See `rewrite_block`.
pub fn rewrite_datatype_accessors(block: &str) -> (r: String)
    requires
        tokens(block@).len() > 0,
        2 * block@.len() + 2 <= usize::MAX,
    ensures
        r@ == rewrite_block(block@),
{
    let toks = sexpr_tokens(block);
    let (tree, _) = parse_sexpr(&toks, 0);
    rewrite_tree(&tree)
}

proof fn lemma_tok_grows(s: Seq<char>, n: nat, m: nat)
    requires
        n <= m <= s.len(),
    ensures
        tok_run(s, n).0.len() <= tok_run(s, m).0.len(),
    decreases m - n,
{
    if n < m {
        lemma_tok_grows(s, n, (m - 1) as nat);
    }
}

/// A text that starts with `(` has a first token.
proof fn lemma_tokens_nonempty(s: Seq<char>)
    requires
        s.len() > 0,
        s[0] == '(',
    ensures
        tokens(s).len() > 0,
{
    assert(tok_run(s, 0) == (Seq::<Seq<char>>::empty(), Seq::<char>::empty()));
    assert(trim(Seq::<char>::empty()) =~= Seq::<char>::empty());
    assert(tok_run(s, 1).0.len() == 1);
    lemma_tok_grows(s, 1, s.len());
}

/// Rename the accessors of every `(declare-datatypes …)` form of the
/// solver's text to `<variant>__<accessor>`, so that each is unique within
/// its datatype; the rest of the text is copied; see `dedupe_from`.
pub fn dedupe_datatype_accessors(s: &str) -> (r: String)
    requires
        2 * s@.len() + 2 <= usize::MAX,
    ensures
        r@ == dedupe_from(s@, 0),
{
    let v = crate::text::str_to_chars(s);
    let marker = crate::text::str_to_chars("(declare-datatypes");
    let mut out = String::new();
    let mut i: usize = 0;
    while i <= v.len()
        invariant
            v@ == s@,
            marker@ == dd_marker(),
            2 * v.len() + 2 <= usize::MAX,
            i <= v.len(),
            out@ + dedupe_from(v@, i as int) == dedupe_from(v@, 0),
        decreases v.len() + 1 - i,
    {
        match find_declare_datatypes(&v, i) {
            Some(end) => {
                let st = match find_from(&v, &marker, i) {
                    Some(st) => st,
                    None => {
                        return out;
                    },
                };
                proof {
                    lemma_close_after(v@, st as int, 0);
                    reveal_strlit("(declare-datatypes");
                    assert(v@[st as int] == v@.subrange(st as int, st + marker@.len())[0]);
                }
                let pre = crate::text::slice_chars(&v, i, st);
                let pre_s = crate::text::chars_to_string(&pre);
                out.append(pre_s.as_str());
                let blk = crate::text::slice_chars(&v, st, end);
                let blk_s = crate::text::chars_to_string(&blk);
                proof {
                    lemma_tokens_nonempty(blk@);
                }
                let rw = rewrite_datatype_accessors(blk_s.as_str());
                out.append(rw.as_str());
                proof {
                    assert(first_occ(v@, dd_marker(), i as int) == Some(st as int));
                    assert(dedupe_from(v@, i as int) == v@.subrange(i as int, st as int) + rewrite_block(
                        v@.subrange(st as int, end as int),
                    ) + dedupe_from(v@, end as int));
                    assert(out@ + dedupe_from(v@, end as int) =~= dedupe_from(v@, 0));
                }
                i = end;
            },
            None => {
                let rest = crate::text::slice_chars(&v, i, v.len());
                let rest_s = crate::text::chars_to_string(&rest);
                out.append(rest_s.as_str());
                assert(out@ =~= dedupe_from(v@, 0));
                return out;
            },
        }
    }
    out
}

// ───────────────────────────── the kernel's text ─────────────────────────────

/// `(declare-fun _n () t)` for each state field.
pub open spec fn prev_state_decls(fields: Seq<(Seq<char>, Seq<char>)>) -> Seq<char>
    decreases fields.len(),
{
    if fields.len() == 0 {
        Seq::empty()
    } else {
        prev_state_decls(fields.drop_last()) + "(declare-fun _"@ + fields.last().0 + " () "@ + fields.last().1 + ")\n"@
    }
}

/// The text handed to the kernel for a prepared claim: the manifest, a
/// blank line, the previous-tick declarations of the state fields, the
/// `Result` prelude, the solver's assertions (accessors renamed, and
/// `is_first_tick` declared), and `effects__len` pinned when `effects` is a
/// literal.
pub open spec fn kernel_text(schema: SchemaDeclV, solver_text: Seq<char>, fields: Seq<(Seq<char>, Seq<char>)>) -> Seq<char> {
    manifest_text(fields, DEFAULT_MAX_EFFECTS as nat) + "\n"@ + prev_state_decls(fields) + result_prelude()
        + with_first_tick_decl(dedupe_from(solver_text, 0)) + match effects_len_of(schema.body) {
        Some(n) => "(assert (= effects__len "@ + decimal(n) + "))\n"@,
        None => Seq::empty(),
    }
}

/// See `kernel_text`.
pub fn assemble_kernel_smtlib(schema: &SchemaDecl, solver_text: &str, state_fields: &Vec<(String, String)>) -> (r: String)
    requires
        2 * solver_text@.len() + 2 <= usize::MAX,
    ensures
        r@ == kernel_text(schema@, solver_text@, pairs_of(state_fields@)),
{
    let body = dedupe_datatype_accessors(solver_text);
    let body = ensure_is_first_tick_decl(body.as_str());
    let ghost fv = pairs_of(state_fields@);
    let mut decls = String::new();
    let mut i: usize = 0;
    while i < state_fields.len()
        invariant
            0 <= i <= state_fields.len(),
            fv == pairs_of(state_fields@),
            decls@ == prev_state_decls(fv.take(i as int)),
        decreases state_fields.len() - i,
    {
        assert(fv.take(i + 1).drop_last() =~= fv.take(i as int));
        decls.append("(declare-fun _");
        decls.append(state_fields[i].0.as_str());
        decls.append(" () ");
        decls.append(state_fields[i].1.as_str());
        decls.append(")\n");
        assert(decls@ =~= prev_state_decls(fv.take(i + 1)));
        i += 1;
    }
    assert(fv.take(state_fields.len() as int) =~= fv);
    let mut out = build_manifest(state_fields, DEFAULT_MAX_EFFECTS);
    out.append("\n");
    out.append(decls.as_str());
    let prelude = result_and_last_results_decls();
    out.append(prelude.as_str());
    out.append(body.as_str());
    match effects_seqlit_length(schema) {
        Some(n) => {
            out.append("(assert (= effects__len ");
            let d = usize_decimal(n);
            out.append(d.as_str());
            out.append("))\n");
        },
        None => {},
    }
    out
}

} // verus!
