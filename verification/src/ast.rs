//! The abstract syntax of Evident programs,
//! with their mathematical views (strings as `Seq<char>`, vectors as `Seq`).
use vstd::prelude::*;
use crate::value::RealNum;

verus! {

/// Binary operators.
#[derive(PartialEq, Debug)]
pub enum BinOp {
    Add,
    Sub,
    Mul,
    Div,
    Eq,
    Neq,
    Lt,
    Le,
    Gt,
    Ge,
    And,
    Or,
    Implies,
    Concat,
    /// A user-defined infix operator (`a · b`), by its symbol.
    UserOp(String),
}

/// A `match` arm pattern: a constructor with optional payload binders, or `_`.
#[derive(PartialEq, Debug)]
pub enum MatchPattern {
    Ctor { name: String, binds: Vec<Option<String>> },
    Wildcard,
}

#[derive(PartialEq, Debug)]
pub struct MatchArm {
    pub pattern: MatchPattern,
    pub body: Box<Expr>,
}

/// Expressions. A real literal holds its value as a `RealNum`.
#[derive(PartialEq, Debug)]
pub enum Expr {
    Identifier(String),
    Int(i64),
    Real(RealNum),
    Bool(bool),
    Str(String),
    Binary(BinOp, Box<Expr>, Box<Expr>),
    Not(Box<Expr>),
    /// Forward difference `Δe`.
    Delta(Box<Expr>),
    Ternary(Box<Expr>, Box<Expr>, Box<Expr>),
    Call(String, Vec<Expr>),
    Field(Box<Expr>, String),
    Index(Box<Expr>, Box<Expr>),
    /// `#e`.
    Cardinality(Box<Expr>),
    SeqLit(Vec<Expr>),
    SetLit(Vec<Expr>),
    Tuple(Vec<Expr>),
    InExpr(Box<Expr>, Box<Expr>),
    /// `{lo..hi}`.
    Range(Box<Expr>, Box<Expr>),
    Forall(Vec<String>, Box<Expr>, Box<Expr>),
    Exists(Vec<String>, Box<Expr>, Box<Expr>),
    Match(Box<Expr>, Vec<MatchArm>),
    Matches(Box<Expr>, MatchPattern),
}

/// `slot ↦ value`.
#[derive(PartialEq, Debug)]
pub struct Mapping {
    pub slot: String,
    pub value: Expr,
}

#[derive(PartialEq, Debug)]
pub enum Pins {
    /// No pins.
    Empty,
    Named(Vec<Mapping>),
}

#[derive(PartialEq, Eq, Structural, Clone, Copy, Debug)]
pub enum Keyword {
    Schema,
    Claim,
    Type,
    Subclaim,
    Fsm,
}

/// A user-defined operator declared in a type's body.
#[derive(PartialEq, Debug)]
pub struct OperatorDecl {
    pub symbol: String,
    pub operands: Vec<String>,
    pub result: String,
    pub result_type: String,
    pub body: Vec<BodyItem>,
}

#[derive(PartialEq, Debug)]
pub enum BodyItem {
    /// `name ∈ ty (pins)`.
    Membership { name: String, ty: String, pins: Pins },
    Constraint(Expr),
    /// `..name(renames)`.
    Passthrough { name: String, renames: Vec<Mapping> },
    ClaimCall { name: String, mappings: Vec<Mapping> },
    SubclaimDecl(SchemaDecl),
}

#[derive(PartialEq, Debug)]
pub struct SchemaDecl {
    pub keyword: Keyword,
    pub name: String,
    pub type_params: Vec<String>,
    pub param_count: usize,
    pub external: bool,
    pub body: Vec<BodyItem>,
    pub operators: Vec<OperatorDecl>,
}

// ───────────────────────────── views ─────────────────────────────

pub enum BinOpV {
    Add,
    Sub,
    Mul,
    Div,
    Eq,
    Neq,
    Lt,
    Le,
    Gt,
    Ge,
    And,
    Or,
    Implies,
    Concat,
    UserOp(Seq<char>),
}

pub enum MatchPatternV {
    Ctor { name: Seq<char>, binds: Seq<Option<Seq<char>>> },
    Wildcard,
}

pub struct MatchArmV {
    pub pattern: MatchPatternV,
    pub body: ExprV,
}

pub enum ExprV {
    Identifier(Seq<char>),
    Int(i64),
    Real(RealNum),
    Bool(bool),
    Str(Seq<char>),
    Binary(BinOpV, Box<ExprV>, Box<ExprV>),
    Not(Box<ExprV>),
    Delta(Box<ExprV>),
    Ternary(Box<ExprV>, Box<ExprV>, Box<ExprV>),
    Call(Seq<char>, Seq<ExprV>),
    Field(Box<ExprV>, Seq<char>),
    Index(Box<ExprV>, Box<ExprV>),
    Cardinality(Box<ExprV>),
    SeqLit(Seq<ExprV>),
    SetLit(Seq<ExprV>),
    Tuple(Seq<ExprV>),
    InExpr(Box<ExprV>, Box<ExprV>),
    Range(Box<ExprV>, Box<ExprV>),
    Forall(Seq<Seq<char>>, Box<ExprV>, Box<ExprV>),
    Exists(Seq<Seq<char>>, Box<ExprV>, Box<ExprV>),
    Match(Box<ExprV>, Seq<MatchArmV>),
    Matches(Box<ExprV>, MatchPatternV),
}

pub struct MappingV {
    pub slot: Seq<char>,
    pub value: ExprV,
}

pub enum PinsV {
    Empty,
    Named(Seq<MappingV>),
}

pub struct OperatorDeclV {
    pub symbol: Seq<char>,
    pub operands: Seq<Seq<char>>,
    pub result: Seq<char>,
    pub result_type: Seq<char>,
    pub body: Seq<BodyItemV>,
}

pub enum BodyItemV {
    Membership { name: Seq<char>, ty: Seq<char>, pins: PinsV },
    Constraint(ExprV),
    Passthrough { name: Seq<char>, renames: Seq<MappingV> },
    ClaimCall { name: Seq<char>, mappings: Seq<MappingV> },
    SubclaimDecl(SchemaDeclV),
}

pub struct SchemaDeclV {
    pub keyword: Keyword,
    pub name: Seq<char>,
    pub type_params: Seq<Seq<char>>,
    pub param_count: nat,
    pub external: bool,
    pub body: Seq<BodyItemV>,
    pub operators: Seq<OperatorDeclV>,
}

pub open spec fn strs_view(v: Seq<String>) -> Seq<Seq<char>> {
    Seq::new(v.len(), |i: int| v[i]@)
}

pub open spec fn opt_str_view(o: Option<String>) -> Option<Seq<char>> {
    match o {
        Some(s) => Some(s@),
        None => None,
    }
}

pub open spec fn binop_view(b: BinOp) -> BinOpV {
    match b {
        BinOp::Add => BinOpV::Add,
        BinOp::Sub => BinOpV::Sub,
        BinOp::Mul => BinOpV::Mul,
        BinOp::Div => BinOpV::Div,
        BinOp::Eq => BinOpV::Eq,
        BinOp::Neq => BinOpV::Neq,
        BinOp::Lt => BinOpV::Lt,
        BinOp::Le => BinOpV::Le,
        BinOp::Gt => BinOpV::Gt,
        BinOp::Ge => BinOpV::Ge,
        BinOp::And => BinOpV::And,
        BinOp::Or => BinOpV::Or,
        BinOp::Implies => BinOpV::Implies,
        BinOp::Concat => BinOpV::Concat,
        BinOp::UserOp(s) => BinOpV::UserOp(s@),
    }
}

pub open spec fn pattern_view(p: MatchPattern) -> MatchPatternV {
    match p {
        MatchPattern::Ctor { name, binds } => MatchPatternV::Ctor {
            name: name@,
            binds: Seq::new(binds.len() as nat, |i: int| opt_str_view(binds@[i])),
        },
        MatchPattern::Wildcard => MatchPatternV::Wildcard,
    }
}

pub open spec fn expr_view(e: Expr) -> ExprV
    decreases e,
{
    match e {
        Expr::Identifier(s) => ExprV::Identifier(s@),
        Expr::Int(n) => ExprV::Int(n),
        Expr::Real(r) => ExprV::Real(r),
        Expr::Bool(b) => ExprV::Bool(b),
        Expr::Str(s) => ExprV::Str(s@),
        Expr::Binary(op, l, r) => ExprV::Binary(binop_view(op), Box::new(expr_view(*l)), Box::new(expr_view(*r))),
        Expr::Not(x) => ExprV::Not(Box::new(expr_view(*x))),
        Expr::Delta(x) => ExprV::Delta(Box::new(expr_view(*x))),
        Expr::Ternary(c, a, b) => ExprV::Ternary(
            Box::new(expr_view(*c)),
            Box::new(expr_view(*a)),
            Box::new(expr_view(*b)),
        ),
        Expr::Call(n, args) => ExprV::Call(
            n@,
            Seq::new(args.len() as nat, |i: int| if 0 <= i < args.len() { expr_view(args@[i]) } else { ExprV::Int(0) }),
        ),
        Expr::Field(x, f) => ExprV::Field(Box::new(expr_view(*x)), f@),
        Expr::Index(a, b) => ExprV::Index(Box::new(expr_view(*a)), Box::new(expr_view(*b))),
        Expr::Cardinality(x) => ExprV::Cardinality(Box::new(expr_view(*x))),
        Expr::SeqLit(xs) => ExprV::SeqLit(
            Seq::new(xs.len() as nat, |i: int| if 0 <= i < xs.len() { expr_view(xs@[i]) } else { ExprV::Int(0) }),
        ),
        Expr::SetLit(xs) => ExprV::SetLit(
            Seq::new(xs.len() as nat, |i: int| if 0 <= i < xs.len() { expr_view(xs@[i]) } else { ExprV::Int(0) }),
        ),
        Expr::Tuple(xs) => ExprV::Tuple(
            Seq::new(xs.len() as nat, |i: int| if 0 <= i < xs.len() { expr_view(xs@[i]) } else { ExprV::Int(0) }),
        ),
        Expr::InExpr(a, b) => ExprV::InExpr(Box::new(expr_view(*a)), Box::new(expr_view(*b))),
        Expr::Range(a, b) => ExprV::Range(Box::new(expr_view(*a)), Box::new(expr_view(*b))),
        Expr::Forall(vs, r, b) => ExprV::Forall(strs_view(vs@), Box::new(expr_view(*r)), Box::new(expr_view(*b))),
        Expr::Exists(vs, r, b) => ExprV::Exists(strs_view(vs@), Box::new(expr_view(*r)), Box::new(expr_view(*b))),
        Expr::Match(s, arms) => ExprV::Match(
            Box::new(expr_view(*s)),
            Seq::new(
                arms.len() as nat,
                |i: int|
                    if 0 <= i < arms.len() {
                        MatchArmV { pattern: pattern_view(arms@[i].pattern), body: expr_view(*arms@[i].body) }
                    } else {
                        MatchArmV { pattern: MatchPatternV::Wildcard, body: ExprV::Int(0) }
                    },
            ),
        ),
        Expr::Matches(x, p) => ExprV::Matches(Box::new(expr_view(*x)), pattern_view(p)),
    }
}

pub open spec fn exprs_view(v: Seq<Expr>) -> Seq<ExprV> {
    Seq::new(v.len(), |i: int| expr_view(v[i]))
}

pub open spec fn mapping_view(m: Mapping) -> MappingV {
    MappingV { slot: m.slot@, value: expr_view(m.value) }
}

pub open spec fn mappings_view(v: Seq<Mapping>) -> Seq<MappingV> {
    Seq::new(v.len(), |i: int| mapping_view(v[i]))
}

pub open spec fn pins_view(p: Pins) -> PinsV {
    match p {
        Pins::Empty => PinsV::Empty,
        Pins::Named(ms) => PinsV::Named(mappings_view(ms@)),
    }
}

pub open spec fn body_item_view(b: BodyItem) -> BodyItemV
    decreases b,
{
    match b {
        BodyItem::Membership { name, ty, pins } => BodyItemV::Membership {
            name: name@,
            ty: ty@,
            pins: pins_view(pins),
        },
        BodyItem::Constraint(e) => BodyItemV::Constraint(expr_view(e)),
        BodyItem::Passthrough { name, renames } => BodyItemV::Passthrough { name: name@, renames: mappings_view(renames@) },
        BodyItem::ClaimCall { name, mappings } => BodyItemV::ClaimCall { name: name@, mappings: mappings_view(mappings@) },
        BodyItem::SubclaimDecl(s) => BodyItemV::SubclaimDecl(schema_view(s)),
    }
}

pub open spec fn operator_view(o: OperatorDecl) -> OperatorDeclV
    decreases o,
{
    OperatorDeclV {
        symbol: o.symbol@,
        operands: strs_view(o.operands@),
        result: o.result@,
        result_type: o.result_type@,
        body: Seq::new(
            o.body.len() as nat,
            |i: int| if 0 <= i < o.body.len() { body_item_view(o.body@[i]) } else { BodyItemV::Constraint(ExprV::Int(0)) },
        ),
    }
}

pub open spec fn schema_view(s: SchemaDecl) -> SchemaDeclV
    decreases s,
{
    SchemaDeclV {
        keyword: s.keyword,
        name: s.name@,
        type_params: strs_view(s.type_params@),
        param_count: s.param_count as nat,
        external: s.external,
        body: Seq::new(
            s.body.len() as nat,
            |i: int| if 0 <= i < s.body.len() { body_item_view(s.body@[i]) } else { BodyItemV::Constraint(ExprV::Int(0)) },
        ),
        operators: Seq::new(
            s.operators.len() as nat,
            |i: int|
                if 0 <= i < s.operators.len() {
                    operator_view(s.operators@[i])
                } else {
                    OperatorDeclV {
                        symbol: Seq::empty(),
                        operands: Seq::empty(),
                        result: Seq::empty(),
                        result_type: Seq::empty(),
                        body: Seq::empty(),
                    }
                },
        ),
    }
}

pub open spec fn items_view(v: Seq<BodyItem>) -> Seq<BodyItemV> {
    Seq::new(v.len(), |i: int| body_item_view(v[i]))
}

impl View for Expr {
    type V = ExprV;

    open spec fn view(&self) -> ExprV {
        expr_view(*self)
    }
}

impl View for BodyItem {
    type V = BodyItemV;

    open spec fn view(&self) -> BodyItemV {
        body_item_view(*self)
    }
}

impl View for SchemaDecl {
    type V = SchemaDeclV;

    open spec fn view(&self) -> SchemaDeclV {
        schema_view(*self)
    }
}

} // verus!

verus! {

pub open spec fn arms_view(v: Seq<MatchArm>) -> Seq<MatchArmV> {
    Seq::new(v.len(), |i: int| MatchArmV { pattern: pattern_view(v[i].pattern), body: expr_view(*v[i].body) })
}

/// The views of the expressions that hold lists, stated over `exprs_view` and `arms_view`.
pub proof fn lemma_list_views(e: Expr)
    ensures
        e matches Expr::Call(n, xs) ==> expr_view(e) == ExprV::Call(n@, exprs_view(xs@)),
        e matches Expr::SeqLit(xs) ==> expr_view(e) == ExprV::SeqLit(exprs_view(xs@)),
        e matches Expr::SetLit(xs) ==> expr_view(e) == ExprV::SetLit(exprs_view(xs@)),
        e matches Expr::Tuple(xs) ==> expr_view(e) == ExprV::Tuple(exprs_view(xs@)),
        e matches Expr::Match(s, arms) ==> expr_view(e) == ExprV::Match(Box::new(expr_view(*s)), arms_view(arms@)),
{
    match e {
        Expr::Call(n, xs) => {
            assert(expr_view(e)->Call_1 =~= exprs_view(xs@));
        },
        Expr::SeqLit(xs) => {
            assert(expr_view(e)->SeqLit_0 =~= exprs_view(xs@));
        },
        Expr::SetLit(xs) => {
            assert(expr_view(e)->SetLit_0 =~= exprs_view(xs@));
        },
        Expr::Tuple(xs) => {
            assert(expr_view(e)->Tuple_0 =~= exprs_view(xs@));
        },
        Expr::Match(s, arms) => {
            assert(expr_view(e)->Match_1 =~= arms_view(arms@));
        },
        _ => {},
    }
}

pub fn clone_string(s: &String) -> (r: String)
    ensures
        r@ == s@,
{
    s.clone()
}

pub fn clone_strings(v: &Vec<String>) -> (r: Vec<String>)
    ensures
        strs_view(r@) == strs_view(v@),
{
    let mut out: Vec<String> = Vec::new();
    let mut i: usize = 0;
    while i < v.len()
        invariant
            0 <= i <= v.len(),
            out.len() == i,
            forall|k: int| 0 <= k < i ==> #[trigger] out@[k]@ == v@[k]@,
        decreases v.len() - i,
    {
        out.push(v[i].clone());
        i += 1;
    }
    assert(strs_view(out@) =~= strs_view(v@));
    out
}

pub fn clone_binop(b: &BinOp) -> (r: BinOp)
    ensures
        binop_view(r) == binop_view(*b),
{
    match b {
        BinOp::Add => BinOp::Add,
        BinOp::Sub => BinOp::Sub,
        BinOp::Mul => BinOp::Mul,
        BinOp::Div => BinOp::Div,
        BinOp::Eq => BinOp::Eq,
        BinOp::Neq => BinOp::Neq,
        BinOp::Lt => BinOp::Lt,
        BinOp::Le => BinOp::Le,
        BinOp::Gt => BinOp::Gt,
        BinOp::Ge => BinOp::Ge,
        BinOp::And => BinOp::And,
        BinOp::Or => BinOp::Or,
        BinOp::Implies => BinOp::Implies,
        BinOp::Concat => BinOp::Concat,
        BinOp::UserOp(s) => BinOp::UserOp(s.clone()),
    }
}

pub fn clone_pattern(p: &MatchPattern) -> (r: MatchPattern)
    ensures
        pattern_view(r) == pattern_view(*p),
{
    match p {
        MatchPattern::Wildcard => MatchPattern::Wildcard,
        MatchPattern::Ctor { name, binds } => {
            let mut out: Vec<Option<String>> = Vec::new();
            let mut i: usize = 0;
            while i < binds.len()
                invariant
                    0 <= i <= binds.len(),
                    out.len() == i,
                    forall|k: int| 0 <= k < i ==> opt_str_view(#[trigger] out@[k]) == opt_str_view(binds@[k]),
                decreases binds.len() - i,
            {
                let b = match &binds[i] {
                    Some(s) => Some(s.clone()),
                    None => None,
                };
                out.push(b);
                i += 1;
            }
            let r = MatchPattern::Ctor { name: name.clone(), binds: out };
            assert(Seq::new(out.len() as nat, |i: int| opt_str_view(out@[i]))
                =~= Seq::new(binds.len() as nat, |i: int| opt_str_view(binds@[i])));
            r
        },
    }
}

/// A deep copy of `e`.
#[verifier::rlimit(60)]
pub fn clone_expr(e: &Expr) -> (r: Expr)
    ensures
        r@ == e@,
    decreases e, 0int,
{
    match e {
        Expr::Identifier(s) => { let r = Expr::Identifier(s.clone()); assert(r@ == e@); r },
        Expr::Int(n) => { let r = Expr::Int(*n); assert(r@ == e@); r },
        Expr::Real(x) => { let r = Expr::Real(*x); assert(r@ == e@); r },
        Expr::Bool(b) => { let r = Expr::Bool(*b); assert(r@ == e@); r },
        Expr::Str(s) => { let r = Expr::Str(s.clone()); assert(r@ == e@); r },
        Expr::Binary(op, l, r) => { let r = Expr::Binary(clone_binop(op), Box::new(clone_expr(l)), Box::new(clone_expr(r))); assert(r@ == e@); r },
        Expr::Not(x) => { let r = Expr::Not(Box::new(clone_expr(x))); assert(r@ == e@); r },
        Expr::Delta(x) => { let r = Expr::Delta(Box::new(clone_expr(x))); assert(r@ == e@); r },
        Expr::Ternary(c, a, b) => { let r = Expr::Ternary(Box::new(clone_expr(c)), Box::new(clone_expr(a)), Box::new(clone_expr(b))); assert(r@ == e@); r },
        Expr::Call(n, args) => {
            proof {
                assert(decreases_to!(*e => e->Call_1));
            }
            let v = clone_exprs(args);
            let r = Expr::Call(n.clone(), v);
            proof {
                lemma_list_views(r);
                lemma_list_views(*e);
            }
            r
        },
        Expr::Field(x, f) => { let r = Expr::Field(Box::new(clone_expr(x)), f.clone()); assert(r@ == e@); r },
        Expr::Index(a, b) => { let r = Expr::Index(Box::new(clone_expr(a)), Box::new(clone_expr(b))); assert(r@ == e@); r },
        Expr::Cardinality(x) => { let r = Expr::Cardinality(Box::new(clone_expr(x))); assert(r@ == e@); r },
        Expr::SeqLit(xs) => {
            proof {
                assert(decreases_to!(*e => e->SeqLit_0));
            }
            let v = clone_exprs(xs);
            let r = Expr::SeqLit(v);
            proof {
                lemma_list_views(r);
                lemma_list_views(*e);
            }
            r
        },
        Expr::SetLit(xs) => {
            proof {
                assert(decreases_to!(*e => e->SetLit_0));
            }
            let v = clone_exprs(xs);
            let r = Expr::SetLit(v);
            proof {
                lemma_list_views(r);
                lemma_list_views(*e);
            }
            r
        },
        Expr::Tuple(xs) => {
            proof {
                assert(decreases_to!(*e => e->Tuple_0));
            }
            let v = clone_exprs(xs);
            let r = Expr::Tuple(v);
            proof {
                lemma_list_views(r);
                lemma_list_views(*e);
            }
            r
        },
        Expr::InExpr(a, b) => { let r = Expr::InExpr(Box::new(clone_expr(a)), Box::new(clone_expr(b))); assert(r@ == e@); r },
        Expr::Range(a, b) => { let r = Expr::Range(Box::new(clone_expr(a)), Box::new(clone_expr(b))); assert(r@ == e@); r },
        Expr::Forall(vs, r, b) => { let r = Expr::Forall(clone_strings(vs), Box::new(clone_expr(r)), Box::new(clone_expr(b))); assert(r@ == e@); r },
        Expr::Exists(vs, r, b) => { let r = Expr::Exists(clone_strings(vs), Box::new(clone_expr(r)), Box::new(clone_expr(b))); assert(r@ == e@); r },
        Expr::Match(s, arms) => {
            let s2 = clone_expr(s);
            let mut out: Vec<MatchArm> = Vec::new();
            let mut i: usize = 0;
            while i < arms.len()
                invariant
                    0 <= i <= arms.len(),
                    *e == Expr::Match(*s, *arms),
                    out.len() == i,
                    forall|k: int|
                        0 <= k < i ==> pattern_view(#[trigger] out@[k].pattern) == pattern_view(arms@[k].pattern)
                            && expr_view(*out@[k].body) == expr_view(*arms@[k].body),
                decreases arms.len() - i,
            {
                proof {
                    assert(decreases_to!(*e => e->Match_1));
                    assert(decreases_to!(e->Match_1 => arms@[i as int]));
                    assert(decreases_to!(arms@[i as int] => arms@[i as int].body));
                }
                let arm = &arms[i];
                let b = clone_expr(&arm.body);
                out.push(MatchArm { pattern: clone_pattern(&arm.pattern), body: Box::new(b) });
                i += 1;
            }
            let r = Expr::Match(Box::new(s2), out);
            proof {
                assert(arms_view(out@) =~= arms_view(arms@));
                lemma_list_views(r);
                lemma_list_views(*e);
            }
            r
        },
        Expr::Matches(x, p) => { let r = Expr::Matches(Box::new(clone_expr(x)), clone_pattern(p)); assert(r@ == e@); r },
    }
}

/// A deep copy of each expression in `v`.
pub fn clone_exprs(v: &Vec<Expr>) -> (r: Vec<Expr>)
    ensures
        exprs_view(r@) == exprs_view(v@),
        r.len() == v.len(),
    decreases v, 1int,
{
    let mut out: Vec<Expr> = Vec::new();
    let mut i: usize = 0;
    while i < v.len()
        invariant
            0 <= i <= v.len(),
            out.len() == i,
            forall|k: int| 0 <= k < i ==> #[trigger] expr_view(out@[k]) == expr_view(v@[k]),
        decreases v.len() - i,
    {
        proof {
            assert(decreases_to!(*v => v@[i as int]));
        }
        out.push(clone_expr(&v[i]));
        i += 1;
    }
    assert(exprs_view(out@) =~= exprs_view(v@));
    out
}


pub open spec fn operators_view(v: Seq<OperatorDecl>) -> Seq<OperatorDeclV> {
    Seq::new(v.len(), |i: int| operator_view(v[i]))
}

/// The list fields of a schema's view, stated over `items_view` and `operators_view`.
pub proof fn lemma_schema_lists(s: SchemaDecl)
    ensures
        schema_view(s).body == items_view(s.body@),
        schema_view(s).operators == operators_view(s.operators@),
{
    assert(schema_view(s).body =~= items_view(s.body@));
    assert(schema_view(s).operators =~= operators_view(s.operators@));
}

pub proof fn lemma_operator_lists(o: OperatorDecl)
    ensures
        operator_view(o).body == items_view(o.body@),
{
    assert(operator_view(o).body =~= items_view(o.body@));
}

/// Is `s` one of the strings in `v`?
pub fn strings_contain(v: &Vec<String>, s: &String) -> (r: bool)
    ensures
        r == strs_view(v@).contains(s@),
{
    let mut i: usize = 0;
    while i < v.len()
        invariant
            0 <= i <= v.len(),
            forall|k: int| 0 <= k < i ==> v@[k]@ != s@,
        decreases v.len() - i,
    {
        if v[i] == *s {
            assert(strs_view(v@)[i as int] == s@);
            return true;
        }
        i += 1;
    }
    assert(!strs_view(v@).contains(s@)) by {
        if strs_view(v@).contains(s@) {
            let k = choose|k: int| 0 <= k < strs_view(v@).len() && strs_view(v@)[k] == s@;
            assert(v@[k]@ == s@);
        }
    }
    false
}

pub fn clone_mapping(m: &Mapping) -> (r: Mapping)
    ensures
        mapping_view(r) == mapping_view(*m),
{
    Mapping { slot: m.slot.clone(), value: clone_expr(&m.value) }
}

pub fn clone_mappings(v: &Vec<Mapping>) -> (r: Vec<Mapping>)
    ensures
        mappings_view(r@) == mappings_view(v@),
{
    let mut out: Vec<Mapping> = Vec::new();
    let mut i: usize = 0;
    while i < v.len()
        invariant
            0 <= i <= v.len(),
            out.len() == i,
            forall|k: int| 0 <= k < i ==> #[trigger] mapping_view(out@[k]) == mapping_view(v@[k]),
        decreases v.len() - i,
    {
        out.push(clone_mapping(&v[i]));
        i += 1;
    }
    assert(mappings_view(out@) =~= mappings_view(v@));
    out
}

pub fn clone_pins(p: &Pins) -> (r: Pins)
    ensures
        pins_view(r) == pins_view(*p),
{
    match p {
        Pins::Empty => Pins::Empty,
        Pins::Named(ms) => Pins::Named(clone_mappings(ms)),
    }
}

/// A deep copy of a body item.
pub fn clone_body_item(b: &BodyItem) -> (r: BodyItem)
    ensures
        r@ == b@,
    decreases b,
{
    match b {
        BodyItem::Membership { name, ty, pins } => BodyItem::Membership {
            name: name.clone(),
            ty: ty.clone(),
            pins: clone_pins(pins),
        },
        BodyItem::Constraint(e) => BodyItem::Constraint(clone_expr(e)),
        BodyItem::Passthrough { name, renames } => BodyItem::Passthrough {
            name: name.clone(),
            renames: clone_mappings(renames),
        },
        BodyItem::ClaimCall { name, mappings } => BodyItem::ClaimCall {
            name: name.clone(),
            mappings: clone_mappings(mappings),
        },
        BodyItem::SubclaimDecl(s) => {
            proof {
                assert(decreases_to!(*b => b->SubclaimDecl_0));
            }
            BodyItem::SubclaimDecl(clone_schema(s))
        },
    }
}

/// A deep copy of each body item in `v`.
pub fn clone_body_items(v: &Vec<BodyItem>) -> (r: Vec<BodyItem>)
    ensures
        items_view(r@) == items_view(v@),
    decreases v,
{
    let mut out: Vec<BodyItem> = Vec::new();
    let mut i: usize = 0;
    while i < v.len()
        invariant
            0 <= i <= v.len(),
            out.len() == i,
            forall|k: int| 0 <= k < i ==> #[trigger] body_item_view(out@[k]) == body_item_view(v@[k]),
        decreases v.len() - i,
    {
        proof {
            assert(decreases_to!(*v => v@[i as int]));
        }
        out.push(clone_body_item(&v[i]));
        i += 1;
    }
    assert(items_view(out@) =~= items_view(v@));
    out
}

pub fn clone_operator(o: &OperatorDecl) -> (r: OperatorDecl)
    ensures
        operator_view(r) == operator_view(*o),
    decreases o,
{
    proof {
        assert(decreases_to!(*o => o.body));
    }
    let r = OperatorDecl {
        symbol: o.symbol.clone(),
        operands: clone_strings(&o.operands),
        result: o.result.clone(),
        result_type: o.result_type.clone(),
        body: clone_body_items(&o.body),
    };
    proof {
        lemma_operator_lists(r);
        lemma_operator_lists(*o);
    }
    r
}

/// A deep copy of each operator declaration in `v`.
pub fn clone_operators(v: &Vec<OperatorDecl>) -> (r: Vec<OperatorDecl>)
    ensures
        operators_view(r@) == operators_view(v@),
    decreases v,
{
    let mut ops: Vec<OperatorDecl> = Vec::new();
    let mut i: usize = 0;
    while i < v.len()
        invariant
            0 <= i <= v.len(),
            ops.len() == i,
            forall|k: int| 0 <= k < i ==> #[trigger] operator_view(ops@[k]) == operator_view(v@[k]),
        decreases v.len() - i,
    {
        proof {
            assert(decreases_to!(*v => v@[i as int]));
        }
        ops.push(clone_operator(&v[i]));
        i += 1;
    }
    assert(operators_view(ops@) =~= operators_view(v@));
    ops
}

/// A deep copy of a schema declaration.
pub fn clone_schema(s: &SchemaDecl) -> (r: SchemaDecl)
    ensures
        r@ == s@,
    decreases s,
{
    proof {
        assert(decreases_to!(*s => s.body));
    }
    let body = clone_body_items(&s.body);
    let mut ops: Vec<OperatorDecl> = Vec::new();
    let mut i: usize = 0;
    while i < s.operators.len()
        invariant
            0 <= i <= s.operators.len(),
            ops.len() == i,
            forall|k: int| 0 <= k < i ==> #[trigger] operator_view(ops@[k]) == operator_view(s.operators@[k]),
        decreases s.operators.len() - i,
    {
        proof {
            assert(decreases_to!(*s => s.operators));
            assert(decreases_to!(s.operators => s.operators@[i as int]));
        }
        ops.push(clone_operator(&s.operators[i]));
        i += 1;
    }
    let r = SchemaDecl {
        keyword: s.keyword,
        name: s.name.clone(),
        type_params: clone_strings(&s.type_params),
        param_count: s.param_count,
        external: s.external,
        body,
        operators: ops,
    };
    proof {
        assert(operators_view(ops@) =~= operators_view(s.operators@));
        lemma_schema_lists(r);
        lemma_schema_lists(*s);
    }
    r
}

} // verus!
