//! `fmt`: a comment-preserving source formatter for Evident.
//!
//! The formatter normalizes source text line by line rather than
//! re-printing a parse tree, so comments (which the lexer drops) survive.
//! It re-derives indentation onto a 4-space grid, normalizes operator
//! spacing inside each logical line, trims trailing whitespace and collapses
//! runs of blank lines. A line only nests under its predecessor when that
//! predecessor opens a block (a declaration header, a trailing `⇒` or `:`,
//! or a `match` line); a deeper line after a leaf is a ragged sibling and is
//! snapped back to its block's column. Lines inside an open bracket keep the
//! author's alignment.
//!
//! [`format_source`] re-lexes its own output and refuses to return a result
//! whose code tokens differ from the input's, or that a second pass would
//! change.
use vstd::prelude::*;
use crate::lexer::{TokKind, Token, spec_indent_width, spec_tokenize, tokenize, indent_width, sat_u64};
use crate::text::{chars_eq, concat_str, chars_to_string, slice_chars, append_chars, str_to_chars};

verus! {

/// A physical line, classified.
#[derive(PartialEq, Eq, Structural, Clone, Copy, Debug)]
pub enum LineKind {
    Blank,
    /// A line whose first non-whitespace content is `--`.
    Comment,
    /// A line carrying code (possibly with a trailing comment).
    Code,
}

/// Unicode whitespace, as `char::is_whitespace` defines it.
pub open spec fn is_ws(c: char) -> bool {
    ('\t' <= c && c <= '\r') || c == ' ' || c == '\u{85}' || c == '\u{A0}' || c == '\u{1680}'
        || ('\u{2000}' <= c && c <= '\u{200A}') || c == '\u{2028}' || c == '\u{2029}'
        || c == '\u{202F}' || c == '\u{205F}' || c == '\u{3000}'
}

/// Index of the first non-whitespace char at or after `i` (or the length).
pub open spec fn spec_ws_end(s: Seq<char>, i: int) -> int
    decreases s.len() - i,
{
    if i < 0 || i >= s.len() || !is_ws(s[i]) {
        i
    } else {
        spec_ws_end(s, i + 1)
    }
}

/// Largest `k <= j` such that `s[k - 1]` is not whitespace (or 0).
pub open spec fn spec_ws_start(s: Seq<char>, j: int) -> int
    decreases j,
{
    if j <= 0 || j > s.len() || !is_ws(s[j - 1]) {
        j
    } else {
        spec_ws_start(s, j - 1)
    }
}

pub open spec fn spec_trim_start(s: Seq<char>) -> Seq<char> {
    s.subrange(spec_ws_end(s, 0), s.len() as int)
}

pub open spec fn spec_trim_end(s: Seq<char>) -> Seq<char> {
    s.subrange(0, spec_ws_start(s, s.len() as int))
}

pub open spec fn starts_with_dashes(t: Seq<char>) -> bool {
    t.len() >= 2 && t[0] == '-' && t[1] == '-'
}

pub open spec fn spec_classify(line: Seq<char>) -> LineKind {
    let t = spec_trim_start(line);
    if t.len() == 0 {
        LineKind::Blank
    } else if starts_with_dashes(t) {
        LineKind::Comment
    } else {
        LineKind::Code
    }
}

/// Index of the first char at or after `i` that is neither a space nor a tab.
pub open spec fn spec_lead_end(s: Seq<char>, i: int) -> int
    decreases s.len() - i,
{
    if i < 0 || i >= s.len() || !(s[i] == ' ' || s[i] == '\t') {
        i
    } else {
        spec_lead_end(s, i + 1)
    }
}

/// Width of the leading run of spaces (1 each) and tabs (4 each).
pub open spec fn spec_leading_width(s: Seq<char>) -> int {
    spec_indent_width(s, 0, spec_lead_end(s, 0))
}

/// Where the code of a line ends: the first `--` outside a string literal,
/// or the end of the line. `in_str` tells whether `i` is inside a string.
pub open spec fn spec_code_end(s: Seq<char>, i: int, in_str: bool) -> int
    decreases s.len() - i,
{
    if i < 0 || i >= s.len() {
        s.len() as int
    } else if in_str {
        if s[i] == '\\' {
            if i + 2 >= s.len() {
                s.len() as int
            } else {
                spec_code_end(s, i + 2, true)
            }
        } else if s[i] == '"' {
            spec_code_end(s, i + 1, false)
        } else {
            spec_code_end(s, i + 1, true)
        }
    } else if s[i] == '"' {
        spec_code_end(s, i + 1, true)
    } else if s[i] == '-' && i + 1 < s.len() && s[i + 1] == '-' {
        i
    } else {
        spec_code_end(s, i + 1, false)
    }
}

/// The code portion of a line: everything before a `--` outside a string.
pub open spec fn spec_code_part(s: Seq<char>) -> Seq<char> {
    s.subrange(0, spec_code_end(s, 0, false))
}

pub open spec fn is_open_char(c: char) -> bool {
    c == '(' || c == '{' || c == '[' || c == '\u{27E8}'
}

pub open spec fn is_close_char(c: char) -> bool {
    c == ')' || c == '}' || c == ']' || c == '\u{27E9}'
}

/// Net bracket nesting contributed by `s[i..]`, skipping string literals.
pub open spec fn spec_delta_from(s: Seq<char>, i: int, in_str: bool) -> int
    decreases s.len() - i,
{
    if i < 0 || i >= s.len() {
        0
    } else if in_str {
        if s[i] == '\\' {
            if i + 2 >= s.len() {
                0
            } else {
                spec_delta_from(s, i + 2, true)
            }
        } else if s[i] == '"' {
            spec_delta_from(s, i + 1, false)
        } else {
            spec_delta_from(s, i + 1, true)
        }
    } else if s[i] == '"' {
        spec_delta_from(s, i + 1, true)
    } else if is_open_char(s[i]) {
        1 + spec_delta_from(s, i + 1, false)
    } else if is_close_char(s[i]) {
        -1 + spec_delta_from(s, i + 1, false)
    } else {
        spec_delta_from(s, i + 1, false)
    }
}

pub open spec fn spec_bracket_delta(s: Seq<char>) -> int {
    spec_delta_from(s, 0, false)
}

/// Tokens that are neither line structure (`Newline`, `Indent`) nor `Eof`.
pub open spec fn is_code_tok(t: Token) -> bool {
    t.kind != TokKind::Newline && t.kind != TokKind::Indent && t.kind != TokKind::Eof
}

pub open spec fn spec_code_toks(toks: Seq<Token>) -> Seq<Token>
    decreases toks.len(),
{
    if toks.len() == 0 {
        Seq::empty()
    } else {
        let r = spec_code_toks(toks.drop_last());
        if is_code_tok(toks.last()) {
            r.push(toks.last())
        } else {
            r
        }
    }
}

pub open spec fn is_decl_kind(k: TokKind) -> bool {
    k == TokKind::Schema || k == TokKind::Claim || k == TokKind::Type || k == TokKind::Fsm
        || k == TokKind::Fti || k == TokKind::Enum || k == TokKind::Subclaim || k == TokKind::External
}

/// Does this logical line's code open an indented child block? It does iff
/// its first token is a declaration keyword, it contains a `match`, or its
/// last token is `⇒` or `:`. Code that does not lex opens nothing.
pub open spec fn spec_opens_block(code: Seq<char>) -> bool {
    match spec_tokenize(code) {
        Err(_) => false,
        Ok(toks) => {
            let ct = spec_code_toks(toks);
            if ct.len() == 0 {
                false
            } else if is_decl_kind(ct[0].kind) {
                true
            } else if exists|k: int| 0 <= k < ct.len() && #[trigger] ct[k].kind == TokKind::Match {
                true
            } else {
                ct.last().kind == TokKind::Implies || ct.last().kind == TokKind::Colon
            }
        },
    }
}

/// Joining the code of the physical lines of a logical line that starts at
/// or before `i`: `joined` is the code so far and `bracket` the bracket
/// depth after it. Comment lines contribute nothing; the logical line ends
/// once the bracket depth is back at 0.
pub open spec fn spec_join_logical(phys: Seq<Seq<char>>, i: int, joined: Seq<char>, bracket: int) -> Seq<char>
    decreases phys.len() - i,
{
    if i < 0 || i >= phys.len() {
        joined
    } else {
        let content = spec_trim_end(phys[i]);
        let is_comment = spec_classify(content) == LineKind::Comment;
        let code = spec_code_part(content);
        let j1 = if is_comment {
            joined
        } else if joined.len() > 0 {
            joined.push(' ') + code
        } else {
            code
        };
        let b0 = if is_comment { bracket } else { bracket + spec_bracket_delta(code) };
        let b1 = if b0 < 0 { 0 } else { b0 };
        if b1 == 0 {
            j1
        } else {
            spec_join_logical(phys, i + 1, j1, b1)
        }
    }
}

pub open spec fn spec_logical_line_opens_block(phys: Seq<Seq<char>>, head: int) -> bool {
    spec_opens_block(spec_join_logical(phys, head, Seq::empty(), 0))
}

pub open spec fn is_value_end_kind(k: TokKind) -> bool {
    k == TokKind::Ident || k == TokKind::Int || k == TokKind::Real || k == TokKind::Str
        || k == TokKind::True || k == TokKind::False || k == TokKind::RParen
        || k == TokKind::RBracket || k == TokKind::RSeq || k == TokKind::Hash
}

/// Is the sign at `idx` binary (the token before it ends a value)?
pub open spec fn spec_value_end_lookback(ct: Seq<Token>, idx: int) -> bool {
    if idx <= 0 {
        false
    } else {
        is_value_end_kind(ct[idx - 1].kind)
    }
}

/// Should a space separate `ct[k - 1]` and `ct[k]`?
pub open spec fn spec_wants_space(ct: Seq<Token>, k: int) -> bool {
    let prev = ct[k - 1].kind;
    let cur = ct[k].kind;
    if prev == TokKind::LParen || prev == TokKind::LBracket || prev == TokKind::LSeq
        || prev == TokKind::LBrace || prev == TokKind::Hash {
        false
    } else if cur == TokKind::RParen || cur == TokKind::RBracket || cur == TokKind::RSeq
        || cur == TokKind::RBrace || cur == TokKind::Comma {
        false
    } else if prev == TokKind::Dot || prev == TokKind::DotDot || cur == TokKind::Dot
        || cur == TokKind::DotDot {
        false
    } else if prev == TokKind::Delta || prev == TokKind::Not {
        false
    } else if (cur == TokKind::LParen || cur == TokKind::LBracket) && is_value_end_kind(prev) {
        false
    } else if (prev == TokKind::Minus || prev == TokKind::Plus) && !spec_value_end_lookback(ct, k - 1) {
        false
    } else {
        true
    }
}

/// Re-emitting `ct[k..]` after `out`: each token's exact source text (from
/// its start to the next token's start, trailing whitespace trimmed), with
/// normalized spacing between tokens. `None` if a span is out of range.
pub open spec fn spec_emit_from(code: Seq<char>, ct: Seq<Token>, k: int, out: Seq<char>) -> Option<Seq<char>>
    decreases ct.len() - k,
{
    if k < 0 || k >= ct.len() {
        Some(out)
    } else {
        let st = ct[k].start as int;
        let en = if k + 1 < ct.len() { ct[k + 1].start as int } else { code.len() as int };
        if st > code.len() || en > code.len() || st > en {
            None
        } else {
            let text = spec_trim_end(code.subrange(st, en));
            let sep: Seq<char> = if k > 0 && spec_wants_space(ct, k) { seq![' '] } else { Seq::empty() };
            spec_emit_from(code, ct, k + 1, out + sep + text)
        }
    }
}

/// A comment-free code fragment with normalized operator spacing, or `None`
/// if it cannot be tokenized or sliced.
pub open spec fn spec_respace_code(code: Seq<char>) -> Option<Seq<char>> {
    match spec_tokenize(code) {
        Err(_) => None,
        Ok(toks) => spec_emit_from(code, spec_code_toks(toks), 0, Seq::empty()),
    }
}

/// Operator spacing of one logical line's text, its trailing comment kept
/// verbatim after two spaces.
pub open spec fn spec_respace_line(line: Seq<char>) -> Seq<char> {
    if starts_with_dashes(spec_trim_start(line)) {
        line
    } else {
        let ce = spec_code_end(line, 0, false);
        let code = line.subrange(0, ce);
        let comment = spec_trim_start(line.subrange(ce, line.len() as int));
        let respaced = match spec_respace_code(code) {
            Some(r) => r,
            None => spec_trim_end(code),
        };
        if comment.len() == 0 {
            respaced
        } else if respaced.len() == 0 {
            comment
        } else {
            respaced + seq![' ', ' '] + comment
        }
    }
}

} // verus!

verus! {

pub proof fn lemma_ws_end(s: Seq<char>, i: int)
    requires
        0 <= i <= s.len(),
    ensures
        i <= spec_ws_end(s, i) <= s.len(),
    decreases s.len() - i,
{
    if i < s.len() && is_ws(s[i]) {
        lemma_ws_end(s, i + 1);
    }
}

pub proof fn lemma_ws_start(s: Seq<char>, j: int)
    requires
        0 <= j <= s.len(),
    ensures
        0 <= spec_ws_start(s, j) <= j,
    decreases j,
{
    if j > 0 && is_ws(s[j - 1]) {
        lemma_ws_start(s, j - 1);
    }
}

pub proof fn lemma_lead_end(s: Seq<char>, i: int)
    requires
        0 <= i <= s.len(),
    ensures
        i <= spec_lead_end(s, i) <= s.len(),
    decreases s.len() - i,
{
    if i < s.len() && (s[i] == ' ' || s[i] == '\t') {
        lemma_lead_end(s, i + 1);
    }
}

pub proof fn lemma_code_end(s: Seq<char>, i: int, in_str: bool)
    requires
        0 <= i,
    ensures
        0 <= spec_code_end(s, i, in_str) <= s.len(),
    decreases s.len() - i,
{
    if i < s.len() {
        if in_str {
            if s[i] == '\\' {
                if i + 2 < s.len() {
                    lemma_code_end(s, i + 2, true);
                }
            } else if s[i] == '"' {
                lemma_code_end(s, i + 1, false);
            } else {
                lemma_code_end(s, i + 1, true);
            }
        } else if s[i] == '"' {
            lemma_code_end(s, i + 1, true);
        } else if s[i] == '-' && i + 1 < s.len() && s[i + 1] == '-' {
        } else {
            lemma_code_end(s, i + 1, false);
        }
    }
}

pub proof fn lemma_delta_bound(s: Seq<char>, i: int, in_str: bool)
    requires
        0 <= i,
    ensures
        -(s.len() - i) <= spec_delta_from(s, i, in_str) <= s.len() - i || i >= s.len(),
        i >= s.len() ==> spec_delta_from(s, i, in_str) == 0,
    decreases s.len() - i,
{
    if i < s.len() {
        if in_str {
            if s[i] == '\\' {
                if i + 2 < s.len() {
                    lemma_delta_bound(s, i + 2, true);
                }
            } else if s[i] == '"' {
                lemma_delta_bound(s, i + 1, false);
            } else {
                lemma_delta_bound(s, i + 1, true);
            }
        } else {
            lemma_delta_bound(s, i + 1, s[i] == '"');
        }
    }
}

pub fn is_ws_exec(c: char) -> (r: bool)
    ensures
        r == is_ws(c),
{
    ('\t' <= c && c <= '\r') || c == ' ' || c == '\u{85}' || c == '\u{A0}' || c == '\u{1680}'
        || ('\u{2000}' <= c && c <= '\u{200A}') || c == '\u{2028}' || c == '\u{2029}'
        || c == '\u{202F}' || c == '\u{205F}' || c == '\u{3000}'
}

fn ws_end(s: &Vec<char>, i: usize) -> (r: usize)
    requires
        i <= s.len(),
    ensures
        r == spec_ws_end(s@, i as int),
        i <= r <= s.len(),
{
    let mut j = i;
    while j < s.len() && is_ws_exec(s[j])
        invariant
            i <= j <= s.len(),
            spec_ws_end(s@, i as int) == spec_ws_end(s@, j as int),
        decreases s.len() - j,
    {
        j += 1;
    }
    j
}

fn ws_start(s: &Vec<char>, j: usize) -> (r: usize)
    requires
        j <= s.len(),
    ensures
        r == spec_ws_start(s@, j as int),
        r <= j,
{
    let mut k = j;
    while k > 0 && is_ws_exec(s[k - 1])
        invariant
            k <= j <= s.len(),
            spec_ws_start(s@, j as int) == spec_ws_start(s@, k as int),
        decreases k,
    {
        k -= 1;
    }
    k
}

/// `s` without leading whitespace.
pub fn trim_start(s: &Vec<char>) -> (r: Vec<char>)
    ensures
        r@ == spec_trim_start(s@),
{
    let a = ws_end(s, 0);
    slice_chars(s, a, s.len())
}

/// `s` without trailing whitespace.
pub fn trim_end(s: &Vec<char>) -> (r: Vec<char>)
    ensures
        r@ == spec_trim_end(s@),
{
    let b = ws_start(s, s.len());
    slice_chars(s, 0, b)
}

fn starts_with_dashes_exec(t: &Vec<char>) -> (r: bool)
    ensures
        r == starts_with_dashes(t@),
{
    t.len() >= 2 && t[0] == '-' && t[1] == '-'
}

/// Classify a physical line as blank, comment-only, or code.
pub fn classify(line: &Vec<char>) -> (r: LineKind)
    ensures
        r == spec_classify(line@),
{
    let t = trim_start(line);
    if t.len() == 0 {
        LineKind::Blank
    } else if starts_with_dashes_exec(&t) {
        LineKind::Comment
    } else {
        LineKind::Code
    }
}

fn lead_end(s: &Vec<char>, i: usize) -> (r: usize)
    requires
        i <= s.len(),
    ensures
        r == spec_lead_end(s@, i as int),
        i <= r <= s.len(),
{
    let mut j = i;
    while j < s.len() && (s[j] == ' ' || s[j] == '\t')
        invariant
            i <= j <= s.len(),
            spec_lead_end(s@, i as int) == spec_lead_end(s@, j as int),
        decreases s.len() - j,
    {
        j += 1;
    }
    j
}

/// Width of the leading spaces (1 each) and tabs (4 each) of `s`,
/// saturating at `u64::MAX`.
pub fn leading_ws_width(s: &Vec<char>) -> (r: u64)
    ensures
        r == sat_u64(spec_leading_width(s@)),
{
    let e = lead_end(s, 0);
    indent_width(s, 0, e)
}

/// Where the code of `s` ends: the first `--` outside a string literal.
pub fn code_end(s: &Vec<char>) -> (r: usize)
    ensures
        r == spec_code_end(s@, 0, false),
        r <= s.len(),
{
    let n = s.len();
    let mut i: usize = 0;
    let mut in_str = false;
    proof {
        lemma_code_end(s@, 0, false);
    }
    while i < n
        invariant
            n == s.len(),
            0 <= i <= n,
            spec_code_end(s@, 0, false) == spec_code_end(s@, i as int, in_str),
        decreases n - i,
    {
        let c = s[i];
        if in_str {
            if c == '\\' {
                if n - i <= 2 {
                    return n;
                }
                i += 2;
            } else {
                if c == '"' {
                    in_str = false;
                }
                i += 1;
            }
        } else if c == '"' {
            in_str = true;
            i += 1;
        } else if c == '-' && i + 1 < n && s[i + 1] == '-' {
            return i;
        } else {
            i += 1;
        }
    }
    n
}

/// The code portion of a line (before a `--` outside a string literal).
pub fn code_part(s: &Vec<char>) -> (r: Vec<char>)
    ensures
        r@ == spec_code_part(s@),
{
    let e = code_end(s);
    slice_chars(s, 0, e)
}

/// Net change in bracket nesting from `(`, `{`, `[`, `⟨` and their closers,
/// skipping string literals.
pub fn net_bracket_delta(s: &Vec<char>) -> (r: i128)
    ensures
        r == spec_bracket_delta(s@),
        -(s.len() as int) <= r <= s.len(),
{
    let n = s.len();
    let mut i: usize = 0;
    let mut in_str = false;
    let mut d: i128 = 0;
    proof {
        lemma_delta_bound(s@, 0, false);
    }
    while i < n
        invariant
            n == s.len(),
            0 <= i <= n,
            -(i as int) <= d <= i,
            spec_bracket_delta(s@) == d + spec_delta_from(s@, i as int, in_str),
        decreases n - i,
    {
        let c = s[i];
        if in_str {
            if c == '\\' {
                if n - i <= 2 {
                    return d;
                }
                i += 2;
            } else {
                if c == '"' {
                    in_str = false;
                }
                i += 1;
            }
        } else {
            if c == '"' {
                in_str = true;
            } else if c == '(' || c == '{' || c == '[' || c == '\u{27E8}' {
                d += 1;
            } else if c == ')' || c == '}' || c == ']' || c == '\u{27E9}' {
                d -= 1;
            }
            i += 1;
        }
    }
    d
}

} // verus!

verus! {

fn is_code_tok_exec(t: &Token) -> (r: bool)
    ensures
        r == is_code_tok(*t),
{
    t.kind != TokKind::Newline && t.kind != TokKind::Indent && t.kind != TokKind::Eof
}

/// The tokens other than `Newline`, `Indent` and `Eof`, in order.
pub fn code_toks(toks: &Vec<Token>) -> (r: Vec<Token>)
    ensures
        r@ == spec_code_toks(toks@),
{
    let mut out: Vec<Token> = Vec::new();
    let mut i: usize = 0;
    while i < toks.len()
        invariant
            0 <= i <= toks.len(),
            out@ == spec_code_toks(toks@.take(i as int)),
        decreases toks.len() - i,
    {
        assert(toks@.take(i + 1).drop_last() =~= toks@.take(i as int));
        if is_code_tok_exec(&toks[i]) {
            out.push(toks[i]);
        }
        i += 1;
    }
    assert(toks@.take(toks.len() as int) =~= toks@);
    out
}

fn is_decl_kind_exec(k: TokKind) -> (r: bool)
    ensures
        r == is_decl_kind(k),
{
    k == TokKind::Schema || k == TokKind::Claim || k == TokKind::Type || k == TokKind::Fsm
        || k == TokKind::Fti || k == TokKind::Enum || k == TokKind::Subclaim || k == TokKind::External
}

/// Does this code open an indented child block (a declaration header, a
/// `match` line, or a line ending in `⇒` or `:`)?
#[verifier::loop_isolation(false)]
pub fn opens_block(code: &Vec<char>) -> (r: bool)
    ensures
        r == spec_opens_block(code@),
{
    let toks = match tokenize(code) {
        Ok(t) => t,
        Err(_) => {
            return false;
        },
    };
    let ct = code_toks(&toks);
    if ct.len() == 0 {
        return false;
    }
    if is_decl_kind_exec(ct[0].kind) {
        return true;
    }
    let mut k: usize = 0;
    while k < ct.len()
        invariant
            0 <= k <= ct.len(),
            forall|m: int| 0 <= m < k ==> ct@[m].kind != TokKind::Match,
        decreases ct.len() - k,
    {
        if ct[k].kind == TokKind::Match {
            assert(ct@[k as int].kind == TokKind::Match);
            return true;
        }
        k += 1;
    }
    let last = ct[ct.len() - 1].kind;
    last == TokKind::Implies || last == TokKind::Colon
}

/// The view of a vector of lines.
pub open spec fn lines_view(v: Seq<Vec<char>>) -> Seq<Seq<char>> {
    Seq::new(v.len(), |k: int| v[k]@)
}

/// Total number of chars in `ls`.
pub open spec fn lines_total(ls: Seq<Seq<char>>) -> int
    decreases ls.len(),
{
    if ls.len() == 0 {
        0
    } else {
        lines_total(ls.drop_last()) + ls.last().len()
    }
}

pub proof fn lemma_lines_total_prefix(ls: Seq<Seq<char>>, i: int)
    requires
        0 <= i <= ls.len(),
    ensures
        0 <= lines_total(ls.take(i)) <= lines_total(ls),
    decreases ls.len() - i,
{
    if i < ls.len() {
        lemma_lines_total_prefix(ls, i + 1);
        assert(ls.take(i + 1).drop_last() =~= ls.take(i));
        lemma_lines_total_nonneg(ls.take(i));
    } else {
        assert(ls.take(i) =~= ls);
        lemma_lines_total_nonneg(ls);
    }
}

pub proof fn lemma_lines_total_nonneg(ls: Seq<Seq<char>>)
    ensures
        lines_total(ls) >= 0,
    decreases ls.len(),
{
    if ls.len() > 0 {
        lemma_lines_total_nonneg(ls.drop_last());
    }
}

pub proof fn lemma_lines_total_step(ls: Seq<Seq<char>>, i: int)
    requires
        0 <= i < ls.len(),
    ensures
        lines_total(ls.take(i + 1)) == lines_total(ls.take(i)) + ls[i].len(),
{
    assert(ls.take(i + 1).drop_last() =~= ls.take(i));
}

/// Does the logical line starting at physical line `head` open a block? The
/// logical line is the head plus every following line while a bracket stays
/// open; the opener can be on a continuation line.
pub fn logical_line_opens_block(phys: &Vec<Vec<char>>, head: usize) -> (r: bool)
    requires
        head <= phys.len(),
        lines_total(lines_view(phys@)) <= usize::MAX,
    ensures
        r == spec_logical_line_opens_block(lines_view(phys@), head as int),
{
    let ghost pv = lines_view(phys@);
    let mut joined: Vec<char> = Vec::new();
    let mut bracket: i128 = 0;
    let mut i = head;
    proof {
        lemma_lines_total_prefix(pv, head as int);
    }
    while i < phys.len()
        invariant
            head <= i <= phys.len(),
            pv == lines_view(phys@),
            lines_total(pv) <= usize::MAX,
            0 <= bracket <= lines_total(pv.take(i as int)),
            spec_join_logical(pv, head as int, Seq::empty(), 0) == spec_join_logical(pv, i as int, joined@, bracket as int),
            i > head ==> bracket > 0,
        decreases phys.len() - i,
    {
        let content = trim_end(&phys[i]);
        proof {
            assert(pv[i as int] == phys@[i as int]@);
            lemma_ws_start(phys@[i as int]@, phys@[i as int]@.len() as int);
            lemma_code_end(content@, 0, false);
            lemma_lines_total_step(pv, i as int);
            lemma_lines_total_prefix(pv, i + 1);
        }
        let is_comment = classify(&content) == LineKind::Comment;
        if !is_comment {
            let code = code_part(&content);
            if joined.len() > 0 {
                joined.push(' ');
            }
            append_chars(&mut joined, &code);
            let d = net_bracket_delta(&code);
            bracket = bracket + d;
            if bracket < 0 {
                bracket = 0;
            }
        }
        if bracket == 0 {
            return opens_block(&joined);
        }
        i += 1;
    }
    opens_block(&joined)
}

fn is_value_end_kind_exec(k: TokKind) -> (r: bool)
    ensures
        r == is_value_end_kind(k),
{
    k == TokKind::Ident || k == TokKind::Int || k == TokKind::Real || k == TokKind::Str
        || k == TokKind::True || k == TokKind::False || k == TokKind::RParen
        || k == TokKind::RBracket || k == TokKind::RSeq || k == TokKind::Hash
}

/// Is the sign at `idx` binary, i.e. does the token before it end a value?
fn is_value_end_lookback(ct: &Vec<Token>, idx: usize) -> (r: bool)
    requires
        idx < ct.len(),
    ensures
        r == spec_value_end_lookback(ct@, idx as int),
{
    if idx == 0 {
        return false;
    }
    is_value_end_kind_exec(ct[idx - 1].kind)
}

/// Should a space separate `ct[k - 1]` and `ct[k]`?
fn wants_space_between(ct: &Vec<Token>, k: usize) -> (r: bool)
    requires
        0 < k < ct.len(),
    ensures
        r == spec_wants_space(ct@, k as int),
{
    let prev = ct[k - 1].kind;
    let cur = ct[k].kind;
    if prev == TokKind::LParen || prev == TokKind::LBracket || prev == TokKind::LSeq
        || prev == TokKind::LBrace || prev == TokKind::Hash {
        return false;
    }
    if cur == TokKind::RParen || cur == TokKind::RBracket || cur == TokKind::RSeq
        || cur == TokKind::RBrace || cur == TokKind::Comma {
        return false;
    }
    if prev == TokKind::Dot || prev == TokKind::DotDot || cur == TokKind::Dot
        || cur == TokKind::DotDot {
        return false;
    }
    if prev == TokKind::Delta || prev == TokKind::Not {
        return false;
    }
    if (cur == TokKind::LParen || cur == TokKind::LBracket) && is_value_end_kind_exec(prev) {
        return false;
    }
    if (prev == TokKind::Minus || prev == TokKind::Plus) && !is_value_end_lookback(ct, k - 1) {
        return false;
    }
    true
}

/// Join the code tokens' exact source texts with normalized spacing, or
/// `None` if a token span lies outside `code`.
fn emit_with_spacing(code: &Vec<char>, ct: &Vec<Token>) -> (r: Option<Vec<char>>)
    ensures
        r matches Some(v) ==> spec_emit_from(code@, ct@, 0, Seq::empty()) == Some(v@),
        r is None ==> spec_emit_from(code@, ct@, 0, Seq::empty()) is None,
{
    let mut out: Vec<char> = Vec::new();
    let mut k: usize = 0;
    while k < ct.len()
        invariant
            0 <= k <= ct.len(),
            spec_emit_from(code@, ct@, 0, Seq::empty()) == spec_emit_from(code@, ct@, k as int, out@),
        decreases ct.len() - k,
    {
        let st = ct[k].start;
        let en = if k + 1 < ct.len() { ct[k + 1].start } else { code.len() };
        if st > code.len() || en > code.len() || st > en {
            return None;
        }
        let piece = slice_chars(code, st, en);
        let text = trim_end(&piece);
        let ghost o = out@;
        if k > 0 && wants_space_between(ct, k) {
            out.push(' ');
        }
        append_chars(&mut out, &text);
        proof {
            let sep: Seq<char> = if k > 0 && spec_wants_space(ct@, k as int) { seq![' '] } else { Seq::empty() };
            assert(out@ =~= o + sep + text@);
        }
        k += 1;
    }
    Some(out)
}

} // verus!

verus! {

/// The code fragment with normalized operator spacing, or `None` when it
/// does not lex (the caller then keeps it verbatim).
pub fn respace_code(code: &Vec<char>) -> (r: Option<Vec<char>>)
    ensures
        r matches Some(v) ==> spec_respace_code(code@) == Some(v@),
        r is None ==> spec_respace_code(code@) is None,
{
    match tokenize(code) {
        Err(_) => None,
        Ok(toks) => {
            let ct = code_toks(&toks);
            emit_with_spacing(code, &ct)
        },
    }
}

/// Normalize the operator spacing of one logical line's text, keeping its
/// trailing comment verbatim (after two spaces). A full-line comment is
/// returned unchanged.
pub fn respace_line(line: &Vec<char>) -> (r: Vec<char>)
    ensures
        r@ == spec_respace_line(line@),
{
    let t = trim_start(line);
    if starts_with_dashes_exec(&t) {
        return slice_chars(line, 0, line.len());
    }
    let ce = code_end(line);
    let code = slice_chars(line, 0, ce);
    let rest = slice_chars(line, ce, line.len());
    let comment = trim_start(&rest);
    let respaced = match respace_code(&code) {
        Some(v) => v,
        None => trim_end(&code),
    };
    if comment.len() == 0 {
        respaced
    } else if respaced.len() == 0 {
        comment
    } else {
        let mut out = respaced;
        out.push(' ');
        out.push(' ');
        append_chars(&mut out, &comment);
        out
    }
}

/// `s` split at every `'\n'` (so `n` line breaks give `n + 1` pieces).
pub open spec fn spec_split_lines(s: Seq<char>) -> Seq<Seq<char>>
    decreases s.len(),
{
    if s.len() == 0 {
        seq![Seq::<char>::empty()]
    } else {
        let l = spec_split_lines(s.drop_last());
        if s.last() == '\n' {
            l.push(Seq::empty())
        } else {
            l.update(l.len() - 1, l.last().push(s.last()))
        }
    }
}

pub proof fn lemma_split_nonempty(s: Seq<char>)
    ensures
        spec_split_lines(s).len() >= 1,
    decreases s.len(),
{
    if s.len() > 0 {
        lemma_split_nonempty(s.drop_last());
    }
}

/// Split `s` at every line break.
pub fn split_lines(s: &Vec<char>) -> (r: Vec<Vec<char>>)
    ensures
        lines_view(r@) == spec_split_lines(s@),
        lines_total(lines_view(r@)) <= s.len(),
{
    let mut lines: Vec<Vec<char>> = Vec::new();
    let mut cur: Vec<char> = Vec::new();
    let mut i: usize = 0;
    while i < s.len()
        invariant
            0 <= i <= s.len(),
            lines_view(lines@).push(cur@) == spec_split_lines(s@.take(i as int)),
            lines_total(lines_view(lines@)) + cur.len() <= i,
        decreases s.len() - i,
    {
        let ghost before = lines_view(lines@).push(cur@);
        proof {
            lemma_split_nonempty(s@.take(i as int));
            assert(s@.take(i + 1).drop_last() =~= s@.take(i as int));
        }
        if s[i] == '\n' {
            let ghost lv0 = lines_view(lines@);
            let done = cur;
            lines.push(done);
            cur = Vec::new();
            assert(lines_view(lines@).drop_last() =~= lv0);
            assert(lines_view(lines@).push(cur@) =~= before.push(Seq::empty()));
        } else {
            cur.push(s[i]);
            assert(lines_view(lines@).push(cur@) =~= before.update(before.len() - 1, before.last().push(s@[i as int])));
        }
        i += 1;
    }
    assert(s@.take(s.len() as int) =~= s@);
    let ghost before = lines_view(lines@).push(cur@);
    let ghost lv0 = lines_view(lines@);
    lines.push(cur);
    assert(lines_view(lines@) =~= before);
    assert(lines_view(lines@).drop_last() =~= lv0);
    lines
}

/// The reindent walk's state: the nesting stack (block column, and whether
/// the last line at that depth opened a block), the carried bracket depth,
/// whether a blank line is pending, whether anything was emitted yet, and
/// the lines emitted so far.
pub struct ReindentState {
    pub stack: Seq<(int, bool)>,
    pub bracket: int,
    pub pending: bool,
    pub emitted: bool,
    pub out: Seq<Seq<char>>,
}

pub open spec fn spec_initial_state() -> ReindentState {
    ReindentState { stack: seq![(0int, true)], bracket: 0, pending: false, emitted: false, out: Seq::empty() }
}

/// Emit a pending blank line (only once something was emitted).
pub open spec fn spec_flush(st: ReindentState) -> ReindentState {
    ReindentState {
        out: if st.pending && st.emitted { st.out.push(Seq::empty()) } else { st.out },
        pending: false,
        emitted: true,
        ..st
    }
}

/// Pop the levels whose block column is deeper than `ind`.
pub open spec fn spec_pop_levels(stack: Seq<(int, bool)>, ind: int) -> Seq<(int, bool)>
    decreases stack.len(),
{
    if stack.len() > 1 && stack.last().0 > ind {
        spec_pop_levels(stack.drop_last(), ind)
    } else {
        stack
    }
}

/// Place a line of indentation `ind` on the stack: descend to a child level
/// only when the previous line at this level opened a block; otherwise (a
/// sibling, or a ragged over-indented sibling) stay and record `opens`.
pub open spec fn spec_place(stack: Seq<(int, bool)>, ind: int, opens: bool) -> Seq<(int, bool)> {
    let last = stack.last();
    if ind > last.0 && last.1 {
        stack.push((ind, opens))
    } else {
        stack.update(stack.len() - 1, (last.0, opens))
    }
}

pub open spec fn spec_spaces(n: nat) -> Seq<char> {
    Seq::new(n, |i: int| ' ')
}

/// One physical line of the reindent walk.
pub open spec fn spec_reindent_step(phys: Seq<Seq<char>>, i: int, st: ReindentState) -> ReindentState {
    let raw = phys[i];
    if spec_classify(raw) == LineKind::Blank {
        if st.emitted { ReindentState { pending: true, ..st } } else { st }
    } else if st.bracket > 0 {
        let content = spec_trim_end(raw);
        let f = spec_flush(st);
        ReindentState { out: f.out.push(content), bracket: f.bracket + spec_bracket_delta(content), ..f }
    } else {
        let content = spec_trim_end(raw);
        let ind = sat_u64(spec_leading_width(content)) as int;
        let opens = spec_classify(content) != LineKind::Comment && spec_logical_line_opens_block(phys, i);
        let stack = spec_place(spec_pop_levels(st.stack, ind), ind, opens);
        let depth = (stack.len() - 1) as nat;
        let f = spec_flush(st);
        let line = spec_spaces(4 * depth) + spec_respace_line(spec_trim_start(content));
        let b = f.bracket + spec_bracket_delta(spec_code_part(content));
        ReindentState { stack, out: f.out.push(line), bracket: if b < 0 { 0 } else { b }, ..f }
    }
}

pub open spec fn spec_reindent_from(phys: Seq<Seq<char>>, i: int, st: ReindentState) -> ReindentState
    decreases phys.len() - i,
{
    if i < 0 || i >= phys.len() {
        st
    } else {
        spec_reindent_from(phys, i + 1, spec_reindent_step(phys, i, st))
    }
}

/// `lines` joined with `'\n'` between consecutive lines.
pub open spec fn spec_join_lines(lines: Seq<Seq<char>>) -> Seq<char>
    decreases lines.len(),
{
    if lines.len() == 0 {
        Seq::empty()
    } else if lines.len() == 1 {
        lines[0]
    } else {
        spec_join_lines(lines.drop_last()).push('\n') + lines.last()
    }
}

/// The re-indented text: the emitted lines joined by line breaks, plus one
/// final line break unless the result is empty.
pub open spec fn spec_reindent(src: Seq<char>) -> Seq<char> {
    let out = spec_reindent_from(spec_split_lines(src), 0, spec_initial_state()).out;
    let j = spec_join_lines(out);
    if j.len() == 0 { j } else { j.push('\n') }
}

} // verus!

verus! {

pub open spec fn stack_view(v: Seq<(u64, bool)>) -> Seq<(int, bool)> {
    Seq::new(v.len(), |k: int| (v[k].0 as int, v[k].1))
}

/// Append `4 * depth` spaces.
fn push_indent(out: &mut Vec<char>, depth: usize)
    ensures
        final(out)@ == old(out)@ + spec_spaces((4 * depth) as nat),
{
    let mut k: usize = 0;
    while k < depth
        invariant
            0 <= k <= depth,
            out@ == old(out)@ + spec_spaces((4 * k) as nat),
        decreases depth - k,
    {
        out.push(' ');
        out.push(' ');
        out.push(' ');
        out.push(' ');
        assert(out@ =~= old(out)@ + spec_spaces((4 * (k + 1)) as nat));
        k += 1;
    }
}

/// Join lines with `'\n'`, adding a final `'\n'` unless the result is empty.
fn join_lines(lines: &Vec<Vec<char>>) -> (r: Vec<char>)
    ensures
        r@ == (if spec_join_lines(lines_view(lines@)).len() == 0 {
            spec_join_lines(lines_view(lines@))
        } else {
            spec_join_lines(lines_view(lines@)).push('\n')
        }),
{
    let mut out: Vec<char> = Vec::new();
    let mut i: usize = 0;
    while i < lines.len()
        invariant
            0 <= i <= lines.len(),
            out@ == spec_join_lines(lines_view(lines@).take(i as int)),
        decreases lines.len() - i,
    {
        let ghost before = out@;
        if i > 0 {
            out.push('\n');
        }
        append_chars(&mut out, &lines[i]);
        proof {
            let lv = lines_view(lines@);
            assert(lv.take(i + 1).drop_last() =~= lv.take(i as int));
            if i == 0 {
                assert(lv.take(1)[0] == lines@[0]@);
            }
            assert(lv.take(i + 1).last() == lines@[i as int]@);
        }
        i += 1;
    }
    assert(lines_view(lines@).take(lines.len() as int) =~= lines_view(lines@));
    if out.len() > 0 {
        out.push('\n');
    }
    out
}

/// Re-derive indentation structurally and clean up whitespace: every
/// logical line is placed on a 4-space grid at its nesting depth (nesting
/// only under block openers), operator spacing is normalized, trailing
/// whitespace is trimmed, blank-line runs collapse to one and leading and
/// trailing blank lines are dropped. Lines inside an open bracket keep their
/// alignment.
pub fn reindent(src: &Vec<char>) -> (r: Vec<char>)
    ensures
        r@ == spec_reindent(src@),
{
    let phys = split_lines(src);
    let ghost pv = lines_view(phys@);
    let mut stack: Vec<(u64, bool)> = Vec::new();
    stack.push((0, true));
    let mut bracket: i128 = 0;
    let mut pending = false;
    let mut emitted = false;
    let mut out: Vec<Vec<char>> = Vec::new();
    assert(stack_view(stack@) =~= seq![(0int, true)]);
    assert(lines_view(out@) =~= Seq::<Seq<char>>::empty());
    let mut i: usize = 0;
    while i < phys.len()
        invariant
            0 <= i <= phys.len(),
            pv == lines_view(phys@),
            lines_total(pv) <= src.len(),
            1 <= stack.len() <= i + 1,
            -lines_total(pv.take(i as int)) <= bracket <= lines_total(pv.take(i as int)),
            spec_reindent_from(pv, 0, spec_initial_state()) == spec_reindent_from(
                pv,
                i as int,
                ReindentState {
                    stack: stack_view(stack@),
                    bracket: bracket as int,
                    pending,
                    emitted,
                    out: lines_view(out@),
                },
            ),
        decreases phys.len() - i,
    {
        let ghost st = ReindentState {
            stack: stack_view(stack@),
            bracket: bracket as int,
            pending,
            emitted,
            out: lines_view(out@),
        };
        let ghost next = spec_reindent_step(pv, i as int, st);
        let raw = &phys[i];
        assert(pv[i as int] == raw@);
        proof {
            lemma_lines_total_step(pv, i as int);
            lemma_lines_total_prefix(pv, i + 1);
            lemma_lines_total_prefix(pv, i as int);
        }
        if classify(raw) == LineKind::Blank {
            if emitted {
                pending = true;
            }
        } else if bracket > 0 {
            let content = trim_end(raw);
            proof {
                lemma_ws_start(raw@, raw@.len() as int);
            }
            if pending && emitted {
                out.push(Vec::new());
            }
            pending = false;
            emitted = true;
            let d = net_bracket_delta(&content);
            bracket = bracket + d;
            out.push(content);
        } else {
            let content = trim_end(raw);
            proof {
                lemma_ws_start(raw@, raw@.len() as int);
                lemma_code_end(content@, 0, false);
            }
            let ind = leading_ws_width(&content);
            let opens = classify(&content) != LineKind::Comment && logical_line_opens_block(&phys, i);
            let ghost popped = spec_pop_levels(st.stack, ind as int);
            while stack.len() > 1 && stack[stack.len() - 1].0 > ind
                invariant
                    1 <= stack.len() <= i + 1,
                    spec_pop_levels(stack_view(stack@), ind as int) == popped,
                decreases stack.len(),
            {
                let ghost sv = stack_view(stack@);
                stack.pop();
                assert(stack_view(stack@) =~= sv.drop_last());
            }
            let last = stack[stack.len() - 1];
            let ghost sv = stack_view(stack@);
            if ind > last.0 && last.1 {
                stack.push((ind, opens));
                assert(stack_view(stack@) =~= sv.push((ind as int, opens)));
            } else {
                stack.set(stack.len() - 1, (last.0, opens));
                assert(stack_view(stack@) =~= sv.update(sv.len() - 1, (last.0 as int, opens)));
            }
            let depth = stack.len() - 1;
            if pending && emitted {
                out.push(Vec::new());
            }
            pending = false;
            emitted = true;
            let trimmed = trim_start(&content);
            let body = respace_line(&trimmed);
            let mut line: Vec<char> = Vec::new();
            push_indent(&mut line, depth);
            append_chars(&mut line, &body);
            out.push(line);
            let code = code_part(&content);
            let d = net_bracket_delta(&code);
            bracket = bracket + d;
            if bracket < 0 {
                bracket = 0;
            }
        }
        proof {
            let now = ReindentState {
                stack: stack_view(stack@),
                bracket: bracket as int,
                pending,
                emitted,
                out: lines_view(out@),
            };
            assert(now.out =~= next.out);
            assert(now.stack =~= next.stack);
            assert(now == next);
        }
        i += 1;
    }
    let r = join_lines(&out);
    r
}

} // verus!

verus! {

/// Tokens other than `Newline` and `Indent`: the ones whose order and text
/// a layout change must not disturb.
pub open spec fn is_real_tok(t: Token) -> bool {
    t.kind != TokKind::Newline && t.kind != TokKind::Indent
}

pub open spec fn spec_real_toks(toks: Seq<Token>) -> Seq<Token>
    decreases toks.len(),
{
    if toks.len() == 0 {
        Seq::empty()
    } else {
        let r = spec_real_toks(toks.drop_last());
        if is_real_tok(toks.last()) {
            r.push(toks.last())
        } else {
            r
        }
    }
}

/// The source text of token `t` in `s` (empty if its span is out of range).
pub open spec fn tok_text(s: Seq<char>, t: Token) -> Seq<char> {
    if t.start <= t.end && t.end <= s.len() {
        s.subrange(t.start as int, t.end as int)
    } else {
        Seq::empty()
    }
}

/// The real tokens of `t1` (over `s1`) and `t2` (over `s2`) agree one for
/// one in kind and text.
pub open spec fn spec_same_real(s1: Seq<char>, t1: Seq<Token>, s2: Seq<char>, t2: Seq<Token>) -> bool {
    let r1 = spec_real_toks(t1);
    let r2 = spec_real_toks(t2);
    &&& r1.len() == r2.len()
    &&& forall|k: int|
        #![trigger r1[k]]
        0 <= k < r1.len() ==> r1[k].kind == r2[k].kind && tok_text(s1, r1[k]) == tok_text(s2, r2[k])
}

/// Why formatting was refused.
#[derive(PartialEq, Eq, Structural, Clone, Copy, Debug)]
pub enum FmtFailure {
    /// The input does not lex.
    Lex(crate::lexer::LexError),
    /// The formatted text does not lex.
    Relex(crate::lexer::LexError),
    /// Formatting changed a real token.
    Perturbed,
    /// Formatting the formatted text would change it again.
    NotIdempotent,
}

/// The formatter: the re-indented text, provided the input lexes, the
/// output lexes, every real token survives in order with its text, and a
/// second pass is a fixed point.
pub open spec fn spec_format(src: Seq<char>) -> Result<Seq<char>, FmtFailure> {
    match spec_tokenize(src) {
        Err(e) => Err(FmtFailure::Lex(e)),
        Ok(orig) => {
            let f = spec_reindent(src);
            match spec_tokenize(f) {
                Err(e) => Err(FmtFailure::Relex(e)),
                Ok(new) => {
                    if !spec_same_real(src, orig, f, new) {
                        Err(FmtFailure::Perturbed)
                    } else if spec_reindent(f) != f {
                        Err(FmtFailure::NotIdempotent)
                    } else {
                        Ok(f)
                    }
                },
            }
        },
    }
}

fn is_real_tok_exec(t: &Token) -> (r: bool)
    ensures
        r == is_real_tok(*t),
{
    t.kind != TokKind::Newline && t.kind != TokKind::Indent
}

/// The real tokens (all but `Newline` and `Indent`), in order.
pub fn real_tokens(toks: &Vec<Token>) -> (r: Vec<Token>)
    ensures
        r@ == spec_real_toks(toks@),
{
    let mut out: Vec<Token> = Vec::new();
    let mut i: usize = 0;
    while i < toks.len()
        invariant
            0 <= i <= toks.len(),
            out@ == spec_real_toks(toks@.take(i as int)),
        decreases toks.len() - i,
    {
        assert(toks@.take(i + 1).drop_last() =~= toks@.take(i as int));
        if is_real_tok_exec(&toks[i]) {
            out.push(toks[i]);
        }
        i += 1;
    }
    assert(toks@.take(toks.len() as int) =~= toks@);
    out
}

fn tok_text_exec(s: &Vec<char>, t: &Token) -> (r: Vec<char>)
    ensures
        r@ == tok_text(s@, *t),
{
    if t.start <= t.end && t.end <= s.len() {
        slice_chars(s, t.start, t.end)
    } else {
        Vec::new()
    }
}

/// Do the real tokens of the two token streams agree in kind and text?
#[verifier::loop_isolation(false)]
pub fn same_real_tokens(s1: &Vec<char>, t1: &Vec<Token>, s2: &Vec<char>, t2: &Vec<Token>) -> (r: bool)
    ensures
        r == spec_same_real(s1@, t1@, s2@, t2@),
{
    let r1 = real_tokens(t1);
    let r2 = real_tokens(t2);
    if r1.len() != r2.len() {
        return false;
    }
    let mut k: usize = 0;
    while k < r1.len()
        invariant
            r1.len() == r2.len(),
            0 <= k <= r1.len(),
            forall|m: int|
                #![trigger r1@[m]]
                0 <= m < k ==> r1@[m].kind == r2@[m].kind && tok_text(s1@, r1@[m]) == tok_text(s2@, r2@[m]),
        decreases r1.len() - k,
    {
        if r1[k].kind != r2[k].kind {
            assert(r1@[k as int].kind != r2@[k as int].kind);
            return false;
        }
        let a = tok_text_exec(s1, &r1[k]);
        let b = tok_text_exec(s2, &r2[k]);
        if !chars_eq(&a, &b) {
            assert(tok_text(s1@, r1@[k as int]) != tok_text(s2@, r2@[k as int]));
            return false;
        }
        assert(tok_text(s1@, r1@[k as int]) == tok_text(s2@, r2@[k as int]));
        k += 1;
    }
    true
}

/// Format a char sequence: the exact contract is [`spec_format`].
pub fn format_chars(src: &Vec<char>) -> (r: Result<Vec<char>, FmtFailure>)
    ensures
        match r {
            Ok(v) => spec_format(src@) == Ok::<Seq<char>, FmtFailure>(v@),
            Err(f) => spec_format(src@) == Err::<Seq<char>, FmtFailure>(f),
        },
{
    let orig = match tokenize(src) {
        Ok(t) => t,
        Err(e) => {
            return Err(FmtFailure::Lex(e));
        },
    };
    let formatted = reindent(src);
    let new_tokens = match tokenize(&formatted) {
        Ok(t) => t,
        Err(e) => {
            return Err(FmtFailure::Relex(e));
        },
    };
    if !same_real_tokens(src, &orig, &formatted, &new_tokens) {
        return Err(FmtFailure::Perturbed);
    }
    let twice = reindent(&formatted);
    if !chars_eq(&twice, &formatted) {
        return Err(FmtFailure::NotIdempotent);
    }
    Ok(formatted)
}

/// The message that explains a refusal.
pub open spec fn failure_message(f: FmtFailure) -> Seq<char> {
    match f {
        FmtFailure::Lex(_) => "unterminated string literal"@,
        FmtFailure::Relex(_) => "internal: formatted output failed to lex: unterminated string literal"@,
        FmtFailure::Perturbed => "internal: re-indent perturbed the token stream — refusing to emit. This is a formatter bug, please report it. File left unchanged."@,
        FmtFailure::NotIdempotent => "internal: formatter is not idempotent — refusing to emit"@,
    }
}

fn failure_message_exec(f: FmtFailure) -> (r: String)
    ensures
        r@ == failure_message(f),
{
    match f {
        FmtFailure::Lex(_) => "unterminated string literal".to_owned(),
        FmtFailure::Relex(_) => "internal: formatted output failed to lex: unterminated string literal".to_owned(),
        FmtFailure::Perturbed => "internal: re-indent perturbed the token stream — refusing to emit. This is a formatter bug, please report it. File left unchanged.".to_owned(),
        FmtFailure::NotIdempotent => "internal: formatter is not idempotent — refusing to emit".to_owned(),
    }
}

/// Law: a successful result is a fixed point — formatting it again succeeds
/// and returns it unchanged.
pub proof fn law_format_fixed_point(src: Seq<char>)
    requires
        spec_format(src) is Ok,
    ensures
        spec_format(spec_format(src)->Ok_0) == spec_format(src),
{
    let out = spec_format(src)->Ok_0;
    assert(spec_reindent(src) == out);
    assert(spec_reindent(out) == out);
    let new = spec_tokenize(out)->Ok_0;
    assert(spec_same_real(out, new, out, new));
}

/// Law: a successful result keeps every real token of the input, in order,
/// with the same kind and the same text.
pub proof fn law_format_preserves_tokens(src: Seq<char>)
    requires
        spec_format(src) is Ok,
    ensures
        spec_tokenize(src) is Ok,
        spec_tokenize(spec_format(src)->Ok_0) is Ok,
        spec_same_real(src, spec_tokenize(src)->Ok_0, spec_format(src)->Ok_0, spec_tokenize(spec_format(src)->Ok_0)->Ok_0),
{
}

} // verus!

verus! {

pub open spec fn strictly_increasing(d: Seq<i64>) -> bool {
    forall|a: int, b: int| 0 <= a < b < d.len() ==> d[a] < d[b]
}

pub proof fn lemma_increasing_index_bound(d: Seq<i64>, j: int)
    requires
        strictly_increasing(d),
        0 <= j < d.len(),
        d.len() > 0 && d[0] >= 0,
    ensures
        d[j] >= j,
    decreases j,
{
    if j > 0 {
        lemma_increasing_index_bound(d, j - 1);
    }
}

/// `d` lists, in increasing order and without repeats, exactly the
/// non-negative values of `vals`.
pub open spec fn is_rank_table(d: Seq<i64>, vals: Seq<i64>) -> bool {
    &&& strictly_increasing(d)
    &&& forall|x: i64| d.contains(x) <==> (x >= 0 && vals.contains(x))
}

/// `r` replaces each non-negative value of `vals` by its position in the
/// rank table `d`, and each negative value by -1.
pub open spec fn is_rank_image(r: Seq<i64>, d: Seq<i64>, vals: Seq<i64>) -> bool {
    &&& r.len() == vals.len()
    &&& forall|k: int|
        #![trigger r[k]]
        0 <= k < vals.len() ==> if vals[k] < 0 {
            r[k] == -1
        } else {
            0 <= r[k] < d.len() && d[r[k] as int] == vals[k]
        }
}

/// Replace each non-negative value by its rank among the distinct
/// non-negative values (ascending), and each negative value by -1.
pub fn rank_normalize(vals: &Vec<i64>) -> (r: Vec<i64>)
    ensures
        exists|d: Seq<i64>| is_rank_table(d, vals@) && is_rank_image(r@, d, vals@),
{
    let mut distinct: Vec<i64> = Vec::new();
    let mut i: usize = 0;
    while i < vals.len()
        invariant
            0 <= i <= vals.len(),
            strictly_increasing(distinct@),
            forall|x: i64| distinct@.contains(x) <==> (x >= 0 && vals@.take(i as int).contains(x)),
        decreases vals.len() - i,
    {
        let v = vals[i];
        let ghost before = distinct@;
        proof {
            assert forall|x: i64| vals@.take(i + 1).contains(x) <==> (vals@.take(i as int).contains(x) || x == v) by {
                if vals@.take(i + 1).contains(x) {
                    let m = choose|m: int| 0 <= m < i + 1 && #[trigger] vals@.take(i + 1)[m] == x;
                    if m < i {
                        assert(vals@.take(i as int)[m] == x);
                    }
                }
                if vals@.take(i as int).contains(x) {
                    let m = choose|m: int| 0 <= m < i && #[trigger] vals@.take(i as int)[m] == x;
                    assert(vals@.take(i + 1)[m] == x);
                }
                if x == v {
                    assert(vals@.take(i + 1)[i as int] == x);
                }
            }
        }
        if v >= 0 {
            let mut p: usize = 0;
            while p < distinct.len() && distinct[p] < v
                invariant
                    0 <= p <= distinct.len(),
                    distinct@ == before,
                    forall|a: int| 0 <= a < p ==> distinct@[a] < v,
                decreases distinct.len() - p,
            {
                p += 1;
            }
            if p < distinct.len() && distinct[p] == v {
                assert(distinct@.contains(v)) by {
                    assert(distinct@[p as int] == v);
                }
            } else {
                distinct.insert(p, v);
                proof {
                    let d = distinct@;
                    assert forall|a: int, b: int| 0 <= a < b < d.len() implies d[a] < d[b] by {
                        if a < p && b == p {
                        } else if a < p && b > p {
                            assert(d[b] == before[b - 1]);
                            assert(v < before[p as int]);
                            if b - 1 > p {
                                assert(before[p as int] < before[b - 1]);
                            }
                        } else if a == p {
                            assert(d[b] == before[b - 1]);
                            assert(v <= before[p as int]);
                            if b - 1 > p {
                                assert(before[p as int] < before[b - 1]);
                            }
                        } else {
                        }
                    }
                    assert forall|x: i64| d.contains(x) <==> (before.contains(x) || x == v) by {
                        if d.contains(x) {
                            let m = choose|m: int| 0 <= m < d.len() && #[trigger] d[m] == x;
                            if m < p {
                                assert(before[m] == x);
                            } else if m > p {
                                assert(before[m - 1] == x);
                            }
                        }
                        if before.contains(x) {
                            let m = choose|m: int| 0 <= m < before.len() && #[trigger] before[m] == x;
                            if m < p {
                                assert(d[m] == x);
                            } else {
                                assert(d[m + 1] == x);
                            }
                        }
                        if x == v {
                            assert(d[p as int] == x);
                        }
                    }
                }
            }
        }
        i += 1;
    }
    assert(vals@.take(vals.len() as int) =~= vals@);
    let mut out: Vec<i64> = Vec::new();
    let mut k: usize = 0;
    while k < vals.len()
        invariant
            0 <= k <= vals.len(),
            out.len() == k,
            strictly_increasing(distinct@),
            forall|x: i64| distinct@.contains(x) <==> (x >= 0 && vals@.contains(x)),
            forall|m: int|
                #![trigger out@[m]]
                0 <= m < k ==> if vals@[m] < 0 {
                    out@[m] == -1
                } else {
                    0 <= out@[m] < distinct.len() && distinct@[out@[m] as int] == vals@[m]
                },
        decreases vals.len() - k,
    {
        let v = vals[k];
        if v < 0 {
            out.push(-1);
        } else {
            assert(vals@.contains(v)) by {
                assert(vals@[k as int] == v);
            }
            assert(distinct@.contains(v));
            let mut j: usize = 0;
            while j < distinct.len() && distinct[j] != v
                invariant
                    0 <= j <= distinct.len(),
                    distinct@.contains(v),
                    forall|a: int| 0 <= a < j ==> distinct@[a] != v,
                decreases distinct.len() - j,
            {
                j += 1;
            }
            proof {
                if j == distinct.len() {
                    let m = choose|m: int| 0 <= m < distinct@.len() && #[trigger] distinct@[m] == v;
                    assert(distinct@[m] != v);
                }
                assert(distinct@.contains(distinct@[0]));
                lemma_increasing_index_bound(distinct@, j as int);
            }
            out.push(j as i64);
        }
        k += 1;
    }
    assert(is_rank_table(distinct@, vals@));
    assert(is_rank_image(out@, distinct@, vals@));
    out
}

} // verus!

verus! {

/// The raw layout trace of a token stream: each `Indent` width (as `i64`)
/// and a -1 for each `Newline`, in order.
pub open spec fn spec_layout_trace(toks: Seq<Token>) -> Seq<i64>
    decreases toks.len(),
{
    if toks.len() == 0 {
        Seq::empty()
    } else {
        let r = spec_layout_trace(toks.drop_last());
        let t = toks.last();
        if t.kind == TokKind::Indent {
            r.push(t.width as i64)
        } else if t.kind == TokKind::Newline {
            r.push(-1i64)
        } else {
            r
        }
    }
}

/// `sig` is the structural signature of `toks`: its layout trace with the
/// indent widths replaced by their ranks, so only their ordering matters.
pub open spec fn is_signature(sig: Seq<i64>, toks: Seq<Token>) -> bool {
    exists|d: Seq<i64>| is_rank_table(d, spec_layout_trace(toks)) && is_rank_image(sig, d, spec_layout_trace(toks))
}

/// The structural signature of a token stream: indent widths, rank
/// normalized, interleaved with -1 for each line break.
pub fn structure_signature(toks: &Vec<Token>) -> (r: Vec<i64>)
    ensures
        is_signature(r@, toks@),
{
    let mut widths: Vec<i64> = Vec::new();
    let mut i: usize = 0;
    while i < toks.len()
        invariant
            0 <= i <= toks.len(),
            widths@ == spec_layout_trace(toks@.take(i as int)),
        decreases toks.len() - i,
    {
        assert(toks@.take(i + 1).drop_last() =~= toks@.take(i as int));
        let t = toks[i];
        if t.kind == TokKind::Indent {
            widths.push(t.width as i64);
        } else if t.kind == TokKind::Newline {
            widths.push(-1);
        }
        i += 1;
    }
    assert(toks@.take(toks.len() as int) =~= toks@);
    rank_normalize(&widths)
}

fn i64s_eq(a: &Vec<i64>, b: &Vec<i64>) -> (r: bool)
    ensures
        r == (a@ == b@),
{
    if a.len() != b.len() {
        return false;
    }
    let mut i: usize = 0;
    while i < a.len()
        invariant
            a.len() == b.len(),
            0 <= i <= a.len(),
            forall|k: int| 0 <= k < i ==> a@[k] == b@[k],
        decreases a.len() - i,
    {
        if a[i] != b[i] {
            return false;
        }
        i += 1;
    }
    assert(a@ =~= b@);
    true
}

/// Are two token streams equivalent for formatting purposes: the same real
/// tokens with the same texts, and the same block structure (relative
/// indentation interleaved with line breaks)?
pub fn tokens_equivalent(s1: &Vec<char>, t1: &Vec<Token>, s2: &Vec<char>, t2: &Vec<Token>) -> (r: bool)
    ensures
        r == (spec_same_real(s1@, t1@, s2@, t2@) && exists|sig: Seq<i64>|
            #![trigger is_signature(sig, t1@), is_signature(sig, t2@)]
            is_signature(sig, t1@) && is_signature(sig, t2@)),
{
    if !same_real_tokens(s1, t1, s2, t2) {
        return false;
    }
    let a = structure_signature(t1);
    let b = structure_signature(t2);
    let eq = i64s_eq(&a, &b);
    proof {
        if !eq {
            assert forall|sig: Seq<i64>| !(is_signature(sig, t1@) && is_signature(sig, t2@)) by {
                if is_signature(sig, t1@) && is_signature(sig, t2@) {
                    lemma_signature_unique(sig, a@, t1@);
                    lemma_signature_unique(sig, b@, t2@);
                }
            }
        }
    }
    eq
}

/// Two strictly increasing sequences with the same elements are equal.
pub proof fn lemma_increasing_same_elements(d1: Seq<i64>, d2: Seq<i64>)
    requires
        strictly_increasing(d1),
        strictly_increasing(d2),
        forall|x: i64| d1.contains(x) <==> d2.contains(x),
    ensures
        d1 == d2,
    decreases d1.len(),
{
    if d1.len() == 0 {
        if d2.len() > 0 {
            assert(d2.contains(d2[0]));
        }
        assert(d1 =~= d2);
    } else {
        assert(d1.contains(d1[0]));
        if d2.len() == 0 {
            assert(false);
        }
        assert(d2.contains(d2[0]));
        let i = choose|i: int| 0 <= i < d1.len() && d1[i] == d2[0];
        let j = choose|j: int| 0 <= j < d2.len() && d2[j] == d1[0];
        assert(d1[0] <= d1[i]);
        assert(d2[0] <= d2[j]);
        assert(d1[0] == d2[0]);
        let r1 = d1.drop_first();
        let r2 = d2.drop_first();
        assert forall|x: i64| r1.contains(x) <==> r2.contains(x) by {
            if r1.contains(x) {
                let m = choose|m: int| 0 <= m < r1.len() && r1[m] == x;
                assert(d1[m + 1] == x);
                assert(d1.contains(x));
                let n = choose|n: int| 0 <= n < d2.len() && d2[n] == x;
                if n == 0 {
                    assert(d1[0] < d1[m + 1]);
                }
                assert(r2[n - 1] == x);
            }
            if r2.contains(x) {
                let m = choose|m: int| 0 <= m < r2.len() && r2[m] == x;
                assert(d2[m + 1] == x);
                assert(d2.contains(x));
                let n = choose|n: int| 0 <= n < d1.len() && d1[n] == x;
                if n == 0 {
                    assert(d2[0] < d2[m + 1]);
                }
                assert(r1[n - 1] == x);
            }
        }
        lemma_increasing_same_elements(r1, r2);
        assert(d1 =~= seq![d1[0]] + r1);
        assert(d2 =~= seq![d2[0]] + r2);
    }
}

/// A token stream has one structural signature.
pub proof fn lemma_signature_unique(s1: Seq<i64>, s2: Seq<i64>, toks: Seq<Token>)
    requires
        is_signature(s1, toks),
        is_signature(s2, toks),
    ensures
        s1 == s2,
{
    let vals = spec_layout_trace(toks);
    let d1 = choose|d: Seq<i64>| is_rank_table(d, vals) && is_rank_image(s1, d, vals);
    let d2 = choose|d: Seq<i64>| is_rank_table(d, vals) && is_rank_image(s2, d, vals);
    lemma_increasing_same_elements(d1, d2);
    assert forall|k: int| 0 <= k < s1.len() implies s1[k] == s2[k] by {
        if vals[k] >= 0 {
            let a = s1[k] as int;
            let b = s2[k] as int;
            if a < b {
                assert(d1[a] < d1[b]);
            } else if b < a {
                assert(d1[b] < d1[a]);
            }
        }
    }
    assert(s1 =~= s2);
}


/// The two token streams have one structural signature.
pub open spec fn same_structure(t1: Seq<Token>, t2: Seq<Token>) -> bool {
    exists|sig: Seq<i64>| #![trigger is_signature(sig, t1), is_signature(sig, t2)] is_signature(sig, t1) && is_signature(sig, t2)
}

pub open spec fn restructured_message() -> Seq<char> {
    "internal: re-indent changed the block structure of a valid program — refusing to emit. This is a formatter bug, please report it. File left unchanged."@
}

/// The refusal of a re-indented text that does not parse (`e` is the
/// parser's error): a formatter bug where the source parsed, else a source
/// malformed beyond what re-indentation repairs.
pub open spec fn unparsed_message(src_parses: bool, e: Seq<char>) -> Seq<char> {
    if src_parses {
        "internal: formatted output failed to parse — refusing to emit. This is a formatter bug, please report it.\n  "@ + e
    } else {
        "refusing to format: the source does not parse even after re-indentation, so it is malformed beyond a layout fix (a token-level syntax error, not just ragged indentation). Fix the source and re-run. File left unchanged.\n  "@
            + e
    }
}

/// What formatting `src` gives, where `src_parses` says whether the source
/// parses and `out_parse` is the parser's verdict on the re-indented text
/// `spec_reindent(src)`. In order: the source must lex, the re-indented
/// text must lex and keep every real token, must keep the block structure
/// of a source that parses, must parse, and must be a fixed point.
pub open spec fn format_outcome(src: Seq<char>, src_parses: bool, out_parse: Result<(), Seq<char>>) -> Result<Seq<char>, Seq<char>> {
    match spec_tokenize(src) {
        Err(e) => Err(failure_message(FmtFailure::Lex(e))),
        Ok(orig) => {
            let f = spec_reindent(src);
            match spec_tokenize(f) {
                Err(e) => Err(failure_message(FmtFailure::Relex(e))),
                Ok(new) => if !spec_same_real(src, orig, f, new) {
                    Err(failure_message(FmtFailure::Perturbed))
                } else if src_parses && !same_structure(orig, new) {
                    Err(restructured_message())
                } else if out_parse is Err {
                    Err(unparsed_message(src_parses, out_parse->Err_0))
                } else if spec_reindent(f) != f {
                    Err(failure_message(FmtFailure::NotIdempotent))
                } else {
                    Ok(f)
                },
            }
        },
    }
}

pub open spec fn parse_view(p: Result<(), String>) -> Result<(), Seq<char>> {
    match p {
        Ok(_) => Ok(()),
        Err(e) => Err(e@),
    }
}

/// Format Evident source text; see `format_outcome`. The parser is not
/// part of this crate: `src_parses` is its verdict on `src`, and
/// `out_parse` its verdict (with its error text) on `reindent(src)`. On
/// success the result is token-equivalent to the input, parses, keeps the
/// block structure of a source that parses, and is a fixed point of the
/// re-indent; otherwise the error says why the text was left alone.
pub fn format_source(src: &str, src_parses: bool, out_parse: &Result<(), String>) -> (r: Result<String, String>)
    ensures
        match r {
            Ok(out) => format_outcome(src@, src_parses, parse_view(*out_parse)) == Ok::<Seq<char>, Seq<char>>(out@),
            Err(msg) => format_outcome(src@, src_parses, parse_view(*out_parse)) == Err::<Seq<char>, Seq<char>>(msg@),
        },
{
    let chars = str_to_chars(src);
    let orig = match tokenize(&chars) {
        Ok(t) => t,
        Err(e) => {
            return Err(failure_message_exec(FmtFailure::Lex(e)));
        },
    };
    let formatted = reindent(&chars);
    let new_tokens = match tokenize(&formatted) {
        Ok(t) => t,
        Err(e) => {
            return Err(failure_message_exec(FmtFailure::Relex(e)));
        },
    };
    if !same_real_tokens(&chars, &orig, &formatted, &new_tokens) {
        return Err(failure_message_exec(FmtFailure::Perturbed));
    }
    if src_parses {
        let a = structure_signature(&orig);
        let b = structure_signature(&new_tokens);
        if !i64s_eq(&a, &b) {
            proof {
                assert forall|sig: Seq<i64>| !(is_signature(sig, orig@) && is_signature(sig, new_tokens@)) by {
                    if is_signature(sig, orig@) && is_signature(sig, new_tokens@) {
                        lemma_signature_unique(sig, a@, orig@);
                        lemma_signature_unique(sig, b@, new_tokens@);
                    }
                }
            }
            return Err(String::from_str(
                "internal: re-indent changed the block structure of a valid program — refusing to emit. This is a formatter bug, please report it. File left unchanged.",
            ));
        }
        assert(is_signature(a@, orig@) && is_signature(a@, new_tokens@));
    }
    if let Err(e) = out_parse {
        let head = if src_parses {
            String::from_str(
                "internal: formatted output failed to parse — refusing to emit. This is a formatter bug, please report it.\n  ",
            )
        } else {
            String::from_str(
                "refusing to format: the source does not parse even after re-indentation, so it is malformed beyond a layout fix (a token-level syntax error, not just ragged indentation). Fix the source and re-run. File left unchanged.\n  ",
            )
        };
        return Err(concat_str(&head, e.as_str()));
    }
    let twice = reindent(&formatted);
    if !chars_eq(&twice, &formatted) {
        return Err(failure_message_exec(FmtFailure::NotIdempotent));
    }
    Ok(chars_to_string(&formatted))
}

/// Law: a successful format is a successful layout-only format, and the
/// re-indented text parses (by the verdict given), keeps the block
/// structure of a source that parses, and is empty or ends in a line break.
pub proof fn law_format_outcome_is_layout(src: Seq<char>, src_parses: bool, out_parse: Result<(), Seq<char>>)
    requires
        format_outcome(src, src_parses, out_parse) is Ok,
    ensures
        spec_format(src) == Ok::<Seq<char>, FmtFailure>(format_outcome(src, src_parses, out_parse)->Ok_0),
        out_parse is Ok,
        src_parses ==> same_structure(spec_tokenize(src)->Ok_0, spec_tokenize(format_outcome(src, src_parses, out_parse)->Ok_0)->Ok_0),
        format_outcome(src, src_parses, out_parse)->Ok_0.len() == 0 || format_outcome(src, src_parses, out_parse)->Ok_0.last() == '\n',
{
}

/// Law: the source is refused as malformed beyond a layout fix exactly when
/// it does not parse, its re-indent keeps every real token, and the
/// re-indented text does not parse either.
pub proof fn law_malformed_refusal(src: Seq<char>, e: Seq<char>)
    ensures
        (format_outcome(src, false, Err(e)) == Err::<Seq<char>, Seq<char>>(unparsed_message(false, e))) <==> (
        spec_tokenize(src) is Ok && spec_tokenize(spec_reindent(src)) is Ok && spec_same_real(
            src,
            spec_tokenize(src)->Ok_0,
            spec_reindent(src),
            spec_tokenize(spec_reindent(src))->Ok_0,
        )),
{
    reveal_strlit("unterminated string literal");
    reveal_strlit("internal: formatted output failed to lex: unterminated string literal");
    reveal_strlit("internal: re-indent perturbed the token stream — refusing to emit. This is a formatter bug, please report it. File left unchanged.");
    reveal_strlit("internal: formatter is not idempotent — refusing to emit");
    reveal_strlit("internal: re-indent changed the block structure of a valid program — refusing to emit. This is a formatter bug, please report it. File left unchanged.");
    reveal_strlit("refusing to format: the source does not parse even after re-indentation, so it is malformed beyond a layout fix (a token-level syntax error, not just ragged indentation). Fix the source and re-run. File left unchanged.\n  ");
    let m = unparsed_message(false, e);
    assert(m[0] == 'r');
    assert forall|f: FmtFailure| failure_message(f) != m by {
        assert(failure_message(f)[0] != 'r');
    }
    assert(restructured_message()[0] != 'r');
}


/// `d` with `x` put in its place by size.
pub open spec fn insert_sorted(d: Seq<i64>, x: i64) -> Seq<i64>
    decreases d.len(),
{
    if d.len() == 0 {
        seq![x]
    } else if x < d[0] {
        seq![x] + d
    } else {
        seq![d[0]] + insert_sorted(d.drop_first(), x)
    }
}

proof fn lemma_insert_sorted(d: Seq<i64>, x: i64)
    requires
        strictly_increasing(d),
        !d.contains(x),
    ensures
        strictly_increasing(insert_sorted(d, x)),
        forall|y: i64| insert_sorted(d, x).contains(y) <==> (d.contains(y) || y == x),
        insert_sorted(d, x).len() == d.len() + 1,
        insert_sorted(d, x).len() > 0 && (insert_sorted(d, x)[0] == x || (d.len() > 0 && insert_sorted(d, x)[0] == d[0])),
    decreases d.len(),
{
    let r = insert_sorted(d, x);
    if d.len() == 0 {
        assert forall|y: i64| r.contains(y) <==> (d.contains(y) || y == x) by {
            if y == x {
                assert(r[0] == x);
            }
        }
    } else if x < d[0] {
        assert forall|a: int, b: int| 0 <= a < b < r.len() implies r[a] < r[b] by {
            if a == 0 {
                assert(r[b] == d[b - 1]);
                if b - 1 > 0 {
                    assert(d[0] < d[b - 1]);
                }
            } else {
                assert(r[a] == d[a - 1] && r[b] == d[b - 1]);
            }
        }
        assert forall|y: i64| r.contains(y) <==> (d.contains(y) || y == x) by {
            if r.contains(y) {
                let i = choose|i: int| 0 <= i < r.len() && r[i] == y;
                if i > 0 {
                    assert(d[i - 1] == y);
                }
            }
            if d.contains(y) {
                let i = choose|i: int| 0 <= i < d.len() && d[i] == y;
                assert(r[i + 1] == y);
            }
            if y == x {
                assert(r[0] == y);
            }
        }
    } else {
        let t = d.drop_first();
        assert(strictly_increasing(t)) by {
            assert forall|a: int, b: int| 0 <= a < b < t.len() implies t[a] < t[b] by {
                assert(t[a] == d[a + 1] && t[b] == d[b + 1]);
            }
        }
        assert(!t.contains(x)) by {
            if t.contains(x) {
                let i = choose|i: int| 0 <= i < t.len() && t[i] == x;
                assert(d[i + 1] == x);
            }
        }
        lemma_insert_sorted(t, x);
        let it = insert_sorted(t, x);
        assert(x != d[0]) by {
            assert(d[0] == d[0]);
            if x == d[0] {
                assert(d.contains(x));
            }
        }
        assert forall|a: int, b: int| 0 <= a < b < r.len() implies r[a] < r[b] by {
            if a == 0 {
                assert(r[b] == it[b - 1]);
                assert(it.contains(it[b - 1]));
                if it[b - 1] != x {
                    assert(t.contains(it[b - 1]));
                    let i = choose|i: int| 0 <= i < t.len() && t[i] == it[b - 1];
                    assert(d[i + 1] == t[i]);
                    assert(d[0] < d[i + 1]);
                }
            } else {
                assert(r[a] == it[a - 1] && r[b] == it[b - 1]);
            }
        }
        assert forall|y: i64| r.contains(y) <==> (d.contains(y) || y == x) by {
            if r.contains(y) {
                let i = choose|i: int| 0 <= i < r.len() && r[i] == y;
                if i > 0 {
                    assert(it[i - 1] == y);
                    assert(it.contains(y));
                    if t.contains(y) {
                        let j = choose|j: int| 0 <= j < t.len() && t[j] == y;
                        assert(d[j + 1] == y);
                    }
                } else {
                    assert(d[0] == y);
                }
            }
            if d.contains(y) {
                let i = choose|i: int| 0 <= i < d.len() && d[i] == y;
                if i == 0 {
                    assert(r[0] == y);
                } else {
                    assert(t[i - 1] == y);
                    assert(t.contains(y));
                    assert(it.contains(y));
                    let j = choose|j: int| 0 <= j < it.len() && it[j] == y;
                    assert(r[j + 1] == y);
                }
            }
            if y == x {
                assert(it.contains(x));
                let j = choose|j: int| 0 <= j < it.len() && it[j] == x;
                assert(r[j + 1] == x);
            }
        }
    }
}

proof fn lemma_rank_table_exists(vals: Seq<i64>) -> (d: Seq<i64>)
    ensures
        is_rank_table(d, vals),
    decreases vals.len(),
{
    if vals.len() == 0 {
        let d = Seq::<i64>::empty();
        assert(is_rank_table(d, vals));
        d
    } else {
        let v0 = vals.drop_last();
        let x = vals.last();
        let d0 = lemma_rank_table_exists(v0);
        assert forall|y: i64| vals.contains(y) <==> (v0.contains(y) || y == x) by {
            if vals.contains(y) {
                let i = choose|i: int| 0 <= i < vals.len() && vals[i] == y;
                if i < v0.len() {
                    assert(v0[i] == y);
                }
            }
            if v0.contains(y) {
                let i = choose|i: int| 0 <= i < v0.len() && v0[i] == y;
                assert(vals[i] == y);
            }
            if y == x {
                assert(vals[vals.len() - 1] == y);
            }
        }
        if x < 0 || d0.contains(x) {
            assert(is_rank_table(d0, vals));
            d0
        } else {
            lemma_insert_sorted(d0, x);
            let d = insert_sorted(d0, x);
            assert forall|y: i64| d.contains(y) <==> (y >= 0 && vals.contains(y)) by {
                assert(d.contains(y) <==> (d0.contains(y) || y == x));
                assert(d0.contains(y) <==> (y >= 0 && v0.contains(y)));
            }
            assert(is_rank_table(d, vals));
            d
        }
    }
}

/// Every token stream has a structural signature.
pub proof fn lemma_signature_exists(toks: Seq<Token>)
    ensures
        exists|sig: Seq<i64>| is_signature(sig, toks),
{
    let vals = spec_layout_trace(toks);
    let d = lemma_rank_table_exists(vals);
    let sig = Seq::new(
        vals.len(),
        |k: int| if vals[k] < 0 {
            -1i64
        } else {
            (choose|j: int| 0 <= j < d.len() && d[j] == vals[k]) as i64
        },
    );
    assert forall|k: int| 0 <= k < vals.len() && vals[k] >= 0 implies 0 <= #[trigger] sig[k] < d.len() && d[sig[k] as int] == vals[k] by {
        assert(vals.contains(vals[k]));
        assert(d.contains(vals[k]));
        let j = choose|j: int| 0 <= j < d.len() && d[j] == vals[k];
        assert(d.contains(d[0]));
        lemma_increasing_index_bound(d, j);
        assert(sig[k] == j as i64);
    }
    assert(is_rank_image(sig, d, vals));
    assert(is_signature(sig, toks));
}

/// Law: the output of a successful format, formatted again with its own
/// (successful) parse, comes back unchanged: whether or not its source is
/// taken to parse, the second run refuses nothing.
pub proof fn law_format_output_is_fixed_point(src: Seq<char>, src_parses: bool, out_parse: Result<(), Seq<char>>, again_parses: bool)
    requires
        format_outcome(src, src_parses, out_parse) is Ok,
    ensures
        format_outcome(format_outcome(src, src_parses, out_parse)->Ok_0, again_parses, Ok(()))
            == format_outcome(src, src_parses, out_parse),
{
    let out = format_outcome(src, src_parses, out_parse)->Ok_0;
    law_format_outcome_is_layout(src, src_parses, out_parse);
    law_format_fixed_point(src);
    assert(spec_format(out) == Ok::<Seq<char>, FmtFailure>(out));
    let t = spec_tokenize(out)->Ok_0;
    assert(spec_reindent(out) == out);
    lemma_signature_exists(t);
    let sig = choose|sig: Seq<i64>| is_signature(sig, t);
    assert(is_signature(sig, t) && is_signature(sig, t));
    assert(same_structure(t, t));
}

} // verus!
