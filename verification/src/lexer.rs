//! Tokenizer for Evident source text.
//!
//! The lexer works on a sequence of `char`s and yields tokens that carry
//! their source span (`start..end`, char offsets), so a caller can recover the
//! exact text of every token. Comments (`-- …`) produce no token. At the start
//! of every logical line outside brackets an `Indent` token records the
//! line's leading-whitespace width (a space counts 1, a tab 4); blank and
//! comment-only lines produce nothing. Inside an open bracket, line breaks
//! and indentation are invisible.
use vstd::prelude::*;

verus! {

/// The kind of a token.
#[derive(PartialEq, Eq, Structural, Clone, Copy, Debug)]
pub enum TokKind {
    Ident,
    Int,
    Real,
    Str,
    Schema,
    Claim,
    Type,
    Fsm,
    Fti,
    Enum,
    Subclaim,
    External,
    Match,
    Matches,
    True,
    False,
    Import,
    LParen,
    RParen,
    LBracket,
    RBracket,
    LBrace,
    RBrace,
    LSeq,
    RSeq,
    Comma,
    Dot,
    DotDot,
    Hash,
    Delta,
    Not,
    Minus,
    Plus,
    Star,
    Slash,
    Colon,
    ColonEq,
    Assign,
    EqEq,
    Question,
    Lt,
    Gt,
    Le,
    Ge,
    Neq,
    And,
    Or,
    Implies,
    RevImplies,
    Concat,
    MapsTo,
    In,
    NotIn,
    Forall,
    Exists,
    Sym,
    Newline,
    Indent,
    Eof,
}

/// A token with its source span. `width` is the indentation width of an
/// `Indent` token (saturating at `u64::MAX`) and 0 for every other kind.
#[derive(PartialEq, Eq, Structural, Clone, Copy, Debug)]
pub struct Token {
    pub kind: TokKind,
    pub start: usize,
    pub end: usize,
    pub width: u64,
}

/// Why tokenizing failed.
#[derive(PartialEq, Eq, Structural, Clone, Copy, Debug)]
pub enum LexError {
    /// A string literal starting at this offset is never closed.
    UnterminatedString(usize),
}

pub open spec fn is_digit(c: char) -> bool {
    '0' <= c && c <= '9'
}

pub open spec fn is_ident_start(c: char) -> bool {
    ('a' <= c && c <= 'z') || ('A' <= c && c <= 'Z') || c == '_'
}

pub open spec fn is_ident_char(c: char) -> bool {
    is_ident_start(c) || is_digit(c)
}

/// Characters skipped between tokens on a line.
pub open spec fn is_blank_char(c: char) -> bool {
    c == ' ' || c == '\t' || c == '\r'
}

pub open spec fn mk_tok(kind: TokKind, start: int, end: int) -> Token {
    Token { kind, start: start as usize, end: end as usize, width: 0 }
}

/// Index of the first char at or after `i` that does not continue an identifier.
pub open spec fn spec_ident_end(s: Seq<char>, i: int) -> int
    decreases s.len() - i,
{
    if i < 0 || i >= s.len() || !is_ident_char(s[i]) {
        i
    } else {
        spec_ident_end(s, i + 1)
    }
}

/// Index of the first char at or after `i` that is not a decimal digit.
pub open spec fn spec_digits_end(s: Seq<char>, i: int) -> int
    decreases s.len() - i,
{
    if i < 0 || i >= s.len() || !is_digit(s[i]) {
        i
    } else {
        spec_digits_end(s, i + 1)
    }
}

/// Index of the first `'\n'` at or after `i`, or the length of `s`.
pub open spec fn spec_line_end(s: Seq<char>, i: int) -> int
    decreases s.len() - i,
{
    if i < 0 || i >= s.len() || s[i] == '\n' {
        if i < 0 { 0 } else { i }
    } else {
        spec_line_end(s, i + 1)
    }
}

/// Scanning the body of a string literal from `i` (just past the opening
/// quote): the index just past the closing quote, or `None` if none comes.
/// A backslash escapes the char after it.
pub open spec fn spec_str_end(s: Seq<char>, i: int) -> Option<int>
    decreases s.len() - i,
{
    if i < 0 || i >= s.len() {
        None
    } else if s[i] == '"' {
        Some(i + 1)
    } else if s[i] == '\\' {
        if i + 1 >= s.len() {
            None
        } else {
            spec_str_end(s, i + 2)
        }
    } else {
        spec_str_end(s, i + 1)
    }
}

/// Index of the first char at or after `i` that is not a space, tab or CR.
pub open spec fn spec_blank_end(s: Seq<char>, i: int) -> int
    decreases s.len() - i,
{
    if i < 0 || i >= s.len() || !is_blank_char(s[i]) {
        i
    } else {
        spec_blank_end(s, i + 1)
    }
}

/// Indentation width of `s[i..j]`: a space counts 1, a tab 4, anything else 0.
pub open spec fn spec_indent_width(s: Seq<char>, i: int, j: int) -> int
    decreases j - i,
{
    if i >= j || i < 0 || j > s.len() {
        0
    } else {
        spec_indent_width(s, i, j - 1) + if s[j - 1] == ' ' {
            1int
        } else if s[j - 1] == '\t' {
            4int
        } else {
            0int
        }
    }
}

/// `w`, or `u64::MAX` if `w` is larger.
pub open spec fn sat_u64(w: int) -> u64 {
    if w <= u64::MAX { w as u64 } else { u64::MAX }
}

/// The keyword kind of the identifier-shaped text `s[a..b]`, or `Ident`.
pub open spec fn spec_word_kind(s: Seq<char>, a: int, b: int) -> TokKind {
    let t = s.subrange(a, b);
    if t == seq!['s', 'c', 'h', 'e', 'm', 'a'] {
        TokKind::Schema
    } else if t == seq!['c', 'l', 'a', 'i', 'm'] {
        TokKind::Claim
    } else if t == seq!['t', 'y', 'p', 'e'] {
        TokKind::Type
    } else if t == seq!['f', 's', 'm'] {
        TokKind::Fsm
    } else if t == seq!['f', 't', 'i'] {
        TokKind::Fti
    } else if t == seq!['e', 'n', 'u', 'm'] {
        TokKind::Enum
    } else if t == seq!['s', 'u', 'b', 'c', 'l', 'a', 'i', 'm'] {
        TokKind::Subclaim
    } else if t == seq!['e', 'x', 't', 'e', 'r', 'n', 'a', 'l'] {
        TokKind::External
    } else if t == seq!['m', 'a', 't', 'c', 'h'] {
        TokKind::Match
    } else if t == seq!['m', 'a', 't', 'c', 'h', 'e', 's'] {
        TokKind::Matches
    } else if t == seq!['t', 'r', 'u', 'e'] {
        TokKind::True
    } else if t == seq!['f', 'a', 'l', 's', 'e'] {
        TokKind::False
    } else if t == seq!['i', 'm', 'p', 'o', 'r', 't'] {
        TokKind::Import
    } else {
        TokKind::Ident
    }
}

/// The two-char operator starting at `s[i]`, if any.
pub open spec fn spec_sym2(c: char, d: char) -> Option<TokKind> {
    if c == ':' && d == '=' {
        Some(TokKind::ColonEq)
    } else if c == '=' && d == '=' {
        Some(TokKind::EqEq)
    } else if c == '.' && d == '.' {
        Some(TokKind::DotDot)
    } else if c == '+' && d == '+' {
        Some(TokKind::Concat)
    } else if c == '<' && d == '=' {
        Some(TokKind::Le)
    } else if c == '>' && d == '=' {
        Some(TokKind::Ge)
    } else if c == '!' && d == '=' {
        Some(TokKind::Neq)
    } else {
        None
    }
}

/// The kind of the one-char symbol `c`.
pub open spec fn spec_sym1(c: char) -> TokKind {
    if c == '(' {
        TokKind::LParen
    } else if c == ')' {
        TokKind::RParen
    } else if c == '[' {
        TokKind::LBracket
    } else if c == ']' {
        TokKind::RBracket
    } else if c == '{' {
        TokKind::LBrace
    } else if c == '}' {
        TokKind::RBrace
    } else if c == '\u{27E8}' {
        TokKind::LSeq
    } else if c == '\u{27E9}' {
        TokKind::RSeq
    } else if c == ',' {
        TokKind::Comma
    } else if c == '.' {
        TokKind::Dot
    } else if c == '#' {
        TokKind::Hash
    } else if c == '\u{0394}' {
        TokKind::Delta
    } else if c == '\u{00AC}' {
        TokKind::Not
    } else if c == '-' {
        TokKind::Minus
    } else if c == '+' {
        TokKind::Plus
    } else if c == '*' {
        TokKind::Star
    } else if c == '/' {
        TokKind::Slash
    } else if c == ':' {
        TokKind::Colon
    } else if c == '=' {
        TokKind::Assign
    } else if c == '?' {
        TokKind::Question
    } else if c == '<' {
        TokKind::Lt
    } else if c == '>' {
        TokKind::Gt
    } else if c == '\u{2264}' {
        TokKind::Le
    } else if c == '\u{2265}' {
        TokKind::Ge
    } else if c == '\u{2260}' {
        TokKind::Neq
    } else if c == '\u{2227}' {
        TokKind::And
    } else if c == '\u{2228}' {
        TokKind::Or
    } else if c == '\u{21D2}' {
        TokKind::Implies
    } else if c == '\u{27F8}' {
        TokKind::RevImplies
    } else if c == '\u{21A6}' {
        TokKind::MapsTo
    } else if c == '\u{2208}' {
        TokKind::In
    } else if c == '\u{2209}' {
        TokKind::NotIn
    } else if c == '\u{2200}' {
        TokKind::Forall
    } else if c == '\u{2203}' {
        TokKind::Exists
    } else {
        TokKind::Sym
    }
}

pub open spec fn is_open_kind(k: TokKind) -> bool {
    k == TokKind::LParen || k == TokKind::LBracket || k == TokKind::LBrace || k == TokKind::LSeq
}

pub open spec fn is_close_kind(k: TokKind) -> bool {
    k == TokKind::RParen || k == TokKind::RBracket || k == TokKind::RBrace || k == TokKind::RSeq
}

/// Bracket depth after a token of kind `k` at depth `d` (never below 0).
pub open spec fn next_depth(d: int, k: TokKind) -> int {
    if is_open_kind(k) {
        d + 1
    } else if is_close_kind(k) {
        if d > 0 { d - 1 } else { 0 }
    } else {
        d
    }
}

/// The symbol token at `s[i]` (which is neither blank, a letter, a digit, a
/// quote, nor a comment start): its kind and its length in chars.
pub open spec fn spec_symbol(s: Seq<char>, i: int) -> (TokKind, int) {
    if i + 1 < s.len() && spec_sym2(s[i], s[i + 1]) is Some {
        (spec_sym2(s[i], s[i + 1])->0, 2)
    } else {
        (spec_sym1(s[i]), 1)
    }
}

/// The lexer as a state machine. `i` is the position, `depth` the bracket
/// depth, `ls` whether `i` is at the start of a logical line, `acc` the
/// tokens so far.
pub open spec fn spec_lex(s: Seq<char>, i: int, depth: int, ls: bool, acc: Seq<Token>) -> Result<Seq<Token>, LexError>
    decreases s.len() - i, if ls { 1int } else { 0int },
{
    if i < 0 {
        Err(LexError::UnterminatedString(0))
    } else if i >= s.len() {
        Ok(acc.push(mk_tok(TokKind::Eof, s.len() as int, s.len() as int)))
    } else if ls && depth == 0 {
        let j = spec_blank_end(s, i);
        proof {
            lemma_blank_end(s, i);
            lemma_line_end(s, j);
        }
        if j >= s.len() {
            spec_lex(s, s.len() as int, depth, false, acc)
        } else if s[j] == '\n' {
            spec_lex(s, j + 1, depth, true, acc)
        } else if s[j] == '-' && j + 1 < s.len() && s[j + 1] == '-' {
            spec_lex(s, spec_line_end(s, j), depth, true, acc)
        } else {
            spec_lex(
                s,
                j,
                depth,
                false,
                acc.push(Token { kind: TokKind::Indent, start: i as usize, end: j as usize, width: sat_u64(spec_indent_width(s, i, j)) }),
            )
        }
    } else {
        let c = s[i];
        proof {
            lemma_line_end(s, i);
            lemma_str_end(s, i + 1);
            lemma_digits_end(s, i);
            lemma_ident_end(s, i);
            lemma_digits_end(s, spec_digits_end(s, i) + 1);
        }
        if is_blank_char(c) {
            spec_lex(s, i + 1, depth, false, acc)
        } else if c == '\n' {
            if depth == 0 {
                spec_lex(s, i + 1, depth, true, acc.push(mk_tok(TokKind::Newline, i, i + 1)))
            } else {
                spec_lex(s, i + 1, depth, false, acc)
            }
        } else if c == '-' && i + 1 < s.len() && s[i + 1] == '-' {
            spec_lex(s, spec_line_end(s, i), depth, false, acc)
        } else if c == '"' {
            match spec_str_end(s, i + 1) {
                None => Err(LexError::UnterminatedString(i as usize)),
                Some(e) => spec_lex(s, e, depth, false, acc.push(mk_tok(TokKind::Str, i, e))),
            }
        } else if is_digit(c) {
            let e = spec_digits_end(s, i);
            if e + 1 < s.len() && s[e] == '.' && is_digit(s[e + 1]) {
                let e2 = spec_digits_end(s, e + 1);
                spec_lex(s, e2, depth, false, acc.push(mk_tok(TokKind::Real, i, e2)))
            } else {
                spec_lex(s, e, depth, false, acc.push(mk_tok(TokKind::Int, i, e)))
            }
        } else if is_ident_start(c) {
            let e = spec_ident_end(s, i);
            spec_lex(s, e, depth, false, acc.push(mk_tok(spec_word_kind(s, i, e), i, e)))
        } else {
            let (k, n) = spec_symbol(s, i);
            spec_lex(s, i + n, next_depth(depth, k), false, acc.push(mk_tok(k, i, i + n)))
        }
    }
}

pub proof fn lemma_blank_end(s: Seq<char>, i: int)
    requires
        0 <= i,
    ensures
        i <= spec_blank_end(s, i),
        i <= s.len() ==> spec_blank_end(s, i) <= s.len(),
        forall|k: int| i <= k < spec_blank_end(s, i) ==> is_blank_char(#[trigger] s[k]),
        spec_blank_end(s, i) < s.len() ==> !is_blank_char(s[spec_blank_end(s, i)]),
    decreases s.len() - i,
{
    if i < s.len() && is_blank_char(s[i]) {
        lemma_blank_end(s, i + 1);
    }
}

pub proof fn lemma_line_end(s: Seq<char>, i: int)
    requires
        0 <= i,
    ensures
        i <= spec_line_end(s, i),
        i <= s.len() ==> spec_line_end(s, i) <= s.len(),
        spec_line_end(s, i) < s.len() ==> s[spec_line_end(s, i)] == '\n',
        forall|k: int| i <= k < spec_line_end(s, i) ==> #[trigger] s[k] != '\n',
    decreases s.len() - i,
{
    if i < s.len() && s[i] != '\n' {
        lemma_line_end(s, i + 1);
    }
}

pub proof fn lemma_str_end(s: Seq<char>, i: int)
    requires
        0 <= i,
    ensures
        spec_str_end(s, i) matches Some(e) ==> i < e <= s.len(),
    decreases s.len() - i,
{
    if i < s.len() && s[i] != '"' {
        if s[i] == '\\' {
            if i + 1 < s.len() {
                lemma_str_end(s, i + 2);
            }
        } else {
            lemma_str_end(s, i + 1);
        }
    }
}

pub proof fn lemma_digits_end(s: Seq<char>, i: int)
    requires
        0 <= i,
    ensures
        i <= spec_digits_end(s, i),
        i <= s.len() ==> spec_digits_end(s, i) <= s.len(),
        i < s.len() && is_digit(s[i]) ==> i < spec_digits_end(s, i),
    decreases s.len() - i,
{
    if i < s.len() && is_digit(s[i]) {
        lemma_digits_end(s, i + 1);
    }
}

pub proof fn lemma_ident_end(s: Seq<char>, i: int)
    requires
        0 <= i,
    ensures
        i <= spec_ident_end(s, i),
        i <= s.len() ==> spec_ident_end(s, i) <= s.len(),
        i < s.len() && is_ident_char(s[i]) ==> i < spec_ident_end(s, i),
    decreases s.len() - i,
{
    if i < s.len() && is_ident_char(s[i]) {
        lemma_ident_end(s, i + 1);
    }
}

/// The tokens of `s`, or why `s` does not lex.
pub open spec fn spec_tokenize(s: Seq<char>) -> Result<Seq<Token>, LexError> {
    spec_lex(s, 0, 0, true, Seq::empty())
}

} // verus!

verus! {

pub fn is_digit_exec(c: char) -> (r: bool)
    ensures
        r == is_digit(c),
{
    '0' <= c && c <= '9'
}

pub fn is_ident_start_exec(c: char) -> (r: bool)
    ensures
        r == is_ident_start(c),
{
    ('a' <= c && c <= 'z') || ('A' <= c && c <= 'Z') || c == '_'
}

pub fn is_ident_char_exec(c: char) -> (r: bool)
    ensures
        r == is_ident_char(c),
{
    is_ident_start_exec(c) || is_digit_exec(c)
}

fn is_blank_char_exec(c: char) -> (r: bool)
    ensures
        r == is_blank_char(c),
{
    c == ' ' || c == '\t' || c == '\r'
}

fn ident_end(s: &Vec<char>, i: usize) -> (r: usize)
    requires
        i <= s.len(),
    ensures
        r == spec_ident_end(s@, i as int),
        i <= r <= s.len(),
{
    let mut j = i;
    while j < s.len() && is_ident_char_exec(s[j])
        invariant
            i <= j <= s.len(),
            spec_ident_end(s@, i as int) == spec_ident_end(s@, j as int),
        decreases s.len() - j,
    {
        j += 1;
    }
    j
}

fn digits_end(s: &Vec<char>, i: usize) -> (r: usize)
    requires
        i <= s.len(),
    ensures
        r == spec_digits_end(s@, i as int),
        i <= r <= s.len(),
{
    let mut j = i;
    while j < s.len() && is_digit_exec(s[j])
        invariant
            i <= j <= s.len(),
            spec_digits_end(s@, i as int) == spec_digits_end(s@, j as int),
        decreases s.len() - j,
    {
        j += 1;
    }
    j
}

fn line_end(s: &Vec<char>, i: usize) -> (r: usize)
    requires
        i <= s.len(),
    ensures
        r == spec_line_end(s@, i as int),
        i <= r <= s.len(),
{
    let mut j = i;
    while j < s.len() && s[j] != '\n'
        invariant
            i <= j <= s.len(),
            spec_line_end(s@, i as int) == spec_line_end(s@, j as int),
        decreases s.len() - j,
    {
        j += 1;
    }
    j
}

fn blank_end(s: &Vec<char>, i: usize) -> (r: usize)
    requires
        i <= s.len(),
    ensures
        r == spec_blank_end(s@, i as int),
        i <= r <= s.len(),
{
    let mut j = i;
    while j < s.len() && is_blank_char_exec(s[j])
        invariant
            i <= j <= s.len(),
            spec_blank_end(s@, i as int) == spec_blank_end(s@, j as int),
        decreases s.len() - j,
    {
        j += 1;
    }
    j
}

fn str_end(s: &Vec<char>, i: usize) -> (r: Option<usize>)
    requires
        i <= s.len(),
    ensures
        match r {
            Some(e) => spec_str_end(s@, i as int) == Some(e as int) && e <= s.len(),
            None => spec_str_end(s@, i as int) is None,
        },
{
    let mut j = i;
    while j < s.len()
        invariant
            i <= j <= s.len(),
            spec_str_end(s@, i as int) == spec_str_end(s@, j as int),
        decreases s.len() - j,
    {
        if s[j] == '"' {
            return Some(j + 1);
        } else if s[j] == '\\' {
            if j + 1 >= s.len() {
                return None;
            }
            j += 2;
        } else {
            j += 1;
        }
    }
    None
}

pub proof fn lemma_indent_width_nonneg(s: Seq<char>, i: int, j: int)
    ensures
        spec_indent_width(s, i, j) >= 0,
    decreases j - i,
{
    if !(i >= j || i < 0 || j > s.len()) {
        lemma_indent_width_nonneg(s, i, j - 1);
    }
}

pub proof fn lemma_indent_width_bound(s: Seq<char>, i: int, j: int)
    requires
        i <= j,
    ensures
        0 <= spec_indent_width(s, i, j) <= 4 * (j - i),
    decreases j - i,
{
    if !(i >= j || i < 0 || j > s.len()) {
        lemma_indent_width_bound(s, i, j - 1);
    }
}

/// Indentation width of `s[i..j]`, saturating at `u64::MAX`.
pub fn indent_width(s: &Vec<char>, i: usize, j: usize) -> (r: u64)
    requires
        i <= j <= s.len(),
    ensures
        r == sat_u64(spec_indent_width(s@, i as int, j as int)),
{
    let mut k = i;
    let mut w: u64 = 0;
    while k < j
        invariant
            i <= k <= j <= s.len(),
            w == sat_u64(spec_indent_width(s@, i as int, k as int)),
        decreases j - k,
    {
        proof {
            lemma_indent_width_nonneg(s@, i as int, k as int);
        }
        if s[k] == ' ' {
            w = w.saturating_add(1);
        } else if s[k] == '\t' {
            w = w.saturating_add(4);
        }
        k += 1;
    }
    w
}

/// Does `s[a..b]` spell the given word?
fn span_is(s: &Vec<char>, a: usize, b: usize, w: &[char]) -> (r: bool)
    requires
        a <= b <= s.len(),
    ensures
        r == (s@.subrange(a as int, b as int) == w@),
{
    if b - a != w.len() {
        return false;
    }
    let mut k: usize = 0;
    while k < w.len()
        invariant
            a <= b <= s.len(),
            b - a == w.len(),
            0 <= k <= w.len(),
            forall|m: int| 0 <= m < k ==> s@[a + m] == w@[m],
        decreases w.len() - k,
    {
        if s[a + k] != w[k] {
            assert(s@.subrange(a as int, b as int)[k as int] != w@[k as int]);
            return false;
        }
        k += 1;
    }
    assert(s@.subrange(a as int, b as int) =~= w@);
    true
}

fn word_kind(s: &Vec<char>, a: usize, b: usize) -> (r: TokKind)
    requires
        a <= b <= s.len(),
    ensures
        r == spec_word_kind(s@, a as int, b as int),
{
    if span_is(s, a, b, &['s', 'c', 'h', 'e', 'm', 'a']) {
        TokKind::Schema
    } else if span_is(s, a, b, &['c', 'l', 'a', 'i', 'm']) {
        TokKind::Claim
    } else if span_is(s, a, b, &['t', 'y', 'p', 'e']) {
        TokKind::Type
    } else if span_is(s, a, b, &['f', 's', 'm']) {
        TokKind::Fsm
    } else if span_is(s, a, b, &['f', 't', 'i']) {
        TokKind::Fti
    } else if span_is(s, a, b, &['e', 'n', 'u', 'm']) {
        TokKind::Enum
    } else if span_is(s, a, b, &['s', 'u', 'b', 'c', 'l', 'a', 'i', 'm']) {
        TokKind::Subclaim
    } else if span_is(s, a, b, &['e', 'x', 't', 'e', 'r', 'n', 'a', 'l']) {
        TokKind::External
    } else if span_is(s, a, b, &['m', 'a', 't', 'c', 'h']) {
        TokKind::Match
    } else if span_is(s, a, b, &['m', 'a', 't', 'c', 'h', 'e', 's']) {
        TokKind::Matches
    } else if span_is(s, a, b, &['t', 'r', 'u', 'e']) {
        TokKind::True
    } else if span_is(s, a, b, &['f', 'a', 'l', 's', 'e']) {
        TokKind::False
    } else if span_is(s, a, b, &['i', 'm', 'p', 'o', 'r', 't']) {
        TokKind::Import
    } else {
        TokKind::Ident
    }
}

fn sym2(c: char, d: char) -> (r: Option<TokKind>)
    ensures
        r == spec_sym2(c, d),
{
    if c == ':' && d == '=' {
        Some(TokKind::ColonEq)
    } else if c == '=' && d == '=' {
        Some(TokKind::EqEq)
    } else if c == '.' && d == '.' {
        Some(TokKind::DotDot)
    } else if c == '+' && d == '+' {
        Some(TokKind::Concat)
    } else if c == '<' && d == '=' {
        Some(TokKind::Le)
    } else if c == '>' && d == '=' {
        Some(TokKind::Ge)
    } else if c == '!' && d == '=' {
        Some(TokKind::Neq)
    } else {
        None
    }
}

fn sym1(c: char) -> (r: TokKind)
    ensures
        r == spec_sym1(c),
{
    if c == '(' {
        TokKind::LParen
    } else if c == ')' {
        TokKind::RParen
    } else if c == '[' {
        TokKind::LBracket
    } else if c == ']' {
        TokKind::RBracket
    } else if c == '{' {
        TokKind::LBrace
    } else if c == '}' {
        TokKind::RBrace
    } else if c == '\u{27E8}' {
        TokKind::LSeq
    } else if c == '\u{27E9}' {
        TokKind::RSeq
    } else if c == ',' {
        TokKind::Comma
    } else if c == '.' {
        TokKind::Dot
    } else if c == '#' {
        TokKind::Hash
    } else if c == '\u{0394}' {
        TokKind::Delta
    } else if c == '\u{00AC}' {
        TokKind::Not
    } else if c == '-' {
        TokKind::Minus
    } else if c == '+' {
        TokKind::Plus
    } else if c == '*' {
        TokKind::Star
    } else if c == '/' {
        TokKind::Slash
    } else if c == ':' {
        TokKind::Colon
    } else if c == '=' {
        TokKind::Assign
    } else if c == '?' {
        TokKind::Question
    } else if c == '<' {
        TokKind::Lt
    } else if c == '>' {
        TokKind::Gt
    } else if c == '\u{2264}' {
        TokKind::Le
    } else if c == '\u{2265}' {
        TokKind::Ge
    } else if c == '\u{2260}' {
        TokKind::Neq
    } else if c == '\u{2227}' {
        TokKind::And
    } else if c == '\u{2228}' {
        TokKind::Or
    } else if c == '\u{21D2}' {
        TokKind::Implies
    } else if c == '\u{27F8}' {
        TokKind::RevImplies
    } else if c == '\u{21A6}' {
        TokKind::MapsTo
    } else if c == '\u{2208}' {
        TokKind::In
    } else if c == '\u{2209}' {
        TokKind::NotIn
    } else if c == '\u{2200}' {
        TokKind::Forall
    } else if c == '\u{2203}' {
        TokKind::Exists
    } else {
        TokKind::Sym
    }
}

fn is_open_kind_exec(k: TokKind) -> (r: bool)
    ensures
        r == is_open_kind(k),
{
    k == TokKind::LParen || k == TokKind::LBracket || k == TokKind::LBrace || k == TokKind::LSeq
}

fn is_close_kind_exec(k: TokKind) -> (r: bool)
    ensures
        r == is_close_kind(k),
{
    k == TokKind::RParen || k == TokKind::RBracket || k == TokKind::RBrace || k == TokKind::RSeq
}

/// Split `s` into tokens with their spans.
pub fn tokenize(s: &Vec<char>) -> (r: Result<Vec<Token>, LexError>)
    ensures
        match r {
            Ok(toks) => spec_tokenize(s@) == Ok::<Seq<Token>, LexError>(toks@),
            Err(e) => spec_tokenize(s@) == Err::<Seq<Token>, LexError>(e),
        },
{
    let n = s.len();
    let mut i: usize = 0;
    let mut depth: usize = 0;
    let mut ls = true;
    let mut acc: Vec<Token> = Vec::new();
    while i < n
        invariant
            n == s.len(),
            0 <= i <= n,
            depth <= i,
            spec_tokenize(s@) == spec_lex(s@, i as int, depth as int, ls, acc@),
        decreases n - i, if ls { 1int } else { 0int },
    {
        if ls && depth == 0 {
            let j = blank_end(s, i);
            proof {
                lemma_blank_end(s@, i as int);
            }
            if j >= n {
                i = n;
                ls = false;
            } else if s[j] == '\n' {
                i = j + 1;
            } else if s[j] == '-' && j + 1 < n && s[j + 1] == '-' {
                i = line_end(s, j);
                proof {
                    lemma_line_end(s@, j as int);
                }
            } else {
                let w = indent_width(s, i, j);
                acc.push(Token { kind: TokKind::Indent, start: i, end: j, width: w });
                i = j;
                ls = false;
            }
        } else {
            let c = s[i];
            if is_blank_char_exec(c) {
                i += 1;
                ls = false;
            } else if c == '\n' {
                if depth == 0 {
                    acc.push(Token { kind: TokKind::Newline, start: i, end: i + 1, width: 0 });
                    i += 1;
                    ls = true;
                } else {
                    i += 1;
                    ls = false;
                }
            } else if c == '-' && i + 1 < n && s[i + 1] == '-' {
                let e = line_end(s, i);
                proof {
                    lemma_line_end(s@, i as int);
                }
                if e == i {
                    // unreachable: s[i] is '-', not a line break
                    assert(false);
                }
                i = e;
                ls = false;
            } else if c == '"' {
                match str_end(s, i + 1) {
                    None => {
                        return Err(LexError::UnterminatedString(i));
                    },
                    Some(e) => {
                        proof {
                            lemma_str_end(s@, i + 1);
                        }
                        acc.push(Token { kind: TokKind::Str, start: i, end: e, width: 0 });
                        i = e;
                        ls = false;
                    },
                }
            } else if is_digit_exec(c) {
                let e = digits_end(s, i);
                proof {
                    lemma_digits_end(s@, i as int);
                }
                if e < n && e + 1 < n && s[e] == '.' && is_digit_exec(s[e + 1]) {
                    let e2 = digits_end(s, e + 1);
                    proof {
                        lemma_digits_end(s@, e + 1);
                    }
                    acc.push(Token { kind: TokKind::Real, start: i, end: e2, width: 0 });
                    i = e2;
                } else {
                    acc.push(Token { kind: TokKind::Int, start: i, end: e, width: 0 });
                    i = e;
                }
                ls = false;
            } else if is_ident_start_exec(c) {
                let e = ident_end(s, i);
                proof {
                    lemma_ident_end(s@, i as int);
                }
                let k = word_kind(s, i, e);
                acc.push(Token { kind: k, start: i, end: e, width: 0 });
                i = e;
                ls = false;
            } else {
                let mut k = sym1(c);
                let mut len: usize = 1;
                if i + 1 < n {
                    match sym2(c, s[i + 1]) {
                        Some(k2) => {
                            k = k2;
                            len = 2;
                        },
                        None => {},
                    }
                }
                acc.push(Token { kind: k, start: i, end: i + len, width: 0 });
                if is_open_kind_exec(k) {
                    depth += 1;
                } else if is_close_kind_exec(k) {
                    if depth > 0 {
                        depth -= 1;
                    }
                }
                i += len;
                ls = false;
            }
        }
    }
    acc.push(Token { kind: TokKind::Eof, start: n, end: n, width: 0 });
    Ok(acc)
}

} // verus!
