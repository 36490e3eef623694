//! Reading values back from the solver's text: its `\u{…}` string escapes,
//! and given keys of the form `base[index]`.
use vstd::prelude::*;
use vstd::string::StringExecFns;
use crate::text::{chars_to_string, slice_chars, str_to_chars};

verus! {

/// A `u32` that names a char: not above `0x10FFFF` and not a surrogate.
pub open spec fn valid_scalar(v: u32) -> bool {
    v <= 0x10FFFF && !(0xD800 <= v && v <= 0xDFFF)
}

/// `char::from_u32`: the char with code `v`, or `None` when `v` names no char
/// (a surrogate, or above `0x10FFFF`), as std documents it.
#[verifier::external_body]
fn char_from_u32(v: u32) -> (r: Option<char>)
    ensures
        match r {
            Some(c) => valid_scalar(v) && c == v as char,
            None => !valid_scalar(v),
        },
{
    char::from_u32(v)
}

// ───────────────────────────── numbers ─────────────────────────────

pub open spec fn is_hex(c: char) -> bool {
    ('0' <= c && c <= '9') || ('a' <= c && c <= 'f') || ('A' <= c && c <= 'F')
}

pub open spec fn hex_val(c: char) -> nat {
    if '0' <= c && c <= '9' {
        (c as nat - '0' as nat) as nat
    } else if 'a' <= c && c <= 'f' {
        (c as nat - 'a' as nat + 10) as nat
    } else {
        (c as nat - 'A' as nat + 10) as nat
    }
}

pub open spec fn dec_val(c: char) -> nat {
    (c as nat - '0' as nat) as nat
}

pub open spec fn is_dec(c: char) -> bool {
    '0' <= c && c <= '9'
}

/// The value of a string of digits in base `b`, each digit valued by `val`.
pub open spec fn hex_num(s: Seq<char>) -> nat
    decreases s.len(),
{
    if s.len() == 0 {
        0
    } else {
        hex_num(s.drop_last()) * 16 + hex_val(s.last())
    }
}

pub open spec fn dec_num(s: Seq<char>) -> nat
    decreases s.len(),
{
    if s.len() == 0 {
        0
    } else {
        dec_num(s.drop_last()) * 10 + dec_val(s.last())
    }
}

/// `s` without one leading `+`.
pub open spec fn unsigned_digits(s: Seq<char>) -> Seq<char> {
    if s.len() > 0 && s[0] == '+' {
        s.drop_first()
    } else {
        s
    }
}

/// `u32::from_str_radix(s, 16)` on at most six chars: an optional `+`, then
/// at least one hexadecimal digit.
pub open spec fn parse_hex(s: Seq<char>) -> Option<nat> {
    let d = unsigned_digits(s);
    if d.len() > 0 && forall|i: int| 0 <= i < d.len() ==> is_hex(#[trigger] d[i]) {
        Some(hex_num(d))
    } else {
        None
    }
}

/// `str::parse::<usize>`: an optional `+`, then at least one decimal digit,
/// with a value that fits.
pub open spec fn parse_usize(s: Seq<char>) -> Option<nat> {
    let d = unsigned_digits(s);
    if d.len() > 0 && (forall|i: int| 0 <= i < d.len() ==> is_dec(#[trigger] d[i])) && dec_num(d) <= usize::MAX {
        Some(dec_num(d))
    } else {
        None
    }
}

proof fn lemma_hex_bound(s: Seq<char>)
    requires
        forall|i: int| 0 <= i < s.len() ==> is_hex(#[trigger] s[i]),
    ensures
        hex_num(s) < pow16(s.len()),
    decreases s.len(),
{
    if s.len() > 0 {
        assert forall|i: int| 0 <= i < s.drop_last().len() implies is_hex(#[trigger] s.drop_last()[i]) by {
            assert(s.drop_last()[i] == s[i]);
        }
        lemma_hex_bound(s.drop_last());
        assert(is_hex(s[s.len() - 1]));
        assert(hex_val(s.last()) < 16);
        assert(hex_num(s.drop_last()) * 16 + hex_val(s.last()) < pow16(s.drop_last().len()) * 16) by (nonlinear_arith)
            requires
                hex_num(s.drop_last()) < pow16(s.drop_last().len()),
                hex_val(s.last()) < 16,
        ;
    }
}

pub open spec fn pow16(n: nat) -> nat
    decreases n,
{
    if n == 0 {
        1
    } else {
        pow16((n - 1) as nat) * 16
    }
}

// ───────────────────────────── string escapes ─────────────────────────────

/// The index of the first `}` of `s` at or after `from`, or `-1`.
pub open spec fn close_at(s: Seq<char>, from: int) -> int
    decreases s.len() - from,
{
    if from >= s.len() || from < 0 {
        -1
    } else if s[from] == '}' {
        from
    } else {
        close_at(s, from + 1)
    }
}

/// The char a leading `\u{hex}` escape of `s` stands for, and how many chars
/// it takes: one to six hex digits (after an optional `+`) naming a char.
pub open spec fn escape_at(s: Seq<char>) -> Option<(char, nat)> {
    if s.len() >= 3 && s[0] == '\\' && s[1] == 'u' && s[2] == '{' {
        let c = close_at(s, 3);
        if c < 0 {
            None
        } else {
            let hex = s.subrange(3, c);
            if 1 <= hex.len() <= 6 {
                match parse_hex(hex) {
                    Some(v) => if v <= u32::MAX && valid_scalar(v as u32) {
                        Some(((v as u32) as char, (c + 1) as nat))
                    } else {
                        None
                    },
                    None => None,
                }
            } else {
                None
            }
        }
    } else {
        None
    }
}

pub proof fn lemma_close_at(s: Seq<char>, from: int)
    requires
        0 <= from,
    ensures
        close_at(s, from) == -1 || (from <= close_at(s, from) < s.len() && s[close_at(s, from)] == '}'),
        forall|j: int| from <= j < s.len() && (close_at(s, from) == -1 || j < close_at(s, from)) ==> s[j] != '}',
    decreases s.len() - from,
{
    if from < s.len() && s[from] != '}' {
        lemma_close_at(s, from + 1);
    }
}

/// The solver's string text with each valid `\u{hex}` escape replaced by
/// its char; anything else is kept as it is.
pub open spec fn unescape(s: Seq<char>) -> Seq<char>
    decreases s.len(),
{
    if s.len() == 0 {
        Seq::empty()
    } else {
        match escape_at(s) {
            Some((ch, k)) => {
                proof {
                    lemma_escape_len(s);
                }
                seq![ch] + unescape(s.skip(k as int))
            },
            None => seq![s[0]] + unescape(s.skip(1)),
        }
    }
}

pub proof fn lemma_escape_len(s: Seq<char>)
    ensures
        escape_at(s) matches Some((ch, k)) ==> 4 <= k <= s.len(),
{
    lemma_close_at(s, 3);
}

fn find_close(v: &Vec<char>, from: usize) -> (r: Option<usize>)
    requires
        from <= v.len(),
    ensures
        match r {
            Some(c) => c as int == close_at(v@, from as int),
            None => close_at(v@, from as int) == -1,
        },
{
    let mut j = from;
    while j < v.len()
        invariant
            from <= j <= v.len(),
            close_at(v@, from as int) == close_at(v@, j as int),
        decreases v.len() - j,
    {
        if v[j] == '}' {
            return Some(j);
        }
        j += 1;
    }
    None
}

fn hex_digit_val(c: char) -> (r: Option<u32>)
    ensures
        match r {
            Some(d) => is_hex(c) && d as nat == hex_val(c),
            None => !is_hex(c),
        },
{
    if '0' <= c && c <= '9' {
        Some((c as u32) - ('0' as u32))
    } else if 'a' <= c && c <= 'f' {
        Some((c as u32) - ('a' as u32) + 10)
    } else if 'A' <= c && c <= 'F' {
        Some((c as u32) - ('A' as u32) + 10)
    } else {
        None
    }
}

/// The value of `v[a..b]` as `u32::from_str_radix(.., 16)` reads it, for at
/// most six chars.
fn parse_hex_of(v: &Vec<char>, a: usize, b: usize) -> (r: Option<u32>)
    requires
        a <= b <= v.len(),
        b - a <= 6,
    ensures
        match r {
            Some(x) => parse_hex(v@.subrange(a as int, b as int)) == Some(x as nat),
            None => parse_hex(v@.subrange(a as int, b as int)) is None,
        },
{
    let ghost s = v@.subrange(a as int, b as int);
    let start = if a < b && v[a] == '+' { a + 1 } else { a };
    let ghost d = unsigned_digits(s);
    assert(d =~= v@.subrange(start as int, b as int));
    if start == b {
        assert(d.len() == 0);
        return None;
    }
    let mut acc: u32 = 0;
    let mut i = start;
    assert(v@.subrange(start as int, start as int) =~= Seq::<char>::empty());
    while i < b
        invariant
            start <= i <= b <= v.len(),
            b - start <= 6,
            d == v@.subrange(start as int, b as int),
            d == unsigned_digits(v@.subrange(a as int, b as int)),
            forall|k: int| start <= k < i ==> is_hex(#[trigger] v@[k]),
            acc as nat == hex_num(v@.subrange(start as int, i as int)),
            (acc as nat) < pow16((i - start) as nat),
        decreases b - i,
    {
        match hex_digit_val(v[i]) {
            Some(dv) => {
                assert(v@.subrange(start as int, i + 1).drop_last() =~= v@.subrange(start as int, i as int));
                assert(pow16((i - start) as nat) <= 0x100000) by {
                    reveal_with_fuel(pow16, 7);
                }
                assert(acc * 16 + dv < pow16((i - start) as nat) * 16) by (nonlinear_arith)
                    requires
                        (acc as nat) < pow16((i - start) as nat),
                        dv < 16,
                ;
                acc = acc * 16 + dv;
                i += 1;
            },
            None => {
                assert(!is_hex(d[i - start]));
                return None;
            },
        }
    }
    assert forall|k: int| 0 <= k < d.len() implies is_hex(#[trigger] d[k]) by {
        assert(d[k] == v@[start + k]);
    }
    Some(acc)
}

/// Replaces the solver's `\u{hex}` escapes in `s` by their chars; see `unescape`.
pub fn unescape_z3_string(s: &str) -> (r: String)
    ensures
        r@ == unescape(s@),
{
    let v = str_to_chars(s);
    let mut out: Vec<char> = Vec::new();
    let mut i: usize = 0;
    assert(v@.skip(0) =~= v@);
    while i < v.len()
        invariant
            0 <= i <= v.len(),
            v@ == s@,
            out@ + unescape(v@.skip(i as int)) == unescape(s@),
        decreases v.len() - i,
    {
        let ghost rest = v@.skip(i as int);
        let mut taken: usize = 0;
        if v.len() - i > 2 && v[i] == '\\' && v[i + 1] == 'u' && v[i + 2] == '{' {
            if let Some(c) = find_close(&v, i + 3) {
                proof {
                    lemma_close_at(v@, (i + 3) as int);
                    lemma_close_shift(v@, i as int, 3);
                }
                if c - (i + 3) >= 1 && c - (i + 3) <= 6 {
                    if let Some(x) = parse_hex_of(&v, i + 3, c) {
                        if let Some(ch) = char_from_u32(x) {
                            assert(rest.subrange(3, c - i) =~= v@.subrange(i + 3, c as int));
                            assert(close_at(rest, 3) == c - i);
                            assert(rest[0] == '\\' && rest[1] == 'u' && rest[2] == '{');
                            assert(parse_hex(rest.subrange(3, c - i)) == Some(x as nat));
                            assert((x as u32) as char == ch);
                            out.push(ch);
                            taken = c + 1 - i;
                            assert(escape_at(rest) == Some((ch, taken as nat)));
                        } else {
                            assert(rest.subrange(3, c - i) =~= v@.subrange(i + 3, c as int));
                        }
                    } else {
                        assert(rest.subrange(3, c - i) =~= v@.subrange(i + 3, c as int));
                    }
                }
            } else {
                proof {
                    lemma_close_shift(v@, i as int, 3);
                }
            }
        }
        if taken == 0 {
            assert(escape_at(rest) is None);
            out.push(v[i]);
            taken = 1;
        }
        proof {
            lemma_escape_len(rest);
            assert(rest.skip(taken as int) =~= v@.skip(i + taken));
        }
        i = i + taken;
    }
    assert(v@.skip(v.len() as int) =~= Seq::<char>::empty());
    chars_to_string(&out)
}

proof fn lemma_close_shift(s: Seq<char>, i: int, from: int)
    requires
        0 <= i <= s.len(),
        0 <= from,
    ensures
        close_at(s.skip(i), from) == (if close_at(s, i + from) < 0 { -1 } else { close_at(s, i + from) - i }),
    decreases s.len() - i - from,
{
    if i + from < s.len() && s[i + from] != '}' {
        lemma_close_shift(s, i, from + 1);
    }
}

// ───────────────────────────── indexed keys ─────────────────────────────

/// The index of the first `[` of `s`, or `-1`.
pub open spec fn open_at(s: Seq<char>) -> int
    decreases s.len(),
{
    if s.len() == 0 {
        -1
    } else if s[0] == '[' {
        0
    } else {
        let k = open_at(s.drop_first());
        if k < 0 {
            -1
        } else {
            k + 1
        }
    }
}

/// A given key `base[idx]`: a non-empty base before the first `[`, and an
/// index (see `parse_usize`) up to the closing `]` at the end.
pub open spec fn indexed_key(s: Seq<char>) -> Option<(Seq<char>, nat)> {
    let o = open_at(s);
    if o < 0 || s.len() == 0 || s.last() != ']' || o == 0 {
        None
    } else {
        match parse_usize(s.subrange(o + 1, s.len() - 1)) {
            Some(n) => Some((s.take(o), n)),
            None => None,
        }
    }
}

proof fn lemma_open_at(s: Seq<char>)
    ensures
        -1 <= open_at(s) < s.len(),
        open_at(s) >= 0 ==> s[open_at(s)] == '[',
        forall|j: int| 0 <= j < s.len() && (open_at(s) < 0 || j < open_at(s)) ==> s[j] != '[',
    decreases s.len(),
{
    if s.len() > 0 && s[0] != '[' {
        lemma_open_at(s.drop_first());
        assert forall|j: int| 0 <= j < s.len() && (open_at(s) < 0 || j < open_at(s)) implies s[j] != '[' by {
            if j > 0 {
                assert(s[j] == s.drop_first()[j - 1]);
            }
        }
    }
}

/// The value of `v[a..b]` as `str::parse::<usize>` reads it.
fn parse_usize_of(v: &Vec<char>, a: usize, b: usize) -> (r: Option<usize>)
    requires
        a <= b <= v.len(),
    ensures
        match r {
            Some(x) => parse_usize(v@.subrange(a as int, b as int)) == Some(x as nat),
            None => parse_usize(v@.subrange(a as int, b as int)) is None,
        },
{
    let ghost s = v@.subrange(a as int, b as int);
    let start = if a < b && v[a] == '+' { a + 1 } else { a };
    let ghost d = unsigned_digits(s);
    assert(d =~= v@.subrange(start as int, b as int));
    if start == b {
        assert(d.len() == 0);
        return None;
    }
    let mut acc: usize = 0;
    let mut ok = true;
    let mut i = start;
    assert(v@.subrange(start as int, start as int) =~= Seq::<char>::empty());
    while i < b
        invariant
            start <= i <= b <= v.len(),
            d == v@.subrange(start as int, b as int),
            d == unsigned_digits(v@.subrange(a as int, b as int)),
            forall|k: int| start <= k < i ==> is_dec(#[trigger] v@[k]),
            ok ==> acc as nat == dec_num(v@.subrange(start as int, i as int)),
            !ok ==> dec_num(v@.subrange(start as int, i as int)) > usize::MAX,
        decreases b - i,
    {
        let c = v[i];
        if !('0' <= c && c <= '9') {
            assert(!is_dec(d[i - start]));
            return None;
        }
        let dv = (c as u32 - '0' as u32) as usize;
        assert(v@.subrange(start as int, i + 1).drop_last() =~= v@.subrange(start as int, i as int));
        proof {
            lemma_dec_step(v@.subrange(start as int, i + 1));
        }
        if ok {
            match acc.checked_mul(10) {
                Some(m) => match m.checked_add(dv) {
                    Some(n) => {
                        acc = n;
                    },
                    None => {
                        ok = false;
                    },
                },
                None => {
                    ok = false;
                },
            }
        }
        i += 1;
    }
    assert forall|k: int| 0 <= k < d.len() implies is_dec(#[trigger] d[k]) by {
        assert(d[k] == v@[start + k]);
    }
    if ok {
        Some(acc)
    } else {
        None
    }
}

proof fn lemma_dec_step(s: Seq<char>)
    requires
        s.len() > 0,
    ensures
        dec_num(s) >= dec_num(s.drop_last()) * 10,
        dec_num(s) == dec_num(s.drop_last()) * 10 + dec_val(s.last()),
{
}

/// Splits a given key `base[idx]` into its base and index; see `indexed_key`.
pub fn parse_indexed_key(name: &str) -> (r: Option<(String, usize)>)
    ensures
        match r {
            Some((b, i)) => indexed_key(name@) == Some((b@, i as nat)),
            None => indexed_key(name@) is None,
        },
{
    let v = str_to_chars(name);
    proof {
        lemma_open_at(v@);
    }
    let mut o: usize = 0;
    while o < v.len() && v[o] != '['
        invariant
            0 <= o <= v.len(),
            v@ == name@,
            -1 <= open_at(v@) < v@.len(),
            open_at(v@) >= 0 ==> v@[open_at(v@)] == '[',
            forall|j: int| 0 <= j < v@.len() && (open_at(v@) < 0 || j < open_at(v@)) ==> v@[j] != '[',
            forall|j: int| 0 <= j < o ==> v@[j] != '[',
        decreases v.len() - o,
    {
        o += 1;
    }
    if o == v.len() {
        assert(open_at(v@) < 0) by {
            if open_at(v@) >= 0 {
                assert(v@[open_at(v@)] == '[');
            }
        }
        return None;
    }
    assert(open_at(v@) == o as int) by {
        if open_at(v@) < 0 {
            assert(v@[o as int] != '[');
        } else if open_at(v@) < o {
            assert(v@[open_at(v@)] != '[');
        } else if open_at(v@) > o {
            assert(v@[o as int] != '[');
        }
    }
    if v[v.len() - 1] != ']' || o == 0 {
        return None;
    }
    match parse_usize_of(&v, o + 1, v.len() - 1) {
        Some(idx) => {
            let base = chars_to_string(&slice_chars(&v, 0, o));
            assert(base@ =~= name@.take(o as int));
            Some((base, idx))
        },
        None => None,
    }
}

} // verus!
