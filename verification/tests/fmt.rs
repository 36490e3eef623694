use evident_runtime::fmt::{format_source, tokens_equivalent};
use evident_runtime::lexer::tokenize;

fn chars(s: &str) -> Vec<char> {
    s.chars().collect()
}

/// The parser's verdict on a text that parses.
fn parses() -> Result<(), String> {
    Ok(())
}

fn roundtrips(src: &str) {
    let out = format_source(src, true, &parses()).expect("format ok");
    let sa = chars(src);
    let sb = chars(&out);
    let a = tokenize(&sa).unwrap();
    let b = tokenize(&sb).unwrap();
    assert!(
        tokens_equivalent(&sa, &a, &sb, &b),
        "not token-equivalent.\n--- in ---\n{src}\n--- out ---\n{out}"
    );
    let out2 = format_source(&out, true, &parses()).expect("format ok 2");
    assert_eq!(out, out2, "not idempotent");
    if !out.is_empty() {
        assert!(out.ends_with('\n'));
        assert!(!out.ends_with("\n\n"));
    }
}

#[test]
fn fixes_indentation_to_four() {
    let src = "claim foo\n  x ∈ Int\n  x = 5\n";
    let out = format_source(src, true, &parses()).unwrap();
    assert_eq!(out, "claim foo\n    x ∈ Int\n    x = 5\n");
    roundtrips(src);
}

#[test]
fn trims_trailing_whitespace() {
    let src = "claim foo   \n    x ∈ Int\t\n";
    let out = format_source(src, true, &parses()).unwrap();
    assert_eq!(out, "claim foo\n    x ∈ Int\n");
}

#[test]
fn collapses_blank_runs_and_strips_edges() {
    let src = "\n\nclaim foo\n    x ∈ Int\n\n\n\nclaim bar\n    y ∈ Int\n\n\n";
    let out = format_source(src, true, &parses()).unwrap();
    assert_eq!(out, "claim foo\n    x ∈ Int\n\nclaim bar\n    y ∈ Int\n");
}

#[test]
fn preserves_comments() {
    let src = "-- header\nclaim foo\n    x ∈ Int   -- a field\n";
    let out = format_source(src, true, &parses()).unwrap();
    assert!(out.contains("-- header"));
    assert!(out.contains("-- a field"));
    roundtrips(src);
}

#[test]
fn nested_indentation() {
    let src = "claim foo\n        a ∈ Int\n        ¬b ⇒\n                a = 1\n";
    let out = format_source(src, true, &parses()).unwrap();
    assert_eq!(out, "claim foo\n    a ∈ Int\n    ¬b ⇒\n        a = 1\n");
    roundtrips(src);
}

#[test]
fn multiline_bracket_continuation_preserved() {
    let src = "claim foo\n    xs ∈ Seq(Int)\n    effects = ⟨a,\n      b,\n      c⟩\n";
    roundtrips(src);
}

#[test]
fn match_arms_roundtrip() {
    let src = "claim foo\n    effects = match state\n        Falling ⇒ a\n        Landed  ⇒ b\n";
    roundtrips(src);
}

#[test]
fn empty_input() {
    assert_eq!(format_source("", true, &parses()).unwrap(), "");
    assert_eq!(format_source("\n\n\n", true, &parses()).unwrap(), "");
}

#[test]
fn ragged_over_indent_snaps_to_sibling_column() {
    let src = "fsm counter\n        count ∈ Int\n    is_first_tick ⇒ count = 0\n";
    let out = format_source(src, false, &parses()).unwrap();
    assert_eq!(out, "fsm counter\n    count ∈ Int\n    is_first_tick ⇒ count = 0\n");
    assert_eq!(format_source(&out, true, &parses()).unwrap(), out);
}

#[test]
fn ragged_sibling_not_silently_renested() {
    let src = "fsm counter\n  count ∈ Int\n      is_first_tick ⇒ count = 0\n";
    let out = format_source(src, false, &parses()).unwrap();
    assert_eq!(out, "fsm counter\n    count ∈ Int\n    is_first_tick ⇒ count = 0\n");
}

#[test]
fn accumulate_multidelta_block_repaired() {
    let src = "fsm accumulate\n    i ∈ Int\n    sum ∈ Int\n    \
               is_first_tick ⇒\n            i = 0\n            sum = 0\n    \
               ¬ is_first_tick ⇒\n        Δi = (_i < 5 ? 1 : 0)\n              \
               Δsum = (_i < 5 ? _i : 0)\n";
    let out = format_source(src, false, &parses()).unwrap();
    assert_eq!(
        out,
        "fsm accumulate\n    i ∈ Int\n    sum ∈ Int\n    is_first_tick ⇒\n        \
         i = 0\n        sum = 0\n    ¬is_first_tick ⇒\n        \
         Δi = (_i < 5 ? 1 : 0)\n        Δsum = (_i < 5 ? _i : 0)\n"
    );
    assert_eq!(format_source(&out, true, &parses()).unwrap(), out, "not a fixed point");
}

#[test]
fn implies_block_children_stay_nested() {
    let src = "fsm c\n    is_first_tick ⇒\n        x = 0\n        y = 1\n";
    let out = format_source(src, true, &parses()).unwrap();
    assert_eq!(out, src);
    roundtrips(src);
}

#[test]
fn aligned_siblings_format_cleanly() {
    let src = "fsm counter\n  count ∈ Int\n  is_first_tick ⇒ count = 0\n";
    let out = format_source(src, true, &parses()).unwrap();
    assert_eq!(out, "fsm counter\n    count ∈ Int\n    is_first_tick ⇒ count = 0\n");
    roundtrips(src);
}

#[test]
fn respaces_anas_cases() {
    let src = "claim c\n    count∈Int:=0\n    Δcount=(_count<5?1:0)\n    done∈Bool=(count≥5)\n";
    let out = format_source(src, true, &parses()).unwrap();
    assert_eq!(
        out,
        "claim c\n    count ∈ Int := 0\n    Δcount = (_count < 5 ? 1 : 0)\n    done ∈ Bool = (count ≥ 5)\n"
    );
    roundtrips(src);
    assert_ne!(out, src);
}

#[test]
fn negative_literal_hugs_but_binary_minus_spaces() {
    let src = "claim c\n    x∈Int:=-5\n    y∈Int:=a-5\n    z∈Int:=(0-w)\n";
    let out = format_source(src, true, &parses()).unwrap();
    assert_eq!(
        out,
        "claim c\n    x ∈ Int := -5\n    y ∈ Int := a - 5\n    z ∈ Int := (0 - w)\n"
    );
    roundtrips(src);
}

#[test]
fn prefix_operators_hug_their_name() {
    let src = "fsm f\n    cond∈Bool\n    ¬cond⇒x=1\n    Δx=_x\n";
    let out = format_source(src, true, &parses()).unwrap();
    assert_eq!(out, "fsm f\n    cond ∈ Bool\n    ¬cond ⇒ x = 1\n    Δx = _x\n");
    roundtrips(src);
}

#[test]
fn strings_and_comments_are_verbatim() {
    let src = "claim c\n    s∈String:=\"a=b<c+d\"   -- keep x=y here\n";
    let out = format_source(src, true, &parses()).unwrap();
    assert!(out.contains("\"a=b<c+d\""), "string content perturbed: {out}");
    assert!(out.contains("-- keep x=y here"), "comment perturbed: {out}");
    assert!(out.contains("s ∈ String := "), "code not respaced: {out}");
    roundtrips(src);
}

#[test]
fn call_and_index_hug_grouping_spaces() {
    let src = "claim c\n    r∈Int:=f(a,b)+xs[0]\n";
    let out = format_source(src, true, &parses()).unwrap();
    assert_eq!(out, "claim c\n    r ∈ Int := f(a, b) + xs[0]\n");
    roundtrips(src);
}

#[test]
fn already_formatted_is_fixed_point() {
    let src = "import \"stdlib/runtime.ev\"\n\nfsm gravity\n    x ∈ Int\n    is_first_tick ⇒ x = 10\n";
    let out = format_source(src, true, &parses()).unwrap();
    assert_eq!(out, src);
}

#[test]
fn unterminated_string_is_refused() {
    let err = format_source("claim c\n    s ∈ String := \"abc\n", true, &parses()).unwrap_err();
    assert_eq!(err, "unterminated string literal");
}

#[test]
fn tabs_count_as_four_columns() {
    let src = "claim foo\n\tx ∈ Int\n    y ∈ Int\n";
    assert_eq!(format_source(src, true, &parses()).unwrap(), "claim foo\n    x ∈ Int\n    y ∈ Int\n");
}

#[test]
fn malformed_beyond_layout_is_refused() {
    let src = "fsm c\n    count ∈ Int = = 5\n";
    let verdict: Result<(), String> = Err("unexpected `=`".to_string());
    let err = format_source(src, false, &verdict).expect_err("token-level syntax error must refuse");
    assert!(err.contains("malformed beyond a layout fix"), "expected a beyond-layout refusal, got: {err}");
}
