use evident_runtime::extract::{parse_indexed_key, unescape_z3_string};

#[test]
fn escapes_become_chars() {
    assert_eq!(unescape_z3_string("a\\u{41}b"), "aAb");
    assert_eq!(unescape_z3_string("\\u{1F600}"), "😀");
    assert_eq!(unescape_z3_string("\\u{+41}"), "A");
}

#[test]
fn malformed_escapes_stay_verbatim() {
    assert_eq!(unescape_z3_string("\\u{}"), "\\u{}");
    assert_eq!(unescape_z3_string("\\u{1234567}"), "\\u{1234567}");
    assert_eq!(unescape_z3_string("\\u{D800}"), "\\u{D800}");
    assert_eq!(unescape_z3_string("\\u{zz}"), "\\u{zz}");
    assert_eq!(unescape_z3_string("\\u{41"), "\\u{41");
    assert_eq!(unescape_z3_string("\\x"), "\\x");
    assert_eq!(unescape_z3_string("é\\u{e9}"), "éé");
}

#[test]
fn indexed_keys_split() {
    assert_eq!(parse_indexed_key("col[0]"), Some(("col".to_string(), 0)));
    assert_eq!(parse_indexed_key("xs[+12]"), Some(("xs".to_string(), 12)));
    assert_eq!(parse_indexed_key("a[1][2]"), None);
    assert_eq!(parse_indexed_key("[3]"), None);
    assert_eq!(parse_indexed_key("col"), None);
    assert_eq!(parse_indexed_key("col[]"), None);
    assert_eq!(parse_indexed_key("col[-1]"), None);
    assert_eq!(parse_indexed_key("col[99999999999999999999999]"), None);
    assert_eq!(parse_indexed_key("p.x[2]"), Some(("p.x".to_string(), 2)));
}
