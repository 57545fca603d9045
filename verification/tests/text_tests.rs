use serde_env::text::{split_str, str_eq, to_lower, trim_str};

#[test]
fn lower_cases_ascii_only() {
    assert_eq!(to_lower("METASRV_LOG_LEVEL"), "metasrv_log_level".to_string());
    assert_eq!(to_lower("MiXeD123"), "mixed123".to_string());
    assert_eq!(to_lower(""), "".to_string());
}

#[test]
fn split_keeps_empty_pieces() {
    assert_eq!(
        split_str("a_b_c", '_'),
        vec!["a".to_string(), "b".to_string(), "c".to_string()]
    );
    assert_eq!(split_str("", '_'), vec!["".to_string()]);
    assert_eq!(
        split_str("a__b", '_'),
        vec!["a".to_string(), "".to_string(), "b".to_string()]
    );
    assert_eq!(
        split_str("_a", '_'),
        vec!["".to_string(), "a".to_string()]
    );
}

#[test]
fn trim_drops_surrounding_whitespace_only() {
    assert_eq!(trim_str(" \t x y \n"), "x y".to_string());
    assert_eq!(trim_str("xy"), "xy".to_string());
    assert_eq!(trim_str("  "), "".to_string());
}

#[test]
fn string_equality_by_characters() {
    assert!(str_eq("abc", "abc"));
    assert!(!str_eq("abc", "abd"));
    assert!(!str_eq("abc", "ABC"));
}
