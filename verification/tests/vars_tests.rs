use mycells::vars::{make_vars, parse_key_val};

#[test]
fn key_values_split_at_the_first_equals_sign() {
    assert_eq!(parse_key_val("site_title=My Notes"), Ok(("site_title".to_string(), "My Notes".to_string())));
    assert_eq!(parse_key_val("a=b=c"), Ok(("a".to_string(), "b=c".to_string())));
    assert_eq!(parse_key_val("=x"), Ok((String::new(), "x".to_string())));
}

#[test]
fn a_missing_equals_sign_is_an_error() {
    assert_eq!(parse_key_val("abc"), Err("expected KEY=VALUE, got \"abc\"".to_string()));
    assert_eq!(parse_key_val("a\"b"), Err("expected KEY=VALUE, got \"a\\\"b\"".to_string()));
}

#[test]
fn the_last_value_of_a_key_stands() {
    let pairs = vec![
        ("a".to_string(), "1".to_string()),
        ("b".to_string(), "2".to_string()),
        ("a".to_string(), "3".to_string()),
    ];
    assert_eq!(make_vars(pairs), vec![("a".to_string(), "3".to_string()), ("b".to_string(), "2".to_string())]);
    assert!(make_vars(vec![]).is_empty());
}
