use scanner::matching::{parse_description_str, try_parse_description_str};

#[test]
fn test_parse_description_str() {
    let result = parse_description_str("{strlen:45}");
    assert_eq!(result, 45);
}

#[test]
fn test_parse_description_str_weird_number() {
    let result = parse_description_str("{strlen:0045}");
    assert_eq!(result, 45);
}

#[test]
fn test_parse_description_str_bad_input() {
    let result = parse_description_str("pirlo");
    assert_eq!(result, 0);
}

#[test]
fn description_strlen_without_braces_is_zero() {
    assert_eq!(parse_description_str("strlen:12"), 0);
}

#[test]
fn description_strlen_inside_text() {
    assert_eq!(parse_description_str("Vendor name, {strlen:7} bytes"), 7);
}

#[test]
fn description_strlen_too_large_would_panic() {
    assert_eq!(try_parse_description_str("{strlen:99999999999}"), None);
    assert_eq!(try_parse_description_str("{strlen:12}"), Some(12));
}
