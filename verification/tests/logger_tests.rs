use sapper::logger::simple_hash;

/// Sanitize username/nickname, as the redacting logger renders it.
fn sanitize_username(username: &str) -> String {
    format!("[USER_{}]", simple_hash(username))
}

/// Sanitize user id, as the redacting logger renders it.
fn sanitize_user_id(user_id: &str) -> String {
    format!("[ID_{}]", simple_hash(user_id))
}

#[test]
fn test_sanitize_username() {
    let result = sanitize_username("JohnDoe");
    assert!(result.starts_with("[USER_"));
    assert!(result.ends_with("]"));
    // Same input should produce same output
    assert_eq!(result, sanitize_username("JohnDoe"));
}

#[test]
fn test_sanitize_user_id() {
    let result = sanitize_user_id("123456789012345678");
    assert!(result.starts_with("[ID_"));
    assert!(result.ends_with("]"));
}

#[test]
fn test_simple_hash_exact_values() {
    // The 33-based rolling hash, rendered as eight lowercase hex digits.
    assert_eq!(simple_hash("JohnDoe"), "4e99410c");
    assert_eq!(simple_hash("abc"), "0b885c8b");
    assert_eq!(simple_hash("123456789012345678"), "655eaa16");
    // The empty string hashes to the bare seed.
    assert_eq!(simple_hash(""), format!("{:08x}", 5381));
    assert_ne!(simple_hash("a"), simple_hash("b"));
}
