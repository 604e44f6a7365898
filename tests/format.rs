use furnace::detect_format;

#[test]
fn test_detect_format_email() {
    assert_eq!(detect_format("test@example.com"), Some("email".to_string()));
}

#[test]
fn test_detect_format_uuid() {
    assert_eq!(
        detect_format("550e8400-e29b-41d4-a716-446655440000"),
        Some("uuid".to_string())
    );
}

#[test]
fn test_detect_format_date() {
    assert_eq!(detect_format("2021-01-01"), Some("date".to_string()));
}

#[test]
fn detects_each_format_in_order() {
    assert_eq!(detect_format("https://example.com"), Some("uri".to_string()));
    assert_eq!(detect_format("2021-01-01T10:20:30Z"), Some("date-time".to_string()));
    assert_eq!(detect_format("10:20:30"), Some("time".to_string()));
    assert_eq!(detect_format("192.168.0.1"), Some("ipv4".to_string()));
    assert_eq!(detect_format("2001:db8::"), Some("ipv6".to_string()));
    assert_eq!(detect_format("550E8400-E29B-41D4-A716-446655440000"), Some("uuid".to_string()));
}

#[test]
fn rejects_near_misses() {
    assert_eq!(detect_format(""), None);
    assert_eq!(detect_format("hello"), None);
    assert_eq!(detect_format("not-an-email"), None);
    assert_eq!(detect_format("999.1.1.1"), None);
    assert_eq!(detect_format("2021-13-1x"), None);
    assert_eq!(detect_format("ftp:/"), None);
}
