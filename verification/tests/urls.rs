use shrlink::fallback::is_http_url;

#[test]
fn test_http_url_detection() {
    assert!(is_http_url("https://example.com/file.shr"));
    assert!(is_http_url("http://example.com/file.shr"));
    assert!(!is_http_url("shr://peer123/hash456"));
    assert!(!is_http_url("file:///local/path"));
}

#[test]
fn test_fallback_url_detection() {
    assert!(is_http_url("https://example.com/file.shr"));
    assert!(is_http_url("http://localhost:8080/file.shr"));
    assert!(!is_http_url("shr://peer123/hash456"));
    assert!(!is_http_url("file:///local/path"));
}

#[test]
fn test_short_and_similar_schemes_rejected() {
    assert!(!is_http_url(""));
    assert!(!is_http_url("http:/"));
    assert!(is_http_url("http://"));
    assert!(is_http_url("https://"));
    assert!(!is_http_url("httpx://example.com"));
    assert!(!is_http_url("HTTP://example.com"));
}
