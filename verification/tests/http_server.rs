use attention_matters::http_server::is_local_origin;

#[test]
fn test_local_origin_exact_localhost() {
    assert!(is_local_origin(b"http://localhost"));
}

#[test]
fn test_local_origin_localhost_with_port() {
    assert!(is_local_origin(b"http://localhost:3000"));
    assert!(is_local_origin(b"http://localhost:8080"));
}

#[test]
fn test_local_origin_exact_ip() {
    assert!(is_local_origin(b"http://127.0.0.1"));
}

#[test]
fn test_local_origin_ip_with_port() {
    assert!(is_local_origin(b"http://127.0.0.1:3001"));
}

#[test]
fn test_local_origin_rejects_subdomain() {
    assert!(!is_local_origin(b"http://localhost.evil.com"));
    assert!(!is_local_origin(b"http://localhost.com"));
}

#[test]
fn test_local_origin_rejects_path() {
    assert!(!is_local_origin(b"http://localhost/foo"));
}

#[test]
fn test_local_origin_rejects_empty_port() {
    assert!(!is_local_origin(b"http://localhost:"));
}

#[test]
fn test_local_origin_rejects_non_digit_port() {
    assert!(!is_local_origin(b"http://localhost:abc"));
}

#[test]
fn test_local_origin_rejects_other_hosts() {
    assert!(!is_local_origin(b"http://example.com"));
    assert!(!is_local_origin(b"https://localhost:3000"));
}

#[test]
fn local_origin_accepts_ip_with_multi_digit_port_and_rejects_trailing_garbage() {
    assert!(is_local_origin(b"http://127.0.0.1:65535"));
    assert!(!is_local_origin(b"http://127.0.0.1:80x"));
    assert!(!is_local_origin(b""));
}
