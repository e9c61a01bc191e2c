use tunnel_server::request::HttpRequest;

#[test]
fn test_empty_request() {
    let result = HttpRequest::get_subdomain("");
    assert_eq!(result, "");
}

#[test]
fn test_non_empty_request() {
    let request = "GET / HTTP/1.1\r\nHost: test.example.com\r\n\r\n";
    let result = HttpRequest::get_subdomain(request);
    assert_eq!(result, "test");
}

#[test]
fn test_parse_content_length() {
    let headers = "Content-Length: 123\r\n".to_string();
    let result = HttpRequest::parse_content_length(headers);
    assert_eq!(result, Some(123));
}

#[test]
fn test_parse_content_length_invalid() {
    let headers = "Content-Length: abc\r\n".to_string();
    let result = HttpRequest::parse_content_length(headers);
    assert_eq!(result, None);
}

#[test]
fn test_parse_content_length_empty() {
    let headers = "Content-Length:\r\n".to_string();
    let result = HttpRequest::parse_content_length(headers);
    assert_eq!(result, None);
}

#[test]
fn test_parse_connection() {
    let headers = "Connection: keep-alive\r\n".to_string();
    let result = HttpRequest::parse_connection(headers);
    assert_eq!(result, Some("keep-alive".to_string()));
}

#[test]
fn test_parse_connection_empty() {
    let headers = "Connection:\r\n".to_string();
    let result = HttpRequest::parse_connection(headers);
    assert_eq!(result, None);
}

#[test]
fn test_host_header_case_insensitive() {
    let request = "GET / HTTP/1.1\r\nHOST: alpha.example.com\r\n\r\n";
    assert_eq!(HttpRequest::get_subdomain(request), "alpha");
}

#[test]
fn test_host_without_dot_yields_nothing() {
    let request = "GET / HTTP/1.1\r\nHost: localhost\r\n\r\n";
    assert_eq!(HttpRequest::get_subdomain(request), "");
}

#[test]
fn test_first_usable_content_length_wins() {
    let headers = "Content-Length: zz\r\nContent-Length: 7\r\n".to_string();
    assert_eq!(HttpRequest::parse_content_length(headers), Some(7));
}

#[test]
fn test_keep_alive_then_close() {
    // No Connection header: the connection stays open.
    let headers = "GET / HTTP/1.1\r\nHost: a.example.com\r\n".to_string();
    assert_eq!(HttpRequest::parse_connection(headers), None);
    // An explicit close is reported trimmed.
    let headers = "GET / HTTP/1.1\r\nConnection: close\r\n".to_string();
    assert_eq!(
        HttpRequest::parse_connection(headers),
        Some("close".to_string())
    );
}

#[test]
fn test_parse_x_real_ip() {
    let headers = "GET / HTTP/1.1\r\nX-Real-IP: 10.0.0.7\r\n".to_string();
    let result = tunnel_server::request::HttpRequest::parse_x_real_ip(headers);
    assert_eq!(result, Some("10.0.0.7".to_string()));
}

#[test]
fn test_parse_x_real_ip_absent() {
    let headers = "GET / HTTP/1.1\r\nHost: a.example.com\r\n".to_string();
    let result = tunnel_server::request::HttpRequest::parse_x_real_ip(headers);
    assert_eq!(result, None);
}
