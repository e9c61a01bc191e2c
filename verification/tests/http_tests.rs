use tunnel_server::ids::generate_trx_id;
use tunnel_server::reply::{check_client_app_error, parse_response_header, plan_client_reply};
use tunnel_server::response::HttpResponse;

#[test]
fn test_generate_trx_id() {
    let id = generate_trx_id();
    assert_eq!(id.len(), 11); // 8-digit number + "tx-"
}

#[test]
fn test_response_header() {
    let headers = "HTTP/1.1 200 OK".to_string();
    let result = parse_response_header(headers);
    assert_eq!(result, "200 OK");
}

#[test]
fn test_response_header_more_data() {
    let headers = "HTTP/1.1 200 OK\r\n testesttst".to_string();
    let result = parse_response_header(headers);
    assert_eq!(result, "200 OK");
}

#[test]
fn test_check_client_app_error() {
    let error_status = "CLIENT_ERROR:ERR_CONNECTION_REFUSED".to_string();
    let result = check_client_app_error(error_status);
    assert!(result.is_some());
}

#[test]
fn test_check_client_app_error_by_http() {
    let error_status = "HTTP/1.1 500 Internal Server Error".to_string();
    let result = check_client_app_error(error_status);
    assert!(result.is_none());
}

#[test]
fn test_trx_id_shape() {
    // The generated id must be "tx-" plus an eight-digit number in range;
    // a wrapper handing back a constant below the range would fail here.
    let id = generate_trx_id();
    assert!(id.starts_with("tx-"));
    let n: u64 = id[3..].parse().expect("digits");
    assert!((10000000..100000000).contains(&n));
}

#[test]
fn test_response_render_exact() {
    let r = HttpResponse::new(200, "OK", "text/plain", "hey");
    assert_eq!(
        r.to_string(),
        "HTTP/1.1 200 OK\r\nContent-Type: text/plain\r\nContent-Length: 3\r\nConnection: close\r\nServer: Tunnel-Server/1.0\r\n\r\nhey"
    );
}

#[test]
fn test_not_found_template() {
    let text = HttpResponse::not_found().to_string();
    assert!(text.starts_with("HTTP/1.1 404 Not Found\r\n"));
    assert!(text.contains("Content-Type: text/html\r\n"));
    assert!(text.contains("Connection: close\r\n"));
    assert!(text.contains("404 - Not Found"));
}

#[test]
fn test_service_unavailable_template() {
    let text = HttpResponse::service_unavailable().to_string();
    assert!(text.starts_with("HTTP/1.1 503 Service Unavailable\r\n"));
    assert!(text.contains("Content-Type: text/html\r\n"));
    assert!(text.contains("Connection: close\r\n"));
    assert!(text.contains("503 - Service Unavailable"));
}

#[test]
fn test_reply_verbatim_round_trip() {
    // An ordinary agent reply reaches the client byte for byte.
    let reply = b"HTTP/1.1 200 OK\r\nContent-Length: 3\r\n\r\nhey".to_vec();
    let written = plan_client_reply(Some(reply.clone()));
    assert_eq!(written, reply);
}

#[test]
fn test_reply_client_error_marker_substitutes_503() {
    let reply = b"HTTP/1.1 client_error:refused\r\n\r\n".to_vec();
    let written = plan_client_reply(Some(reply));
    let expected = HttpResponse::client_app_call_local_refused()
        .to_string()
        .into_bytes();
    assert_eq!(written, expected);
}

#[test]
fn test_reply_empty_sentinel_means_404() {
    let written = plan_client_reply(Some(Vec::new()));
    let expected = HttpResponse::not_found().to_string().into_bytes();
    assert_eq!(written, expected);
}

#[test]
fn test_reply_closed_inbox_means_503() {
    let written = plan_client_reply(None);
    let expected = HttpResponse::service_unavailable().to_string().into_bytes();
    assert_eq!(written, expected);
}

#[test]
fn test_reply_marker_before_first_space_substitutes_503() {
    // The marker is honoured anywhere in the first line, including at its
    // very start, before any space.
    let reply = b"CLIENT_ERROR:ERR_CONNECTION_REFUSED\r\n\r\n".to_vec();
    let written = plan_client_reply(Some(reply));
    let expected = HttpResponse::client_app_call_local_refused()
        .to_string()
        .into_bytes();
    assert_eq!(written, expected);
}

#[test]
fn test_reply_marker_in_body_passes_through() {
    // The marker counts only on the first line; a body mentioning it does
    // not trigger the substitution.
    let reply = b"HTTP/1.1 200 OK\r\nContent-Length: 12\r\n\r\nclient_error".to_vec();
    let written = plan_client_reply(Some(reply.clone()));
    assert_eq!(written, reply);
}
