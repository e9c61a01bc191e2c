use tunnel_server::framing::{
    find_chunk_end, find_header_end, plan_response_framing, ResponseFraming,
};
use tunnel_server::ids::generate_name;
use tunnel_server::session::{
    version_reject_reply, AgentSession, SessionAction, SessionEvent, SessionPhase,
};
use tunnel_server::shared::TicketRequestHttp;
use tunnel_server::version::{check_available_version, parse_version};

#[test]
fn test_generate_name() {
    let result = generate_name();
    assert_eq!(result.len(), 8);
}

#[test]
fn test_check_available_version_002() {
    let first_access = "0.0.2";
    assert_eq!(check_available_version(first_access, "0.0.2"), true);
}

#[test]
fn test_check_available_version_001() {
    let first_access = "0.0.1";
    assert_eq!(check_available_version(first_access, "0.0.2"), false);
}

#[test]
fn test_check_available_version_003() {
    let first_access = "0.0.3";
    assert_eq!(check_available_version(first_access, "0.0.2"), true);
}

#[test]
fn test_check_available_version_random_text() {
    let first_access = "fdsfdsfjds9]nsfdlksjdfl";
    assert_eq!(check_available_version(first_access, "0.0.2"), false);
}

#[test]
fn test_parse_version() {
    let version_str = "1.2.3";
    let expected = Some((1, 2, 3));
    assert_eq!(parse_version(version_str), expected);
}

#[test]
fn test_parse_version_rejects_other_shapes() {
    assert_eq!(parse_version(""), None);
    assert_eq!(parse_version("1.2"), None);
    assert_eq!(parse_version("1.2.3.4"), None);
    assert_eq!(parse_version("1..3"), None);
    assert_eq!(parse_version("1.2.x"), None);
}

#[test]
fn test_framing_content_length() {
    let reply = b"HTTP/1.1 200 OK\r\nContent-Length: 3\r\n\r\nhey";
    let end = find_header_end(reply).expect("head complete");
    assert_eq!(end, 38);
    assert_eq!(
        plan_response_framing(reply, end),
        ResponseFraming::ContentLength(3)
    );
}

#[test]
fn test_framing_bad_content_length() {
    let reply = b"HTTP/1.1 200 OK\r\nContent-Length: abc\r\n\r\n";
    let end = find_header_end(reply).expect("head complete");
    assert_eq!(
        plan_response_framing(reply, end),
        ResponseFraming::BadContentLength
    );
}

#[test]
fn test_framing_header_only() {
    let reply = b"HTTP/1.1 304 Not Modified\r\nServer: x\r\n\r\n";
    let end = find_header_end(reply).expect("head complete");
    assert_eq!(end, reply.len());
    assert_eq!(plan_response_framing(reply, end), ResponseFraming::HeaderOnly);
}

#[test]
fn test_framing_chunked_ends_at_terminator() {
    // The forwarded bytes must end exactly at the 0 CR LF CR LF terminator,
    // with nothing trailing.
    let mut reply =
        b"HTTP/1.1 200 OK\r\nTransfer-Encoding: chunked\r\n\r\n5\r\nhello\r\n0\r\n\r\n".to_vec();
    let full = reply.clone();
    reply.extend_from_slice(b"LEFTOVER");
    let end = find_header_end(&reply).expect("head complete");
    assert_eq!(plan_response_framing(&reply, end), ResponseFraming::Chunked);
    let cut = find_chunk_end(&reply, end).expect("terminator present");
    reply.truncate(cut);
    assert_eq!(reply, full);
}

#[test]
fn test_framing_chunked_waits_for_terminator() {
    let reply = b"HTTP/1.1 200 OK\r\nTransfer-Encoding: chunked\r\n\r\n5\r\nhel";
    let end = find_header_end(reply).expect("head complete");
    assert_eq!(find_chunk_end(reply, end), None);
}

#[test]
fn test_session_happy_path() {
    // Handshake, registration, one serial exchange.
    let mut s = AgentSession::new(0, 0, 2);
    let a = s.step(SessionEvent::HandshakeLine("CONNECT 0.0.2 alpha".to_string()));
    match a {
        SessionAction::Allocate(Some(name)) => assert_eq!(name, "alpha"),
        _ => panic!("expected an allocation with the requested name"),
    }
    let a = s.step(SessionEvent::Admitted("alpha".to_string()));
    assert!(matches!(a, SessionAction::Proceed));
    assert!(matches!(s.phase, SessionPhase::Registered));

    let request = b"GET / HTTP/1.1\r\nHost: alpha.example.com\r\n\r\n".to_vec();
    let ticket = TicketRequestHttp { name: "tx-10000001".to_string(), data: request.clone() };
    let a = s.step(SessionEvent::TicketArrived(ticket));
    match a {
        SessionAction::WriteRequest(bytes) => assert_eq!(bytes, request),
        _ => panic!("expected the request bytes to be written"),
    }
    let a = s.step(SessionEvent::WriteOk);
    assert!(matches!(a, SessionAction::Proceed));

    let reply = b"HTTP/1.1 200 OK\r\nContent-Length: 3\r\n\r\nhey".to_vec();
    let a = s.step(SessionEvent::ResponseFramed(reply.clone()));
    match a {
        SessionAction::ResolveTicket(id, bytes) => {
            assert_eq!(id, "tx-10000001");
            assert_eq!(bytes, reply);
        },
        _ => panic!("expected the ticket to be resolved"),
    }
    assert!(matches!(s.phase, SessionPhase::Registered));
}

#[test]
fn test_session_version_too_low() {
    let mut s = AgentSession::new(0, 0, 2);
    let a = s.step(SessionEvent::HandshakeLine("CONNECT 0.0.1".to_string()));
    assert!(matches!(a, SessionAction::RejectVersion));
    assert!(matches!(s.phase, SessionPhase::Closing));
    assert_eq!(version_reject_reply(), "ERR001:request_higher_version");
}

#[test]
fn test_session_malformed_version_closes_silently() {
    let mut s = AgentSession::new(0, 0, 2);
    let a = s.step(SessionEvent::HandshakeLine("CONNECT bogus".to_string()));
    assert!(matches!(a, SessionAction::CloseNow));
    assert!(matches!(s.phase, SessionPhase::Closing));
}

#[test]
fn test_session_agent_dies_mid_request() {
    let mut s = AgentSession::new(0, 0, 2);
    s.step(SessionEvent::HandshakeLine("CONNECT 0.0.2".to_string()));
    s.step(SessionEvent::Admitted("app-0001".to_string()));
    let ticket = TicketRequestHttp { name: "tx-10000002".to_string(), data: b"GET /".to_vec() };
    s.step(SessionEvent::TicketArrived(ticket));
    s.step(SessionEvent::WriteOk);
    // The agent closes before writing its response head: the in-flight
    // ticket resolves with the empty sentinel and the session tears down.
    let a = s.step(SessionEvent::StreamEnded);
    match a {
        SessionAction::ResolveEmpty(id) => assert_eq!(id, "tx-10000002"),
        _ => panic!("expected the empty sentinel"),
    }
    assert!(matches!(s.phase, SessionPhase::Closing));
    let a = s.step(SessionEvent::TornDown);
    assert!(matches!(a, SessionAction::Proceed));
    assert!(matches!(s.phase, SessionPhase::Gone));
}

#[test]
fn test_session_missing_version_closes_silently() {
    let mut s = AgentSession::new(0, 0, 2);
    let a = s.step(SessionEvent::HandshakeLine("CONNECT".to_string()));
    assert!(matches!(a, SessionAction::CloseNow));
    assert!(matches!(s.phase, SessionPhase::Closing));
}

#[test]
fn test_framed_end_cuts_overread() {
    // A Content-Length reply with trailing bytes from the next response is
    // cut exactly at head + body.
    let reply = b"HTTP/1.1 200 OK\r\nContent-Length: 3\r\n\r\nhey";
    let mut buffer = reply.to_vec();
    buffer.extend_from_slice(b"HTTP/1.1 200 OK\r\n");
    let end = find_header_end(&buffer).expect("head complete");
    buffer.truncate(tunnel_server::framing::framed_end(buffer.len(), end, 3));
    assert_eq!(buffer, reply.to_vec());
}

#[test]
fn test_framed_end_keeps_short_read() {
    // When the stream ended before the declared length arrived, the buffer
    // stays as it is.
    let reply = b"HTTP/1.1 200 OK\r\nContent-Length: 9\r\n\r\nhey";
    let end = find_header_end(reply).expect("head complete");
    assert_eq!(
        tunnel_server::framing::framed_end(reply.len(), end, 9),
        reply.len()
    );
}
