//! One full exchange through the verified core, driven over real channels:
//! an agent registers, an HTTP task dispatches a ticket, the agent session
//! frames the reply, and the waiter receives it byte for byte.
use tokio::sync::mpsc;
use tunnel_server::framing::{find_header_end, plan_response_framing, ResponseFraming};
use tunnel_server::ids::generate_trx_id;
use tunnel_server::reply::plan_client_reply;
use tunnel_server::request::HttpRequest;
use tunnel_server::session::{AgentSession, SessionAction, SessionEvent};
use tunnel_server::shared::{SharedState, TicketRequestHttp};

#[test]
fn test_happy_path_exchange() {
    let mut state = SharedState::new();

    // Agent connects: CONNECT 0.0.2 alpha.
    let mut session = AgentSession::new(0, 0, 2);
    let action = session.step(SessionEvent::HandshakeLine("CONNECT 0.0.2 alpha".to_string()));
    let requested = match action {
        SessionAction::Allocate(req) => req.expect("a requested name"),
        _ => panic!("handshake should pass the version gate"),
    };
    let name = state.allocate_subdomain(&requested);
    assert_eq!(name, "alpha");
    let (tx_tcp, mut rx_tcp) = mpsc::unbounded_channel::<TicketRequestHttp>();
    state.register_tcp_client(name.clone(), tx_tcp);
    session.step(SessionEvent::Admitted(name.clone()));

    // HTTP client sends a request for alpha.example.com.
    let request = b"GET / HTTP/1.1\r\nHost: alpha.example.com\r\n\r\n".to_vec();
    let head_end = find_header_end(&request).expect("complete head");
    let head = String::from_utf8_lossy(&request[..head_end - 4]).to_string();
    assert_eq!(HttpRequest::parse_content_length(head), None);
    let subdomain = HttpRequest::get_subdomain(&String::from_utf8_lossy(&request).to_string());
    assert_eq!(subdomain, "alpha");

    let trx_id = generate_trx_id();
    let (tx_http, mut rx_http) = mpsc::unbounded_channel::<Vec<u8>>();
    state.register_http_client(trx_id.clone(), tx_http);
    let ticket = TicketRequestHttp { name: trx_id.clone(), data: request.clone() };
    assert!(state.send_to_tcp_client(&subdomain, ticket));

    // The agent session takes the ticket and forwards the bytes verbatim.
    let got = rx_tcp.try_recv().expect("ticket queued");
    let action = session.step(SessionEvent::TicketArrived(got));
    let written = match action {
        SessionAction::WriteRequest(bytes) => bytes,
        _ => panic!("the ticket must be written out"),
    };
    assert_eq!(written, request);
    session.step(SessionEvent::WriteOk);

    // The agent replies; the session frames it by Content-Length.
    let reply = b"HTTP/1.1 200 OK\r\nContent-Length: 3\r\n\r\nhey".to_vec();
    let end = find_header_end(&reply).expect("complete reply head");
    assert_eq!(plan_response_framing(&reply, end), ResponseFraming::ContentLength(3));
    assert_eq!(reply.len(), end + 3);

    let action = session.step(SessionEvent::ResponseFramed(reply.clone()));
    let (id, framed) = match action {
        SessionAction::ResolveTicket(id, bytes) => (id, bytes),
        _ => panic!("the response must resolve the ticket"),
    };
    assert_eq!(id, trx_id);
    assert!(state.send_to_http_client(&id, framed));

    // The waiter receives the exact reply and writes it to the client.
    let received = rx_http.try_recv().expect("one delivery");
    let to_client = plan_client_reply(Some(received));
    assert_eq!(to_client, reply);
}

#[test]
fn test_unknown_subdomain_is_refused_at_dispatch() {
    let mut state = SharedState::new();
    let trx_id = generate_trx_id();
    let (tx_http, mut rx_http) = mpsc::unbounded_channel::<Vec<u8>>();
    state.register_http_client(trx_id.clone(), tx_http);
    let ticket = TicketRequestHttp {
        name: trx_id.clone(),
        data: b"GET / HTTP/1.1\r\nHost: ghost.example.com\r\n\r\n".to_vec(),
    };
    assert!(!state.send_to_tcp_client("ghost", ticket));
    // The frontend then cancels the pending ticket.
    state.send_to_http_client(&trx_id, Vec::new());
    assert_eq!(rx_http.try_recv().expect("cancellation delivery"), Vec::<u8>::new());
    assert!(!state.send_to_http_client(&trx_id, Vec::new()));
}
