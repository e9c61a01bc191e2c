use tokio::sync::mpsc;
use tunnel_server::shared::{SharedState, TicketRequestHttp};

#[test]
fn test_check_duplicate_subdomain() {
    let mut shared_state = SharedState::new();
    let subdomain = "example";

    assert_eq!(
        shared_state.check_duplicate_subdomain(subdomain.to_string()),
        false
    );
    assert_eq!(
        shared_state.check_duplicate_subdomain(subdomain.to_string()),
        true
    );
}

#[test]
fn test_allocate_requested_then_suffixes() {
    // Three agents requesting the same name get the base and then the
    // smallest free suffixes, in order.
    let mut state = SharedState::new();
    assert_eq!(state.allocate_subdomain("beta"), "beta");
    assert_eq!(state.allocate_subdomain("beta"), "beta-1");
    assert_eq!(state.allocate_subdomain("beta"), "beta-2");
}

#[test]
fn test_allocate_fills_gaps_minimally() {
    let mut state = SharedState::new();
    assert_eq!(state.check_duplicate_subdomain("x".to_string()), false);
    assert_eq!(state.check_duplicate_subdomain("x-2".to_string()), false);
    // "x" and "x-2" are taken; the smallest free suffix is 1.
    assert_eq!(state.allocate_subdomain("x"), "x-1");
    // Now 1 and 2 are taken; next comes 3.
    assert_eq!(state.allocate_subdomain("x"), "x-3");
}

#[test]
fn test_allocate_random_is_fresh() {
    let mut state = SharedState::new();
    let a = state.allocate_random_subdomain();
    let b = state.allocate_random_subdomain();
    assert_ne!(a, b);
    assert!(state.is_allocated(&a));
    assert!(state.is_allocated(&b));
}

#[test]
fn test_registration_keeps_key_sets_aligned() {
    // After allocate + register the allocation set and the agent-inbox map
    // agree; unregistration removes the name from both.
    let mut state = SharedState::new();
    let (tx, _rx) = mpsc::unbounded_channel::<TicketRequestHttp>();
    let name = state.allocate_subdomain("alpha");
    assert!(state.is_allocated(&name));
    assert!(!state.is_registered(&name));
    state.register_tcp_client(name.clone(), tx);
    assert!(state.is_registered(&name));
    state.unregister_tcp_client(&name);
    assert!(!state.is_registered(&name));
    assert!(!state.is_allocated(&name));
}

#[test]
fn test_reissue_only_after_release() {
    let mut state = SharedState::new();
    let (tx, _rx) = mpsc::unbounded_channel::<TicketRequestHttp>();
    let name = state.allocate_subdomain("gamma");
    state.register_tcp_client(name.clone(), tx);
    // While the holder is registered, the same request gets another name.
    let other = state.allocate_subdomain("gamma");
    assert_ne!(other, name);
    // After release the original name can be issued again.
    state.unregister_tcp_client(&name);
    assert_eq!(state.allocate_subdomain("gamma-9"), "gamma-9");
}

#[test]
fn test_dispatch_to_unknown_subdomain_fails() {
    let state = SharedState::new();
    let ticket = TicketRequestHttp { name: "tx-10000003".to_string(), data: vec![1, 2, 3] };
    assert!(!state.send_to_tcp_client("ghost", ticket));
}

#[test]
fn test_dispatch_delivers_ticket() {
    let mut state = SharedState::new();
    let (tx, mut rx) = mpsc::unbounded_channel::<TicketRequestHttp>();
    let name = state.allocate_subdomain("delta");
    state.register_tcp_client(name.clone(), tx);
    let ticket = TicketRequestHttp { name: "tx-10000004".to_string(), data: vec![9] };
    assert!(state.send_to_tcp_client(&name, ticket));
    let got = rx.try_recv().expect("one ticket queued");
    assert_eq!(got.name, "tx-10000004");
    assert_eq!(got.data, vec![9]);
}

#[test]
fn test_resolve_delivers_exactly_once() {
    // One registration, one delivery: the second resolution of the same
    // ticket id delivers nothing.
    let mut state = SharedState::new();
    let (tx, mut rx) = mpsc::unbounded_channel::<Vec<u8>>();
    state.register_http_client("tx-10000005".to_string(), tx);
    assert!(state.send_to_http_client("tx-10000005", vec![1]));
    assert!(!state.send_to_http_client("tx-10000005", vec![2]));
    assert_eq!(rx.try_recv().expect("first delivery"), vec![1]);
    assert!(rx.try_recv().is_err());
}

#[test]
fn test_resolve_absent_ticket_is_noop() {
    let mut state = SharedState::new();
    assert!(!state.send_to_http_client("tx-10000006", vec![1]));
}
