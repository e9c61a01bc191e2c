//! A reverse-tunnel HTTP ingress: a public server that pairs inbound HTTP
//! requests with registered agents over persistent TCP control sessions and
//! shuttles the request and response bytes between them.
//!
//! This crate holds the verified core: the request and response parsers, the
//! byte-exact framing of responses on a shared stream, the router state with
//! its subdomain allocator and pending-ticket table, and the agent-session
//! state machine. The listeners and socket I/O around it hand bytes in and
//! carry bytes out.
use vstd::prelude::*;

pub mod digits;
pub mod framing;
pub mod ids;
pub mod reply;
pub mod request;
pub mod response;
pub mod session;
pub mod shared;
pub mod text;
pub mod version;

use crate::digits::{dec_digits, render_u64};

verus! {

/// Listening configuration for the two frontends: the public HTTP port and
/// the agent control port, together with their rendered bind addresses.
pub struct ServerConfig {
    pub http_port: u16,
    pub tcp_port: u16,
    pub http_addr: String,
    pub tcp_addr: String,
}

/// A bind address on all interfaces: "0.0.0.0:" followed by the port.
pub open spec fn spec_bind_addr(port: u16) -> Seq<char> {
    "0.0.0.0:"@ + dec_digits(port as int)
}

impl ServerConfig {
    /// Builds the configuration for a pair of ports; both listeners bind on
    /// all interfaces.
    pub fn from_ports(http_port: u16, tcp_port: u16) -> (r: Self)
        ensures
            r.http_port == http_port,
            r.tcp_port == tcp_port,
            r.http_addr@ == spec_bind_addr(http_port),
            r.tcp_addr@ == spec_bind_addr(tcp_port),
    {
        let mut http_addr = String::from_str("0.0.0.0:");
        let d1 = render_u64(http_port as u64);
        http_addr.append(d1.as_str());
        let mut tcp_addr = String::from_str("0.0.0.0:");
        let d2 = render_u64(tcp_port as u64);
        tcp_addr.append(d2.as_str());
        ServerConfig { http_port, tcp_port, http_addr, tcp_addr }
    }
}

} // verus!
