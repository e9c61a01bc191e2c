//! The synthetic HTTP/1.1 responses the server writes on its own behalf,
//! and their byte-exact rendering.
use vstd::prelude::*;

use crate::digits::{dec_digits, render_u64};

verus! {

/// The byte length of a body as counted on the wire. The cast mirrors the
/// one in the specification of `str::len`; it is exact for any string a
/// program can hold.
pub open spec fn body_byte_len(body: Seq<char>) -> int {
    vstd::utf8::encode_utf8(body).len() as usize as int
}

/// The full text of an HTTP/1.1 response with the fixed header block this
/// server emits: status line, `Content-Type`, `Content-Length` (counting the
/// body's UTF-8 bytes), `Connection: close`, and the `Server` banner.
pub open spec fn response_render(
    code: u16,
    status_text: Seq<char>,
    content_type: Seq<char>,
    body: Seq<char>,
) -> Seq<char> {
    "HTTP/1.1 "@ + dec_digits(code as int) + " "@ + status_text + "\r\nContent-Type: "@
        + content_type + "\r\nContent-Length: "@ + dec_digits(body_byte_len(body))
        + "\r\nConnection: close\r\nServer: Tunnel-Server/1.0\r\n\r\n"@ + body
}

pub struct HttpResponse {
    status_code: u16,
    status_text: String,
    content_type: String,
    body: String,
}

impl HttpResponse {
    pub closed spec fn spec_status_code(&self) -> u16 {
        self.status_code
    }

    pub closed spec fn spec_status_text(&self) -> Seq<char> {
        self.status_text@
    }

    pub closed spec fn spec_content_type(&self) -> Seq<char> {
        self.content_type@
    }

    pub closed spec fn spec_body(&self) -> Seq<char> {
        self.body@
    }

    pub fn new(status_code: u16, status_text: &str, content_type: &str, body: &str) -> (r: Self)
        ensures
            r.spec_status_code() == status_code,
            r.spec_status_text() == status_text@,
            r.spec_content_type() == content_type@,
            r.spec_body() == body@,
    {
        HttpResponse {
            status_code,
            status_text: status_text.to_owned(),
            content_type: content_type.to_owned(),
            body: body.to_owned(),
        }
    }

    /// The reply when a waiting HTTP task observes its response inbox close
    /// without a value: the owning agent session ended first.
    pub fn service_unavailable() -> (r: Self)
        ensures
            r.spec_status_code() == 503,
            r.spec_status_text() == "Service Unavailable"@,
            r.spec_content_type() == "text/html"@,
            r.spec_body() == spec_unavailable_body(),
    {
        Self::new(503, "Service Unavailable", "text/html", unavailable_body())
    }

    /// The reply for a request without a routable subdomain, and for a
    /// ticket resolved with the empty sentinel.
    pub fn not_found() -> (r: Self)
        ensures
            r.spec_status_code() == 404,
            r.spec_status_text() == "Not Found"@,
            r.spec_content_type() == "text/html"@,
            r.spec_body() == spec_not_found_body(),
    {
        Self::new(404, "Not Found", "text/html", not_found_body())
    }

    /// The reply substituted when the agent reports that its local origin
    /// refused the connection.
    pub fn client_app_call_local_refused() -> (r: Self)
        ensures
            r.spec_status_code() == 503,
            r.spec_status_text() == "Service Unavailable"@,
            r.spec_content_type() == "text/html"@,
            r.spec_body() == spec_local_refused_body(),
    {
        Self::new(503, "Service Unavailable", "text/html", local_refused_body())
    }

    /// Renders the response, byte for byte as it goes onto the wire.
    pub fn to_string(&self) -> (r: String)
        ensures
            r@ == response_render(
                self.spec_status_code(),
                self.spec_status_text(),
                self.spec_content_type(),
                self.spec_body(),
            ),
    {
        let mut out = String::from_str("HTTP/1.1 ");
        let code_digits = render_u64(self.status_code as u64);
        out.append(code_digits.as_str());
        out.append(" ");
        out.append(self.status_text.as_str());
        out.append("\r\nContent-Type: ");
        out.append(self.content_type.as_str());
        out.append("\r\nContent-Length: ");
        let body_bytes: usize = self.body.as_str().len();
        let len_digits = render_u64(body_bytes as u64);
        out.append(len_digits.as_str());
        out.append("\r\nConnection: close\r\nServer: Tunnel-Server/1.0\r\n\r\n");
        out.append(self.body.as_str());
        proof {
            assert(out@ =~= response_render(
                self.spec_status_code(),
                self.spec_status_text(),
                self.spec_content_type(),
                self.spec_body(),
            ));
        }
        out
    }
}

/// The static body of the plain 503 reply.
pub open spec fn spec_unavailable_body() -> Seq<char> {
    "<!DOCTYPE html>\n<html>\n<head>\n    <title>503 Service Unavailable</title>\n    <style>\n        body { font-family: Arial, sans-serif; margin: 40px; text-align: center; }\n        h1 { color: #d32f2f; }\n    </style>\n</head>\n<body>\n    <h1>503 - Service Unavailable</h1>\n    <p>The service is temporarily unavailable. Please try again later.</p>\n    <a href=\"/\">&larr; Back to home</a>\n</body>\n</html>"@
}

pub fn unavailable_body() -> (r: &'static str)
    ensures
        r@ == spec_unavailable_body(),
{
    "<!DOCTYPE html>\n<html>\n<head>\n    <title>503 Service Unavailable</title>\n    <style>\n        body { font-family: Arial, sans-serif; margin: 40px; text-align: center; }\n        h1 { color: #d32f2f; }\n    </style>\n</head>\n<body>\n    <h1>503 - Service Unavailable</h1>\n    <p>The service is temporarily unavailable. Please try again later.</p>\n    <a href=\"/\">&larr; Back to home</a>\n</body>\n</html>"
}

/// The static 404 page body.
pub open spec fn spec_not_found_body() -> Seq<char> {
    "<!DOCTYPE html>\n<html>\n<head>\n    <title>404 Not Found</title>\n    <style>\n        body { font-family: Arial, sans-serif; margin: 40px; text-align: center; }\n        h1 { color: #d32f2f; }\n    </style>\n</head>\n<body>\n    <h1>404 - Not Found</h1>\n    <p>The requested resource was not found on this server.</p>\n    <a href=\"/\">&larr; Back to home</a>\n</body>\n</html>"@
}

pub fn not_found_body() -> (r: &'static str)
    ensures
        r@ == spec_not_found_body(),
{
    "<!DOCTYPE html>\n<html>\n<head>\n    <title>404 Not Found</title>\n    <style>\n        body { font-family: Arial, sans-serif; margin: 40px; text-align: center; }\n        h1 { color: #d32f2f; }\n    </style>\n</head>\n<body>\n    <h1>404 - Not Found</h1>\n    <p>The requested resource was not found on this server.</p>\n    <a href=\"/\">&larr; Back to home</a>\n</body>\n</html>"
}

/// The static body for the synthetic reply sent when the agent's local
/// origin refused the connection.
pub open spec fn spec_local_refused_body() -> Seq<char> {
    "<!DOCTYPE html>\n<html>\n<head>\n    <title>503 Service Unavailable , The Client Application Cannot Connect to the Local Server</title>\n    <style>\n        body { font-family: Arial, sans-serif; margin: 40px; text-align: center; }\n        h1 { color: #d32f2f; }\n    </style>\n</head>\n<body>\n    <h1>503 Service Unavailable</h1>\n    <p>The Client Application Cannot Connect to the Local Server</p>\n    <a href=\"/\">&larr; Back to home</a>\n</body>\n</html>"@
}

pub fn local_refused_body() -> (r: &'static str)
    ensures
        r@ == spec_local_refused_body(),
{
    "<!DOCTYPE html>\n<html>\n<head>\n    <title>503 Service Unavailable , The Client Application Cannot Connect to the Local Server</title>\n    <style>\n        body { font-family: Arial, sans-serif; margin: 40px; text-align: center; }\n        h1 { color: #d32f2f; }\n    </style>\n</head>\n<body>\n    <h1>503 Service Unavailable</h1>\n    <p>The Client Application Cannot Connect to the Local Server</p>\n    <a href=\"/\">&larr; Back to home</a>\n</body>\n</html>"
}

} // verus!
