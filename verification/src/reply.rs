//! What the HTTP frontend writes back to its client for each outcome of a
//! forwarded request: the agent's bytes verbatim, or one of the synthetic
//! replies when the agent failed, vanished, or reported that its local
//! origin refused the connection.
use vstd::prelude::*;

use crate::framing::lower_b;
use crate::request::line_at;
use crate::response::{
    response_render, spec_local_refused_body, spec_not_found_body, spec_unavailable_body,
    HttpResponse,
};
use crate::text::{
    contains_ci, find_char_from, find_char_in, find_from, lemma_find_from, lower_char,
    str_contains_ci,
};
use vstd::utf8::encode_utf8;

verus! {

/// The status portion of a reply's first line: everything after the first
/// space, or the whole line when it has no space.
pub open spec fn spec_response_status(s: Seq<char>) -> Seq<char> {
    let line = line_at(s, 0);
    let p = find_from(line, 0, ' ');
    if p < line.len() {
        line.subrange(p + 1, line.len() as int)
    } else {
        line
    }
}

/// Cuts the status text out of a reply head: first line only, after the
/// first space ("HTTP/1.1 200 OK" yields "200 OK").
pub fn parse_response_header(headers: String) -> (r: String)
    ensures
        r@ == spec_response_status(headers@),
{
    let s: &str = headers.as_str();
    let n = s.unicode_len();
    proof {
        lemma_find_from(s@, 0, '\n');
    }
    let e = find_char_from(s, 0, '\n');
    let mut e2 = e;
    if e2 > 0 && s.get_char(e2 - 1) == '\r' {
        e2 -= 1;
    }
    proof {
        if e > 0 && s@[e - 1] == '\r' {
            assert(s@.subrange(0, e as int).last() == s@[e - 1]);
            assert(s@.subrange(0, e as int).drop_last() =~= s@.subrange(0, e2 as int));
        }
        assert(line_at(s@, 0) =~= s@.subrange(0, e2 as int));
    }
    let p = find_char_in(s, 0, e2, ' ');
    proof {
        let line = line_at(s@, 0);
        assert(find_from(line, 0, ' ') == find_from(s@.subrange(0, e2 as int), 0, ' '));
    }
    if p < e2 {
        let v = s.substring_char(p + 1, e2);
        proof {
            let line = line_at(s@, 0);
            assert(line.subrange(p + 1 as int, line.len() as int) =~= s@.subrange(
                p + 1 as int,
                e2 as int,
            ));
        }
        v.to_owned()
    } else {
        let v = s.substring_char(0, e2);
        proof {
            assert(line_at(s@, 0) =~= s@.subrange(0, e2 as int));
        }
        v.to_owned()
    }
}

/// The bytes of the synthetic 404 reply.
pub open spec fn not_found_reply_bytes() -> Seq<u8> {
    encode_utf8(response_render(404, "Not Found"@, "text/html"@, spec_not_found_body()))
}

/// The bytes of the synthetic 503 reply sent when the waiter's inbox closed
/// without a value.
pub open spec fn unavailable_reply_bytes() -> Seq<u8> {
    encode_utf8(
        response_render(503, "Service Unavailable"@, "text/html"@, spec_unavailable_body()),
    )
}

/// The bytes of the synthetic 503 reply sent when the agent reported that
/// its local origin refused the connection.
pub open spec fn refused_reply_bytes() -> Seq<u8> {
    encode_utf8(
        response_render(503, "Service Unavailable"@, "text/html"@, spec_local_refused_body()),
    )
}

/// The agent flagged the exchange with its local-origin-refused marker.
pub open spec fn has_client_error_marker(status: Seq<char>) -> bool {
    contains_ci(status, "client_error"@)
}

/// When a reply's status text carries the agent's local-origin-refused
/// marker, the substituted 503 reply; otherwise nothing, and the reply
/// passes through unchanged.
pub fn check_client_app_error(status_resp: String) -> (r: Option<Vec<u8>>)
    ensures
        match r {
            Some(v) => has_client_error_marker(status_resp@) && v@ == refused_reply_bytes(),
            None => !has_client_error_marker(status_resp@),
        },
{
    if str_contains_ci(status_resp.as_str(), "client_error") {
        let resp_error = HttpResponse::client_app_call_local_refused().to_string();
        Some(resp_error.as_str().as_bytes_vec())
    } else {
        None
    }
}

/// The marker `p` occurs, ASCII-case-insensitively, at position `i` of `s`.
pub open spec fn marker_at(s: Seq<u8>, i: int, p: Seq<char>) -> bool {
    0 <= i && i + p.len() <= s.len() && forall|j: int|
        0 <= j < p.len() ==> lower_b(s[i + j]) == lower_char(p[j]) as u8
}

/// The marker occurs, ASCII-case-insensitively, in the byte string `s`.
pub open spec fn bytes_contain_ci(s: Seq<u8>, p: Seq<char>) -> bool {
    exists|i: int| marker_at(s, i, p)
}

/// Whether the marker `p` occurs, ASCII-case-insensitively, in `buf`.
pub fn buf_contains_ci(buf: &[u8], p: &str) -> (r: bool)
    ensures
        r == bytes_contain_ci(buf@, p@),
{
    let n = buf.len();
    let plen = p.unicode_len();
    if plen > n {
        return false;
    }
    let mut i: usize = 0;
    while i <= n - plen
        invariant
            0 <= i <= n - plen + 1,
            plen <= n,
            n == buf@.len(),
            plen == p@.len(),
            forall|k: int| 0 <= k < i ==> !marker_at(buf@, k, p@),
        decreases n - i,
    {
        let mut j: usize = 0;
        let mut ok = true;
        while j < plen
            invariant
                0 <= j <= plen,
                plen == p@.len(),
                i + plen <= n,
                n == buf@.len(),
                ok ==> forall|t: int|
                    0 <= t < j ==> lower_b(buf@[i + t]) == lower_char(p@[t]) as u8,
                !ok ==> exists|t: int|
                    0 <= t < p@.len() && lower_b(buf@[i + t]) != lower_char(p@[t]) as u8,
            decreases plen - j,
        {
            let b = buf[i + j];
            let lb: u8 = if 65 <= b && b <= 90 {
                b + 32
            } else {
                b
            };
            let c = crate::text::to_lower_char(p.get_char(j));
            if lb != c as u8 {
                ok = false;
            }
            j += 1;
        }
        if ok {
            proof {
                assert(marker_at(buf@, i as int, p@));
            }
            return true;
        }
        proof {
            assert(!marker_at(buf@, i as int, p@));
        }
        i += 1;
    }
    proof {
        assert forall|k: int| !(0 <= k < i) implies !marker_at(buf@, k, p@) by {
            if marker_at(buf@, k, p@) {
                assert(0 <= k && k + p@.len() <= buf@.len());
            }
        }
    }
    false
}

/// The first line of a reply's raw bytes: up to the first CR LF pair, or
/// the whole reply when it has none.
pub open spec fn first_line_bytes(v: Seq<u8>) -> Seq<u8> {
    let p = find_crlf_from(v, 0);
    if p < v.len() {
        v.subrange(0, p)
    } else {
        v
    }
}

/// Index of the first CR LF in `s` at or after `i`, or `s.len()`.
pub open spec fn find_crlf_from(s: Seq<u8>, i: int) -> int
    decreases s.len() - i,
    when 0 <= i <= s.len()
{
    if i + 2 > s.len() {
        s.len() as int
    } else if s[i] == 13 && s[i + 1] == 10 {
        i
    } else {
        find_crlf_from(s, i + 1)
    }
}

pub proof fn lemma_find_crlf_from(s: Seq<u8>, i: int)
    requires
        0 <= i <= s.len(),
    ensures
        i <= find_crlf_from(s, i) <= s.len(),
        find_crlf_from(s, i) < s.len() ==> find_crlf_from(s, i) + 2 <= s.len() && s[find_crlf_from(
            s,
            i,
        )] == 13 && s[find_crlf_from(s, i) + 1] == 10,
    decreases s.len() - i,
{
    if i + 2 <= s.len() && !(s[i] == 13 && s[i + 1] == 10) {
        lemma_find_crlf_from(s, i + 1);
    }
}

/// What a reply from an agent means for the waiter: delivered bytes pass
/// through verbatim unless their first line carries the
/// local-origin-refused marker, which substitutes the synthetic 503; the
/// empty sentinel means 404; a closed inbox (no value at all) means 503.
pub open spec fn spec_client_reply(received: Option<Seq<u8>>) -> Seq<u8> {
    match received {
        Option::None => unavailable_reply_bytes(),
        Option::Some(v) => if v.len() == 0 {
            not_found_reply_bytes()
        } else if bytes_contain_ci(first_line_bytes(v), "client_error"@) {
            refused_reply_bytes()
        } else {
            v
        },
    }
}

/// Chooses the bytes the HTTP frontend writes back to its client, given
/// what came out of the ticket's response inbox (`None`: inbox closed).
pub fn plan_client_reply(received: Option<Vec<u8>>) -> (r: Vec<u8>)
    ensures
        r@ == spec_client_reply(match received {
            Option::Some(v) => Option::Some(v@),
            Option::None => Option::None,
        }),
{
    match received {
        Option::None => {
            let resp = HttpResponse::service_unavailable().to_string();
            resp.as_str().as_bytes_vec()
        },
        Option::Some(v) => {
            if v.len() == 0 {
                let resp = HttpResponse::not_found().to_string();
                return resp.as_str().as_bytes_vec();
            }
            proof {
                lemma_find_crlf_from(v@, 0);
            }
            // bound of the first line
            let n = v.len();
            let mut i: usize = 0;
            while n - i >= 2 && !(v[i] == 13 && v[i + 1] == 10)
                invariant
                    0 <= i <= n,
                    n == v@.len(),
                    find_crlf_from(v@, 0) == find_crlf_from(v@, i as int),
                decreases n - i,
            {
                i += 1;
            }
            let fl_end = if n - i >= 2 {
                i
            } else {
                proof {
                    assert(find_crlf_from(v@, i as int) == v@.len());
                }
                n
            };
            proof {
                assert(first_line_bytes(v@) =~= v@.subrange(0, fl_end as int));
            }
            // the whole first line carries the marker check
            let status_slice = vstd::slice::slice_subrange(v.as_slice(), 0, fl_end);
            if buf_contains_ci(status_slice, "client_error") {
                let resp = HttpResponse::client_app_call_local_refused().to_string();
                resp.as_str().as_bytes_vec()
            } else {
                v
            }
        },
    }
}

/// Round trip: a non-empty reply delivered to a waiting HTTP task reaches
/// the client byte for byte — unless its first line carries the
/// local-origin-refused marker, in which case the synthetic 503 replaces it.
pub proof fn lemma_round_trip(v: Seq<u8>)
    requires
        v.len() > 0,
    ensures
        !bytes_contain_ci(first_line_bytes(v), "client_error"@) ==> spec_client_reply(
            Some(v),
        ) == v,
        bytes_contain_ci(first_line_bytes(v), "client_error"@) ==> spec_client_reply(
            Some(v),
        ) == refused_reply_bytes(),
{
}

} // verus!
