//! Parsing of inbound HTTP/1.1 request heads: the target subdomain from the
//! `Host` header, the body length from `Content-Length`, and the keep-alive
//! decision from `Connection`. Header names match case-insensitively; the
//! first line whose value is usable wins; unknown headers are ignored.
use vstd::prelude::*;

use crate::digits::{dec_val, is_dec_string, parse_dec_segment};
use crate::text::{
    find_char_from, find_char_in, find_from, lemma_find_from, segment_starts_with_ci,
    starts_with_ci, trim_bounds, trim_spaces,
};

verus! {

/// The line that begins at `i`: everything up to the next newline, with one
/// trailing carriage return stripped.
pub open spec fn line_at(s: Seq<char>, i: int) -> Seq<char> {
    let e = find_from(s, i, '\n');
    let raw = s.subrange(i, e);
    if raw.len() > 0 && raw.last() == '\r' {
        raw.drop_last()
    } else {
        raw
    }
}

/// The subdomain a `Host` header line yields: the trimmed value after the
/// colon, cut at its first dot. A host without a dot yields nothing.
pub open spec fn host_line_subdomain(line: Seq<char>) -> Option<Seq<char>> {
    if starts_with_ci(line, "host:"@) {
        let v = trim_spaces(line.subrange(5, line.len() as int));
        let d = find_from(v, 0, '.');
        if d < v.len() {
            Some(v.subrange(0, d))
        } else {
            None
        }
    } else {
        None
    }
}

/// Scans line by line from `i`: the first `Host` line naming a dotted host
/// decides the subdomain; with none, the subdomain is empty.
pub open spec fn subdomain_from(s: Seq<char>, i: int) -> Seq<char>
    decreases s.len() - i,
    when 0 <= i <= s.len()
    via subdomain_from_dec
{
    let e = find_from(s, i, '\n');
    match host_line_subdomain(line_at(s, i)) {
        Some(sub) => sub,
        None => if e >= s.len() {
            Seq::empty()
        } else {
            subdomain_from(s, e + 1)
        },
    }
}

#[via_fn]
proof fn subdomain_from_dec(s: Seq<char>, i: int) {
    lemma_find_from(s, i, '\n');
}

pub open spec fn spec_get_subdomain(s: Seq<char>) -> Seq<char> {
    subdomain_from(s, 0)
}

/// The body length a `Content-Length` header line yields: the trimmed value
/// after the colon when it is a decimal numeral that fits the platform.
pub open spec fn content_length_of_line(line: Seq<char>) -> Option<int> {
    if starts_with_ci(line, "content-length:"@) {
        let v = trim_spaces(line.subrange(15, line.len() as int));
        if is_dec_string(v) && dec_val(v) <= usize::MAX {
            Some(dec_val(v))
        } else {
            None
        }
    } else {
        None
    }
}

pub open spec fn content_length_from(s: Seq<char>, i: int) -> Option<int>
    decreases s.len() - i,
    when 0 <= i <= s.len()
    via content_length_from_dec
{
    let e = find_from(s, i, '\n');
    match content_length_of_line(line_at(s, i)) {
        Some(v) => Some(v),
        None => if e >= s.len() {
            None
        } else {
            content_length_from(s, e + 1)
        },
    }
}

#[via_fn]
proof fn content_length_from_dec(s: Seq<char>, i: int) {
    lemma_find_from(s, i, '\n');
}

/// The connection mode a `Connection` header line yields: the trimmed value
/// after the colon, when non-empty.
pub open spec fn connection_of_line(line: Seq<char>) -> Option<Seq<char>> {
    if starts_with_ci(line, "connection:"@) {
        let v = trim_spaces(line.subrange(11, line.len() as int));
        if v.len() > 0 {
            Some(v)
        } else {
            None
        }
    } else {
        None
    }
}

pub open spec fn connection_from(s: Seq<char>, i: int) -> Option<Seq<char>>
    decreases s.len() - i,
    when 0 <= i <= s.len()
    via connection_from_dec
{
    let e = find_from(s, i, '\n');
    match connection_of_line(line_at(s, i)) {
        Some(v) => Some(v),
        None => if e >= s.len() {
            None
        } else {
            connection_from(s, e + 1)
        },
    }
}

#[via_fn]
proof fn connection_from_dec(s: Seq<char>, i: int) {
    lemma_find_from(s, i, '\n');
}

/// The client address a proxy reported, for logging: the first
/// `X-Real-IP` header with a non-empty trimmed value.
pub open spec fn real_ip_of_line(line: Seq<char>) -> Option<Seq<char>> {
    if starts_with_ci(line, "x-real-ip:"@) {
        let v = trim_spaces(line.subrange(10, line.len() as int));
        if v.len() > 0 {
            Some(v)
        } else {
            None
        }
    } else {
        None
    }
}

pub open spec fn real_ip_from(s: Seq<char>, i: int) -> Option<Seq<char>>
    decreases s.len() - i,
    when 0 <= i <= s.len()
    via real_ip_from_dec
{
    let e = find_from(s, i, '\n');
    match real_ip_of_line(line_at(s, i)) {
        Some(v) => Some(v),
        None => if e >= s.len() {
            None
        } else {
            real_ip_from(s, e + 1)
        },
    }
}

#[via_fn]
proof fn real_ip_from_dec(s: Seq<char>, i: int) {
    lemma_find_from(s, i, '\n');
}

pub struct HttpRequest {}

impl HttpRequest {
    /// Extracts the target subdomain from a raw request head: the leftmost
    /// label of the first dotted `Host` header value, or "" when absent.
    pub fn get_subdomain(request: &str) -> (r: String)
        ensures
            r@ == spec_get_subdomain(request@),
    {
        let n = request.unicode_len();
        let mut i: usize = 0;
        loop
            invariant
                0 <= i <= n,
                n == request@.len(),
                spec_get_subdomain(request@) == subdomain_from(request@, i as int),
            decreases n - i,
        {
            proof {
                lemma_find_from(request@, i as int, '\n');
            }
            let e = find_char_from(request, i, '\n');
            let mut e2 = e;
            if e2 > i && request.get_char(e2 - 1) == '\r' {
                e2 -= 1;
            }
            proof {
                if e > i && request@[e - 1] == '\r' {
                    assert(request@.subrange(i as int, e as int).last() == request@[e - 1]);
                    assert(request@.subrange(i as int, e as int).drop_last() =~= request@.subrange(
                        i as int,
                        e2 as int,
                    ));
                }
                assert(line_at(request@, i as int) =~= request@.subrange(i as int, e2 as int));
            }
            if segment_starts_with_ci(request, i, e2, "host:") {
                proof {
                    reveal_strlit("host:");
                }
                let (lo, hi) = trim_bounds(request, i + 5, e2);
                proof {
                    let line = line_at(request@, i as int);
                    assert(line.subrange(5, line.len() as int) =~= request@.subrange(
                        i + 5 as int,
                        e2 as int,
                    ));
                }
                let d = find_char_in(request, lo, hi, '.');
                if d < hi {
                    let sub = request.substring_char(lo, d);
                    proof {
                        let v = trim_spaces(
                            line_at(request@, i as int).subrange(
                                5,
                                line_at(request@, i as int).len() as int,
                            ),
                        );
                        assert(v == request@.subrange(lo as int, hi as int));
                        assert(v.subrange(0, d - lo) =~= request@.subrange(lo as int, d as int));
                    }
                    return sub.to_owned();
                }
            }
            if e >= n {
                return String::new();
            }
            i = e + 1;
        }
    }

    /// Extracts the declared body length from a raw request head, scanning
    /// for the first `Content-Length` header with a usable decimal value.
    pub fn parse_content_length(headers: String) -> (r: Option<usize>)
        ensures
            match r {
                Some(v) => content_length_from(headers@, 0) == Some(v as int),
                None => content_length_from(headers@, 0) is None,
            },
    {
        let s: &str = headers.as_str();
        let n = s.unicode_len();
        let mut i: usize = 0;
        loop
            invariant
                0 <= i <= n,
                n == s@.len(),
                s@ == headers@,
                content_length_from(s@, 0) == content_length_from(s@, i as int),
            decreases n - i,
        {
            proof {
                lemma_find_from(s@, i as int, '\n');
            }
            let e = find_char_from(s, i, '\n');
            let mut e2 = e;
            if e2 > i && s.get_char(e2 - 1) == '\r' {
                e2 -= 1;
            }
            proof {
                if e > i && s@[e - 1] == '\r' {
                    assert(s@.subrange(i as int, e as int).last() == s@[e - 1]);
                    assert(s@.subrange(i as int, e as int).drop_last() =~= s@.subrange(
                        i as int,
                        e2 as int,
                    ));
                }
                assert(line_at(s@, i as int) =~= s@.subrange(i as int, e2 as int));
            }
            if segment_starts_with_ci(s, i, e2, "content-length:") {
                proof {
                    reveal_strlit("content-length:");
                }
                let (lo, hi) = trim_bounds(s, i + 15, e2);
                proof {
                    let line = line_at(s@, i as int);
                    assert(line.subrange(15, line.len() as int) =~= s@.subrange(
                        i + 15 as int,
                        e2 as int,
                    ));
                }
                if let Some(v) = parse_dec_segment(s, lo, hi) {
                    if v <= usize::MAX as u64 {
                        return Some(v as usize);
                    }
                }
            }
            if e >= n {
                return None;
            }
            i = e + 1;
        }
    }

    /// Extracts the reported client address from a raw request head, for
    /// the access log: the first `X-Real-IP` header with a non-empty
    /// trimmed value.
    pub fn parse_x_real_ip(headers: String) -> (r: Option<String>)
        ensures
            match r {
                Some(v) => real_ip_from(headers@, 0) == Some(v@),
                None => real_ip_from(headers@, 0) is None,
            },
    {
        let s: &str = headers.as_str();
        let n = s.unicode_len();
        let mut i: usize = 0;
        loop
            invariant
                0 <= i <= n,
                n == s@.len(),
                s@ == headers@,
                real_ip_from(s@, 0) == real_ip_from(s@, i as int),
            decreases n - i,
        {
            proof {
                lemma_find_from(s@, i as int, '\n');
            }
            let e = find_char_from(s, i, '\n');
            let mut e2 = e;
            if e2 > i && s.get_char(e2 - 1) == '\r' {
                e2 -= 1;
            }
            proof {
                if e > i && s@[e - 1] == '\r' {
                    assert(s@.subrange(i as int, e as int).last() == s@[e - 1]);
                    assert(s@.subrange(i as int, e as int).drop_last() =~= s@.subrange(
                        i as int,
                        e2 as int,
                    ));
                }
                assert(line_at(s@, i as int) =~= s@.subrange(i as int, e2 as int));
            }
            if segment_starts_with_ci(s, i, e2, "x-real-ip:") {
                proof {
                    reveal_strlit("x-real-ip:");
                }
                let (lo, hi) = trim_bounds(s, i + 10, e2);
                proof {
                    let line = line_at(s@, i as int);
                    assert(line.subrange(10, line.len() as int) =~= s@.subrange(
                        i + 10 as int,
                        e2 as int,
                    ));
                }
                if lo < hi {
                    let v = s.substring_char(lo, hi);
                    return Some(v.to_owned());
                }
            }
            if e >= n {
                return None;
            }
            i = e + 1;
        }
    }

    /// Extracts the connection mode from a raw request head: the first
    /// `Connection` header with a non-empty trimmed value.
    pub fn parse_connection(headers: String) -> (r: Option<String>)
        ensures
            match r {
                Some(v) => connection_from(headers@, 0) == Some(v@),
                None => connection_from(headers@, 0) is None,
            },
    {
        let s: &str = headers.as_str();
        let n = s.unicode_len();
        let mut i: usize = 0;
        loop
            invariant
                0 <= i <= n,
                n == s@.len(),
                s@ == headers@,
                connection_from(s@, 0) == connection_from(s@, i as int),
            decreases n - i,
        {
            proof {
                lemma_find_from(s@, i as int, '\n');
            }
            let e = find_char_from(s, i, '\n');
            let mut e2 = e;
            if e2 > i && s.get_char(e2 - 1) == '\r' {
                e2 -= 1;
            }
            proof {
                if e > i && s@[e - 1] == '\r' {
                    assert(s@.subrange(i as int, e as int).last() == s@[e - 1]);
                    assert(s@.subrange(i as int, e as int).drop_last() =~= s@.subrange(
                        i as int,
                        e2 as int,
                    ));
                }
                assert(line_at(s@, i as int) =~= s@.subrange(i as int, e2 as int));
            }
            if segment_starts_with_ci(s, i, e2, "connection:") {
                proof {
                    reveal_strlit("connection:");
                }
                let (lo, hi) = trim_bounds(s, i + 11, e2);
                proof {
                    let line = line_at(s@, i as int);
                    assert(line.subrange(11, line.len() as int) =~= s@.subrange(
                        i + 11 as int,
                        e2 as int,
                    ));
                }
                if lo < hi {
                    let v = s.substring_char(lo, hi);
                    return Some(v.to_owned());
                }
            }
            if e >= n {
                return None;
            }
            i = e + 1;
        }
    }
}

} // verus!
