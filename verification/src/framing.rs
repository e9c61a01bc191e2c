//! Byte-level framing of HTTP messages on the tunnel: locating the end of a
//! message head, reading response headers, and deciding where a response
//! body ends (`Content-Length`, chunked transfer, or no body at all).
//! Responses share one TCP stream per agent, so reading exactly to the end
//! of each response, and not one byte past it, is what keeps sessions sound.
use vstd::prelude::*;

use crate::text::lower_char;

verus! {

pub const CR: u8 = 13;

pub const LF: u8 = 10;

/// ASCII lower-casing of one byte.
pub open spec fn lower_b(b: u8) -> u8 {
    if 65 <= b && b <= 90 {
        (b + 32) as u8
    } else {
        b
    }
}

/// Index of the first occurrence of `b` in `s` at or after `i`, or `s.len()`.
pub open spec fn bfind_from(s: Seq<u8>, i: int, b: u8) -> int
    decreases s.len() - i,
    when 0 <= i <= s.len()
{
    if i >= s.len() {
        i
    } else if s[i] == b {
        i
    } else {
        bfind_from(s, i + 1, b)
    }
}

pub proof fn lemma_bfind_from(s: Seq<u8>, i: int, b: u8)
    requires
        0 <= i <= s.len(),
    ensures
        i <= bfind_from(s, i, b) <= s.len(),
        bfind_from(s, i, b) < s.len() ==> s[bfind_from(s, i, b)] == b,
        forall|j: int| i <= j < bfind_from(s, i, b) ==> s[j] != b,
    decreases s.len() - i,
{
    if i < s.len() && s[i] != b {
        lemma_bfind_from(s, i + 1, b);
    }
}

/// The four-byte head delimiter CR LF CR LF begins at `i`.
pub open spec fn head_delim_at(s: Seq<u8>, i: int) -> bool {
    0 <= i && i + 4 <= s.len() && s[i] == 13 && s[i + 1] == 10 && s[i + 2] == 13 && s[i + 3] == 10
}

/// Index of the first head delimiter at or after `i`, or `s.len()`.
pub open spec fn find_head_delim_from(s: Seq<u8>, i: int) -> int
    decreases s.len() - i,
    when 0 <= i <= s.len()
{
    if i + 4 > s.len() {
        s.len() as int
    } else if head_delim_at(s, i) {
        i
    } else {
        find_head_delim_from(s, i + 1)
    }
}

pub proof fn lemma_find_head_delim_from(s: Seq<u8>, i: int)
    requires
        0 <= i <= s.len(),
    ensures
        i <= find_head_delim_from(s, i) <= s.len(),
        find_head_delim_from(s, i) < s.len() ==> head_delim_at(s, find_head_delim_from(s, i)),
        forall|j: int| i <= j < find_head_delim_from(s, i) ==> !head_delim_at(s, j),
    decreases s.len() - i,
{
    if i + 4 <= s.len() && !head_delim_at(s, i) {
        lemma_find_head_delim_from(s, i + 1);
    }
}

/// Where the head of the message in `s` ends: one past the first CR LF CR
/// LF, when that delimiter has arrived.
pub open spec fn spec_header_end(s: Seq<u8>) -> Option<int> {
    let p = find_head_delim_from(s, 0);
    if p < s.len() {
        Some(p + 4)
    } else {
        None
    }
}

/// Scans a receive buffer for the end of the message head. `None` means the
/// head is still incomplete and more bytes are needed.
pub fn find_header_end(buf: &[u8]) -> (r: Option<usize>)
    ensures
        match r {
            Some(e) => spec_header_end(buf@) == Some(e as int) && 4 <= e <= buf@.len(),
            None => spec_header_end(buf@) is None,
        },
{
    let n = buf.len();
    proof {
        lemma_find_head_delim_from(buf@, 0);
    }
    if n < 4 {
        return None;
    }
    let mut i: usize = 0;
    while n - i >= 4
        invariant
            0 <= i <= n,
            n == buf@.len(),
            n >= 4,
            find_head_delim_from(buf@, 0) == find_head_delim_from(buf@, i as int),
        decreases n - i,
    {
        if buf[i] == CR && buf[i + 1] == LF && buf[i + 2] == CR && buf[i + 3] == LF {
            return Some(i + 4);
        }
        i += 1;
    }
    None
}

/// The five-byte chunked terminator `0` CR LF CR LF begins at `i`.
pub open spec fn chunk_term_at(s: Seq<u8>, i: int) -> bool {
    0 <= i && i + 5 <= s.len() && s[i] == 48 && s[i + 1] == 13 && s[i + 2] == 10 && s[i + 3] == 13
        && s[i + 4] == 10
}

/// Index of the first chunked terminator at or after `i`, or `s.len()`.
pub open spec fn find_chunk_term_from(s: Seq<u8>, i: int) -> int
    decreases s.len() - i,
    when 0 <= i <= s.len()
{
    if i + 5 > s.len() {
        s.len() as int
    } else if chunk_term_at(s, i) {
        i
    } else {
        find_chunk_term_from(s, i + 1)
    }
}

pub proof fn lemma_find_chunk_term_from(s: Seq<u8>, i: int)
    requires
        0 <= i <= s.len(),
    ensures
        i <= find_chunk_term_from(s, i) <= s.len(),
        find_chunk_term_from(s, i) < s.len() ==> chunk_term_at(s, find_chunk_term_from(s, i)),
        forall|j: int| i <= j < find_chunk_term_from(s, i) ==> !chunk_term_at(s, j),
    decreases s.len() - i,
{
    if i + 5 <= s.len() && !chunk_term_at(s, i) {
        lemma_find_chunk_term_from(s, i + 1);
    }
}

/// Where a chunked response ends: one past the first `0` CR LF CR LF found
/// at or after the end of the head. `None` while the terminator has not
/// arrived yet.
pub open spec fn spec_chunk_end(s: Seq<u8>, header_end: int) -> Option<int> {
    let p = find_chunk_term_from(s, header_end);
    if p < s.len() {
        Some(p + 5)
    } else {
        None
    }
}

/// Scans past the head for the chunked terminator; the returned position is
/// the length the buffer must be truncated to.
pub fn find_chunk_end(buf: &[u8], header_end: usize) -> (r: Option<usize>)
    requires
        header_end <= buf@.len(),
    ensures
        match r {
            Some(e) => spec_chunk_end(buf@, header_end as int) == Some(e as int) && header_end < e
                <= buf@.len(),
            None => spec_chunk_end(buf@, header_end as int) is None,
        },
{
    let n = buf.len();
    proof {
        lemma_find_chunk_term_from(buf@, header_end as int);
    }
    let mut i: usize = header_end;
    while n - i >= 5
        invariant
            header_end <= i <= n,
            n == buf@.len(),
            find_chunk_term_from(buf@, header_end as int) == find_chunk_term_from(buf@, i as int),
        decreases n - i,
    {
        if buf[i] == 48 && buf[i + 1] == CR && buf[i + 2] == LF && buf[i + 3] == CR && buf[i + 4]
            == LF {
            return Some(i + 5);
        }
        i += 1;
    }
    None
}

/// The line that begins at `i`: everything up to the next LF, with one
/// trailing CR stripped.
pub open spec fn bline_at(s: Seq<u8>, i: int) -> Seq<u8> {
    let e = bfind_from(s, i, 10);
    let raw = s.subrange(i, e);
    if raw.len() > 0 && raw.last() == 13 {
        raw.drop_last()
    } else {
        raw
    }
}

/// The bytes `win` spell `name` exactly, byte for byte against the ASCII
/// codes of the name's characters.
pub open spec fn bytes_are(win: Seq<u8>, name: Seq<char>) -> bool {
    win.len() == name.len() && forall|j: int| 0 <= j < win.len() ==> win[j] == name[j] as u8
}

/// The bytes `win` spell `name`, ASCII-case-insensitively.
pub open spec fn bytes_are_ci(win: Seq<u8>, name: Seq<char>) -> bool {
    win.len() == name.len() && forall|j: int|
        0 <= j < win.len() ==> lower_b(win[j]) == lower_char(name[j]) as u8
}

/// Index of the first `": "` (colon, space) in `s` at or after `i`, or
/// `s.len()` when there is none.
pub open spec fn find_colon_space_from(s: Seq<u8>, i: int) -> int
    decreases s.len() - i,
    when 0 <= i <= s.len()
{
    if i + 2 > s.len() {
        s.len() as int
    } else if s[i] == 58 && s[i + 1] == 32 {
        i
    } else {
        find_colon_space_from(s, i + 1)
    }
}

pub proof fn lemma_find_colon_space_from(s: Seq<u8>, i: int)
    requires
        0 <= i <= s.len(),
    ensures
        i <= find_colon_space_from(s, i) <= s.len(),
        find_colon_space_from(s, i) < s.len() ==> s[find_colon_space_from(s, i)] == 58 && s[
            find_colon_space_from(s, i) + 1
        ] == 32 && find_colon_space_from(s, i) + 2 <= s.len(),
        forall|j: int|
            i <= j < find_colon_space_from(s, i) && j + 2 <= s.len() ==> !(#[trigger] s[j] == 58
                && s[j + 1] == 32),
    decreases s.len() - i,
{
    if i + 2 <= s.len() && !(s[i] == 58 && s[i + 1] == 32) {
        lemma_find_colon_space_from(s, i + 1);
    }
}

/// What a response header line contributes for the header `name`: when the
/// line splits at its first `": "` and the part before it spells `name`
/// exactly, the part after it; otherwise nothing.
pub open spec fn line_header_value(line: Seq<u8>, name: Seq<char>) -> Option<Seq<u8>> {
    let j = find_colon_space_from(line, 0);
    if j < line.len() {
        if bytes_are(line.subrange(0, j), name) {
            Some(line.subrange(j + 2, line.len() as int))
        } else {
            None
        }
    } else {
        None
    }
}

/// The value of the header `name` in the lines of `s` from `i` on, where a
/// later line overrides an earlier one, as insertion into a map would.
pub open spec fn header_value_from(s: Seq<u8>, i: int, name: Seq<char>) -> Option<Seq<u8>>
    decreases s.len() - i,
    when 0 <= i <= s.len()
    via header_value_from_dec
{
    let e = bfind_from(s, i, 10);
    let cur = line_header_value(bline_at(s, i), name);
    let rest = if e >= s.len() {
        None
    } else {
        header_value_from(s, e + 1, name)
    };
    match rest {
        Some(v) => Some(v),
        None => cur,
    }
}

#[via_fn]
proof fn header_value_from_dec(s: Seq<u8>, i: int, name: Seq<char>) {
    lemma_bfind_from(s, i, 10);
}

/// Index of the first `": "` within `[lo, hi)` of `buf`, expressed as an
/// absolute position; `hi` when absent.
pub fn find_colon_space_in(buf: &[u8], lo: usize, hi: usize) -> (r: usize)
    requires
        lo <= hi <= buf@.len(),
    ensures
        r == lo + find_colon_space_from(buf@.subrange(lo as int, hi as int), 0),
        lo <= r <= hi,
        r < hi ==> r + 2 <= hi && buf@[r as int] == 58 && buf@[r + 1] == 32,
{
    let ghost line = buf@.subrange(lo as int, hi as int);
    proof {
        lemma_find_colon_space_from(line, 0);
    }
    let mut j = lo;
    while hi - j >= 2
        invariant
            lo <= j <= hi <= buf@.len(),
            line == buf@.subrange(lo as int, hi as int),
            find_colon_space_from(line, 0) == find_colon_space_from(line, j - lo),
        decreases hi - j,
    {
        if buf[j] == 58 && buf[j + 1] == 32 {
            proof {
                assert(line[j - lo] == 58 && line[j - lo + 1] == 32);
                assert(find_colon_space_from(line, j - lo) == j - lo);
            }
            return j;
        }
        j += 1;
    }
    proof {
        assert(find_colon_space_from(line, j - lo) == line.len());
    }
    hi
}

/// The value of `name` among the response headers: the head's lines after
/// the status line, a later occurrence overriding an earlier one. The
/// returned pair bounds the value's bytes within `buf`.
pub fn find_response_header(buf: &[u8], header_end: usize, name: &str) -> (r: Option<
    (usize, usize),
>)
    requires
        header_end <= buf@.len(),
    ensures
        ({
            let head = buf@.subrange(0, header_end as int);
            let start = bfind_from(head, 0, 10) + 1;
            match r {
                Some((a, b)) => a <= b <= header_end && start <= header_end
                    && header_value_from(head, start, name@) == Some(
                    buf@.subrange(a as int, b as int),
                ),
                None => start > header_end || header_value_from(head, start, name@) is None,
            }
        }),
{
    let ghost head = buf@.subrange(0, header_end as int);
    proof {
        lemma_bfind_from(head, 0, 10);
    }
    let e0 = bfind_in(buf, 0, header_end, LF);
    if e0 >= header_end {
        return None;
    }
    let mut i: usize = e0 + 1;
    let mut best: Option<(usize, usize)> = None;
    let ghost mut best_v: Option<Seq<u8>> = None;
    loop
        invariant
            0 <= i <= header_end <= buf@.len(),
            head == buf@.subrange(0, header_end as int),
            e0 as int == bfind_from(head, 0, 10),
            e0 < header_end,
            e0 + 1 <= i,
            match best {
                Some((a, b)) => a <= b <= header_end && best_v == Some(
                    buf@.subrange(a as int, b as int),
                ),
                None => best_v is None,
            },
            ({
                let whole = header_value_from(head, e0 + 1, name@);
                let rest = match header_value_from(head, i as int, name@) {
                    Some(v) => Some(v),
                    None => best_v,
                };
                whole == rest
            }),
        decreases header_end - i,
    {
        proof {
            lemma_bfind_from(head, i as int, 10);
        }
        let e = bfind_in(buf, i, header_end, LF);
        let mut e2 = e;
        if e2 > i && buf[e2 - 1] == CR {
            e2 -= 1;
        }
        proof {
            if e > i && head[e - 1] == 13 {
                assert(head.subrange(i as int, e as int).last() == head[e - 1]);
                assert(head.subrange(i as int, e as int).drop_last() =~= head.subrange(
                    i as int,
                    e2 as int,
                ));
            }
            assert(bline_at(head, i as int) =~= head.subrange(i as int, e2 as int));
        }
        let ghost line = bline_at(head, i as int);
        proof {
            assert(line =~= buf@.subrange(i as int, e2 as int));
        }
        let cs = find_colon_space_in(buf, i, e2);
        let ghost spec_cs = find_colon_space_from(line, 0);
        if cs < e2 {
            proof {
                assert(spec_cs == cs - i);
            }
            // compare the key bytes [i, cs) with the name's characters
            let nlen = name.unicode_len();
            if cs - i == nlen {
                let mut k: usize = 0;
                let mut matched = true;
                while k < nlen
                    invariant
                        0 <= k <= nlen,
                        nlen == name@.len(),
                        i <= cs <= e2 <= header_end <= buf@.len(),
                        cs - i == nlen,
                        head == buf@.subrange(0, header_end as int),
                        line == buf@.subrange(i as int, e2 as int),
                        matched ==> forall|t: int| 0 <= t < k ==> line[t] == name@[t] as u8,
                        !matched ==> !bytes_are(line.subrange(0, cs - i), name@),
                    decreases nlen - k,
                {
                    if buf[i + k] != name.get_char(k) as u8 {
                        proof {
                            assert(line.subrange(0, cs - i)[k as int] == line[k as int]);
                        }
                        matched = false;
                    }
                    k += 1;
                }
                if matched {
                    proof {
                        assert forall|t: int| 0 <= t < (cs - i) implies line.subrange(
                            0,
                            cs - i,
                        )[t] == name@[t] as u8 by {
                            assert(line.subrange(0, cs - i)[t] == line[t]);
                        }
                        assert(bytes_are(line.subrange(0, cs - i), name@));
                        assert(line_header_value(line, name@) == Some(
                            line.subrange(spec_cs + 2, line.len() as int),
                        ));
                        assert(line.subrange(spec_cs + 2, line.len() as int) =~= buf@.subrange(
                            cs + 2 as int,
                            e2 as int,
                        ));
                    }
                    best = Some((cs + 2, e2));
                    proof {
                        best_v = Some(buf@.subrange(cs + 2 as int, e2 as int));
                    }
                } else {
                    proof {
                        assert(line_header_value(line, name@) is None);
                    }
                }
            } else {
                proof {
                    assert(line.subrange(0, spec_cs).len() != name@.len());
                    assert(line_header_value(line, name@) is None);
                }
            }
        } else {
            proof {
                assert(spec_cs == line.len());
                assert(line_header_value(line, name@) is None);
            }
        }
        if e >= header_end {
            proof {
                assert(bfind_from(head, i as int, 10) >= head.len());
                assert(header_value_from(head, i as int, name@) == line_header_value(
                    bline_at(head, i as int),
                    name@,
                ));
            }
            return best;
        }
        i = e + 1;
    }
}

/// Index of the first occurrence of `b` within `[lo, hi)` of `buf`, against
/// the prefix `buf[..hi]`; `hi` when absent.
pub fn bfind_in(buf: &[u8], lo: usize, hi: usize, b: u8) -> (r: usize)
    requires
        lo <= hi <= buf@.len(),
    ensures
        r == bfind_from(buf@.subrange(0, hi as int), lo as int, b),
        lo <= r <= hi,
{
    let ghost pre = buf@.subrange(0, hi as int);
    proof {
        lemma_bfind_from(pre, lo as int, b);
    }
    let mut k = lo;
    while k < hi
        invariant
            lo <= k <= hi <= buf@.len(),
            pre == buf@.subrange(0, hi as int),
            bfind_from(pre, lo as int, b) == bfind_from(pre, k as int, b),
        decreases hi - k,
    {
        if buf[k] == b {
            return k;
        }
        k += 1;
    }
    k
}

/// A decimal digit byte.
pub open spec fn is_digit_b(b: u8) -> bool {
    48 <= b && b <= 57
}

pub open spec fn all_digits_b(s: Seq<u8>) -> bool {
    forall|j: int| 0 <= j < s.len() ==> is_digit_b(s[j])
}

/// The numeric value of a digit byte string, most significant digit first.
pub open spec fn dec_val_b(s: Seq<u8>) -> int
    decreases s.len(),
{
    if s.len() == 0 {
        0
    } else {
        dec_val_b(s.drop_last()) * 10 + (s.last() - 48)
    }
}

/// A non-empty, all-digit byte string: what a `Content-Length` value must
/// be to frame a body.
pub open spec fn is_dec_bytes(s: Seq<u8>) -> bool {
    s.len() > 0 && all_digits_b(s)
}

proof fn lemma_dec_val_b_bounds(s: Seq<u8>)
    requires
        all_digits_b(s),
    ensures
        0 <= dec_val_b(s),
    decreases s.len(),
{
    if s.len() > 0 {
        assert(all_digits_b(s.drop_last()));
        lemma_dec_val_b_bounds(s.drop_last());
        assert(dec_val_b(s.drop_last()) * 10 >= 0) by (nonlinear_arith)
            requires dec_val_b(s.drop_last()) >= 0;
    }
}

proof fn lemma_dec_val_b_prefix(s: Seq<u8>, k: int)
    requires
        all_digits_b(s),
        0 <= k <= s.len(),
    ensures
        dec_val_b(s.subrange(0, k)) <= dec_val_b(s),
    decreases s.len() - k,
{
    if k < s.len() {
        lemma_dec_val_b_prefix(s, k + 1);
        let a = s.subrange(0, k);
        let b = s.subrange(0, k + 1);
        assert(b.drop_last() =~= a);
        assert(all_digits_b(a));
        lemma_dec_val_b_bounds(a);
        assert(dec_val_b(b) == dec_val_b(a) * 10 + (b.last() - 48));
        assert(dec_val_b(a) * 10 >= dec_val_b(a)) by (nonlinear_arith)
            requires dec_val_b(a) >= 0;
    } else {
        assert(s.subrange(0, k) =~= s);
    }
}

/// Parses the byte segment `[lo, hi)` as an unsigned decimal number; the
/// value comes back exactly when the segment is a non-empty digit string
/// that fits in `u64`.
pub fn parse_dec_bytes(buf: &[u8], lo: usize, hi: usize) -> (r: Option<u64>)
    requires
        lo <= hi <= buf@.len(),
    ensures
        ({
            let seg = buf@.subrange(lo as int, hi as int);
            match r {
                Some(v) => is_dec_bytes(seg) && v == dec_val_b(seg) && dec_val_b(seg) <= u64::MAX,
                None => !(is_dec_bytes(seg) && dec_val_b(seg) <= u64::MAX),
            }
        }),
{
    let ghost seg = buf@.subrange(lo as int, hi as int);
    if lo == hi {
        return None;
    }
    let mut acc: u64 = 0;
    let mut i = lo;
    while i < hi
        invariant
            lo <= i <= hi <= buf@.len(),
            lo < hi,
            seg == buf@.subrange(lo as int, hi as int),
            all_digits_b(seg.subrange(0, i - lo)),
            acc == dec_val_b(seg.subrange(0, i - lo)),
        decreases hi - i,
    {
        let c = buf[i];
        if c < 48 || c > 57 {
            proof {
                assert(seg[i - lo] == c);
            }
            return None;
        }
        let d: u64 = (c - 48) as u64;
        proof {
            assert(seg.subrange(0, i + 1 - lo).drop_last() =~= seg.subrange(0, i - lo));
            assert(seg.subrange(0, i + 1 - lo).last() == c);
        }
        if acc > u64::MAX / 10 || (acc == u64::MAX / 10 && d > u64::MAX % 10) {
            proof {
                let b = seg.subrange(0, i + 1 - lo);
                assert(dec_val_b(b) == acc * 10 + d);
                assert(acc * 10 + d > u64::MAX) by (nonlinear_arith)
                    requires
                        acc > u64::MAX / 10 || (acc == u64::MAX / 10 && d > u64::MAX % 10),
                        0 <= d <= 9,
                        acc >= 0,
                ;
                if all_digits_b(seg) {
                    lemma_dec_val_b_prefix(seg, i + 1 - lo);
                }
            }
            return None;
        }
        proof {
            assert(acc * 10 + d <= u64::MAX) by (nonlinear_arith)
                requires
                    acc <= u64::MAX / 10,
                    acc == u64::MAX / 10 ==> d <= u64::MAX % 10,
                    0 <= d <= 9,
                    acc >= 0,
            ;
        }
        acc = acc * 10 + d;
        i += 1;
    }
    proof {
        assert(seg.subrange(0, (hi - lo) as int) =~= seg);
    }
    Some(acc)
}

/// Whether the byte segment `[lo, hi)` spells `name`,
/// ASCII-case-insensitively.
pub fn segment_is_ci(buf: &[u8], lo: usize, hi: usize, name: &str) -> (r: bool)
    requires
        lo <= hi <= buf@.len(),
    ensures
        r == bytes_are_ci(buf@.subrange(lo as int, hi as int), name@),
{
    let ghost seg = buf@.subrange(lo as int, hi as int);
    let nlen = name.unicode_len();
    if hi - lo != nlen {
        return false;
    }
    let mut k: usize = 0;
    while k < nlen
        invariant
            0 <= k <= nlen,
            nlen == name@.len(),
            lo <= hi <= buf@.len(),
            hi - lo == nlen,
            seg == buf@.subrange(lo as int, hi as int),
            forall|t: int| 0 <= t < k ==> lower_b(seg[t]) == lower_char(name@[t]) as u8,
        decreases nlen - k,
    {
        let b = buf[lo + k];
        let lb: u8 = if 65 <= b && b <= 90 {
            b + 32
        } else {
            b
        };
        let c = crate::text::to_lower_char(name.get_char(k));
        proof {
            assert(seg[k as int] == buf@[lo + k]);
            assert(lb == lower_b(seg[k as int]));
        }
        if lb != c as u8 {
            proof {
                assert(lower_b(seg[k as int]) != lower_char(name@[k as int]) as u8);
            }
            return false;
        }
        k += 1;
    }
    true
}

/// How an agent's response body is framed, read off its parsed head.
#[derive(Debug, PartialEq, Eq)]
pub enum ResponseFraming {
    /// `Content-Length` named this many body bytes.
    ContentLength(usize),
    /// `Transfer-Encoding: chunked`: the body runs to the chunked terminator.
    Chunked,
    /// Neither header: the body is empty and the response ends with its head.
    HeaderOnly,
    /// `Content-Length` present but not a usable number: the exchange fails.
    BadContentLength,
}

/// The framing the head dictates: a usable `Content-Length` fixes the byte
/// count; a bad one is an error; with none, `Transfer-Encoding: chunked`
/// selects chunked reading; and with neither header the body is empty.
pub open spec fn spec_response_framing(head: Seq<u8>) -> ResponseFraming {
    let start = bfind_from(head, 0, 10) + 1;
    if start > head.len() {
        ResponseFraming::HeaderOnly
    } else {
        match header_value_from(head, start, "Content-Length"@) {
            Some(v) => if is_dec_bytes(v) && dec_val_b(v) <= usize::MAX {
                ResponseFraming::ContentLength(dec_val_b(v) as usize)
            } else {
                ResponseFraming::BadContentLength
            },
            None => match header_value_from(head, start, "Transfer-Encoding"@) {
                Some(v) => if bytes_are_ci(v, "chunked"@) {
                    ResponseFraming::Chunked
                } else {
                    ResponseFraming::HeaderOnly
                },
                None => ResponseFraming::HeaderOnly,
            },
        }
    }
}

/// Decides the framing of the response whose head fills `buf[..header_end]`.
pub fn plan_response_framing(buf: &[u8], header_end: usize) -> (r: ResponseFraming)
    requires
        header_end <= buf@.len(),
    ensures
        r == spec_response_framing(buf@.subrange(0, header_end as int)),
{
    match find_response_header(buf, header_end, "Content-Length") {
        Some((a, b)) => {
            match parse_dec_bytes(buf, a, b) {
                Some(v) => {
                    if v <= usize::MAX as u64 {
                        ResponseFraming::ContentLength(v as usize)
                    } else {
                        ResponseFraming::BadContentLength
                    }
                },
                None => ResponseFraming::BadContentLength,
            }
        },
        None => {
            match find_response_header(buf, header_end, "Transfer-Encoding") {
                Some((a, b)) => {
                    if segment_is_ci(buf, a, b, "chunked") {
                        ResponseFraming::Chunked
                    } else {
                        ResponseFraming::HeaderOnly
                    }
                },
                None => ResponseFraming::HeaderOnly,
            }
        },
    }
}

/// How many body bytes are still owed once the head and `already` body
/// bytes have arrived; over-reads past the declared length clamp to zero.
pub fn remaining_body_len(content_length: usize, already: usize) -> (r: usize)
    ensures
        r == if content_length > already {
            content_length - already
        } else {
            0
        },
{
    if content_length > already {
        content_length - already
    } else {
        0
    }
}

/// Whether a `Content-Length`-framed response is still missing body bytes.
pub fn body_incomplete(buffer_len: usize, header_end: usize, n: usize) -> (r: bool)
    requires
        header_end <= buffer_len,
    ensures
        r == (buffer_len < header_end + n),
{
    buffer_len - header_end < n
}

/// Where a `Content-Length`-framed response ends in the receive buffer: the
/// head plus the declared body. Reads arrive in whole blocks, so the buffer
/// may run past that point; everything beyond it belongs to the next
/// response and must not be forwarded. A short read (the stream ended
/// early) keeps the buffer as it is, best-effort.
pub fn framed_end(buffer_len: usize, header_end: usize, n: usize) -> (r: usize)
    requires
        header_end <= buffer_len,
    ensures
        r == if header_end + n <= buffer_len {
            header_end + n
        } else {
            buffer_len as int
        },
        header_end <= r <= buffer_len,
{
    if n <= buffer_len - header_end {
        header_end + n
    } else {
        buffer_len
    }
}

} // verus!
