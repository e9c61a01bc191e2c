//! The agent handshake's version gate: parsing `MAJOR.MINOR.PATCH` numerals
//! and comparing them as tuples.
use vstd::prelude::*;

use crate::digits::{dec_val, is_dec_string, parse_dec_segment};
use crate::text::{find_char_from, find_from, lemma_find_from};

verus! {

/// One version component: a segment that is a non-empty decimal numeral
/// whose value fits in `u32`.
pub open spec fn version_part(s: Seq<char>) -> Option<int> {
    if is_dec_string(s) && dec_val(s) <= u32::MAX {
        Some(dec_val(s))
    } else {
        None
    }
}

/// The parse of a version string: exactly three dot-separated components,
/// each a `u32` numeral.
pub open spec fn spec_parse_version(s: Seq<char>) -> Option<(int, int, int)> {
    let d1 = find_from(s, 0, '.');
    if d1 < s.len() {
        let d2 = find_from(s, d1 + 1, '.');
        if d2 < s.len() && find_from(s, d2 + 1, '.') == s.len() {
            let p1 = version_part(s.subrange(0, d1));
            let p2 = version_part(s.subrange(d1 + 1, d2));
            let p3 = version_part(s.subrange(d2 + 1, s.len() as int));
            match (p1, p2, p3) {
                (Some(a), Some(b), Some(c)) => Some((a, b, c)),
                _ => None,
            }
        } else {
            None
        }
    } else {
        None
    }
}

/// Tuple order on versions: major first, then minor, then patch.
pub open spec fn version_geq(a: (int, int, int), b: (int, int, int)) -> bool {
    a.0 > b.0 || (a.0 == b.0 && (a.1 > b.1 || (a.1 == b.1 && a.2 >= b.2)))
}

/// The version gate: both strings parse and the first is at least the second.
pub open spec fn spec_version_allowed(first: Seq<char>, minimum: Seq<char>) -> bool {
    match (spec_parse_version(first), spec_parse_version(minimum)) {
        (Some(a), Some(b)) => version_geq(a, b),
        _ => false,
    }
}

/// Parses `MAJOR.MINOR.PATCH`; any other shape, a non-numeric component,
/// or a component over `u32::MAX` yields nothing.
pub fn parse_version(version_str: &str) -> (r: Option<(u32, u32, u32)>)
    ensures
        match r {
            Some(v) => spec_parse_version(version_str@) == Some(
                (v.0 as int, v.1 as int, v.2 as int),
            ),
            None => spec_parse_version(version_str@) is None,
        },
{
    let n = version_str.unicode_len();
    proof {
        lemma_find_from(version_str@, 0, '.');
    }
    let d1 = find_char_from(version_str, 0, '.');
    if d1 >= n {
        return None;
    }
    proof {
        lemma_find_from(version_str@, d1 + 1 as int, '.');
    }
    let d2 = find_char_from(version_str, d1 + 1, '.');
    if d2 >= n {
        return None;
    }
    proof {
        lemma_find_from(version_str@, d2 + 1 as int, '.');
    }
    let d3 = find_char_from(version_str, d2 + 1, '.');
    if d3 < n {
        return None;
    }
    let p1 = parse_dec_segment(version_str, 0, d1);
    let p2 = parse_dec_segment(version_str, d1 + 1, d2);
    let p3 = parse_dec_segment(version_str, d2 + 1, n);
    match (p1, p2, p3) {
        (Some(a), Some(b), Some(c)) => {
            if a <= u32::MAX as u64 && b <= u32::MAX as u64 && c <= u32::MAX as u64 {
                Some((a as u32, b as u32, c as u32))
            } else {
                None
            }
        },
        _ => None,
    }
}

/// Whether the version `first_access` announces is at least
/// `current_version`, the configured minimum. False when either side does
/// not parse.
pub fn check_available_version(first_access: &str, current_version: &str) -> (r: bool)
    ensures
        r == spec_version_allowed(first_access@, current_version@),
{
    let first_parsed = match parse_version(first_access) {
        Some(v) => v,
        None => {
            return false;
        },
    };
    let current_parsed = match parse_version(current_version) {
        Some(v) => v,
        None => {
            return false;
        },
    };
    first_parsed.0 > current_parsed.0 || (first_parsed.0 == current_parsed.0 && (first_parsed.1
        > current_parsed.1 || (first_parsed.1 == current_parsed.1 && first_parsed.2
        >= current_parsed.2)))
}

} // verus!
