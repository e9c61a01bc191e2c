//! Character-level utilities shared by the request, response and handshake
//! parsers: ASCII case folding, whitespace trimming, searching, and
//! case-insensitive matching, all specified over `Seq<char>` views.
use vstd::prelude::*;

verus! {

/// ASCII lower-casing of one character: 'A'..'Z' map to 'a'..'z',
/// every other character is unchanged.
pub open spec fn lower_char(c: char) -> char {
    if 65 <= c as u32 && c as u32 <= 90 {
        ((c as u32 + 32) as u8) as char
    } else {
        c
    }
}

/// ASCII whitespace, the characters stripped by header-value trimming.
pub open spec fn is_space_char(c: char) -> bool {
    c == ' ' || c == '\t' || c == '\r' || c == '\n'
}

pub fn to_lower_char(c: char) -> (r: char)
    ensures
        r == lower_char(c),
{
    let u: u32 = c as u32;
    if 65 <= u && u <= 90 {
        ((u + 32) as u8) as char
    } else {
        c
    }
}

pub fn is_space(c: char) -> (r: bool)
    ensures
        r == is_space_char(c),
{
    c == ' ' || c == '\t' || c == '\r' || c == '\n'
}

/// Index of the first occurrence of `c` in `s` at or after `i`,
/// or `s.len()` when there is none.
pub open spec fn find_from(s: Seq<char>, i: int, c: char) -> int
    decreases s.len() - i,
    when 0 <= i <= s.len()
{
    if i >= s.len() {
        i
    } else if s[i] == c {
        i
    } else {
        find_from(s, i + 1, c)
    }
}

pub proof fn lemma_find_from(s: Seq<char>, i: int, c: char)
    requires
        0 <= i <= s.len(),
    ensures
        i <= find_from(s, i, c) <= s.len(),
        find_from(s, i, c) < s.len() ==> s[find_from(s, i, c)] == c,
        forall|j: int| i <= j < find_from(s, i, c) ==> s[j] != c,
    decreases s.len() - i,
{
    if i < s.len() && s[i] != c {
        lemma_find_from(s, i + 1, c);
    }
}

pub fn find_char_from(s: &str, i: usize, c: char) -> (r: usize)
    requires
        i <= s@.len(),
    ensures
        r == find_from(s@, i as int, c),
        i <= r <= s@.len(),
{
    proof {
        lemma_find_from(s@, i as int, c);
    }
    let n = s.unicode_len();
    let mut k = i;
    while k < n
        invariant
            i <= k <= n,
            n == s@.len(),
            find_from(s@, i as int, c) == find_from(s@, k as int, c),
        decreases n - k,
    {
        if s.get_char(k) == c {
            return k;
        }
        k += 1;
    }
    k
}

/// Index of the first occurrence of `c` within the segment `[lo, hi)` of
/// `s`, expressed against the segment's own origin; `hi` when absent.
pub fn find_char_in(s: &str, lo: usize, hi: usize, c: char) -> (r: usize)
    requires
        lo <= hi <= s@.len(),
    ensures
        r == lo + find_from(s@.subrange(lo as int, hi as int), 0, c),
        lo <= r <= hi,
        r < hi ==> s@.subrange(lo as int, hi as int)[r - lo] == c,
{
    let ghost seg = s@.subrange(lo as int, hi as int);
    proof {
        lemma_find_from(seg, 0, c);
    }
    let mut k = lo;
    while k < hi
        invariant
            lo <= k <= hi <= s@.len(),
            seg == s@.subrange(lo as int, hi as int),
            find_from(seg, 0, c) == find_from(seg, k - lo, c),
        decreases hi - k,
    {
        if s.get_char(k) == c {
            return k;
        }
        k += 1;
    }
    k
}

/// The segment with leading ASCII whitespace removed.
pub open spec fn drop_leading_spaces(s: Seq<char>) -> Seq<char>
    decreases s.len(),
{
    if s.len() > 0 && is_space_char(s[0]) {
        drop_leading_spaces(s.drop_first())
    } else {
        s
    }
}

/// The segment with trailing ASCII whitespace removed.
pub open spec fn drop_trailing_spaces(s: Seq<char>) -> Seq<char>
    decreases s.len(),
{
    if s.len() > 0 && is_space_char(s.last()) {
        drop_trailing_spaces(s.drop_last())
    } else {
        s
    }
}

/// The segment with ASCII whitespace removed from both ends.
pub open spec fn trim_spaces(s: Seq<char>) -> Seq<char> {
    drop_trailing_spaces(drop_leading_spaces(s))
}

/// Narrows `[lo, hi)` within `s` to the bounds of its whitespace-trimmed core.
pub fn trim_bounds(s: &str, lo: usize, hi: usize) -> (r: (usize, usize))
    requires
        lo <= hi <= s@.len(),
    ensures
        lo <= r.0 <= r.1 <= hi,
        s@.subrange(r.0 as int, r.1 as int) == trim_spaces(s@.subrange(lo as int, hi as int)),
{
    let ghost orig = s@.subrange(lo as int, hi as int);
    let mut a = lo;
    let mut b = hi;
    while a < b && is_space(s.get_char(a))
        invariant
            lo <= a <= b <= s@.len(),
            b == hi,
            drop_leading_spaces(orig) == drop_leading_spaces(s@.subrange(a as int, b as int)),
        decreases b - a,
    {
        proof {
            assert(s@.subrange(a as int, b as int).drop_first() =~= s@.subrange(
                a + 1 as int,
                b as int,
            ));
        }
        a += 1;
    }
    proof {
        assert(drop_leading_spaces(orig) == s@.subrange(a as int, b as int));
    }
    while a < b && is_space(s.get_char(b - 1))
        invariant
            lo <= a <= b <= hi <= s@.len(),
            drop_trailing_spaces(drop_leading_spaces(orig)) == drop_trailing_spaces(
                s@.subrange(a as int, b as int),
            ),
        decreases b - a,
    {
        proof {
            assert(s@.subrange(a as int, b as int).drop_last() =~= s@.subrange(
                a as int,
                b - 1 as int,
            ));
        }
        b -= 1;
    }
    proof {
        assert(drop_trailing_spaces(drop_leading_spaces(orig)) == s@.subrange(a as int, b as int));
    }
    (a, b)
}

/// `p` matches, ASCII-case-insensitively, the front of the segment `seg`.
pub open spec fn starts_with_ci(seg: Seq<char>, p: Seq<char>) -> bool {
    p.len() <= seg.len() && forall|j: int|
        0 <= j < p.len() ==> lower_char(seg[j]) == lower_char(p[j])
}

/// Whether the prefix `p` matches, ASCII-case-insensitively, the front of
/// the segment `[lo, hi)` of `s`.
pub fn segment_starts_with_ci(s: &str, lo: usize, hi: usize, p: &str) -> (r: bool)
    requires
        lo <= hi <= s@.len(),
    ensures
        r == starts_with_ci(s@.subrange(lo as int, hi as int), p@),
{
    let ghost seg = s@.subrange(lo as int, hi as int);
    let plen = p.unicode_len();
    if plen > hi - lo {
        return false;
    }
    let mut j: usize = 0;
    while j < plen
        invariant
            0 <= j <= plen,
            plen == p@.len(),
            lo <= hi <= s@.len(),
            plen <= hi - lo,
            seg == s@.subrange(lo as int, hi as int),
            forall|k: int| 0 <= k < j ==> lower_char(seg[k]) == lower_char(p@[k]),
        decreases plen - j,
    {
        if to_lower_char(s.get_char(lo + j)) != to_lower_char(p.get_char(j)) {
            return false;
        }
        j += 1;
    }
    true
}

/// `p` occurs, ASCII-case-insensitively, somewhere in `s`.
pub open spec fn contains_ci(s: Seq<char>, p: Seq<char>) -> bool {
    exists|i: int| 0 <= i && i + p.len() <= s.len() && starts_with_ci(s.subrange(i, s.len() as int), p)
}

/// Whether `p` occurs, ASCII-case-insensitively, anywhere in `s`.
pub fn str_contains_ci(s: &str, p: &str) -> (r: bool)
    ensures
        r == contains_ci(s@, p@),
{
    let n = s.unicode_len();
    let plen = p.unicode_len();
    if plen > n {
        assert(!contains_ci(s@, p@));
        return false;
    }
    let mut i: usize = 0;
    while i <= n - plen
        invariant
            0 <= i <= n - plen + 1,
            plen <= n,
            n == s@.len(),
            plen == p@.len(),
            forall|k: int|
                0 <= k < i ==> !starts_with_ci(s@.subrange(k, s@.len() as int), p@),
        decreases n - i,
    {
        if segment_starts_with_ci(s, i, n, p) {
            proof {
                assert(contains_ci(s@, p@));
            }
            return true;
        }
        i += 1;
    }
    proof {
        assert forall|k: int| 0 <= k && k + p@.len() <= s@.len() implies !starts_with_ci(
            s@.subrange(k, s@.len() as int),
            p@,
        ) by {
            assert(k < i);
        }
    }
    false
}

/// Equality of two string slices, decided character by character.
pub fn str_eq(a: &str, b: &str) -> (r: bool)
    ensures
        r == (a@ == b@),
{
    let n = a.unicode_len();
    if n != b.unicode_len() {
        return false;
    }
    let mut i: usize = 0;
    while i < n
        invariant
            0 <= i <= n,
            n == a@.len(),
            n == b@.len(),
            forall|k: int| 0 <= k < i ==> a@[k] == b@[k],
        decreases n - i,
    {
        if a.get_char(i) != b.get_char(i) {
            return false;
        }
        i += 1;
    }
    proof {
        assert(a@ =~= b@);
    }
    true
}

} // verus!
