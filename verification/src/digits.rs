//! Decimal numerals: the value of a digit string, the canonical rendering of
//! a number, and the executable parser and renderer proved against them.
use vstd::prelude::*;

verus! {

pub open spec fn is_digit_char(c: char) -> bool {
    48 <= c as u32 && c as u32 <= 57
}

pub open spec fn digit_of(c: char) -> int {
    c as u32 - 48
}

pub open spec fn all_digits(s: Seq<char>) -> bool {
    forall|j: int| 0 <= j < s.len() ==> is_digit_char(s[j])
}

/// The numeric value of a digit string, most significant digit first.
pub open spec fn dec_val(s: Seq<char>) -> int
    decreases s.len(),
{
    if s.len() == 0 {
        0
    } else {
        dec_val(s.drop_last()) * 10 + digit_of(s.last())
    }
}

/// The digit character for `d` in 0..10.
pub open spec fn digit_char(d: int) -> char {
    ((48 + d) as u8) as char
}

/// The canonical decimal rendering of a non-negative number: no leading
/// zeros, except that zero itself renders as "0".
pub open spec fn dec_digits(n: int) -> Seq<char>
    decreases n,
{
    if n < 10 {
        seq![digit_char(n)]
    } else {
        dec_digits(n / 10).push(digit_char(n % 10))
    }
}

/// A whole segment is a digit string iff it is non-empty and all digits;
/// this is what a header value must look like to parse as a length.
pub open spec fn is_dec_string(s: Seq<char>) -> bool {
    s.len() > 0 && all_digits(s)
}

pub fn is_digit(c: char) -> (r: bool)
    ensures
        r == is_digit_char(c),
{
    let u: u32 = c as u32;
    48 <= u && u <= 57
}

proof fn lemma_dec_val_bounds(s: Seq<char>)
    requires
        all_digits(s),
    ensures
        0 <= dec_val(s),
    decreases s.len(),
{
    if s.len() > 0 {
        assert(all_digits(s.drop_last()));
        lemma_dec_val_bounds(s.drop_last());
        assert(dec_val(s.drop_last()) * 10 >= 0) by (nonlinear_arith)
            requires dec_val(s.drop_last()) >= 0;
    }
}

/// Appending digits never shrinks the value: the value of a digit-string
/// prefix is a lower bound for the value of the whole string.
proof fn lemma_dec_val_prefix(s: Seq<char>, k: int)
    requires
        all_digits(s),
        0 <= k <= s.len(),
    ensures
        dec_val(s.subrange(0, k)) <= dec_val(s),
    decreases s.len() - k,
{
    if k < s.len() {
        lemma_dec_val_prefix(s, k + 1);
        let a = s.subrange(0, k);
        let b = s.subrange(0, k + 1);
        assert(b.drop_last() =~= a);
        assert(all_digits(a));
        lemma_dec_val_bounds(a);
        assert(dec_val(b) == dec_val(a) * 10 + digit_of(b.last()));
        assert(dec_val(a) * 10 >= dec_val(a)) by (nonlinear_arith)
            requires dec_val(a) >= 0;
    } else {
        assert(s.subrange(0, k) =~= s);
    }
}

/// Parses the segment `[lo, hi)` of `s` as an unsigned decimal number.
/// Returns the value exactly when the segment is a non-empty digit string
/// whose value fits in `u64`.
pub fn parse_dec_segment(s: &str, lo: usize, hi: usize) -> (r: Option<u64>)
    requires
        lo <= hi <= s@.len(),
    ensures
        ({
            let seg = s@.subrange(lo as int, hi as int);
            match r {
                Some(v) => is_dec_string(seg) && v == dec_val(seg) && dec_val(seg) <= u64::MAX,
                None => !(is_dec_string(seg) && dec_val(seg) <= u64::MAX),
            }
        }),
{
    let ghost seg = s@.subrange(lo as int, hi as int);
    if lo == hi {
        return None;
    }
    let mut acc: u64 = 0;
    let mut i = lo;
    while i < hi
        invariant
            lo <= i <= hi <= s@.len(),
            lo < hi,
            seg == s@.subrange(lo as int, hi as int),
            all_digits(seg.subrange(0, i - lo)),
            acc == dec_val(seg.subrange(0, i - lo)),
        decreases hi - i,
    {
        let c = s.get_char(i);
        if !is_digit(c) {
            proof {
                assert(seg[i - lo] == c);
            }
            return None;
        }
        let d: u64 = (c as u32 - 48) as u64;
        proof {
            assert(seg.subrange(0, i + 1 - lo).drop_last() =~= seg.subrange(0, i - lo));
            assert(seg.subrange(0, i + 1 - lo).last() == c);
        }
        if acc > u64::MAX / 10 || (acc == u64::MAX / 10 && d > u64::MAX % 10) {
            // The prefix up to and including this digit already exceeds
            // u64::MAX, so the whole segment does too.
            proof {
                let b = seg.subrange(0, i + 1 - lo);
                assert(dec_val(b) == acc * 10 + d);
                assert(acc * 10 + d > u64::MAX) by (nonlinear_arith)
                    requires
                        acc > u64::MAX / 10 || (acc == u64::MAX / 10 && d > u64::MAX % 10),
                        0 <= d <= 9,
                        acc >= 0,
                ;
                if all_digits(seg) {
                    lemma_dec_val_prefix(seg, i + 1 - lo);
                }
            }
            return None;
        }
        proof {
            assert(acc * 10 + d <= u64::MAX) by (nonlinear_arith)
                requires
                    acc <= u64::MAX / 10,
                    acc == u64::MAX / 10 ==> d <= u64::MAX % 10,
                    0 <= d <= 9,
                    acc >= 0,
            ;
        }
        acc = acc * 10 + d;
        i += 1;
    }
    proof {
        assert(seg.subrange(0, (hi - lo) as int) =~= seg);
    }
    Some(acc)
}

/// The exec digit-to-string table, one literal per digit.
pub fn digit_str(d: u64) -> (r: &'static str)
    requires
        d < 10,
    ensures
        r@ =~= seq![digit_char(d as int)],
{
    proof {
        reveal_strlit("0");
        reveal_strlit("1");
        reveal_strlit("2");
        reveal_strlit("3");
        reveal_strlit("4");
        reveal_strlit("5");
        reveal_strlit("6");
        reveal_strlit("7");
        reveal_strlit("8");
        reveal_strlit("9");
    }
    match d {
        0 => "0",
        1 => "1",
        2 => "2",
        3 => "3",
        4 => "4",
        5 => "5",
        6 => "6",
        7 => "7",
        8 => "8",
        _ => "9",
    }
}

/// Renders `n` in decimal, canonically.
pub fn render_u64(n: u64) -> (r: String)
    ensures
        r@ == dec_digits(n as int),
    decreases n,
{
    if n < 10 {
        String::from_str(digit_str(n))
    } else {
        let mut s = render_u64(n / 10);
        s.append(digit_str(n % 10));
        proof {
            assert(dec_digits(n as int) =~= dec_digits(n as int / 10) + seq![
                digit_char(n as int % 10),
            ]);
        }
        s
    }
}

/// Rendering is injective: the canonical digits of a number parse back to it.
pub proof fn lemma_dec_digits_round_trip(n: int)
    requires
        n >= 0,
    ensures
        dec_val(dec_digits(n)) == n,
        is_dec_string(dec_digits(n)),
    decreases n,
{
    if n < 10 {
        let s = dec_digits(n);
        assert(s == seq![digit_char(n)]);
        assert(s.drop_last() =~= Seq::<char>::empty());
        assert(dec_val(s.drop_last()) == 0);
        assert(48 + n <= 57);
        assert((48 + n) as u8 == 48 + n);
        assert(digit_char(n) as u32 == 48 + n);
        assert(digit_of(digit_char(n)) == n);
        assert(dec_val(s) == dec_val(s.drop_last()) * 10 + digit_of(s.last()));
    } else {
        lemma_dec_digits_round_trip(n / 10);
        let s = dec_digits(n);
        assert(s.drop_last() =~= dec_digits(n / 10));
        assert(0 <= n % 10 < 10);
        assert(digit_char(n % 10) as u32 == 48 + n % 10);
        assert(dec_val(s) == (n / 10) * 10 + n % 10);
        assert((n / 10) * 10 + n % 10 == n) by (nonlinear_arith)
            requires n >= 0;
        assert forall|j: int| 0 <= j < s.len() implies is_digit_char(s[j]) by {
            if j < s.len() - 1 {
                assert(s[j] == dec_digits(n / 10)[j]);
            }
        }
    }
}

} // verus!
