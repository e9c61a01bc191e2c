//! Generated names: ticket ids for in-flight requests, and random subdomain
//! names for agents that did not request one.
use vstd::prelude::*;

use crate::digits::{dec_digits, digit_char, digit_str, render_u64};

verus! {

/// Relies on rand's `Rng::random_range` over `lo..hi` with a thread-local
/// generator: a uniformly sampled value in `[lo, hi)`. It panics only on an
/// empty range, which the precondition rules out.
#[verifier::external_body]
fn random_in(lo: u32, hi: u32) -> (r: u32)
    requires
        lo < hi,
    ensures
        lo <= r < hi,
{
    let mut rng = rand::rng();
    rand::Rng::random_range(&mut rng, lo..hi)
}

/// Powers of ten, for counting digits.
pub open spec fn pow10(k: int) -> int
    decreases k,
{
    if k <= 0 {
        1
    } else {
        10 * pow10(k - 1)
    }
}

/// A number in [pow10(d-1), pow10(d)) renders as exactly `d` digits.
pub proof fn lemma_dec_digits_len(n: int, d: int)
    requires
        1 <= d,
        pow10(d - 1) <= n < pow10(d),
    ensures
        dec_digits(n).len() == d,
    decreases d,
{
    if d == 1 {
        assert(pow10(0) == 1);
        assert(pow10(1) == 10);
    } else {
        assert(pow10(d - 1) == 10 * pow10(d - 2));
        assert(pow10(d - 2) >= 1) by {
            lemma_pow10_pos(d - 2);
        }
        assert(n >= 10);
        assert(n / 10 >= pow10(d - 2) && n / 10 < pow10(d - 1)) by (nonlinear_arith)
            requires
                10 * pow10(d - 2) <= n < 10 * pow10(d - 1),
                pow10(d - 2) >= 1,
        ;
        lemma_dec_digits_len(n / 10, d - 1);
        assert(dec_digits(n) == dec_digits(n / 10).push(digit_char(n % 10)));
    }
}

pub proof fn lemma_pow10_pos(k: int)
    ensures
        pow10(k) >= 1,
    decreases (if k >= 0 {
        k
    } else {
        0
    }),
{
    if k > 0 {
        lemma_pow10_pos(k - 1);
    }
}

/// The shape of a ticket id: "tx-" followed by the decimal rendering of an
/// eight-digit number.
pub open spec fn is_ticket_id(s: Seq<char>, n: int) -> bool {
    10000000 <= n < 100000000 && s == "tx-"@ + dec_digits(n)
}

/// Makes a fresh ticket id: "tx-" and a random eight-digit number. Ids are
/// unique across live tickets with overwhelming probability; the pending
/// table replaces an entry on the rare collision.
pub fn generate_trx_id() -> (r: String)
    ensures
        exists|n: int| is_ticket_id(r@, n),
        r@.len() == 11,
{
    let n = random_in(10000000, 100000000);
    let mut s = String::from_str("tx-");
    let digits = render_u64(n as u64);
    s.append(digits.as_str());
    proof {
        reveal_strlit("tx-");
        assert(pow10(0) == 1);
        assert(pow10(1) == 10);
        assert(pow10(2) == 100);
        assert(pow10(3) == 1000);
        assert(pow10(4) == 10000);
        assert(pow10(5) == 100000);
        assert(pow10(6) == 1000000);
        assert(pow10(7) == 10000000);
        assert(pow10(8) == 100000000);
        lemma_dec_digits_len(n as int, 8);
        assert(is_ticket_id(s@, n as int));
    }
    s
}

/// The four-digit zero-padded rendering used in random subdomain names.
pub open spec fn dec4(n: int) -> Seq<char> {
    seq![
        digit_char(n / 1000 % 10),
        digit_char(n / 100 % 10),
        digit_char(n / 10 % 10),
        digit_char(n % 10),
    ]
}

/// The shape of a random subdomain name: "app-" and four decimal digits.
pub open spec fn is_generated_name(s: Seq<char>) -> bool {
    exists|n: int| 0 <= n < 10000 && s == "app-"@ + #[trigger] dec4(n)
}

/// Makes a random subdomain name of the form "app-NNNN" (four decimal
/// digits, zero-padded).
pub fn generate_name() -> (r: String)
    ensures
        is_generated_name(r@),
        r@.len() == 8,
{
    let n = random_in(0, 10000);
    let mut s = String::from_str("app-");
    s.append(digit_str((n / 1000 % 10) as u64));
    s.append(digit_str((n / 100 % 10) as u64));
    s.append(digit_str((n / 10 % 10) as u64));
    s.append(digit_str((n % 10) as u64));
    proof {
        reveal_strlit("app-");
        assert(s@ =~= "app-"@ + dec4(n as int));
    }
    s
}

} // verus!
