//! The Poseidon security inequalities and the search for the cheapest secure round numbers.
//!
//! The inequalities are evaluated in exact integer arithmetic: every bound of the form
//! `rf >= ceil(x)` is checked as `rf >= x`, with `x` scaled to a whole number, and the
//! interpolation bound's `log2(t)` is compared through powers of two.
use crate::binary::{at_most_pow2, is_binary, power_of, value};
use vstd::arithmetic::power::*;
use vstd::arithmetic::power2::*;
use vstd::prelude::*;

verus! {

/// Bit length `n` of the prime field modulus. BLS12-381's scalar field has a 255-bit modulus;
/// 256 bits are used as the single bit does not change the security estimates.
pub const PRIME_BITLEN: u64 = 256;

/// Target security level `M`, in bits.
pub const M: u64 = 128;

/// Largest full-round count tried by the search (even counts from `FULL_ROUNDS_MIN` on).
pub const FULL_ROUNDS_MAX: usize = 1000;

/// Smallest full-round count tried by the search.
pub const FULL_ROUNDS_MIN: usize = 2;

/// Smallest partial-round count tried by the search.
pub const PARTIAL_ROUNDS_MIN: usize = 4;

/// Partial-round counts tried by the search stay below this.
pub const PARTIAL_ROUNDS_END: usize = 200;

/// Largest width the search accepts: its largest S-box count, `t * 1002 + 214`, must fit in
/// a `usize`.
pub const MAX_WIDTH: usize = (usize::MAX - 214) / 1002;

/// Full rounds that resist statistical attacks: 6 when `M <= (n - 3)(t + 1)`, else 10.
pub open spec fn statistical_rounds(t: int) -> int {
    if M <= (PRIME_BITLEN - 3) * (t + 1) {
        6
    } else {
        10
    }
}

/// `s` rounds in all resist interpolation attacks: `s >= 0.43 M + log2(t)`, that is
/// `2^(100 s - 43 M) >= t^100`.
pub open spec fn interpolation_holds(s: int, t: int) -> bool {
    100 * s >= 43 * M && pow(t, 100) <= pow(2, (100 * s - 43 * M) as nat)
}

/// The four security inequalities: `rf` is at least each of the statistical bound,
/// `0.43 M + log2(t) - rp`, `0.21 n - rp` and `(0.14 n - 1 - rp) / (t - 1)`.
pub open spec fn is_secure(rf: int, rp: int, t: int) -> bool {
    &&& rf >= statistical_rounds(t)
    &&& interpolation_holds(rf + rp, t)
    &&& 100 * (rf + rp) >= 21 * PRIME_BITLEN
    &&& 100 * (t - 1) * rf >= 14 * PRIME_BITLEN - 100 - 100 * rp
}

/// The number of S-boxes of `rf` full and `rp` partial rounds at width `t`.
pub open spec fn cost(rf: int, rp: int, t: int) -> int {
    t * rf + rp
}

/// A pair that the search tries: an even `rf` in `[2, 1000]` and `rp` in `[4, 200)`.
pub open spec fn in_search(rf: int, rp: int) -> bool {
    &&& FULL_ROUNDS_MIN <= rf <= FULL_ROUNDS_MAX
    &&& rf % 2 == 0
    &&& PARTIAL_ROUNDS_MIN <= rp < PARTIAL_ROUNDS_END
}

/// `ceil(1.075 rp)`: the partial rounds with the security margin.
pub open spec fn partial_with_margin(rp: int) -> int {
    (43 * rp + 39) / 40
}

/// The round numbers offered for a secure pair: two more full rounds and 7.5% more partial
/// rounds (rounded up) with the margin, the pair itself without it.
pub open spec fn offered(rf: int, rp: int, margin: bool) -> (int, int) {
    if margin {
        (rf + 2, partial_with_margin(rp))
    } else {
        (rf, rp)
    }
}

/// `a` costs less than `b`, or as much with no more full rounds.
pub open spec fn no_worse(a: (int, int), b: (int, int), t: int) -> bool {
    cost(a.0, a.1, t) < cost(b.0, b.1, t) || (cost(a.0, a.1, t) == cost(b.0, b.1, t) && a.0 <= b.0)
}

/// `r` is offered for a secure pair of the search, and no worse than what any other secure
/// pair of the search offers.
pub open spec fn is_best_choice(t: int, margin: bool, r: (int, int)) -> bool {
    &&& exists|a: int, b: int| in_search(a, b) && is_secure(a, b, t) && #[trigger] offered(a, b, margin) == r
    &&& forall|a: int, b: int|
        in_search(a, b) && is_secure(a, b, t) ==> no_worse(r, #[trigger] offered(a, b, margin), t)
}

/// Every secure pair of the search scanned before `(a_end, b_end)` offers no better round
/// numbers than `r`, and one has been found when any is secure.
pub open spec fn best_so_far(found: bool, r: (int, int), t: int, margin: bool, a_end: int, b_end: int) -> bool {
    forall|a: int, b: int|
        #[trigger] in_search(a, b) && (a < a_end || (a == a_end && b < b_end)) && is_secure(a, b, t)
            ==> found && no_worse(r, offered(a, b, margin), t)
}

proof fn lemma_pow_base_le(a: nat, b: nat, e: nat)
    requires
        a <= b,
    ensures
        0 <= pow(a as int, e) <= pow(b as int, e),
    decreases e,
{
    reveal(pow);
    if e > 0 {
        lemma_pow_base_le(a, b, (e - 1) as nat);
        let x = pow(a as int, (e - 1) as nat);
        let y = pow(b as int, (e - 1) as nat);
        assert(0 <= a * x <= b * y) by (nonlinear_arith)
            requires
                0 <= x <= y,
                a <= b,
        ;
    }
}

/// `t^100 <= 2^6400` for every width that fits in 64 bits.
proof fn lemma_width_power_bound(t: int)
    requires
        2 <= t <= u64::MAX,
    ensures
        pow(t, 100) <= pow(2, 6400),
{
    lemma2_to64_rest();
    lemma_pow2(64);
    lemma_pow_base_le(t as nat, pow(2, 64) as nat, 100);
    lemma_pow_multiplies(2, 64, 100);
}

/// 120 rounds in all resist interpolation attacks at every width that fits in 64 bits.
proof fn lemma_interpolation_at_120(t: int)
    requires
        2 <= t <= u64::MAX,
    ensures
        interpolation_holds(120, t),
{
    lemma_width_power_bound(t);
    lemma_pow_increases(2, 6400, 6496);
}

/// More rounds in all never break the interpolation bound.
proof fn lemma_interpolation_monotone(s1: int, s2: int, t: int)
    requires
        s1 <= s2,
        interpolation_holds(s1, t),
    ensures
        interpolation_holds(s2, t),
{
    lemma_pow_increases(2, (100 * s1 - 43 * M) as nat, (100 * s2 - 43 * M) as nat);
}

/// The least total round count that resists interpolation attacks at width `t`.
fn interpolation_rounds(t: usize) -> (r: usize)
    requires
        2 <= t,
    ensures
        interpolation_holds(r as int, t as int),
        forall|s: int| s < r ==> !interpolation_holds(s, t as int),
        r <= 120,
{
    let p = power_of(t as u64, 100);
    // 100 s >= 43 M first holds at s = 56; at s = 120, 2^(100 s - 43 M) exceeds every t^100.
    let mut s: usize = 56;
    loop
        invariant
            56 <= s <= 120,
            2 <= t <= u64::MAX,
            is_binary(p@),
            value(p@) == pow(t as int, 100),
            forall|k: int| k < s ==> !interpolation_holds(k, t as int),
        decreases 120 - s,
    {
        if at_most_pow2(&p, 100 * s - 43 * (M as usize)) {
            return s;
        }
        proof {
            if s == 120 {
                lemma_interpolation_at_120(t as int);
                assert(false);
            }
            assert forall|k: int| k < s + 1 implies !interpolation_holds(k, t as int) by {
                if k == s {
                    assert(100 * s - 43 * M == 100 * s - 43 * (M as usize));
                }
            }
        }
        s = s + 1;
    }
}

/// The security inequalities, with the least interpolation-safe total already known.
fn is_secure_with(rf: usize, rp: usize, t: usize, interp: usize) -> (r: bool)
    requires
        2 <= t,
        interpolation_holds(interp as int, t as int),
        forall|s: int| s < interp ==> !interpolation_holds(s, t as int),
    ensures
        r == is_secure(rf as int, rp as int, t as int),
{
    let (rf, rp, t) = (rf as u128, rp as u128, t as u128);
    let (n, m) = (PRIME_BITLEN as u128, M as u128);
    let rf_stat: u128 = if m <= (n - 3) * (t + 1) {
        6
    } else {
        10
    };
    let interp_ok = rf + rp >= interp as u128;
    proof {
        if interp_ok {
            lemma_interpolation_monotone(interp as int, (rf + rp) as int, t as int);
        }
    }
    // 100 (t - 1) rf >= 14 n - 100 - 100 rp, checked on (t - 1) rf against the rounded-up quotient.
    let grob_2_ok = if 100 * rp + 100 >= 14 * n {
        true
    } else {
        let need = 14 * n - 100 - 100 * rp;
        assert((t - 1) * rf <= u64::MAX * u64::MAX) by (nonlinear_arith)
            requires
                t - 1 <= u64::MAX,
                rf <= u64::MAX,
        ;
        let x = (t - 1) * rf;
        assert(100 * (t - 1) * rf == 100 * x) by (nonlinear_arith)
            requires
                x == (t - 1) * rf,
        ;
        x >= (need + 99) / 100
    };
    rf >= rf_stat && interp_ok && 100 * (rf + rp) >= 21 * n && grob_2_ok
}

/// Whether `rf` full rounds and `rp` partial rounds are secure at width `t`, by the
/// statistical, interpolation and Groebner-basis inequalities.
pub fn round_numbers_are_secure(rf: usize, rp: usize, t: usize) -> (r: bool)
    requires
        2 <= t,
    ensures
        r == is_secure(rf as int, rp as int, t as int),
{
    let interp = interpolation_rounds(t);
    is_secure_with(rf, rp, t, interp)
}

/// The number of S-boxes, `t * rf + rp`: each full round has `t` of them, each partial round one.
pub fn n_sboxes(rf: usize, rp: usize, t: usize) -> (r: usize)
    requires
        t * rf + rp <= usize::MAX,
    ensures
        r == cost(rf as int, rp as int, t as int),
{
    t * rf + rp
}

/// The last pair of the search, 1000 full and 199 partial rounds, is secure at every width
/// that fits in 64 bits.
proof fn lemma_largest_pair_secure(t: int)
    requires
        2 <= t <= u64::MAX,
    ensures
        is_secure(FULL_ROUNDS_MAX as int, PARTIAL_ROUNDS_END - 1, t),
{
    lemma_width_power_bound(t);
    lemma_pow_increases(2, 6400, 114396);
    assert(100 * (t - 1) * 1000 >= 0) by (nonlinear_arith)
        requires
            t >= 2,
    ;
}

/// The round numbers for width `t`: among the secure pairs of the search, the one whose
/// offered round numbers (with the security margin when asked for) need the fewest S-boxes,
/// and of those the one with the fewest full rounds.
pub fn calc_round_numbers(t: usize, security_margin: bool) -> (r: (usize, usize))
    requires
        2 <= t <= MAX_WIDTH,
    ensures
        is_best_choice(t as int, security_margin, (r.0 as int, r.1 as int)),
{
    let interp = interpolation_rounds(t);
    let mut rf: usize = 0;
    let mut rp: usize = 0;
    let mut n_sboxes_min: usize = 0;
    let mut found: bool = false;
    let ghost mut wa: int = 0;
    let ghost mut wb: int = 0;
    let mut rf_test: usize = FULL_ROUNDS_MIN;
    while rf_test <= FULL_ROUNDS_MAX
        invariant
            2 <= t <= MAX_WIDTH,
            interpolation_holds(interp as int, t as int),
            forall|s: int| s < interp ==> !interpolation_holds(s, t as int),
            FULL_ROUNDS_MIN <= rf_test <= FULL_ROUNDS_MAX + 2,
            rf_test % 2 == 0,
            found ==> in_search(wa, wb) && is_secure(wa, wb, t as int) && offered(
                wa,
                wb,
                security_margin,
            ) == (rf as int, rp as int) && n_sboxes_min == cost(rf as int, rp as int, t as int),
            best_so_far(found, (rf as int, rp as int), t as int, security_margin, rf_test as int, 0),
        decreases FULL_ROUNDS_MAX + 2 - rf_test,
    {
        let mut rp_test: usize = PARTIAL_ROUNDS_MIN;
        assert(best_so_far(found, (rf as int, rp as int), t as int, security_margin, rf_test as int, rp_test as int)) by {
            assert forall|a: int, b: int|
                #[trigger] in_search(a, b) && (a < rf_test || (a == rf_test && b < rp_test)) && is_secure(a, b, t as int)
                implies found && no_worse((rf as int, rp as int), offered(a, b, security_margin), t as int) by {
                assert(a < rf_test);
            }
        }
        while rp_test < PARTIAL_ROUNDS_END
            invariant
                2 <= t <= MAX_WIDTH,
                interpolation_holds(interp as int, t as int),
                forall|s: int| s < interp ==> !interpolation_holds(s, t as int),
                FULL_ROUNDS_MIN <= rf_test <= FULL_ROUNDS_MAX,
                rf_test % 2 == 0,
                PARTIAL_ROUNDS_MIN <= rp_test <= PARTIAL_ROUNDS_END,
                found ==> in_search(wa, wb) && is_secure(wa, wb, t as int) && offered(
                    wa,
                    wb,
                    security_margin,
                ) == (rf as int, rp as int) && n_sboxes_min == cost(rf as int, rp as int, t as int),
                    best_so_far(found, (rf as int, rp as int), t as int, security_margin, rf_test as int, rp_test as int),
            decreases PARTIAL_ROUNDS_END - rp_test,
        {
            let ghost (rf_old, rp_old) = (rf as int, rp as int);
            let ghost found_old = found;
            let secure = is_secure_with(rf_test, rp_test, t, interp);
            if secure {
                let (rf_new, rp_new) = if security_margin {
                    (rf_test + 2, (43 * rp_test + 39) / 40)
                } else {
                    (rf_test, rp_test)
                };
                assert(t * 1002 <= usize::MAX - 214);
                assert(t * rf_new <= t * 1002) by (nonlinear_arith)
                    requires
                        rf_new <= 1002,
                ;
                let n = n_sboxes(rf_new, rp_new, t);
                if !found || n < n_sboxes_min || (n == n_sboxes_min && rf_new < rf) {
                    rf = rf_new;
                    rp = rp_new;
                    n_sboxes_min = n;
                    found = true;
                    proof {
                        wa = rf_test as int;
                        wb = rp_test as int;
                    }
                }
            }
            proof {
                assert(best_so_far(found, (rf as int, rp as int), t as int, security_margin, rf_test as int, rp_test + 1)) by {
                assert forall|a: int, b: int|
                    #[trigger] in_search(a, b) && (a < rf_test || (a == rf_test && b < rp_test + 1))
                        && is_secure(a, b, t as int) implies found && no_worse(
                    (rf as int, rp as int),
                    offered(a, b, security_margin),
                    t as int,
                ) by {
                    if a == rf_test && b == rp_test {
                        assert(secure);
                    } else {
                        assert(found_old && no_worse(
                            (rf_old, rp_old),
                            offered(a, b, security_margin),
                            t as int,
                        ));
                    }
                }
                }
            }
            rp_test = rp_test + 1;
        }
        assert(best_so_far(found, (rf as int, rp as int), t as int, security_margin, rf_test + 2, 0)) by {
            assert forall|a: int, b: int|
                #[trigger] in_search(a, b) && (a < rf_test + 2 || (a == rf_test + 2 && b < 0)) && is_secure(a, b, t as int)
                implies found && no_worse((rf as int, rp as int), offered(a, b, security_margin), t as int) by {
                assert(a < rf_test || (a == rf_test && b < rp_test));
            }
        }
        rf_test = rf_test + 2;
    }
    proof {
        lemma_largest_pair_secure(t as int);
        assert(in_search(FULL_ROUNDS_MAX as int, PARTIAL_ROUNDS_END - 1));
        let _ = offered(FULL_ROUNDS_MAX as int, PARTIAL_ROUNDS_END - 1, security_margin);
        assert(found);
        assert forall|a: int, b: int| in_search(a, b) && is_secure(a, b, t as int) implies no_worse(
            (rf as int, rp as int),
            #[trigger] offered(a, b, security_margin),
            t as int,
        ) by {
            assert(a < rf_test);
        }
        assert(offered(wa, wb, security_margin) == (rf as int, rp as int));
    }
    (rf, rp)
}

/// Why no round numbers are given for a width.
#[derive(Debug, Clone, Copy, PartialEq, Eq)]
pub enum RoundNumbersError {
    /// The width is below 2: the last Groebner-basis bound divides by `t - 1`.
    WidthTooSmall,
    /// The width is above `MAX_WIDTH`.
    WidthTooLarge,
}

/// The round numbers `(R_F, R_P)` for width `t`, or why the width is not accepted.
pub fn find_round_numbers(t: usize, security_margin: bool) -> (r: Result<(usize, usize), RoundNumbersError>)
    ensures
        match r {
            Ok(p) => 2 <= t <= MAX_WIDTH && is_best_choice(t as int, security_margin, (p.0 as int, p.1 as int)),
            Err(e) => (t < 2 && e == RoundNumbersError::WidthTooSmall) || (t > MAX_WIDTH && e
                == RoundNumbersError::WidthTooLarge),
        },
{
    if t < 2 {
        Err(RoundNumbersError::WidthTooSmall)
    } else if t > MAX_WIDTH {
        Err(RoundNumbersError::WidthTooLarge)
    } else {
        Ok(calc_round_numbers(t, security_margin))
    }
}

/// Security is kept when rounds are added.
pub proof fn lemma_secure_monotone(rf: int, rp: int, rf2: int, rp2: int, t: int)
    requires
        t >= 2,
        rf <= rf2,
        rp <= rp2,
        is_secure(rf, rp, t),
    ensures
        is_secure(rf2, rp2, t),
{
    lemma_interpolation_monotone(rf + rp, rf2 + rp2, t);
    assert(100 * (t - 1) * rf <= 100 * (t - 1) * rf2) by (nonlinear_arith)
        requires
            t >= 2,
            rf <= rf2,
    ;
}

/// The round numbers for a width are determined by it and the margin flag: two results
/// that both meet the choice rule are equal.
pub proof fn lemma_best_choice_unique(t: int, margin: bool, r1: (int, int), r2: (int, int))
    requires
        is_best_choice(t, margin, r1),
        is_best_choice(t, margin, r2),
    ensures
        r1 == r2,
{
    let (a1, b1) = choose|a: int, b: int| in_search(a, b) && is_secure(a, b, t) && #[trigger] offered(a, b, margin) == r1;
    let (a2, b2) = choose|a: int, b: int| in_search(a, b) && is_secure(a, b, t) && #[trigger] offered(a, b, margin) == r2;
    assert(no_worse(r1, offered(a2, b2, margin), t));
    assert(no_worse(r2, offered(a1, b1, margin), t));
}

/// The returned round numbers are secure, and so are the pair they were offered for.
pub proof fn lemma_best_choice_secure(t: int, margin: bool, r: (int, int))
    requires
        t >= 2,
        is_best_choice(t, margin, r),
    ensures
        is_secure(r.0, r.1, t),
        exists|a: int, b: int| in_search(a, b) && is_secure(a, b, t) && #[trigger] offered(a, b, margin) == r,
{
    let (a, b) = choose|a: int, b: int| in_search(a, b) && is_secure(a, b, t) && #[trigger] offered(a, b, margin) == r;
    lemma_secure_monotone(a, b, r.0, r.1, t);
}

/// At every width the choice has 6 full rounds, and 8 with the margin.
pub proof fn lemma_full_rounds_of_choice(t: int, margin: bool, r: (int, int))
    requires
        2 <= t <= usize::MAX,
        is_best_choice(t, margin, r),
    ensures
        r.0 == (if margin {
            8int
        } else {
            6int
        }),
{
    let (a, b) = choose|a: int, b: int| in_search(a, b) && is_secure(a, b, t) && #[trigger] offered(a, b, margin) == r;
    assert(statistical_rounds(t) == 6);
    if a > 6 {
        let s = a + b;
        let b2 = if s <= 120 {
            s - 6
        } else {
            114
        };
        if s > 120 {
            lemma_interpolation_at_120(t);
        }
        assert(interpolation_holds(6 + b2, t));
        assert(in_search(6, b2));
        assert(100 * (t - 1) * 6 >= 0) by (nonlinear_arith)
            requires
                t >= 2,
        ;
        assert(is_secure(6, b2, t));
        assert(no_worse(r, offered(6, b2, margin), t));
        assert(t * (a - 6) >= 2 * (a - 6)) by (nonlinear_arith)
            requires
                t >= 2,
                a >= 6,
        ;
        assert(t * a == t * (a - 6) + t * 6) by (nonlinear_arith);
        assert(t * (a + 2) == t * (a - 6) + t * 8) by (nonlinear_arith);
        assert(false);
    }
}

/// The security margin never lowers the number of full rounds.
pub proof fn lemma_margin_keeps_full_rounds(t: int, plain: (int, int), with_margin: (int, int))
    requires
        2 <= t <= usize::MAX,
        is_best_choice(t, false, plain),
        is_best_choice(t, true, with_margin),
    ensures
        with_margin.0 >= plain.0,
{
    lemma_full_rounds_of_choice(t, false, plain);
    lemma_full_rounds_of_choice(t, true, with_margin);
}

/// A wider state never lowers the number of full rounds, with or without the margin.
pub proof fn lemma_full_rounds_width_monotone(t1: int, t2: int, margin: bool, r1: (int, int), r2: (int, int))
    requires
        2 <= t1 <= t2 <= usize::MAX,
        is_best_choice(t1, margin, r1),
        is_best_choice(t2, margin, r2),
    ensures
        r1.0 <= r2.0,
{
    lemma_full_rounds_of_choice(t1, margin, r1);
    lemma_full_rounds_of_choice(t2, margin, r2);
}

/// Without the margin, no secure pair needs fewer S-boxes than the returned one, whether
/// the search scans it or not.
pub proof fn lemma_no_cheaper_secure_pair(t: int, r: (int, int), rf: int, rp: int)
    requires
        2 <= t <= usize::MAX,
        is_best_choice(t, false, r),
        is_secure(rf, rp, t),
    ensures
        cost(r.0, r.1, t) <= cost(rf, rp, t),
{
    lemma_full_rounds_of_choice(t, false, r);
    let s = rf + rp;
    assert(statistical_rounds(t) == 6);
    assert(t * rf == t * (rf - 6) + t * 6) by (nonlinear_arith);
    assert(t * (rf - 6) >= rf - 6) by (nonlinear_arith)
        requires
            t >= 2,
            rf >= 6,
    ;
    if s < 6 + r.1 {
        assert(in_search(6, s - 6));
        assert(100 * (t - 1) * 6 >= 0) by (nonlinear_arith)
            requires
                t >= 2,
        ;
        assert(interpolation_holds(6 + (s - 6), t));
        assert(is_secure(6, s - 6, t));
        assert(no_worse(r, offered(6, s - 6, false), t));
    }
}

} // verus!
