use poseidon_rounds::round_numbers::{
    calc_round_numbers, find_round_numbers, n_sboxes, round_numbers_are_secure,
    RoundNumbersError, MAX_WIDTH, PRIME_BITLEN,
};

// The security inequalities evaluated in single-precision floating point, as the Poseidon
// paper's parameter script evaluates them.
fn float_secure(rf: usize, rp: usize, t: usize) -> bool {
    let (rp, t, n, m) = (rp as f32, t as f32, PRIME_BITLEN as f32, 128.0f32);
    let rf_stat = if m <= (n - 3.0) * (t + 1.0) { 6.0 } else { 10.0 };
    let rf_interp = 0.43 * m + t.log2() - rp;
    let rf_grob_1 = 0.21 * n - rp;
    let rf_grob_2 = (0.14 * n - 1.0 - rp) / (t - 1.0);
    let rf_max = [rf_stat, rf_interp, rf_grob_1, rf_grob_2]
        .iter()
        .map(|rf| rf.ceil() as usize)
        .max()
        .unwrap();
    rf >= rf_max
}

// The search with floating-point bounds and margin.
fn float_round_numbers(t: usize, security_margin: bool) -> (usize, usize) {
    let mut rf = 0;
    let mut rp = 0;
    let mut n_sboxes_min = usize::MAX;
    for mut rf_test in (2..=1000).step_by(2) {
        for mut rp_test in 4..200 {
            if float_secure(rf_test, rp_test, t) {
                if security_margin {
                    rf_test += 2;
                    rp_test = (1.075 * rp_test as f32).ceil() as usize;
                }
                let n = t * rf_test + rp_test;
                if n < n_sboxes_min || (n == n_sboxes_min && rf_test < rf) {
                    rf = rf_test;
                    rp = rp_test;
                    n_sboxes_min = n;
                }
            }
        }
    }
    (rf, rp)
}

#[test]
fn test_round_numbers_against_python_script() {
    for t in 2..=40usize {
        let (rf, rp) = calc_round_numbers(t, true);
        let (rf_ref, rp_ref) = float_round_numbers(t, true);
        let sbox_cost = n_sboxes(rf, rp, t);
        let size_cost = sbox_cost * PRIME_BITLEN as usize;
        assert_eq!(rf, rf_ref, "full rounds differ from script");
        assert_eq!(rp, rp_ref, "partial rounds differ from script");
        assert_eq!(sbox_cost, t * rf_ref + rp_ref, "cost differs from script");
        assert_eq!(size_cost, (t * rf_ref + rp_ref) * 256, "size-cost differs from script");
    }
}

#[test]
fn search_without_margin_matches_float_bounds() {
    for t in 2..=40usize {
        assert_eq!(calc_round_numbers(t, false), float_round_numbers(t, false));
    }
}

#[test]
fn security_predicate_matches_float_bounds() {
    for t in [2usize, 3, 4, 5, 7, 8, 9, 12, 16, 17, 24, 31, 32, 33, 63, 64, 65] {
        for rf in [4usize, 6, 8, 10] {
            for rp in 20..=70usize {
                assert_eq!(round_numbers_are_secure(rf, rp, t), float_secure(rf, rp, t));
            }
        }
    }
}

#[test]
fn width_two_with_margin() {
    let (rf, rp) = calc_round_numbers(2, true);
    assert_eq!((rf, rp), (8, 55));
    assert_eq!(n_sboxes(rf, rp, 2), 71);
    assert_eq!(n_sboxes(rf, rp, 2) * PRIME_BITLEN as usize, 18176);
}

#[test]
fn width_three_with_margin() {
    assert_eq!(calc_round_numbers(3, true), (8, 55));
    assert_eq!(find_round_numbers(3, true), Ok((8, 55)));
}

#[test]
fn width_two_without_margin() {
    assert_eq!(calc_round_numbers(2, false), (6, 51));
    assert_eq!(n_sboxes(6, 51, 2), 63);
}

#[test]
fn repeated_calls_agree() {
    for t in [2usize, 5, 12] {
        for margin in [false, true] {
            assert_eq!(calc_round_numbers(t, margin), calc_round_numbers(t, margin));
        }
    }
}

#[test]
fn returned_pair_is_secure() {
    for t in 2..=20usize {
        let (rf, rp) = calc_round_numbers(t, false);
        assert!(round_numbers_are_secure(rf, rp, t));
        let (rf, rp) = calc_round_numbers(t, true);
        assert!(round_numbers_are_secure(rf, rp, t));
        assert!(round_numbers_are_secure(rf - 2, (rp * 40) / 43, t));
    }
}

#[test]
fn no_cheaper_secure_pair() {
    for t in [2usize, 3] {
        let (rf, rp) = calc_round_numbers(t, false);
        let best = n_sboxes(rf, rp, t);
        for rf_test in 0..=16usize {
            for rp_test in 30..=230usize {
                if round_numbers_are_secure(rf_test, rp_test, t) {
                    assert!(n_sboxes(rf_test, rp_test, t) >= best);
                }
            }
        }
    }
}

#[test]
fn margin_never_lowers_full_rounds() {
    for t in 2..=40usize {
        let (rf_plain, rp_plain) = calc_round_numbers(t, false);
        let (rf_margin, rp_margin) = calc_round_numbers(t, true);
        assert!(rf_margin >= rf_plain);
        assert!(rp_margin >= rp_plain);
    }
}

#[test]
fn wider_state_never_lowers_full_rounds() {
    for margin in [false, true] {
        let mut previous = 0usize;
        for t in 2..=40usize {
            let (rf, _) = calc_round_numbers(t, margin);
            assert!(rf >= previous);
            previous = rf;
        }
    }
}

#[test]
fn width_one_is_rejected() {
    assert_eq!(find_round_numbers(1, true), Err(RoundNumbersError::WidthTooSmall));
    assert_eq!(find_round_numbers(1, false), Err(RoundNumbersError::WidthTooSmall));
    assert_eq!(find_round_numbers(0, false), Err(RoundNumbersError::WidthTooSmall));
    assert!(find_round_numbers(2, false).is_ok());
}

#[test]
fn width_above_limit_is_rejected() {
    assert_eq!(
        find_round_numbers(MAX_WIDTH + 1, true),
        Err(RoundNumbersError::WidthTooLarge)
    );
}

#[test]
fn largest_width_is_searched() {
    let (rf, rp) = calc_round_numbers(MAX_WIDTH, false);
    assert_eq!(rf, 6);
    assert!(round_numbers_are_secure(rf, rp, MAX_WIDTH));
    assert!(!round_numbers_are_secure(rf, rp - 1, MAX_WIDTH));
}

#[test]
fn width_past_four_million_is_searched() {
    // log2(2^22) = 22, so 55.04 + 22 needs 78 rounds in all.
    let t = 1usize << 22;
    assert_eq!(find_round_numbers(t, false), Ok((6, 72)));
    assert_eq!(find_round_numbers(t, true), Ok((8, 78)));
}

#[test]
fn largest_width_security() {
    // 55.04 + log2(2^64 - 1) is just below 119.04, so 120 rounds in all are needed.
    assert!(round_numbers_are_secure(6, 114, usize::MAX));
    assert!(!round_numbers_are_secure(6, 113, usize::MAX));
    assert!(!round_numbers_are_secure(5, 500, usize::MAX));
    assert!(round_numbers_are_secure(usize::MAX, usize::MAX, usize::MAX));
    assert!(round_numbers_are_secure(usize::MAX, 0, 2));
}

#[test]
fn statistical_bound_needs_six_full_rounds() {
    assert!(!round_numbers_are_secure(4, 150, 5));
    assert!(round_numbers_are_secure(6, 150, 5));
}

#[test]
fn interpolation_bound_exact_values() {
    // ceil(55.04 + log2(2)) = 57 rounds in all.
    assert!(round_numbers_are_secure(6, 51, 2));
    assert!(!round_numbers_are_secure(6, 50, 2));
    // ceil(55.04 + log2(16)) = 60 rounds in all.
    assert!(round_numbers_are_secure(6, 54, 16));
    assert!(!round_numbers_are_secure(6, 53, 16));
}

#[test]
fn sbox_count_formula() {
    assert_eq!(n_sboxes(8, 57, 3), 81);
    assert_eq!(n_sboxes(0, 0, 9), 0);
}
