use open_amm::stableswap::{
    calc_d, calc_dy, calculate_stableswap_lp_minted, get_token_decs_fac, lp_for_growth,
    normalize_decimals, STABLESWAP_AMP_COEFFICIENT,
};
use open_amm::u256::U256;
use open_amm::wide::Wide;

/// Newton's method in floating point, step for step, to hold the exact
/// solver against.
fn float_d(x: u64, y: u64, a: u64) -> u64 {
    let (x, y, a) = (x as f64, y as f64, a as f64);
    let mut d = x + y;
    for _ in 0..8 {
        let d2 = d * d;
        let f = 4.0 * a * (x + y - d) + d - d * d2 / (4.0 * x * y);
        let f_ = 1.0 - 4.0 * a - 3.0 * d2 / (4.0 * x * y);
        d = d - f / f_;
    }
    (0.5 + d) as u64
}

fn float_dy(x: u64, y: u64, a: u64, d: u64, dx: u64) -> Option<u64> {
    if dx >= x {
        return None;
    }
    let y0 = y as f64;
    let x = (x - dx) as f64;
    let a = a as f64;
    let d = d as f64;
    let y_min = (y + 1) as f64;
    let mut y_ = (y + dx) as f64;
    let mut restarted = false;
    let mut last_move = 0.0f64;
    for i in 0..8 {
        if !restarted && i >= 4 {
            break;
        }
        let d3 = d * d * d;
        let f = 4.0 * a * (x + y_ - d) + d - d3 / (4.0 * x * y_);
        let f_ = 4.0 * a + d3 / (4.0 * x * y_ * y_);
        y_ = y_ - f / f_;
        last_move = f / f_;
        if y_ < y_min {
            y_ = y_min;
            restarted = true;
        }
    }
    if last_move.abs() > 1.0 {
        return None;
    }
    Some((0.5 + y_ - y0) as u64)
}

const CASES: [(u64, u64, u64, u64, u64, u64); 16] = [
    (86732778828, 126357776915, 85, 213068245959, 815623034, 817572187),
    (94309704313, 131371236962, 1, 224650314463, 1918102983, 2160771551),
    (195074, 222129, 1, 416910, 6491, 6853),
    (98543167614, 74645867584, 1, 172633279978, 271291276, 247252785),
    (4116, 6089, 500, 10205, 8, 8),
    (71530961427, 85190474011, 5, 156666960259, 2229621089, 2271909871),
    (771394, 689743, 1, 1460375, 5570, 5379),
    (47172090000, 47491857233, 500, 94663946693, 357356203, 357361310),
    (438526335, 595514399, 500, 1034028548, 9698572, 9701865),
    (2150, 2500, 1, 4646, 52, 56),
    (5766, 5688, 1, 11454, 1, 1),
    (319904, 488506, 1, 802396, 7701, 8977),
    (67541499595, 45458019027, 5, 112796604461, 3343678672, 3239117137),
    (461735931, 317279166, 25, 778743405, 508334, 504410),
    (27686639601, 23433638103, 1, 51061066405, 23525720, 22254278),
    (8617, 12038, 5, 20629, 350, 363),
];

#[test]
fn calc_d_exact_values() {
    assert_eq!(calc_d(1_020_000_000, 990_000_000, 5), Some(2_009_979_643));
    assert_eq!(calc_d(1_000_000, 3_000_000, 5), Some(3_941_883));
    assert_eq!(calc_d(123_456_789, 987_654_321, 100), Some(1_106_926_322));
    for (x, y, a, d, _, _) in CASES {
        assert_eq!(calc_d(x, y, a), Some(d));
    }
}

#[test]
fn calc_d_scenario_converges_in_range() {
    let d = calc_d(1_020_000_000, 990_000_000, 5);
    assert!(d.is_some());
    let d = d.unwrap();
    assert!(1 <= d && d <= 2_010_000_000);
}

#[test]
fn calc_d_stays_within_one_percent_of_the_sum_for_balanced_pools() {
    for (x, y) in [
        (1_000_000_000u64, 1_000_000_000u64),
        (1_020_000_000, 990_000_000),
        (900_000, 1_000_000),
        (5_000_000_000_000, 4_700_000_000_000),
    ] {
        let d = calc_d(x, y, STABLESWAP_AMP_COEFFICIENT).unwrap();
        assert!(d <= x + y);
        assert!(100 * (d as u128) >= 99 * ((x + y) as u128));
    }
}

#[test]
fn calc_d_leaves_the_sum_behind_for_a_lopsided_pool() {
    // One unit of base against a billion of quote: far below the sum.
    assert_eq!(calc_d(1, 1_000_000_000, 5), Some(39_028_984));
}

#[test]
fn calc_d_of_equal_reserves_is_their_sum() {
    for a in [0u64, 1, 5, 85, 10_000] {
        assert_eq!(calc_d(1_000_000_000, 1_000_000_000, a), Some(2_000_000_000));
        assert_eq!(calc_d(7, 7, a), Some(14));
    }
}

#[test]
fn calc_d_of_an_empty_side_is_zero() {
    assert_eq!(calc_d(0, 0, 5), Some(0));
    assert_eq!(calc_d(0, 1_000, 5), Some(0));
    assert_eq!(calc_d(1_000, 0, 5), Some(0));
}

#[test]
fn calc_d_on_amounts_beyond_the_narrow_path() {
    assert_eq!(
        calc_d(1_000_000_000_000_000_000, 1_000_000_000_000_012_345, 5),
        Some(2_000_000_000_000_012_345)
    );
    assert_eq!(
        calc_d(3_000_000_000_000_000_000, 5_000_000_000_000_000_000, 5),
        Some(7_975_965_578_229_166_344)
    );
    assert_eq!(calc_d(u64::MAX, 1, 5), Some(719_763_219_458_880_413));
}

#[test]
fn calc_d_fails_where_the_result_does_not_fit() {
    assert_eq!(calc_d(u64::MAX, u64::MAX, 5), None);
}

#[test]
fn calc_dy_exact_values() {
    let d = calc_d(1_000_000_000, 1_000_000_000, 85).unwrap();
    assert_eq!(calc_dy(1_000_000_000, 1_000_000_000, 85, d, 100_000), Some(100_000));
    assert_eq!(calc_dy(1_000_000_000, 1_000_000_000, 85, d, 100_000_000), Some(100_059_098));
    assert_eq!(calc_dy(1_000_000_000, 1_000_000_000, 85, d, 500_000_000), Some(501_950_598));
    for (x, y, a, d, dx, dy) in CASES {
        assert_eq!(calc_dy(x, y, a, d, dx), Some(dy));
    }
}

#[test]
fn calc_dy_on_amounts_beyond_the_narrow_path() {
    assert_eq!(
        calc_dy(
            3_000_000_000_000_000_000,
            5_000_000_000_000_000_000,
            5,
            7_975_965_578_229_166_344,
            1_000_000_000_000_000
        ),
        Some(1_052_015_016_412_379)
    );
}

#[test]
fn calc_dy_refuses_to_drain_a_side() {
    assert_eq!(calc_dy(1_000, 1_000, 5, 2_000, 1_000), None);
    assert_eq!(calc_dy(1_000, 1_000, 5, 2_000, 1_001), None);
    assert_eq!(calc_dy(0, 1_000, 5, 2_000, 0), None);
}

#[test]
fn calc_dy_gives_up_where_four_steps_do_not_settle() {
    assert_eq!(calc_dy(1_000_000_000, 1_000_000_000, 25, 2_000_000_000, 999_900_000), None);
    assert_eq!(calc_dy(1_000_000_000, 1_000_000_000, 500, 2_000_000_000, 999_990_000), None);
}

#[test]
fn the_price_rises_along_the_curve_as_long_as_it_can_be_solved() {
    let init = 1_000_000_000u64;
    for (dx, swaps) in [(init / 10, 9), (init / 100, 99), (init / 1000, 998), (init / 2000, 1998)] {
        let (mut x, mut y) = (init, init);
        let mut last = dx;
        let mut done = 0;
        while x > dx {
            let d = calc_d(x, y, 85).unwrap();
            let dy = match calc_dy(x, y, 85, d, dx) {
                Some(dy) => dy,
                None => break,
            };
            assert!(dy >= last);
            last = dy;
            x -= dx;
            y += dy;
            done += 1;
        }
        assert_eq!(done, swaps);
    }
    // the last unit of a side cannot be priced in four steps
    assert_eq!(calc_dy(2_000_000, 2_979_316_157, 85, 2_000_000_000, 1_000_000), None);
}

#[test]
fn calc_dy_without_curve_or_start_is_zero() {
    assert_eq!(calc_dy(10, 10, 0, 0, 1), Some(0));
    assert_eq!(calc_dy(10, 0, 5, 20, 0), Some(0));
}

#[test]
fn calc_dy_never_prices_at_zero() {
    for (x, y, a, d, dx, _) in CASES {
        for part in [1u64, dx / 3 + 1, dx] {
            if let Some(dy) = calc_dy(x, y, a, d, part) {
                assert!(dy >= 1);
            }
        }
    }
}

#[test]
fn exact_solver_agrees_with_floating_point_newton() {
    for (x, y, a, _, dx, _) in CASES {
        let d = calc_d(x, y, a).unwrap();
        assert_eq!(d, float_d(x, y, a));
        assert_eq!(calc_dy(x, y, a, d, dx), float_dy(x, y, a, d, dx));
    }
}

#[test]
fn swapping_there_and_back_returns_what_was_taken() {
    let (x, y, a) = (1_000_000_000u64, 1_000_000_000u64, 5u64);
    let d = calc_d(x, y, a).unwrap();
    let dx = 10_000_000;
    let dy = calc_dy(x, y, a, d, dx).unwrap();
    assert_eq!(dy, 10_009_100);
    let d_after = calc_d(x - dx, y + dy, a).unwrap();
    let back = calc_dy(y + dy, x - dx, a, d_after, dy).unwrap();
    assert_eq!(back, dx);
}

#[test]
fn token_decimal_factors() {
    assert_eq!(get_token_decs_fac(6, 6), Some((1, 1)));
    assert_eq!(get_token_decs_fac(8, 6), Some((1, 100)));
    assert_eq!(get_token_decs_fac(6, 9), Some((1000, 1)));
    assert_eq!(get_token_decs_fac(19, 0), Some((1, 10_000_000_000_000_000_000)));
    assert_eq!(get_token_decs_fac(0, 20), None);
    assert_eq!(get_token_decs_fac(255, 0), None);
}

#[test]
fn amounts_at_equal_decimals() {
    assert_eq!(normalize_decimals(5, 6, 7, 8), Some((500, 7)));
    assert_eq!(normalize_decimals(5, 8, 7, 6), Some((5, 700)));
    assert_eq!(normalize_decimals(u64::MAX, 6, 7, 8), None);
    assert_eq!(normalize_decimals(1, 0, 1, 30), None);
}

#[test]
fn shares_for_growth() {
    assert_eq!(lp_for_growth(0, 0, 777), Some(777));
    // an empty supply is looked at first: the first shares are the value itself
    assert_eq!(lp_for_growth(0, 300, 200), Some(200));
    assert_eq!(lp_for_growth(0, 300, 0), Some(0));
    assert_eq!(lp_for_growth(1_000, 200, 300), Some(500));
    assert_eq!(lp_for_growth(1_000, 3, 4), Some(333));
    assert_eq!(lp_for_growth(1_000, 300, 200), None);
    assert_eq!(lp_for_growth(1_000, 0, 200), None);
    assert_eq!(lp_for_growth(u64::MAX, 1, 3), None);
}

#[test]
fn stableswap_shares() {
    assert_eq!(
        calculate_stableswap_lp_minted(0, 0, 0, 1_000_000_000, 100_000_000_000, 6, 8),
        Some(200_000_000_000)
    );
    assert_eq!(
        calculate_stableswap_lp_minted(
            1_000_000_000,
            1_000_000_000,
            100_000_000_000,
            100_000_000,
            10_000_000_000,
            6,
            8
        ),
        Some(100_000_000)
    );
    assert_eq!(
        calculate_stableswap_lp_minted(
            12_345,
            1_000_000_000,
            2_000_000_000,
            50_000_000,
            100_000_000,
            9,
            9
        ),
        Some(617)
    );
    assert_eq!(calculate_stableswap_lp_minted(5, 0, 0, 10, 10, 6, 6), None);
    assert_eq!(calculate_stableswap_lp_minted(0, u64::MAX, 1, 1, 1, 6, 6), None);
}

#[test]
fn wide_numbers_compute_exactly() {
    let a = Wide::from_u128(u128::MAX);
    let b = Wide::from_u64(u64::MAX);
    let product = a.mul(&b);
    // (2^128 - 1)(2^64 - 1) / (2^64 - 1) = 2^128 - 1, no remainder
    let (q, r) = product.div_rem(&b);
    assert!(q.le(&a) && a.le(&q));
    assert!(r.is_zero());
    let (q, r) = product.add(&Wide::from_u64(5)).div_rem(&a);
    assert_eq!(q.to_u64(), Some(u64::MAX));
    assert_eq!(r.to_u64(), Some(5));
    assert_eq!(a.to_u64(), None);
    assert_eq!(Wide::zero().to_u64(), Some(0));
    assert!(Wide::from_u64(3).checked_sub(&Wide::from_u64(4)).is_none());
    assert_eq!(Wide::from_u64(9).checked_sub(&Wide::from_u64(4)).unwrap().to_u64(), Some(5));
    assert_eq!(Wide::from_u64(9).mul_small(7).to_u64(), Some(63));
    assert_eq!(Wide::from_u64(9).push_low(1).div_rem(&Wide::from_u128(1 << 64)).0.to_u64(), Some(9));
    assert_eq!(Wide::from_u64(77).duplicate().trimmed().to_u64(), Some(77));
}

#[test]
fn narrow_numbers_compute_exactly_or_not_at_all() {
    let big = U256::from_u128(u128::MAX);
    let bigger = big.checked_mul_small(u64::MAX).unwrap();
    assert_eq!(bigger.quotient(&big), Some(u64::MAX));
    assert_eq!(bigger.checked_add(&U256::from_u64(9)).unwrap().quotient(&big), Some(u64::MAX));
    let top = bigger.checked_mul_small(u64::MAX).unwrap();
    assert!(top.checked_mul_small(2).is_none());
    assert!(top.checked_add(&top).is_none());
    assert_eq!(top.quotient(&U256::from_u64(1)), None);
    assert_eq!(top.quotient(&bigger), Some(u64::MAX));
    assert_eq!(U256::from_u64(100).quotient(&U256::from_u64(7)), Some(14));
    assert_eq!(U256::from_u64(0).quotient(&top), Some(0));
    assert!(U256::from_u64(3).checked_sub(&U256::from_u64(4)).is_none());
    assert_eq!(U256::from_u64(9).checked_sub(&U256::from_u64(4)).unwrap().to_u64(), Some(5));
    assert!(U256::from_u64(3).le(&big) && !big.le(&U256::from_u64(3)));
    assert_eq!(big.to_u64(), None);
}
