use fallingsand_sim::arith::{divide_signed, round_div_i128, scaled_round, vector_length};

#[test]
fn round_div_rounds_halves_away_from_zero() {
    assert_eq!(round_div_i128(7, 2), 4);
    assert_eq!(round_div_i128(-7, 2), -4);
    assert_eq!(round_div_i128(5, 3), 2);
    assert_eq!(round_div_i128(-5, 3), -2);
    assert_eq!(round_div_i128(4, 3), 1);
    assert_eq!(round_div_i128(-4, 3), -1);
    assert_eq!(round_div_i128(0, 9), 0);
}

#[test]
fn round_div_is_exact_on_multiples() {
    for k in -20i128..=20 {
        assert_eq!(round_div_i128(k * 7, 7), k);
    }
}

#[test]
fn round_div_of_negation_is_negated() {
    for n in 0i128..50 {
        for d in 1i128..9 {
            assert_eq!(round_div_i128(-n, d), -round_div_i128(n, d));
        }
    }
}

#[test]
fn round_div_lands_within_half_a_step() {
    for n in -60i128..=60 {
        for d in 1i128..8 {
            let q = round_div_i128(n, d);
            assert!((2 * (n - q * d)).abs() <= d);
        }
    }
}

#[test]
fn divide_signed_matches_rounded_division() {
    assert_eq!(divide_signed(10, 4), 3);
    assert_eq!(divide_signed(-10, 4), -3);
    assert_eq!(divide_signed(9, 4), 2);
    assert_eq!(divide_signed(-9, 4), -2);
    for n in -40i64..=40 {
        assert_eq!(divide_signed(n, 6) as i128, round_div_i128(n as i128, 6));
    }
}

#[test]
fn scaled_round_divides_by_a_power_of_two() {
    assert_eq!(scaled_round(3 << 16, 16), 3);
    assert_eq!(scaled_round((5 << 15) + 1, 16), 3);
    assert_eq!(scaled_round(-(5 << 15), 16), -3);
    assert_eq!(scaled_round(1, 1), 1);
    assert_eq!(scaled_round(-1, 1), -1);
    assert_eq!(scaled_round(100, 4), 6);
}

#[test]
fn vector_length_takes_the_floor_of_the_length() {
    assert_eq!(vector_length(3, 4), 5);
    assert_eq!(vector_length(-3, -4), 5);
    assert_eq!(vector_length(1, 1), 1);
    assert_eq!(vector_length(0, 0), 0);
    assert_eq!(vector_length(10, 0), 10);
    assert_eq!(vector_length(7, 7), 9);
}
