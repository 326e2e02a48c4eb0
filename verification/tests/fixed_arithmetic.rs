use raytracer::fixed::{Fixed, RAW_MAX, SCALE};

#[test]
fn one_plus_one_is_two() {
    let two = Fixed::one().add(Fixed::one());
    assert_eq!(two, Fixed::from_int(2));
    assert_eq!(two.raw, 2 * SCALE);
}

#[test]
fn constants_have_their_raw_values() {
    assert_eq!(Fixed::zero().raw, 0);
    assert_eq!(Fixed::one().raw, 4294967296);
    assert_eq!(Fixed::max().raw, i64::MAX);
    assert_eq!(Fixed::from_raw(-5).raw, -5);
}

#[test]
fn whole_numbers_scale_and_clamp() {
    assert_eq!(Fixed::from_int(3).raw, 3 * SCALE);
    assert_eq!(Fixed::from_int(-3).raw, -3 * SCALE);
    assert_eq!(Fixed::from_int(2147483647).raw, 2147483647 * SCALE);
    assert_eq!(Fixed::from_int(2147483648).raw, RAW_MAX);
    assert_eq!(Fixed::from_int(i64::MIN).raw, -RAW_MAX);
    assert_eq!(Fixed::from_count(5).raw, 5 * SCALE);
    assert_eq!(Fixed::from_count(2147483648).raw, RAW_MAX);
    assert_eq!(Fixed::from_count(usize::MAX).raw, RAW_MAX);
}

#[test]
fn fractions_round_toward_zero() {
    assert_eq!(Fixed::from_ratio(1, 2).raw, 2147483648);
    assert_eq!(Fixed::from_ratio(1, 3).raw, 1431655765);
    assert_eq!(Fixed::from_ratio(-1, 3).raw, -1431655765);
    assert_eq!(Fixed::from_ratio(1, -3).raw, -1431655765);
    assert_eq!(Fixed::from_ratio(-1, -3).raw, 1431655765);
    assert_eq!(Fixed::from_ratio(7, 10).raw, 3006477107);
    assert_eq!(Fixed::from_ratio(1, 100_000_000).raw, 42);
    assert_eq!(Fixed::from_ratio(1, 10_000).raw, 429496);
}

#[test]
fn sums_and_differences_saturate() {
    let big = Fixed::from_raw(RAW_MAX);
    assert_eq!(big.add(Fixed::one()).raw, RAW_MAX);
    assert_eq!(big.neg().sub(Fixed::one()).raw, -RAW_MAX);
    assert_eq!(Fixed::from_raw(i64::MIN).add(Fixed::from_raw(i64::MIN)).raw, -RAW_MAX);
    assert_eq!(Fixed::from_raw(i64::MIN).add(Fixed::zero()).raw, -RAW_MAX);
    assert_eq!(Fixed::from_int(5).sub(Fixed::from_int(7)), Fixed::from_int(-2));
    assert_eq!(Fixed::from_ratio(1, 2).add(Fixed::from_ratio(1, 4)), Fixed::from_ratio(3, 4));
}

#[test]
fn negation_and_absolute_value() {
    assert_eq!(Fixed::from_int(4).neg(), Fixed::from_int(-4));
    assert_eq!(Fixed::from_raw(i64::MIN).neg().raw, RAW_MAX);
    assert_eq!(Fixed::from_raw(i64::MIN).abs().raw, RAW_MAX);
    assert_eq!(Fixed::from_int(-4).abs(), Fixed::from_int(4));
    assert_eq!(Fixed::from_int(4).abs(), Fixed::from_int(4));
    assert_eq!(Fixed::zero().neg(), Fixed::zero());
}

#[test]
fn products_round_toward_zero_and_saturate() {
    assert_eq!(Fixed::from_ratio(3, 2).mul(Fixed::from_ratio(5, 2)).raw, 16106127360);
    assert_eq!(Fixed::from_ratio(1, 10).raw, 429496729);
    assert_eq!(Fixed::from_ratio(1, 10).mul(Fixed::from_ratio(1, 10)).raw, 42949672);
    assert_eq!(Fixed::from_raw(3).mul(Fixed::from_raw(3)).raw, 0);
    assert_eq!(Fixed::from_raw(-3).mul(Fixed::from_raw(3)).raw, 0);
    assert_eq!(Fixed::from_raw(-65536).mul(Fixed::from_raw(65537)).raw, -1);
    assert_eq!(Fixed::from_int(-2).mul(Fixed::from_int(3)), Fixed::from_int(-6));
    assert_eq!(Fixed::from_int(100_000).mul(Fixed::from_int(100_000)).raw, RAW_MAX);
    assert_eq!(Fixed::from_int(-100_000).mul(Fixed::from_int(100_000)).raw, -RAW_MAX);
    assert_eq!(Fixed::from_raw(i64::MIN).mul(Fixed::from_raw(i64::MIN)).raw, RAW_MAX);
}

#[test]
fn quotients_round_toward_zero_and_saturate() {
    assert_eq!(Fixed::from_int(1).div(Fixed::from_int(3)).raw, 1431655765);
    assert_eq!(Fixed::from_int(-1).div(Fixed::from_int(3)).raw, -1431655765);
    assert_eq!(Fixed::from_int(6).div(Fixed::from_int(-3)), Fixed::from_int(-2));
    assert_eq!(Fixed::from_int(1).div(Fixed::from_ratio(3, 2)).raw, 2863311530);
    assert_eq!(Fixed::from_int(1000).div(Fixed::from_raw(1)).raw, RAW_MAX);
    assert_eq!(Fixed::from_int(-1000).div(Fixed::from_raw(1)).raw, -RAW_MAX);
}

#[test]
fn division_by_zero_gives_the_largest_number_of_that_sign() {
    assert_eq!(Fixed::from_int(1).div(Fixed::zero()).raw, RAW_MAX);
    assert_eq!(Fixed::from_int(-1).div(Fixed::zero()).raw, -RAW_MAX);
    assert_eq!(Fixed::zero().div(Fixed::zero()).raw, 0);
    assert_eq!(Fixed::from_ratio(5, 0).raw, RAW_MAX);
}

#[test]
fn square_roots_round_down() {
    assert_eq!(Fixed::from_int(4).sqrt(), Fixed::from_int(2));
    assert_eq!(Fixed::from_int(2).sqrt().raw, 6074000999);
    assert_eq!(Fixed::from_int(3).sqrt().raw, 7439101573);
    assert_eq!(Fixed::from_ratio(1, 4).sqrt(), Fixed::from_ratio(1, 2));
    assert_eq!(Fixed::one().sqrt(), Fixed::one());
    assert_eq!(Fixed::zero().sqrt(), Fixed::zero());
    assert_eq!(Fixed::from_raw(1).sqrt().raw, 65536);
    assert_eq!(Fixed::from_raw(RAW_MAX).sqrt().raw, 199032864766430);
}

#[test]
fn square_root_of_a_negative_number_is_zero() {
    assert_eq!(Fixed::from_int(-4).sqrt(), Fixed::zero());
    assert_eq!(Fixed::from_raw(-1).sqrt(), Fixed::zero());
    assert_eq!(Fixed::from_raw(i64::MIN).sqrt(), Fixed::zero());
}

#[test]
fn square_root_squared_is_not_above_the_number() {
    let mut raw: i64 = 1;
    while raw < RAW_MAX / 3 {
        let root = Fixed::from_raw(raw).sqrt().raw as i128;
        let scaled = raw as i128 * SCALE as i128;
        assert!(root * root <= scaled);
        assert!((root + 1) * (root + 1) > scaled);
        raw = raw * 3 + 1;
    }
}

#[test]
fn powers_multiply_step_by_step() {
    assert_eq!(Fixed::from_int(7).powi(0), Fixed::one());
    assert_eq!(Fixed::from_int(7).powi(1), Fixed::from_int(7));
    assert_eq!(Fixed::from_int(3).powi(4), Fixed::from_int(81));
    assert_eq!(Fixed::from_ratio(1, 2).powi(5).raw, 134217728);
    assert_eq!(Fixed::zero().powi(0), Fixed::one());
    assert_eq!(Fixed::zero().powi(3), Fixed::zero());
    assert_eq!(Fixed::from_int(-2).powi(3), Fixed::from_int(-8));
}

#[test]
fn minimum_picks_the_smaller() {
    assert_eq!(Fixed::from_int(2).min(Fixed::from_int(3)), Fixed::from_int(2));
    assert_eq!(Fixed::from_int(3).min(Fixed::from_int(2)), Fixed::from_int(2));
    assert_eq!(Fixed::from_int(-3).min(Fixed::from_int(2)), Fixed::from_int(-3));
    assert_eq!(Fixed::one().min(Fixed::one()), Fixed::one());
}

#[test]
fn bytes_are_cut_and_clamped() {
    assert_eq!(Fixed::zero().to_byte(), 0);
    assert_eq!(Fixed::from_int(-1).to_byte(), 0);
    assert_eq!(Fixed::from_raw(-1).to_byte(), 0);
    assert_eq!(Fixed::from_ratio(2549, 10).to_byte(), 254);
    assert_eq!(Fixed::from_int(255).to_byte(), 255);
    assert_eq!(Fixed::from_int(255).sub(Fixed::from_raw(1)).to_byte(), 254);
    assert_eq!(Fixed::from_int(256).to_byte(), 255);
    assert_eq!(Fixed::from_int(300).to_byte(), 255);
    assert_eq!(Fixed::max().to_byte(), 255);
    assert_eq!(Fixed::from_ratio(1279, 10).to_byte(), 127);
}

#[test]
fn random_bits_give_a_number_below_one() {
    assert_eq!(Fixed::from_bits(0).raw, 0);
    assert_eq!(Fixed::from_bits(u64::MAX).raw, SCALE - 1);
    assert_eq!(Fixed::from_bits(1 << 63).raw, SCALE / 2);
    assert_eq!(Fixed::from_bits(0xffff_ffff).raw, 0);
    assert_eq!(Fixed::from_bits(0x1_0000_0000).raw, 1);
}
