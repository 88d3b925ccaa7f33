use particle_sim::fixed::clamp;
use particle_sim::fixed::floor_div_wide;
use particle_sim::fixed::isqrt_wide;
use particle_sim::fixed::scaled;
use particle_sim::fixed::Fixed;
use particle_sim::fixed::SCALE;
use particle_sim::vec2::magnitude;
use particle_sim::vec2::Vec2;

fn raw(v: i64) -> Fixed {
    Fixed { raw: v }
}

fn whole(n: i32) -> Fixed {
    Fixed::from_int(n)
}

#[test]
fn whole_numbers_are_exact() {
    assert_eq!(SCALE, 1i64 << 32);
    assert_eq!(Fixed::zero().raw, 0);
    assert_eq!(Fixed::one().raw, 1i64 << 32);
    assert_eq!(whole(10).raw, 10i64 << 32);
    assert_eq!(whole(-3).raw, -(3i64 << 32));
    assert_eq!(whole(i32::MIN).raw, i64::MIN);
    assert_eq!(whole(i32::MAX).raw, (i32::MAX as i64) << 32);
}

#[test]
fn ratios_round_down() {
    assert_eq!(Fixed::from_ratio(1, 2).raw, 1i64 << 31);
    assert_eq!(Fixed::from_ratio(1, 60).raw, 71_582_788);
    assert_eq!(Fixed::from_ratio(2, 60).raw, 143_165_576);
    assert_eq!(Fixed::from_ratio(1, 3).raw, 1_431_655_765);
    assert_eq!(Fixed::from_ratio(-1, 3).raw, -1_431_655_766);
    assert_eq!(Fixed::from_ratio(1, -3).raw, -1_431_655_766);
    assert_eq!(Fixed::from_ratio(-1, -3).raw, 1_431_655_765);
    assert_eq!(Fixed::from_ratio(-7, 2), raw(-(7i64 << 31)));
}

#[test]
fn ratios_saturate() {
    assert_eq!(Fixed::from_ratio(i64::MAX, 1).raw, i64::MAX);
    assert_eq!(Fixed::from_ratio(i64::MIN, 1).raw, i64::MIN);
    assert_eq!(Fixed::from_ratio(i64::MIN, -1).raw, i64::MAX);
}

#[test]
fn sums_and_differences_saturate() {
    assert_eq!(whole(2).add(whole(3)), whole(5));
    assert_eq!(whole(2).sub(whole(3)), whole(-1));
    assert_eq!(raw(i64::MAX).add(raw(1)).raw, i64::MAX);
    assert_eq!(raw(i64::MIN).add(raw(-1)).raw, i64::MIN);
    assert_eq!(raw(i64::MIN).sub(raw(1)).raw, i64::MIN);
    assert_eq!(raw(i64::MAX).sub(raw(-1)).raw, i64::MAX);
    assert_eq!(raw(i64::MAX).add(raw(i64::MIN)).raw, -1);
}

#[test]
fn negation_saturates_at_the_lowest_number() {
    assert_eq!(whole(4).neg(), whole(-4));
    assert_eq!(raw(0).neg(), raw(0));
    assert_eq!(raw(i64::MIN).neg().raw, i64::MAX);
    assert_eq!(raw(i64::MAX).neg().raw, i64::MIN + 1);
}

#[test]
fn products_round_down() {
    let three_halves = Fixed::from_ratio(3, 2);
    let five_halves = Fixed::from_ratio(5, 2);
    assert_eq!(three_halves.mul(five_halves), Fixed::from_ratio(15, 4));
    assert_eq!(whole(-6).mul(whole(7)), whole(-42));
    assert_eq!(raw(1).mul(raw(1)).raw, 0);
    assert_eq!(raw(-1).mul(raw(1)).raw, -1);
    assert_eq!(raw(-1).mul(raw(-1)).raw, 0);
    assert_eq!(raw(3).mul(Fixed::from_ratio(1, 2)).raw, 1);
    assert_eq!(raw(-3).mul(Fixed::from_ratio(1, 2)).raw, -2);
}

#[test]
fn products_saturate() {
    assert_eq!(raw(i64::MAX).mul(whole(2)).raw, i64::MAX);
    assert_eq!(raw(i64::MAX).mul(whole(-2)).raw, i64::MIN);
    assert_eq!(raw(i64::MIN).mul(raw(i64::MIN)).raw, i64::MAX);
    assert_eq!(raw(i64::MAX).mul(Fixed::one()).raw, i64::MAX);
    assert_eq!(raw(i64::MIN).mul(Fixed::one()).raw, i64::MIN);
}

#[test]
fn quotients_round_down() {
    assert_eq!(whole(7).div(whole(2)), Fixed::from_ratio(7, 2));
    assert_eq!(whole(7).div(whole(-2)), Fixed::from_ratio(-7, 2));
    assert_eq!(whole(1).div(whole(3)).raw, 1_431_655_765);
    assert_eq!(whole(-1).div(whole(3)).raw, -1_431_655_766);
    assert_eq!(whole(1).div(whole(-3)).raw, -1_431_655_766);
    assert_eq!(whole(-1).div(whole(-3)).raw, 1_431_655_765);
    assert_eq!(raw(0).div(raw(-5)).raw, 0);
}

#[test]
fn quotients_saturate() {
    assert_eq!(whole(1000).div(raw(1)).raw, i64::MAX);
    assert_eq!(whole(-1000).div(raw(1)).raw, i64::MIN);
    assert_eq!(whole(1000).div(raw(-1)).raw, i64::MIN);
}

#[test]
fn halves_round_down() {
    assert_eq!(whole(9).half(), Fixed::from_ratio(9, 2));
    assert_eq!(raw(3).half().raw, 1);
    assert_eq!(raw(-3).half().raw, -2);
    assert_eq!(raw(i64::MIN).half().raw, i64::MIN / 2);
    assert_eq!(raw(i64::MAX).half().raw, i64::MAX / 2);
}

#[test]
fn equal_parts_round_down() {
    assert_eq!(raw(10).div_count(3).raw, 3);
    assert_eq!(raw(-10).div_count(3).raw, -4);
    assert_eq!(raw(10).div_count(1).raw, 10);
    assert_eq!(Fixed::from_ratio(1, 60).div_count(4).raw, 17_895_697);
    assert_eq!(raw(5).div_count(usize::MAX).raw, 0);
    assert_eq!(raw(-5).div_count(usize::MAX).raw, -1);
}

#[test]
fn wide_helpers() {
    assert_eq!(clamp(0), 0);
    assert_eq!(clamp(i64::MAX as i128 + 1), i64::MAX);
    assert_eq!(clamp(i64::MIN as i128 - 1), i64::MIN);
    assert_eq!(clamp(-12345), -12345);
    assert_eq!(scaled(3), 3i128 << 32);
    assert_eq!(scaled(i64::MIN), (i64::MIN as i128) << 32);
    assert_eq!(floor_div_wide(7, 2), 3);
    assert_eq!(floor_div_wide(-7, 2), -4);
    assert_eq!(floor_div_wide(7, -2), -4);
    assert_eq!(floor_div_wide(-7, -2), 3);
    assert_eq!(floor_div_wide(-8, 2), -4);
    assert_eq!(floor_div_wide(0, -9), 0);
    assert_eq!(magnitude(-5), 5);
    assert_eq!(magnitude(5), 5);
    assert_eq!(magnitude(i64::MIN), 1u128 << 63);
}

#[test]
fn square_roots_round_down() {
    assert_eq!(isqrt_wide(0), 0);
    assert_eq!(isqrt_wide(1), 1);
    assert_eq!(isqrt_wide(2), 1);
    assert_eq!(isqrt_wide(3), 1);
    assert_eq!(isqrt_wide(4), 2);
    assert_eq!(isqrt_wide(15), 3);
    assert_eq!(isqrt_wide(16), 4);
    assert_eq!(isqrt_wide(17), 4);
    assert_eq!(isqrt_wide(1u128 << 64), 1u64 << 32);
    assert_eq!(isqrt_wide((1u128 << 64) - 1), (1u64 << 32) - 1);
    assert_eq!(isqrt_wide(u128::MAX), u64::MAX);
    for r in [7u128, 1000, 4_294_967_295, 18_446_744_073_709_551_615] {
        assert_eq!(isqrt_wide(r * r) as u128, r);
        assert_eq!(isqrt_wide(r * r - 1) as u128, r - 1);
    }
}

#[test]
fn vector_sums_products_and_parts() {
    let a = Vec2::new(whole(3), whole(-4));
    let b = Vec2::new(whole(1), whole(2));
    assert_eq!(a.add(b), Vec2::new(whole(4), whole(-2)));
    assert_eq!(a.sub(b), Vec2::new(whole(2), whole(-6)));
    assert_eq!(a.neg(), Vec2::new(whole(-3), whole(4)));
    assert_eq!(a.scale(Fixed::from_ratio(1, 2)), Vec2::new(Fixed::from_ratio(3, 2), whole(-2)));
    assert_eq!(a.mul(b), Vec2::new(whole(3), whole(-8)));
    assert_eq!(a.div(whole(2)), Vec2::new(Fixed::from_ratio(3, 2), whole(-2)));
    assert_eq!(a.half(), Vec2::new(Fixed::from_ratio(3, 2), whole(-2)));
    assert_eq!(a.dot(b), whole(-5));
    assert_eq!(Vec2::zero(), Vec2::new(raw(0), raw(0)));
}

#[test]
fn lengths_are_exact_square_roots_rounded_down() {
    assert_eq!(Vec2::new(whole(3), whole(4)).length(), whole(5));
    assert_eq!(Vec2::new(whole(-3), whole(4)).length(), whole(5));
    assert_eq!(Vec2::new(whole(0), whole(-7)).length(), whole(7));
    assert_eq!(Vec2::zero().length(), raw(0));
    // sqrt(2) * 2^32 = 6074000999.95...
    assert_eq!(Vec2::new(whole(1), whole(1)).length().raw, 6_074_000_999);
    assert_eq!(Vec2::new(raw(1), raw(1)).length().raw, 1);
    assert_eq!(Vec2::new(raw(i64::MIN), raw(i64::MIN)).length().raw, i64::MAX);
    assert_eq!(Vec2::new(raw(i64::MIN), raw(0)).length().raw, i64::MAX);
    assert_eq!(Vec2::new(raw(i64::MAX), raw(0)).length().raw, i64::MAX);
}

#[test]
fn normalizing_gives_a_unit_vector_or_zero() {
    let n = Vec2::new(whole(3), whole(4)).normalize();
    // 0.6 * 2^32 = 2576980377.6 and 0.8 * 2^32 = 3435973836.8
    assert_eq!(n, Vec2::new(raw(2_576_980_377), raw(3_435_973_836)));
    assert_eq!(Vec2::new(whole(-20), whole(0)).normalize(), Vec2::new(whole(-1), whole(0)));
    assert_eq!(Vec2::new(whole(0), whole(5)).normalize(), Vec2::new(whole(0), whole(1)));
    assert_eq!(Vec2::zero().normalize(), Vec2::zero());
    assert_eq!(Vec2::new(raw(65_535), raw(0)).normalize(), Vec2::zero());
    assert_eq!(Vec2::new(raw(65_536), raw(0)).normalize(), Vec2::new(whole(1), whole(0)));
    assert_eq!(Vec2::new(raw(-65_536), raw(0)).normalize(), Vec2::new(whole(-1), whole(0)));
}
