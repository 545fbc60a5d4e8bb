use harvest_rs::basics::matlab_round;
use harvest_rs::fixed::Fixed;
use harvest_rs::harvest::get_samples_for_harvest;
use harvest_rs::scalar::Scalar;

fn f(units: i64) -> Fixed {
    Fixed { units }
}

#[test]
fn decimals_are_cut_to_six_places() {
    assert_eq!(Fixed::from_decimal(15, 1), f(1_500_000));
    assert_eq!(Fixed::from_decimal(-76600660094326412, 17), f(-766_006));
    assert_eq!(Fixed::from_decimal(1, 12), f(0));
    assert_eq!(Fixed::from_int(3), f(3_000_000));
    assert_eq!(Fixed::from_int(i128::MAX), f(i64::MAX));
}

#[test]
fn arithmetic_saturates() {
    assert_eq!(f(i64::MAX).plus(f(1)), f(i64::MAX));
    assert_eq!(f(i64::MIN).minus(f(1)), f(i64::MIN));
    assert_eq!(f(i64::MIN).negated(), f(i64::MAX));
    assert_eq!(f(1_500_000).times(f(-2_000_000)), f(-3_000_000));
    assert_eq!(f(1_000_000).over(f(3_000_000)), f(333_333));
    assert_eq!(f(-1_000_000).over(f(3_000_000)), f(-333_333));
    assert_eq!(f(5).over(f(0)), f(i64::MAX));
    assert_eq!(f(-5).over(f(0)), f(i64::MIN));
    assert_eq!(f(0).over(f(0)), f(0));
}

#[test]
fn rounding_goes_the_right_way() {
    assert_eq!(f(-1_500_000).floor(), f(-2_000_000));
    assert_eq!(f(-1_500_000).ceil(), f(-1_000_000));
    assert_eq!(f(1_500_000).floor(), f(1_000_000));
    assert_eq!(f(1_500_000).ceil(), f(2_000_000));
    assert_eq!(f(-1_999_999).to_i32(), -1);
    assert_eq!(f(-1_999_999).to_usize(), 0);
    assert_eq!(f(i64::MAX).to_i32(), i32::MAX);
}

#[test]
fn elementary_functions_come_close() {
    for k in -40..40 {
        let x = f(k * 321_987);
        let exact = (k as f64 * 0.321987).cos();
        assert!((x.cos().units as f64 / 1e6 - exact).abs() < 2e-4);
    }
    assert_eq!(f(2_000_000).sqrt(), f(1_414_213));
    assert_eq!(f(-1).sqrt(), f(0));
    assert_eq!(f(9_000_000).sqrt(), f(3_000_000));
    for k in 1..200 {
        let exact = (k as f64 * 0.77).ln();
        assert!((f(k * 770_000).ln().units as f64 / 1e6 - exact).abs() < 1e-4);
    }
    assert_eq!(f(0).ln(), f(i64::MIN));
    for k in -20..20 {
        let exact = 2.0_f64.powf(k as f64 * 0.37);
        let found = f(k * 370_000).exp2().units as f64 / 1e6;
        assert!((found - exact).abs() < 1e-4 * (1.0 + exact));
    }
    assert_eq!(f(i64::MAX).exp2(), f(i64::MAX));
    assert_eq!(f(i64::MIN).exp2(), f(0));
}

#[test]
fn fixed_point_numbers_round_symmetrically() {
    for k in 0..100 {
        let x = f(k * 130_001);
        assert_eq!(matlab_round(x.negated()), -matlab_round(x));
    }
    assert_eq!(matlab_round(f(2_500_000)), 3);
    assert_eq!(matlab_round(f(-2_500_000)), -3);
}

#[test]
fn fixed_point_numbers_count_frames_in_order() {
    assert_eq!(get_samples_for_harvest(8000, 0, f(5_000_000)), 1);
    let mut last = 1;
    for n in 0..2000 {
        let now = get_samples_for_harvest(8000, n, f(1_300_000));
        assert!(last <= now);
        last = now;
    }
    assert_eq!(last, 193);
}
