use sprite::ease::{
    back_in, bounce_in, bounce_out, circular_in, circular_out, cubic_in, cubic_in_out, cubic_out,
    elastic_out, exponential_in, exponential_out, quadratic_in, quadratic_in_out, quadratic_out,
    quartic_in, quintic_in, sine_in, sine_in_out, sine_out, EaseFunction,
};
use sprite::UNIT;

#[test]
fn all_shapes_fix_the_endpoints() {
    let shapes = vec![
        EaseFunction::EaseQuadraticIn,
        EaseFunction::EaseQuadraticOut,
        EaseFunction::EaseQuadraticInOut,
        EaseFunction::EaseCubicIn,
        EaseFunction::EaseCubicOut,
        EaseFunction::EaseCubicInOut,
        EaseFunction::EaseQuarticIn,
        EaseFunction::EaseQuarticOut,
        EaseFunction::EaseQuarticInOut,
        EaseFunction::EaseQuinticIn,
        EaseFunction::EaseQuinticOut,
        EaseFunction::EaseQuinticInOut,
        EaseFunction::EaseSineIn,
        EaseFunction::EaseSineOut,
        EaseFunction::EaseSineInOut,
        EaseFunction::EaseCircularIn,
        EaseFunction::EaseCircularOut,
        EaseFunction::EaseCircularInOut,
        EaseFunction::EaseExponentialIn,
        EaseFunction::EaseExponentialOut,
        EaseFunction::EaseExponentialInOut,
        EaseFunction::EaseBackIn,
        EaseFunction::EaseBackOut,
        EaseFunction::EaseBackInOut,
        EaseFunction::EaseBounceIn,
        EaseFunction::EaseBounceOut,
        EaseFunction::EaseBounceInOut,
        EaseFunction::EaseElasticIn,
        EaseFunction::EaseElasticOut,
        EaseFunction::EaseElasticInOut,
    ];
    for f in shapes {
        assert_eq!(f.calc(0), 0, "{:?} at zero", f);
        assert_eq!(f.calc(UNIT), UNIT, "{:?} at one", f);
    }
}

#[test]
fn input_is_clamped_to_the_unit_interval() {
    assert_eq!(quadratic_in(-5_000_000), 0);
    assert_eq!(quadratic_in(5_000_000), UNIT);
    assert_eq!(cubic_out(i64::MIN), 0);
    assert_eq!(cubic_out(i64::MAX), UNIT);
}

#[test]
fn polynomial_midpoints_are_exact() {
    assert_eq!(quadratic_in(500_000), 250_000);
    assert_eq!(quadratic_out(250_000), 437_500);
    assert_eq!(quadratic_in_out(500_000), 500_000);
    assert_eq!(cubic_in(500_000), 125_000);
    assert_eq!(cubic_in_out(500_000), 500_000);
    assert_eq!(quartic_in(500_000), 62_500);
    assert_eq!(quintic_in(500_000), 31_250);
}

#[test]
fn sine_shapes_use_the_rational_half_wave() {
    assert_eq!(sine_out(500_000), 705_882);
    assert_eq!(sine_in(500_000), UNIT - 705_882);
    assert_eq!(sine_in_out(500_000), 498_269);
}

#[test]
fn circular_shapes_use_the_floor_square_root() {
    assert_eq!(circular_in(500_000), 133_975);
    assert_eq!(circular_out(500_000), 866_025);
}

#[test]
fn exponential_shapes_use_the_quadratic_fit() {
    assert_eq!(exponential_in(500_000), 31_250);
    assert_eq!(exponential_out(500_000), UNIT - 31_250);
}

#[test]
fn back_ease_dips_below_zero() {
    assert_eq!(back_in(500_000), -375_000);
}

#[test]
fn elastic_ease_overshoots_above_one() {
    assert!(elastic_out(200_000) > UNIT);
}

#[test]
fn bounce_values_are_exact_rationals() {
    assert_eq!(bounce_out(500_000), 718_750);
    assert_eq!(bounce_in(500_000), UNIT - 718_750);
}

#[test]
fn calc_dispatches_to_the_shape() {
    assert_eq!(EaseFunction::EaseQuadraticIn.calc(500_000), quadratic_in(500_000));
    assert_eq!(EaseFunction::EaseBounceOut.calc(123_456), bounce_out(123_456));
}
