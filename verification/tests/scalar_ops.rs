use weekend_raytracer::bvh::{ffmax, ffmin};
use weekend_raytracer::fixed::{
    fx_add, fx_div, fx_mul, fx_neg, fx_of, fx_sqrt, fx_sub, FX_MAX, FX_MIN, FX_ONE,
};

#[test]
fn whole_numbers_scale_exactly() {
    assert_eq!(fx_of(0), 0);
    assert_eq!(fx_of(1), FX_ONE);
    assert_eq!(fx_of(-3), -3 * FX_ONE);
    assert_eq!(fx_of(1000), 1000 * FX_ONE);
}

#[test]
fn addition_and_subtraction_saturate() {
    assert_eq!(fx_add(fx_of(2), fx_of(3)), fx_of(5));
    assert_eq!(fx_add(FX_MAX, 1), FX_MAX);
    assert_eq!(fx_sub(FX_MIN, 1), FX_MIN);
    assert_eq!(fx_sub(fx_of(2), fx_of(5)), fx_of(-3));
    assert_eq!(fx_neg(FX_MIN), FX_MAX);
    assert_eq!(fx_neg(fx_of(7)), fx_of(-7));
}

#[test]
fn multiplication_keeps_the_scale() {
    assert_eq!(fx_mul(fx_of(3), fx_of(4)), fx_of(12));
    assert_eq!(fx_mul(fx_of(-3), fx_of(4)), fx_of(-12));
    // one half times one half is one quarter
    assert_eq!(fx_mul(FX_ONE / 2, FX_ONE / 2), FX_ONE / 4);
    // truncation goes toward zero
    assert_eq!(fx_mul(1, 1), 0);
    assert_eq!(fx_mul(FX_MAX, FX_MAX), FX_MAX);
}

#[test]
fn division_by_zero_acts_like_infinity() {
    assert_eq!(fx_div(fx_of(10), fx_of(4)), fx_of(10) / 4);
    assert_eq!(fx_div(fx_of(1), 0), FX_MAX);
    assert_eq!(fx_div(fx_of(-1), 0), FX_MIN);
    assert_eq!(fx_div(0, 0), FX_MAX);
}

#[test]
fn square_roots_round_down() {
    assert_eq!(fx_sqrt(fx_of(4)), fx_of(2));
    assert_eq!(fx_sqrt(fx_of(9)), fx_of(3));
    assert_eq!(fx_sqrt(FX_ONE), FX_ONE);
    assert_eq!(fx_sqrt(0), 0);
    assert_eq!(fx_sqrt(-5), 0);
    // sqrt(2) in 16.16 fixed point, rounded down
    assert_eq!(fx_sqrt(fx_of(2)), 92681);
}

#[test]
fn min_and_max_pick_an_argument() {
    assert_eq!(ffmin(3, 7), 3);
    assert_eq!(ffmin(7, 3), 3);
    assert_eq!(ffmax(3, 7), 7);
    assert_eq!(ffmax(-3, -7), -3);
    assert_eq!(ffmin(5, 5), 5);
}
