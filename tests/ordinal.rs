use rigid_core::config::{run_dynamic, run_physics, run_static, CollisionDetection, DEFAULT_CONSTRAIN_MAX_ITER};
use rigid_core::ordinal::{f32_le, f32_lt, is_nan, is_zero, ordinal};

#[test]
fn ordinal_exact_values() {
    assert_eq!(ordinal(1.0f32.to_bits()), 0x3f80_0000);
    assert_eq!(ordinal((-1.0f32).to_bits()), -0x3f80_0000);
    assert_eq!(ordinal(0.0f32.to_bits()), 0);
    assert_eq!(ordinal((-0.0f32).to_bits()), 0);
}

#[test]
fn ordinal_keeps_the_order_of_numbers() {
    let xs = [-f32::INFINITY, -1.0e9, -2.5, -1.0, -1.0e-30, 0.0, 1.0e-30, 0.5, 1.0, 3.0, 1.0e20, f32::INFINITY];
    for w in xs.windows(2) {
        assert!(ordinal(w[0].to_bits()) < ordinal(w[1].to_bits()));
    }
}

#[test]
fn comparisons_follow_ieee() {
    let nan = f32::NAN.to_bits();
    let one = 1.0f32.to_bits();
    let two = 2.0f32.to_bits();
    assert!(f32_lt(one, two));
    assert!(!f32_lt(two, one));
    assert!(!f32_lt(one, one));
    assert!(f32_le(one, one));
    assert!(f32_le((-0.0f32).to_bits(), 0.0f32.to_bits()));
    assert!(!f32_lt(nan, one));
    assert!(!f32_lt(one, nan));
    assert!(!f32_le(nan, nan));
    assert!(!f32_le((-f32::NAN).to_bits(), one));
}

#[test]
fn zero_and_nan_patterns() {
    assert!(is_zero(0.0f32.to_bits()));
    assert!(is_zero((-0.0f32).to_bits()));
    assert!(!is_zero(f32::MIN_POSITIVE.to_bits()));
    assert!(is_nan(f32::NAN.to_bits()));
    assert!(is_nan((-f32::NAN).to_bits()));
    assert!(!is_nan(f32::INFINITY.to_bits()));
    assert!(!is_nan(f32::NEG_INFINITY.to_bits()));
}

#[test]
fn tick_runs_only_when_enabled_and_time_moves() {
    assert!(run_physics(true, 1.0f32.to_bits()));
    assert!(run_physics(true, (-0.5f32).to_bits()));
    assert!(!run_physics(true, 0.0f32.to_bits()));
    assert!(!run_physics(true, (-0.0f32).to_bits()));
    assert!(!run_physics(false, 1.0f32.to_bits()));
    assert_eq!(DEFAULT_CONSTRAIN_MAX_ITER, 5);
}

#[test]
fn detection_mode_selects_one_narrowphase() {
    assert!(run_static(CollisionDetection::Static));
    assert!(!run_dynamic(CollisionDetection::Static));
    assert!(run_dynamic(CollisionDetection::Dynamic));
    assert!(!run_static(CollisionDetection::Dynamic));
}
