use critter_graph::bounds::{bound, bound_reflect, wrap};

#[test]
fn bound_clamps_at_both_ends() {
    assert_eq!(bound(5.0f64, 0.0, 1.0), 1.0);
    assert_eq!(bound(-5.0f64, 0.0, 1.0), 0.0);
    assert_eq!(bound(0.5f64, 0.0, 1.0), 0.5);
    assert_eq!(bound(5i64, 0, 1), 1);
    assert_eq!(bound(-5i64, 0, 1), 0);
}

#[test]
fn bound_reflect_mirrors_a_single_overshoot() {
    assert!((bound_reflect(1.5f64, -1.0, 1.0) - 0.5).abs() < 1e-12);
    assert!((bound_reflect(-1.2f64, -1.0, 1.0) - (-0.8)).abs() < 1e-12);
    assert_eq!(bound_reflect(0.3f64, -1.0, 1.0), 0.3);
    assert_eq!(bound_reflect(15i64, -10, 10), 5);
    assert_eq!(bound_reflect(-12i64, -10, 10), -8);
}

#[test]
fn wrap_is_periodic_for_arbitrary_overshoot() {
    assert_eq!(wrap(25, -10, 10), 5);
    assert_eq!(wrap(-25, -10, 10), -5);
    assert_eq!(wrap(3, -10, 10), 3);
    assert_eq!(wrap(-10, -10, 10), -10);
    assert_eq!(wrap(10, -10, 10), 10);
    assert_eq!(wrap(1000, -10, 10), 0);
    assert_eq!(wrap(-1000, -10, 10), 0);
}
