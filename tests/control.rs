use fan_curve::control::{plan_cycle, unit_writes, POLL_INTERVAL_SECS};
use fan_curve::curve::Curve;

fn sample_curve() -> Curve {
    Curve::new(vec![(20, 20), (50, 50), (75, 75)]).unwrap()
}

#[test]
fn cycle_at_target_writes_nothing() {
    let plan = plan_cycle(&sample_curve(), 60, 75, 3);
    assert_eq!(plan.target, 75);
    assert!(!plan.changed);
    assert!(plan.writes.is_empty());
}

#[test]
fn cycle_off_target_writes_every_unit_once() {
    let plan = plan_cycle(&sample_curve(), 25, 20, 3);
    assert_eq!(plan.target, 50);
    assert!(plan.changed);
    assert_eq!(plan.writes, vec![(0, 50), (1, 50), (2, 50)]);
}

#[test]
fn cycle_off_target_without_units() {
    let plan = plan_cycle(&sample_curve(), 100, 10, 0);
    assert_eq!(plan.target, 75);
    assert!(plan.changed);
    assert!(plan.writes.is_empty());
}

#[test]
fn unit_writes_cover_each_unit() {
    assert_eq!(unit_writes(0, 40), vec![]);
    assert_eq!(unit_writes(2, 40), vec![(0, 40), (1, 40)]);
}

#[test]
fn poll_interval_is_five_seconds() {
    assert_eq!(POLL_INTERVAL_SECS, 5);
}
