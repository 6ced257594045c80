use harp_tracker::coords::{round_degrees, rounding_fits, Coords};
use harp_tracker::position_time::EstimationType;

#[test]
fn degrees_round_to_thousandths() {
    assert_eq!(round_degrees(45_123_456), 45_123_000);
    assert_eq!(round_degrees(45_123_500), 45_124_000);
    assert_eq!(round_degrees(-111_000_500), -111_001_000);
    assert_eq!(round_degrees(-111_000_499), -111_000_000);
}

#[test]
fn coords_store_rounded_position() {
    let mut c = Coords::new();
    assert_eq!(c, Coords { lat: 0, long: 0, alt: 0 });
    c.update((45_123_456, -111_987_654, 150_012));
    assert_eq!(c, Coords { lat: 45_123_000, long: -111_988_000, alt: 150_012 });
}

#[test]
fn method_by_name() {
    assert_eq!(EstimationType::from_name("Median"), EstimationType::Median);
    assert_eq!(EstimationType::from_name("Recent"), EstimationType::Recent);
    assert_eq!(EstimationType::from_name("Average"), EstimationType::Average);
    assert_eq!(EstimationType::from_name("anything"), EstimationType::Average);
}

#[test]
fn rounding_near_the_limits() {
    assert!(rounding_fits(180_000_000));
    assert!(rounding_fits(i64::MAX - 808));
    assert!(!rounding_fits(i64::MAX));
    assert!(rounding_fits(i64::MIN + 808));
    assert!(!rounding_fits(i64::MIN));
}
