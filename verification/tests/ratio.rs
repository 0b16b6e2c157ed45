//! Exact ratios and their powers.

use throttle_net::Ratio;

#[test]
fn a_ratio_of_a_count_is_rounded_down() {
    assert_eq!(Ratio::new(1, 2).of(9), 4);
    assert_eq!(Ratio::new(2, 3).of(10), 6);
    assert_eq!(Ratio::new(0, 5).of(10), 0);
    assert_eq!(Ratio::new(7, 2).at_most_one().of(10), 10);
    assert_eq!(Ratio::new(7, 8).at_most_one().of(16), 14);
}

#[test]
fn a_part_reaches_a_ratio_exactly() {
    let two_thirds = Ratio::new(2, 3);
    assert!(two_thirds.is_reached_by(2, 3));
    assert!(two_thirds.is_reached_by(200, 300));
    assert!(!two_thirds.is_reached_by(199, 300));
    assert!(Ratio::new(0, 1).is_reached_by(0, 4));
}

#[test]
fn powers_are_exact_and_saturate() {
    assert_eq!(Ratio::new(3, 2).power_of(1_000, 0), 1_000);
    assert_eq!(Ratio::new(3, 2).power_of(1_000, 5), 7_593);
    assert_eq!(Ratio::new(11, 10).power_of(1_000_000, 10), 2_593_742);
    assert_eq!(Ratio::new(1, 2).power_of(1 << 40, 40), 1);
    assert_eq!(Ratio::new(1, 2).power_of(1 << 40, 41), 0);
    assert_eq!(Ratio::new(2, 1).power_of(1, 63), 1 << 63);
    assert_eq!(Ratio::new(2, 1).power_of(1, 64), u64::MAX);
    assert_eq!(Ratio::new(1, 1).power_of(7, 4_000), 7);
}
