use harp_tracker::outlier::return_valid_pos_time;

#[test]
fn outlier_is_rejected_and_latest_inlier_returned() {
    let positions = vec![(1_000_000, 1_000_000, 100), (1_000_000, 1_000_000, 100), (50_000_000, 50_000_000, 5000)];
    let times = vec![10, 20, 30];
    assert_eq!(return_valid_pos_time(positions, times), Some(((1_000_000, 1_000_000, 100), 20)));
}

#[test]
fn outlier_needs_matching_lengths() {
    assert_eq!(return_valid_pos_time(vec![(1, 1, 1)], vec![1, 2]), None);
    assert_eq!(return_valid_pos_time(vec![], vec![]), None);
}

#[test]
fn outlier_single_is_returned() {
    assert_eq!(return_valid_pos_time(vec![(5, 6, 7)], vec![9]), Some(((5, 6, 7), 9)));
}

#[test]
fn outlier_pair_is_averaged() {
    assert_eq!(return_valid_pos_time(vec![(10, 20, 30), (20, 40, 50)], vec![100, 200]), Some(((15, 30, 40), 150)));
}

#[test]
fn outlier_zero_median_uses_fixed_band() {
    // Medians are zero: the band is 1.15 degrees or metres either side.
    let positions = vec![(0, 0, 0), (0, 0, 0), (0, 0, 0), (1_100_000, 0, 110), (1_200_000, 0, 0)];
    let times = vec![1, 2, 3, 4, 5];
    assert_eq!(return_valid_pos_time(positions, times), Some(((1_100_000, 0, 110), 4)));
}

#[test]
fn outlier_negative_median_band_is_empty() {
    let positions = vec![(1_000_000, -1_000_000, 100), (1_000_000, -1_000_000, 100), (1_000_000, -1_000_000, 100)];
    assert_eq!(return_valid_pos_time(positions, vec![1, 2, 3]), None);
}
