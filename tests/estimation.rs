use harp_tracker::position_time::{EstimationType, PositionTime};

fn pt(lat: i64, lon: i64, alt: i64, t: u64) -> PositionTime {
    PositionTime::new_with_value(lat, lon, alt, t)
}

#[test]
fn average_is_the_mean_of_each_field() {
    let r = PositionTime::average(vec![pt(1_000_000, 2_000_000, 100, 10), pt(3_000_000, 4_000_000, 300, 20)]);
    assert_eq!(r, pt(2_000_000, 3_000_000, 200, 15));
}

#[test]
fn average_rounds_down() {
    let r = PositionTime::average(vec![pt(-1, 1, 0, 1), pt(-2, 2, 1, 2)]);
    assert_eq!(r, pt(-2, 1, 0, 1));
}

#[test]
fn average_of_three() {
    let r = PositionTime::average(vec![pt(3, 6, 9, 100), pt(6, 6, 9, 200), pt(9, 6, 9, 301)]);
    assert_eq!(r, pt(6, 6, 9, 200));
}

#[test]
fn median_of_one_is_itself() {
    let s = pt(45_000_000, -111_000_000, 150_000, 100);
    assert_eq!(PositionTime::median(vec![s]), s);
}

#[test]
fn median_of_two_is_their_average() {
    let a = pt(10, 20, 30, 200);
    let b = pt(20, 40, 50, 100);
    let expected = PositionTime::average(vec![a, b]);
    assert_eq!(PositionTime::median(vec![a, b]), expected);
    assert_eq!(PositionTime::median(vec![b, a]), expected);
    assert_eq!(expected, pt(15, 30, 40, 150));
}

#[test]
fn median_of_three_is_the_middle_by_time() {
    let early = pt(1, 1, 1, 10);
    let middle = pt(2, 2, 2, 20);
    let late = pt(3, 3, 3, 30);
    assert_eq!(PositionTime::median(vec![late, early, middle]), middle);
    assert_eq!(PositionTime::median(vec![early, middle, late]), middle);
}

#[test]
fn median_of_four_averages_the_middle_two() {
    let r = PositionTime::median(vec![pt(0, 0, 0, 40), pt(10, 0, 0, 10), pt(20, 0, 0, 20), pt(40, 0, 0, 30)]);
    assert_eq!(r, pt(30, 0, 0, 25));
}

#[test]
fn recent_takes_the_latest() {
    let r = PositionTime::recent(vec![pt(1, 0, 0, 10), pt(2, 0, 0, 30), pt(3, 0, 0, 20)]);
    assert_eq!(r, pt(2, 0, 0, 30));
}

#[test]
fn recent_takes_the_first_of_equal_latest_times() {
    let r = PositionTime::recent(vec![pt(1, 0, 0, 10), pt(2, 0, 0, 30), pt(3, 0, 0, 30)]);
    assert_eq!(r, pt(2, 0, 0, 30));
}

#[test]
fn sort_is_stable_by_time() {
    let mut v = vec![pt(1, 0, 0, 30), pt(2, 0, 0, 10), pt(3, 0, 0, 30), pt(4, 0, 0, 10)];
    PositionTime::quick_sort(&mut v);
    assert_eq!(v, vec![pt(2, 0, 0, 10), pt(4, 0, 0, 10), pt(1, 0, 0, 30), pt(3, 0, 0, 30)]);
}

#[test]
fn estimate_of_nothing_is_none() {
    assert_eq!(PositionTime::return_valid_pos_time(vec![], EstimationType::Average), None);
    assert_eq!(PositionTime::return_valid_pos_time(vec![], EstimationType::Median), None);
    assert_eq!(PositionTime::return_valid_pos_time(vec![], EstimationType::Recent), None);
}

#[test]
fn estimate_follows_the_method() {
    let v = vec![pt(10, 0, 0, 10), pt(20, 0, 0, 40), pt(60, 0, 0, 20)];
    assert_eq!(PositionTime::return_valid_pos_time(v.clone(), EstimationType::Average), Some(pt(30, 0, 0, 23)));
    assert_eq!(PositionTime::return_valid_pos_time(v.clone(), EstimationType::Median), Some(pt(60, 0, 0, 20)));
    assert_eq!(PositionTime::return_valid_pos_time(v, EstimationType::Recent), Some(pt(20, 0, 0, 40)));
}

#[test]
fn new_and_update() {
    let mut p = PositionTime::new();
    assert_eq!(p, pt(0, 0, 0, 0));
    p.update(1, 2, 3, 4);
    assert_eq!(p, pt(1, 2, 3, 4));
}

#[test]
fn median_ignores_input_order_for_distinct_times() {
    let a = pt(10, 0, 0, 40);
    let b = pt(20, 0, 0, 10);
    let c = pt(30, 0, 0, 20);
    let d = pt(40, 0, 0, 30);
    let expected = PositionTime::median(vec![a, b, c, d]);
    assert_eq!(PositionTime::median(vec![d, c, b, a]), expected);
    assert_eq!(PositionTime::median(vec![c, a, d, b]), expected);
    assert_eq!(expected, pt(35, 0, 0, 25));
}
