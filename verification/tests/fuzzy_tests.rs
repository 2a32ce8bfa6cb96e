use fuzzy_tree::errors::FuzzyError;
use fuzzy_tree::fuzzy::{
    build_defuzz_table, centroid, defuzzify, membership_function, DEGREE_SCALE,
};

#[test]
fn defuzzify_symmetric_returns_center() {
    assert_eq!(defuzzify(2, 10), Ok(10));
    assert_eq!(defuzzify(1, -5), Ok(-5));
    assert_eq!(defuzzify(4, 4), Ok(4));
    assert_eq!(defuzzify(1000, 0), Ok(0));
}

#[test]
fn defuzzify_rejects_zero_half_width() {
    assert_eq!(defuzzify(0, 3), Err(FuzzyError::InvalidParameter));
    assert_eq!(defuzzify(0, 0), Err(FuzzyError::InvalidParameter));
}

#[test]
fn defuzzify_rejects_negative_half_width() {
    assert_eq!(defuzzify(-1, 3), Err(FuzzyError::InvalidParameter));
    assert_eq!(defuzzify(-100, -7), Err(FuzzyError::InvalidParameter));
}

#[test]
fn membership_peaks_at_center() {
    assert_eq!(membership_function(10, 2, 10), DEGREE_SCALE);
    assert_eq!(membership_function(-3, 7, -3), DEGREE_SCALE);
}

#[test]
fn membership_vanishes_at_and_beyond_half_width() {
    assert_eq!(membership_function(8, 2, 10), 0);
    assert_eq!(membership_function(12, 2, 10), 0);
    assert_eq!(membership_function(100, 2, 10), 0);
    assert_eq!(membership_function(-100, 2, 10), 0);
}

#[test]
fn membership_is_symmetric_and_falls_from_center() {
    let inner_left = membership_function(9, 2, 10);
    let inner_right = membership_function(11, 2, 10);
    assert_eq!(inner_left, inner_right);
    assert!(inner_left > 0);
    assert!(inner_left < DEGREE_SCALE);
    // the cubic matches the raised cosine exactly at the half point: 1/2
    assert_eq!(membership_function(9, 2, 10), DEGREE_SCALE / 2);
}

#[test]
fn table_covers_ascending_domain() {
    let t = build_defuzz_table(2, 10);
    let points: Vec<i64> = t.iter().map(|e| e.0).collect();
    assert_eq!(points, vec![8, 9, 10, 11, 12]);
    assert_eq!(t[0].1, 0);
    assert_eq!(t[2].1, DEGREE_SCALE);
    assert_eq!(t[4].1, 0);
    assert_eq!(t[1].1, t[3].1);
}

#[test]
fn centroid_is_the_rounded_weighted_mean() {
    assert_eq!(centroid(&vec![(0, 1), (10, 1)]), Ok(5));
    assert_eq!(centroid(&vec![(0, 1), (10, 3)]), Ok(8)); // 30 / 4 rounds up
    assert_eq!(centroid(&vec![(0, 1), (1, 1)]), Ok(1)); // half rounds away from zero
    assert_eq!(centroid(&vec![(0, 1), (-1, 1)]), Ok(-1));
    assert_eq!(centroid(&vec![(7, 5)]), Ok(7));
}

#[test]
fn centroid_rejects_zero_total_weight() {
    assert_eq!(centroid(&vec![]), Err(FuzzyError::InvalidParameter));
    assert_eq!(centroid(&vec![(5, 0), (9, 0)]), Err(FuzzyError::InvalidParameter));
}

#[test]
fn error_messages_name_the_failure() {
    assert_eq!(FuzzyError::MalformedInput.message(), "Invalid node format");
    assert_eq!(
        FuzzyError::InvalidParameter.message(),
        "Invalid fuzzy parameters"
    );
}
