use knn_ocr::idx::LabeledFeatures;
use knn_ocr::knn::{
    classify, distance2, features_comparable, k_nearest, knn, last_max_entry, mode, LabelIndex,
};

fn item(features: &[u8], label: u8) -> LabeledFeatures {
    LabeledFeatures { features: features.to_vec(), label }
}

#[test]
fn distance2_is_the_sum_of_squared_differences() {
    assert_eq!(distance2(&[1, 2, 3], &[4, 6, 3]), 9 + 16);
    assert_eq!(distance2(&[0, 255], &[255, 0]), 2 * 65025);
    assert_eq!(distance2(&[], &[]), 0);
}

#[test]
fn distance2_is_symmetric_and_zero_on_itself() {
    let a = [10u8, 200, 31, 0];
    let b = [250u8, 3, 31, 9];
    assert_eq!(distance2(&a, &b), distance2(&b, &a));
    assert_eq!(distance2(&a, &a), 0);
}

#[test]
fn mode_returns_first_entry_of_the_majority_label() {
    let v = [LabelIndex(3, 10), LabelIndex(5, 11), LabelIndex(5, 12), LabelIndex(3, 13), LabelIndex(5, 14)];
    assert_eq!(*mode(&v), LabelIndex(5, 11));
    let single = [LabelIndex(9, 4)];
    assert_eq!(*mode(&single), LabelIndex(9, 4));
}

#[test]
fn mode_on_a_tie_returns_the_first_entry_of_a_tied_label() {
    let v = [LabelIndex(1, 0), LabelIndex(2, 1), LabelIndex(2, 2), LabelIndex(1, 3)];
    let r = *mode(&v);
    assert!(r == LabelIndex(1, 0) || r == LabelIndex(2, 1));
}

#[test]
fn k_nearest_orders_by_distance_then_label_then_position() {
    let training = vec![
        item(&[10, 10], 4),
        item(&[0, 1], 7),
        item(&[1, 0], 2),
        item(&[0, 0], 5),
        item(&[1, 0], 2),
    ];
    let test = vec![0u8, 0];
    let r = k_nearest(&training, &test, 4);
    assert_eq!(r, vec![LabelIndex(5, 3), LabelIndex(2, 2), LabelIndex(2, 4), LabelIndex(7, 1)]);
}

#[test]
fn knn_picks_the_nearest_image_of_the_majority_label() {
    let training = vec![
        item(&[0, 0], 1),
        item(&[9, 9], 3),
        item(&[8, 8], 3),
        item(&[1, 1], 1),
        item(&[7, 7], 3),
    ];
    let test = vec![6u8, 6];
    assert_eq!(knn(&training, &test, 3), 4);
    assert_eq!(knn(&training, &test, 1), 4);
    let test = vec![0u8, 1];
    assert_eq!(knn(&training, &test, 3), 0);
}

#[test]
fn knn_with_one_neighbour_returns_the_nearest_image() {
    let training = vec![item(&[100], 0), item(&[50], 1), item(&[52], 2)];
    assert_eq!(knn(&training, &vec![51], 1), 1);
    assert_eq!(knn(&training, &vec![53], 1), 2);
}

#[test]
fn classify_returns_the_majority_label() {
    let training = vec![
        item(&[0, 0], 6),
        item(&[0, 2], 8),
        item(&[2, 0], 8),
        item(&[50, 50], 6),
    ];
    assert_eq!(classify(&training, &vec![0, 0], 3), 8);
    assert_eq!(classify(&training, &vec![0, 0], 1), 6);
}

#[test]
fn features_comparable_checks_lengths() {
    let training = vec![item(&[1, 2], 0), item(&[3, 4], 1)];
    assert!(features_comparable(&training, &vec![0, 0]));
    assert!(!features_comparable(&training, &vec![0, 0, 0]));
    assert!(!features_comparable(&vec![item(&[1], 0)], &vec![0, 0]));
}

#[test]
fn features_comparable_checks_that_distances_fit() {
    let long_zeros = vec![0u8; 40000];
    assert!(features_comparable(&vec![item(&long_zeros, 1)], &long_zeros));
    let long_full = vec![255u8; 40000];
    assert!(!features_comparable(&vec![item(&long_full, 1)], &long_zeros));
    let edge = vec![255u8; 33025];
    assert!(features_comparable(&vec![item(&edge, 1)], &vec![0u8; 33025]));
    let over = vec![255u8; 33026];
    assert!(!features_comparable(&vec![item(&over, 1)], &vec![0u8; 33026]));
}

#[test]
fn last_max_entry_picks_the_last_largest() {
    assert_eq!(last_max_entry(&[]), None);
    assert_eq!(last_max_entry(&[(1, 5)]), Some(0));
    assert_eq!(last_max_entry(&[(1, 2), (2, 7), (3, 7), (4, 1)]), Some(2));
    assert_eq!(last_max_entry(&[(1, 9), (2, 7), (3, 8)]), Some(0));
    let v = [(4u8, 3u64), (5, 3), (6, 1)];
    let expected = v.iter().enumerate().max_by_key(|(_, e)| e.1).map(|(i, _)| i);
    assert_eq!(last_max_entry(&v), expected);
}

#[test]
fn farther_image_leaves_the_answer() {
    let mut training = vec![item(&[0], 2), item(&[1], 2), item(&[2], 5), item(&[9], 5)];
    let before = knn(&training, &vec![0], 3);
    training.push(item(&[200], 5));
    assert_eq!(knn(&training, &vec![0], 3), before);
    assert_eq!(before, 0);
}
