use oner_quantize::quantize::splits::{intervals_from_splits, trim_splits};
use oner_quantize::{find_intervals, find_intervals_in_sorted, Interval};

#[test]
fn three_way_split() {
    let attribute = vec![1, 10, 3, 1, 20, 30, 100];
    let classes = vec!["a", "b", "a", "a", "b", "b", "c"];
    let intervals = find_intervals(&attribute, &classes, 2);
    assert_eq!(
        intervals,
        vec![
            Interval::Lower { below: 10, class: "a" },
            Interval::Range { from: 10, below: 100, class: "b" },
            Interval::Upper { from: 100, class: "c" },
        ]
    );
}

#[test]
fn all_equal_values_give_one_infinite_interval() {
    let intervals = find_intervals(&[5, 5, 5], &["x", "y", "x"], 0);
    assert_eq!(intervals, vec![Interval::Infinite { class: "x" }]);
}

#[test]
fn all_equal_values_with_a_tie_take_the_class_seen_first() {
    let intervals = find_intervals(&[5, 5, 5, 5], &["y", "x", "x", "y"], 0);
    assert_eq!(intervals, vec![Interval::Infinite { class: "y" }]);
}

#[test]
fn empty_input_gives_no_interval() {
    let attribute: Vec<i64> = Vec::new();
    let classes: Vec<&str> = Vec::new();
    assert!(find_intervals(&attribute, &classes, 3).is_empty());
}

#[test]
fn golf_data_quantized_on_value_changes() {
    let attribute = vec![64, 65, 68, 69, 70, 71, 72, 72, 75, 75, 80, 81, 83, 85];
    let classes = vec!["p", "d", "p", "p", "p", "d", "p", "d", "p", "p", "d", "p", "p", "d"];
    let intervals = find_intervals(&attribute, &classes, 3);
    // Boundaries survive at 71 and 83; every segment then predicts "p".
    assert_eq!(intervals, vec![Interval::Infinite { class: "p" }]);
}

#[test]
fn every_value_falls_in_exactly_one_interval() {
    let attribute = vec![1, 10, 3, 1, 20, 30, 100];
    let classes = vec!["a", "b", "a", "a", "b", "b", "c"];
    let intervals = find_intervals(&attribute, &classes, 2);
    for v in -50..200 {
        let n = intervals.iter().filter(|i| i.matches(v)).count();
        assert_eq!(n, 1, "value {}", v);
    }
    for v in [i64::MIN, i64::MAX] {
        assert_eq!(intervals.iter().filter(|i| i.matches(v)).count(), 1);
    }
}

#[test]
fn neighbouring_intervals_predict_different_classes() {
    let attribute = vec![1, 2, 3, 4, 5, 6, 7, 8];
    let classes = vec!["a", "a", "b", "b", "a", "a", "b", "b"];
    let intervals = find_intervals(&attribute, &classes, 0);
    assert_eq!(
        intervals,
        vec![
            Interval::Lower { below: 3, class: "a" },
            Interval::Range { from: 3, below: 5, class: "b" },
            Interval::Range { from: 5, below: 7, class: "a" },
            Interval::Upper { from: 7, class: "b" },
        ]
    );
    for pair in intervals.windows(2) {
        assert_ne!(pair[0].class(), pair[1].class());
    }
}

#[test]
fn no_more_intervals_than_distinct_values_plus_one() {
    let attribute = vec![3, 1, 2, 1, 3, 2];
    let classes = vec![1u8, 2, 3, 2, 1, 3];
    let intervals = find_intervals(&attribute, &classes, 0);
    assert!(intervals.len() <= 3 + 1);
    assert_eq!(
        intervals,
        vec![
            Interval::Lower { below: 2, class: 2u8 },
            Interval::Range { from: 2, below: 3, class: 3u8 },
            Interval::Upper { from: 3, class: 1u8 },
        ]
    );
}

#[test]
fn threshold_zero_keeps_every_boundary() {
    let data = vec![(1, "a"), (2, "b"), (3, "a"), (4, "b")];
    assert_eq!(trim_splits(vec![1, 2, 3], 0, &data), vec![1, 2, 3]);
}

#[test]
fn trimming_drops_boundaries_without_a_dominant_class() {
    let data = vec![(1, "a"), (2, "b"), (3, "a"), (4, "b")];
    assert_eq!(trim_splits(vec![1, 2, 3], 1, &data), vec![3]);
    assert_eq!(trim_splits(vec![1, 2, 3], 2, &data), Vec::<usize>::new());
}

#[test]
fn intervals_from_splits_follow_the_boundaries() {
    let data = vec![(1, "a"), (2, "a"), (3, "b"), (4, "c"), (5, "c")];
    assert_eq!(
        intervals_from_splits(vec![2, 3], &data),
        vec![
            Interval::Lower { below: 3, class: "a" },
            Interval::Range { from: 3, below: 4, class: "b" },
            Interval::Upper { from: 4, class: "c" },
        ]
    );
    assert_eq!(
        intervals_from_splits(vec![2], &data),
        vec![Interval::Lower { below: 3, class: "a" }, Interval::Upper { from: 3, class: "c" }]
    );
    assert_eq!(intervals_from_splits(vec![], &data), vec![Interval::Infinite { class: "a" }]);
}

#[test]
fn most_frequent_class_tie_goes_to_the_class_seen_first() {
    assert_eq!(intervals_from_splits(vec![], &[(1, "x"), (2, "y")]), vec![Interval::Infinite { class: "x" }]);
    assert_eq!(intervals_from_splits(vec![], &[(1, "y"), (2, "x")]), vec![Interval::Infinite { class: "y" }]);
}

#[test]
fn sorted_observations_are_quantized_directly() {
    let sorted = vec![(1, "a"), (1, "a"), (3, "a"), (10, "b"), (20, "b"), (30, "b"), (100, "c")];
    assert_eq!(
        find_intervals_in_sorted(&sorted, 2),
        vec![
            Interval::Lower { below: 10, class: "a" },
            Interval::Range { from: 10, below: 100, class: "b" },
            Interval::Upper { from: 100, class: "c" },
        ]
    );
}

#[test]
fn unsorted_input_is_sorted_by_value_first() {
    let intervals = find_intervals(&[30, 10, 20, 40], &["b", "a", "a", "b"], 0);
    assert_eq!(intervals, vec![Interval::Lower { below: 30, class: "a" }, Interval::Upper { from: 30, class: "b" }]);
}
