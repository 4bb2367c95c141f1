use oner_quantize::interval::merge_neighbours_with_same_class;
use oner_quantize::Interval;

#[test]
fn lower_interval_holds_values_below_its_bound() {
    let interval = Interval::lower(100, "true");
    assert_eq!(interval.matches(25), true);
    assert_eq!(interval.matches(100), false);
    assert_eq!(interval.matches(125), false);
}

#[test]
fn upper_interval_holds_its_bound_and_above() {
    let interval = Interval::upper(100, "true");
    assert_eq!(interval.matches(99), false);
    assert_eq!(interval.matches(100), true);
    assert_eq!(interval.matches(i64::MAX), true);
}

#[test]
fn range_boundaries_are_half_open() {
    let interval = Interval::Range { from: 10, below: 100, class: "b" };
    assert_eq!(interval.matches(10), true);
    assert_eq!(interval.matches(99), true);
    assert_eq!(interval.matches(100), false);
    assert_eq!(interval.matches(9), false);
}

#[test]
fn infinite_interval_holds_every_value() {
    let interval: Interval<i64, &str> = Interval::Infinite { class: "x" };
    assert!(interval.matches(i64::MIN));
    assert!(interval.matches(0));
    assert!(interval.matches(i64::MAX));
}

#[test]
fn class_is_read_from_every_shape() {
    assert_eq!(*Interval::lower(1, "a").class(), "a");
    assert_eq!(*Interval::upper(1, "b").class(), "b");
    assert_eq!(*Interval::Range { from: 1, below: 2, class: "c" }.class(), "c");
    assert_eq!(*Interval::<i64, &str>::Infinite { class: "d" }.class(), "d");
}

#[test]
fn merge_follows_the_table() {
    let lower = Interval::lower(10, "a");
    let range = Interval::Range { from: 10, below: 20, class: "a" };
    let next = Interval::Range { from: 20, below: 30, class: "a" };
    let upper = Interval::upper(30, "a");
    assert_eq!(lower.merge(&range), Interval::lower(20, "a"));
    assert_eq!(lower.merge(&Interval::upper(10, "a")), Interval::Infinite { class: "a" });
    assert_eq!(range.merge(&next), Interval::Range { from: 10, below: 30, class: "a" });
    assert_eq!(next.merge(&upper), Interval::upper(20, "a"));
}

#[test]
fn neighbours_of_one_class_are_merged() {
    let intervals = vec![
        Interval::lower(10, "a"),
        Interval::Range { from: 10, below: 20, class: "a" },
        Interval::Range { from: 20, below: 30, class: "b" },
        Interval::upper(30, "b"),
    ];
    let merged = merge_neighbours_with_same_class(&intervals);
    assert_eq!(merged, vec![Interval::lower(20, "a"), Interval::upper(20, "b")]);
    assert_eq!(Interval::merge_neighbours_with_same_class(&intervals), merged);
}

#[test]
fn neighbours_all_of_one_class_merge_into_infinite() {
    let intervals = vec![
        Interval::lower(10, 7u8),
        Interval::Range { from: 10, below: 20, class: 7u8 },
        Interval::upper(20, 7u8),
    ];
    assert_eq!(merge_neighbours_with_same_class(&intervals), vec![Interval::Infinite { class: 7u8 }]);
}

#[test]
fn neighbours_that_differ_are_kept() {
    let intervals = vec![
        Interval::lower(10, "a"),
        Interval::Range { from: 10, below: 20, class: "b" },
        Interval::upper(20, "a"),
    ];
    assert_eq!(merge_neighbours_with_same_class(&intervals), intervals);
    let empty: Vec<Interval<i64, &str>> = Vec::new();
    assert!(merge_neighbours_with_same_class(&empty).is_empty());
}
