use oner_quantize::iter::{count_distinct, frequency_count};

#[test]
fn test_count_distinct() {
    assert_eq!(0, count_distinct::<u8>(&[]));
    assert_eq!(1, count_distinct(&[0]));
    assert_eq!(1, count_distinct(&[0, 0]));
    assert_eq!(2, count_distinct(&[0, 1, 0]));
}

#[test]
fn frequency_count_keeps_first_seen_order() {
    let counts = frequency_count(&["b", "a", "b", "c", "a", "b"]);
    assert_eq!(counts, vec![("b", 3), ("a", 2), ("c", 1)]);
}

#[test]
fn frequency_count_of_nothing_is_empty() {
    let counts = frequency_count::<u32>(&[]);
    assert!(counts.is_empty());
}
