use datetime_parse::distances::distinct_distances;

#[test]
fn counts_distinct_nonzero_scores() {
    let set = vec![("aaaaa", 0u32), ("bbbbb", 3), ("ccccc", 3), ("ddddd", 7), ("eeeee", 9), ("fffff", 9)];
    assert_eq!(3, distinct_distances(&set));
    assert_eq!(0, distinct_distances(&Vec::new()));
    assert_eq!(1, distinct_distances(&vec![("apple", 5)]));
}
