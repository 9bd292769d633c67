use grbly::grbl::range_max::RangeMax;

#[test]
fn largest_of_every_range() {
    let values: Vec<u16> = vec![3, 1, 4, 1, 5, 9, 2, 6, 5, 3, 5];
    let tree = RangeMax::new(&values);
    for start in 0..=values.len() {
        for end in 0..=values.len() {
            let expected =
                if start < end { *values[start..end].iter().max().unwrap() } else { 0 };
            assert_eq!(tree.query(start, end), expected);
        }
    }
}

#[test]
fn nothing_is_largest_of_nothing() {
    let tree = RangeMax::new(&[]);
    assert_eq!(tree.query(0, 0), 0);
    assert_eq!(RangeMax::new(&[7]).query(0, 1), 7);
}

#[test]
fn neighbouring_ranges_join() {
    let values: Vec<u16> = vec![3, 1, 4, 1, 5, 9, 2, 6, 5, 3, 5];
    let tree = RangeMax::new(&values);
    for start in 0..=values.len() {
        for end in start..=values.len() {
            for mid in start..=end {
                let parts = tree.query(start, mid).max(tree.query(mid, end));
                assert_eq!(tree.query(start, end), parts);
            }
        }
    }
}
