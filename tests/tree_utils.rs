use offset_list::{lte, ranges_within, Range, LAST_RANGE_END};

#[test]
fn test_ranges_within() {
    let mut tree: Vec<(u32, u32)> = Vec::new();
    tree.push((0, 10));

    let ranges = ranges_within(&tree, 5, 20);

    assert_eq!(ranges[..], [Range::new(0, LAST_RANGE_END, 10)]);
}

#[test]
fn test_ranges_within2() {
    let mut tree: Vec<(u32, u32)> = Vec::new();
    tree.push((0, 10));
    tree.push((5, 20));
    tree.push((10, 8));
    tree.push((20, 30));

    let ranges = ranges_within(&tree, 6, 27);

    assert_eq!(
        ranges[..],
        [
            Range::new(5, 9, 20),
            Range::new(10, 19, 8),
            Range::new(20, LAST_RANGE_END, 30),
        ]
    )
}

#[test]
fn ranges_within_cuts_last_run_at_window_end() {
    let tree: Vec<(u32, u32)> = vec![(0, 10), (5, 20), (10, 8), (20, 30)];
    let ranges = ranges_within(&tree, 0, 7);
    assert_eq!(ranges[..], [Range::new(0, 4, 10), Range::new(5, LAST_RANGE_END, 20)]);
}

#[test]
fn ranges_within_single_key_window() {
    let tree: Vec<(u32, u32)> = vec![(0, 10), (5, 20)];
    let ranges = ranges_within(&tree, 5, 5);
    assert_eq!(ranges[..], [Range::new(5, LAST_RANGE_END, 20)]);
}

#[test]
fn lte_finds_run_holding_key() {
    let tree: Vec<(u32, u32)> = vec![(0, 10), (5, 20), (10, 8), (20, 30)];
    assert_eq!(lte(&tree, 0), (0, 10));
    assert_eq!(lte(&tree, 4), (0, 10));
    assert_eq!(lte(&tree, 5), (5, 20));
    assert_eq!(lte(&tree, 19), (10, 8));
    assert_eq!(lte(&tree, u32::MAX), (20, 30));
}
