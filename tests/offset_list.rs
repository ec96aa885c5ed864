use offset_list::{Item, OffsetError, OffsetList};

#[test]
fn test_initial_offset_insert() {
    let mut list: OffsetList = OffsetList::new();
    list.insert(0, 0, 10).unwrap();

    let values: Vec<u32> = list.offset_values();
    let keys: Vec<u32> = list.offset_keys();
    assert_eq!(values, [0]);
    assert_eq!(keys, [0]);
}

#[test]
fn test_second_offset_insert() {
    let mut list: OffsetList = OffsetList::new();
    list.insert(0, 0, 10).unwrap();
    list.insert(3, 7, 20).unwrap();

    let values: Vec<u32> = list.offset_values();
    let keys: Vec<u32> = list.offset_keys();
    assert_eq!(keys, [0, 3, 8]);
    assert_eq!(values, [0, 30, 130]);
}

#[test]
fn test_in_between_insert() {
    let mut list: OffsetList = OffsetList::new();
    list.insert(0, 0, 1).unwrap();
    list.insert(9, 10, 2).unwrap();
    list.insert(3, 7, 3).unwrap();

    let values: Vec<u32> = list.offset_values();
    let keys: Vec<u32> = list.offset_keys();
    assert_eq!(keys, [0, 3, 8, 9, 11]);
    assert_eq!(values, [0, 3, 18, 19, 23]);
}

#[test]
fn test_overlap_insert() {
    let mut list: OffsetList = OffsetList::new();
    list.insert(0, 0, 1).unwrap();
    list.insert(3, 7, 2).unwrap();
    list.insert(2, 9, 3).unwrap();

    let values: Vec<u32> = list.offset_values();
    let keys: Vec<u32> = list.offset_keys();
    assert_eq!(keys, [0, 2, 10]);
    assert_eq!(values, [0, 2, 26]);
}

#[test]
fn test_initial_insert() {
    let mut list: OffsetList = OffsetList::new();
    list.insert(0, 0, 10).unwrap();

    let values: Vec<u32> = list.size_values();
    let keys: Vec<u32> = list.size_keys();
    assert_eq!(values, [10]);
    assert_eq!(keys, [0]);
}

#[test]
fn test_same_insert() {
    let mut list: OffsetList = OffsetList::new();
    list.insert(0, 0, 10).unwrap();
    list.insert(1, 1, 10).unwrap();
    list.insert(20, 21, 10).unwrap();

    let values: Vec<u32> = list.size_values();
    let keys: Vec<u32> = list.size_keys();
    assert_eq!(values, [10]);
    assert_eq!(keys, [0]);
}

#[test]
fn re_insert_at_start() {
    let mut list: OffsetList = OffsetList::new();
    list.insert(0, 0, 5).unwrap();
    list.insert(0, 0, 10).unwrap();

    let values: Vec<u32> = list.size_values();
    let keys: Vec<u32> = list.size_keys();
    assert_eq!(values, [10, 5]);
    assert_eq!(keys, [0, 1]);
}

#[test]
fn test_new_insert() {
    let mut list: OffsetList = OffsetList::new();
    list.insert(0, 0, 10).unwrap();
    list.insert(3, 5, 20).unwrap();

    let values: Vec<u32> = list.size_values();
    let keys: Vec<u32> = list.size_keys();
    assert_eq!(values, [10, 20, 10]);
    assert_eq!(keys, [0, 3, 6]);
}

#[test]
fn test_join_start() {
    let mut list: OffsetList = OffsetList::new();
    list.insert(0, 0, 10).unwrap();
    list.insert(3, 5, 20).unwrap();
    list.insert(5, 7, 20).unwrap();

    let values: Vec<u32> = list.size_values();
    let keys: Vec<u32> = list.size_keys();
    assert_eq!(values, [10, 20, 10]);
    assert_eq!(keys, [0, 3, 8]);
}

#[test]
fn test_join_end() {
    let mut list: OffsetList = OffsetList::new();
    list.insert(0, 0, 10).unwrap();
    list.insert(5, 7, 20).unwrap();
    list.insert(3, 5, 20).unwrap();

    let values: Vec<u32> = list.size_values();
    let keys: Vec<u32> = list.size_keys();
    assert_eq!(values, [10, 20, 10]);
    assert_eq!(keys, [0, 3, 8]);
}

#[test]
fn test_override() {
    let mut list: OffsetList = OffsetList::new();
    list.insert(0, 0, 10).unwrap();
    list.insert(5, 7, 20).unwrap();
    list.insert(4, 7, 30).unwrap();

    let values: Vec<u32> = list.size_values();
    let keys: Vec<u32> = list.size_keys();
    assert_eq!(keys, [0, 4, 8]);
    assert_eq!(values, [10, 30, 10]);
}

#[test]
fn test_join_override() {
    let mut list: OffsetList = OffsetList::new();

    list.insert(0, 0, 5).unwrap();
    list.insert(4, 5, 10).unwrap();
    list.insert(6, 7, 20).unwrap();
    list.insert(3, 8, 5).unwrap();

    let values: Vec<u32> = list.size_values();
    let keys: Vec<u32> = list.size_keys();
    assert_eq!(keys, [0]);
    assert_eq!(values, [5]);
}

#[test]
fn test_insert_sports() {
    let mut list: OffsetList = OffsetList::new();

    list.insert_spots(vec![0, 10, 20], 5).unwrap();

    let values: Vec<u32> = list.size_values();
    let keys: Vec<u32> = list.size_keys();
    assert_eq!(keys, [0, 1, 10, 11, 20, 21]);
    assert_eq!(values, [5, 0, 5, 0, 5, 0]);

    let values: Vec<u32> = list.offset_values();
    let keys: Vec<u32> = list.offset_keys();
    assert_eq!(keys, [0, 1, 10, 11, 20, 21]);
    assert_eq!(values, [0, 5, 5, 10, 10, 15]);
}

#[test]
fn test_insert_size_after_spot() {
    let mut list: OffsetList = OffsetList::new();

    list.insert_spots(vec![0, 10, 20], 5).unwrap();
    list.insert(1, 5, 10).unwrap();

    let values: Vec<u32> = list.size_values();
    let keys: Vec<u32> = list.size_keys();
    assert_eq!(keys, [0, 1, 10, 11, 20, 21]);
    assert_eq!(values, [5, 10, 5, 10, 5, 10]);
}

#[test]
fn test_offset_of() {
    let mut list: OffsetList = OffsetList::new();
    list.insert(0, 0, 1).unwrap();
    list.insert(2, 4, 2).unwrap();

    assert_eq!(list.offset_of(7), 10);
}

#[test]
fn test_total() {
    let mut list: OffsetList = OffsetList::new();
    list.insert(0, 0, 1).unwrap();
    list.insert(2, 4, 2).unwrap();

    assert_eq!(list.total(7), 11);
}

#[test]
fn test_item_at() {
    let mut list: OffsetList = OffsetList::new();
    list.insert(0, 0, 1).unwrap();
    list.insert(2, 4, 2).unwrap();

    let item = list.item_at(10);
    assert_eq!(item.size, 1);
    assert_eq!(item.offset, 13);
    assert_eq!(item.index, 10);
}

#[test]
fn test_index_range() {
    let mut list: OffsetList = OffsetList::new();
    list.insert(0, 0, 1).unwrap();
    list.insert(2, 4, 2).unwrap();

    let items: Vec<Item> = list.index_range(3, 6);
    assert_eq!(items.len(), 4);

    let item = items.get(0).expect("Item 0 is here");
    assert_eq!(item.index, 3);
    assert_eq!(item.size, 2);

    let item = items.get(3).expect("Item 0 is here");
    assert_eq!(item.index, 6);
    assert_eq!(item.size, 1);
}

#[test]
fn test_range() {
    let mut list: OffsetList = OffsetList::new();
    list.insert(0, 0, 10).unwrap();
    list.insert(2, 4, 20).unwrap();

    let items: Vec<Item> = list.range(13, 79, 0, u32::MAX);
    assert_eq!(items.len(), 4);

    let item = items.get(0).expect("Item is here");
    assert_eq!(item.index, 1);
    assert_eq!(item.size, 10);
    assert_eq!(item.offset, 10);

    let item = items.get(1).expect("Item is here");
    assert_eq!(item.index, 2);
    assert_eq!(item.size, 20);
    assert_eq!(item.offset, 20);

    let item = items.get(2).expect("Item is here");
    assert_eq!(item.index, 3);
    assert_eq!(item.size, 20);
    assert_eq!(item.offset, 40);

    let item = items.get(3).expect("Item is here");
    assert_eq!(item.index, 4);
    assert_eq!(item.size, 20);
    assert_eq!(item.offset, 60);
}

fn two_runs() -> OffsetList {
    let mut list: OffsetList = OffsetList::new();
    list.insert(0, 0, 1).unwrap();
    list.insert(2, 4, 2).unwrap();
    list
}

#[test]
fn reinsert_is_idempotent() {
    let mut once: OffsetList = OffsetList::new();
    once.insert(0, 0, 10).unwrap();
    once.insert(3, 7, 20).unwrap();
    once.insert(5, 12, 30).unwrap();
    let mut twice: OffsetList = OffsetList::new();
    twice.insert(0, 0, 10).unwrap();
    twice.insert(3, 7, 20).unwrap();
    twice.insert(5, 12, 30).unwrap();
    twice.insert(5, 12, 30).unwrap();
    assert_eq!(once.size_keys(), twice.size_keys());
    assert_eq!(once.size_values(), twice.size_values());
    assert_eq!(twice.size_keys(), [0, 3, 5, 13]);
    assert_eq!(twice.size_values(), [10, 20, 30, 10]);
}

#[test]
fn adjacent_runs_differ_in_size() {
    let mut list: OffsetList = OffsetList::new();
    list.insert(0, 0, 5).unwrap();
    list.insert(4, 9, 7).unwrap();
    list.insert(2, 3, 7).unwrap();
    list.insert(10, 12, 5).unwrap();
    list.insert(20, 30, 9).unwrap();
    list.insert(15, 25, 5).unwrap();
    let values = list.size_values();
    assert_eq!(list.size_keys(), [0, 2, 10, 26, 31]);
    assert_eq!(values, [5, 7, 5, 9, 5]);
    for w in values.windows(2) {
        assert_ne!(w[0], w[1]);
    }
}

#[test]
fn offsets_follow_sizes() {
    let mut list: OffsetList = OffsetList::new();
    list.insert(0, 0, 3).unwrap();
    list.insert(4, 9, 7).unwrap();
    list.insert(12, 12, 1).unwrap();
    let keys = list.size_keys();
    let sizes = list.size_values();
    let offsets = list.offset_values();
    assert_eq!(keys, list.offset_keys());
    assert_eq!(offsets, [0, 12, 54, 60, 61]);
    for j in 1..keys.len() {
        assert_eq!(offsets[j], offsets[j - 1] + (keys[j] - keys[j - 1]) * sizes[j - 1]);
        assert!(offsets[j] >= offsets[j - 1]);
    }
}

#[test]
fn pixel_index_inverts_offsets() {
    let mut list: OffsetList = OffsetList::new();
    list.insert(0, 0, 1).unwrap();
    list.insert(9, 10, 2).unwrap();
    list.insert(3, 7, 3).unwrap();
    list.insert(3, 5, 4).unwrap();
    let keys = list.offset_keys();
    let offsets = list.offset_values();
    let pixels = list.pixel_entries();
    assert_eq!(pixels.len(), keys.len());
    for j in 0..keys.len() {
        assert_eq!(pixels[j], (offsets[j], keys[j]));
    }
}

#[test]
fn total_is_offset_plus_size() {
    for i in [0u32, 1, 2, 4, 5, 7, 100] {
        let size = two_runs().item_at(i).size;
        assert_eq!(two_runs().total(i), two_runs().offset_of(i) + size);
    }
    assert_eq!(two_runs().offset_of(3), 4);
    assert_eq!(two_runs().total(3), 6);
    assert_eq!(two_runs().offset_of(5), 8);
}

#[test]
fn insert_reports_overflow_and_keeps_list() {
    let mut list: OffsetList = OffsetList::new();
    list.insert(0, 0, 10).unwrap();
    assert_eq!(list.insert(0, 500_000_000, 20), Err(OffsetError::Overflow));
    assert_eq!(list.size_keys(), [0]);
    assert_eq!(list.size_values(), [10]);
    assert_eq!(list.offset_values(), [0]);
}

#[test]
fn insert_spots_reports_overflow() {
    let mut list: OffsetList = OffsetList::new();
    assert_eq!(list.insert_spots(vec![0, 2], 3_000_000_000), Err(OffsetError::Overflow));
    assert_eq!(list.size_keys(), Vec::<u32>::new());
}

#[test]
fn update_offset_tree_keeps_consistent_offsets() {
    let mut list: OffsetList = OffsetList::new();
    list.insert(0, 0, 10).unwrap();
    list.insert(3, 7, 20).unwrap();
    list.update_offset_tree(5).unwrap();
    assert_eq!(list.offset_values(), [0, 30, 130]);
}

#[test]
fn index_range_on_empty_list() {
    let list: OffsetList = OffsetList::new();
    assert_eq!(list.index_range(3, 6), vec![Item { index: 0, size: 0, offset: 0 }]);
}

#[test]
fn index_range_reversed_window_in_one_run() {
    let list = two_runs();
    assert_eq!(list.index_range(7, 6), Vec::<Item>::new());
}

#[test]
fn index_range_across_three_runs() {
    let list = two_runs();
    let sizes: Vec<u32> = list.index_range(0, 6).iter().map(|i| i.size).collect();
    assert_eq!(sizes, [1, 1, 2, 2, 2, 1, 1]);
}

#[test]
fn placeholders_collapse_when_sizes_match() {
    let mut list: OffsetList = OffsetList::new();
    list.insert_spots(vec![0, 10, 20], 5).unwrap();
    list.insert(1, 1, 5).unwrap();
    assert_eq!(list.size_keys(), [0]);
    assert_eq!(list.size_values(), [5]);
    assert_eq!(list.offset_values(), [0]);
}

#[test]
fn range_stops_at_placeholder() {
    let mut list: OffsetList = OffsetList::new();
    list.insert_spots(vec![0, 10], 5).unwrap();
    let items = list.range(0, 10, 0, u32::MAX);
    assert_eq!(
        items,
        vec![Item { index: 0, size: 5, offset: 0 }, Item { index: 1, size: 0, offset: 5 }]
    );
}

#[test]
fn range_respects_index_window() {
    let mut list: OffsetList = OffsetList::new();
    list.insert(0, 0, 10).unwrap();
    list.insert(20, 20, 5).unwrap();
    let items = list.range(0, 100, 3, 5);
    let found: Vec<(u32, u32)> = items.iter().map(|i| (i.index, i.offset)).collect();
    assert_eq!(found, [(3, 30), (4, 40), (5, 50)]);
}

#[test]
fn remove_index_drops_run_from_all_trees() {
    let mut list: OffsetList = OffsetList::new();
    list.insert(0, 0, 10).unwrap();
    list.insert(3, 7, 20).unwrap();
    list.remove_index(&3);
    assert_eq!(list.size_keys(), [0, 8]);
    assert_eq!(list.offset_keys(), [0, 8]);
    assert_eq!(list.offset_values(), [0, 130]);
    assert_eq!(list.pixel_entries(), [(0, 0), (130, 8)]);
}

#[test]
fn index_range_reversed_window_across_runs() {
    let list = two_runs();
    assert_eq!(list.index_range(6, 1), Vec::<Item>::new());
}

#[test]
fn offset_fits_detects_overflow() {
    let mut list: OffsetList = OffsetList::new();
    list.insert(0, 0, 10).unwrap();
    assert!(list.offset_fits(3, true));
    assert!(list.offset_fits(429_496_729, false));
    assert!(!list.offset_fits(429_496_729, true));
    assert!(!list.offset_fits(500_000_000, false));
}

#[test]
fn next_item_starts_where_item_ends() {
    for i in [0u32, 1, 4, 5, 9] {
        assert_eq!(two_runs().total(i), two_runs().offset_of(i + 1));
    }
}

#[test]
fn sizing_placeholders_lays_out_all_offsets() {
    let mut list: OffsetList = OffsetList::new();
    list.insert_spots(vec![0, 10], 5).unwrap();
    list.insert(11, 11, 7).unwrap();
    assert_eq!(list.size_keys(), [0, 1, 10, 11]);
    assert_eq!(list.size_values(), [5, 7, 5, 7]);
    assert_eq!(list.offset_values(), [0, 5, 68, 73]);
}

#[test]
fn range_lists_items_before_placeholder() {
    let mut list: OffsetList = OffsetList::new();
    list.insert_spots(vec![0, 10], 5).unwrap();
    list.insert(11, 11, 7).unwrap();
    list.insert(20, 20, 0).unwrap();
    let items = list.range(60, 100, 0, u32::MAX);
    let found: Vec<(u32, u32, u32)> = items.iter().map(|i| (i.index, i.size, i.offset)).collect();
    assert_eq!(
        found,
        [
            (8, 7, 54),
            (9, 7, 61),
            (10, 5, 68),
            (11, 7, 73),
            (12, 7, 80),
            (13, 7, 87),
            (14, 7, 94),
            (20, 0, 136),
        ]
    );
}

#[test]
fn insert_up_to_unbounded_end() {
    let mut list: OffsetList = OffsetList::new();
    list.insert(0, 0, 10).unwrap();
    list.insert(3, 7, 30).unwrap();
    list.insert(5, u32::MAX, 20).unwrap();
    assert_eq!(list.size_keys(), [0, 3, 5]);
    assert_eq!(list.size_values(), [10, 30, 20]);
    assert_eq!(list.offset_values(), [0, 30, 90]);
}
