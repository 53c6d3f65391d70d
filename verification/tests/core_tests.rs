use range_buckets::allocator::{create_bucket_allocator, pairwise};
use range_buckets::coordinator::{run_allocators, split_lines_by_color};
use range_buckets::intervals::IntervalIndex;
use range_buckets::selector::{CountTable, MaxSelector};

fn red_balls() -> Vec<(i32, String, i64, i64)> {
    vec![
        (1, "red".to_string(), 0, 10),
        (2, "red".to_string(), 5, 15),
        (3, "red".to_string(), 20, 30),
    ]
}

#[test]
fn scenario_red_first_bucket() {
    let mut alloc = create_bucket_allocator(red_balls(), "red".to_string());
    assert!(alloc.has_ranges_left());
    // Endpoints sorted: 0, 5, 10, 15, 20, 30.
    assert_eq!(alloc.range_points, vec![0, 5, 10, 15, 20, 30]);
    // The densest sub-range is (5, 10) with two covering balls.
    let peeked = alloc.peek().unwrap();
    assert_eq!(peeked.0, (5, 10));
    assert_eq!(peeked.1, 2);
    let (count, color, mut ids) = alloc.return_bucket_label();
    assert_eq!(count, 2);
    assert_eq!(color, "red".to_string());
    ids.sort();
    assert_eq!(ids, vec![1, 2]);
    // After consumption, (0,5) and (10,15) drop to 0; (20,30) remains at 1.
    let table = &alloc.intersect_range_counts.entries;
    assert!(table.contains(&((0, 5), 0)));
    assert!(table.contains(&((10, 15), 0)));
    assert!(table.contains(&((20, 30), 1)));
}

#[test]
fn scenario_red_initial_counts() {
    let alloc = create_bucket_allocator(red_balls(), "red".to_string());
    let table = &alloc.intersect_range_counts.entries;
    assert!(table.contains(&((0, 5), 1)));
    assert!(table.contains(&((5, 10), 2)));
    assert!(table.contains(&((10, 15), 1)));
    assert!(table.contains(&((15, 20), 0)));
    assert!(table.contains(&((20, 30), 1)));
    assert_eq!(table.len(), 5);
}

#[test]
fn scenario_two_colors_first_round() {
    let mut lines = red_balls();
    lines.push((4, "blue".to_string(), 2, 8));
    let groups = split_lines_by_color(lines);
    assert_eq!(groups.len(), 2);
    let buckets = run_allocators(groups, 1);
    // Red's (5,10)/count-2 beats blue's single sub-range (2,8)/count-1.
    assert_eq!(buckets.len(), 1);
    assert_eq!(buckets[0].color, "red".to_string());
    assert_eq!(buckets[0].count, 2);
    assert_eq!((buckets[0].low, buckets[0].high), (5, 10));
    let mut ids = buckets[0].ball_ids.clone();
    ids.sort();
    assert_eq!(ids, vec![1, 2]);
}

#[test]
fn single_ball_color() {
    let balls = vec![(7, "green".to_string(), 3, 9)];
    let mut alloc = create_bucket_allocator(balls, "green".to_string());
    // One distinct endpoint pair produces one sub-range, the ball's own range.
    assert_eq!(alloc.len(), 1);
    let peeked = alloc.peek().unwrap();
    assert_eq!(peeked.0, (3, 9));
    assert_eq!(peeked.1, 1);
    let (count, color, ids) = alloc.return_bucket_label();
    assert_eq!(count, 1);
    assert_eq!(color, "green".to_string());
    assert_eq!(ids, vec![7]);
    assert!(!alloc.has_ranges_left());
    assert_eq!(alloc.ball_range_tree.entries.len(), 0);
}

#[test]
fn zero_buckets_returns_empty() {
    let groups = split_lines_by_color(red_balls());
    let buckets = run_allocators(groups, 0);
    assert_eq!(buckets.len(), 0);
}

#[test]
fn empty_color_group_reports_exhausted() {
    let alloc = create_bucket_allocator(Vec::new(), "violet".to_string());
    assert!(!alloc.has_ranges_left());
    assert_eq!(alloc.len(), 0);
    assert!(alloc.peek().is_none());
}

#[test]
fn has_ranges_left_is_idempotent() {
    let alloc = create_bucket_allocator(red_balls(), "red".to_string());
    let first = alloc.has_ranges_left();
    let second = alloc.has_ranges_left();
    let third = alloc.has_ranges_left();
    assert_eq!(first, second);
    assert_eq!(second, third);
}

#[test]
fn single_color_counts_non_increasing() {
    let mut alloc = create_bucket_allocator(red_balls(), "red".to_string());
    let mut counts = Vec::new();
    while alloc.has_ranges_left() {
        let (count, _, _) = alloc.return_bucket_label();
        counts.push(count);
    }
    assert_eq!(counts.len(), 5);
    for w in counts.windows(2) {
        assert!(w[0] >= w[1]);
    }
    assert_eq!(counts[0], 2);
    assert_eq!(counts[1], 1);
}

#[test]
fn no_ball_id_in_two_buckets() {
    let mut alloc = create_bucket_allocator(red_balls(), "red".to_string());
    let mut all_ids: Vec<i32> = Vec::new();
    while alloc.has_ranges_left() {
        let (_, _, mut ids) = alloc.return_bucket_label();
        all_ids.append(&mut ids);
    }
    assert!(all_ids.len() <= 3);
    let mut sorted = all_ids.clone();
    sorted.sort();
    sorted.dedup();
    assert_eq!(sorted.len(), all_ids.len());
}

#[test]
fn exhaustion_cuts_run_short() {
    let groups = split_lines_by_color(red_balls());
    let buckets = run_allocators(groups, 100);
    // Five sub-ranges exist for red, so at most five buckets come out.
    assert_eq!(buckets.len(), 5);
    assert_eq!(buckets[0].count, 2);
    assert_eq!(buckets[1].count, 1);
}

#[test]
fn interval_index_overlap_query() {
    let mut index: IntervalIndex<i32> = IntervalIndex::new();
    index.insert(0, 10, 1);
    index.insert(5, 15, 2);
    index.insert(20, 30, 3);
    let hits = index.overlap(5, 10);
    let ids: Vec<i32> = hits.iter().map(|e| e.data).collect();
    assert_eq!(ids, vec![1, 2]);
    // Ranges that merely touch at an endpoint do not overlap.
    let touching = index.overlap(10, 20);
    let touch_ids: Vec<i32> = touching.iter().map(|e| e.data).collect();
    assert_eq!(touch_ids, vec![2]);
}

#[test]
fn interval_index_remove_overlap_idempotent() {
    let mut index: IntervalIndex<i32> = IntervalIndex::new();
    index.insert(0, 10, 1);
    index.insert(20, 30, 3);
    index.remove_overlap(5, 25);
    assert_eq!(index.len(), 0);
    index.remove_overlap(5, 25);
    assert_eq!(index.len(), 0);
    index.insert(40, 50, 4);
    index.remove_overlap(0, 10);
    assert_eq!(index.len(), 1);
}

#[test]
fn selector_pop_and_tie_break() {
    let mut sel = MaxSelector::new();
    sel.push((0, 5), 2);
    sel.push((5, 10), 3);
    sel.push((10, 15), 3);
    sel.push((15, 20), 1);
    // First-seen wins ties: (5,10) beats (10,15).
    assert_eq!(sel.peek_max().unwrap(), ((5, 10), 3));
    assert_eq!(sel.pop_max(), ((5, 10), 3));
    assert_eq!(sel.pop_max(), ((10, 15), 3));
    assert_eq!(sel.pop_max(), ((0, 5), 2));
    assert_eq!(sel.pop_max(), ((15, 20), 1));
    assert!(sel.is_empty());
}

#[test]
fn selector_reprioritize_decreases_key() {
    let mut sel = MaxSelector::new();
    sel.push((0, 5), 4);
    sel.push((5, 10), 3);
    sel.reprioritize((0, 5), 1);
    assert_eq!(sel.pop_max(), ((5, 10), 3));
    assert_eq!(sel.pop_max(), ((0, 5), 1));
}

#[test]
fn count_table_get_and_set() {
    let mut table = CountTable::new();
    table.set((0, 5), 2);
    table.set((5, 10), 7);
    assert_eq!(table.get((0, 5)), 2);
    table.set((0, 5), 1);
    assert_eq!(table.get((0, 5)), 1);
    assert_eq!(table.get((5, 10)), 7);
    assert_eq!(table.entries.len(), 2);
}

#[test]
fn split_lines_by_color_groups_in_order() {
    let lines = vec![
        (1, "red".to_string(), 0, 10),
        (4, "blue".to_string(), 2, 8),
        (2, "red".to_string(), 5, 15),
    ];
    let groups = split_lines_by_color(lines);
    assert_eq!(groups.len(), 2);
    assert_eq!(groups[0].0, "red".to_string());
    assert_eq!(groups[1].0, "blue".to_string());
    assert_eq!(groups[0].1.len(), 2);
    assert_eq!(groups[0].1[0].0, 1);
    assert_eq!(groups[0].1[1].0, 2);
    assert_eq!(groups[1].1.len(), 1);
    assert_eq!(groups[1].1[0].0, 4);
}

#[test]
fn pairwise_consecutive_pairs() {
    let pairs = pairwise(vec![0i64, 5, 10, 15]);
    assert_eq!(pairs, vec![(0, 5), (5, 10), (10, 15)]);
    let empty = pairwise(Vec::<i64>::new());
    assert_eq!(empty.len(), 0);
    let single = pairwise(vec![3i64]);
    assert_eq!(single.len(), 0);
}

#[test]
fn count_equals_live_overlap_after_consume() {
    // After each consumption, every live sub-range's count equals the number
    // of balls still indexed that overlap it, re-queried directly.
    let mut alloc = create_bucket_allocator(red_balls(), "red".to_string());
    let _ = alloc.return_bucket_label();
    for (key, priority) in alloc.priority_queue.entries.iter() {
        let live = alloc.ball_range_tree.overlap(key.0, key.1).len() as i32;
        assert_eq!(*priority, live);
        assert_eq!(alloc.intersect_range_counts.get(*key), live);
    }
}

#[test]
fn new_assembles_empty_allocator() {
    let alloc: range_buckets::allocator::CountRangeGreedyAllocator<i32> =
        range_buckets::allocator::CountRangeGreedyAllocator::new(
            "amber".to_string(),
            IntervalIndex::new(),
            IntervalIndex::new(),
            CountTable::new(),
            Vec::new(),
            MaxSelector::new(),
        );
    assert_eq!(alloc.color, "amber".to_string());
    assert_eq!(alloc.len(), 0);
    assert!(!alloc.has_ranges_left());
}

#[test]
fn degenerate_ball_yields_no_sub_ranges() {
    // A ball whose range is a single point contributes one distinct
    // endpoint, so fewer than two endpoints exist and no sub-range forms.
    let balls = vec![(9, "gray".to_string(), 4, 4)];
    let alloc = create_bucket_allocator(balls, "gray".to_string());
    assert_eq!(alloc.len(), 0);
    assert!(!alloc.has_ranges_left());
    assert!(alloc.peek().is_none());
}
