use parallel_dictionary::partition;

#[test]
fn partition_splits_into_near_equal_chunks() {
    let chunks = partition(10, 3);
    let bounds: Vec<(usize, usize)> = chunks.iter().map(|c| (c.start, c.end)).collect();
    assert_eq!(bounds, vec![(0, 4), (4, 8), (8, 10)]);
}

#[test]
fn partition_of_zero_files_is_empty() {
    assert!(partition(0, 4).is_empty());
}

#[test]
fn partition_with_more_workers_than_files_spawns_no_empty_chunks() {
    let chunks = partition(2, 8);
    let bounds: Vec<(usize, usize)> = chunks.iter().map(|c| (c.start, c.end)).collect();
    assert_eq!(bounds, vec![(0, 1), (1, 2)]);
}

#[test]
fn partition_with_one_worker_is_one_chunk() {
    let chunks = partition(7, 1);
    let bounds: Vec<(usize, usize)> = chunks.iter().map(|c| (c.start, c.end)).collect();
    assert_eq!(bounds, vec![(0, 7)]);
}

#[test]
fn partition_covers_every_index_exactly_once() {
    for total in 0..25usize {
        for workers in 1..6usize {
            let chunks = partition(total, workers);
            assert!(chunks.len() <= workers);
            let mut next = 0usize;
            for c in &chunks {
                assert_eq!(c.start, next);
                assert!(c.start < c.end);
                next = c.end;
            }
            assert_eq!(next, total);
            if total == 0 {
                assert!(chunks.is_empty());
            }
        }
    }
}
