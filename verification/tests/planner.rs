use rwc::planner::plan_ranges;
use rwc::planner::ByteRange;

fn assert_partitions(file_size: u64, workers: u64, block_size: u64) {
    let ranges = plan_ranges(file_size, workers, block_size);
    let expected_len = if file_size == 0 { 1 } else { workers as usize };
    assert_eq!(ranges.len(), expected_len);
    assert_eq!(ranges[0].start, 0);
    assert_eq!(ranges[ranges.len() - 1].end, file_size);
    for i in 0..ranges.len() {
        assert!(ranges[i].start <= ranges[i].end);
        assert!(ranges[i].end <= file_size);
        if i > 0 {
            assert_eq!(ranges[i].start, ranges[i - 1].end);
        }
    }
}

#[test]
fn empty_file_gets_single_empty_range() {
    let ranges = plan_ranges(0, 4, 512 * 1024);
    assert_eq!(ranges, vec![ByteRange { start: 0, end: 0 }]);
}

#[test]
fn ranges_are_adjacent_and_clamped() {
    // 10 bytes in blocks of 4: three blocks, one per worker, last end
    // clamped from 12 down to 10.
    let ranges = plan_ranges(10, 3, 4);
    assert_eq!(
        ranges,
        vec![
            ByteRange { start: 0, end: 4 },
            ByteRange { start: 4, end: 8 },
            ByteRange { start: 8, end: 10 },
        ]
    );
}

#[test]
fn remainder_blocks_go_to_first_workers() {
    // 8 bytes in blocks of 3: three blocks over two workers, the first
    // worker gets two of them.
    let ranges = plan_ranges(8, 2, 3);
    assert_eq!(
        ranges,
        vec![ByteRange { start: 0, end: 6 }, ByteRange { start: 6, end: 8 }]
    );
}

#[test]
fn more_workers_than_blocks_yields_empty_tail_ranges() {
    let ranges = plan_ranges(3, 5, 1);
    assert_eq!(
        ranges,
        vec![
            ByteRange { start: 0, end: 1 },
            ByteRange { start: 1, end: 2 },
            ByteRange { start: 2, end: 3 },
            ByteRange { start: 3, end: 3 },
            ByteRange { start: 3, end: 3 },
        ]
    );
}

#[test]
fn union_is_whole_file_for_many_shapes() {
    for file_size in [0u64, 1, 2, 7, 8, 100, 1023, 1024, 1025] {
        for workers in [1u64, 2, 3, 4, 7, 16] {
            for block_size in [1u64, 2, 512, 512 * 1024] {
                assert_partitions(file_size, workers, block_size);
            }
        }
    }
}
