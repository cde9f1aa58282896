use threshold_split::chunking::{chunk_bounds, copy_chunk, count_chunks, count_workers};

#[test]
fn count_chunks_rounds_up() {
    assert_eq!(count_chunks(0, 5), 0);
    assert_eq!(count_chunks(1, 5), 1);
    assert_eq!(count_chunks(3, 5), 1);
    assert_eq!(count_chunks(5, 5), 1);
    assert_eq!(count_chunks(6, 5), 2);
    assert_eq!(count_chunks(10, 5), 2);
    assert_eq!(count_chunks(11, 5), 3);
}

#[test]
fn count_chunks_with_threshold_one_is_the_length() {
    assert_eq!(count_chunks(0, 1), 0);
    assert_eq!(count_chunks(7, 1), 7);
    assert_eq!(count_chunks(usize::MAX, 1), usize::MAX);
}

#[test]
fn count_chunks_at_the_limits_of_usize() {
    assert_eq!(count_chunks(usize::MAX, usize::MAX), 1);
    assert_eq!(count_chunks(usize::MAX, usize::MAX - 1), 2);
    assert_eq!(count_chunks(usize::MAX, 2), usize::MAX / 2 + 1);
    assert_eq!(count_chunks(usize::MAX - 1, 2), usize::MAX / 2);
}

#[test]
fn count_workers_is_one_less_than_the_chunks() {
    assert_eq!(count_workers(0, 5), 0);
    assert_eq!(count_workers(3, 5), 0);
    assert_eq!(count_workers(5, 5), 0);
    assert_eq!(count_workers(6, 5), 1);
    assert_eq!(count_workers(10, 5), 1);
    assert_eq!(count_workers(11, 5), 2);
    assert_eq!(count_workers(7, 1), 6);
}

#[test]
fn chunk_bounds_of_an_input_with_a_short_last_chunk() {
    assert_eq!(chunk_bounds(11, 5, 0), (0, 5));
    assert_eq!(chunk_bounds(11, 5, 1), (5, 10));
    assert_eq!(chunk_bounds(11, 5, 2), (10, 11));
}

#[test]
fn chunk_bounds_of_an_exact_multiple_end_with_a_full_chunk() {
    assert_eq!(chunk_bounds(10, 5, 0), (0, 5));
    assert_eq!(chunk_bounds(10, 5, 1), (5, 10));
    assert_eq!(count_chunks(10, 5), 2);
}

#[test]
fn chunk_bounds_of_a_short_input() {
    assert_eq!(chunk_bounds(3, 5, 0), (0, 3));
    assert_eq!(chunk_bounds(1, 1, 0), (0, 1));
}

#[test]
fn chunk_bounds_do_not_overflow() {
    assert_eq!(chunk_bounds(usize::MAX, usize::MAX - 1, 1), (usize::MAX - 1, usize::MAX));
    assert_eq!(chunk_bounds(usize::MAX, usize::MAX, 0), (0, usize::MAX));
}

#[test]
fn chunk_bounds_tile_the_input() {
    for threshold in 1..=9usize {
        for len in 0..=40usize {
            let mut next = 0;
            for k in 0..count_chunks(len, threshold) {
                let (start, end) = chunk_bounds(len, threshold, k);
                assert_eq!(start, next);
                assert!(start < end);
                assert!(end - start <= threshold);
                if k + 1 < count_chunks(len, threshold) {
                    assert_eq!(end - start, threshold);
                }
                next = end;
            }
            assert_eq!(next, len);
        }
    }
}

#[test]
fn copy_chunk_copies_the_elements_of_one_chunk() {
    let input = vec![1, 2, 3, 4, 5, 6, 7, 8, 9, 10, 11];
    assert_eq!(copy_chunk(&input, 5, 0), vec![1, 2, 3, 4, 5]);
    assert_eq!(copy_chunk(&input, 5, 1), vec![6, 7, 8, 9, 10]);
    assert_eq!(copy_chunk(&input, 5, 2), vec![11]);
    assert_eq!(input.len(), 11);
}

#[test]
fn copy_chunk_of_a_short_input_is_the_input() {
    let input = vec!['x', 'y'];
    assert_eq!(copy_chunk(&input, 5, 0), vec!['x', 'y']);
}
