use analytics_engine::compute::{process_worker_chunk, ParallelProcessor};

#[test]
fn process_chunk_sums_squares() {
    let p = ParallelProcessor::new(10);
    assert_eq!(p.size(), 10);
    // 2*2 + 3*3 + 4*4
    assert_eq!(p.process_chunk(2, 5), 29);
    // end is clamped to the buffer length: 8*8 + 9*9
    assert_eq!(p.process_chunk(8, 100), 145);
    // empty effective range
    assert_eq!(p.process_chunk(5, 2), 0);
    assert_eq!(p.process_chunk(10, 12), 0);
}

#[test]
fn sequential_matches_whole_range() {
    let p = ParallelProcessor::new(10);
    // sum of i*i for i in 0..10
    assert_eq!(p.process_sequential(), 285);
    assert_eq!(p.process_chunk(0, 10), 285);
}

#[test]
fn partition_sums_to_sequential() {
    let p = ParallelProcessor::new(100);
    let whole = p.process_sequential();
    let parts = p.process_chunk(0, 17) + p.process_chunk(17, 42) + p.process_chunk(42, 100);
    assert_eq!(parts, whole);
    let mut one_by_one = 0i128;
    for i in 0..100 {
        one_by_one += p.process_chunk(i, i + 1);
    }
    assert_eq!(one_by_one, whole);
}

#[test]
fn shared_buffer_and_worker_chunk() {
    let buf: Vec<i64> = vec![3, -4, 5];
    assert_eq!(ParallelProcessor::process_shared_buffer(&buf, 0, 3), 50);
    assert_eq!(ParallelProcessor::process_shared_buffer(&buf, 1, 99), 41);
    assert_eq!(ParallelProcessor::process_shared_buffer(&buf, 2, 2), 0);
    assert_eq!(process_worker_chunk(&buf), 50);

    let own = ParallelProcessor::new(50);
    let copy = own.get_chunk_array(10, 13);
    assert_eq!(copy, vec![10, 11, 12]);
    assert_eq!(own.get_chunk_array(60, 70), Vec::<i64>::new());
    let partial = ParallelProcessor::process_shared_buffer(&own.get_chunk_array(0, 50), 0, 50);
    assert_eq!(partial, own.process_sequential());
}

#[test]
fn stats_over_subrange() {
    let p = ParallelProcessor::new(6);
    let st = p.calculate_stats(1, 5).expect("non-empty range");
    assert_eq!(st.count, 4);
    assert_eq!(st.sum, 10);
    assert_eq!(st.mean, 2);
    assert_eq!(st.min, 1);
    assert_eq!(st.max, 4);
    assert!(p.calculate_stats(5, 5).is_none());
    assert!(p.calculate_stats(9, 12).is_none());
}
