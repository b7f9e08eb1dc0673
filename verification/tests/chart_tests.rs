use analytics_engine::chart::ChartProcessor;

#[test]
fn chunk_count_is_ceiling() {
    assert_eq!(ChartProcessor::new(10, 3).chunk_count(), 4);
    assert_eq!(ChartProcessor::new(9, 3).chunk_count(), 3);
    assert_eq!(ChartProcessor::new(1, 3).chunk_count(), 1);
    assert_eq!(ChartProcessor::new(0, 3).chunk_count(), 0);
    assert_eq!(ChartProcessor::new(7, 1).chunk_count(), 7);
}

#[test]
fn chunks_are_interleaved_windows() {
    // generated point i is (i, i % 100)
    let cp = ChartProcessor::new(5, 2);
    assert_eq!(cp.data_size(), 5);
    assert_eq!(cp.get_chunk(0), vec![0, 0, 1, 1]);
    assert_eq!(cp.get_chunk(1), vec![2, 2, 3, 3]);
    assert_eq!(cp.get_chunk(2), vec![4, 4]);
    // an index at or past the chunk count yields an empty chunk
    assert_eq!(cp.get_chunk(3), Vec::<i64>::new());
    assert_eq!(cp.get_chunk(1000), Vec::<i64>::new());
}

#[test]
fn downsample_keeps_small_series_unchanged() {
    let cp = ChartProcessor::new(5, 2);
    let full = vec![0, 0, 1, 1, 2, 2, 3, 3, 4, 4];
    assert_eq!(cp.downsample(5), full);
    assert_eq!(cp.downsample(10), full);
}

#[test]
fn downsample_reduces_to_target_points() {
    let cp = ChartProcessor::new(10, 4);
    let out = cp.downsample(4);
    // 4 points, interleaved: first point, two bucket means, last point
    assert_eq!(out.len(), 8);
    assert_eq!(&out[0..2], &[0, 0]);
    // bucket [2, 5): mean of 2, 3, 4
    assert_eq!(&out[2..4], &[3, 3]);
    // bucket [5, 7): mean of 5, 6
    assert_eq!(&out[4..6], &[5, 5]);
    assert_eq!(&out[6..8], &[9, 9]);
}

#[test]
fn downsample_wraps_y_at_one_hundred() {
    let cp = ChartProcessor::new(205, 50);
    let out = cp.downsample(205);
    assert_eq!(out[2 * 104], 104);
    assert_eq!(out[2 * 104 + 1], 4);
}

#[test]
fn aggregate_chunk_summarises_y() {
    let cp = ChartProcessor::new(10, 4);
    let st = cp.aggregate_chunk(0).expect("chunk in range");
    assert_eq!(st.min, 0);
    assert_eq!(st.max, 3);
    assert_eq!(st.avg, 1);
    let st2 = cp.aggregate_chunk(2).expect("chunk in range");
    assert_eq!(st2.min, 8);
    assert_eq!(st2.max, 9);
    assert_eq!(st2.avg, 8);
    assert!(cp.aggregate_chunk(3).is_none());
}
