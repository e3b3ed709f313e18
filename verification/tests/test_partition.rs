use sycret::partition::{partition, StreamPartition};

fn check_tiling(n_values: usize, n_streams: usize) {
    let streams = partition(n_values, n_streams);
    assert_eq!(streams.len(), n_values.min(n_streams));
    let mut next = 0;
    let mut total = 0;
    for (k, stream) in streams.iter().enumerate() {
        assert_eq!(stream.stream_id, k);
        assert_eq!(stream.start, next);
        assert!(stream.length > 0);
        let expected = n_values / n_streams + if k < n_values % n_streams { 1 } else { 0 };
        assert_eq!(stream.length, expected);
        next += stream.length;
        total += stream.length;
    }
    assert_eq!(next, n_values);
    assert_eq!(total, n_values);
}

#[test]
fn partition_of_nothing_is_empty() {
    assert_eq!(partition(0, 128), vec![]);
    assert_eq!(partition(0, 1), vec![]);
}

#[test]
fn partition_of_one_value() {
    assert_eq!(partition(1, 128), vec![StreamPartition { stream_id: 0, start: 0, length: 1 }]);
}

#[test]
fn partition_below_the_stream_count_drops_empty_streams() {
    let streams = partition(5, 128);
    assert_eq!(streams.len(), 5);
    for (k, stream) in streams.iter().enumerate() {
        assert_eq!(*stream, StreamPartition { stream_id: k, start: k, length: 1 });
    }
}

#[test]
fn partition_exact_multiple() {
    let streams = partition(256, 128);
    assert_eq!(streams.len(), 128);
    for (k, stream) in streams.iter().enumerate() {
        assert_eq!(*stream, StreamPartition { stream_id: k, start: 2 * k, length: 2 });
    }
}

#[test]
fn partition_first_streams_get_one_more() {
    let streams = partition(130, 128);
    assert_eq!(streams.len(), 128);
    assert_eq!(streams[0], StreamPartition { stream_id: 0, start: 0, length: 2 });
    assert_eq!(streams[1], StreamPartition { stream_id: 1, start: 2, length: 2 });
    assert_eq!(streams[2], StreamPartition { stream_id: 2, start: 4, length: 1 });
    assert_eq!(streams[127], StreamPartition { stream_id: 127, start: 129, length: 1 });
}

#[test]
fn partition_of_a_thousand() {
    // 1000 = 128 * 7 + 104
    let streams = partition(1000, 128);
    assert_eq!(streams.len(), 128);
    assert_eq!(streams[0], StreamPartition { stream_id: 0, start: 0, length: 8 });
    assert_eq!(streams[103], StreamPartition { stream_id: 103, start: 824, length: 8 });
    assert_eq!(streams[104], StreamPartition { stream_id: 104, start: 832, length: 7 });
    assert_eq!(streams[127], StreamPartition { stream_id: 127, start: 993, length: 7 });
}

#[test]
fn partition_conserves_and_tiles() {
    for n_values in [0usize, 1, 2, 127, 128, 129, 255, 256, 257, 1000, 4096, 100_003] {
        check_tiling(n_values, 128);
    }
    for n_streams in [1usize, 2, 3, 7, 128, 1000] {
        for n_values in [0usize, 1, 6, 7, 8, 999, 1000, 1001] {
            check_tiling(n_values, n_streams);
        }
    }
}

#[test]
fn partition_of_the_largest_batch() {
    let streams = partition(usize::MAX, 128);
    assert_eq!(streams.len(), 128);
    let last = streams[127];
    assert_eq!(last.start + last.length, usize::MAX);
}

#[test]
fn partition_covers_every_index_once() {
    let n_values = 1000;
    let streams = partition(n_values, 128);
    let mut seen = vec![0u8; n_values];
    for stream in &streams {
        for index in stream.start..stream.start + stream.length {
            seen[index] += 1;
        }
    }
    assert!(seen.iter().all(|count| *count == 1));
}
