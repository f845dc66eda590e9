use parquet_encoding::encodings::rle::RleEncoder;

fn encode(bit_width: u8, values: &[u64]) -> Vec<u8> {
    let mut encoder = RleEncoder::new(bit_width, 1 << 16);
    for v in values {
        assert!(encoder.put(*v));
    }
    encoder.consume()
}

#[test]
fn sizes_of_buffers() {
    assert_eq!(RleEncoder::min_buffer_size(0), 10);
    assert_eq!(RleEncoder::min_buffer_size(1), 65);
    assert_eq!(RleEncoder::min_buffer_size(8), 513);
    assert_eq!(RleEncoder::min_buffer_size(64), 4097);
    assert_eq!(RleEncoder::max_buffer_size(1, 0), 0);
    assert_eq!(RleEncoder::max_buffer_size(1, 1), 2);
    assert_eq!(RleEncoder::max_buffer_size(1, 8), 2);
    assert_eq!(RleEncoder::max_buffer_size(1, 9), 4);
    assert_eq!(RleEncoder::max_buffer_size(1, 1024), 256);
    assert_eq!(RleEncoder::max_buffer_size(0, 16), 2);
    assert_eq!(RleEncoder::max_buffer_size(10, 100), 13 * 11);
}

#[test]
fn nothing_put_nothing_written() {
    assert_eq!(encode(3, &[]), Vec::<u8>::new());
}

#[test]
fn a_long_run_is_written_once() {
    assert_eq!(encode(8, &[4; 100]), vec![0xc8, 0x01, 4]);
    assert_eq!(encode(1, &[1; 8]), vec![16, 1]);
    assert_eq!(encode(12, &[0x123; 9]), vec![18, 0x23, 0x01]);
    assert_eq!(encode(0, &[0; 50]), vec![100]);
}

#[test]
fn a_short_run_at_the_end_is_a_repeated_run() {
    assert_eq!(encode(3, &[5]), vec![2, 5]);
    assert_eq!(encode(3, &[5, 5, 5]), vec![6, 5]);
}

#[test]
fn mixed_values_are_bit_packed_in_groups_of_eight() {
    // one group, padded with zeros
    assert_eq!(encode(1, &[1, 0, 1]), vec![3, 0b0000_0101]);
    assert_eq!(encode(2, &[0, 1, 2, 3, 0, 1, 2, 3]), vec![3, 0b1110_0100, 0b1110_0100]);
    // two groups in one run
    assert_eq!(
        encode(1, &[1, 0, 1, 0, 1, 0, 1, 0, 0, 1, 0, 1, 0, 1, 0, 1]),
        vec![5, 0b0101_0101, 0b1010_1010]
    );
}

#[test]
fn a_run_starts_at_a_group_of_eight_equal_values() {
    // three values and five of the run make a packed group; the run of 20
    // threes that is left follows
    let mut values = vec![1, 2, 1];
    values.extend_from_slice(&[3; 25]);
    let mut expected = vec![3, 0b1101_1001, 0b1111_1111];
    expected.extend_from_slice(&[40, 3]);
    assert_eq!(encode(2, &values), expected);
}

#[test]
fn a_packed_run_ends_where_a_repeated_run_starts() {
    let mut values = vec![0, 1, 0, 1, 0, 1, 0, 1];
    values.extend_from_slice(&[1; 8]);
    values.extend_from_slice(&[0, 0, 1]);
    assert_eq!(encode(1, &values), vec![3, 0b1010_1010, 16, 1, 3, 0b0000_0100]);
}

#[test]
fn a_packed_run_holds_at_most_63_groups() {
    let values: Vec<u64> = (0..64 * 8).map(|i| i % 2).collect();
    let data = encode(1, &values);
    assert_eq!(data.len(), 1 + 63 + 1 + 1);
    assert_eq!(data[0], 63 * 2 + 1);
    assert!(data[1..64].iter().all(|b| *b == 0b1010_1010));
    assert_eq!(data[64..], [3, 0b1010_1010]);
}

#[test]
fn a_sink_takes_what_is_sure_to_fit() {
    let mut encoder = RleEncoder::new(1, 0);
    assert!(!encoder.put(1));
    assert_eq!(encoder.consume(), Vec::<u8>::new());

    // at width 1 each group of eight takes two bytes at most: 33 groups
    // fit into 67 bytes
    let mut encoder = RleEncoder::new(1, 67);
    let mut taken = 0;
    while encoder.put(taken % 2) {
        taken += 1;
        assert!(taken < 1000);
    }
    assert_eq!(taken, 33 * 8);
    assert!(!encoder.put(0));
    let data = encoder.consume();
    assert_eq!(data.len(), 34);
    assert_eq!(data[0], 33 * 2 + 1);
    assert!(data[1..].iter().all(|b| *b == 0b1010_1010));
}

#[test]
fn what_is_written_fits_the_sink() {
    for capacity in [1usize, 2, 3, 10, 33, 100] {
        for width in [0u8, 1, 3, 8, 13] {
            let mut encoder = RleEncoder::new(width, capacity);
            let mut i: u64 = 0;
            let mut taken = 0;
            while encoder.put(((i * i / 7) % 3) & ((1u64 << width) - 1)) {
                i += 1;
                taken += 1;
                assert!(taken < 10000);
            }
            assert!(taken <= 8 * capacity);
            assert!(RleEncoder::max_buffer_size(width, taken) <= capacity);
            assert!(RleEncoder::max_buffer_size(width, taken + 1) > capacity);
            assert!(encoder.consume().len() <= capacity);
        }
    }
}

#[test]
fn a_writer_over_a_buffer_keeps_the_bytes_in_front() {
    // two bytes in front and four for a value at width 3 do not fit into five
    let mut encoder = RleEncoder::new_from_buf(3, vec![9, 9, 9, 9, 9], 2);
    assert!(!encoder.put(1));
    assert_eq!(encoder.consume(), vec![9, 9]);
    let mut buffer = vec![0; 300];
    buffer[0] = 7;
    let mut encoder = RleEncoder::new_from_buf(3, buffer, 1);
    for _ in 0..10 {
        assert!(encoder.put(6));
    }
    assert_eq!(encoder.flush_buffer(), vec![7, 20, 6]);
    // what follows is a new stream behind these bytes
    assert!(encoder.put(1));
    assert_eq!(encoder.flush_buffer(), vec![7, 20, 6, 2, 1]);
    encoder.clear();
    assert!(encoder.put(2));
    assert_eq!(encoder.consume(), vec![7, 2, 2]);
}
