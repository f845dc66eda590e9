use parquet_encoding::util::bit_util::{ceil, log2, num_required_bits, BitWriter};
use parquet_encoding::util::hash_util::hash;

#[test]
fn ceil_rounds_up() {
    assert_eq!(ceil(0, 8), 0);
    assert_eq!(ceil(1, 8), 1);
    assert_eq!(ceil(8, 8), 1);
    assert_eq!(ceil(9, 8), 2);
    assert_eq!(ceil(10, 3), 4);
    assert_eq!(ceil(i64::MAX, 1), i64::MAX);
}

#[test]
fn num_required_bits_is_the_position_of_the_highest_bit() {
    assert_eq!(num_required_bits(0), 0);
    assert_eq!(num_required_bits(1), 1);
    assert_eq!(num_required_bits(2), 2);
    assert_eq!(num_required_bits(3), 2);
    assert_eq!(num_required_bits(255), 8);
    assert_eq!(num_required_bits(256), 9);
    assert_eq!(num_required_bits(u64::MAX), 64);
}

#[test]
fn log2_rounds_up() {
    assert_eq!(log2(1), 0);
    assert_eq!(log2(2), 1);
    assert_eq!(log2(3), 2);
    assert_eq!(log2(4), 2);
    assert_eq!(log2(5), 3);
    assert_eq!(log2(1024), 10);
    assert_eq!(log2(1025), 11);
    assert_eq!(log2(u64::MAX), 64);
}

#[test]
fn put_value_fills_bytes_from_the_low_end() {
    let mut writer = BitWriter::new(16);
    writer.put_value(1, 1);
    writer.put_value(0, 1);
    writer.put_value(0b101, 3);
    assert_eq!(writer.flush_buffer(), vec![0b0001_0101]);
}

#[test]
fn put_value_crosses_byte_boundaries() {
    let mut writer = BitWriter::new(16);
    writer.put_value(0b111, 3);
    writer.put_value(0x1ff, 9);
    writer.put_value(0, 2);
    writer.put_value(1, 1);
    // 3 + 9 + 2 + 1 = 15 bits
    assert_eq!(writer.flush_buffer(), vec![0xff, 0b0100_1111]);
}

#[test]
fn put_value_writes_only_the_low_bits() {
    let mut writer = BitWriter::new(16);
    writer.put_value(0xffff, 4);
    writer.put_value(u64::MAX, 64);
    writer.put_value(5, 0);
    let data = writer.flush_buffer();
    assert_eq!(data.len(), 9);
    assert_eq!(data[..8], [0xff; 8]);
    assert_eq!(data[8], 0x0f);
}

#[test]
fn byte_count_is_the_bit_count_rounded_up() {
    let mut writer = BitWriter::new(16);
    let mut bits = 0;
    for n in [1usize, 7, 1, 3, 13, 64, 0, 5, 2] {
        writer.put_value(0, n);
        bits += n;
        assert!(writer.fits_within(0, (bits + 7) / 8));
        if bits > 0 {
            assert!(!writer.fits_within(0, (bits + 7) / 8 - 1));
        }
    }
    assert_eq!(writer.consume().len(), (bits + 7) / 8);
}

#[test]
fn put_aligned_starts_a_new_byte() {
    let mut writer = BitWriter::new(16);
    writer.put_value(1, 3);
    writer.put_aligned(0x0102_0304, 3);
    writer.put_aligned(0xff, 0);
    writer.put_aligned(u64::MAX, 8);
    let mut expected = vec![1, 4, 3, 2];
    expected.extend_from_slice(&[0xff; 8]);
    assert_eq!(writer.flush_buffer(), expected);
}

#[test]
fn put_vlq_int_writes_seven_bits_to_a_byte() {
    let mut writer = BitWriter::new(16);
    writer.put_vlq_int(0);
    writer.put_vlq_int(127);
    writer.put_vlq_int(128);
    writer.put_vlq_int(300);
    assert_eq!(writer.flush_buffer(), vec![0, 127, 0x80, 0x01, 0xac, 0x02]);
    writer.clear();
    writer.put_vlq_int(u64::MAX);
    assert_eq!(
        writer.flush_buffer(),
        vec![0xff, 0xff, 0xff, 0xff, 0xff, 0xff, 0xff, 0xff, 0xff, 0x01]
    );
}

#[test]
fn put_zigzag_vlq_int_interleaves_the_signs() {
    let mut writer = BitWriter::new(16);
    for v in [0i64, -1, 1, -2, 2, 63, -64, 64] {
        writer.put_zigzag_vlq_int(v);
    }
    assert_eq!(writer.flush_buffer(), vec![0, 1, 2, 3, 4, 126, 127, 0x80, 0x01]);
    writer.clear();
    writer.put_zigzag_vlq_int(i64::MIN);
    writer.put_zigzag_vlq_int(i64::MAX);
    let data = writer.flush_buffer();
    assert_eq!(data[..10], [0xff, 0xff, 0xff, 0xff, 0xff, 0xff, 0xff, 0xff, 0xff, 0x01]);
    assert_eq!(data[10..], [0xfe, 0xff, 0xff, 0xff, 0xff, 0xff, 0xff, 0xff, 0xff, 0x01]);
}

#[test]
fn reserved_bytes_are_filled_in_later() {
    let mut writer = BitWriter::new(16);
    writer.put_value(1, 1);
    let pos = writer.get_next_byte_ptr(2);
    assert_eq!(pos, 1);
    writer.put_value(0b11, 2);
    assert_eq!(writer.flush_buffer(), vec![1, 0, 0, 3]);
    writer.put_byte_at(pos + 1, 0xab);
    writer.put_byte_at(pos, 0xcd);
    writer.put_value(1, 1);
    assert_eq!(writer.flush_buffer(), vec![1, 0xcd, 0xab, 3, 1]);
}

#[test]
fn flush_pads_the_last_byte_once() {
    let mut writer = BitWriter::new(16);
    writer.put_value(1, 1);
    writer.flush();
    writer.flush();
    writer.put_value(1, 1);
    assert_eq!(writer.flush_buffer(), vec![1, 1]);
    assert_eq!(writer.flush_buffer(), vec![1, 1]);
}

#[test]
fn writer_over_a_buffer_keeps_its_start() {
    let mut writer = BitWriter::new_from_buf(vec![7, 8, 9, 10], 2);
    writer.put_value(1, 1);
    assert_eq!(writer.flush_buffer(), vec![7, 8, 1]);
    writer.truncate_to(1);
    writer.put_aligned(5, 1);
    assert_eq!(writer.consume(), vec![7, 5]);
}

#[test]
fn clear_forgets_everything() {
    let mut writer = BitWriter::new(4);
    writer.put_value(0x3ff, 10);
    writer.clear();
    assert_eq!(writer.flush_buffer(), Vec::<u8>::new());
    writer.put_value(1, 1);
    assert_eq!(writer.flush_buffer(), vec![1]);
}

#[test]
fn hash_depends_on_bytes_and_seed_alone() {
    assert_eq!(hash(&[], 0), 0);
    assert_eq!(hash(&[], 17), 17);
    assert_eq!(hash(&[0], 0), 1);
    assert_eq!(hash(&[1, 2], 0), ((2u64 * 16777619 + 3) % (1 << 32)) as u32);
    assert_eq!(hash(&[1, 2, 3], 5), hash(&[1, 2, 3], 5));
    assert_ne!(hash(&[1, 2, 3], 5), hash(&[1, 2, 4], 5));
    assert_ne!(hash(&[1, 2, 3], 5), hash(&[1, 2, 3], 6));
    assert_eq!(
        hash(&[0xff; 4], u32::MAX),
        [0xffu8; 4].iter().fold(u32::MAX, |h, b| h.wrapping_mul(16777619).wrapping_add(*b as u32 + 1))
    );
}
