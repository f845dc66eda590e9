use parquet_encoding::basic::{Encoding, Type};
use parquet_encoding::data_type::{
    BoolType, ByteArray, ByteArrayType, FixedLenByteArrayType, Int32Type, Int64Type, Int96,
    Int96Type,
};
use parquet_encoding::encodings::encoding::{
    get_encoder, AnyEncoder, DeltaBitPackEncoder, DeltaByteArrayEncoder,
    DeltaLengthByteArrayEncoder, DictEncoder, Encoder, PlainEncoder, RleValueEncoder,
};
use parquet_encoding::errors::ParquetError;
use parquet_encoding::schema::ColumnDescriptor;

fn bytes(text: &str) -> ByteArray {
    ByteArray::from_vec(text.as_bytes().to_vec())
}

#[test]
fn plain_int32_is_little_endian() {
    let desc = ColumnDescriptor::new(Type::INT32, -1);
    let mut encoder = PlainEncoder::<Int32Type>::new(desc, vec![]);
    encoder.put(&[1, 2, 3]).unwrap();
    assert_eq!(encoder.flush_buffer().unwrap(), vec![1, 0, 0, 0, 2, 0, 0, 0, 3, 0, 0, 0]);
}

#[test]
fn plain_int32_of_negative_numbers_is_twos_complement() {
    let desc = ColumnDescriptor::new(Type::INT32, -1);
    let mut encoder = PlainEncoder::<Int32Type>::new(desc, vec![]);
    encoder.put(&[-1, i32::MIN, 0x0102_0304]).unwrap();
    assert_eq!(
        encoder.flush_buffer().unwrap(),
        vec![0xff, 0xff, 0xff, 0xff, 0, 0, 0, 0x80, 4, 3, 2, 1]
    );
}

#[test]
fn plain_int64_is_little_endian() {
    let desc = ColumnDescriptor::new(Type::INT64, -1);
    let mut encoder = PlainEncoder::<Int64Type>::new(desc, vec![]);
    encoder.put(&[1, -2]).unwrap();
    assert_eq!(
        encoder.flush_buffer().unwrap(),
        vec![1, 0, 0, 0, 0, 0, 0, 0, 0xfe, 0xff, 0xff, 0xff, 0xff, 0xff, 0xff, 0xff]
    );
}

#[test]
fn plain_boolean_packs_bits() {
    let desc = ColumnDescriptor::new(Type::BOOLEAN, -1);
    let mut encoder = PlainEncoder::<BoolType>::new(desc, vec![]);
    encoder.put(&[true, false, true, true, false, false, false, false, true]).unwrap();
    assert_eq!(encoder.flush_buffer().unwrap(), vec![0b0000_1101, 0b0000_0001]);
}

#[test]
fn plain_boolean_takes_more_values_than_a_small_buffer() {
    let desc = ColumnDescriptor::new(Type::BOOLEAN, -1);
    let mut encoder = PlainEncoder::<BoolType>::new(desc, vec![]);
    let values = vec![true; 5000];
    encoder.put(&values).unwrap();
    let data = encoder.flush_buffer().unwrap();
    assert_eq!(data.len(), 625);
    assert!(data.iter().all(|b| *b == 0xff));
}

#[test]
fn plain_byte_array_has_length_prefixes() {
    let desc = ColumnDescriptor::new(Type::BYTE_ARRAY, -1);
    let mut encoder = PlainEncoder::<ByteArrayType>::new(desc, vec![]);
    encoder.put(&[bytes("ab"), bytes("c")]).unwrap();
    assert_eq!(
        encoder.flush_buffer().unwrap(),
        vec![2, 0, 0, 0, b'a', b'b', 1, 0, 0, 0, b'c']
    );
}

#[test]
fn plain_fixed_len_byte_array_has_no_prefix() {
    let desc = ColumnDescriptor::new(Type::FIXED_LEN_BYTE_ARRAY, 2);
    let mut encoder = PlainEncoder::<FixedLenByteArrayType>::new(desc, vec![]);
    encoder.put(&[bytes("ab"), bytes("cd")]).unwrap();
    assert_eq!(encoder.flush_buffer().unwrap(), vec![b'a', b'b', b'c', b'd']);
}

#[test]
fn plain_int96_is_three_words() {
    let desc = ColumnDescriptor::new(Type::INT96, -1);
    let mut encoder = PlainEncoder::<Int96Type>::new(desc, vec![]);
    encoder.put(&[Int96::from_words(1, 0x0203, 0xff00_0000)]).unwrap();
    assert_eq!(encoder.flush_buffer().unwrap(), vec![1, 0, 0, 0, 3, 2, 0, 0, 0, 0, 0, 0xff]);
}

#[test]
fn plain_starts_with_the_bytes_it_was_given_once() {
    let desc = ColumnDescriptor::new(Type::INT32, -1);
    let mut encoder = PlainEncoder::<Int32Type>::new(desc, vec![9, 8]);
    encoder.put(&[1]).unwrap();
    assert_eq!(encoder.flush_buffer().unwrap(), vec![9, 8, 1, 0, 0, 0]);
    encoder.put(&[2]).unwrap();
    assert_eq!(encoder.flush_buffer().unwrap(), vec![2, 0, 0, 0]);
}

#[test]
fn dictionary_int32_pages() {
    let desc = ColumnDescriptor::new(Type::INT32, -1);
    let mut encoder = DictEncoder::<Int32Type>::new(desc);
    encoder.put(&[7, 7, 9, 7]).unwrap();
    assert_eq!(encoder.num_entries(), 2);
    assert_eq!(encoder.write_dict().unwrap(), vec![7, 0, 0, 0, 9, 0, 0, 0]);
    // bit width 1; one bit-packed group of eight: 0, 0, 1, 0 and four zeros
    assert_eq!(encoder.flush_buffer().unwrap(), vec![1, 3, 0b0000_0100]);
    // the dictionary outlives the batch
    assert_eq!(encoder.num_entries(), 2);
    assert_eq!(encoder.write_dict().unwrap(), vec![7, 0, 0, 0, 9, 0, 0, 0]);
    encoder.put(&[9, 9, 9, 9, 9, 9, 9, 9, 9, 9]).unwrap();
    // ten times index 1: one repeated run
    assert_eq!(encoder.flush_buffer().unwrap(), vec![1, 20, 1]);
}

#[test]
fn dictionary_bit_width_is_the_ceiling_of_the_logarithm() {
    let desc = ColumnDescriptor::new(Type::INT32, -1);
    let mut encoder = DictEncoder::<Int32Type>::new(desc);
    assert_eq!(encoder.bit_width(), 0);
    let expected = [(1, 1), (2, 1), (3, 2), (4, 2), (5, 3), (8, 3), (9, 4), (1024, 10), (1025, 11)];
    let mut next = 0;
    for (entries, width) in expected {
        while next < entries {
            encoder.put(&[next]).unwrap();
            next += 1;
        }
        assert_eq!(encoder.num_entries(), entries as usize);
        assert_eq!(encoder.bit_width(), width);
    }
}

#[test]
fn dictionary_holds_each_distinct_value_once() {
    let desc = ColumnDescriptor::new(Type::INT64, -1);
    let mut encoder = DictEncoder::<Int64Type>::new(desc);
    let distinct = 3000i64;
    let mut values = Vec::new();
    for round in 0..3 {
        for v in 0..distinct {
            values.push((v * 7919 + round) % distinct);
        }
    }
    encoder.put(&values).unwrap();
    assert_eq!(encoder.num_entries(), distinct as usize);
    let dict = encoder.write_dict().unwrap();
    assert_eq!(dict.len(), 8 * distinct as usize);
    // first-seen order
    for (i, v) in values.iter().take(distinct as usize).enumerate() {
        assert_eq!(dict[8 * i..8 * i + 8], v.to_le_bytes());
    }
}

#[test]
fn dictionary_of_byte_arrays_compares_by_content() {
    let desc = ColumnDescriptor::new(Type::BYTE_ARRAY, -1);
    let mut encoder = DictEncoder::<ByteArrayType>::new(desc);
    encoder.put(&[bytes("a"), bytes("ab"), bytes("a"), bytes(""), bytes("ab")]).unwrap();
    assert_eq!(encoder.num_entries(), 3);
    assert_eq!(
        encoder.write_dict().unwrap(),
        vec![1, 0, 0, 0, b'a', 2, 0, 0, 0, b'a', b'b', 0, 0, 0, 0]
    );
}

#[test]
fn delta_binary_packed_single_value() {
    let mut encoder = DeltaBitPackEncoder::<Int32Type>::new();
    encoder.put(&[42]).unwrap();
    // block size 128, 4 mini-blocks, 1 value, first value 42 in zig-zag
    assert_eq!(encoder.flush_buffer().unwrap(), vec![0x80, 0x01, 0x04, 0x01, 84]);
}

#[test]
fn delta_binary_packed_small_block() {
    let mut encoder = DeltaBitPackEncoder::<Int32Type>::new();
    encoder.put(&[0, 2, 0]).unwrap();
    let mut expected = vec![0x80, 0x01, 0x04, 0x03, 0x00];
    // deltas 2, -2: smallest -2 (3 in zig-zag), first mini-block at 3 bits
    expected.extend_from_slice(&[3, 3, 0, 0, 0]);
    // 4, 0 and thirty zeros at 3 bits each
    expected.extend_from_slice(&[0b0000_0100, 0, 0, 0, 0, 0, 0, 0, 0, 0, 0, 0]);
    assert_eq!(encoder.flush_buffer().unwrap(), expected);
}

#[test]
fn delta_binary_packed_sorted_input_needs_no_bits() {
    let n = 1024;
    let values: Vec<i32> = (1..=n).collect();
    let mut encoder = DeltaBitPackEncoder::<Int32Type>::new();
    encoder.put(&values).unwrap();
    let data = encoder.flush_buffer().unwrap();
    // header of 6 bytes, then 8 blocks of one byte and four widths of 0
    assert_eq!(data.len(), 6 + 8 * 5);
    assert!(data.len() <= 16 + n as usize / 8);
    assert_eq!(data[..6], [0x80, 0x01, 0x04, 0x80, 0x08, 0x02]);
    for block in data[6..].chunks(5) {
        assert_eq!(block, [2, 0, 0, 0, 0]);
    }
}

#[test]
fn delta_binary_packed_wraps_around() {
    let mut encoder = DeltaBitPackEncoder::<Int32Type>::new();
    encoder.put(&[i32::MIN, i32::MAX]).unwrap();
    let mut expected = vec![0x80, 0x01, 0x04, 0x02];
    // zig-zag of the smallest i32: 2^32 - 1
    expected.extend_from_slice(&[0xff, 0xff, 0xff, 0xff, 0x0f]);
    // MAX - MIN wraps to -1: 1 in zig-zag; width 0
    expected.extend_from_slice(&[1, 0, 0, 0, 0]);
    assert_eq!(encoder.flush_buffer().unwrap(), expected);

    let mut encoder = DeltaBitPackEncoder::<Int64Type>::new();
    encoder.put(&[i64::MAX, i64::MIN, 0]).unwrap();
    let data = encoder.flush_buffer().unwrap();
    // deltas 1 and MIN wrapped: smallest is i64::MIN
    let mut expected = vec![0x80, 0x01, 0x04, 0x03];
    expected.extend_from_slice(&[0xfe, 0xff, 0xff, 0xff, 0xff, 0xff, 0xff, 0xff, 0xff, 0x01]);
    expected.extend_from_slice(&[0xff, 0xff, 0xff, 0xff, 0xff, 0xff, 0xff, 0xff, 0xff, 0x01]);
    expected.extend_from_slice(&[64, 0, 0, 0]);
    assert_eq!(data[..expected.len()], expected[..]);
    assert_eq!(data.len(), expected.len() + 32 * 8);
    // 1 - MIN = 2^63 + 1, then MIN - MIN = 0
    assert_eq!(data[expected.len()..expected.len() + 8], [1, 0, 0, 0, 0, 0, 0, 0x80]);
    assert!(data[expected.len() + 8..].iter().all(|b| *b == 0));
}

#[test]
fn delta_binary_packed_continues_over_puts_and_starts_anew_after_flush() {
    let mut whole = DeltaBitPackEncoder::<Int32Type>::new();
    let values: Vec<i32> = (0..300).map(|i| (i * i) % 97 - 40).collect();
    whole.put(&values).unwrap();
    let expected = whole.flush_buffer().unwrap();

    let mut parts = DeltaBitPackEncoder::<Int32Type>::new();
    parts.put(&values[..1]).unwrap();
    parts.put(&[]).unwrap();
    parts.put(&values[1..130]).unwrap();
    parts.put(&values[130..]).unwrap();
    assert_eq!(parts.flush_buffer().unwrap(), expected);
    parts.put(&values).unwrap();
    assert_eq!(parts.flush_buffer().unwrap(), expected);
}

#[test]
fn delta_length_byte_array_is_lengths_then_bytes() {
    let mut encoder = DeltaLengthByteArrayEncoder::<ByteArrayType>::new();
    encoder.put(&[bytes("axis"), bytes("le"), bytes("bye")]).unwrap();
    let mut expected = vec![0x80, 0x01, 0x04, 0x03, 0x08];
    expected.extend_from_slice(&[3, 2, 0, 0, 0]);
    expected.extend_from_slice(&[0b0000_1100, 0, 0, 0, 0, 0, 0, 0]);
    expected.extend_from_slice(b"axislebye");
    assert_eq!(encoder.flush_buffer().unwrap(), expected);
}

#[test]
fn delta_byte_array_shares_prefixes() {
    let mut encoder = DeltaByteArrayEncoder::<ByteArrayType>::new();
    encoder.put(&[bytes("axis"), bytes("axle"), bytes("bye")]).unwrap();
    // prefix lengths 0, 2, 0
    let mut expected = vec![0x80, 0x01, 0x04, 0x03, 0x00];
    expected.extend_from_slice(&[3, 3, 0, 0, 0]);
    expected.extend_from_slice(&[0b0000_0100, 0, 0, 0, 0, 0, 0, 0, 0, 0, 0, 0]);
    // suffixes "axis", "le", "bye"
    expected.extend_from_slice(&[0x80, 0x01, 0x04, 0x03, 0x08]);
    expected.extend_from_slice(&[3, 2, 0, 0, 0]);
    expected.extend_from_slice(&[0b0000_1100, 0, 0, 0, 0, 0, 0, 0]);
    expected.extend_from_slice(b"axislebye");
    assert_eq!(encoder.flush_buffer().unwrap(), expected);
}

#[test]
fn delta_byte_array_keeps_the_last_value_over_a_flush() {
    let mut encoder = DeltaByteArrayEncoder::<ByteArrayType>::new();
    encoder.put(&[bytes("axis")]).unwrap();
    encoder.flush_buffer().unwrap();
    encoder.put(&[bytes("axle")]).unwrap();
    // prefix length 2 against the last value of the batch before
    let mut expected = vec![0x80, 0x01, 0x04, 0x01, 0x04];
    expected.extend_from_slice(&[0x80, 0x01, 0x04, 0x01, 0x04]);
    expected.extend_from_slice(b"le");
    assert_eq!(encoder.flush_buffer().unwrap(), expected);
}

#[test]
fn rle_value_encoder_writes_length_and_runs() {
    let mut encoder = RleValueEncoder::<BoolType>::new();
    encoder.put(&[true; 10]).unwrap();
    // length 2, then a repeated run: ten times 1
    assert_eq!(encoder.flush_buffer().unwrap(), vec![2, 0, 0, 0, 20, 1]);
    encoder.put(&[true, false, true]).unwrap();
    // one bit-packed group
    assert_eq!(encoder.flush_buffer().unwrap(), vec![2, 0, 0, 0, 3, 0b0000_0101]);
}

#[test]
fn empty_flush_is_an_empty_page() {
    let desc = ColumnDescriptor::new(Type::INT32, -1);
    let mut plain = PlainEncoder::<Int32Type>::new(desc, vec![]);
    assert_eq!(plain.flush_buffer().unwrap(), Vec::<u8>::new());

    let mut dict = DictEncoder::<Int32Type>::new(desc);
    assert_eq!(dict.flush_buffer().unwrap(), vec![0]);
    assert_eq!(dict.write_dict().unwrap(), Vec::<u8>::new());

    let mut delta = DeltaBitPackEncoder::<Int32Type>::new();
    assert_eq!(delta.flush_buffer().unwrap(), vec![0x80, 0x01, 0x04, 0x00, 0x00]);

    let mut lengths = DeltaLengthByteArrayEncoder::<ByteArrayType>::new();
    assert_eq!(lengths.flush_buffer().unwrap(), vec![0x80, 0x01, 0x04, 0x00, 0x00]);

    let mut prefixes = DeltaByteArrayEncoder::<ByteArrayType>::new();
    assert_eq!(
        prefixes.flush_buffer().unwrap(),
        vec![0x80, 0x01, 0x04, 0x00, 0x00, 0x80, 0x01, 0x04, 0x00, 0x00]
    );

    let mut rle = RleValueEncoder::<BoolType>::new();
    rle.put(&[]).unwrap();
    assert_eq!(rle.flush_buffer().unwrap(), vec![0, 0, 0, 0]);
}

#[test]
fn encoders_report_their_encoding() {
    let desc = ColumnDescriptor::new(Type::BYTE_ARRAY, -1);
    assert_eq!(PlainEncoder::<ByteArrayType>::new(desc, vec![]).encoding(), Encoding::PLAIN);
    assert_eq!(DictEncoder::<ByteArrayType>::new(desc).encoding(), Encoding::PLAIN_DICTIONARY);
    assert_eq!(RleValueEncoder::<BoolType>::new().encoding(), Encoding::RLE);
    assert_eq!(
        DeltaBitPackEncoder::<Int64Type>::new().encoding(),
        Encoding::DELTA_BINARY_PACKED
    );
    assert_eq!(
        DeltaLengthByteArrayEncoder::<ByteArrayType>::new().encoding(),
        Encoding::DELTA_LENGTH_BYTE_ARRAY
    );
    assert_eq!(
        DeltaByteArrayEncoder::<ByteArrayType>::new().encoding(),
        Encoding::DELTA_BYTE_ARRAY
    );
}

#[test]
fn factory_follows_the_table() {
    let desc = ColumnDescriptor::new(Type::BOOLEAN, -1);
    assert!(matches!(get_encoder::<BoolType>(desc, Encoding::PLAIN), Ok(AnyEncoder::Plain(_))));
    assert!(matches!(get_encoder::<BoolType>(desc, Encoding::RLE), Ok(AnyEncoder::Rle(_))));
    assert!(matches!(
        get_encoder::<BoolType>(desc, Encoding::PLAIN_DICTIONARY),
        Ok(AnyEncoder::Dict(_))
    ));
    let dict = get_encoder::<BoolType>(desc, Encoding::RLE_DICTIONARY).unwrap();
    assert!(matches!(dict, AnyEncoder::Dict(_)));
    assert_eq!(dict.encoding(), Encoding::PLAIN_DICTIONARY);
    assert!(matches!(
        get_encoder::<Int32Type>(desc, Encoding::DELTA_BINARY_PACKED),
        Ok(AnyEncoder::DeltaBitPack(_))
    ));
    assert!(matches!(
        get_encoder::<Int64Type>(desc, Encoding::DELTA_BINARY_PACKED),
        Ok(AnyEncoder::DeltaBitPack(_))
    ));
    assert!(matches!(
        get_encoder::<ByteArrayType>(desc, Encoding::DELTA_LENGTH_BYTE_ARRAY),
        Ok(AnyEncoder::DeltaLengthByteArray(_))
    ));
    assert!(matches!(
        get_encoder::<ByteArrayType>(desc, Encoding::DELTA_BYTE_ARRAY),
        Ok(AnyEncoder::DeltaByteArray(_))
    ));
}

fn refused<T>(r: Result<T, ParquetError>) -> ParquetError {
    match r {
        Ok(_) => panic!("an encoder where none was expected"),
        Err(e) => e,
    }
}

#[test]
fn factory_refuses_what_is_not_supported() {
    let desc = ColumnDescriptor::new(Type::INT32, -1);
    assert_eq!(
        refused(get_encoder::<Int32Type>(desc, Encoding::RLE)),
        ParquetError::NYI("Encoding RLE is not supported.".to_string())
    );
    assert_eq!(
        refused(get_encoder::<Int32Type>(desc, Encoding::BIT_PACKED)),
        ParquetError::NYI("Encoding BIT_PACKED is not supported.".to_string())
    );
    assert_eq!(
        refused(get_encoder::<BoolType>(desc, Encoding::DELTA_BINARY_PACKED)),
        ParquetError::NYI("Encoding DELTA_BINARY_PACKED is not supported.".to_string())
    );
    assert_eq!(
        refused(get_encoder::<FixedLenByteArrayType>(desc, Encoding::DELTA_LENGTH_BYTE_ARRAY)),
        ParquetError::NYI("Encoding DELTA_LENGTH_BYTE_ARRAY is not supported.".to_string())
    );
    assert_eq!(
        refused(get_encoder::<Int64Type>(desc, Encoding::DELTA_BYTE_ARRAY)),
        ParquetError::NYI("Encoding DELTA_BYTE_ARRAY is not supported.".to_string())
    );
}

#[test]
fn put_of_a_type_that_an_encoder_cannot_take_is_an_error() {
    let mut rle = RleValueEncoder::<Int32Type>::new();
    assert_eq!(
        rle.put(&[1]),
        Err(ParquetError::General("RleValueEncoder only supports BoolType".to_string()))
    );
    let mut lengths = DeltaLengthByteArrayEncoder::<FixedLenByteArrayType>::new();
    assert_eq!(
        lengths.put(&[bytes("ab")]),
        Err(ParquetError::General(
            "DeltaLengthByteArrayEncoder only supports ByteArrayType".to_string()
        ))
    );
    let mut prefixes = DeltaByteArrayEncoder::<Int64Type>::new();
    assert_eq!(
        prefixes.put(&[5]),
        Err(ParquetError::General(
            "DeltaByteArrayEncoder only supports ByteArrayType".to_string()
        ))
    );
    // nothing was taken
    assert_eq!(lengths.flush_buffer().unwrap(), vec![0x80, 0x01, 0x04, 0x00, 0x00]);
}

#[test]
fn rle_value_encoder_fills_up() {
    // 512 groups of two bytes at most fit into the 1024 bytes of the sink
    let mut encoder = RleValueEncoder::<BoolType>::new();
    let values: Vec<bool> = (0..4096).map(|i| i % 2 == 0).collect();
    assert_eq!(encoder.put(&values), Ok(()));
    assert_eq!(
        encoder.put(&[true]),
        Err(ParquetError::General("RLE buffer is full".to_string()))
    );
    assert_eq!(encoder.put(&[]), Ok(()));
    // nine run headers and 512 groups of one byte behind the length
    assert_eq!(encoder.flush_buffer().unwrap().len(), 4 + 9 + 512);
    // the next batch has the sink to itself
    assert_eq!(encoder.put(&values[..3000]), Ok(()));
    assert_eq!(
        encoder.put(&values[..1097]),
        Err(ParquetError::General("RLE buffer is full".to_string()))
    );
}

#[test]
fn error_messages_can_be_read() {
    assert_eq!(ParquetError::General("a".to_string()).message(), "a");
    assert_eq!(ParquetError::NYI("b".to_string()).message(), "b");
    assert_eq!(ParquetError::EOF("c".to_string()).message(), "c");
}
