use parquet_encoding::basic::{Encoding, Type};
use parquet_encoding::data_type::{
    BoolType, ByteArrayType, DataType, DoubleType, FixedLenByteArrayType, FloatType, Int32Type,
    Int64Type, Int96Type,
};
use parquet_encoding::encodings::encoding::{get_encoder, DictEncoder, Encoder};
use parquet_encoding::schema::ColumnDescriptor;
use parquet_encoding::util::test_common::RandGen;

const TEST_SET_SIZE: usize = 1024;

// ----------------------------------------------------------------------
// Decoders, written from the format, to read back what the encoders wrote.

struct BitReader<'a> {
    data: &'a [u8],
    pos: usize,
}

impl<'a> BitReader<'a> {
    fn new(data: &'a [u8]) -> Self {
        BitReader { data, pos: 0 }
    }

    fn read(&mut self, num_bits: usize) -> u64 {
        let mut v: u64 = 0;
        for i in 0..num_bits {
            let byte = self.data[self.pos / 8];
            if (byte >> (self.pos % 8)) & 1 == 1 {
                v |= 1u64 << i;
            }
            self.pos += 1;
        }
        v
    }

    fn align(&mut self) {
        self.pos = (self.pos + 7) / 8 * 8;
    }

    fn read_bytes(&mut self, n: usize) -> Vec<u8> {
        self.align();
        let start = self.pos / 8;
        self.pos += 8 * n;
        self.data[start..start + n].to_vec()
    }

    fn read_vlq(&mut self) -> u64 {
        self.align();
        let mut v: u64 = 0;
        let mut shift = 0;
        loop {
            let byte = self.data[self.pos / 8];
            self.pos += 8;
            v |= ((byte & 0x7f) as u64) << shift;
            if byte & 0x80 == 0 {
                return v;
            }
            shift += 7;
        }
    }

    fn read_zigzag(&mut self) -> i64 {
        let u = self.read_vlq();
        ((u >> 1) as i64) ^ -((u & 1) as i64)
    }

    fn byte_pos(&self) -> usize {
        (self.pos + 7) / 8
    }
}

fn decode_plain(t: Type, data: &[u8], n: usize, type_len: i32) -> Vec<Vec<u8>> {
    let mut out = Vec::new();
    let mut reader = BitReader::new(data);
    for _ in 0..n {
        let raw = match t {
            Type::BOOLEAN => vec![reader.read(1) as u8],
            Type::INT32 | Type::FLOAT => reader.read_bytes(4),
            Type::INT64 | Type::DOUBLE => reader.read_bytes(8),
            Type::INT96 => reader.read_bytes(12),
            Type::BYTE_ARRAY => {
                let len = reader.read_bytes(4);
                let len = u32::from_le_bytes([len[0], len[1], len[2], len[3]]) as usize;
                reader.read_bytes(len)
            }
            Type::FIXED_LEN_BYTE_ARRAY => reader.read_bytes(type_len as usize),
        };
        out.push(raw);
    }
    out
}

fn decode_hybrid(data: &[u8], width: usize, n: usize) -> Vec<u64> {
    let mut out = Vec::new();
    let mut reader = BitReader::new(data);
    while out.len() < n {
        let header = reader.read_vlq();
        if header & 1 == 0 {
            let bytes = reader.read_bytes((width + 7) / 8);
            let mut v: u64 = 0;
            for (i, b) in bytes.iter().enumerate() {
                v |= (*b as u64) << (8 * i);
            }
            for _ in 0..(header >> 1) {
                out.push(v);
            }
        } else {
            for _ in 0..(header >> 1) * 8 {
                out.push(reader.read(width));
            }
        }
    }
    out.truncate(n);
    out
}

/// Returns the values and the number of bytes that the page takes.
fn decode_delta(data: &[u8], wide: bool) -> (Vec<i64>, usize) {
    let mut reader = BitReader::new(data);
    let block_size = reader.read_vlq() as usize;
    let num_mini_blocks = reader.read_vlq() as usize;
    let total = reader.read_vlq() as usize;
    let first = reader.read_zigzag();
    assert_eq!(block_size, 128);
    assert_eq!(num_mini_blocks, 4);
    let mini_block_size = block_size / num_mini_blocks;
    let mut values = Vec::new();
    if total == 0 {
        return (values, reader.byte_pos());
    }
    values.push(first);
    let mut current = first;
    let mut remaining = total - 1;
    while remaining > 0 {
        let min_delta = reader.read_zigzag();
        let widths = reader.read_bytes(num_mini_blocks);
        for i in 0..num_mini_blocks {
            if remaining == 0 {
                assert_eq!(widths[i], 0);
                continue;
            }
            let take = remaining.min(mini_block_size);
            for j in 0..mini_block_size {
                let packed = reader.read(widths[i] as usize);
                if j < take {
                    current = if wide {
                        current.wrapping_add(min_delta.wrapping_add(packed as i64))
                    } else {
                        (current as i32).wrapping_add((min_delta as i32).wrapping_add(packed as i32))
                            as i64
                    };
                    values.push(current);
                } else {
                    assert_eq!(packed, 0);
                }
            }
            remaining -= take;
        }
    }
    (values, reader.byte_pos())
}

fn decode_delta_length(data: &[u8]) -> Vec<Vec<u8>> {
    let (lengths, mut at) = decode_delta(data, false);
    let mut out = Vec::new();
    for len in lengths {
        out.push(data[at..at + len as usize].to_vec());
        at += len as usize;
    }
    assert_eq!(at, data.len());
    out
}

fn decode_delta_byte_array(data: &[u8], previous: &mut Vec<u8>) -> Vec<Vec<u8>> {
    let (prefix_lengths, at) = decode_delta(data, false);
    let suffixes = decode_delta_length(&data[at..]);
    assert_eq!(prefix_lengths.len(), suffixes.len());
    let mut out = Vec::new();
    for (len, suffix) in prefix_lengths.iter().zip(suffixes.iter()) {
        let mut value = previous[..*len as usize].to_vec();
        value.extend_from_slice(suffix);
        *previous = value.clone();
        out.push(value);
    }
    out
}

fn int_raw(t: Type, v: i64) -> Vec<u8> {
    match t {
        Type::INT32 => (v as i32).to_le_bytes().to_vec(),
        _ => v.to_le_bytes().to_vec(),
    }
}

fn raws<T: DataType>(values: &[T::T]) -> Vec<Vec<u8>> {
    values
        .iter()
        .map(|v| {
            let mut raw = Vec::new();
            T::write_raw(v, &mut raw);
            raw
        })
        .collect()
}

fn decode(
    enc: Encoding,
    t: Type,
    data: &[u8],
    total: usize,
    type_len: i32,
    previous: &mut Vec<u8>,
) -> Vec<Vec<u8>> {
    match enc {
        Encoding::PLAIN => decode_plain(t, data, total, type_len),
        Encoding::RLE => {
            let len = u32::from_le_bytes([data[0], data[1], data[2], data[3]]) as usize;
            assert_eq!(len, data.len() - 4);
            decode_hybrid(&data[4..], 1, total).iter().map(|v| vec![*v as u8]).collect()
        }
        Encoding::DELTA_BINARY_PACKED => {
            let (values, used) = decode_delta(data, t == Type::INT64);
            assert_eq!(used, data.len());
            values.iter().map(|v| int_raw(t, *v)).collect()
        }
        Encoding::DELTA_LENGTH_BYTE_ARRAY => decode_delta_length(data),
        Encoding::DELTA_BYTE_ARRAY => decode_delta_byte_array(data, previous),
        _ => panic!("Not implemented yet."),
    }
}

fn test_internal<T: DataType + RandGen<T>>(enc: Encoding, total: usize, type_length: i32) {
    let t = T::get_physical_type();
    let desc = ColumnDescriptor::new(t, type_length);
    let mut encoder = get_encoder::<T>(desc, enc).unwrap();
    assert_eq!(encoder.encoding(), enc);
    let mut previous = Vec::new();

    let mut values = <T as RandGen<T>>::gen_vec(type_length, total);
    encoder.put(&values[..]).unwrap();
    let mut data = encoder.flush_buffer().unwrap();
    let mut result_data = decode(enc, t, &data, total, type_length, &mut previous);
    assert_eq!(result_data.len(), total);
    assert_eq!(result_data, raws::<T>(&values));

    // Encode more data after flush and test with decoder

    values = <T as RandGen<T>>::gen_vec(type_length, total);
    encoder.put(&values[..]).unwrap();
    data = encoder.flush_buffer().unwrap();
    result_data = decode(enc, t, &data, total, type_length, &mut previous);
    assert_eq!(result_data.len(), total);
    assert_eq!(result_data, raws::<T>(&values));
}

fn decode_dict<T: DataType>(
    encoder: &DictEncoder<T>,
    data: &[u8],
    total: usize,
    type_length: i32,
) -> Vec<Vec<u8>> {
    let dict_page = encoder.write_dict().unwrap();
    let dict =
        decode_plain(T::get_physical_type(), &dict_page, encoder.num_entries(), type_length);
    let bit_width = data[0] as usize;
    assert_eq!(bit_width, encoder.bit_width() as usize);
    decode_hybrid(&data[1..], bit_width, total).iter().map(|i| dict[*i as usize].clone()).collect()
}

fn test_dict_internal<T: DataType + RandGen<T>>(total: usize, type_length: i32) {
    let desc = ColumnDescriptor::new(T::get_physical_type(), type_length);
    let mut encoder = DictEncoder::<T>::new(desc);
    assert_eq!(encoder.encoding(), Encoding::PLAIN_DICTIONARY);

    let mut values = <T as RandGen<T>>::gen_vec(type_length, total);
    encoder.put(&values[..]).unwrap();
    let mut data = encoder.flush_buffer().unwrap();
    let mut result_data = decode_dict(&encoder, &data, total, type_length);
    assert_eq!(result_data.len(), total);
    assert_eq!(result_data, raws::<T>(&values));

    // Encode more data after flush and test with decoder

    values = <T as RandGen<T>>::gen_vec(type_length, total);
    encoder.put(&values[..]).unwrap();
    data = encoder.flush_buffer().unwrap();
    result_data = decode_dict(&encoder, &data, total, type_length);
    assert_eq!(result_data.len(), total);
    assert_eq!(result_data, raws::<T>(&values));
}

fn test<T: DataType + RandGen<T>>(enc: Encoding, total: usize, type_length: i32) {
    match enc {
        Encoding::PLAIN_DICTIONARY => test_dict_internal::<T>(total, type_length),
        enc => test_internal::<T>(enc, total, type_length),
    }
}

#[test]
fn test_bool() {
    test::<BoolType>(Encoding::PLAIN, TEST_SET_SIZE, -1);
    test::<BoolType>(Encoding::PLAIN_DICTIONARY, TEST_SET_SIZE, -1);
    test::<BoolType>(Encoding::RLE, TEST_SET_SIZE, -1);
}

#[test]
fn test_i32() {
    test::<Int32Type>(Encoding::PLAIN, TEST_SET_SIZE, -1);
    test::<Int32Type>(Encoding::PLAIN_DICTIONARY, TEST_SET_SIZE, -1);
    test::<Int32Type>(Encoding::DELTA_BINARY_PACKED, TEST_SET_SIZE, -1);
}

#[test]
fn test_i64() {
    test::<Int64Type>(Encoding::PLAIN, TEST_SET_SIZE, -1);
    test::<Int64Type>(Encoding::PLAIN_DICTIONARY, TEST_SET_SIZE, -1);
    test::<Int64Type>(Encoding::DELTA_BINARY_PACKED, TEST_SET_SIZE, -1);
}

#[test]
fn test_i96() {
    test::<Int96Type>(Encoding::PLAIN, TEST_SET_SIZE, -1);
    test::<Int96Type>(Encoding::PLAIN_DICTIONARY, TEST_SET_SIZE, -1);
}

#[test]
fn test_float() {
    test::<FloatType>(Encoding::PLAIN, TEST_SET_SIZE, -1);
    test::<FloatType>(Encoding::PLAIN_DICTIONARY, TEST_SET_SIZE, -1);
}

#[test]
fn test_double() {
    test::<DoubleType>(Encoding::PLAIN, TEST_SET_SIZE, -1);
    test::<DoubleType>(Encoding::PLAIN_DICTIONARY, TEST_SET_SIZE, -1);
}

#[test]
fn test_byte_array() {
    test::<ByteArrayType>(Encoding::PLAIN, TEST_SET_SIZE, -1);
    test::<ByteArrayType>(Encoding::PLAIN_DICTIONARY, TEST_SET_SIZE, -1);
    test::<ByteArrayType>(Encoding::DELTA_LENGTH_BYTE_ARRAY, TEST_SET_SIZE, -1);
    test::<ByteArrayType>(Encoding::DELTA_BYTE_ARRAY, TEST_SET_SIZE, -1);
}

#[test]
fn test_fixed_lenbyte_array() {
    test::<FixedLenByteArrayType>(Encoding::PLAIN, TEST_SET_SIZE, 100);
    test::<FixedLenByteArrayType>(Encoding::PLAIN_DICTIONARY, TEST_SET_SIZE, 100);
}

#[test]
fn test_float_values_go_by_their_bits() {
    let values: Vec<u32> = vec![1.5f32.to_bits(), (-0.0f32).to_bits(), f32::NAN.to_bits()];
    let desc = ColumnDescriptor::new(Type::FLOAT, -1);
    let mut encoder = get_encoder::<FloatType>(desc, Encoding::PLAIN).unwrap();
    encoder.put(&values).unwrap();
    let data = encoder.flush_buffer().unwrap();
    let mut expected = Vec::new();
    for v in [1.5f32, -0.0f32, f32::NAN] {
        expected.extend_from_slice(&v.to_le_bytes());
    }
    assert_eq!(data, expected);

    let doubles: Vec<u64> = vec![2.25f64.to_bits()];
    let desc = ColumnDescriptor::new(Type::DOUBLE, -1);
    let mut encoder = get_encoder::<DoubleType>(desc, Encoding::PLAIN).unwrap();
    encoder.put(&doubles).unwrap();
    assert_eq!(encoder.flush_buffer().unwrap(), 2.25f64.to_le_bytes().to_vec());
}
