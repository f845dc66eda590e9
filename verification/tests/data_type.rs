use parquet_encoding::basic::Type;
use parquet_encoding::data_type::{
    push_bytes, push_le_bytes, BoolType, ByteArray, ByteArrayType, DataType, DoubleType,
    FixedLenByteArrayType, FloatType, Int32Type, Int64Type, Int96, Int96Type,
};
use parquet_encoding::schema::ColumnDescriptor;
use parquet_encoding::util::test_common::{
    bool_from_bits, i32_from_bits, i64_from_bits, random_bools, random_bytes, random_numbers,
    random_numbers_range, u32_from_bits, RandGen,
};

fn raw<T: DataType>(v: &T::T) -> Vec<u8> {
    let mut out = vec![0xee];
    T::write_raw(v, &mut out);
    assert_eq!(out[0], 0xee);
    out[1..].to_vec()
}

#[test]
fn physical_types() {
    assert_eq!(BoolType::get_physical_type(), Type::BOOLEAN);
    assert_eq!(Int32Type::get_physical_type(), Type::INT32);
    assert_eq!(Int64Type::get_physical_type(), Type::INT64);
    assert_eq!(Int96Type::get_physical_type(), Type::INT96);
    assert_eq!(FloatType::get_physical_type(), Type::FLOAT);
    assert_eq!(DoubleType::get_physical_type(), Type::DOUBLE);
    assert_eq!(ByteArrayType::get_physical_type(), Type::BYTE_ARRAY);
    assert_eq!(FixedLenByteArrayType::get_physical_type(), Type::FIXED_LEN_BYTE_ARRAY);
}

#[test]
fn bytes_of_values() {
    assert_eq!(raw::<BoolType>(&true), vec![1]);
    assert_eq!(raw::<BoolType>(&false), vec![0]);
    assert_eq!(raw::<Int32Type>(&-2), (-2i32).to_le_bytes());
    assert_eq!(raw::<Int32Type>(&i32::MAX), i32::MAX.to_le_bytes());
    assert_eq!(raw::<Int64Type>(&i64::MIN), i64::MIN.to_le_bytes());
    assert_eq!(raw::<Int64Type>(&-1), [0xff; 8]);
    assert_eq!(raw::<FloatType>(&0x0102_0304), vec![4, 3, 2, 1]);
    assert_eq!(raw::<DoubleType>(&1), vec![1, 0, 0, 0, 0, 0, 0, 0]);
    assert_eq!(
        raw::<Int96Type>(&Int96::from_words(1, 2, 3)),
        vec![1, 0, 0, 0, 2, 0, 0, 0, 3, 0, 0, 0]
    );
    assert_eq!(raw::<ByteArrayType>(&ByteArray::from_vec(vec![5, 6])), vec![5, 6]);
    assert_eq!(raw::<FixedLenByteArrayType>(&ByteArray::new()), Vec::<u8>::new());
}

#[test]
fn numbers_of_values() {
    assert_eq!(BoolType::as_i64(&true), 1);
    assert_eq!(BoolType::as_i64(&false), 0);
    assert_eq!(Int32Type::as_i64(&-7), -7);
    assert_eq!(Int64Type::as_i64(&i64::MIN), i64::MIN);
    assert_eq!(FloatType::as_i64(&7), 0);
    assert_eq!(ByteArrayType::as_i64(&ByteArray::from_vec(vec![1])), 0);
}

#[test]
fn appending_bytes() {
    let mut out = vec![1];
    push_le_bytes(&mut out, 0x0a0b0c, 2);
    push_le_bytes(&mut out, 5, 0);
    push_bytes(&mut out, &[7, 8]);
    push_le_bytes(&mut out, 1, 9);
    assert_eq!(out, vec![1, 0x0c, 0x0b, 7, 8, 1, 0, 0, 0, 0, 0, 0, 0, 0]);
}

#[test]
fn byte_arrays() {
    let mut a = ByteArray::new();
    assert_eq!(a.len(), 0);
    a.set_data(vec![1, 2, 3, 4]);
    assert_eq!(a.len(), 4);
    assert_eq!(a.data(), [1, 2, 3, 4]);
    assert_eq!(a.slice(1, 2), ByteArray::from_vec(vec![2, 3]));
    assert_eq!(a.slice(4, 0), ByteArray::new());
    assert_eq!(a.slice(0, 4), a);
    assert_eq!(ByteArray::from(vec![1, 2, 3, 4]), a);
}

#[test]
fn int96_values() {
    let mut v = Int96::new();
    assert_eq!(v.data(), &[0, 0, 0]);
    v.set_data(1, 2, 3);
    assert_eq!(v.data(), &[1, 2, 3]);
    assert_eq!(v, Int96::from_words(1, 2, 3));
}

#[test]
fn column_descriptors() {
    let desc = ColumnDescriptor::new(Type::FIXED_LEN_BYTE_ARRAY, 12);
    assert_eq!(desc.physical_type(), Type::FIXED_LEN_BYTE_ARRAY);
    assert_eq!(desc.type_length(), 12);
}

#[test]
fn random_bytes_are_below_255() {
    let bytes = random_bytes(4000);
    assert_eq!(bytes.len(), 4000);
    assert!(bytes.iter().all(|b| *b < 255));
    assert!(bytes.iter().any(|b| *b != bytes[0]));
    assert_eq!(random_bytes(0), Vec::<u8>::new());
}

#[test]
fn random_bools_come_in_the_number_asked_for() {
    let bools = random_bools(2000);
    assert_eq!(bools.len(), 2000);
    assert!(bools.iter().any(|b| *b));
    assert!(bools.iter().any(|b| !*b));
}

#[test]
fn random_numbers_range_stays_in_range() {
    let mut numbers = vec![100];
    random_numbers_range(3000, -5, 5, &mut numbers);
    assert_eq!(numbers.len(), 3001);
    assert_eq!(numbers[0], 100);
    assert!(numbers[1..].iter().all(|v| -5 <= *v && *v < 5));
    assert!(numbers[1..].iter().any(|v| *v != numbers[1]));
    random_numbers_range(10, i64::MIN, i64::MAX, &mut numbers);
    assert_eq!(numbers.len(), 3011);
    random_numbers_range(5, 7, 8, &mut numbers);
    assert_eq!(numbers[3011..], [7; 5]);
}

#[test]
fn random_values_of_each_type() {
    assert_eq!(random_numbers::<Int32Type>(5).len(), 5);
    assert_eq!(random_numbers::<Int64Type>(0).len(), 0);
    assert_eq!(<BoolType as RandGen<BoolType>>::gen_vec(-1, 7).len(), 7);
    assert_eq!(<Int96Type as RandGen<Int96Type>>::gen_vec(-1, 3).len(), 3);
    assert_eq!(<FloatType as RandGen<FloatType>>::gen_vec(-1, 3).len(), 3);
    assert_eq!(<DoubleType as RandGen<DoubleType>>::gen_vec(-1, 3).len(), 3);
    let arrays = <ByteArrayType as RandGen<ByteArrayType>>::gen_vec(-1, 300);
    assert_eq!(arrays.len(), 300);
    assert!(arrays.iter().all(|a| a.len() < 128 && a.data().iter().all(|b| *b < 255)));
    let fixed = <FixedLenByteArrayType as RandGen<FixedLenByteArrayType>>::gen_vec(10, 50);
    assert!(fixed.iter().all(|a| a.len() == 10));
    let free = <FixedLenByteArrayType as RandGen<FixedLenByteArrayType>>::gen_vec(-1, 50);
    assert!(free.iter().all(|a| a.len() < 128));
    let values = random_numbers::<Int64Type>(100);
    assert!(values.iter().any(|v| *v != values[0]));
}

#[test]
fn values_from_bits() {
    assert!(!bool_from_bits(0));
    assert!(bool_from_bits(1));
    assert!(!bool_from_bits(2));
    assert!(bool_from_bits(u64::MAX));
    assert_eq!(u32_from_bits(0), 0);
    assert_eq!(u32_from_bits(0x1_0000_0005), 5);
    assert_eq!(u32_from_bits(u64::MAX), u32::MAX);
    assert_eq!(i32_from_bits(0), 0);
    assert_eq!(i32_from_bits(0x7fff_ffff), i32::MAX);
    assert_eq!(i32_from_bits(0x8000_0000), i32::MIN);
    assert_eq!(i32_from_bits(0xffff_ffff), -1);
    assert_eq!(i32_from_bits(0xabcd_0000_0000_0007), 7);
    assert_eq!(i64_from_bits(0), 0);
    assert_eq!(i64_from_bits(0x7fff_ffff_ffff_ffff), i64::MAX);
    assert_eq!(i64_from_bits(0x8000_0000_0000_0000), i64::MIN);
    assert_eq!(i64_from_bits(u64::MAX), -1);
}
