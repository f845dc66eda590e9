use parquet_encoding::basic::{Compression, Encoding, LogicalType, PageType, Repetition, Type};
use parquet_encoding::errors::ParquetError;
use parquet_format as parquet;


#[test]
fn test_display_type() {
  assert_eq!(Type::BOOLEAN.to_string(), "BOOLEAN");
  assert_eq!(Type::INT32.to_string(), "INT32");
  assert_eq!(Type::INT64.to_string(), "INT64");
  assert_eq!(Type::INT96.to_string(), "INT96");
  assert_eq!(Type::FLOAT.to_string(), "FLOAT");
  assert_eq!(Type::DOUBLE.to_string(), "DOUBLE");
  assert_eq!(Type::BYTE_ARRAY.to_string(), "BYTE_ARRAY");
  assert_eq!(Type::FIXED_LEN_BYTE_ARRAY.to_string(), "FIXED_LEN_BYTE_ARRAY");
}

#[test]
fn test_from_type() {
  assert_eq!(Type::from_code(parquet::Type::Boolean as i32).unwrap(), Type::BOOLEAN);
  assert_eq!(Type::from_code(parquet::Type::Int32 as i32).unwrap(), Type::INT32);
  assert_eq!(Type::from_code(parquet::Type::Int64 as i32).unwrap(), Type::INT64);
  assert_eq!(Type::from_code(parquet::Type::Int96 as i32).unwrap(), Type::INT96);
  assert_eq!(Type::from_code(parquet::Type::Float as i32).unwrap(), Type::FLOAT);
  assert_eq!(Type::from_code(parquet::Type::Double as i32).unwrap(), Type::DOUBLE);
  assert_eq!(Type::from_code(parquet::Type::ByteArray as i32).unwrap(), Type::BYTE_ARRAY);
  assert_eq!(
    Type::from_code(parquet::Type::FixedLenByteArray as i32).unwrap(),
    Type::FIXED_LEN_BYTE_ARRAY
  );
}

#[test]
fn test_from_string_into_type() {
  assert_eq!(Type::BOOLEAN.to_string().parse::<Type>().unwrap(), Type::BOOLEAN);
  assert_eq!(Type::INT32.to_string().parse::<Type>().unwrap(), Type::INT32);
  assert_eq!(Type::INT64.to_string().parse::<Type>().unwrap(), Type::INT64);
  assert_eq!(Type::INT96.to_string().parse::<Type>().unwrap(), Type::INT96);
  assert_eq!(Type::FLOAT.to_string().parse::<Type>().unwrap(), Type::FLOAT);
  assert_eq!(Type::DOUBLE.to_string().parse::<Type>().unwrap(), Type::DOUBLE);
  assert_eq!(Type::BYTE_ARRAY.to_string().parse::<Type>().unwrap(), Type::BYTE_ARRAY);
  assert_eq!("BINARY".parse::<Type>().unwrap(), Type::BYTE_ARRAY);
  assert_eq!(
    Type::FIXED_LEN_BYTE_ARRAY.to_string().parse::<Type>().unwrap(),
    Type::FIXED_LEN_BYTE_ARRAY
  );
}

#[test]
fn test_display_logical_type() {
  assert_eq!(LogicalType::NONE.to_string(), "NONE");
  assert_eq!(LogicalType::UTF8.to_string(), "UTF8");
  assert_eq!(LogicalType::MAP.to_string(), "MAP");
  assert_eq!(LogicalType::MAP_KEY_VALUE.to_string(), "MAP_KEY_VALUE");
  assert_eq!(LogicalType::LIST.to_string(), "LIST");
  assert_eq!(LogicalType::ENUM.to_string(), "ENUM");
  assert_eq!(LogicalType::DECIMAL.to_string(), "DECIMAL");
  assert_eq!(LogicalType::DATE.to_string(), "DATE");
  assert_eq!(LogicalType::TIME_MILLIS.to_string(), "TIME_MILLIS");
  assert_eq!(LogicalType::DATE.to_string(), "DATE");
  assert_eq!(LogicalType::TIME_MICROS.to_string(), "TIME_MICROS");
  assert_eq!(LogicalType::TIMESTAMP_MILLIS.to_string(), "TIMESTAMP_MILLIS");
  assert_eq!(LogicalType::TIMESTAMP_MICROS.to_string(), "TIMESTAMP_MICROS");
  assert_eq!(LogicalType::UINT_8.to_string(), "UINT_8");
  assert_eq!(LogicalType::UINT_16.to_string(), "UINT_16");
  assert_eq!(LogicalType::UINT_32.to_string(), "UINT_32");
  assert_eq!(LogicalType::UINT_64.to_string(), "UINT_64");
  assert_eq!(LogicalType::INT_8.to_string(), "INT_8");
  assert_eq!(LogicalType::INT_16.to_string(), "INT_16");
  assert_eq!(LogicalType::INT_32.to_string(), "INT_32");
  assert_eq!(LogicalType::INT_64.to_string(), "INT_64");
  assert_eq!(LogicalType::JSON.to_string(), "JSON");
  assert_eq!(LogicalType::BSON.to_string(), "BSON");
  assert_eq!(LogicalType::INTERVAL.to_string(), "INTERVAL");
}

  #[test]
fn test_from_logical_type() {
  assert_eq!(
    LogicalType::from(None),
    LogicalType::NONE
  );
  assert_eq!(
    LogicalType::from(Some(parquet::ConvertedType::Utf8)),
    LogicalType::UTF8
  );
  assert_eq!(
    LogicalType::from(Some(parquet::ConvertedType::Map)),
    LogicalType::MAP
  );
  assert_eq!(
    LogicalType::from(Some(parquet::ConvertedType::MapKeyValue)),
    LogicalType::MAP_KEY_VALUE
  );
  assert_eq!(
    LogicalType::from(Some(parquet::ConvertedType::List)),
    LogicalType::LIST
  );
  assert_eq!(
    LogicalType::from(Some(parquet::ConvertedType::Enum)),
    LogicalType::ENUM
  );
  assert_eq!(
    LogicalType::from(Some(parquet::ConvertedType::Decimal)),
    LogicalType::DECIMAL
  );
  assert_eq!(
    LogicalType::from(Some(parquet::ConvertedType::Date)),
    LogicalType::DATE
  );
  assert_eq!(
    LogicalType::from(Some(parquet::ConvertedType::TimeMillis)),
    LogicalType::TIME_MILLIS
  );
  assert_eq!(
    LogicalType::from(Some(parquet::ConvertedType::TimeMicros)),
    LogicalType::TIME_MICROS
  );
  assert_eq!(
    LogicalType::from(Some(parquet::ConvertedType::TimestampMillis)),
    LogicalType::TIMESTAMP_MILLIS
  );
  assert_eq!(
    LogicalType::from(Some(parquet::ConvertedType::TimestampMicros)),
    LogicalType::TIMESTAMP_MICROS
  );
  assert_eq!(
    LogicalType::from(Some(parquet::ConvertedType::Uint8)),
    LogicalType::UINT_8
  );
  assert_eq!(
    LogicalType::from(Some(parquet::ConvertedType::Uint16)),
    LogicalType::UINT_16
  );
  assert_eq!(
    LogicalType::from(Some(parquet::ConvertedType::Uint32)),
    LogicalType::UINT_32
  );
  assert_eq!(
    LogicalType::from(Some(parquet::ConvertedType::Uint64)),
    LogicalType::UINT_64
  );
  assert_eq!(
    LogicalType::from(Some(parquet::ConvertedType::Int8)),
    LogicalType::INT_8
  );
  assert_eq!(
    LogicalType::from(Some(parquet::ConvertedType::Int16)),
    LogicalType::INT_16
  );
  assert_eq!(
    LogicalType::from(Some(parquet::ConvertedType::Int32)),
    LogicalType::INT_32
  );
  assert_eq!(
    LogicalType::from(Some(parquet::ConvertedType::Int64)),
    LogicalType::INT_64
  );
  assert_eq!(
    LogicalType::from(Some(parquet::ConvertedType::Json)),
    LogicalType::JSON
  );
  assert_eq!(
    LogicalType::from(Some(parquet::ConvertedType::Bson)),
    LogicalType::BSON
  );
  assert_eq!(
    LogicalType::from(Some(parquet::ConvertedType::Interval)),
    LogicalType::INTERVAL
  );
}

#[test]
fn test_from_string_into_logical_type() {
  assert_eq!(
    LogicalType::NONE.to_string().parse::<LogicalType>().unwrap(),
    LogicalType::NONE
  );
  assert_eq!(
    LogicalType::UTF8.to_string().parse::<LogicalType>().unwrap(),
    LogicalType::UTF8
  );
  assert_eq!(
    LogicalType::MAP.to_string().parse::<LogicalType>().unwrap(),
    LogicalType::MAP
  );
  assert_eq!(
    LogicalType::MAP_KEY_VALUE.to_string().parse::<LogicalType>().unwrap(),
    LogicalType::MAP_KEY_VALUE
  );
  assert_eq!(
    LogicalType::LIST.to_string().parse::<LogicalType>().unwrap(),
    LogicalType::LIST
  );
  assert_eq!(
    LogicalType::ENUM.to_string().parse::<LogicalType>().unwrap(),
    LogicalType::ENUM
  );
  assert_eq!(
    LogicalType::DECIMAL.to_string().parse::<LogicalType>().unwrap(),
    LogicalType::DECIMAL
  );
  assert_eq!(
    LogicalType::DATE.to_string().parse::<LogicalType>().unwrap(),
    LogicalType::DATE
  );
  assert_eq!(
    LogicalType::TIME_MILLIS.to_string().parse::<LogicalType>().unwrap(),
    LogicalType::TIME_MILLIS
  );
  assert_eq!(
    LogicalType::TIME_MICROS.to_string().parse::<LogicalType>().unwrap(),
    LogicalType::TIME_MICROS
  );
  assert_eq!(
    LogicalType::TIMESTAMP_MILLIS.to_string().parse::<LogicalType>().unwrap(),
    LogicalType::TIMESTAMP_MILLIS
  );
  assert_eq!(
    LogicalType::TIMESTAMP_MICROS.to_string().parse::<LogicalType>().unwrap(),
    LogicalType::TIMESTAMP_MICROS
  );
  assert_eq!(
    LogicalType::UINT_8.to_string().parse::<LogicalType>().unwrap(),
    LogicalType::UINT_8
  );
  assert_eq!(
    LogicalType::UINT_16.to_string().parse::<LogicalType>().unwrap(),
    LogicalType::UINT_16
  );
  assert_eq!(
    LogicalType::UINT_32.to_string().parse::<LogicalType>().unwrap(),
    LogicalType::UINT_32
  );
  assert_eq!(
    LogicalType::UINT_64.to_string().parse::<LogicalType>().unwrap(),
    LogicalType::UINT_64
  );
  assert_eq!(
    LogicalType::INT_8.to_string().parse::<LogicalType>().unwrap(),
    LogicalType::INT_8
  );
  assert_eq!(
    LogicalType::INT_16.to_string().parse::<LogicalType>().unwrap(),
    LogicalType::INT_16
  );
  assert_eq!(
    LogicalType::INT_32.to_string().parse::<LogicalType>().unwrap(),
    LogicalType::INT_32
  );
  assert_eq!(
    LogicalType::INT_64.to_string().parse::<LogicalType>().unwrap(),
    LogicalType::INT_64
  );
  assert_eq!(
    LogicalType::JSON.to_string().parse::<LogicalType>().unwrap(),
    LogicalType::JSON
  );
  assert_eq!(
    LogicalType::BSON.to_string().parse::<LogicalType>().unwrap(),
    LogicalType::BSON
  );
  assert_eq!(
    LogicalType::INTERVAL.to_string().parse::<LogicalType>().unwrap(),
    LogicalType::INTERVAL
  );
}

#[test]
fn test_display_repetition() {
  assert_eq!(Repetition::REQUIRED.to_string(), "REQUIRED");
  assert_eq!(Repetition::OPTIONAL.to_string(), "OPTIONAL");
  assert_eq!(Repetition::REPEATED.to_string(), "REPEATED");
}

#[test]
fn test_from_repetition() {
  assert_eq!(
    Repetition::from(parquet::FieldRepetitionType::Required),
    Repetition::REQUIRED
  );
  assert_eq!(
    Repetition::from(parquet::FieldRepetitionType::Optional),
    Repetition::OPTIONAL
  );
  assert_eq!(
    Repetition::from(parquet::FieldRepetitionType::Repeated),
    Repetition::REPEATED
  );
}

#[test]
fn test_from_string_into_repetition() {
  assert_eq!(
    Repetition::REQUIRED.to_string().parse::<Repetition>().unwrap(),
    Repetition::REQUIRED
  );
  assert_eq!(
    Repetition::OPTIONAL.to_string().parse::<Repetition>().unwrap(),
    Repetition::OPTIONAL
  );
  assert_eq!(
    Repetition::REPEATED.to_string().parse::<Repetition>().unwrap(),
    Repetition::REPEATED
  );
}

#[test]
fn test_display_encoding() {
  assert_eq!(Encoding::PLAIN.to_string(), "PLAIN");
  assert_eq!(Encoding::PLAIN_DICTIONARY.to_string(), "PLAIN_DICTIONARY");
  assert_eq!(Encoding::RLE.to_string(), "RLE");
  assert_eq!(Encoding::BIT_PACKED.to_string(), "BIT_PACKED");
  assert_eq!(Encoding::DELTA_BINARY_PACKED.to_string(), "DELTA_BINARY_PACKED");
  assert_eq!(Encoding::DELTA_LENGTH_BYTE_ARRAY.to_string(), "DELTA_LENGTH_BYTE_ARRAY");
  assert_eq!(Encoding::DELTA_BYTE_ARRAY.to_string(), "DELTA_BYTE_ARRAY");
  assert_eq!(Encoding::RLE_DICTIONARY.to_string(), "RLE_DICTIONARY");
}

#[test]
fn test_from_encoding() {
  assert_eq!(
    Encoding::from_code(parquet::Encoding::Plain as i32).unwrap(),
    Encoding::PLAIN
  );
  assert_eq!(
    Encoding::from_code(parquet::Encoding::PlainDictionary as i32).unwrap(),
    Encoding::PLAIN_DICTIONARY
  );
  assert_eq!(Encoding::from_code(parquet::Encoding::Rle as i32).unwrap(), Encoding::RLE);
  assert_eq!(Encoding::from_code(parquet::Encoding::BitPacked as i32).unwrap(), Encoding::BIT_PACKED);
  assert_eq!(
    Encoding::from_code(parquet::Encoding::DeltaBinaryPacked as i32).unwrap(),
    Encoding::DELTA_BINARY_PACKED
  );
  assert_eq!(
    Encoding::from_code(parquet::Encoding::DeltaLengthByteArray as i32).unwrap(),
    Encoding::DELTA_LENGTH_BYTE_ARRAY
  );
  assert_eq!(
    Encoding::from_code(parquet::Encoding::DeltaByteArray as i32).unwrap(),
    Encoding::DELTA_BYTE_ARRAY
  );
}

#[test]
fn test_display_compression() {
  assert_eq!(Compression::UNCOMPRESSED.to_string(), "UNCOMPRESSED");
  assert_eq!(Compression::SNAPPY.to_string(), "SNAPPY");
  assert_eq!(Compression::GZIP.to_string(), "GZIP");
  assert_eq!(Compression::LZO.to_string(), "LZO");
  assert_eq!(Compression::BROTLI.to_string(), "BROTLI");
  assert_eq!(Compression::LZ4.to_string(), "LZ4");
  assert_eq!(Compression::ZSTD.to_string(), "ZSTD");
}

#[test]
fn test_from_compression() {
  assert_eq!(
    Compression::from(parquet::CompressionCodec::Uncompressed),
    Compression::UNCOMPRESSED
  );
  assert_eq!(
    Compression::from(parquet::CompressionCodec::Snappy),
    Compression::SNAPPY
  );
  assert_eq!(
    Compression::from(parquet::CompressionCodec::Gzip),
    Compression::GZIP
  );
  assert_eq!(
    Compression::from(parquet::CompressionCodec::Lzo),
    Compression::LZO
  );
  assert_eq!(
    Compression::from(parquet::CompressionCodec::Brotli),
    Compression::BROTLI
  );
  assert_eq!(
    Compression::from(parquet::CompressionCodec::Lz4),
    Compression::LZ4
  );
  assert_eq!(
    Compression::from(parquet::CompressionCodec::Zstd),
    Compression::ZSTD
  );
}

#[test]
fn test_display_page_type() {
  assert_eq!(PageType::DATA_PAGE.to_string(), "DATA_PAGE");
  assert_eq!(PageType::INDEX_PAGE.to_string(), "INDEX_PAGE");
  assert_eq!(PageType::DICTIONARY_PAGE.to_string(), "DICTIONARY_PAGE");
  assert_eq!(PageType::DATA_PAGE_V2.to_string(), "DATA_PAGE_V2");
}

#[test]
fn test_from_page_type() {
  assert_eq!(PageType::from_code(parquet::PageType::DataPage as i32).unwrap(), PageType::DATA_PAGE);
  assert_eq!(PageType::from_code(parquet::PageType::IndexPage as i32).unwrap(), PageType::INDEX_PAGE);
  assert_eq!(
    PageType::from_code(parquet::PageType::DictionaryPage as i32).unwrap(),
    PageType::DICTIONARY_PAGE
  );
  assert_eq!(PageType::from_code(parquet::PageType::DataPageV2 as i32).unwrap(), PageType::DATA_PAGE_V2);
}

#[test]
fn test_from_string_rejects_unknown_names() {
    assert_eq!(
        "INT16".parse::<Type>(),
        Err(ParquetError::General("Invalid type INT16".to_string()))
    );
    assert_eq!(
        "".parse::<LogicalType>(),
        Err(ParquetError::General("Invalid logical type ".to_string()))
    );
    assert_eq!(
        "required".parse::<Repetition>(),
        Err(ParquetError::General("Invalid repetition required".to_string()))
    );
}

#[test]
fn test_from_code_follows_the_format() {
    assert_eq!(Type::from_code(0), Some(Type::BOOLEAN));
    assert_eq!(Type::from_code(7), Some(Type::FIXED_LEN_BYTE_ARRAY));
    assert_eq!(Type::from_code(8), None);
    assert_eq!(Type::from_code(-1), None);
    assert_eq!(LogicalType::from_code(0), Some(LogicalType::UTF8));
    assert_eq!(LogicalType::from_code(21), Some(LogicalType::INTERVAL));
    assert_eq!(LogicalType::from_code(22), None);
    assert_eq!(Repetition::from_code(2), Some(Repetition::REPEATED));
    assert_eq!(Repetition::from_code(3), None);
    assert_eq!(Encoding::from_code(0), Some(Encoding::PLAIN));
    assert_eq!(Encoding::from_code(1), None);
    assert_eq!(Encoding::from_code(2), Some(Encoding::PLAIN_DICTIONARY));
    assert_eq!(Encoding::from_code(8), Some(Encoding::RLE_DICTIONARY));
    assert_eq!(Encoding::from_code(9), None);
    assert_eq!(Compression::from_code(6), Some(Compression::ZSTD));
    assert_eq!(Compression::from_code(7), None);
    assert_eq!(PageType::from_code(3), Some(PageType::DATA_PAGE_V2));
    assert_eq!(PageType::from_code(4), None);
}

#[test]
fn test_from_rle_dictionary_encoding() {
    assert_eq!(
        Encoding::from_code(parquet::Encoding::RleDictionary as i32).unwrap(),
        Encoding::RLE_DICTIONARY
    );
}
