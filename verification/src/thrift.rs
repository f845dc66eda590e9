//! From the enumerations of the Thrift definition of the format to those of
//! this library: a value goes to the value with the same number.

use vstd::prelude::*;
use vstd::std_specs::convert::FromSpecImpl;
use crate::basic::{Compression, LogicalType, Repetition};
use crate::thrift_codes::{
    compression_code, converted_type_code, repetition_code, thrift_compression_code,
    thrift_converted_type_code, thrift_repetition_code,
};

verus! {

impl From<Option<parquet_format::ConvertedType>> for LogicalType {
    fn from(op: Option<parquet_format::ConvertedType>) -> (r: LogicalType) {
        match op {
            None => LogicalType::NONE,
            Some(tp) => match LogicalType::from_code(converted_type_code(tp)) {
                Some(v) => v,
                None => LogicalType::NONE,
            },
        }
    }
}

impl FromSpecImpl<Option<parquet_format::ConvertedType>> for LogicalType {
    open spec fn obeys_from_spec() -> bool {
        true
    }

    /// NONE where there is no converted type; else the logical type with
    /// the number of the converted type.
    open spec fn from_spec(op: Option<parquet_format::ConvertedType>) -> LogicalType {
        match op {
            None => LogicalType::NONE,
            Some(tp) => LogicalType::of_code(thrift_converted_type_code(tp))->Some_0,
        }
    }
}

impl From<parquet_format::FieldRepetitionType> for Repetition {
    fn from(tp: parquet_format::FieldRepetitionType) -> (r: Repetition) {
        match Repetition::from_code(repetition_code(tp)) {
            Some(v) => v,
            None => Repetition::REQUIRED,
        }
    }
}

impl FromSpecImpl<parquet_format::FieldRepetitionType> for Repetition {
    open spec fn obeys_from_spec() -> bool {
        true
    }

    /// The value of this library with the same number.
    open spec fn from_spec(tp: parquet_format::FieldRepetitionType) -> Repetition {
        Repetition::of_code(thrift_repetition_code(tp))->Some_0
    }
}

impl From<parquet_format::CompressionCodec> for Compression {
    fn from(tp: parquet_format::CompressionCodec) -> (r: Compression) {
        match Compression::from_code(compression_code(tp)) {
            Some(v) => v,
            None => Compression::UNCOMPRESSED,
        }
    }
}

impl FromSpecImpl<parquet_format::CompressionCodec> for Compression {
    open spec fn obeys_from_spec() -> bool {
        true
    }

    /// The value of this library with the same number.
    open spec fn from_spec(tp: parquet_format::CompressionCodec) -> Compression {
        Compression::of_code(thrift_compression_code(tp))->Some_0
    }
}

} // verus!
