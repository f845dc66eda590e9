//! The enumerations of the Thrift definition of the format, as numbers.
//!
//! The Thrift enumerations are opaque here. All that is taken from one of
//! their values is its number in the format.

use vstd::prelude::*;

verus! {

#[verifier::external_type_specification]
#[verifier::external_body]
pub struct ExThriftConvertedType(parquet_format::ConvertedType);

#[verifier::external_type_specification]
#[verifier::external_body]
pub struct ExThriftFieldRepetitionType(parquet_format::FieldRepetitionType);

#[verifier::external_type_specification]
#[verifier::external_body]
pub struct ExThriftCompressionCodec(parquet_format::CompressionCodec);

/// The number that the Thrift definition gives to a converted type.
pub uninterp spec fn thrift_converted_type_code(tp: parquet_format::ConvertedType) -> int;

/// The number that the Thrift definition gives to a field repetition type.
pub uninterp spec fn thrift_repetition_code(tp: parquet_format::FieldRepetitionType) -> int;

/// The number that the Thrift definition gives to a compression codec.
pub uninterp spec fn thrift_compression_code(tp: parquet_format::CompressionCodec) -> int;

/// The discriminant of `parquet_format::ConvertedType`, taken with `as`. Trusted:
/// that it is the number named above, and that it lies between 0 and 21,
/// as the declaration of the enumeration shows.
#[verifier::external_body]
pub(crate) fn converted_type_code(tp: parquet_format::ConvertedType) -> (code: i32)
    ensures
        code == thrift_converted_type_code(tp),
        0 <= code <= 21,
{
    tp as i32
}

/// The discriminant of `parquet_format::FieldRepetitionType`, taken with `as`. Trusted:
/// that it is the number named above, and that it lies between 0 and 2,
/// as the declaration of the enumeration shows.
#[verifier::external_body]
pub(crate) fn repetition_code(tp: parquet_format::FieldRepetitionType) -> (code: i32)
    ensures
        code == thrift_repetition_code(tp),
        0 <= code <= 2,
{
    tp as i32
}

/// The discriminant of `parquet_format::CompressionCodec`, taken with `as`. Trusted:
/// that it is the number named above, and that it lies between 0 and 6,
/// as the declaration of the enumeration shows.
#[verifier::external_body]
pub(crate) fn compression_code(tp: parquet_format::CompressionCodec) -> (code: i32)
    ensures
        code == thrift_compression_code(tp),
        0 <= code <= 6,
{
    tp as i32
}

} // verus!
