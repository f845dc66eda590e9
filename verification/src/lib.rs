//! Column-value encoders of the Parquet format, with their byte layouts
//! stated as contracts over sequences of bits and bytes.

pub mod basic;
pub mod data_type;
pub mod encodings;
pub mod errors;
pub mod schema;
pub mod thrift;
pub mod thrift_codes;
pub mod util;
