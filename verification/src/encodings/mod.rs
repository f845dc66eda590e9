//! The encoders and the run-length writer beneath them.

pub mod delta;
pub mod delta_bit_pack;
pub mod delta_byte_array;
pub mod encoding;
pub mod rle;
pub mod rle_format;
pub mod dict_table;
pub mod dict;
pub mod rle_value;
pub mod rle_choice;
