//! What the encoders need to know of a column.

use vstd::prelude::*;
use crate::basic::Type;

verus! {

/// The description of a leaf column: its physical type and, for
/// FIXED_LEN_BYTE_ARRAY, the length of its values (-1 where there is none).
#[derive(Debug, Clone, Copy, PartialEq, Eq)]
pub struct ColumnDescriptor {
    physical_type: Type,
    type_length: i32,
}

impl ColumnDescriptor {
    pub closed spec fn spec_physical_type(&self) -> Type {
        self.physical_type
    }

    pub closed spec fn spec_type_length(&self) -> i32 {
        self.type_length
    }

    /// A column of the given type and length.
    pub fn new(physical_type: Type, type_length: i32) -> (d: ColumnDescriptor)
        ensures
            d.spec_physical_type() == physical_type,
            d.spec_type_length() == type_length,
    {
        ColumnDescriptor { physical_type, type_length }
    }

    /// The physical type of the column.
    pub fn physical_type(&self) -> (t: Type)
        ensures
            t == self.spec_physical_type(),
    {
        self.physical_type
    }

    /// The length of the column's values, for FIXED_LEN_BYTE_ARRAY.
    pub fn type_length(&self) -> (n: i32)
        ensures
            n == self.spec_type_length(),
    {
        self.type_length
    }
}

} // verus!
