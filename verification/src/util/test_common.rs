//! Random values, for trying the encoders out.

use vstd::prelude::*;
use rand::Rng;
use crate::data_type::{
    BoolType, ByteArray, ByteArrayType, DataType, DoubleType, FixedLenByteArrayType, FloatType,
    Int32Type, Int64Type, Int96, Int96Type,
};

verus! {

/// Calls `Rng::gen::<u64>` on the thread's generator. Nothing is claimed of
/// the number that comes back.
#[verifier::external_body]
fn random_u64() -> (r: u64) {
    rand::thread_rng().gen::<u64>()
}

/// Calls `Rng::gen_range` on the thread's generator, which panics unless
/// `low < high`. Trusted: the number lies in the half-open range.
#[verifier::external_body]
fn random_in_range(low: u64, high: u64) -> (r: u64)
    requires
        low < high,
    ensures
        low <= r < high,
{
    rand::thread_rng().gen_range(low, high)
}

/// The low 32 bits of `bits`, as a number.
pub open spec fn low_word(bits: u64) -> int {
    bits as int % 0x1_0000_0000
}

/// The `i32` whose two's-complement pattern is the low 32 bits of `bits`.
pub open spec fn signed_word(bits: u64) -> int {
    if low_word(bits) >= 0x8000_0000 {
        low_word(bits) - 0x1_0000_0000
    } else {
        low_word(bits)
    }
}

/// The `i64` whose two's-complement pattern is `bits`.
pub open spec fn signed_bits(bits: u64) -> int {
    if bits >= 0x8000_0000_0000_0000 {
        bits - 0x1_0000_0000_0000_0000
    } else {
        bits as int
    }
}

/// The truth value that the lowest bit of `bits` stands for.
pub fn bool_from_bits(bits: u64) -> (r: bool)
    ensures
        r == (bits % 2 == 1),
{
    bits % 2 == 1
}

/// The low 32 bits of `bits`.
pub fn u32_from_bits(bits: u64) -> (r: u32)
    ensures
        r == low_word(bits),
{
    (bits % 0x1_0000_0000) as u32
}

/// The `i32` whose two's-complement pattern is the low 32 bits of `bits`.
pub fn i32_from_bits(bits: u64) -> (r: i32)
    ensures
        r == signed_word(bits),
{
    let low: u64 = bits % 0x1_0000_0000;
    if low >= 0x8000_0000 {
        (low as i64 - 0x1_0000_0000) as i32
    } else {
        low as i32
    }
}

/// The `i64` whose two's-complement pattern is `bits`.
pub fn i64_from_bits(bits: u64) -> (r: i64)
    ensures
        r == signed_bits(bits),
{
    if bits >= 0x8000_0000_0000_0000 {
        (bits as i128 - 0x1_0000_0000_0000_0000) as i64
    } else {
        bits as i64
    }
}

/// Whether every byte of `bytes` is below 255.
pub open spec fn bytes_below_255(bytes: Seq<u8>) -> bool {
    forall|i: int| 0 <= i < bytes.len() ==> (#[trigger] bytes[i]) < 255
}

/// `n` random bytes, each below 255.
pub fn random_bytes(n: usize) -> (result: Vec<u8>)
    ensures
        result@.len() == n,
        bytes_below_255(result@),
{
    let mut result: Vec<u8> = Vec::new();
    let mut i: usize = 0;
    while i < n
        invariant
            i <= n,
            result@.len() == i,
            bytes_below_255(result@),
        decreases n - i,
    {
        result.push(random_in_range(0, 255) as u8);
        i = i + 1;
    }
    result
}

/// `n` random truth values.
pub fn random_bools(n: usize) -> (result: Vec<bool>)
    ensures
        result@.len() == n,
{
    let mut result: Vec<bool> = Vec::new();
    let mut i: usize = 0;
    while i < n
        invariant
            i <= n,
            result@.len() == i,
        decreases n - i,
    {
        result.push(bool_from_bits(random_u64()));
        i = i + 1;
    }
    result
}

/// A random `i32`: the one that 64 random bits give. Any `i32` may come.
fn random_i32() -> (r: i32) {
    i32_from_bits(random_u64())
}

/// A random `i64`: the one that 64 random bits give. Any `i64` may come.
fn random_i64() -> (r: i64) {
    i64_from_bits(random_u64())
}

/// A random `u32`: the one that 64 random bits give. Any `u32` may come.
fn random_u32() -> (r: u32) {
    u32_from_bits(random_u64())
}

/// Random values of a physical type.
pub trait RandGen<T: DataType> {
    /// What holds of a value made for a column of length `len`.
    spec fn generated(len: i32, value: &T::T) -> bool;

    /// A random value for a column whose values have length `len`, or any
    /// length where `len` is negative.
    fn gen(len: i32) -> (value: T::T)
        ensures
            Self::generated(len, &value),
    ;

    /// `total` random values.
    fn gen_vec(len: i32, total: usize) -> (result: Vec<T::T>)
        ensures
            result@.len() == total,
            forall|i: int| 0 <= i < total ==> Self::generated(len, &#[trigger] result@[i]),
    {
        let mut result: Vec<T::T> = Vec::new();
        let mut i: usize = 0;
        while i < total
            invariant
                i <= total,
                result@.len() == i,
                forall|k: int| 0 <= k < i ==> Self::generated(len, &#[trigger] result@[k]),
            decreases total - i,
        {
            result.push(Self::gen(len));
            i = i + 1;
        }
        result
    }
}

impl RandGen<BoolType> for BoolType {
    open spec fn generated(len: i32, value: &bool) -> bool {
        true
    }

    fn gen(len: i32) -> (value: bool) {
        bool_from_bits(random_u64())
    }
}

impl RandGen<Int32Type> for Int32Type {
    open spec fn generated(len: i32, value: &i32) -> bool {
        true
    }

    fn gen(len: i32) -> (value: i32) {
        random_i32()
    }
}

impl RandGen<Int64Type> for Int64Type {
    open spec fn generated(len: i32, value: &i64) -> bool {
        true
    }

    fn gen(len: i32) -> (value: i64) {
        random_i64()
    }
}

impl RandGen<Int96Type> for Int96Type {
    open spec fn generated(len: i32, value: &Int96) -> bool {
        true
    }

    fn gen(len: i32) -> (value: Int96) {
        Int96::from_words(random_u32(), random_u32(), random_u32())
    }
}

impl RandGen<FloatType> for FloatType {
    open spec fn generated(len: i32, value: &u32) -> bool {
        true
    }

    fn gen(len: i32) -> (value: u32) {
        random_u32()
    }
}

impl RandGen<DoubleType> for DoubleType {
    open spec fn generated(len: i32, value: &u64) -> bool {
        true
    }

    fn gen(len: i32) -> (value: u64) {
        random_u64()
    }
}

impl RandGen<ByteArrayType> for ByteArrayType {
    /// Fewer than 128 bytes, each below 255.
    open spec fn generated(len: i32, value: &ByteArray) -> bool {
        value@.len() < 128 && bytes_below_255(value@)
    }

    fn gen(len: i32) -> (value: ByteArray) {
        let value_len = random_in_range(0, 128) as usize;
        ByteArray::from_vec(random_bytes(value_len))
    }
}

impl RandGen<FixedLenByteArrayType> for FixedLenByteArrayType {
    /// `len` bytes, or fewer than 128 where `len` is negative, each below
    /// 255.
    open spec fn generated(len: i32, value: &ByteArray) -> bool {
        &&& bytes_below_255(value@)
        &&& len >= 0 ==> value@.len() == len
        &&& len < 0 ==> value@.len() < 128
    }

    fn gen(len: i32) -> (value: ByteArray) {
        let value_len = if len < 0 {
            random_in_range(0, 128) as usize
        } else {
            len as usize
        };
        ByteArray::from_vec(random_bytes(value_len))
    }
}

/// `n` random values of the physical type `T`.
pub fn random_numbers<T: DataType + RandGen<T>>(n: usize) -> (result: Vec<T::T>)
    ensures
        result@.len() == n,
        forall|i: int| 0 <= i < n ==> T::generated(-1i32, &#[trigger] result@[i]),
{
    T::gen_vec(-1, n)
}

/// Appends `n` random numbers from `low` up to, not including, `high`.
pub fn random_numbers_range(n: usize, low: i64, high: i64, result: &mut Vec<i64>)
    requires
        low < high,
    ensures
        final(result)@.len() == old(result)@.len() + n,
        final(result)@.take(old(result)@.len() as int) == old(result)@,
        forall|i: int|
            old(result)@.len() <= i < final(result)@.len() ==> low <= (#[trigger] final(
                result)@[i]) < high,
{
    let span: u64 = (high as i128 - low as i128) as u64;
    let mut i: usize = 0;
    assert(result@.take(old(result)@.len() as int) =~= old(result)@);
    while i < n
        invariant
            i <= n,
            low < high,
            span == high - low,
            result@.len() == old(result)@.len() + i,
            result@.take(old(result)@.len() as int) == old(result)@,
            forall|k: int| old(result)@.len() <= k < result@.len() ==> low <= (#[trigger] result@[k]) < high,
        decreases n - i,
    {
        let offset = random_in_range(0, span);
        let value = (low as i128 + offset as i128) as i64;
        let ghost before = result@;
        result.push(value);
        assert(result@.take(old(result)@.len() as int) =~= before.take(old(result)@.len() as int));
        i = i + 1;
    }
}

} // verus!
