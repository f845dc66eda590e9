//! The value types of the eight physical types, and the capabilities that
//! the encoders need of them.

use vstd::prelude::*;
use crate::basic::Type;
use crate::util::bits::le_bytes;
use vstd::arithmetic::power2::lemma2_to64;
use vstd::arithmetic::power2::lemma2_to64_rest;

verus! {

/// The unsigned number with the same `bits`-bit two's-complement pattern as `v`.
pub open spec fn unsigned_image(v: int, bits: nat) -> nat {
    (v % (vstd::arithmetic::power2::pow2(bits) as int)) as nat
}

/// A 96-bit value: three 32-bit words, the first the least significant.
#[derive(Debug, Clone, Copy, PartialEq, Eq)]
pub struct Int96 {
    value: [u32; 3],
}

impl Int96 {
    /// The three words.
    pub closed spec fn words(&self) -> Seq<u32> {
        self.value@
    }

    /// The twelve bytes of the value: each word in turn, least significant
    /// byte first.
    pub open spec fn bytes(&self) -> Seq<u8> {
        le_bytes(self.words()[0] as nat, 4) + le_bytes(self.words()[1] as nat, 4) + le_bytes(
            self.words()[2] as nat,
            4,
        )
    }

    /// A value has three words and twelve bytes.
    pub proof fn lemma_twelve_bytes(&self)
        ensures
            self.words().len() == 3,
            self.bytes().len() == 12,
    {
        crate::util::bits::lemma_le_bytes_len(self.words()[0] as nat, 4);
        crate::util::bits::lemma_le_bytes_len(self.words()[1] as nat, 4);
        crate::util::bits::lemma_le_bytes_len(self.words()[2] as nat, 4);
    }

    /// The value zero.
    pub fn new() -> (r: Int96)
        ensures
            r.words() == seq![0u32, 0u32, 0u32],
    {
        let r = Int96 { value: [0, 0, 0] };
        assert(r.words() =~= seq![0u32, 0u32, 0u32]);
        r
    }

    /// The value with the given words.
    pub fn from_words(elem0: u32, elem1: u32, elem2: u32) -> (r: Int96)
        ensures
            r.words() == seq![elem0, elem1, elem2],
    {
        let r = Int96 { value: [elem0, elem1, elem2] };
        assert(r.words() =~= seq![elem0, elem1, elem2]);
        r
    }

    /// The three words.
    pub fn data(&self) -> (d: &[u32; 3])
        ensures
            d@ == self.words(),
    {
        &self.value
    }

    /// Replaces the three words.
    pub fn set_data(&mut self, elem0: u32, elem1: u32, elem2: u32)
        ensures
            final(self).words() == seq![elem0, elem1, elem2],
    {
        self.value = [elem0, elem1, elem2];
        assert(self.words() =~= seq![elem0, elem1, elem2]);
    }
}

/// A string of bytes of any length.
#[derive(Debug, Clone, PartialEq, Eq)]
pub struct ByteArray {
    data: Vec<u8>,
}

impl View for ByteArray {
    type V = Seq<u8>;

    closed spec fn view(&self) -> Seq<u8> {
        self.data@
    }
}

impl ByteArray {
    /// The empty byte array.
    pub fn new() -> (r: ByteArray)
        ensures
            r@ == Seq::<u8>::empty(),
    {
        ByteArray { data: Vec::new() }
    }

    /// The byte array that holds `data`.
    pub closed spec fn of_vec(data: Vec<u8>) -> ByteArray {
        ByteArray { data }
    }

    /// The byte array that holds `data` has the bytes of `data`.
    pub proof fn lemma_of_vec(data: Vec<u8>)
        ensures
            ByteArray::of_vec(data)@ == data@,
    {
    }

    /// The byte array that holds `data`.
    pub fn from_vec(data: Vec<u8>) -> (r: ByteArray)
        ensures
            r == ByteArray::of_vec(data),
            r@ == data@,
    {
        ByteArray { data }
    }

    /// The number of bytes.
    pub fn len(&self) -> (n: usize)
        ensures
            n == self@.len(),
    {
        self.data.len()
    }

    /// The bytes.
    pub fn data(&self) -> (d: &[u8])
        ensures
            d@ == self@,
    {
        self.data.as_slice()
    }

    /// Replaces the bytes.
    pub fn set_data(&mut self, data: Vec<u8>)
        ensures
            final(self)@ == data@,
    {
        self.data = data;
    }

    /// The `len` bytes from position `start` on.
    pub fn slice(&self, start: usize, len: usize) -> (r: ByteArray)
        requires
            start + len <= self@.len(),
        ensures
            r@ == self@.subrange(start as int, start + len),
    {
        let mut out: Vec<u8> = Vec::with_capacity(len);
        let mut i: usize = 0;
        let total = self.data.len();
        while i < len
            invariant
                i <= len,
                total == self.data@.len(),
                start + len <= self.data@.len(),
                out@ == self.data@.subrange(start as int, start + i),
            decreases len - i,
        {
            out.push(self.data[start + i]);
            assert(out@ =~= self.data@.subrange(start as int, start + i + 1));
            i = i + 1;
        }
        ByteArray { data: out }
    }
}

impl From<Vec<u8>> for ByteArray {
    fn from(data: Vec<u8>) -> (r: ByteArray) {
        ByteArray::from_vec(data)
    }
}

impl vstd::std_specs::convert::FromSpecImpl<Vec<u8>> for ByteArray {
    open spec fn obeys_from_spec() -> bool {
        true
    }

    /// The byte array that holds the bytes of `data`.
    open spec fn from_spec(data: Vec<u8>) -> ByteArray {
        ByteArray::of_vec(data)
    }
}

/// Appends the `n` low bytes of `v`, least significant first.
pub fn push_le_bytes(out: &mut Vec<u8>, v: u64, n: usize)
    ensures
        final(out)@ == old(out)@ + le_bytes(v as nat, n as nat),
{
    let mut rest: u64 = v;
    let mut i: usize = 0;
    assert(out@ + le_bytes(rest as nat, (n - i) as nat) =~= old(out)@ + le_bytes(v as nat, n as nat));
    while i < n
        invariant
            i <= n,
            out@ + le_bytes(rest as nat, (n - i) as nat) == old(out)@ + le_bytes(
                v as nat,
                n as nat,
            ),
        decreases n - i,
    {
        let ghost before = out@;
        let b = (rest % 256) as u8;
        out.push(b);
        assert(before + le_bytes(rest as nat, (n - i) as nat) =~= before.push(b) + le_bytes(
            (rest / 256) as nat,
            (n - i - 1) as nat,
        ));
        rest = rest / 256;
        i = i + 1;
    }
    assert(out@ + le_bytes(rest as nat, 0) =~= out@);
}

/// Appends a copy of `bytes`.
pub fn push_bytes(out: &mut Vec<u8>, bytes: &[u8])
    ensures
        final(out)@ == old(out)@ + bytes@,
{
    let n = bytes.len();
    let mut i: usize = 0;
    assert(out@ =~= old(out)@ + bytes@.take(0));
    while i < n
        invariant
            i <= n,
            n == bytes@.len(),
            out@ == old(out)@ + bytes@.take(i as int),
        decreases n - i,
    {
        out.push(bytes[i]);
        assert(out@ =~= old(out)@ + bytes@.take(i + 1));
        i = i + 1;
    }
    assert(bytes@.take(n as int) =~= bytes@);
}

/// A physical type together with the Rust type of its values.
///
/// The encoders see a value through three things: the physical type, the
/// value's bytes as they lie in memory (least significant first), and, for
/// the types that count, the number it stands for.
pub trait DataType: Sized {
    /// The Rust type of a value.
    type T;

    /// The physical type.
    spec fn physical_type() -> Type;

    /// The bytes of a value.
    spec fn raw(v: &Self::T) -> Seq<u8>;

    /// The number that a value stands for: the value itself for INT32 and
    /// INT64, 0 or 1 for BOOLEAN, and 0 for every other type.
    spec fn int_value(v: &Self::T) -> int;

    /// The physical type.
    fn get_physical_type() -> (t: Type)
        ensures
            t == Self::physical_type(),
    ;

    /// Appends the bytes of `v` to `out`.
    fn write_raw(v: &Self::T, out: &mut Vec<u8>)
        ensures
            final(out)@ == old(out)@ + Self::raw(v),
    ;

    /// The number that `v` stands for.
    fn as_i64(v: &Self::T) -> (r: i64)
        ensures
            r == Self::int_value(v),
            Self::physical_type() == Type::INT32 ==> i32::MIN <= r <= i32::MAX,
            Self::physical_type() == Type::BOOLEAN ==> 0 <= r <= 1,
    ;
}

/// BOOLEAN: values are `bool`.
pub struct BoolType {}

/// INT32: values are `i32`.
pub struct Int32Type {}

/// INT64: values are `i64`.
pub struct Int64Type {}

/// INT96: values are `Int96`.
pub struct Int96Type {}

/// FLOAT: a value is the 32-bit IEEE 754 pattern of a number, as a `u32`.
pub struct FloatType {}

/// DOUBLE: a value is the 64-bit IEEE 754 pattern of a number, as a `u64`.
pub struct DoubleType {}

/// BYTE_ARRAY: values are `ByteArray`.
pub struct ByteArrayType {}

/// FIXED_LEN_BYTE_ARRAY: values are `ByteArray`, all of the column's length.
pub struct FixedLenByteArrayType {}

impl DataType for BoolType {
    type T = bool;

    open spec fn physical_type() -> Type {
        Type::BOOLEAN
    }

    open spec fn raw(v: &bool) -> Seq<u8> {
        seq![if *v { 1u8 } else { 0u8 }]
    }

    open spec fn int_value(v: &bool) -> int {
        if *v {
            1
        } else {
            0
        }
    }

    fn get_physical_type() -> (t: Type) {
        Type::BOOLEAN
    }

    fn write_raw(v: &bool, out: &mut Vec<u8>) {
        out.push(if *v { 1u8 } else { 0u8 });
        assert(out@ =~= old(out)@ + Self::raw(v));
    }

    fn as_i64(v: &bool) -> (r: i64) {
        if *v {
            1
        } else {
            0
        }
    }
}

impl DataType for Int32Type {
    type T = i32;

    open spec fn physical_type() -> Type {
        Type::INT32
    }

    open spec fn raw(v: &i32) -> Seq<u8> {
        le_bytes(unsigned_image(*v as int, 32), 4)
    }

    open spec fn int_value(v: &i32) -> int {
        *v as int
    }

    fn get_physical_type() -> (t: Type) {
        Type::INT32
    }

    fn write_raw(v: &i32, out: &mut Vec<u8>) {
        let w: i64 = *v as i64;
        let u: u64 = if w >= 0 {
            w as u64
        } else {
            (w + 4294967296) as u64
        };
        proof {
            lemma2_to64();
            lemma2_to64_rest();
            assert(u as nat == unsigned_image(*v as int, 32));
        }
        push_le_bytes(out, u, 4);
    }

    fn as_i64(v: &i32) -> (r: i64) {
        *v as i64
    }
}

impl DataType for Int64Type {
    type T = i64;

    open spec fn physical_type() -> Type {
        Type::INT64
    }

    open spec fn raw(v: &i64) -> Seq<u8> {
        le_bytes(unsigned_image(*v as int, 64), 8)
    }

    open spec fn int_value(v: &i64) -> int {
        *v as int
    }

    fn get_physical_type() -> (t: Type) {
        Type::INT64
    }

    fn write_raw(v: &i64, out: &mut Vec<u8>) {
        let w: i128 = *v as i128;
        let u: u64 = if w >= 0 {
            w as u64
        } else {
            (w + 18446744073709551616) as u64
        };
        proof {
            lemma2_to64();
            lemma2_to64_rest();
            assert(u as nat == unsigned_image(*v as int, 64));
        }
        push_le_bytes(out, u, 8);
    }

    fn as_i64(v: &i64) -> (r: i64) {
        *v
    }
}

impl DataType for Int96Type {
    type T = Int96;

    open spec fn physical_type() -> Type {
        Type::INT96
    }

    open spec fn raw(v: &Int96) -> Seq<u8> {
        v.bytes()
    }

    open spec fn int_value(v: &Int96) -> int {
        0
    }

    fn get_physical_type() -> (t: Type) {
        Type::INT96
    }

    fn write_raw(v: &Int96, out: &mut Vec<u8>) {
        let words = v.data();
        push_le_bytes(out, words[0] as u64, 4);
        push_le_bytes(out, words[1] as u64, 4);
        push_le_bytes(out, words[2] as u64, 4);
        assert(out@ =~= old(out)@ + v.bytes());
    }

    fn as_i64(v: &Int96) -> (r: i64) {
        0
    }
}

impl DataType for FloatType {
    type T = u32;

    open spec fn physical_type() -> Type {
        Type::FLOAT
    }

    open spec fn raw(v: &u32) -> Seq<u8> {
        le_bytes(*v as nat, 4)
    }

    open spec fn int_value(v: &u32) -> int {
        0
    }

    fn get_physical_type() -> (t: Type) {
        Type::FLOAT
    }

    fn write_raw(v: &u32, out: &mut Vec<u8>) {
        push_le_bytes(out, *v as u64, 4);
    }

    fn as_i64(v: &u32) -> (r: i64) {
        0
    }
}

impl DataType for DoubleType {
    type T = u64;

    open spec fn physical_type() -> Type {
        Type::DOUBLE
    }

    open spec fn raw(v: &u64) -> Seq<u8> {
        le_bytes(*v as nat, 8)
    }

    open spec fn int_value(v: &u64) -> int {
        0
    }

    fn get_physical_type() -> (t: Type) {
        Type::DOUBLE
    }

    fn write_raw(v: &u64, out: &mut Vec<u8>) {
        push_le_bytes(out, *v, 8);
    }

    fn as_i64(v: &u64) -> (r: i64) {
        0
    }
}

impl DataType for ByteArrayType {
    type T = ByteArray;

    open spec fn physical_type() -> Type {
        Type::BYTE_ARRAY
    }

    open spec fn raw(v: &ByteArray) -> Seq<u8> {
        v@
    }

    open spec fn int_value(v: &ByteArray) -> int {
        0
    }

    fn get_physical_type() -> (t: Type) {
        Type::BYTE_ARRAY
    }

    fn write_raw(v: &ByteArray, out: &mut Vec<u8>) {
        push_bytes(out, v.data());
    }

    fn as_i64(v: &ByteArray) -> (r: i64) {
        0
    }
}

impl DataType for FixedLenByteArrayType {
    type T = ByteArray;

    open spec fn physical_type() -> Type {
        Type::FIXED_LEN_BYTE_ARRAY
    }

    open spec fn raw(v: &ByteArray) -> Seq<u8> {
        v@
    }

    open spec fn int_value(v: &ByteArray) -> int {
        0
    }

    fn get_physical_type() -> (t: Type) {
        Type::FIXED_LEN_BYTE_ARRAY
    }

    fn write_raw(v: &ByteArray, out: &mut Vec<u8>) {
        push_bytes(out, v.data());
    }

    fn as_i64(v: &ByteArray) -> (r: i64) {
        0
    }
}

} // verus!
