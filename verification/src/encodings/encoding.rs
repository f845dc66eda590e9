//! The encoders: one per encoding of the format, each over a physical type.

use std::marker::PhantomData;
use vstd::prelude::*;
use vstd::string::StringExecFns;
use crate::basic::{Encoding, Type};
use crate::data_type::{push_bytes, push_le_bytes, DataType};
use crate::encodings::delta::{delta_encode, is_delta_type};
use crate::encodings::delta_bit_pack::int_values;
use crate::encodings::delta_byte_array::{delta_byte_array_encode, delta_length_encode};
use crate::encodings::dict::{dict_after, dict_data_page};
use crate::encodings::rle::max_buffer_size_spec;
use crate::encodings::rle_value::{bit_values, rle_page, DEFAULT_RLE_BUFFER_LEN};
use crate::errors::ParquetError;

pub use crate::encodings::delta_bit_pack::DeltaBitPackEncoder;
pub use crate::encodings::delta_byte_array::{DeltaByteArrayEncoder, DeltaLengthByteArrayEncoder};
pub use crate::encodings::dict::DictEncoder;
pub use crate::encodings::rle_value::RleValueEncoder;
use crate::schema::ColumnDescriptor;
use crate::util::bit_util::BitWriter;
use crate::util::bits::{le_bytes, low_bits, pack_bits};

verus! {

/// The bytes of each of `values`, in order.
pub open spec fn raws<T: DataType>(values: Seq<T::T>) -> Seq<Seq<u8>> {
    Seq::new(values.len(), |i: int| T::raw(&values[i]))
}

/// What all encoders offer: values go in batch by batch, and each flush
/// hands out the bytes of one batch.
pub trait Encoder<T: DataType> {
    /// The representation invariant.
    spec fn wf(&self) -> bool;

    /// The values put since the last flush, each by its bytes.
    spec fn batch(&self) -> Seq<Seq<u8>>;

    /// Whether `count` more values fit within the limits of the machine.
    spec fn accepts(&self, count: nat) -> bool;

    /// Whether a flush is in order now.
    spec fn flushable(&self) -> bool;

    /// Adds `values` to the batch.
    fn put(&mut self, values: &[T::T]) -> (r: Result<(), ParquetError>)
        requires
            old(self).wf(),
            old(self).accepts(values@.len()),
        ensures
            final(self).wf(),
            r is Ok ==> final(self).batch() == old(self).batch() + raws::<T>(values@),
    ;

    /// The encoding that this encoder reports.
    spec fn encoding_id(&self) -> Encoding;

    /// The encoding that this encoder writes.
    fn encoding(&self) -> (e: Encoding)
        ensures
            e == self.encoding_id(),
    ;

    /// Ends the batch: hands out its bytes and starts an empty one.
    fn flush_buffer(&mut self) -> (r: Result<Vec<u8>, ParquetError>)
        requires
            old(self).wf(),
            old(self).flushable(),
        ensures
            final(self).wf(),
            r is Ok ==> final(self).batch() == Seq::<Seq<u8>>::empty(),
    ;
}

// ----------------------------------------------------------------------
// PLAIN

/// The bytes that one value adds to a PLAIN stream: nothing for a BOOLEAN,
/// which goes to the bits; a four-byte length and the bytes for a
/// BYTE_ARRAY; the bytes alone for every other type.
pub open spec fn plain_value_bytes(t: Type, raw: Seq<u8>) -> Seq<u8> {
    match t {
        Type::BOOLEAN => Seq::empty(),
        Type::BYTE_ARRAY => le_bytes((raw.len() % 0x1_0000_0000) as nat, 4) + raw,
        _ => raw,
    }
}

/// The bits that one value adds to a PLAIN stream: one for a BOOLEAN, none
/// for any other type.
pub open spec fn plain_value_bits(t: Type, raw: Seq<u8>) -> Seq<bool> {
    if t == Type::BOOLEAN {
        seq![raw.len() > 0 && raw[0] != 0]
    } else {
        Seq::empty()
    }
}

/// The whole bytes of the PLAIN layout of `values`.
pub open spec fn plain_bytes(t: Type, values: Seq<Seq<u8>>) -> Seq<u8>
    decreases values.len(),
{
    if values.len() == 0 {
        Seq::empty()
    } else {
        plain_bytes(t, values.drop_last()) + plain_value_bytes(t, values.last())
    }
}

/// The bits of the PLAIN layout of `values`.
pub open spec fn plain_bits(t: Type, values: Seq<Seq<u8>>) -> Seq<bool>
    decreases values.len(),
{
    if values.len() == 0 {
        Seq::empty()
    } else {
        plain_bits(t, values.drop_last()) + plain_value_bits(t, values.last())
    }
}

/// The PLAIN layout of `values`: the whole bytes, then the bits packed
/// eight to a byte, the last byte zero-padded.
pub open spec fn plain_encode(t: Type, values: Seq<Seq<u8>>) -> Seq<u8> {
    plain_bytes(t, values) + pack_bits(plain_bits(t, values))
}

/// Writes one value, given by its bytes, in the PLAIN layout.
pub(crate) fn put_plain_value(t: Type, raw: &Vec<u8>, buffer: &mut Vec<u8>, bit_writer: &mut BitWriter)
    requires
        old(bit_writer).wf(),
    ensures
        final(bit_writer).wf(),
        final(buffer)@ == old(buffer)@ + plain_value_bytes(t, raw@),
        final(bit_writer)@ == old(bit_writer)@ + plain_value_bits(t, raw@),
{
    match t {
        Type::BOOLEAN => {
            let bit = raw.len() > 0 && raw[0] != 0;
            bit_writer.put_value(if bit { 1 } else { 0 }, 1);
            proof {
                let v: nat = if bit { 1 } else { 0 };
                assert(low_bits(v / 2, 0) =~= Seq::<bool>::empty());
                assert(low_bits(v, 1) =~= seq![bit]);
                assert(buffer@ =~= old(buffer)@ + Seq::<u8>::empty());
            }
        },
        Type::BYTE_ARRAY => {
            let len = (raw.len() as u64) % 0x1_0000_0000;
            push_le_bytes(buffer, len, 4);
            push_bytes(buffer, raw.as_slice());
            assert(buffer@ =~= old(buffer)@ + plain_value_bytes(t, raw@));
            assert(bit_writer@ =~= old(bit_writer)@ + Seq::<bool>::empty());
        },
        _ => {
            push_bytes(buffer, raw.as_slice());
            assert(bit_writer@ =~= old(bit_writer)@ + Seq::<bool>::empty());
        },
    }
}

/// The PLAIN encoder: values back to back, for every physical type.
pub struct PlainEncoder<T: DataType> {
    buffer: Vec<u8>,
    bit_writer: BitWriter,
    desc: ColumnDescriptor,
    scratch: Vec<u8>,
    prefix: Ghost<Seq<u8>>,
    batch: Ghost<Seq<Seq<u8>>>,
    _phantom: PhantomData<T>,
}

impl<T: DataType> PlainEncoder<T> {
    /// The bytes that the encoder was given to start with, and that the
    /// next flush hands out before the values.
    pub closed spec fn prefix(&self) -> Seq<u8> {
        self.prefix@
    }

    /// A PLAIN encoder whose first batch starts with the bytes of `vec`.
    pub fn new(desc: ColumnDescriptor, vec: Vec<u8>) -> (e: Self)
        ensures
            e.wf(),
            e.prefix() == vec@,
            e.batch() == Seq::<Seq<u8>>::empty(),
    {
        let e = PlainEncoder {
            buffer: vec,
            bit_writer: BitWriter::new(256),
            desc,
            scratch: Vec::new(),
            prefix: Ghost(vec@),
            batch: Ghost(Seq::empty()),
            _phantom: PhantomData,
        };
        assert(e.buffer@ =~= e.prefix@ + plain_bytes(T::physical_type(), e.batch@));
        e
    }
}

impl<T: DataType> Encoder<T> for PlainEncoder<T> {
    closed spec fn wf(&self) -> bool {
        &&& self.bit_writer.wf()
        &&& self.buffer@ == self.prefix@ + plain_bytes(T::physical_type(), self.batch@)
        &&& self.bit_writer@ == plain_bits(T::physical_type(), self.batch@)
    }

    closed spec fn batch(&self) -> Seq<Seq<u8>> {
        self.batch@
    }

    open spec fn accepts(&self, count: nat) -> bool {
        true
    }

    open spec fn flushable(&self) -> bool {
        true
    }

    fn put(&mut self, values: &[T::T]) -> (r: Result<(), ParquetError>)
        ensures
            r is Ok,
            final(self).prefix() == old(self).prefix(),
    {
        let t = T::get_physical_type();
        let n = values.len();
        let mut i: usize = 0;
        assert(raws::<T>(values@).take(0) =~= Seq::<Seq<u8>>::empty());
        assert(self.batch@ + Seq::<Seq<u8>>::empty() =~= self.batch@);
        while i < n
            invariant
                i <= n,
                n == values@.len(),
                t == T::physical_type(),
                self.wf(),
                self.prefix@ == old(self).prefix@,
                self.batch@ == old(self).batch@ + raws::<T>(values@).take(i as int),
            decreases n - i,
        {
            self.scratch.clear();
            T::write_raw(&values[i], &mut self.scratch);
            put_plain_value(t, &self.scratch, &mut self.buffer, &mut self.bit_writer);
            proof {
                let raw = T::raw(&values@[i as int]);
                assert(self.scratch@ =~= raw);
                let next = self.batch@.push(raw);
                assert(next.drop_last() =~= self.batch@);
                assert(next =~= old(self).batch@ + raws::<T>(values@).take(i + 1));
                self.batch = Ghost(next);
                assert(self.buffer@ =~= self.prefix@ + plain_bytes(t, next));
            }
            i = i + 1;
        }
        assert(raws::<T>(values@).take(n as int) =~= raws::<T>(values@));
        Ok(())
    }

    open spec fn encoding_id(&self) -> Encoding {
        Encoding::PLAIN
    }

    fn encoding(&self) -> (e: Encoding) {
        Encoding::PLAIN
    }

    fn flush_buffer(&mut self) -> (r: Result<Vec<u8>, ParquetError>)
        ensures
            r is Ok,
            r.unwrap()@ == old(self).prefix() + plain_encode(
                T::physical_type(),
                old(self).batch(),
            ),
            final(self).prefix() == Seq::<u8>::empty(),
    {
        let tail = self.bit_writer.flush_buffer();
        let mut out: Vec<u8> = Vec::new();
        std::mem::swap(&mut out, &mut self.buffer);
        push_bytes(&mut out, tail.as_slice());
        self.bit_writer.clear();
        proof {
            self.prefix = Ghost(Seq::empty());
            self.batch = Ghost(Seq::empty());
            assert(self.buffer@ =~= self.prefix@ + plain_bytes(T::physical_type(), self.batch@));
            assert(out@ =~= old(self).prefix() + plain_encode(
                T::physical_type(),
                old(self).batch(),
            ));
        }
        Ok(out)
    }
}

// ----------------------------------------------------------------------
// The choice of an encoder

/// Whether there is an encoder of `encoding` for values of type `t`.
pub open spec fn supports(encoding: Encoding, t: Type) -> bool {
    match encoding {
        Encoding::PLAIN => true,
        Encoding::PLAIN_DICTIONARY => true,
        Encoding::RLE_DICTIONARY => true,
        Encoding::RLE => t == Type::BOOLEAN,
        Encoding::DELTA_BINARY_PACKED => is_delta_type(t),
        Encoding::DELTA_LENGTH_BYTE_ARRAY => t == Type::BYTE_ARRAY,
        Encoding::DELTA_BYTE_ARRAY => t == Type::BYTE_ARRAY,
        Encoding::BIT_PACKED => false,
    }
}

/// The encoding that the encoder for `encoding` reports: its own, but for
/// the dictionary encoder, which reports the older of its two names.
pub open spec fn reported_encoding(encoding: Encoding) -> Encoding {
    if encoding == Encoding::RLE_DICTIONARY {
        Encoding::PLAIN_DICTIONARY
    } else {
        encoding
    }
}

/// Whether `e` is the error for a pair of encoding and type without an
/// encoder.
pub open spec fn is_not_supported_error(e: ParquetError, encoding: Encoding) -> bool {
    e matches ParquetError::NYI(m) && m@ == "Encoding "@ + encoding.name() + " is not supported."@
}

/// The error for a pair of encoding and type without an encoder.
fn not_supported(encoding: Encoding) -> (e: ParquetError)
    ensures
        is_not_supported_error(e, encoding),
{
    let name = encoding.to_string();
    let m = String::from_str("Encoding ").concat(name.as_str()).concat(" is not supported.");
    ParquetError::NYI(m)
}

/// One of the encoders, chosen at run time.
pub enum AnyEncoder<T: DataType> {
    Plain(PlainEncoder<T>),
    Dict(DictEncoder<T>),
    Rle(RleValueEncoder<T>),
    DeltaBitPack(DeltaBitPackEncoder<T>),
    DeltaLengthByteArray(DeltaLengthByteArrayEncoder<T>),
    DeltaByteArray(DeltaByteArrayEncoder<T>),
}

impl<T: DataType> AnyEncoder<T> {
    /// The bytes that a flush hands out now.
    pub open spec fn page(&self) -> Seq<u8> {
        match self {
            AnyEncoder::Plain(e) => e.prefix() + plain_encode(T::physical_type(), e.batch()),
            AnyEncoder::Dict(e) => dict_data_page(e.dictionary().len(), e.indices()),
            AnyEncoder::Rle(e) => rle_page(e.values()),
            AnyEncoder::DeltaBitPack(e) => delta_encode(T::physical_type(), e.values()),
            AnyEncoder::DeltaLengthByteArray(e) => delta_length_encode(e.batch()),
            AnyEncoder::DeltaByteArray(e) => delta_byte_array_encode(e.page_start(), e.batch()),
        }
    }

    /// Whether a put of `values` succeeds: always for the PLAIN, the
    /// dictionary and the DELTA_BINARY_PACKED encoder; for the RLE encoder
    /// if the values are BOOLEAN and sure to fit its sink; for the two
    /// delta encoders of byte arrays if the values are BYTE_ARRAY.
    pub open spec fn takes(&self, values: Seq<T::T>) -> bool {
        match self {
            AnyEncoder::Plain(e) => true,
            AnyEncoder::Dict(e) => true,
            AnyEncoder::Rle(e) => T::physical_type() == Type::BOOLEAN && (values.len() == 0
                || max_buffer_size_spec(1, e.values().len() + values.len())
                <= DEFAULT_RLE_BUFFER_LEN),
            AnyEncoder::DeltaBitPack(e) => true,
            AnyEncoder::DeltaLengthByteArray(e) => T::physical_type() == Type::BYTE_ARRAY,
            AnyEncoder::DeltaByteArray(e) => T::physical_type() == Type::BYTE_ARRAY,
        }
    }

    /// Whether `self` is what a put of `values` that succeeds makes of
    /// `before`, in what the encoders state beyond the batch.
    pub open spec fn follows_put(&self, before: &AnyEncoder<T>, values: Seq<T::T>) -> bool {
        match (before, self) {
            (AnyEncoder::Plain(a), AnyEncoder::Plain(b)) => b.prefix() == a.prefix(),
            (AnyEncoder::Dict(a), AnyEncoder::Dict(b)) => {
                &&& b.dictionary() == dict_after(a.dictionary(), raws::<T>(values))
                &&& b.indices().len() == a.indices().len() + values.len()
                &&& b.indices().take(a.indices().len() as int) == a.indices()
                &&& forall|k: int|
                    0 <= k < values.len() ==> b.dictionary()[(#[trigger] b.indices()[
                        a.indices().len() + k]) as int] == T::raw(&values[k])
            },
            (AnyEncoder::Rle(a), AnyEncoder::Rle(b)) => b.values() == a.values() + bit_values::<T>(
                values,
            ),
            (AnyEncoder::DeltaBitPack(a), AnyEncoder::DeltaBitPack(b)) => b.values() == a.values()
                + int_values::<T>(values),
            (AnyEncoder::DeltaLengthByteArray(a), AnyEncoder::DeltaLengthByteArray(b)) => true,
            (AnyEncoder::DeltaByteArray(a), AnyEncoder::DeltaByteArray(b)) => b.page_start()
                == a.page_start() && b.previous() == (if values.len() == 0 {
                a.previous()
            } else {
                T::raw(&values.last())
            }),
            _ => false,
        }
    }

    /// Whether `self` is what a flush makes of `before`, in what the
    /// encoders state beyond the batch.
    pub open spec fn follows_flush(&self, before: &AnyEncoder<T>) -> bool {
        match (before, self) {
            (AnyEncoder::Plain(a), AnyEncoder::Plain(b)) => b.prefix() == Seq::<u8>::empty(),
            (AnyEncoder::Dict(a), AnyEncoder::Dict(b)) => b.dictionary() == a.dictionary()
                && b.indices() == Seq::<i32>::empty(),
            (AnyEncoder::Rle(a), AnyEncoder::Rle(b)) => b.values() == Seq::<u64>::empty()
                && b.initialized(),
            (AnyEncoder::DeltaBitPack(a), AnyEncoder::DeltaBitPack(b)) => b.values() == Seq::<
                i64,
            >::empty(),
            (AnyEncoder::DeltaLengthByteArray(a), AnyEncoder::DeltaLengthByteArray(b)) => true,
            (AnyEncoder::DeltaByteArray(a), AnyEncoder::DeltaByteArray(b)) => b.page_start()
                == a.previous() && b.previous() == a.previous(),
            _ => false,
        }
    }
}

impl<T: DataType> Encoder<T> for AnyEncoder<T> {
    open spec fn wf(&self) -> bool {
        match self {
            AnyEncoder::Plain(e) => e.wf(),
            AnyEncoder::Dict(e) => e.wf(),
            AnyEncoder::Rle(e) => e.wf(),
            AnyEncoder::DeltaBitPack(e) => e.wf(),
            AnyEncoder::DeltaLengthByteArray(e) => e.wf(),
            AnyEncoder::DeltaByteArray(e) => e.wf(),
        }
    }

    open spec fn batch(&self) -> Seq<Seq<u8>> {
        match self {
            AnyEncoder::Plain(e) => e.batch(),
            AnyEncoder::Dict(e) => e.batch(),
            AnyEncoder::Rle(e) => e.batch(),
            AnyEncoder::DeltaBitPack(e) => e.batch(),
            AnyEncoder::DeltaLengthByteArray(e) => e.batch(),
            AnyEncoder::DeltaByteArray(e) => e.batch(),
        }
    }

    open spec fn accepts(&self, count: nat) -> bool {
        match self {
            AnyEncoder::Plain(e) => e.accepts(count),
            AnyEncoder::Dict(e) => e.accepts(count),
            AnyEncoder::Rle(e) => e.accepts(count),
            AnyEncoder::DeltaBitPack(e) => e.accepts(count),
            AnyEncoder::DeltaLengthByteArray(e) => e.accepts(count),
            AnyEncoder::DeltaByteArray(e) => e.accepts(count),
        }
    }

    open spec fn flushable(&self) -> bool {
        match self {
            AnyEncoder::Plain(e) => e.flushable(),
            AnyEncoder::Dict(e) => e.flushable(),
            AnyEncoder::Rle(e) => e.flushable(),
            AnyEncoder::DeltaBitPack(e) => e.flushable(),
            AnyEncoder::DeltaLengthByteArray(e) => e.flushable(),
            AnyEncoder::DeltaByteArray(e) => e.flushable(),
        }
    }

    open spec fn encoding_id(&self) -> Encoding {
        match self {
            AnyEncoder::Plain(e) => e.encoding_id(),
            AnyEncoder::Dict(e) => e.encoding_id(),
            AnyEncoder::Rle(e) => e.encoding_id(),
            AnyEncoder::DeltaBitPack(e) => e.encoding_id(),
            AnyEncoder::DeltaLengthByteArray(e) => e.encoding_id(),
            AnyEncoder::DeltaByteArray(e) => e.encoding_id(),
        }
    }

    fn put(&mut self, values: &[T::T]) -> (r: Result<(), ParquetError>)
        ensures
            r is Ok <==> old(self).takes(values@),
            r is Ok ==> final(self).follows_put(old(self), values@),
    {
        match self {
            AnyEncoder::Plain(e) => e.put(values),
            AnyEncoder::Dict(e) => e.put(values),
            AnyEncoder::Rle(e) => e.put(values),
            AnyEncoder::DeltaBitPack(e) => e.put(values),
            AnyEncoder::DeltaLengthByteArray(e) => e.put(values),
            AnyEncoder::DeltaByteArray(e) => e.put(values),
        }
    }

    fn encoding(&self) -> (e: Encoding) {
        match self {
            AnyEncoder::Plain(e) => e.encoding(),
            AnyEncoder::Dict(e) => e.encoding(),
            AnyEncoder::Rle(e) => e.encoding(),
            AnyEncoder::DeltaBitPack(e) => e.encoding(),
            AnyEncoder::DeltaLengthByteArray(e) => e.encoding(),
            AnyEncoder::DeltaByteArray(e) => e.encoding(),
        }
    }

    fn flush_buffer(&mut self) -> (r: Result<Vec<u8>, ParquetError>)
        ensures
            r is Ok,
            r.unwrap()@ == old(self).page(),
            final(self).follows_flush(old(self)),
    {
        match self {
            AnyEncoder::Plain(e) => e.flush_buffer(),
            AnyEncoder::Dict(e) => e.flush_buffer(),
            AnyEncoder::Rle(e) => e.flush_buffer(),
            AnyEncoder::DeltaBitPack(e) => e.flush_buffer(),
            AnyEncoder::DeltaLengthByteArray(e) => e.flush_buffer(),
            AnyEncoder::DeltaByteArray(e) => e.flush_buffer(),
        }
    }
}

/// An encoder of `encoding` for values of the physical type `T`, with an
/// empty batch; an error where there is none for that pair.
pub fn get_encoder<T: DataType>(desc: ColumnDescriptor, encoding: Encoding) -> (r: Result<
    AnyEncoder<T>,
    ParquetError,
>)
    ensures
        r is Ok <==> supports(encoding, T::physical_type()),
        r is Ok ==> r->Ok_0.wf() && r->Ok_0.batch() == Seq::<Seq<u8>>::empty()
            && r->Ok_0.encoding_id() == reported_encoding(encoding),
        r matches Ok(e) ==> match encoding {
            Encoding::PLAIN => e matches AnyEncoder::Plain(p) && p.prefix() == Seq::<u8>::empty(),
            Encoding::PLAIN_DICTIONARY | Encoding::RLE_DICTIONARY => e matches AnyEncoder::Dict(d)
                && d.dictionary() == Seq::<Seq<u8>>::empty(),
            Encoding::RLE => e is Rle,
            Encoding::DELTA_BINARY_PACKED => e is DeltaBitPack,
            Encoding::DELTA_LENGTH_BYTE_ARRAY => e is DeltaLengthByteArray,
            Encoding::DELTA_BYTE_ARRAY => e is DeltaByteArray,
            Encoding::BIT_PACKED => false,
        },
        r is Err ==> is_not_supported_error(r->Err_0, encoding),
{
    let t = T::get_physical_type();
    match encoding {
        Encoding::PLAIN => Ok(AnyEncoder::Plain(PlainEncoder::<T>::new(desc, Vec::new()))),
        Encoding::RLE_DICTIONARY | Encoding::PLAIN_DICTIONARY => Ok(
            AnyEncoder::Dict(DictEncoder::<T>::new(desc)),
        ),
        Encoding::RLE => match t {
            Type::BOOLEAN => Ok(AnyEncoder::Rle(RleValueEncoder::<T>::new())),
            _ => Err(not_supported(encoding)),
        },
        Encoding::DELTA_BINARY_PACKED => match t {
            Type::INT32 | Type::INT64 => Ok(
                AnyEncoder::DeltaBitPack(DeltaBitPackEncoder::<T>::new()),
            ),
            _ => Err(not_supported(encoding)),
        },
        Encoding::DELTA_LENGTH_BYTE_ARRAY => match t {
            Type::BYTE_ARRAY => Ok(
                AnyEncoder::DeltaLengthByteArray(DeltaLengthByteArrayEncoder::<T>::new()),
            ),
            _ => Err(not_supported(encoding)),
        },
        Encoding::DELTA_BYTE_ARRAY => match t {
            Type::BYTE_ARRAY => Ok(AnyEncoder::DeltaByteArray(DeltaByteArrayEncoder::<T>::new())),
            _ => Err(not_supported(encoding)),
        },
        Encoding::BIT_PACKED => Err(not_supported(encoding)),
    }
}

} // verus!
