//! The RLE encoder of values, for BOOLEAN.

use std::marker::PhantomData;
use vstd::prelude::*;
use crate::basic::{Encoding, Type};
use crate::data_type::{push_bytes, push_le_bytes, DataType};
use crate::encodings::encoding::{raws, Encoder};
use crate::encodings::rle::{
    lemma_max_buffer_size_grows, max_buffer_size_spec, RleEncoder,
};
use crate::encodings::rle_format::hybrid_bytes;
use crate::errors::{is_general_error, ParquetError};
use crate::util::bits::le_bytes;

verus! {

/// The capacity of the sink of the hybrid stream, in bytes.
pub const DEFAULT_RLE_BUFFER_LEN: usize = 1024;

/// Each of `values` as the number that is written: 1 for true, 0 for
/// false.
pub open spec fn bit_values<T: DataType>(values: Seq<T::T>) -> Seq<u64> {
    Seq::new(values.len(), |i: int| T::int_value(&values[i]) as u64)
}

/// The page of `values`: the length of their hybrid stream at bit width 1
/// in four bytes, then the stream.
pub open spec fn rle_page(values: Seq<u64>) -> Seq<u8> {
    le_bytes((hybrid_bytes(values, 1).len() % 0x1_0000_0000) as nat, 4) + hybrid_bytes(values, 1)
}

/// The RLE encoder of values: BOOLEAN values as a hybrid stream at bit
/// width 1, behind its length in four bytes. The stream is gathered in a
/// sink of 1024 bytes; a batch that could take more is refused.
pub struct RleValueEncoder<T: DataType> {
    encoder: Option<RleEncoder>,
    batch: Ghost<Seq<Seq<u8>>>,
    bits: Ghost<Seq<u64>>,
    _phantom: PhantomData<T>,
}

impl<T: DataType> RleValueEncoder<T> {
    /// The numbers put since the last flush.
    pub closed spec fn values(&self) -> Seq<u64> {
        self.bits@
    }

    /// Whether the encoder has been given values at some time.
    pub closed spec fn initialized(&self) -> bool {
        self.encoder is Some
    }

    /// An encoder that has not been given any value.
    pub fn new() -> (e: Self)
        ensures
            e.wf(),
            !e.initialized(),
            e.values() == Seq::<u64>::empty(),
            e.batch() == Seq::<Seq<u8>>::empty(),
    {
        RleValueEncoder {
            encoder: None,
            batch: Ghost(Seq::empty()),
            bits: Ghost(Seq::empty()),
            _phantom: PhantomData,
        }
    }
}

impl<T: DataType> Encoder<T> for RleValueEncoder<T> {
    closed spec fn wf(&self) -> bool {
        &&& self.bits@.len() == self.batch@.len()
        &&& match self.encoder {
            Some(e) => e.wf() && e.width() == 1 && e.capacity() == DEFAULT_RLE_BUFFER_LEN
                && e.prefix() == Seq::<u8>::empty() && e.start_len() == 0 && e.values()
                == self.bits@,
            None => self.bits@ == Seq::<u64>::empty(),
        }
    }

    closed spec fn batch(&self) -> Seq<Seq<u8>> {
        self.batch@
    }

    open spec fn accepts(&self, count: nat) -> bool {
        true
    }

    /// A flush is in order once values have been put.
    open spec fn flushable(&self) -> bool {
        self.initialized()
    }

    open spec fn encoding_id(&self) -> Encoding {
        Encoding::RLE
    }

    fn put(&mut self, values: &[T::T]) -> (r: Result<(), ParquetError>)
        ensures
            T::physical_type() != Type::BOOLEAN ==> r is Err && is_general_error(
                r->Err_0,
                "RleValueEncoder only supports BoolType"@,
            ) && final(self).values() == old(self).values() && final(self).batch() == old(
                self).batch() && final(self).initialized() == old(self).initialized(),
            T::physical_type() == Type::BOOLEAN ==> final(self).initialized(),
            T::physical_type() == Type::BOOLEAN && r is Ok ==> final(self).values() == old(
                self).values() + bit_values::<T>(values@),
            T::physical_type() == Type::BOOLEAN && r is Err ==> is_general_error(
                r->Err_0,
                "RLE buffer is full"@,
            ),
            T::physical_type() == Type::BOOLEAN ==> (r is Ok <==> values@.len() == 0
                || max_buffer_size_spec(1, old(self).values().len() + values@.len())
                <= DEFAULT_RLE_BUFFER_LEN),
    {
        match T::get_physical_type() {
            Type::BOOLEAN => {},
            _ => {
                return Err(
                    ParquetError::General("RleValueEncoder only supports BoolType".to_string()),
                );
            },
        }
        let mut slot: Option<RleEncoder> = None;
        std::mem::swap(&mut slot, &mut self.encoder);
        let mut rle_encoder = match slot {
            Some(e) => e,
            None => RleEncoder::new(1, DEFAULT_RLE_BUFFER_LEN),
        };
        let n = values.len();
        let ghost added = bit_values::<T>(values@);
        let ghost added_raws = raws::<T>(values@);
        let ghost before = self.bits@;
        let mut i: usize = 0;
        proof {
            assert(before + added.take(0) =~= before);
        }
        while i < n
            invariant
                i <= n,
                n == values@.len(),
                T::physical_type() == Type::BOOLEAN,
                added == bit_values::<T>(values@),
                added_raws == raws::<T>(values@),
                before == old(self).bits@,
                before.len() == self.batch@.len(),
                rle_encoder.wf(),
                rle_encoder.width() == 1,
                rle_encoder.capacity() == DEFAULT_RLE_BUFFER_LEN,
                rle_encoder.prefix() == Seq::<u8>::empty(),
                rle_encoder.start_len() == 0,
                rle_encoder.values() == before + added.take(i as int),
                i > 0 ==> max_buffer_size_spec(1, (before.len() + i) as nat) <= DEFAULT_RLE_BUFFER_LEN,
                self.bits == old(self).bits,
                self.batch == old(self).batch,
            decreases n - i,
        {
            let bit = T::as_i64(&values[i]) as u64;
            proof {
                lemma_max_buffer_size_grows(
                    1,
                    (before.len() + i + 1) as nat,
                    (before.len() + n) as nat,
                );
            }
            if !rle_encoder.put(bit) {
                proof {
                    assert(added.take(i as int).len() == i);
                    assert(added_raws.take(i as int).len() == i);
                    self.bits = Ghost(rle_encoder.values());
                    self.batch = Ghost(self.batch@ + added_raws.take(i as int));
                }
                self.encoder = Some(rle_encoder);
                return Err(ParquetError::General("RLE buffer is full".to_string()));
            }
            assert(added.take(i + 1) =~= added.take(i as int).push(bit));
            assert(before + added.take(i + 1) =~= (before + added.take(i as int)).push(bit));
            i = i + 1;
        }
        proof {
            assert(added.take(n as int) =~= added);
            self.bits = Ghost(before + added);
            self.batch = Ghost(self.batch@ + added_raws);
        }
        self.encoder = Some(rle_encoder);
        Ok(())
    }

    fn encoding(&self) -> (e: Encoding) {
        Encoding::RLE
    }

    fn flush_buffer(&mut self) -> (r: Result<Vec<u8>, ParquetError>)
        ensures
            r is Ok,
            r.unwrap()@ == rle_page(old(self).values()),
            final(self).values() == Seq::<u64>::empty(),
            final(self).initialized(),
    {
        let mut slot: Option<RleEncoder> = None;
        std::mem::swap(&mut slot, &mut self.encoder);
        let mut rle_encoder = match slot {
            Some(e) => e,
            None => RleEncoder::new(1, DEFAULT_RLE_BUFFER_LEN),
        };
        let buf = rle_encoder.flush_buffer();
        proof {
            assert(buf@ =~= hybrid_bytes(self.bits@, 1));
        }
        let mut encoded_data: Vec<u8> = Vec::new();
        push_le_bytes(&mut encoded_data, (buf.len() as u64) % 0x1_0000_0000, 4);
        push_bytes(&mut encoded_data, buf.as_slice());
        rle_encoder.clear();
        proof {
            assert(rle_encoder.prefix() =~= Seq::<u8>::empty());
            self.bits = Ghost(Seq::empty());
            self.batch = Ghost(Seq::empty());
        }
        self.encoder = Some(rle_encoder);
        Ok(encoded_data)
    }
}

} // verus!
