//! The two delta encoders for byte arrays: DELTA_LENGTH_BYTE_ARRAY and
//! DELTA_BYTE_ARRAY.

use std::marker::PhantomData;
use vstd::prelude::*;
use crate::basic::{Encoding, Type};
use crate::data_type::{push_bytes, DataType, Int32Type};
use crate::encodings::delta::delta_encode;
use crate::encodings::delta_bit_pack::{int_values, DeltaBitPackEncoder};
use crate::encodings::encoding::{raws, Encoder};
use crate::errors::{is_general_error, ParquetError};

verus! {

/// A length as the format stores it: in 32 bits, two's complement.
pub open spec fn length_i32(len: nat) -> int {
    let m = len % 0x1_0000_0000;
    if m >= 0x8000_0000 {
        m - 0x1_0000_0000
    } else {
        m as int
    }
}

/// The stored lengths of `items`, in order.
pub open spec fn lengths_of(items: Seq<Seq<u8>>) -> Seq<i64> {
    Seq::new(items.len(), |i: int| length_i32(items[i].len()) as i64)
}

/// The bytes of `items`, one after the other.
pub open spec fn concat_all(items: Seq<Seq<u8>>) -> Seq<u8>
    decreases items.len(),
{
    if items.len() == 0 {
        Seq::empty()
    } else {
        concat_all(items.drop_last()) + items.last()
    }
}

/// The DELTA_LENGTH_BYTE_ARRAY page of `items`: their lengths as a
/// DELTA_BINARY_PACKED page of INT32, then their bytes.
pub open spec fn delta_length_encode(items: Seq<Seq<u8>>) -> Seq<u8> {
    delta_encode(Type::INT32, lengths_of(items)) + concat_all(items)
}

/// The views of `items`, in order.
pub open spec fn views(items: Seq<Vec<u8>>) -> Seq<Seq<u8>> {
    Seq::new(items.len(), |i: int| items[i]@)
}

/// The bytes of items in a row are the bytes of each part in turn.
pub proof fn lemma_concat_all_append(a: Seq<Seq<u8>>, b: Seq<Seq<u8>>)
    ensures
        concat_all(a + b) == concat_all(a) + concat_all(b),
    decreases b.len(),
{
    if b.len() == 0 {
        assert(a + b =~= a);
        assert(concat_all(a) + concat_all(b) =~= concat_all(a));
    } else {
        lemma_concat_all_append(a, b.drop_last());
        assert((a + b).drop_last() =~= a + b.drop_last());
        assert(concat_all(a + b) =~= concat_all(a) + concat_all(b));
    }
}

/// `len` in 32 bits, two's complement.
fn length_as_i32(len: usize) -> (r: i32)
    ensures
        r == length_i32(len as nat),
{
    let m: u64 = (len as u64) % 0x1_0000_0000;
    if m >= 0x8000_0000 {
        (m as i64 - 0x1_0000_0000) as i32
    } else {
        m as i32
    }
}

/// The bytes of each of `values`, each in a vector of its own.
fn raw_items<T: DataType>(values: &[T::T]) -> (items: Vec<Vec<u8>>)
    ensures
        views(items@) == raws::<T>(values@),
        items@.len() == values@.len(),
{
    let n = values.len();
    let mut items: Vec<Vec<u8>> = Vec::with_capacity(n);
    let mut i: usize = 0;
    assert(views(items@) =~= raws::<T>(values@).take(0));
    while i < n
        invariant
            i <= n,
            n == values@.len(),
            items@.len() == i,
            views(items@) == raws::<T>(values@).take(i as int),
        decreases n - i,
    {
        let mut raw: Vec<u8> = Vec::new();
        T::write_raw(&values[i], &mut raw);
        assert(raw@ =~= T::raw(&values@[i as int]));
        let ghost before = items@;
        items.push(raw);
        assert forall|k: int| 0 <= k < i + 1 implies views(items@)[k] == raws::<T>(values@).take(
            i + 1,
        )[k] by {
            if k < i {
                assert(views(before)[k] == raws::<T>(values@).take(i as int)[k]);
            }
        }
        assert(views(items@) =~= raws::<T>(values@).take(i + 1));
        i = i + 1;
    }
    assert(raws::<T>(values@).take(n as int) =~= raws::<T>(values@));
    items
}

/// The DELTA_LENGTH_BYTE_ARRAY encoder, for BYTE_ARRAY.
pub struct DeltaLengthByteArrayEncoder<T: DataType> {
    len_encoder: DeltaBitPackEncoder<Int32Type>,
    data: Vec<u8>,
    batch: Ghost<Seq<Seq<u8>>>,
    _phantom: PhantomData<T>,
}

impl<T: DataType> DeltaLengthByteArrayEncoder<T> {
    /// An encoder with an empty page.
    pub fn new() -> (e: Self)
        ensures
            e.wf(),
            e.batch() == Seq::<Seq<u8>>::empty(),
    {
        let e = DeltaLengthByteArrayEncoder {
            len_encoder: DeltaBitPackEncoder::new(),
            data: Vec::new(),
            batch: Ghost(Seq::empty()),
            _phantom: PhantomData,
        };
        assert(lengths_of(e.batch@) =~= Seq::<i64>::empty());
        e
    }

    /// Adds byte strings to the page, whatever the type parameter.
    pub(crate) fn put_items(&mut self, items: &Vec<Vec<u8>>)
        requires
            old(self).wf(),
            old(self).batch().len() + items@.len() <= usize::MAX,
        ensures
            final(self).wf(),
            final(self).batch() == old(self).batch() + views(items@),
    {
        let n = items.len();
        let mut lengths: Vec<i32> = Vec::with_capacity(n);
        let mut i: usize = 0;
        let ghost added = views(items@);
        proof {
            assert(added.take(0) =~= Seq::<Seq<u8>>::empty());
            assert(self.batch@ + added.take(0) =~= self.batch@);
            assert(self.data@ + concat_all(added.take(0)) =~= self.data@);
        }
        while i < n
            invariant
                i <= n,
                n == items@.len(),
                added == views(items@),
                lengths@.len() == i,
                forall|k: int| 0 <= k < i ==> #[trigger] lengths@[k] == length_i32(items@[k]@.len()),
                self.data@ == old(self).data@ + concat_all(added.take(i as int)),
                self.len_encoder == old(self).len_encoder,
                self.batch == old(self).batch,
            decreases n - i,
        {
            lengths.push(length_as_i32(items[i].len()));
            push_bytes(&mut self.data, items[i].as_slice());
            proof {
                assert(added.take(i + 1).drop_last() =~= added.take(i as int));
                assert(added.take(i + 1).last() == items@[i as int]@);
                assert(self.data@ =~= old(self).data@ + concat_all(added.take(i + 1)));
            }
            i = i + 1;
        }
        let _ = self.len_encoder.put(lengths.as_slice());
        proof {
            assert(added.take(n as int) =~= added);
            lemma_concat_all_append(self.batch@, added);
            assert(int_values::<Int32Type>(lengths@) =~= lengths_of(added));
            assert(lengths_of(self.batch@ + added) =~= lengths_of(self.batch@) + lengths_of(added));
            self.batch = Ghost(self.batch@ + added);
            assert(self.data@ =~= concat_all(self.batch@));
        }
    }
}

impl<T: DataType> Encoder<T> for DeltaLengthByteArrayEncoder<T> {
    closed spec fn wf(&self) -> bool {
        &&& self.len_encoder.wf()
        &&& self.len_encoder.values() == lengths_of(self.batch@)
        &&& self.data@ == concat_all(self.batch@)
    }

    closed spec fn batch(&self) -> Seq<Seq<u8>> {
        self.batch@
    }

    /// The count of values of a page must fit in a `usize`.
    open spec fn accepts(&self, count: nat) -> bool {
        self.batch().len() + count <= usize::MAX
    }

    open spec fn flushable(&self) -> bool {
        true
    }

    fn put(&mut self, values: &[T::T]) -> (r: Result<(), ParquetError>)
        ensures
            r is Ok <==> T::physical_type() == Type::BYTE_ARRAY,
            r is Err ==> is_general_error(
                r->Err_0,
                "DeltaLengthByteArrayEncoder only supports ByteArrayType"@,
            ) && final(self).batch() == old(self).batch(),
    {
        match T::get_physical_type() {
            Type::BYTE_ARRAY => {
                let items = raw_items::<T>(values);
                self.put_items(&items);
                Ok(())
            },
            _ => Err(
                ParquetError::General(
                    "DeltaLengthByteArrayEncoder only supports ByteArrayType".to_string(),
                ),
            ),
        }
    }

    open spec fn encoding_id(&self) -> Encoding {
        Encoding::DELTA_LENGTH_BYTE_ARRAY
    }

    fn encoding(&self) -> (e: Encoding) {
        Encoding::DELTA_LENGTH_BYTE_ARRAY
    }

    fn flush_buffer(&mut self) -> (r: Result<Vec<u8>, ParquetError>)
        ensures
            r is Ok,
            r.unwrap()@ == delta_length_encode(old(self).batch()),
    {
        let lengths = self.len_encoder.flush_buffer();
        let mut out: Vec<u8> = match lengths {
            Ok(bytes) => bytes,
            Err(e) => {
                return Err(e);
            },
        };
        push_bytes(&mut out, self.data.as_slice());
        self.data.clear();
        proof {
            self.batch = Ghost(Seq::empty());
            assert(lengths_of(self.batch@) =~= Seq::<i64>::empty());
        }
        Ok(out)
    }
}

// ----------------------------------------------------------------------
// DELTA_BYTE_ARRAY

/// The first position from `from` on at which `a` and `b` differ or one
/// of them ends, given that they agree before `from`.
pub open spec fn match_len(a: Seq<u8>, b: Seq<u8>, from: nat) -> nat
    decreases a.len() - from,
{
    if from < a.len() && from < b.len() && a[from as int] == b[from as int] {
        match_len(a, b, from + 1)
    } else {
        from
    }
}

/// The length of the longest prefix that `a` and `b` share.
pub open spec fn common_prefix_len(a: Seq<u8>, b: Seq<u8>) -> nat {
    match_len(a, b, 0)
}

/// The value that item `i` is compared with: the item before it, or
/// `start` for the first.
pub open spec fn predecessor(start: Seq<u8>, items: Seq<Seq<u8>>, i: int) -> Seq<u8> {
    if i == 0 {
        start
    } else {
        items[i - 1]
    }
}

/// For each item, the stored length of the prefix it shares with its
/// predecessor.
pub open spec fn prefix_lengths(start: Seq<u8>, items: Seq<Seq<u8>>) -> Seq<i64> {
    Seq::new(
        items.len(),
        |i: int| length_i32(common_prefix_len(predecessor(start, items, i), items[i])) as i64,
    )
}

/// For each item, what follows the prefix it shares with its predecessor.
pub open spec fn suffixes(start: Seq<u8>, items: Seq<Seq<u8>>) -> Seq<Seq<u8>> {
    Seq::new(
        items.len(),
        |i: int| items[i].skip(common_prefix_len(predecessor(start, items, i), items[i]) as int),
    )
}

/// The DELTA_BYTE_ARRAY page of `items`, the first of them compared with
/// `start`: the prefix lengths as a DELTA_BINARY_PACKED page, then the
/// suffixes as a DELTA_LENGTH_BYTE_ARRAY page.
pub open spec fn delta_byte_array_encode(start: Seq<u8>, items: Seq<Seq<u8>>) -> Seq<u8> {
    delta_encode(Type::INT32, prefix_lengths(start, items)) + delta_length_encode(
        suffixes(start, items),
    )
}

/// The length of the longest prefix that `previous` and `current` share.
fn shared_prefix(previous: &Vec<u8>, current: &Vec<u8>) -> (n: usize)
    ensures
        n == common_prefix_len(previous@, current@),
        n <= current@.len(),
{
    let prefix_len = if previous.len() < current.len() {
        previous.len()
    } else {
        current.len()
    };
    let mut n: usize = 0;
    while n < prefix_len && previous[n] == current[n]
        invariant
            n <= prefix_len,
            prefix_len <= previous@.len(),
            prefix_len <= current@.len(),
            prefix_len == previous@.len() || prefix_len == current@.len(),
            match_len(previous@, current@, n as nat) == common_prefix_len(previous@, current@),
        decreases prefix_len - n,
    {
        n = n + 1;
    }
    n
}

/// A copy of `bytes` from position `from` on.
fn copy_from(bytes: &Vec<u8>, from: usize) -> (out: Vec<u8>)
    requires
        from <= bytes@.len(),
    ensures
        out@ == bytes@.skip(from as int),
{
    let n = bytes.len();
    let mut out: Vec<u8> = Vec::with_capacity(n - from);
    let mut i: usize = from;
    assert(out@ =~= bytes@.subrange(from as int, i as int));
    while i < n
        invariant
            from <= i <= n,
            n == bytes@.len(),
            out@ == bytes@.subrange(from as int, i as int),
        decreases n - i,
    {
        out.push(bytes[i]);
        assert(out@ =~= bytes@.subrange(from as int, i + 1));
        i = i + 1;
    }
    assert(bytes@.subrange(from as int, n as int) =~= bytes@.skip(from as int));
    out
}

/// The DELTA_BYTE_ARRAY encoder, for BYTE_ARRAY.
///
/// The value that the first value of a page is compared with is the last
/// value of the page before: a flush keeps it.
pub struct DeltaByteArrayEncoder<T: DataType> {
    prefix_len_encoder: DeltaBitPackEncoder<Int32Type>,
    suffix_writer: DeltaLengthByteArrayEncoder<T>,
    previous: Vec<u8>,
    start: Ghost<Seq<u8>>,
    batch: Ghost<Seq<Seq<u8>>>,
    _phantom: PhantomData<T>,
}

impl<T: DataType> DeltaByteArrayEncoder<T> {
    /// The value that the next value will be compared with.
    pub closed spec fn previous(&self) -> Seq<u8> {
        self.previous@
    }

    /// The value that the first value of this page was, or will be,
    /// compared with.
    pub closed spec fn page_start(&self) -> Seq<u8> {
        self.start@
    }

    /// An encoder with an empty page, whose first value is compared with
    /// the empty byte array.
    pub fn new() -> (e: Self)
        ensures
            e.wf(),
            e.batch() == Seq::<Seq<u8>>::empty(),
            e.previous() == Seq::<u8>::empty(),
            e.page_start() == Seq::<u8>::empty(),
    {
        let e = DeltaByteArrayEncoder {
            prefix_len_encoder: DeltaBitPackEncoder::new(),
            suffix_writer: DeltaLengthByteArrayEncoder::new(),
            previous: Vec::new(),
            start: Ghost(Seq::empty()),
            batch: Ghost(Seq::empty()),
            _phantom: PhantomData,
        };
        proof {
            assert(prefix_lengths(e.start@, e.batch@) =~= Seq::<i64>::empty());
            assert(suffixes(e.start@, e.batch@) =~= Seq::<Seq<u8>>::empty());
        }
        e
    }

    /// Adds byte strings to the page.
    fn put_items(&mut self, items: Vec<Vec<u8>>)
        requires
            old(self).wf(),
            old(self).batch().len() + items@.len() <= usize::MAX,
        ensures
            final(self).wf(),
            final(self).batch() == old(self).batch() + views(items@),
            final(self).page_start() == old(self).page_start(),
            final(self).previous() == (if items@.len() == 0 {
                old(self).previous()
            } else {
                items@.last()@
            }),
    {
        let n = items.len();
        let ghost start = self.start@;
        let ghost all = self.batch@ + views(items@);
        let ghost base = self.batch@.len() as int;
        let mut lengths: Vec<i32> = Vec::with_capacity(n);
        let mut tails: Vec<Vec<u8>> = Vec::with_capacity(n);
        let mut i: usize = 0;
        while i < n
            invariant
                i <= n,
                n == items@.len(),
                start == self.start@,
                all == self.batch@ + views(items@),
                base == self.batch@.len(),
                self.batch == old(self).batch,
                self.start == old(self).start,
                self.prefix_len_encoder == old(self).prefix_len_encoder,
                self.suffix_writer == old(self).suffix_writer,
                self.previous@ == predecessor(start, all, base + i),
                i == 0 ==> self.previous@ == old(self).previous@,
                i > 0 ==> self.previous@ == items@[i - 1]@,
                lengths@.len() == i,
                tails@.len() == i,
                forall|k: int|
                    0 <= k < i ==> #[trigger] lengths@[k] as i64 == prefix_lengths(start, all)[base
                        + k],
                forall|k: int| 0 <= k < i ==> (#[trigger] tails@[k])@ == suffixes(start, all)[base + k],
            decreases n - i,
        {
            let current = &items[i];
            assert(all[base + i] == current@);
            let shared = shared_prefix(&self.previous, current);
            lengths.push(length_as_i32(shared));
            tails.push(copy_from(current, shared));
            self.previous.clear();
            push_bytes(&mut self.previous, current.as_slice());
            assert(self.previous@ =~= current@);
            i = i + 1;
        }
        let _ = self.prefix_len_encoder.put(lengths.as_slice());
        self.suffix_writer.put_items(&tails);
        proof {
            assert(int_values::<Int32Type>(lengths@) =~= prefix_lengths(start, all).skip(base));
            assert(prefix_lengths(start, all).take(base) =~= prefix_lengths(start, self.batch@));
            assert(prefix_lengths(start, all) =~= prefix_lengths(start, self.batch@)
                + int_values::<Int32Type>(lengths@));
            assert(suffixes(start, all) =~= suffixes(start, self.batch@) + views(tails@));
            self.batch = Ghost(all);
        }
    }
}

impl<T: DataType> Encoder<T> for DeltaByteArrayEncoder<T> {
    closed spec fn wf(&self) -> bool {
        &&& self.prefix_len_encoder.wf()
        &&& self.suffix_writer.wf()
        &&& self.prefix_len_encoder.values() == prefix_lengths(self.start@, self.batch@)
        &&& self.suffix_writer.batch() == suffixes(self.start@, self.batch@)
        &&& self.previous@ == predecessor(self.start@, self.batch@, self.batch@.len() as int)
    }

    closed spec fn batch(&self) -> Seq<Seq<u8>> {
        self.batch@
    }

    /// The count of values of a page must fit in a `usize`.
    open spec fn accepts(&self, count: nat) -> bool {
        self.batch().len() + count <= usize::MAX
    }

    open spec fn flushable(&self) -> bool {
        true
    }

    fn put(&mut self, values: &[T::T]) -> (r: Result<(), ParquetError>)
        ensures
            r is Ok <==> T::physical_type() == Type::BYTE_ARRAY,
            final(self).page_start() == old(self).page_start(),
            r is Ok ==> final(self).previous() == (if values@.len() == 0 {
                old(self).previous()
            } else {
                T::raw(&values@.last())
            }),
            r is Err ==> is_general_error(
                r->Err_0,
                "DeltaByteArrayEncoder only supports ByteArrayType"@,
            ) && final(self).batch() == old(self).batch() && final(self).previous() == old(
                self).previous(),
    {
        match T::get_physical_type() {
            Type::BYTE_ARRAY => {
                let items = raw_items::<T>(values);
                proof {
                    if values@.len() > 0 {
                        assert(views(items@).last() == raws::<T>(values@).last());
                    }
                }
                self.put_items(items);
                Ok(())
            },
            _ => Err(
                ParquetError::General(
                    "DeltaByteArrayEncoder only supports ByteArrayType".to_string(),
                ),
            ),
        }
    }

    open spec fn encoding_id(&self) -> Encoding {
        Encoding::DELTA_BYTE_ARRAY
    }

    fn encoding(&self) -> (e: Encoding) {
        Encoding::DELTA_BYTE_ARRAY
    }

    fn flush_buffer(&mut self) -> (r: Result<Vec<u8>, ParquetError>)
        ensures
            r is Ok,
            r.unwrap()@ == delta_byte_array_encode(old(self).page_start(), old(self).batch()),
            final(self).previous() == old(self).previous(),
            final(self).page_start() == old(self).previous(),
    {
        let lengths = self.prefix_len_encoder.flush_buffer();
        let mut out: Vec<u8> = match lengths {
            Ok(bytes) => bytes,
            Err(e) => {
                return Err(e);
            },
        };
        let tails = self.suffix_writer.flush_buffer();
        match tails {
            Ok(bytes) => {
                push_bytes(&mut out, bytes.as_slice());
            },
            Err(e) => {
                return Err(e);
            },
        }
        proof {
            self.start = Ghost(self.previous@);
            self.batch = Ghost(Seq::empty());
            assert(prefix_lengths(self.start@, self.batch@) =~= Seq::<i64>::empty());
            assert(suffixes(self.start@, self.batch@) =~= Seq::<Seq<u8>>::empty());
        }
        Ok(out)
    }
}

} // verus!
