//! The DELTA_BINARY_PACKED encoder.

use std::marker::PhantomData;
use vstd::prelude::*;
use crate::basic::{Encoding, Type};
use crate::data_type::{push_bytes, DataType};
use crate::encodings::delta::{
    block_bits, block_widths, blocks_bits, delta_encode, delta_seq, is_delta_type,
    BLOCK_SIZE, MINI_BLOCK_SIZE, NUM_MINI_BLOCKS,
    lemma_blocks_bits_concat, lemma_delta_seq_push, lemma_packed_bits_len,
    max_of, min_of, mini_block, mini_block_bits, mini_block_width, mini_blocks_bits, packed_bits,
    page_header, unsigned_diff, wrapping_diff,
};
use crate::encodings::encoding::{raws, Encoder};
use crate::errors::ParquetError;
use crate::util::bit_util::{num_required_bits, BitWriter};
use crate::util::bits::{
    bytes_bits, lemma_bytes_bits_concat, lemma_bytes_bits_len, lemma_bytes_bits_push,
    lemma_low_bits_len, lemma_low_bits_zero, lemma_pack_bytes_bits, lemma_pad_aligned,
    lemma_patch_width, low_bits,
    vlq_bytes, zero_bits, zigzag,
};

verus! {

/// Whether `v` is the value of some `i32`.
pub open spec fn in_i32(v: i64) -> bool {
    i32::MIN <= v <= i32::MAX
}

/// The number that each of `values` stands for, in order.
pub open spec fn int_values<T: DataType>(values: Seq<T::T>) -> Seq<i64> {
    Seq::new(values.len(), |i: int| T::int_value(&values[i]) as i64)
}

/// `left - right` in the wrapping arithmetic of the type.
fn subtract(t: Type, left: i64, right: i64) -> (r: i64)
    requires
        is_delta_type(t),
        t == Type::INT32 ==> in_i32(left) && in_i32(right),
    ensures
        r == wrapping_diff(t, left as int, right as int),
        t == Type::INT32 ==> in_i32(r),
{
    match t {
        Type::INT32 => {
            let d: i64 = left - right;
            if d > 2147483647 {
                d - 4294967296
            } else if d < -2147483648 {
                d + 4294967296
            } else {
                d
            }
        },
        _ => {
            let d: i128 = left as i128 - right as i128;
            if d > 9223372036854775807 {
                (d - 18446744073709551616) as i64
            } else if d < -9223372036854775808 {
                (d + 18446744073709551616) as i64
            } else {
                d as i64
            }
        },
    }
}

/// `left - right` as an unsigned number of the type's width.
fn subtract_u64(t: Type, left: i64, right: i64) -> (r: u64)
    requires
        is_delta_type(t),
        t == Type::INT32 ==> in_i32(left) && in_i32(right),
    ensures
        r == unsigned_diff(t, left as int, right as int),
{
    match t {
        Type::INT32 => {
            let d: i64 = left - right;
            if d < 0 {
                (d + 4294967296) as u64
            } else {
                d as u64
            }
        },
        _ => {
            let d: i128 = left as i128 - right as i128;
            if d < 0 {
                (d + 18446744073709551616) as u64
            } else {
                d as u64
            }
        },
    }
}

/// The smallest of the first `count` deltas.
fn min_delta(deltas: &Vec<i64>, count: usize) -> (m: i64)
    requires
        count <= deltas@.len(),
    ensures
        m == min_of(deltas@.take(count as int)),
        count > 0 && (forall|k: int| 0 <= k < count ==> in_i32(#[trigger] deltas@[k])) ==> in_i32(m),
{
    let mut m = i64::MAX;
    let mut i: usize = 0;
    while i < count
        invariant
            i <= count <= deltas@.len(),
            m == min_of(deltas@.take(i as int)),
            i > 0 && (forall|k: int| 0 <= k < count ==> in_i32(#[trigger] deltas@[k])) ==> in_i32(m),
        decreases count - i,
    {
        assert(deltas@.take(i + 1).drop_last() =~= deltas@.take(i as int));
        if deltas[i] < m {
            m = deltas[i];
        }
        i = i + 1;
    }
    m
}

/// The largest of the deltas from `from` up to `to`.
fn max_delta(deltas: &Vec<i64>, from: usize, to: usize) -> (m: i64)
    requires
        from <= to <= deltas@.len(),
    ensures
        m == max_of(deltas@.subrange(from as int, to as int)),
        from < to && (forall|k: int| from <= k < to ==> in_i32(#[trigger] deltas@[k])) ==> in_i32(m),
{
    let mut m = i64::MIN;
    let mut i: usize = from;
    while i < to
        invariant
            from <= i <= to <= deltas@.len(),
            m == max_of(deltas@.subrange(from as int, i as int)),
            i > from && (forall|k: int| from <= k < to ==> in_i32(#[trigger] deltas@[k])) ==> in_i32(
                m,
            ),
        decreases to - i,
    {
        assert(deltas@.subrange(from as int, i + 1).drop_last() =~= deltas@.subrange(
            from as int,
            i as int,
        ));
        if deltas[i] > m {
            m = deltas[i];
        }
        i = i + 1;
    }
    m
}

/// Writes the deltas from `from` up to `to` as one mini-block: each less
/// `min` at `width` bits, then zeros for the entries that are missing.
fn write_mini_block(
    t: Type,
    deltas: &Vec<i64>,
    from: usize,
    to: usize,
    min: i64,
    width: usize,
    bit_writer: &mut BitWriter,
)
    requires
        is_delta_type(t),
        from < to <= deltas@.len(),
        to - from <= 32,
        width <= 64,
        old(bit_writer).wf(),
        old(bit_writer).aligned(),
        t == Type::INT32 ==> in_i32(min) && forall|k: int|
            from <= k < to ==> in_i32(#[trigger] deltas@[k]),
    ensures
        final(bit_writer).wf(),
        final(bit_writer).aligned(),
        final(bit_writer)@ == old(bit_writer)@ + (packed_bits(
            t,
            deltas@.subrange(from as int, to as int),
            min,
            width as nat,
        ) + zero_bits(((32 - (to - from)) * width) as nat)),
{
    let ghost base = bit_writer@;
    let ghost w = width as nat;
    let mut j: usize = from;
    assert(base + packed_bits(t, deltas@.subrange(from as int, j as int), min, w) =~= base);
    while j < to
        invariant
            is_delta_type(t),
            from <= j <= to <= deltas@.len(),
            width <= 64,
            w == width,
            bit_writer.wf(),
            t == Type::INT32 ==> in_i32(min) && forall|k: int|
                from <= k < to ==> in_i32(#[trigger] deltas@[k]),
            bit_writer@ == base + packed_bits(t, deltas@.subrange(from as int, j as int), min, w),
        decreases to - j,
    {
        let packed = subtract_u64(t, deltas[j], min);
        bit_writer.put_value(packed, width);
        proof {
            let next = deltas@.subrange(from as int, j + 1);
            assert(next.drop_last() =~= deltas@.subrange(from as int, j as int));
            assert(bit_writer@ =~= base + packed_bits(t, next, min, w));
        }
        j = j + 1;
    }
    let ghost packed_all = packed_bits(t, deltas@.subrange(from as int, to as int), min, w);
    let mut pad: usize = to - from;
    assert(base + packed_all + zero_bits(0) =~= base + packed_all);
    assert((pad - (to - from)) * w == 0) by (nonlinear_arith)
        requires
            pad == to - from,
    ;
    while pad < MINI_BLOCK_SIZE
        invariant
            to - from <= pad <= 32,
            width <= 64,
            w == width,
            bit_writer.wf(),
            bit_writer@ == base + packed_all + zero_bits(((pad - (to - from)) * w) as nat),
        decreases 32 - pad,
    {
        bit_writer.put_value(0, width);
        proof {
            lemma_low_bits_zero(w);
            let done = ((pad - (to - from)) * w) as nat;
            assert((pad + 1 - (to - from)) * w == done + w) by (nonlinear_arith)
                requires
                    done == (pad - (to - from)) * w,
                    pad >= to - from,
            ;
            assert(zero_bits(done) + zero_bits(w) =~= zero_bits(done + w));
            assert(bit_writer@ =~= base + packed_all + zero_bits(done + w));
        }
        pad = pad + 1;
    }
    proof {
        lemma_packed_bits_len(t, deltas@.subrange(from as int, to as int), min, w);
        let n = (to - from) as nat;
        let zeros = ((32 - n) * w) as nat;
        assert(n * w + (32 - n) * w == 32 * w) by (nonlinear_arith);
        assert(0 <= (32 - n) * w) by (nonlinear_arith)
            requires
                n <= 32,
        ;
        assert(bit_writer@ =~= base + (packed_all + zero_bits(zeros)));
        assert(bit_writer@.len() == base.len() + 32 * w);
    }
}

/// Writes mini-block `i` of a block, if it has any deltas, and its width
/// into the byte set aside for it at `pos + i`.
#[verifier::rlimit(40)]
fn write_nth_mini_block(
    t: Type,
    deltas: &Vec<i64>,
    count: usize,
    i: usize,
    min: i64,
    pos: usize,
    bit_writer: &mut BitWriter,
    Ghost(head): Ghost<Seq<bool>>,
    Ghost(widths): Ghost<Seq<u8>>,
) -> (byte: u8)
    requires
        is_delta_type(t),
        0 < count <= 128,
        count <= deltas@.len(),
        i < 4,
        pos + 4 <= usize::MAX,
        min == min_of(deltas@.take(count as int)),
        t == Type::INT32 ==> in_i32(min) && forall|k: int|
            0 <= k < count ==> in_i32(#[trigger] deltas@[k]),
        old(bit_writer).wf(),
        old(bit_writer).aligned(),
        8 * pos == head.len(),
        widths.len() == i,
        old(bit_writer)@ == head + bytes_bits(widths) + zero_bits((8 * (4 - i)) as nat)
            + mini_blocks_bits(t, deltas@.take(count as int), i as nat),
    ensures
        final(bit_writer).wf(),
        final(bit_writer).aligned(),
        byte == mini_block_width(t, deltas@.take(count as int), i as int) as u8,
        final(bit_writer)@ == head + bytes_bits(widths.push(byte)) + zero_bits((8 * (3 - i)) as nat)
            + mini_blocks_bits(t, deltas@.take(count as int), (i + 1) as nat),
{
    let ghost block = deltas@.take(count as int);
    let ghost before = bit_writer@;
    let ghost done = mini_blocks_bits(t, block, i as nat);
    let ghost front = head + bytes_bits(widths);
    let from: usize = MINI_BLOCK_SIZE * i;
    proof {
        lemma_bytes_bits_len(widths);
        assert(front.len() == 8 * (pos + i));
    }
    if from < count {
        let n: usize = if count - from < MINI_BLOCK_SIZE {
            count - from
        } else {
            MINI_BLOCK_SIZE
        };
        let to: usize = from + n;
        assert(deltas@.subrange(from as int, to as int) == mini_block(block, i as int)) by {
            assert(deltas@.subrange(from as int, to as int) =~= mini_block(block, i as int));
        }
        let max = max_delta(deltas, from, to);
        let width = num_required_bits(subtract_u64(t, max, min));
        let byte = width as u8;
        let ghost byte_bits = low_bits(byte as nat, 8);
        proof {
            lemma_low_bits_len(byte as nat, 8);
            lemma_patch_width(before, front, (4 - i) as nat, done, byte_bits);
        }
        bit_writer.put_byte_at(pos + i, byte);
        let ghost patched = bit_writer@;
        assert(patched == front + byte_bits + zero_bits((8 * (3 - i)) as nat) + done);
        write_mini_block(t, deltas, from, to, min, width, bit_writer);
        proof {
            let block_i = mini_block_bits(t, block, i as int);
            assert(bit_writer@ == patched + block_i);
            lemma_bytes_bits_push(widths, byte);
            assert(mini_blocks_bits(t, block, (i + 1) as nat) == done + block_i);
            lemma_seq_regroup(
                head,
                bytes_bits(widths),
                byte_bits,
                zero_bits((8 * (3 - i)) as nat),
                done,
                block_i,
            );
        }
        byte
    } else {
        proof {
            assert(mini_block(block, i as int).len() == 0);
            let block_i = mini_block_bits(t, block, i as int);
            assert(block_i =~= Seq::<bool>::empty());
            lemma_bytes_bits_push(widths, 0u8);
            lemma_low_bits_zero(8);
            assert(mini_blocks_bits(t, block, (i + 1) as nat) == done + block_i);
            assert(zero_bits((8 * (4 - i)) as nat) =~= zero_bits(8) + zero_bits(
                (8 * (3 - i)) as nat,
            ));
            lemma_seq_regroup_empty(
                head,
                bytes_bits(widths),
                zero_bits(8),
                zero_bits((8 * (3 - i)) as nat),
                done,
                block_i,
            );
        }
        0
    }
}

/// Concatenation may be grouped at will.
proof fn lemma_seq_regroup(
    a: Seq<bool>,
    b: Seq<bool>,
    c: Seq<bool>,
    d: Seq<bool>,
    e: Seq<bool>,
    f: Seq<bool>,
)
    ensures
        ((a + b) + c + d + e) + f == a + (b + c) + d + (e + f),
{
    assert(((a + b) + c + d + e) + f =~= a + (b + c) + d + (e + f));
}

proof fn lemma_seq_regroup_empty(
    a: Seq<bool>,
    b: Seq<bool>,
    c: Seq<bool>,
    d: Seq<bool>,
    e: Seq<bool>,
    f: Seq<bool>,
)
    requires
        f.len() == 0,
    ensures
        a + b + (c + d) + e == a + (b + c) + d + (e + f),
{
    assert(a + b + (c + d) + e =~= a + (b + c) + d + (e + f));
}

/// Writes the first `count` deltas as one block.
#[verifier::rlimit(40)]
fn write_block(t: Type, deltas: &Vec<i64>, count: usize, bit_writer: &mut BitWriter)
    requires
        is_delta_type(t),
        0 < count <= 128,
        count <= deltas@.len(),
        old(bit_writer).wf(),
        old(bit_writer).aligned(),
        t == Type::INT32 ==> forall|k: int| 0 <= k < count ==> in_i32(#[trigger] deltas@[k]),
    ensures
        final(bit_writer).wf(),
        final(bit_writer).aligned(),
        final(bit_writer)@ == old(bit_writer)@ + block_bits(t, deltas@.take(count as int)),
{
    let ghost block = deltas@.take(count as int);
    let ghost base = bit_writer@;
    let min = min_delta(deltas, count);
    proof {
        lemma_pad_aligned(base);
    }
    bit_writer.put_zigzag_vlq_int(min);
    let ghost head = bit_writer@;
    proof {
        lemma_pad_aligned(head);
    }
    let pos = bit_writer.get_next_byte_ptr(NUM_MINI_BLOCKS);
    let mut i: usize = 0;
    let ghost mut widths: Seq<u8> = Seq::empty();
    proof {
        assert(head + bytes_bits(widths) =~= head);
        assert(bit_writer@ =~= head + bytes_bits(widths) + zero_bits((8 * (4 - i)) as nat)
            + mini_blocks_bits(t, block, i as nat));
    }
    while i < NUM_MINI_BLOCKS
        invariant
            is_delta_type(t),
            0 < count <= 128,
            count <= deltas@.len(),
            block == deltas@.take(count as int),
            min == min_of(block),
            t == Type::INT32 ==> in_i32(min) && forall|k: int|
                0 <= k < count ==> in_i32(#[trigger] deltas@[k]),
            i <= 4,
            pos + 4 <= usize::MAX,
            bit_writer.wf(),
            bit_writer.aligned(),
            8 * pos == head.len(),
            widths.len() == i,
            forall|k: int| 0 <= k < i ==> widths[k] == mini_block_width(t, block, k) as u8,
            bit_writer@ == head + bytes_bits(widths) + zero_bits((8 * (4 - i)) as nat)
                + mini_blocks_bits(t, block, i as nat),
        decreases 4 - i,
    {
        let byte = write_nth_mini_block(
            t,
            deltas,
            count,
            i,
            min,
            pos,
            bit_writer,
            Ghost(head),
            Ghost(widths),
        );
        proof {
            widths = widths.push(byte);
        }
        i = i + 1;
    }
    proof {
        reveal(block_bits);
        assert(widths =~= block_widths(t, block));
        assert(zero_bits(0) =~= Seq::<bool>::empty());
        assert(bit_writer@ =~= base + block_bits(t, block));
    }
}

/// The DELTA_BINARY_PACKED encoder, for INT32 and INT64.
///
/// Deltas gather in a block; a full block is written out at once, and a
/// flush writes what is left, puts the page header in front and starts a
/// new page.
pub struct DeltaBitPackEncoder<T: DataType> {
    page_header_writer: BitWriter,
    bit_writer: BitWriter,
    total_values: usize,
    first_value: i64,
    current_value: i64,
    values_in_block: usize,
    deltas: Vec<i64>,
    batch: Ghost<Seq<Seq<u8>>>,
    ints: Ghost<Seq<i64>>,
    _phantom: PhantomData<T>,
}

impl<T: DataType> DeltaBitPackEncoder<T> {
    /// The numbers put since the last flush.
    pub closed spec fn values(&self) -> Seq<i64> {
        self.ints@
    }

    /// How the fields stand for the numbers put so far, the count of
    /// values aside.
    spec fn tracks(&self) -> bool {
        let t = T::physical_type();
        let all = delta_seq(t, self.ints@);
        let pending = self.values_in_block as int;
        &&& is_delta_type(t)
        &&& self.page_header_writer.wf()
        &&& self.page_header_writer@ == Seq::<bool>::empty()
        &&& self.bit_writer.wf()
        &&& self.bit_writer.aligned()
        &&& self.deltas@.len() == 128
        &&& pending < 128
        &&& pending == all.len() % 128
        &&& self.bit_writer@ == blocks_bits(t, all.take(all.len() - pending))
        &&& self.deltas@.take(pending) == all.skip(all.len() - pending)
        &&& self.batch@.len() == self.ints@.len()
        &&& (self.ints@.len() > 0 ==> self.first_value == self.ints@[0] && self.current_value
            == self.ints@.last())
        &&& (self.ints@.len() == 0 ==> self.first_value == 0)
        &&& (t == Type::INT32 ==> in_i32(self.current_value) && forall|k: int|
            0 <= k < pending ==> in_i32(#[trigger] self.deltas@[k]))
    }

    /// An encoder with an empty page.
    pub fn new() -> (e: Self)
        requires
            is_delta_type(T::physical_type()),
        ensures
            e.wf(),
            e.values() == Seq::<i64>::empty(),
            e.batch() == Seq::<Seq<u8>>::empty(),
    {
        let mut deltas: Vec<i64> = Vec::with_capacity(BLOCK_SIZE);
        let mut i: usize = 0;
        while i < BLOCK_SIZE
            invariant
                i <= BLOCK_SIZE,
                deltas@.len() == i,
            decreases BLOCK_SIZE - i,
        {
            deltas.push(0);
            i = i + 1;
        }
        let e = DeltaBitPackEncoder {
            page_header_writer: BitWriter::new(32),
            bit_writer: BitWriter::new(1024),
            total_values: 0,
            first_value: 0,
            current_value: 0,
            values_in_block: 0,
            deltas,
            batch: Ghost(Seq::empty()),
            ints: Ghost(Seq::empty()),
            _phantom: PhantomData,
        };
        proof {
            let t = T::physical_type();
            let all = delta_seq(t, e.ints@);
            assert(all.take(0) =~= Seq::<i64>::empty());
            assert(e.deltas@.take(0) =~= all.skip(0));
        }
        e
    }

    /// Writes the page header into its own writer.
    fn write_page_header(&mut self)
        requires
            old(self).page_header_writer.wf(),
            old(self).page_header_writer@ == Seq::<bool>::empty(),
        ensures
            final(self).page_header_writer.wf(),
            final(self).page_header_writer.bytes() == page_header(
                old(self).total_values as nat,
                old(self).first_value,
            ),
            final(self).bit_writer == old(self).bit_writer,
            final(self).total_values == old(self).total_values,
            final(self).first_value == old(self).first_value,
            final(self).current_value == old(self).current_value,
            final(self).values_in_block == old(self).values_in_block,
            final(self).deltas == old(self).deltas,
            final(self).batch == old(self).batch,
            final(self).ints == old(self).ints,
    {
        let ghost b1 = vlq_bytes(128);
        let ghost b2 = vlq_bytes(4);
        let ghost b3 = vlq_bytes(self.total_values as nat);
        let ghost b4 = vlq_bytes(zigzag(self.first_value as int));
        proof {
            lemma_pad_aligned(self.page_header_writer@);
        }
        self.page_header_writer.put_vlq_int(BLOCK_SIZE as u64);
        proof {
            lemma_pad_aligned(self.page_header_writer@);
        }
        self.page_header_writer.put_vlq_int(NUM_MINI_BLOCKS as u64);
        proof {
            lemma_pad_aligned(self.page_header_writer@);
        }
        self.page_header_writer.put_vlq_int(self.total_values as u64);
        proof {
            lemma_pad_aligned(self.page_header_writer@);
        }
        self.page_header_writer.put_zigzag_vlq_int(self.first_value);
        proof {
            lemma_bytes_bits_concat(b1, b2);
            lemma_bytes_bits_concat(b1 + b2, b3);
            lemma_bytes_bits_concat(b1 + b2 + b3, b4);
            assert(self.page_header_writer@ =~= bytes_bits(b1 + b2 + b3 + b4));
            lemma_pack_bytes_bits(b1 + b2 + b3 + b4);
        }
    }

    /// Writes the deltas that wait in the block, if any, and empties it.
    fn flush_block_values(&mut self)
        requires
            is_delta_type(T::physical_type()),
            old(self).values_in_block <= 128,
            old(self).deltas@.len() == 128,
            old(self).bit_writer.wf(),
            old(self).bit_writer.aligned(),
            T::physical_type() == Type::INT32 ==> forall|k: int|
                0 <= k < old(self).values_in_block ==> in_i32(#[trigger] old(self).deltas@[k]),
        ensures
            final(self).bit_writer.wf(),
            final(self).bit_writer.aligned(),
            old(self).values_in_block > 0 ==> final(self).bit_writer@ == old(self).bit_writer@
                + block_bits(
                T::physical_type(),
                old(self).deltas@.take(old(self).values_in_block as int),
            ),
            old(self).values_in_block == 0 ==> final(self).bit_writer@ == old(self).bit_writer@,
            final(self).values_in_block == 0,
            final(self).page_header_writer == old(self).page_header_writer,
            final(self).total_values == old(self).total_values,
            final(self).first_value == old(self).first_value,
            final(self).current_value == old(self).current_value,
            final(self).deltas == old(self).deltas,
            final(self).batch == old(self).batch,
            final(self).ints == old(self).ints,
    {
        if self.values_in_block == 0 {
            return ;
        }
        write_block(T::get_physical_type(), &self.deltas, self.values_in_block, &mut self.bit_writer);
        self.values_in_block = 0;
    }
}

/// What one more delta does to the deltas that wait and to those
/// already written.
proof fn lemma_delta_step(t: Type, all: Seq<i64>, d: i64, waiting: Seq<i64>, pending: int)
    requires
        0 <= pending < 128,
        pending == all.len() % 128,
        waiting.len() == 128,
        waiting.take(pending) == all.skip(all.len() - pending),
    ensures
        waiting.update(pending, d).take(pending + 1) == all.push(d).skip(all.len() - pending),
        all.push(d).take(all.len() - pending) == all.take(all.len() - pending),
        pending + 1 < 128 ==> all.push(d).len() % 128 == pending + 1,
        pending + 1 == 128 ==> all.push(d).len() % 128 == 0 && blocks_bits(
            t,
            all.take(all.len() - pending),
        ) + block_bits(t, waiting.update(pending, d).take(128)) == blocks_bits(t, all.push(d)),
{
    let all2 = all.push(d);
    let waiting2 = waiting.update(pending, d);
    let cut = all.len() - pending;
    assert(waiting2.take(pending + 1) =~= all2.skip(cut)) by {
        assert forall|k: int| 0 <= k < pending + 1 implies waiting2.take(pending + 1)[k]
            == all2.skip(cut)[k] by {
            if k < pending {
                assert(waiting.take(pending)[k] == all.skip(cut)[k]);
            }
        }
    }
    assert(all2.take(cut) =~= all.take(cut));
    if pending + 1 == 128 {
        let a = all2.take(cut);
        let b = all2.skip(cut);
        assert(a + b =~= all2);
        lemma_blocks_bits_concat(t, a, b);
        assert(b.len() == 128);
        assert(blocks_bits(t, b) == block_bits(t, b));
    }
}

/// What the last, partial block adds.
proof fn lemma_delta_finish(t: Type, all: Seq<i64>, pending: int)
    requires
        0 < pending < 128,
        pending == all.len() % 128,
    ensures
        blocks_bits(t, all.take(all.len() - pending)) + block_bits(
            t,
            all.skip(all.len() - pending),
        ) == blocks_bits(t, all),
{
    let cut = all.len() - pending;
    let a = all.take(cut);
    let b = all.skip(cut);
    assert(a + b =~= all);
    lemma_blocks_bits_concat(t, a, b);
    assert(blocks_bits(t, b) == block_bits(t, b));
}

impl<T: DataType> Encoder<T> for DeltaBitPackEncoder<T> {
    closed spec fn wf(&self) -> bool {
        &&& self.tracks()
        &&& self.total_values == self.ints@.len()
    }

    closed spec fn batch(&self) -> Seq<Seq<u8>> {
        self.batch@
    }

    /// The count of values of a page must fit in a `usize`.
    open spec fn accepts(&self, count: nat) -> bool {
        self.values().len() + count <= usize::MAX
    }

    open spec fn flushable(&self) -> bool {
        true
    }

    fn put(&mut self, values: &[T::T]) -> (r: Result<(), ParquetError>)
        ensures
            r is Ok,
            final(self).values() == old(self).values() + int_values::<T>(values@),
    {
        let t = T::get_physical_type();
        let n = values.len();
        proof {
            assert(raws::<T>(values@).take(0) =~= Seq::<Seq<u8>>::empty());
            assert(int_values::<T>(values@).take(0) =~= Seq::<i64>::empty());
            assert(self.batch@ + Seq::<Seq<u8>>::empty() =~= self.batch@);
            assert(self.ints@ + Seq::<i64>::empty() =~= self.ints@);
            assert(raws::<T>(values@).take(n as int) =~= raws::<T>(values@));
            assert(int_values::<T>(values@).take(n as int) =~= int_values::<T>(values@));
        }
        if n == 0 {
            return Ok(());
        }
        let mut idx: usize = 0;
        if self.total_values == 0 {
            self.first_value = T::as_i64(&values[0]);
            self.current_value = self.first_value;
            idx = 1;
            proof {
                let first = self.first_value;
                assert(self.ints@ =~= Seq::<i64>::empty());
                assert(self.ints@.push(first) =~= old(self).ints@ + int_values::<T>(values@).take(
                    1,
                ));
                assert(self.batch@.push(T::raw(&values@[0])) =~= old(self).batch@ + raws::<T>(
                    values@,
                ).take(1));
                self.ints = Ghost(self.ints@.push(first));
                self.batch = Ghost(self.batch@.push(T::raw(&values@[0])));
                let all = delta_seq(t, self.ints@);
                assert(all =~= Seq::<i64>::empty());
                assert(all.take(0) =~= delta_seq(t, old(self).ints@).take(0));
                assert(self.deltas@.take(0) =~= all.skip(0));
            }
        }
        self.total_values = self.total_values + n;
        while idx < n
            invariant
                idx <= n,
                n == values@.len(),
                n > 0,
                t == T::physical_type(),
                self.tracks(),
                self.total_values == old(self).ints@.len() + n,
                idx == 0 ==> self.ints@.len() > 0,
                self.ints@ == old(self).ints@ + int_values::<T>(values@).take(idx as int),
                self.batch@ == old(self).batch@ + raws::<T>(values@).take(idx as int),
            decreases n - idx,
        {
            let value = T::as_i64(&values[idx]);
            let delta = subtract(t, value, self.current_value);
            let ghost all = delta_seq(t, self.ints@);
            let ghost pending = self.values_in_block as int;
            let ghost waiting = self.deltas@;
            proof {
                lemma_delta_seq_push(t, self.ints@, value);
                lemma_delta_step(t, all, delta, waiting, pending);
            }
            self.deltas.set(self.values_in_block, delta);
            self.current_value = value;
            self.values_in_block = self.values_in_block + 1;
            proof {
                assert(self.ints@.push(value) =~= old(self).ints@ + int_values::<T>(values@).take(
                    idx + 1,
                ));
                assert(self.batch@.push(T::raw(&values@[idx as int])) =~= old(self).batch@ + raws::<
                    T,
                >(values@).take(idx + 1));
                self.ints = Ghost(self.ints@.push(value));
                self.batch = Ghost(self.batch@.push(T::raw(&values@[idx as int])));
                assert(forall|k: int|
                    0 <= k < pending + 1 ==> #[trigger] self.deltas@[k] == self.deltas@.take(
                        pending + 1,
                    )[k]);
            }
            idx = idx + 1;
            if self.values_in_block == BLOCK_SIZE {
                self.flush_block_values();
                proof {
                    let all2 = delta_seq(t, self.ints@);
                    assert(all2.take(all2.len() as int) =~= all2);
                    assert(self.deltas@.take(0) =~= all2.skip(all2.len() as int));
                }
            }
        }
        Ok(())
    }

    open spec fn encoding_id(&self) -> Encoding {
        Encoding::DELTA_BINARY_PACKED
    }

    fn encoding(&self) -> (e: Encoding) {
        Encoding::DELTA_BINARY_PACKED
    }

    fn flush_buffer(&mut self) -> (r: Result<Vec<u8>, ParquetError>)
        ensures
            r is Ok,
            r.unwrap()@ == delta_encode(T::physical_type(), old(self).values()),
            final(self).values() == Seq::<i64>::empty(),
    {
        let ghost t = T::physical_type();
        let ghost all = delta_seq(t, self.ints@);
        proof {
            if self.values_in_block > 0 {
                lemma_delta_finish(t, all, self.values_in_block as int);
            } else {
                assert(all.take(all.len() as int) =~= all);
            }
        }
        self.flush_block_values();
        assert(self.bit_writer@ == blocks_bits(t, all));
        self.write_page_header();
        let mut out = self.page_header_writer.flush_buffer();
        let body = self.bit_writer.flush_buffer();
        push_bytes(&mut out, body.as_slice());
        self.page_header_writer.clear();
        self.bit_writer.clear();
        self.total_values = 0;
        self.first_value = 0;
        self.current_value = 0;
        self.values_in_block = 0;
        proof {
            self.ints = Ghost(Seq::empty());
            self.batch = Ghost(Seq::empty());
            let none = delta_seq(t, self.ints@);
            assert(none =~= Seq::<i64>::empty());
            assert(none.take(0) =~= Seq::<i64>::empty());
            assert(self.deltas@.take(0) =~= none.skip(0));
        }
        Ok(out)
    }
}

} // verus!
