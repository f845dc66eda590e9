//! The writer of the run-length and bit-packed hybrid.
//!
//! Values are looked at eight at a time. Eight equal values in a row open
//! a repeated run, which then swallows every further equal value. Any
//! other group of eight joins a bit-packed run.

use vstd::prelude::*;
use crate::encodings::rle_choice::{
    exact, lemma_exact_buffer, lemma_exact_end, lemma_exact_group_joins,
    lemma_exact_group_repeats, lemma_exact_repeat_ends, lemma_exact_repeat_more,
    lemma_exact_start,
};
use crate::encodings::rle_format::{
    all_equal, closed, hybrid_bytes, hybrid_runs, lemma_packed_values_concat,
    lemma_packed_values_len, lemma_runs_bits_aligned, lemma_runs_push, packed_values,
    repeat_values, run_bits, runs_bits, runs_values, valid_runs, Run,
    MAX_GROUPS_PER_BIT_PACKED_RUN, MAX_REPEAT_COUNT,
};
use crate::util::bit_util::{ceil_div, BitWriter};
use crate::util::bits::{
    bytes_bits, le_bytes, lemma_bytes_bits_len, lemma_bytes_bits_one, lemma_bytes_bits_take,
    lemma_le_bytes_len, lemma_low_bits_len, lemma_pack_bits_concat, lemma_pack_bytes_bits,
    lemma_pack_pad, lemma_pad_aligned, lemma_patch_width, lemma_vlq_len_bound, low_bits,
    pack_bits, vlq_bytes, zero_bits,
};

verus! {

/// The most bytes of a variable-length number.
pub const MAX_VLQ_BYTE_LEN: usize = 10;

/// Writes one repeated run.
fn write_repeated_run(bit_writer: &mut BitWriter, count: usize, value: u64, bit_width: u8)
    requires
        old(bit_writer).wf(),
        old(bit_writer).aligned(),
        1 <= count <= MAX_REPEAT_COUNT,
        bit_width <= 64,
    ensures
        final(bit_writer).wf(),
        final(bit_writer).aligned(),
        final(bit_writer)@ == old(bit_writer)@ + run_bits(
            Run::Repeated { count: count as nat, value },
            bit_width as nat,
        ),
{
    proof {
        lemma_pad_aligned(bit_writer@);
    }
    bit_writer.put_vlq_int((2 * count) as u64);
    proof {
        lemma_pad_aligned(bit_writer@);
    }
    let num_bytes: usize = (bit_width as usize + 7) / 8;
    assert(num_bytes == ceil_div(bit_width as int, 8));
    bit_writer.put_aligned(value, num_bytes);
    assert(bit_writer@ =~= old(bit_writer)@ + run_bits(
        Run::Repeated { count: count as nat, value },
        bit_width as nat,
    ));
}

/// Writes the first `count` of `values`, each at `bit_width` bits.
fn write_packed_values(bit_writer: &mut BitWriter, values: &Vec<u64>, count: usize, bit_width: u8)
    requires
        old(bit_writer).wf(),
        count <= values@.len(),
        bit_width <= 64,
    ensures
        final(bit_writer).wf(),
        final(bit_writer)@ == old(bit_writer)@ + packed_values(
            values@.take(count as int),
            bit_width as nat,
        ),
{
    let mut i: usize = 0;
    assert(bit_writer@ =~= old(bit_writer)@ + packed_values(values@.take(0), bit_width as nat));
    while i < count
        invariant
            i <= count <= values@.len(),
            bit_width <= 64,
            bit_writer.wf(),
            bit_writer@ == old(bit_writer)@ + packed_values(
                values@.take(i as int),
                bit_width as nat,
            ),
        decreases count - i,
    {
        bit_writer.put_value(values[i], bit_width as usize);
        proof {
            assert(values@.take(i + 1).drop_last() =~= values@.take(i as int));
            assert(bit_writer@ =~= old(bit_writer)@ + packed_values(
                values@.take(i + 1),
                bit_width as nat,
            ));
        }
        i = i + 1;
    }
}

/// The writer of a hybrid stream of values of one bit width.
///
/// The bytes go to a sink of a fixed capacity. The writer takes a value
/// only if the sink has room for the most bytes that the values can take
/// with it; so what it writes always fits the sink.
pub struct RleEncoder {
    bit_width: u8,
    bit_writer: BitWriter,
    capacity: usize,
    start: usize,
    prefix_len: usize,
    num_values: u128,
    buffered_values: Vec<u64>,
    num_buffered_values: usize,
    current_value: u64,
    repeat_count: usize,
    bit_packed_count: usize,
    indicator_byte_pos: Option<usize>,
    prefix: Ghost<Seq<u8>>,
    runs: Ghost<Seq<Run>>,
    open: Ghost<Seq<u64>>,
    values: Ghost<Seq<u64>>,
    written_groups: Ghost<nat>,
}

/// The bytes of the longest single run at `bit_width`: a bit-packed run
/// of 64 groups behind its header byte, or a repeated run behind a header
/// of ten bytes.
pub open spec fn min_buffer_size_spec(bit_width: nat) -> nat {
    let packed = 1 + 64 * bit_width;
    let repeated = 10 + ceil_div(bit_width as int, 8);
    if packed > repeated {
        packed
    } else {
        repeated as nat
    }
}

/// The most bytes that `num_values` values take at `bit_width`, however
/// they fall into runs.
pub open spec fn max_buffer_size_spec(bit_width: nat, num_values: nat) -> nat {
    let groups = ceil_div(num_values as int, 8);
    let packed = groups + groups * bit_width;
    let repeated = groups * (1 + ceil_div(bit_width as int, 8));
    if packed > repeated {
        packed as nat
    } else {
        repeated as nat
    }
}

impl RleEncoder {
    /// The bit width of the values.
    pub closed spec fn width(&self) -> nat {
        self.bit_width as nat
    }

    /// The bytes in front of the stream.
    pub closed spec fn prefix(&self) -> Seq<u8> {
        self.prefix@
    }

    /// The values that the stream stands for so far.
    pub closed spec fn values(&self) -> Seq<u64> {
        self.values@
    }

    /// The number of bytes in front of the stream that a `clear` keeps.
    pub closed spec fn start_len(&self) -> nat {
        self.start as nat
    }

    /// The nominal capacity of the sink, in bytes.
    pub closed spec fn capacity(&self) -> nat {
        self.capacity as nat
    }

    /// Whether the writer takes no further value: whether the sink is too
    /// small for the bytes in front and the most bytes that the values
    /// and one more can take.
    pub open spec fn is_full(&self) -> bool {
        self.prefix().len() + max_buffer_size_spec(self.width(), self.values().len() + 1)
            > self.capacity()
    }

    /// The bits written for the runs that are complete.
    spec fn done_bits(&self) -> Seq<bool> {
        bytes_bits(self.prefix@) + runs_bits(self.runs@, self.bit_width as nat)
    }

    /// The representation invariant.
    pub closed spec fn wf(&self) -> bool {
        self.consistent() && self.exact_state() && self.bounded()
    }

    /// The part of the invariant that says which runs have been chosen:
    /// with what is still to come, they are the runs of all values,
    /// whatever values follow.
    spec fn exact_state(&self) -> bool {
        exact(
            self.values@,
            self.runs@,
            self.repeat_count >= 8,
            self.repeat_count as nat,
            self.current_value,
            self.buffered_values@.take(self.num_buffered_values as int),
            self.open@,
        )
    }

    /// The part of the invariant that bounds the bytes written: every
    /// eight values cost at most one byte more than the bit width.
    spec fn bounded(&self) -> bool {
        let w = self.bit_width as nat;
        &&& self.bit_writer@.len() <= 8 * (self.prefix@.len() + (1 + w) * self.written_groups@)
        &&& 8 * self.written_groups@ <= runs_values(self.runs@).len() + self.open@.len()
        &&& self.prefix@.len() + max_buffer_size_spec(w, self.values@.len()) <= self.capacity
        &&& self.num_values == self.values@.len()
        &&& self.prefix_len == self.prefix@.len()
    }

    /// The part of the invariant that says what the fields stand for.
    spec fn consistent(&self) -> bool {
        let w = self.bit_width as nat;
        let buffered = self.buffered_values@.take(self.num_buffered_values as int);
        &&& self.bit_width <= 64
        &&& self.bit_writer.wf()
        &&& self.bit_writer.aligned()
        &&& self.start <= self.prefix@.len()
        &&& self.buffered_values@.len() == 8
        &&& self.num_buffered_values < 8
        &&& self.repeat_count <= MAX_REPEAT_COUNT
        &&& self.bit_packed_count == self.open@.len()
        &&& self.bit_packed_count % 8 == 0
        &&& self.bit_packed_count / 8 < 63
        &&& (self.bit_packed_count > 0 <==> self.indicator_byte_pos is Some)
        &&& valid_runs(self.runs@)
        &&& (self.bit_packed_count == 0 ==> self.bit_writer@ == self.done_bits())
        &&& (self.bit_packed_count > 0 ==> self.bit_writer@ == self.done_bits() + zero_bits(8)
            + packed_values(self.open@, w) && 8 * self.indicator_byte_pos->0
            == self.done_bits().len())
        &&& (self.repeat_count >= 8 ==> self.num_buffered_values == 0 && self.bit_packed_count == 0
            && self.values@ == runs_values(self.runs@) + repeat_values(
            self.current_value,
            self.repeat_count as nat,
        ))
        &&& (self.repeat_count < 8 ==> self.repeat_count <= self.num_buffered_values
            && self.values@ == runs_values(self.runs@) + self.open@ + buffered && forall|k: int|
            self.num_buffered_values - self.repeat_count <= k < self.num_buffered_values
                ==> #[trigger] self.buffered_values@[k] == self.current_value)
        &&& (self.num_buffered_values > 0 ==> self.repeat_count >= 1)
        &&& (self.repeat_count < self.num_buffered_values ==> self.buffered_values@[
            self.num_buffered_values - self.repeat_count - 1] != self.current_value)
    }

    /// The bytes of the longest single run at `bit_width`.
    pub fn min_buffer_size(bit_width: u8) -> (n: usize)
        requires
            bit_width <= 64,
        ensures
            n == min_buffer_size_spec(bit_width as nat),
    {
        let max_bit_packed_run_size: usize = 1 + 64 * (bit_width as usize);
        let max_rle_run_size: usize = MAX_VLQ_BYTE_LEN + (bit_width as usize + 7) / 8;
        if max_bit_packed_run_size > max_rle_run_size {
            max_bit_packed_run_size
        } else {
            max_rle_run_size
        }
    }

    /// The most bytes that `num_values` values take at `bit_width`.
    pub fn max_buffer_size(bit_width: u8, num_values: usize) -> (n: usize)
        requires
            bit_width <= 64,
            max_buffer_size_spec(bit_width as nat, num_values as nat) <= usize::MAX,
        ensures
            n == max_buffer_size_spec(bit_width as nat, num_values as nat),
    {
        let num_runs: usize = if num_values % 8 == 0 {
            num_values / 8
        } else {
            num_values / 8 + 1
        };
        let ghost w = bit_width as nat;
        let ghost g = num_runs as nat;
        proof {
            let c = ceil_div(w as int, 8);
            assert(0 <= c <= w);
            assert(g * (1 + c) <= g + g * w) by (nonlinear_arith)
                requires
                    0 <= c <= w,
            ;
            assert(g * (1 + c) >= 0) by (nonlinear_arith)
                requires
                    0 <= c,
            ;
            assert(g * w >= 0) by (nonlinear_arith);
        }
        let bit_packed_max_size: usize = num_runs + num_runs * (bit_width as usize);
        let min_rle_run_size: usize = 1 + (bit_width as usize + 7) / 8;
        let rle_max_size: usize = num_runs * min_rle_run_size;
        if bit_packed_max_size > rle_max_size {
            bit_packed_max_size
        } else {
            rle_max_size
        }
    }

    /// A writer over `buffer`, whose stream starts after the first `start`
    /// bytes of it; the length of `buffer` is the capacity of the sink.
    pub fn new_from_buf(bit_width: u8, buffer: Vec<u8>, start: usize) -> (e: RleEncoder)
        requires
            bit_width <= 64,
            start <= buffer@.len(),
        ensures
            e.wf(),
            e.width() == bit_width,
            e.capacity() == buffer@.len(),
            e.prefix() == buffer@.take(start as int),
            e.start_len() == start,
            e.values() == Seq::<u64>::empty(),
    {
        let capacity = buffer.len();
        let bit_writer = BitWriter::new_from_buf(buffer, start);
        let mut buffered_values: Vec<u64> = Vec::with_capacity(8);
        let mut i: usize = 0;
        while i < 8
            invariant
                i <= 8,
                buffered_values@.len() == i,
            decreases 8 - i,
        {
            buffered_values.push(0);
            i = i + 1;
        }
        let e = RleEncoder {
            bit_width,
            bit_writer,
            capacity,
            start,
            prefix_len: start,
            num_values: 0,
            buffered_values,
            num_buffered_values: 0,
            current_value: 0,
            repeat_count: 0,
            bit_packed_count: 0,
            indicator_byte_pos: None,
            prefix: Ghost(buffer@.take(start as int)),
            runs: Ghost(Seq::empty()),
            open: Ghost(Seq::empty()),
            values: Ghost(Seq::empty()),
            written_groups: Ghost(0),
        };
        proof {
            lemma_bytes_bits_len(e.prefix@);
            assert(e.done_bits() =~= bytes_bits(e.prefix@));
            assert(e.values@ =~= runs_values(e.runs@) + e.open@ + e.buffered_values@.take(0));
            lemma_exact_start(0, 0);
            assert(e.buffered_values@.take(0) =~= Seq::<u64>::empty());
            lemma_max_buffer_size_of_none(bit_width as nat);
        }
        e
    }

    /// A writer into a new sink of `buffer_len` bytes.
    pub fn new(bit_width: u8, buffer_len: usize) -> (e: RleEncoder)
        requires
            bit_width <= 64,
        ensures
            e.wf(),
            e.width() == bit_width,
            e.capacity() == buffer_len,
            e.prefix() == Seq::<u8>::empty(),
            e.start_len() == 0,
            e.values() == Seq::<u64>::empty(),
    {
        let mut buffer: Vec<u8> = Vec::with_capacity(buffer_len);
        let mut i: usize = 0;
        while i < buffer_len
            invariant
                i <= buffer_len,
                buffer@.len() == i,
            decreases buffer_len - i,
        {
            buffer.push(0);
            i = i + 1;
        }
        let e = RleEncoder::new_from_buf(bit_width, buffer, 0);
        assert(e.prefix() =~= Seq::<u8>::empty());
        e
    }
}

impl RleEncoder {
    /// Whether the sink has room for one more value.
    fn has_room(&self) -> (r: bool)
        requires
            self.bit_width <= 64,
            self.num_values == self.values@.len(),
            self.prefix_len == self.prefix@.len(),
            self.prefix@.len() + max_buffer_size_spec(self.bit_width as nat, self.values@.len())
                <= self.capacity,
        ensures
            r == !self.is_full(),
    {
        proof {
            lemma_max_buffer_size(self.bit_width as nat, self.values@.len());
            lemma_max_buffer_size(self.bit_width as nat, self.values@.len() + 1);
            let groups = ceil_div(self.values@.len() as int, 8);
            assert((1 + self.bit_width) * groups >= groups) by (nonlinear_arith)
                requires
                    groups >= 0,
            ;
        }
        let groups: u128 = (self.num_values + 8) / 8;
        assert(groups == ceil_div((self.values@.len() + 1) as int, 8));
        let width: u128 = 1 + self.bit_width as u128;
        assert(groups * width <= 0x1_0000_0000_0000_0000 * 65) by (nonlinear_arith)
            requires
                0 <= groups <= 0x1_0000_0000_0000_0000,
                0 <= width <= 65,
        ;
        assert(width * groups == groups * width) by (nonlinear_arith);
        let most: u128 = self.prefix_len as u128 + groups * width;
        most <= self.capacity as u128
    }

    /// Ends the bit-packed run that is open: fills in its header byte.
    fn close_packed_run(&mut self)
        requires
            old(self).bit_width <= 64,
            old(self).bit_writer.wf(),
            old(self).bit_writer.aligned(),
            valid_runs(old(self).runs@),
            old(self).indicator_byte_pos is Some,
            old(self).bit_packed_count == old(self).open@.len(),
            old(self).bit_packed_count % 8 == 0,
            1 <= old(self).bit_packed_count / 8 <= 63,
            old(self).bit_writer@ == old(self).done_bits() + zero_bits(8) + packed_values(
                old(self).open@,
                old(self).bit_width as nat,
            ),
            8 * old(self).indicator_byte_pos->0 == old(self).done_bits().len(),
        ensures
            final(self).bit_writer.wf(),
            final(self).bit_writer.aligned(),
            final(self).bit_writer@ == final(self).done_bits(),
            valid_runs(final(self).runs@),
            final(self).runs@ == old(self).runs@.push(Run::Packed { values: old(self).open@ }),
            runs_values(final(self).runs@) == runs_values(old(self).runs@) + old(self).open@,
            final(self).open@ == Seq::<u64>::empty(),
            final(self).bit_packed_count == 0,
            final(self).indicator_byte_pos is None,
            final(self).bit_width == old(self).bit_width,
            final(self).capacity == old(self).capacity,
            final(self).start == old(self).start,
            final(self).prefix_len == old(self).prefix_len,
            final(self).num_values == old(self).num_values,
            final(self).buffered_values == old(self).buffered_values,
            final(self).num_buffered_values == old(self).num_buffered_values,
            final(self).current_value == old(self).current_value,
            final(self).repeat_count == old(self).repeat_count,
            final(self).prefix == old(self).prefix,
            final(self).values == old(self).values,
            final(self).written_groups == old(self).written_groups,
            final(self).bit_writer@.len() == old(self).bit_writer@.len(),
    {
        let num_groups = self.bit_packed_count / 8;
        let indicator_byte = (2 * num_groups + 1) as u8;
        let pos = match self.indicator_byte_pos {
            Some(p) => p,
            None => 0,
        };
        let ghost w = self.bit_width as nat;
        let ghost before = self.bit_writer@;
        let ghost done = self.done_bits();
        let ghost packed = packed_values(self.open@, w);
        let ghost run = Run::Packed { values: self.open@ };
        proof {
            lemma_low_bits_len(indicator_byte as nat, 8);
            lemma_patch_width(before, done, 1, packed, low_bits(indicator_byte as nat, 8));
            lemma_bytes_bits_one(indicator_byte);
            lemma_runs_push(self.runs@, run, w);
        }
        self.bit_writer.put_byte_at(pos, indicator_byte);
        proof {
            assert(zero_bits(0) =~= Seq::<bool>::empty());
            assert(self.bit_writer@ =~= done + run_bits(run, w));
            self.runs = Ghost(self.runs@.push(run));
            self.open = Ghost(Seq::empty());
            assert(self.done_bits() =~= done + run_bits(run, w));
        }
        self.indicator_byte_pos = None;
        self.bit_packed_count = 0;
    }

    /// Adds the eight buffered values to the bit-packed run that is open,
    /// opening one if there is none.
    fn write_buffered_group(&mut self)
        requires
            old(self).bit_width <= 64,
            old(self).bit_writer.wf(),
            old(self).bit_writer.aligned(),
            valid_runs(old(self).runs@),
            old(self).buffered_values@.len() == 8,
            old(self).bit_packed_count == old(self).open@.len(),
            old(self).bit_packed_count % 8 == 0,
            old(self).bit_packed_count / 8 < 63,
            old(self).bit_packed_count > 0 <==> old(self).indicator_byte_pos is Some,
            old(self).bit_packed_count == 0 ==> old(self).bit_writer@ == old(self).done_bits(),
            old(self).bit_packed_count > 0 ==> old(self).bit_writer@ == old(self).done_bits()
                + zero_bits(8) + packed_values(old(self).open@, old(self).bit_width as nat) && 8
                * old(self).indicator_byte_pos->0 == old(self).done_bits().len(),
        ensures
            final(self).bit_writer.wf(),
            final(self).bit_writer.aligned(),
            final(self).open@ == old(self).open@ + old(self).buffered_values@,
            final(self).bit_packed_count == old(self).bit_packed_count + 8,
            final(self).indicator_byte_pos is Some,
            final(self).bit_writer@ == final(self).done_bits() + zero_bits(8) + packed_values(
                final(self).open@,
                final(self).bit_width as nat,
            ),
            8 * final(self).indicator_byte_pos->0 == final(self).done_bits().len(),
            final(self).runs == old(self).runs,
            final(self).bit_width == old(self).bit_width,
            final(self).capacity == old(self).capacity,
            final(self).start == old(self).start,
            final(self).prefix_len == old(self).prefix_len,
            final(self).num_values == old(self).num_values,
            final(self).buffered_values == old(self).buffered_values,
            final(self).num_buffered_values == old(self).num_buffered_values,
            final(self).current_value == old(self).current_value,
            final(self).repeat_count == old(self).repeat_count,
            final(self).prefix == old(self).prefix,
            final(self).values == old(self).values,
            final(self).written_groups == old(self).written_groups,
            final(self).bit_writer@.len() <= old(self).bit_writer@.len() + 8 * (1 + old(self).bit_width),
    {
        let ghost w = self.bit_width as nat;
        let ghost done = self.done_bits();
        if self.indicator_byte_pos.is_none() {
            proof {
                lemma_pad_aligned(self.bit_writer@);
                assert(self.open@ =~= Seq::<u64>::empty());
            }
            let pos = self.bit_writer.get_next_byte_ptr(1);
            self.indicator_byte_pos = Some(pos);
            assert(self.bit_writer@ =~= done + zero_bits(8) + packed_values(self.open@, w));
        }
        let ghost before = self.bit_writer@;
        write_packed_values(&mut self.bit_writer, &self.buffered_values, 8, self.bit_width);
        proof {
            let group = self.buffered_values@;
            assert(group.take(8) =~= group);
            lemma_packed_values_concat(self.open@, group, w);
            lemma_packed_values_len(group, w);
            assert(self.bit_writer@ =~= done + zero_bits(8) + packed_values(self.open@ + group, w));
            self.open = Ghost(self.open@ + group);
        }
        self.bit_packed_count = self.bit_packed_count + 8;
    }
}

impl RleEncoder {
    /// Ends the repeated run that is under way.
    fn flush_rle_run(&mut self)
        requires
            old(self).bit_width <= 64,
            old(self).bit_writer.wf(),
            old(self).bit_writer.aligned(),
            valid_runs(old(self).runs@),
            1 <= old(self).repeat_count <= MAX_REPEAT_COUNT,
            old(self).bit_writer@ == old(self).done_bits(),
        ensures
            final(self).bit_writer.wf(),
            final(self).bit_writer.aligned(),
            final(self).bit_writer@ == final(self).done_bits(),
            valid_runs(final(self).runs@),
            runs_values(final(self).runs@) == runs_values(old(self).runs@) + repeat_values(
                old(self).current_value,
                old(self).repeat_count as nat,
            ),
            final(self).runs@ == old(self).runs@.push(
                Run::Repeated {
                    count: old(self).repeat_count as nat,
                    value: old(self).current_value,
                },
            ),
            final(self).num_buffered_values == 0,
            final(self).repeat_count == 0,
            final(self).open == old(self).open,
            final(self).bit_packed_count == old(self).bit_packed_count,
            final(self).indicator_byte_pos == old(self).indicator_byte_pos,
            final(self).bit_width == old(self).bit_width,
            final(self).capacity == old(self).capacity,
            final(self).start == old(self).start,
            final(self).prefix_len == old(self).prefix_len,
            final(self).num_values == old(self).num_values,
            final(self).buffered_values == old(self).buffered_values,
            final(self).current_value == old(self).current_value,
            final(self).prefix == old(self).prefix,
            final(self).values == old(self).values,
            final(self).written_groups == old(self).written_groups,
            final(self).bit_writer@.len() == old(self).bit_writer@.len() + 8 * (vlq_bytes(
                2 * old(self).repeat_count as nat,
            ).len() + ceil_div(old(self).bit_width as int, 8)),
    {
        let ghost w = self.bit_width as nat;
        let ghost done = self.done_bits();
        let ghost run = Run::Repeated { count: self.repeat_count as nat, value: self.current_value };
        write_repeated_run(
            &mut self.bit_writer,
            self.repeat_count,
            self.current_value,
            self.bit_width,
        );
        proof {
            lemma_runs_push(self.runs@, run, w);
            self.runs = Ghost(self.runs@.push(run));
            assert(self.done_bits() =~= done + run_bits(run, w));
            lemma_bytes_bits_len(vlq_bytes(2 * self.repeat_count as nat));
            lemma_bytes_bits_len(le_bytes(self.current_value as nat, ceil_div(w as int, 8) as nat));
            lemma_le_bytes_len(self.current_value as nat, ceil_div(w as int, 8) as nat);
        }
        self.num_buffered_values = 0;
        self.repeat_count = 0;
    }

    /// Takes one more value into the stream, unless the writer is full.
    /// Returns whether the value was taken.
    #[verifier::rlimit(40)]
    pub fn put(&mut self, value: u64) -> (taken: bool)
        requires
            old(self).wf(),
        ensures
            final(self).wf(),
            taken == !old(self).is_full(),
            taken ==> final(self).values() == old(self).values().push(value),
            !taken ==> final(self).values() == old(self).values(),
            final(self).width() == old(self).width(),
            final(self).capacity() == old(self).capacity(),
            final(self).prefix() == old(self).prefix(),
            final(self).start_len() == old(self).start_len(),
    {
        if !self.has_room() {
            return false;
        }
        self.num_values = self.num_values + 1;
        let ghost mut ended = false;
        let ghost entry_count = self.repeat_count as nat;
        let ghost entry_value = self.current_value;
        if self.current_value == value && self.repeat_count < MAX_REPEAT_COUNT {
            self.repeat_count = self.repeat_count + 1;
            if self.repeat_count > 8 {
                proof {
                    assert(repeat_values(value, self.repeat_count as nat) =~= repeat_values(
                        value,
                        (self.repeat_count - 1) as nat,
                    ).push(value));
                    assert(self.values@.push(value) =~= runs_values(self.runs@) + repeat_values(
                        value,
                        self.repeat_count as nat,
                    ));
                    assert(self.buffered_values@.take(0) =~= Seq::<u64>::empty());
                    assert(self.open@ =~= Seq::<u64>::empty());
                    lemma_exact_repeat_more(
                        self.values@,
                        self.runs@,
                        (self.repeat_count - 1) as nat,
                        value,
                    );
                    self.values = Ghost(self.values@.push(value));
                }
                return true;
            }
        } else {
            if self.repeat_count >= 8 {
                let ghost count = self.repeat_count as nat;
                proof {
                    assert(self.buffered_values@.take(0) =~= Seq::<u64>::empty());
                    assert(self.open@ =~= Seq::<u64>::empty());
                    lemma_exact_repeat_ends(
                        self.values@,
                        self.runs@,
                        count,
                        self.current_value,
                        value,
                    );
                    ended = true;
                }
                self.flush_rle_run();
                proof {
                    assert(self.values@ =~= runs_values(self.runs@) + self.open@
                        + self.buffered_values@.take(0));
                    lemma_repeated_run_cost(count, self.bit_width as nat);
                    let groups = self.written_groups@;
                    let w = self.bit_width as nat;
                    assert((1 + w) * (groups + count / 8) == (1 + w) * groups + (1 + w) * (count
                        / 8)) by (nonlinear_arith);
                    self.written_groups = Ghost(groups + count / 8);
                }
            }
            self.repeat_count = 1;
            self.current_value = value;
        }
        let ghost before = self.buffered_values@;
        let ghost count = self.num_buffered_values as int;
        self.buffered_values.set(self.num_buffered_values, value);
        self.num_buffered_values = self.num_buffered_values + 1;
        proof {
            assert(self.buffered_values@.take(count + 1) =~= before.take(count).push(value));
            assert(self.values@.push(value) =~= runs_values(self.runs@) + self.open@
                + self.buffered_values@.take(count + 1));
            if ended {
                assert(before.take(0).push(value) =~= seq![value]);
            } else {
                lemma_exact_buffer(
                    self.values@,
                    self.runs@,
                    entry_count,
                    entry_value,
                    before.take(count),
                    self.open@,
                    value,
                    self.repeat_count as nat,
                );
            }
            self.values = Ghost(self.values@.push(value));
        }
        if self.num_buffered_values == 8 {
            assert(self.buffered_values@.take(8) =~= self.buffered_values@);
            self.flush_buffered_values();
        }
        true
    }

    /// Decides what becomes of the eight values that are buffered: the
    /// start of a repeated run, or one more group of a bit-packed run.
    fn flush_buffered_values(&mut self)
        requires
            old(self).bit_width <= 64,
            old(self).bit_writer.wf(),
            old(self).bit_writer.aligned(),
            old(self).start <= old(self).prefix@.len(),
            valid_runs(old(self).runs@),
            old(self).buffered_values@.len() == 8,
            old(self).num_buffered_values == 8,
            1 <= old(self).repeat_count <= 8,
            old(self).bit_packed_count == old(self).open@.len(),
            old(self).bit_packed_count % 8 == 0,
            old(self).bit_packed_count / 8 < 63,
            old(self).bit_packed_count > 0 <==> old(self).indicator_byte_pos is Some,
            old(self).bit_packed_count == 0 ==> old(self).bit_writer@ == old(self).done_bits(),
            old(self).bit_packed_count > 0 ==> old(self).bit_writer@ == old(self).done_bits()
                + zero_bits(8) + packed_values(old(self).open@, old(self).bit_width as nat) && 8
                * old(self).indicator_byte_pos->0 == old(self).done_bits().len(),
            old(self).values@ == runs_values(old(self).runs@) + old(self).open@ + old(
                self).buffered_values@,
            forall|k: int|
                8 - old(self).repeat_count <= k < 8 ==> #[trigger] old(self).buffered_values@[k]
                    == old(self).current_value,
            old(self).bounded(),
            old(self).repeat_count < 8 ==> old(self).buffered_values@[7 - old(self).repeat_count]
                != old(self).current_value,
            exact(
                old(self).values@,
                old(self).runs@,
                false,
                old(self).repeat_count as nat,
                old(self).current_value,
                old(self).buffered_values@,
                old(self).open@,
            ),
        ensures
            final(self).wf(),
            final(self).values == old(self).values,
            final(self).bit_width == old(self).bit_width,
            final(self).capacity == old(self).capacity,
            final(self).prefix == old(self).prefix,
            final(self).start == old(self).start,
    {
        if self.repeat_count >= 8 {
            self.num_buffered_values = 0;
            proof {
                assert(self.buffered_values@ =~= repeat_values(self.current_value, 8));
                assert(all_equal(self.buffered_values@));
                lemma_exact_group_repeats(
                    self.values@,
                    self.runs@,
                    self.repeat_count as nat,
                    self.current_value,
                    self.buffered_values@,
                    self.open@,
                );
                assert(self.buffered_values@.take(0) =~= Seq::<u64>::empty());
                if self.bit_packed_count > 0 {
                    assert(self.runs@ + closed(self.open@) =~= self.runs@.push(
                        Run::Packed { values: self.open@ },
                    ));
                } else {
                    assert(self.runs@ + closed(self.open@) =~= self.runs@);
                }
            }
            if self.bit_packed_count > 0 {
                self.close_packed_run();
            } else {
                proof {
                    assert(self.open@ =~= Seq::<u64>::empty());
                    assert(self.values@ =~= runs_values(self.runs@) + repeat_values(
                        self.current_value,
                        8,
                    ));
                }
            }
            return ;
        }
        proof {
            assert(!all_equal(self.buffered_values@)) by {
                if all_equal(self.buffered_values@) {
                    assert(self.buffered_values@[7 - self.repeat_count] == self.buffered_values@[0]);
                    assert(self.buffered_values@[7] == self.buffered_values@[0]);
                }
            }
            lemma_exact_group_joins(
                self.values@,
                self.runs@,
                self.repeat_count as nat,
                self.current_value,
                self.buffered_values@,
                self.open@,
            );
            assert(self.buffered_values@.take(0) =~= Seq::<u64>::empty());
        }
        self.write_buffered_group();
        self.num_buffered_values = 0;
        self.repeat_count = 0;
        proof {
            let groups = self.written_groups@;
            let w = self.bit_width as nat;
            assert((1 + w) * (groups + 1) == (1 + w) * groups + (1 + w)) by (nonlinear_arith);
            self.written_groups = Ghost(groups + 1);
            assert(self.values@ =~= runs_values(self.runs@) + self.open@);
            assert(self.values@ =~= runs_values(self.runs@) + self.open@
                + self.buffered_values@.take(0));
        }
        if self.bit_packed_count / 8 >= MAX_GROUPS_PER_BIT_PACKED_RUN {
            self.close_packed_run();
            assert(self.values@ =~= runs_values(self.runs@) + self.open@
                + self.buffered_values@.take(0));
        }
    }
}

impl RleEncoder {
    /// Ends whatever run is under way, filling a last group with zeros.
    #[verifier::rlimit(40)]
    fn flush(&mut self)
        requires
            old(self).wf(),
        ensures
            final(self).consistent(),
            final(self).num_buffered_values == 0,
            final(self).repeat_count == 0,
            final(self).bit_packed_count == 0,
            final(self).values@ == runs_values(final(self).runs@),
            final(self).runs@ == hybrid_runs(old(self).values@, Seq::empty()),
            final(self).bit_width == old(self).bit_width,
            final(self).capacity == old(self).capacity,
            final(self).start == old(self).start,
            final(self).prefix == old(self).prefix,
            final(self).prefix_len == old(self).prefix_len,
            final(self).bit_writer@.len() <= 8 * (old(self).prefix@.len() + max_buffer_size_spec(
                old(self).bit_width as nat,
                old(self).values@.len(),
            )),
    {
        let ghost mut padding: nat = 0;
        let ghost mut extra: nat = 0;
        let ghost w = self.bit_width as nat;
        let ghost bits_before = self.bit_writer@.len();
        let ghost none = Seq::<u64>::empty();
        let ghost held = self.buffered_values@.take(self.num_buffered_values as int);
        let ghost coming = crate::encodings::rle_choice::continuation(
            self.repeat_count >= 8,
            self.repeat_count as nat,
            self.current_value,
            held,
            self.open@,
            none,
        );
        proof {
            assert(self.values@ + repeat_values(0, 0) =~= self.values@);
            lemma_exact_end(
                self.values@,
                self.runs@,
                self.repeat_count >= 8,
                self.repeat_count as nat,
                self.current_value,
                held,
                self.open@,
            );
            assert(held + none =~= held);
            assert(none.skip(0) =~= none);
        }
        if self.bit_packed_count > 0 || self.repeat_count > 0 || self.num_buffered_values > 0 {
            let all_repeat = self.bit_packed_count == 0 && (self.repeat_count
                == self.num_buffered_values || self.num_buffered_values == 0);
            if self.repeat_count > 0 && all_repeat {
                proof {
                    let run = Run::Repeated {
                        count: self.repeat_count as nat,
                        value: self.current_value,
                    };
                    if self.repeat_count < 8 {
                        assert(all_equal(held));
                        assert(held[0] == self.current_value);
                        assert(coming == seq![run]);
                    } else {
                        assert(coming =~= seq![run]);
                    }
                    assert(self.runs@ + seq![run] =~= self.runs@.push(run));
                    if self.repeat_count >= 8 {
                        extra = (self.repeat_count / 8) as nat;
                        lemma_repeated_run_cost(self.repeat_count as nat, w);
                    } else {
                        extra = 1;
                        assert(vlq_bytes(2 * self.repeat_count as nat).len() == 1);
                        assert((1 + w) * 1 == 1 + w) by (nonlinear_arith);
                    }
                    if self.repeat_count < 8 {
                        assert(self.open@ =~= Seq::<u64>::empty());
                        assert(self.buffered_values@.take(self.num_buffered_values as int)
                            =~= repeat_values(self.current_value, self.repeat_count as nat));
                        assert(self.values@ =~= runs_values(self.runs@) + repeat_values(
                            self.current_value,
                            self.repeat_count as nat,
                        ));
                    }
                }
                self.flush_rle_run();
            } else {
                if self.num_buffered_values > 0 {
                    let ghost kept = self.buffered_values@.take(self.num_buffered_values as int);
                    let ghost count = self.num_buffered_values as nat;
                    assert(kept + repeat_values(0, 0) =~= kept);
                    while self.num_buffered_values < 8
                        invariant
                            count <= self.num_buffered_values <= 8,
                            self.buffered_values@.len() == 8,
                            self.buffered_values@.take(self.num_buffered_values as int) == kept
                                + repeat_values(0, (self.num_buffered_values - count) as nat),
                            self.bit_width == old(self).bit_width,
                            self.bit_writer == old(self).bit_writer,
                            self.capacity == old(self).capacity,
                            self.start == old(self).start,
                            self.prefix_len == old(self).prefix_len,
                            self.num_values == old(self).num_values,
                            self.current_value == old(self).current_value,
                            self.repeat_count == old(self).repeat_count,
                            self.bit_packed_count == old(self).bit_packed_count,
                            self.indicator_byte_pos == old(self).indicator_byte_pos,
                            self.prefix == old(self).prefix,
                            self.runs == old(self).runs,
                            self.open == old(self).open,
                            self.values == old(self).values,
                            self.written_groups == old(self).written_groups,
                        decreases 8 - self.num_buffered_values,
                    {
                        let ghost before = self.buffered_values@;
                        let ghost at = self.num_buffered_values as int;
                        self.buffered_values.set(self.num_buffered_values, 0);
                        self.num_buffered_values = self.num_buffered_values + 1;
                        assert(self.buffered_values@.take(at + 1) =~= before.take(at).push(0));
                        assert(self.buffered_values@.take(at + 1) =~= kept + repeat_values(
                            0,
                            (at + 1 - count) as nat,
                        ));
                    }
                    proof {
                        padding = (8 - count) as nat;
                        extra = 1;
                        assert((1 + w) * 1 == 1 + w) by (nonlinear_arith);
                        assert(self.buffered_values@.take(8) =~= self.buffered_values@);
                    }
                    self.write_buffered_group();
                    self.num_buffered_values = 0;
                }
                proof {
                    assert(old(self).values@ + repeat_values(0, padding) =~= runs_values(self.runs@)
                        + self.open@);
                    let run = Run::Packed { values: self.open@ };
                    if held.len() > 0 {
                        assert(!(old(self).open@.len() == 0 && all_equal(held))) by {
                            if old(self).open@.len() == 0 && all_equal(held) {
                                let at = old(self).num_buffered_values - old(self).repeat_count - 1;
                                assert(held[at] == held[0]);
                                assert(held[held.len() - 1] == held[0]);
                            }
                        }
                        assert(self.open@ =~= old(self).open@ + held + repeat_values(
                            0,
                            (8 - held.len()) as nat,
                        ));
                    }
                    assert(coming == seq![run]);
                    assert(self.runs@ + seq![run] =~= self.runs@.push(run));
                }
                self.close_packed_run();
                self.repeat_count = 0;
            }
        }
        proof {
            let count = old(self).values@.len();
            let settled = runs_values(old(self).runs@).len() + old(self).open@.len();
            if old(self).repeat_count >= 8 {
                assert(count == settled + old(self).repeat_count);
            } else {
                assert(count == settled + old(self).num_buffered_values);
            }
            assert(self.bit_writer@.len() <= bits_before + 8 * ((1 + w) * extra)) by {
                assert((1 + w) * 0 == 0) by (nonlinear_arith);
            }
            lemma_within_bound(
                self.prefix@.len(),
                w,
                old(self).written_groups@,
                extra,
                count,
                bits_before,
                self.bit_writer@.len(),
            );
            self.values = Ghost(old(self).values@ + repeat_values(0, padding));
            assert(self.values@ =~= runs_values(self.runs@) + self.open@
                + self.buffered_values@.take(0));
            assert(self.values@ =~= runs_values(self.runs@));
            if old(self).bit_packed_count == 0 && old(self).repeat_count == 0 && old(
                self).num_buffered_values == 0 {
                assert(coming =~= Seq::<Run>::empty());
                assert(self.runs@ + coming =~= self.runs@);
            }
        }
    }

    /// What a flush hands out, given the invariant after `flush`.
    proof fn lemma_flushed(&self, out: Seq<u8>)
        requires
            self.consistent(),
            self.bit_packed_count == 0,
            out == pack_bits(self.bit_writer@),
        ensures
            out == self.prefix@ + pack_bits(runs_bits(self.runs@, self.bit_width as nat)),
            bytes_bits(out) == self.bit_writer@,
    {
        let w = self.bit_width as nat;
        let head = bytes_bits(self.prefix@);
        let tail = runs_bits(self.runs@, w);
        lemma_bytes_bits_len(self.prefix@);
        lemma_runs_bits_aligned(self.runs@, w);
        lemma_pack_bits_concat(head, tail);
        lemma_pack_bytes_bits(self.prefix@);
        lemma_pack_pad(self.bit_writer@);
        lemma_pad_aligned(self.bit_writer@);
    }

    /// Ends the stream and hands out a copy of all bytes: those in front
    /// of the stream, then the stream. What follows starts a new stream
    /// behind these bytes.
    pub fn flush_buffer(&mut self) -> (out: Vec<u8>)
        requires
            old(self).wf(),
        ensures
            final(self).wf(),
            out@ == old(self).prefix() + hybrid_bytes(old(self).values(), old(self).width()),
            out@.len() <= old(self).capacity(),
            final(self).prefix() == out@,
            final(self).values() == Seq::<u64>::empty(),
            final(self).width() == old(self).width(),
            final(self).capacity() == old(self).capacity(),
            final(self).start_len() == old(self).start_len(),
    {
        self.flush();
        proof {
            self.lemma_flushed(pack_bits(self.bit_writer@));
            lemma_pad_aligned(self.bit_writer@);
        }
        let out = self.bit_writer.flush_buffer();
        self.prefix_len = out.len();
        self.num_values = 0;
        proof {
            lemma_bytes_bits_len(out@);
            lemma_max_buffer_size_of_none(self.bit_width as nat);
            self.prefix = Ghost(out@);
            self.runs = Ghost(Seq::empty());
            self.open = Ghost(Seq::empty());
            self.values = Ghost(Seq::empty());
            self.written_groups = Ghost(0);
            lemma_bytes_bits_len(out@);
            assert(self.done_bits() =~= bytes_bits(out@));
            assert(self.values@ =~= runs_values(self.runs@) + self.open@
                + self.buffered_values@.take(0));
            lemma_exact_start(self.current_value, 0);
            assert(self.buffered_values@.take(0) =~= Seq::<u64>::empty());
        }
        out
    }

    /// Ends the stream and gives up all bytes: those in front of the
    /// stream, then the stream.
    pub fn consume(self) -> (out: Vec<u8>)
        requires
            self.wf(),
        ensures
            out@ == self.prefix() + hybrid_bytes(self.values(), self.width()),
            out@.len() <= self.capacity(),
    {
        let mut encoder = self;
        encoder.flush();
        proof {
            encoder.lemma_flushed(pack_bits(encoder.bit_writer@));
            lemma_bytes_bits_len(pack_bits(encoder.bit_writer@));
        }
        encoder.bit_writer.consume()
    }

    /// Forgets the stream and everything but the bytes that the sink
    /// started with.
    pub fn clear(&mut self)
        requires
            old(self).wf(),
        ensures
            final(self).wf(),
            final(self).values() == Seq::<u64>::empty(),
            old(self).start_len() <= old(self).prefix().len(),
            final(self).prefix() == old(self).prefix().take(old(self).start_len() as int),
            final(self).start_len() == old(self).start_len(),
            final(self).width() == old(self).width(),
            final(self).capacity() == old(self).capacity(),
    {
        proof {
            lemma_bytes_bits_len(self.prefix@);
            lemma_bytes_bits_take(self.prefix@, self.start as int);
        }
        self.bit_writer.truncate_to(self.start);
        self.prefix_len = self.start;
        self.num_values = 0;
        self.num_buffered_values = 0;
        self.current_value = 0;
        self.repeat_count = 0;
        self.bit_packed_count = 0;
        self.indicator_byte_pos = None;
        proof {
            self.prefix = Ghost(self.prefix@.take(self.start as int));
            self.runs = Ghost(Seq::empty());
            self.open = Ghost(Seq::empty());
            self.values = Ghost(Seq::empty());
            self.written_groups = Ghost(0);
            lemma_bytes_bits_len(self.prefix@);
            assert(self.bit_writer@ =~= self.done_bits());
            assert(self.values@ =~= runs_values(self.runs@) + self.open@
                + self.buffered_values@.take(0));
            lemma_exact_start(0, 0);
            assert(self.buffered_values@.take(0) =~= Seq::<u64>::empty());
            lemma_max_buffer_size_of_none(self.bit_width as nat);
        }
    }
}

/// A repeated run of at least eight values costs, for every eight of
/// them, at most one byte more than the bit width.
proof fn lemma_repeated_run_cost(count: nat, width: nat)
    requires
        count >= 8,
    ensures
        vlq_bytes(2 * count).len() + ceil_div(width as int, 8) <= (1 + width) * (count / 8),
{
    lemma_vlq_len_bound(2 * count);
    let groups = count / 8;
    assert((2 * count) / 16 == groups);
    assert(ceil_div(width as int, 8) <= width);
    assert((1 + width) * groups >= groups + width) by (nonlinear_arith)
        requires
            groups >= 1,
    ;
}

/// The most bytes that values take: for every eight of them, begun
/// groups counted, one byte more than the bit width.
pub proof fn lemma_max_buffer_size(width: nat, num_values: nat)
    ensures
        max_buffer_size_spec(width, num_values) == (1 + width) * ceil_div(num_values as int, 8),
{
    let groups = ceil_div(num_values as int, 8);
    let c = ceil_div(width as int, 8);
    assert(0 <= c <= width);
    assert(groups * (1 + c) <= groups + groups * width) by (nonlinear_arith)
        requires
            0 <= c <= width,
            0 <= groups,
    ;
    assert(groups + groups * width == (1 + width) * groups) by (nonlinear_arith);
}

/// No values take no bytes.
pub proof fn lemma_max_buffer_size_of_none(width: nat)
    ensures
        max_buffer_size_spec(width, 0) == 0,
{
    lemma_max_buffer_size(width, 0);
    assert((1 + width) * 0 == 0) by (nonlinear_arith);
}

/// What is written stays within the most bytes that the values take, if
/// it did so before and no more groups were written than the values
/// have.
proof fn lemma_within_bound(
    prefix: nat,
    width: nat,
    groups: nat,
    extra: nat,
    num_values: nat,
    before: nat,
    after: nat,
)
    requires
        before <= 8 * (prefix + (1 + width) * groups),
        after <= before + 8 * ((1 + width) * extra),
        groups + extra <= ceil_div(num_values as int, 8),
    ensures
        after <= 8 * (prefix + max_buffer_size_spec(width, num_values)),
{
    lemma_max_buffer_size(width, num_values);
    let most = ceil_div(num_values as int, 8);
    assert((1 + width) * groups + (1 + width) * extra <= (1 + width) * most) by (nonlinear_arith)
        requires
            groups + extra <= most,
    ;
}

/// More values never take fewer bytes at most.
pub proof fn lemma_max_buffer_size_grows(width: nat, fewer: nat, more: nat)
    requires
        fewer <= more,
    ensures
        max_buffer_size_spec(width, fewer) <= max_buffer_size_spec(width, more),
{
    let a = ceil_div(fewer as int, 8);
    let b = ceil_div(more as int, 8);
    let c = ceil_div(width as int, 8);
    assert(0 <= a <= b);
    assert(a * width <= b * width) by (nonlinear_arith)
        requires
            0 <= a <= b,
    ;
    assert(a * (1 + c) <= b * (1 + c)) by (nonlinear_arith)
        requires
            0 <= a <= b,
            0 <= c,
    ;
}

} // verus!
