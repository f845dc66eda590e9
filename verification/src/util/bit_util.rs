//! Small integer helpers and the little-endian bit writer.

use vstd::prelude::*;
use vstd::arithmetic::power2::{pow2, lemma_pow2_unfold, lemma2_to64};
use crate::util::bits::{
    bytes_bits, le_bytes, lemma_bytes_bits_concat, lemma_bytes_bits_len, lemma_bytes_bits_push,
    lemma_bytes_bits_take,
    lemma_low_bits_extend, lemma_low_bits_len, lemma_low_bits_push, lemma_pack_bits_concat,
    lemma_pack_byte, lemma_pack_bytes_bits, lemma_pack_pad, low_bits, pack_bits, pad_to_byte,
    required_bits, vlq_bytes, zero_bits, zigzag,
};

verus! {

/// `value / divisor`, rounded up.
pub open spec fn ceil_div(value: int, divisor: int) -> int {
    if value % divisor == 0 {
        value / divisor
    } else {
        value / divisor + 1
    }
}

/// The ceiling of the binary logarithm of `x`; 0 for 0 and 1.
pub open spec fn log2_ceil(x: nat) -> nat {
    if x <= 1 {
        0
    } else {
        required_bits((x - 1) as nat)
    }
}

/// A number below two to `n` requires at most `n` digits.
pub proof fn lemma_required_bits_bound(v: nat, n: nat)
    requires
        v < pow2(n),
    ensures
        required_bits(v) <= n,
    decreases n,
{
    if v > 0 {
        if n == 0 {
            lemma2_to64();
        } else {
            lemma_pow2_unfold(n);
            lemma_required_bits_bound(v / 2, (n - 1) as nat);
        }
    }
}

/// The digits that a number requires are the fewest that hold it: it is
/// below two to their count, and not below two to one fewer.
pub proof fn lemma_required_bits_is_least(v: nat)
    ensures
        v < pow2(required_bits(v)),
        v > 0 ==> pow2((required_bits(v) - 1) as nat) <= v,
    decreases v,
{
    if v == 0 {
        lemma2_to64();
    } else {
        lemma_required_bits_is_least(v / 2);
        lemma_pow2_unfold(required_bits(v));
        if v / 2 > 0 {
            lemma_pow2_unfold(required_bits(v / 2));
        } else {
            lemma2_to64();
        }
    }
}

/// Rounds `value / divisor` up.
pub fn ceil(value: i64, divisor: i64) -> (r: i64)
    requires
        value >= 0,
        divisor > 0,
    ensures
        r == ceil_div(value as int, divisor as int),
{
    let q = value / divisor;
    assert(q * divisor <= value) by (nonlinear_arith)
        requires
            q == value as int / divisor as int,
            value >= 0,
            divisor > 0,
    ;
    if value % divisor != 0 {
        assert(q < value) by (nonlinear_arith)
            requires
                q == value as int / divisor as int,
                value as int % divisor as int != 0,
                value >= 0,
                divisor > 0,
        ;
        q + 1
    } else {
        q
    }
}

/// The fewest bits that hold `x`: 0 for 0, else one more than the position
/// of its highest set bit.
pub fn num_required_bits(x: u64) -> (n: usize)
    ensures
        n == required_bits(x as nat),
        n <= 64,
{
    let mut rest: u64 = x;
    let mut n: usize = 0;
    proof {
        lemma2_to64();
        vstd::arithmetic::power2::lemma2_to64_rest();
        lemma_required_bits_bound(x as nat, 64);
    }
    while rest > 0
        invariant
            n + required_bits(rest as nat) == required_bits(x as nat),
            required_bits(x as nat) <= 64,
        decreases rest,
    {
        rest = rest / 2;
        n = n + 1;
    }
    n
}

/// The ceiling of the binary logarithm of `x`.
pub fn log2(x: u64) -> (r: i32)
    requires
        x >= 1,
    ensures
        r == log2_ceil(x as nat),
        0 <= r <= 64,
{
    if x == 1 {
        0
    } else {
        let n = num_required_bits(x - 1);
        n as i32
    }
}

/// The weight of binary digit `k` of a byte.
fn bit_weight(k: u8) -> (w: u8)
    requires
        k < 8,
    ensures
        w == pow2(k as nat),
{
    let w = 1u8 << k;
    assert(w == (if k == 0 { 1u8 } else if k == 1 { 2u8 } else if k == 2 { 4u8 } else if k == 3 {
        8u8
    } else if k == 4 { 16u8 } else if k == 5 { 32u8 } else if k == 6 { 64u8 } else { 128u8 }))
        by (bit_vector)
        requires
            k < 8,
            w == 1u8 << k,
    ;
    proof {
        lemma2_to64();
    }
    w
}

/// A growable sink of bits. Bits fill each byte from its least significant
/// end; whole bytes are written at byte boundaries.
pub struct BitWriter {
    buffer: Vec<u8>,
    partial: u8,
    bit_offset: u8,
}

impl View for BitWriter {
    type V = Seq<bool>;

    /// Every bit written so far, in order.
    closed spec fn view(&self) -> Seq<bool> {
        bytes_bits(self.buffer@) + low_bits(self.partial as nat, self.bit_offset as nat)
    }
}

impl BitWriter {
    /// The representation invariant: the partial byte holds fewer than
    /// eight bits and nothing above them.
    pub closed spec fn wf(&self) -> bool {
        &&& self.bit_offset < 8
        &&& (self.partial as nat) < pow2(self.bit_offset as nat)
    }

    /// The bytes that `flush_buffer` would hand out.
    pub open spec fn bytes(&self) -> Seq<u8> {
        pack_bits(self@)
    }

    /// Whether the next bit would start a new byte.
    pub open spec fn aligned(&self) -> bool {
        self@.len() % 8 == 0
    }

    proof fn lemma_view_len(&self)
        requires
            self.wf(),
        ensures
            self@.len() == 8 * self.buffer@.len() + self.bit_offset,
            self.aligned() <==> self.bit_offset == 0,
    {
        lemma_bytes_bits_len(self.buffer@);
        lemma_low_bits_len(self.partial as nat, self.bit_offset as nat);
    }

    /// An empty writer with room set aside for `initial_capacity` bytes.
    pub fn new(initial_capacity: usize) -> (w: BitWriter)
        ensures
            w.wf(),
            w@ == Seq::<bool>::empty(),
    {
        let w = BitWriter { buffer: Vec::with_capacity(initial_capacity), partial: 0, bit_offset: 0 };
        proof {
            lemma2_to64();
            assert(w@ =~= Seq::<bool>::empty());
        }
        w
    }

    /// A writer that continues after the first `start` bytes of `buffer`.
    pub fn new_from_buf(buffer: Vec<u8>, start: usize) -> (w: BitWriter)
        requires
            start <= buffer@.len(),
        ensures
            w.wf(),
            w@ == bytes_bits(buffer@.take(start as int)),
    {
        let mut buffer = buffer;
        buffer.truncate(start);
        let w = BitWriter { buffer, partial: 0, bit_offset: 0 };
        proof {
            lemma2_to64();
            assert(w.buffer@ =~= buffer@.take(start as int));
            assert(w@ =~= bytes_bits(w.buffer@));
        }
        w
    }

    /// The bytes are as many as the bits need: an eighth of their number,
    /// rounded up.
    pub proof fn lemma_byte_count(&self)
        ensures
            self.bytes().len() == ceil_div(self@.len() as int, 8),
    {
        crate::util::bits::lemma_pack_bits_len(self@);
    }

    /// Whether the bytes written so far and `extra` more fit in `capacity`.
    pub fn fits_within(&self, extra: usize, capacity: usize) -> (r: bool)
        requires
            self.wf(),
        ensures
            r == (self.bytes().len() + extra <= capacity),
    {
        proof {
            self.lemma_bytes();
        }
        let n = self.buffer.len();
        if capacity < extra || capacity - extra < n {
            false
        } else if self.bit_offset > 0 {
            capacity - extra - n >= 1
        } else {
            true
        }
    }

    /// What the bytes are, in terms of the representation.
    proof fn lemma_bytes(&self)
        requires
            self.wf(),
        ensures
            self.bit_offset == 0 ==> self.bytes() == self.buffer@,
            self.bit_offset > 0 ==> self.bytes() == self.buffer@.push(self.partial),
    {
        lemma_bytes_bits_len(self.buffer@);
        lemma_pack_bytes_bits(self.buffer@);
        let tail = low_bits(self.partial as nat, self.bit_offset as nat);
        lemma_pack_bits_concat(bytes_bits(self.buffer@), tail);
        if self.bit_offset == 0 {
            assert(tail =~= Seq::<bool>::empty());
            assert(self.buffer@ + pack_bits(tail) =~= self.buffer@);
        } else {
            lemma_pack_byte(self.partial as nat, self.bit_offset as nat);
            assert(self.buffer@ + seq![self.partial] =~= self.buffer@.push(self.partial));
        }
    }
}

impl BitWriter {
    /// Appends one bit.
    fn put_bit(&mut self, bit: bool)
        requires
            old(self).wf(),
        ensures
            final(self).wf(),
            final(self)@ == old(self)@.push(bit),
    {
        let weight = bit_weight(self.bit_offset);
        proof {
            lemma_low_bits_push(self.partial as nat, self.bit_offset as nat, bit);
            lemma_pow2_unfold((self.bit_offset + 1) as nat);
            lemma2_to64();
            if self.bit_offset < 7 {
                vstd::arithmetic::power2::lemma_pow2_strictly_increases(
                    (self.bit_offset + 1) as nat,
                    8,
                );
            }
        }
        if bit {
            self.partial = self.partial + weight;
        }
        self.bit_offset = self.bit_offset + 1;
        assert(self@ =~= old(self)@.push(bit));
        if self.bit_offset == 8 {
            proof {
                lemma_bytes_bits_push(self.buffer@, self.partial);
            }
            self.buffer.push(self.partial);
            self.partial = 0;
            self.bit_offset = 0;
            assert(self@ =~= old(self)@.push(bit));
        }
    }

    /// Writes the `num_bits` low bits of `v`, least significant first,
    /// continuing in the middle of a byte where the last write stopped.
    pub fn put_value(&mut self, v: u64, num_bits: usize)
        requires
            old(self).wf(),
            num_bits <= 64,
        ensures
            final(self).wf(),
            final(self)@ == old(self)@ + low_bits(v as nat, num_bits as nat),
    {
        let mut rest: u64 = v;
        let mut i: usize = 0;
        assert(self@ + low_bits(rest as nat, (num_bits - i) as nat) =~= old(self)@ + low_bits(
            v as nat,
            num_bits as nat,
        ));
        while i < num_bits
            invariant
                self.wf(),
                i <= num_bits,
                self@ + low_bits(rest as nat, (num_bits - i) as nat) == old(self)@ + low_bits(
                    v as nat,
                    num_bits as nat,
                ),
            decreases num_bits - i,
        {
            let ghost before = self@;
            self.put_bit(rest % 2 == 1);
            assert(before + low_bits(rest as nat, (num_bits - i) as nat) =~= before.push(
                rest % 2 == 1,
            ) + low_bits((rest / 2) as nat, (num_bits - i - 1) as nat));
            rest = rest / 2;
            i = i + 1;
        }
        assert(self@ + low_bits(rest as nat, 0) =~= self@);
    }

    /// Completes the current byte with zero bits.
    pub fn flush(&mut self)
        requires
            old(self).wf(),
        ensures
            final(self).wf(),
            final(self).aligned(),
            final(self)@ == pad_to_byte(old(self)@),
            final(self).bytes() == old(self).bytes(),
    {
        proof {
            self.lemma_view_len();
            lemma_pack_pad(self@);
            lemma2_to64();
        }
        if self.bit_offset > 0 {
            proof {
                lemma_bytes_bits_push(self.buffer@, self.partial);
                lemma_low_bits_extend(self.partial as nat, self.bit_offset as nat, 8);
            }
            self.buffer.push(self.partial);
            self.partial = 0;
            self.bit_offset = 0;
            assert(self@ =~= pad_to_byte(old(self)@));
        } else {
            assert(self@ =~= pad_to_byte(old(self)@));
        }
    }

    /// Appends a whole byte at a byte boundary.
    fn put_byte(&mut self, b: u8)
        requires
            old(self).wf(),
            old(self).aligned(),
        ensures
            final(self).wf(),
            final(self).aligned(),
            final(self)@ == old(self)@ + low_bits(b as nat, 8),
            final(self)@ == old(self)@ + bytes_bits(seq![b]),
    {
        proof {
            self.lemma_view_len();
            lemma_bytes_bits_push(self.buffer@, b);
            lemma_bytes_bits_push(Seq::<u8>::empty(), b);
            assert(Seq::<u8>::empty().push(b) =~= seq![b]);
            assert(bytes_bits(seq![b]) =~= low_bits(b as nat, 8));
            lemma_low_bits_len(b as nat, 8);
        }
        self.buffer.push(b);
        assert(self@ =~= old(self)@ + low_bits(b as nat, 8));
    }

    /// Completes the current byte, then writes the `num_bytes` low bytes of
    /// `v`, least significant first.
    pub fn put_aligned(&mut self, v: u64, num_bytes: usize)
        requires
            old(self).wf(),
            num_bytes <= 8,
        ensures
            final(self).wf(),
            final(self).aligned(),
            final(self)@ == pad_to_byte(old(self)@) + bytes_bits(le_bytes(v as nat, num_bytes as nat)),
    {
        self.flush();
        let mut rest: u64 = v;
        let mut i: usize = 0;
        let ghost start = self@;
        proof {
            lemma_bytes_bits_concat(Seq::<u8>::empty(), le_bytes(v as nat, num_bytes as nat));
            assert(Seq::<u8>::empty() + le_bytes(v as nat, num_bytes as nat) =~= le_bytes(
                v as nat,
                num_bytes as nat,
            ));
            assert(start + Seq::<bool>::empty() =~= start);
        }
        while i < num_bytes
            invariant
                self.wf(),
                self.aligned(),
                i <= num_bytes,
                self@ + bytes_bits(le_bytes(rest as nat, (num_bytes - i) as nat)) == start
                    + bytes_bits(le_bytes(v as nat, num_bytes as nat)),
            decreases num_bytes - i,
        {
            let ghost before = self@;
            let b = (rest % 256) as u8;
            self.put_byte(b);
            proof {
                let tail = le_bytes((rest / 256) as nat, (num_bytes - i - 1) as nat);
                assert(le_bytes(rest as nat, (num_bytes - i) as nat) == seq![b] + tail);
                lemma_bytes_bits_concat(seq![b], tail);
                assert(before + (bytes_bits(seq![b]) + bytes_bits(tail)) =~= (before + bytes_bits(
                    seq![b],
                )) + bytes_bits(tail));
            }
            rest = rest / 256;
            i = i + 1;
        }
        assert(bytes_bits(le_bytes(rest as nat, 0)) =~= Seq::<bool>::empty());
        assert(self@ + Seq::<bool>::empty() =~= self@);
    }

    /// Completes the current byte, then writes `v` as an unsigned LEB128
    /// number.
    pub fn put_vlq_int(&mut self, v: u64)
        requires
            old(self).wf(),
        ensures
            final(self).wf(),
            final(self).aligned(),
            final(self)@ == pad_to_byte(old(self)@) + bytes_bits(vlq_bytes(v as nat)),
    {
        self.flush();
        let mut rest: u64 = v;
        let ghost start = self@;
        while rest >= 128
            invariant
                self.wf(),
                self.aligned(),
                self@ + bytes_bits(vlq_bytes(rest as nat)) == start + bytes_bits(
                    vlq_bytes(v as nat),
                ),
            decreases rest,
        {
            let ghost before = self@;
            let b = (rest % 128 + 128) as u8;
            self.put_byte(b);
            proof {
                let tail = vlq_bytes((rest / 128) as nat);
                assert(vlq_bytes(rest as nat) == seq![b] + tail);
                lemma_bytes_bits_concat(seq![b], tail);
                assert(before + (bytes_bits(seq![b]) + bytes_bits(tail)) =~= (before + bytes_bits(
                    seq![b],
                )) + bytes_bits(tail));
            }
            rest = rest / 128;
        }
        self.put_byte(rest as u8);
        assert(vlq_bytes(rest as nat) == seq![rest as u8]);
    }

    /// Completes the current byte, then writes the zig-zag image of `v` as
    /// an unsigned LEB128 number.
    pub fn put_zigzag_vlq_int(&mut self, v: i64)
        requires
            old(self).wf(),
        ensures
            final(self).wf(),
            final(self).aligned(),
            final(self)@ == pad_to_byte(old(self)@) + bytes_bits(vlq_bytes(zigzag(v as int))),
    {
        let u: u64 = if v >= 0 {
            (v as u64) * 2
        } else {
            ((-(v + 1)) as u64) * 2 + 1
        };
        self.put_vlq_int(u);
    }

    /// Completes the current byte and sets aside the next `num_bytes` bytes,
    /// zeroed, to be filled in later with `put_byte_at`. Returns the
    /// position of the first of them, counted in bytes from the start.
    pub fn get_next_byte_ptr(&mut self, num_bytes: usize) -> (pos: usize)
        requires
            old(self).wf(),
        ensures
            final(self).wf(),
            final(self).aligned(),
            final(self)@ == pad_to_byte(old(self)@) + zero_bits(8 * num_bytes as nat),
            8 * pos == pad_to_byte(old(self)@).len(),
            pos + num_bytes <= usize::MAX,
    {
        self.flush();
        proof {
            self.lemma_view_len();
        }
        let pos = self.buffer.len();
        let mut i: usize = 0;
        let ghost start = self@;
        assert(start + zero_bits(0) =~= start);
        while i < num_bytes
            invariant
                self.wf(),
                self.aligned(),
                i <= num_bytes,
                self@ == start + zero_bits(8 * i as nat),
            decreases num_bytes - i,
        {
            self.put_byte(0);
            proof {
                lemma2_to64();
                lemma_low_bits_extend(0, 0, 8);
                assert(low_bits(0, 0) + zero_bits(8) =~= zero_bits(8));
                assert(start + zero_bits(8 * i as nat) + zero_bits(8) =~= start + zero_bits(
                    8 * (i + 1) as nat,
                ));
            }
            i = i + 1;
        }
        let end = self.buffer.len();
        proof {
            self.lemma_view_len();
        }
        assert(end == pos + num_bytes);
        pos
    }

    /// Overwrites the byte at position `pos`, which must lie within the
    /// whole bytes already written.
    pub fn put_byte_at(&mut self, pos: usize, value: u8)
        requires
            old(self).wf(),
            8 * pos + 8 <= old(self)@.len(),
        ensures
            final(self).wf(),
            final(self)@ == old(self)@.take(8 * pos) + low_bits(value as nat, 8) + old(self)@.skip(
                8 * pos + 8,
            ),
            final(self)@.len() == old(self)@.len(),
    {
        proof {
            self.lemma_view_len();
        }
        let ghost old_buf = self.buffer@;
        self.buffer.set(pos, value);
        proof {
            let p = pos as int;
            let head = old_buf.take(p);
            let tail = old_buf.skip(p + 1);
            assert(old_buf =~= head + seq![old_buf[p]] + tail);
            assert(self.buffer@ =~= head + seq![value] + tail);
            lemma_bytes_bits_concat(head + seq![old_buf[p]], tail);
            lemma_bytes_bits_concat(head, seq![old_buf[p]]);
            lemma_bytes_bits_concat(head + seq![value], tail);
            lemma_bytes_bits_concat(head, seq![value]);
            lemma_bytes_bits_len(head);
            lemma_bytes_bits_len(tail);
            lemma_bytes_bits_len(seq![value]);
            lemma_bytes_bits_len(seq![old_buf[p]]);
            lemma_bytes_bits_push(Seq::<u8>::empty(), value);
            assert(Seq::<u8>::empty().push(value) =~= seq![value]);
            assert(bytes_bits(seq![value]) =~= low_bits(value as nat, 8));
            let rest = low_bits(self.partial as nat, self.bit_offset as nat);
            assert(old(self)@.take(8 * pos) =~= bytes_bits(head));
            assert(old(self)@.skip(8 * pos + 8) =~= bytes_bits(tail) + rest);
            assert(self@ =~= bytes_bits(head) + low_bits(value as nat, 8) + (bytes_bits(tail)
                + rest));
            lemma_low_bits_len(value as nat, 8);
        }
    }

    /// Completes the current byte and hands out a copy of every byte
    /// written so far.
    pub fn flush_buffer(&mut self) -> (out: Vec<u8>)
        requires
            old(self).wf(),
        ensures
            final(self).wf(),
            final(self).aligned(),
            final(self)@ == pad_to_byte(old(self)@),
            out@ == old(self).bytes(),
    {
        self.flush();
        proof {
            self.lemma_view_len();
            self.lemma_bytes();
        }
        let out = self.buffer.clone();
        assert(out@ =~= self.buffer@);
        out
    }

    /// Completes the current byte and gives up the bytes written.
    pub fn consume(self) -> (out: Vec<u8>)
        requires
            self.wf(),
        ensures
            out@ == self.bytes(),
    {
        let mut w = self;
        w.flush();
        proof {
            w.lemma_view_len();
            w.lemma_bytes();
        }
        w.buffer
    }

    /// Forgets everything written; the allocation is kept.
    pub fn clear(&mut self)
        requires
            old(self).wf(),
        ensures
            final(self).wf(),
            final(self)@ == Seq::<bool>::empty(),
    {
        self.buffer.clear();
        self.partial = 0;
        self.bit_offset = 0;
        proof {
            lemma2_to64();
            assert(self@ =~= Seq::<bool>::empty());
        }
    }
}

impl BitWriter {
    /// Forgets everything after the first `num_bytes` bytes.
    pub fn truncate_to(&mut self, num_bytes: usize)
        requires
            old(self).wf(),
            8 * num_bytes <= old(self)@.len(),
        ensures
            final(self).wf(),
            final(self).aligned(),
            final(self)@ == old(self)@.take(8 * num_bytes),
    {
        proof {
            self.lemma_view_len();
            lemma_bytes_bits_take(self.buffer@, num_bytes as int);
            lemma_bytes_bits_len(self.buffer@);
            lemma2_to64();
        }
        self.buffer.truncate(num_bytes);
        self.partial = 0;
        self.bit_offset = 0;
        proof {
            assert(self.buffer@ =~= old(self).buffer@.take(num_bytes as int));
            assert(self@ =~= old(self)@.take(8 * num_bytes));
            self.lemma_view_len();
        }
    }
}

} // verus!
