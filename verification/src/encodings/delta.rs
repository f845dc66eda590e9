//! The layout of DELTA_BINARY_PACKED, as functions of the values.
//!
//! A page is a header followed by blocks. A block holds up to 128 deltas
//! between neighbouring values: the smallest of them, then the bit widths
//! of its four mini-blocks, then the mini-blocks, each of 32 deltas less
//! the smallest, packed at the mini-block's width.

use vstd::prelude::*;
use crate::basic::Type;
use crate::util::bits::{
    bytes_bits, lemma_bytes_bits_len, lemma_pack_bits_len, lemma_vlq_len_at_most, low_bits,
    pack_bits, required_bits, vlq_bytes, zero_bits, zigzag,
};

verus! {

/// The number of deltas in a full block.
pub const BLOCK_SIZE: usize = 128;

/// The number of mini-blocks in a block.
pub const NUM_MINI_BLOCKS: usize = 4;

/// The number of deltas in a full mini-block.
pub const MINI_BLOCK_SIZE: usize = 32;

/// Whether DELTA_BINARY_PACKED can hold values of physical type `t`.
pub open spec fn is_delta_type(t: Type) -> bool {
    t == Type::INT32 || t == Type::INT64
}

/// Two to the width of the type: the modulus of its arithmetic.
pub open spec fn modulus(t: Type) -> int {
    if t == Type::INT32 {
        0x1_0000_0000
    } else {
        0x1_0000_0000_0000_0000
    }
}

/// `a - b` in the two's-complement arithmetic of the type, which wraps.
pub open spec fn wrapping_diff(t: Type, a: int, b: int) -> int {
    let d = (a - b) % modulus(t);
    if 2 * d >= modulus(t) {
        d - modulus(t)
    } else {
        d
    }
}

/// `a - b` as an unsigned number of the type's width.
pub open spec fn unsigned_diff(t: Type, a: int, b: int) -> nat {
    ((a - b) % modulus(t)) as nat
}

/// The deltas between neighbouring values: one fewer than the values.
pub open spec fn delta_seq(t: Type, values: Seq<i64>) -> Seq<i64> {
    Seq::new(
        if values.len() == 0 { 0 } else { (values.len() - 1) as nat },
        |i: int| wrapping_diff(t, values[i + 1] as int, values[i] as int) as i64,
    )
}

/// The smallest of `s`; the largest `i64` where `s` is empty.
pub open spec fn min_of(s: Seq<i64>) -> i64
    decreases s.len(),
{
    if s.len() == 0 {
        i64::MAX
    } else if s.last() < min_of(s.drop_last()) {
        s.last()
    } else {
        min_of(s.drop_last())
    }
}

/// The largest of `s`; the smallest `i64` where `s` is empty.
pub open spec fn max_of(s: Seq<i64>) -> i64
    decreases s.len(),
{
    if s.len() == 0 {
        i64::MIN
    } else if s.last() > max_of(s.drop_last()) {
        s.last()
    } else {
        max_of(s.drop_last())
    }
}

/// The deltas of mini-block `i` of a block: up to 32, none past the end.
pub open spec fn mini_block(block: Seq<i64>, i: int) -> Seq<i64> {
    let from = if 32 * i < block.len() { 32 * i } else { block.len() as int };
    let to = if 32 * i + 32 < block.len() { 32 * i + 32 } else { block.len() as int };
    block.subrange(from, to)
}

/// The bit width of mini-block `i`: what its largest delta needs once the
/// block's smallest is taken off; 0 for a mini-block without deltas.
pub open spec fn mini_block_width(t: Type, block: Seq<i64>, i: int) -> nat {
    if mini_block(block, i).len() == 0 {
        0
    } else {
        required_bits(unsigned_diff(t, max_of(mini_block(block, i)) as int, min_of(block) as int))
    }
}

/// Each of `deltas` less `min`, in `width` bits, one after the other.
pub open spec fn packed_bits(t: Type, deltas: Seq<i64>, min: i64, width: nat) -> Seq<bool>
    decreases deltas.len(),
{
    if deltas.len() == 0 {
        Seq::empty()
    } else {
        packed_bits(t, deltas.drop_last(), min, width) + low_bits(
            unsigned_diff(t, deltas.last() as int, min as int),
            width,
        )
    }
}

/// The bits of mini-block `i`: its deltas packed, then zeros up to 32
/// entries. A mini-block without deltas has no bits.
pub open spec fn mini_block_bits(t: Type, block: Seq<i64>, i: int) -> Seq<bool> {
    let deltas = mini_block(block, i);
    let width = mini_block_width(t, block, i);
    if deltas.len() == 0 {
        Seq::empty()
    } else {
        packed_bits(t, deltas, min_of(block), width) + zero_bits(((32 - deltas.len()) * width) as nat)
    }
}

/// The four width bytes of a block.
pub open spec fn block_widths(t: Type, block: Seq<i64>) -> Seq<u8> {
    Seq::new(4, |i: int| mini_block_width(t, block, i) as u8)
}

/// The bits of the first `n` mini-blocks of a block.
pub open spec fn mini_blocks_bits(t: Type, block: Seq<i64>, n: nat) -> Seq<bool>
    decreases n,
{
    if n == 0 {
        Seq::empty()
    } else {
        mini_blocks_bits(t, block, (n - 1) as nat) + mini_block_bits(t, block, n - 1)
    }
}

/// The bits of one block of at least 1 and at most 128 deltas: the
/// smallest delta as a zig-zag variable-length number, the four widths,
/// and the four mini-blocks.
#[verifier::opaque]
pub open spec fn block_bits(t: Type, block: Seq<i64>) -> Seq<bool> {
    bytes_bits(vlq_bytes(zigzag(min_of(block) as int))) + bytes_bits(block_widths(t, block))
        + mini_blocks_bits(t, block, 4)
}

/// The bits of all blocks: the deltas 128 at a time, the last block with
/// what is left.
pub open spec fn blocks_bits(t: Type, deltas: Seq<i64>) -> Seq<bool>
    decreases deltas.len(),
{
    if deltas.len() == 0 {
        Seq::empty()
    } else if deltas.len() <= 128 {
        block_bits(t, deltas)
    } else {
        block_bits(t, deltas.take(128)) + blocks_bits(t, deltas.skip(128))
    }
}

/// The page header: block size, mini-blocks per block, the number of
/// values, and the first value.
pub open spec fn page_header(count: nat, first: i64) -> Seq<u8> {
    vlq_bytes(128) + vlq_bytes(4) + vlq_bytes(count) + vlq_bytes(zigzag(first as int))
}

/// The DELTA_BINARY_PACKED page of `values` of type `t`.
pub open spec fn delta_encode(t: Type, values: Seq<i64>) -> Seq<u8> {
    page_header(values.len(), if values.len() > 0 { values[0] } else { 0 }) + pack_bits(
        blocks_bits(t, delta_seq(t, values)),
    )
}

/// One more value adds one delta, against the value before it.
pub proof fn lemma_delta_seq_push(t: Type, values: Seq<i64>, v: i64)
    requires
        values.len() > 0,
    ensures
        delta_seq(t, values.push(v)) == delta_seq(t, values).push(
            wrapping_diff(t, v as int, values.last() as int) as i64,
        ),
{
    assert(delta_seq(t, values.push(v)) =~= delta_seq(t, values).push(
        wrapping_diff(t, v as int, values.last() as int) as i64,
    ));
}

/// Whole blocks in front can be laid out on their own.
pub proof fn lemma_blocks_bits_concat(t: Type, a: Seq<i64>, b: Seq<i64>)
    requires
        a.len() % 128 == 0,
    ensures
        blocks_bits(t, a + b) == blocks_bits(t, a) + blocks_bits(t, b),
    decreases a.len(),
{
    if a.len() == 0 {
        assert(a + b =~= b);
        assert(blocks_bits(t, a) + blocks_bits(t, b) =~= blocks_bits(t, b));
    } else if b.len() == 0 {
        assert(a + b =~= a);
        assert(blocks_bits(t, a) + blocks_bits(t, b) =~= blocks_bits(t, a));
    } else {
        let a2 = a.skip(128);
        lemma_blocks_bits_concat(t, a2, b);
        assert((a + b).take(128) =~= a.take(128));
        assert((a + b).skip(128) =~= a2 + b);
        if a.len() == 128 {
            assert(a.take(128) =~= a);
            assert(blocks_bits(t, a2) =~= Seq::<bool>::empty());
        }
        assert(blocks_bits(t, a) =~= block_bits(t, a.take(128)) + blocks_bits(t, a2));
        assert(blocks_bits(t, a + b) =~= blocks_bits(t, a) + blocks_bits(t, b));
    }
}

/// Deltas packed at a width take that many bits each.
pub proof fn lemma_packed_bits_len(t: Type, deltas: Seq<i64>, min: i64, width: nat)
    ensures
        packed_bits(t, deltas, min, width).len() == deltas.len() * width,
    decreases deltas.len(),
{
    if deltas.len() > 0 {
        lemma_packed_bits_len(t, deltas.drop_last(), min, width);
        crate::util::bits::lemma_low_bits_len(
            unsigned_diff(t, deltas.last() as int, min as int),
            width,
        );
        assert(deltas.len() * width == (deltas.len() - 1) * width + width) by (nonlinear_arith);
    } else {
        assert(deltas.len() * width == 0) by (nonlinear_arith)
            requires
                deltas.len() == 0,
        ;
    }
}

/// Whether `v` is a value of type `t`, for the two types of deltas.
pub open spec fn in_range(t: Type, v: int) -> bool {
    -modulus(t) <= 2 * v < modulus(t)
}

/// A delta is a value of the type, and adding it to the value before, in
/// the wrapping arithmetic of the type, gives the value back: whatever
/// two values follow each other, the second can be had from the first.
pub proof fn lemma_wrapping_diff_undone(t: Type, a: int, b: int)
    requires
        in_range(t, a),
        in_range(t, b),
    ensures
        in_range(t, wrapping_diff(t, a, b)),
        wrapping_diff(t, b + wrapping_diff(t, a, b), 0) == a,
        unsigned_diff(t, a, b) == wrapping_diff(t, a, b) % modulus(t),
{
    let m = modulus(t);
    let d = wrapping_diff(t, a, b);
    assert(((a - b) % m - (a - b)) % m == 0) by {
        vstd::arithmetic::div_mod::lemma_fundamental_div_mod(a - b, m);
        let q = (a - b) / m;
        assert((a - b) % m - (a - b) == m * (-q)) by (nonlinear_arith)
            requires
                a - b == m * q + (a - b) % m,
        ;
        vstd::arithmetic::div_mod::lemma_mod_multiples_basic(-q, m);
        assert(m * (-q) == (-q) * m) by (nonlinear_arith);
    }
    let k = if 2 * ((a - b) % m) >= m {
        (a - b) / m + 1
    } else {
        (a - b) / m
    };
    vstd::arithmetic::div_mod::lemma_fundamental_div_mod(a - b, m);
    assert(b + d == a - m * k) by (nonlinear_arith)
        requires
            a - b == m * ((a - b) / m) + (a - b) % m,
            d == (a - b) % m - (if 2 * ((a - b) % m) >= m {
                m
            } else {
                0
            }),
            k == (if 2 * ((a - b) % m) >= m {
                (a - b) / m + 1
            } else {
                (a - b) / m
            }),
    ;
    assert((a - m * k) % m == a % m) by {
        vstd::arithmetic::div_mod::lemma_mod_multiples_vanish(-k, a, m);
        assert(m * (-k) + a == a - m * k) by (nonlinear_arith);
    }
    assert(d % m == (a - b) % m) by {
        if 2 * ((a - b) % m) >= m {
            vstd::arithmetic::div_mod::lemma_mod_multiples_vanish(-1, (a - b) % m, m);
            vstd::arithmetic::div_mod::lemma_mod_twice(a - b, m);
        } else {
            vstd::arithmetic::div_mod::lemma_mod_twice(a - b, m);
        }
    }
}

/// `count` values that go up by one from `first`.
pub open spec fn counting(first: i64, count: nat) -> Seq<i64> {
    Seq::new(count, |i: int| (first + i) as i64)
}

/// `count` times the delta `d`.
pub open spec fn constant(d: i64, count: nat) -> Seq<i64> {
    Seq::new(count, |i: int| d)
}

proof fn lemma_constant_extremes(d: i64, count: nat)
    requires
        count >= 1,
    ensures
        min_of(constant(d, count)) == d,
        max_of(constant(d, count)) == d,
    decreases count,
{
    let c = constant(d, count);
    let init = c.drop_last();
    assert(init =~= constant(d, (count - 1) as nat));
    assert(c.last() == d);
    if count > 1 {
        lemma_constant_extremes(d, (count - 1) as nat);
    } else {
        assert(init.len() == 0);
        assert(min_of(init) == i64::MAX);
        assert(max_of(init) == i64::MIN);
    }
}

/// A block of equal deltas takes the smallest delta and four widths of
/// zero, and no bits besides.
proof fn lemma_constant_block(t: Type, d: i64, count: nat)
    requires
        1 <= count <= 128,
    ensures
        block_bits(t, constant(d, count)).len() == 8 * (vlq_bytes(zigzag(d as int)).len() + 4),
{
    let block = constant(d, count);
    reveal(block_bits);
    lemma_constant_extremes(d, count);
    assert forall|i: int| 0 <= i < 4 implies mini_block_bits(t, block, i).len() == 0 by {
        let part = mini_block(block, i);
        if part.len() > 0 {
            assert(part =~= constant(d, part.len()));
            lemma_constant_extremes(d, part.len());
            assert(unsigned_diff(t, d as int, d as int) == 0);
            assert(mini_block_width(t, block, i) == 0) by {
                assert(required_bits(0) == 0);
            }
            lemma_packed_bits_len(t, part, d, 0);
            assert((32 - part.len()) * 0 == 0);
        }
    }
    assert(mini_blocks_bits(t, block, 4).len() == 0) by {
        assert(mini_blocks_bits(t, block, 0).len() == 0);
        assert(mini_blocks_bits(t, block, 1).len() == 0);
        assert(mini_blocks_bits(t, block, 2).len() == 0);
        assert(mini_blocks_bits(t, block, 3).len() == 0);
    }
    lemma_bytes_bits_len(vlq_bytes(zigzag(d as int)));
    lemma_bytes_bits_len(block_widths(t, block));
}

proof fn lemma_constant_blocks(t: Type, d: i64, count: nat)
    ensures
        blocks_bits(t, constant(d, count)).len() == 8 * (vlq_bytes(zigzag(d as int)).len() + 4) * ((
        count + 127) / 128),
    decreases count,
{
    let all = constant(d, count);
    let one = 8 * (vlq_bytes(zigzag(d as int)).len() + 4);
    if count == 0 {
    } else if count <= 128 {
        lemma_constant_block(t, d, count);
        assert((count + 127) / 128 == 1);
    } else {
        assert(all.take(128) =~= constant(d, 128));
        assert(all.skip(128) =~= constant(d, (count - 128) as nat));
        lemma_constant_block(t, d, 128);
        lemma_constant_blocks(t, d, (count - 128) as nat);
        let rest = (count - 128 + 127) / 128;
        assert((count + 127) / 128 == rest + 1);
        assert(one * (rest + 1) == one + one * rest) by (nonlinear_arith);
    }
}

/// Values that go up by one each take no bits: the page has its header
/// and, for every 128 values after the first, five bytes. So the page of
/// `count` such values is at most 28 bytes and an eighth of `count` long.
pub proof fn lemma_counting_page_is_small(t: Type, first: i64, count: nat)
    requires
        is_delta_type(t),
        count <= u64::MAX,
        first + count <= i64::MAX,
    ensures
        delta_encode(t, counting(first, count)).len() <= 28 + count / 8,
{
    let values = counting(first, count);
    let deltas = delta_seq(t, values);
    let fewer: nat = if count == 0 {
        0
    } else {
        (count - 1) as nat
    };
    assert(deltas =~= constant(1, fewer));
    lemma_constant_blocks(t, 1, fewer);
    let bits = blocks_bits(t, deltas);
    lemma_pack_bits_len(bits);
    assert(vlq_bytes(zigzag(1)) =~= seq![2u8]) by {
        assert(zigzag(1) == 2);
    }
    let groups = (fewer + 127) / 128;
    assert(bits.len() == 40 * groups) by {
        assert(8 * (1 + 4) * groups == 40 * groups) by (nonlinear_arith);
    }
    let bytes = 5 * groups;
    assert(40 * groups == 8 * bytes) by (nonlinear_arith)
        requires
            bytes == 5 * groups,
    ;
    assert((8 * bytes + 7) / 8 == bytes);
    assert(pack_bits(bits).len() == 5 * groups);
    vstd::arithmetic::power2::lemma2_to64();
    vstd::arithmetic::power2::lemma2_to64_rest();
    vstd::arithmetic::power2::lemma_pow2_strictly_increases(64, 70);
    let start = if count > 0 {
        values[0]
    } else {
        0
    };
    lemma_vlq_len_at_most(128, 2);
    lemma_vlq_len_at_most(4, 1);
    lemma_vlq_len_at_most(count, 10);
    lemma_vlq_len_at_most(zigzag(start as int), 10);
}

} // verus!
