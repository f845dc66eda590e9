//! Sequences of bits, least significant first, and how they pack into bytes.

use vstd::prelude::*;
use vstd::arithmetic::power2::{pow2, lemma_pow2_unfold, lemma_pow2_pos, lemma2_to64};

verus! {

/// The `n` low binary digits of `v`, least significant first.
pub open spec fn low_bits(v: nat, n: nat) -> Seq<bool>
    decreases n,
{
    if n == 0 {
        Seq::empty()
    } else {
        seq![v % 2 == 1] + low_bits(v / 2, (n - 1) as nat)
    }
}

/// The number whose binary digits, least significant first, are `bits`.
pub open spec fn bits_value(bits: Seq<bool>) -> nat
    decreases bits.len(),
{
    if bits.len() == 0 {
        0
    } else {
        (if bits[0] { 1nat } else { 0nat }) + 2 * bits_value(bits.drop_first())
    }
}

/// `n` zero bits.
pub open spec fn zero_bits(n: nat) -> Seq<bool> {
    Seq::new(n, |i: int| false)
}

/// The bits of a byte string: eight per byte, least significant first.
pub open spec fn bytes_bits(bytes: Seq<u8>) -> Seq<bool>
    decreases bytes.len(),
{
    if bytes.len() == 0 {
        Seq::empty()
    } else {
        bytes_bits(bytes.drop_last()) + low_bits(bytes.last() as nat, 8)
    }
}

/// How many zero bits bring a stream of `len` bits to a byte boundary.
pub open spec fn padding_len(len: nat) -> nat {
    ((8 - len % 8) % 8) as nat
}

/// `bits` followed by the zero bits that complete its last byte.
pub open spec fn pad_to_byte(bits: Seq<bool>) -> Seq<bool> {
    bits + zero_bits(padding_len(bits.len()))
}

/// The bytes that hold `bits`, eight to a byte, the last byte zero-padded.
pub open spec fn pack_bits(bits: Seq<bool>) -> Seq<u8>
    decreases bits.len(),
{
    if bits.len() == 0 {
        Seq::empty()
    } else if bits.len() <= 8 {
        seq![(bits_value(bits) % 256) as u8]
    } else {
        seq![(bits_value(bits.take(8)) % 256) as u8] + pack_bits(bits.skip(8))
    }
}

/// The `n` low bytes of `v`, least significant first.
pub open spec fn le_bytes(v: nat, n: nat) -> Seq<u8>
    decreases n,
{
    if n == 0 {
        Seq::empty()
    } else {
        seq![(v % 256) as u8] + le_bytes(v / 256, (n - 1) as nat)
    }
}

/// Unsigned LEB128: seven bits per byte, least significant group first, the
/// high bit of a byte set when another byte follows.
pub open spec fn vlq_bytes(v: nat) -> Seq<u8>
    decreases v,
{
    if v < 128 {
        seq![v as u8]
    } else {
        seq![(v % 128 + 128) as u8] + vlq_bytes(v / 128)
    }
}

/// The zig-zag image of a signed number: 0, -1, 1, -2, ... go to 0, 1, 2, 3, ...
pub open spec fn zigzag(v: int) -> nat {
    if v >= 0 {
        (2 * v) as nat
    } else {
        (-2 * v - 1) as nat
    }
}

/// The fewest binary digits that can hold `v`.
pub open spec fn required_bits(v: nat) -> nat
    decreases v,
{
    if v == 0 {
        0
    } else {
        1 + required_bits(v / 2)
    }
}

/// `n` digits are `n` bits.
pub proof fn lemma_low_bits_len(v: nat, n: nat)
    ensures
        low_bits(v, n).len() == n,
    decreases n,
{
    if n > 0 {
        lemma_low_bits_len(v / 2, (n - 1) as nat);
    }
}

/// Setting digit `k` of a number below `2^k` appends one bit to its digits.
pub proof fn lemma_low_bits_push(p: nat, k: nat, b: bool)
    requires
        p < pow2(k),
    ensures
        low_bits(p + (if b { pow2(k) } else { 0 }), k + 1) == low_bits(p, k).push(b),
    decreases k,
{
    let q = p + (if b { pow2(k) } else { 0nat });
    if k == 0 {
        lemma2_to64();
        assert(low_bits(q / 2, 0) == Seq::<bool>::empty());
        assert(low_bits(q, 1) =~= seq![b]);
        assert(low_bits(p, 0).push(b) =~= seq![b]);
    } else {
        lemma_pow2_unfold(k);
        let h = pow2((k - 1) as nat);
        assert(pow2(k) == 2 * h);
        assert(q % 2 == p % 2);
        assert(q / 2 == p / 2 + (if b { h } else { 0nat }));
        lemma_low_bits_push(p / 2, (k - 1) as nat, b);
        assert(low_bits(q, k + 1) == seq![q % 2 == 1] + low_bits(q / 2, k));
        assert(low_bits(p, k) == seq![p % 2 == 1] + low_bits(p / 2, (k - 1) as nat));
        assert(low_bits(q, k + 1) =~= low_bits(p, k).push(b));
    }
}

/// Digits above the highest set one are zero.
pub proof fn lemma_low_bits_extend(p: nat, k: nat, n: nat)
    requires
        p < pow2(k),
        k <= n,
    ensures
        low_bits(p, n) == low_bits(p, k) + zero_bits((n - k) as nat),
    decreases n,
{
    if n == 0 {
        assert(low_bits(p, n) =~= low_bits(p, k) + zero_bits(0));
    } else if k == 0 {
        lemma2_to64();
        assert(p == 0);
        lemma_low_bits_extend(0, 0, (n - 1) as nat);
        assert(low_bits(0, (n - 1) as nat) == low_bits(0, 0) + zero_bits((n - 1) as nat));
        assert(low_bits(p, n) =~= low_bits(p, 0) + zero_bits(n));
    } else {
        lemma_pow2_unfold(k);
        lemma_low_bits_extend(p / 2, (k - 1) as nat, (n - 1) as nat);
        assert(low_bits(p, n) =~= low_bits(p, k) + zero_bits((n - k) as nat));
    }
}

/// Reading digits back gives the number, up to their count.
pub proof fn lemma_bits_value_low_bits(v: nat, n: nat)
    ensures
        bits_value(low_bits(v, n)) == v % pow2(n),
    decreases n,
{
    if n == 0 {
        lemma2_to64();
    } else {
        lemma_pow2_unfold(n);
        lemma_pow2_pos((n - 1) as nat);
        lemma_bits_value_low_bits(v / 2, (n - 1) as nat);
        let s = low_bits(v, n);
        lemma_low_bits_len(v / 2, (n - 1) as nat);
        assert(s.drop_first() =~= low_bits(v / 2, (n - 1) as nat));
        let h = pow2((n - 1) as nat);
        // v % (2h) == v % 2 + 2 * ((v / 2) % h)
        vstd::arithmetic::div_mod::lemma_fundamental_div_mod(v as int, 2);
        vstd::arithmetic::div_mod::lemma_fundamental_div_mod((v / 2) as int, h as int);
        let half = v / 2;
        let low = v % 2;
        let rest = half % h;
        let r = low + 2 * rest;
        let q = half / h;
        assert(v == (2 * h) * q + r) by (nonlinear_arith)
            requires
                v == 2 * half + low,
                half == h * q + rest,
                r == low + 2 * rest,
        ;
        assert(0 <= r < 2 * h);
        vstd::arithmetic::div_mod::lemma_fundamental_div_mod_converse(
            v as int,
            (2 * h) as int,
            q as int,
            r as int,
        );
    }
}

/// A byte string has eight bits to the byte.
pub proof fn lemma_bytes_bits_len(bytes: Seq<u8>)
    ensures
        bytes_bits(bytes).len() == 8 * bytes.len(),
    decreases bytes.len(),
{
    if bytes.len() > 0 {
        lemma_bytes_bits_len(bytes.drop_last());
        lemma_low_bits_len(bytes.last() as nat, 8);
    }
}

/// One more byte adds its eight bits at the end.
pub proof fn lemma_bytes_bits_push(bytes: Seq<u8>, b: u8)
    ensures
        bytes_bits(bytes.push(b)) == bytes_bits(bytes) + low_bits(b as nat, 8),
{
    assert(bytes.push(b).drop_last() =~= bytes);
}

/// The bits of two byte strings in a row are their bits in a row.
pub proof fn lemma_bytes_bits_concat(a: Seq<u8>, b: Seq<u8>)
    ensures
        bytes_bits(a + b) == bytes_bits(a) + bytes_bits(b),
    decreases b.len(),
{
    if b.len() == 0 {
        assert(a + b =~= a);
        assert(bytes_bits(a) + bytes_bits(b) =~= bytes_bits(a));
    } else {
        lemma_bytes_bits_concat(a, b.drop_last());
        assert((a + b).drop_last() =~= a + b.drop_last());
        assert((a + b).last() == b.last());
        assert(bytes_bits(a + b) =~= bytes_bits(a) + bytes_bits(b));
    }
}

/// Packing splits at a byte boundary.
pub proof fn lemma_pack_bits_concat(a: Seq<bool>, b: Seq<bool>)
    requires
        a.len() % 8 == 0,
    ensures
        pack_bits(a + b) == pack_bits(a) + pack_bits(b),
    decreases a.len(),
{
    if a.len() == 0 {
        assert(a + b =~= b);
        assert(pack_bits(a) + pack_bits(b) =~= pack_bits(b));
    } else {
        assert(a.len() >= 8);
        let a2 = a.skip(8);
        lemma_pack_bits_concat(a2, b);
        assert((a + b).take(8) =~= a.take(8));
        if a.len() == 8 {
            assert(a.take(8) =~= a);
            assert(a2 =~= Seq::<bool>::empty());
            assert(pack_bits(a2) =~= Seq::<u8>::empty());
            if b.len() == 0 {
                assert(a + b =~= a);
                assert(pack_bits(a) + pack_bits(b) =~= pack_bits(a));
            } else {
                assert((a + b).skip(8) =~= b);
            }
        } else {
            assert((a + b).skip(8) =~= a2 + b);
            assert(pack_bits(a + b) =~= pack_bits(a) + pack_bits(b));
        }
    }
}

/// A byte is what its eight digits pack into.
pub proof fn lemma_pack_byte(p: nat, k: nat)
    requires
        0 < k <= 8,
        p < pow2(k),
    ensures
        pack_bits(low_bits(p, k)) == seq![p as u8],
        p < 256,
{
    lemma2_to64();
    lemma_low_bits_len(p, k);
    lemma_bits_value_low_bits(p, k);
    if k < 8 {
        vstd::arithmetic::power2::lemma_pow2_strictly_increases(k, 8);
    }
    vstd::arithmetic::div_mod::lemma_small_mod(p, pow2(k));
    assert(p % 256 == p);
}

/// Packing undoes `bytes_bits`.
pub proof fn lemma_pack_bytes_bits(bytes: Seq<u8>)
    ensures
        pack_bits(bytes_bits(bytes)) == bytes,
    decreases bytes.len(),
{
    if bytes.len() == 0 {
    } else {
        let init = bytes.drop_last();
        lemma_pack_bytes_bits(init);
        lemma_bytes_bits_len(init);
        lemma_pack_bits_concat(bytes_bits(init), low_bits(bytes.last() as nat, 8));
        lemma2_to64();
        lemma_pack_byte(bytes.last() as nat, 8);
        assert(init + seq![bytes.last()] =~= bytes);
    }
}

/// Up to eight bits pack into one byte, whose bits are those bits and
/// zeros.
proof fn lemma_pack_short(bits: Seq<bool>)
    requires
        0 < bits.len() <= 8,
    ensures
        bits_value(bits) < 256,
        pack_bits(bits) == seq![bits_value(bits) as u8],
        bytes_bits(seq![bits_value(bits) as u8]) == bits + zero_bits((8 - bits.len()) as nat),
{
    let p = bits_value(bits);
    let k = bits.len();
    lemma_bits_value_bound(bits);
    lemma_low_bits_of_value(bits);
    lemma_pack_byte(p, k);
    lemma_low_bits_extend(p, k, 8);
    lemma_bytes_bits_one(p as u8);
}

/// Zero padding up to the byte boundary adds no byte and changes none.
#[verifier::rlimit(40)]
pub proof fn lemma_pack_pad(bits: Seq<bool>)
    ensures
        pack_bits(pad_to_byte(bits)) == pack_bits(bits),
        pad_to_byte(bits).len() % 8 == 0,
        bytes_bits(pack_bits(bits)) == pad_to_byte(bits),
    decreases bits.len(),
{
    let padded = pad_to_byte(bits);
    if bits.len() == 0 {
        assert(padded =~= bits);
        assert(bytes_bits(pack_bits(bits)) =~= padded);
    } else if bits.len() <= 8 {
        let p = bits_value(bits);
        lemma_pack_short(bits);
        assert(padded =~= bits + zero_bits((8 - bits.len()) as nat));
        assert(padded.len() == 8);
        lemma_pack_short(padded);
        lemma_low_bits_of_value(padded);
        lemma_low_bits_of_value(bits);
        lemma_bits_value_bound(bits);
        lemma_low_bits_extend(p, bits.len(), 8);
        assert(low_bits(p, 8) == padded);
        lemma_bits_value_low_bits(p, 8);
        lemma2_to64();
        assert(bits_value(padded) == p);
    } else {
        let head = bits.take(8);
        let tail = bits.skip(8);
        lemma_pack_pad(tail);
        lemma_pack_short(head);
        let b = bits_value(head) as u8;
        assert(padded.take(8) == head && padded.skip(8) == pad_to_byte(tail)) by {
            assert(padded =~= head + pad_to_byte(tail));
            assert(padded.take(8) =~= head);
            assert(padded.skip(8) =~= pad_to_byte(tail));
        }
        assert(pack_bits(bits) == seq![b] + pack_bits(tail));
        assert(pack_bits(padded) == seq![b] + pack_bits(pad_to_byte(tail)));
        lemma_bytes_bits_concat(seq![b], pack_bits(tail));
        assert(bytes_bits(seq![b]) == head) by {
            assert(head + zero_bits(0) =~= head);
        }
        assert(head + pad_to_byte(tail) =~= padded);
    }
}

/// The number that bits spell is below two to their count.
pub proof fn lemma_bits_value_bound(bits: Seq<bool>)
    ensures
        bits_value(bits) < pow2(bits.len()),
    decreases bits.len(),
{
    if bits.len() == 0 {
        lemma2_to64();
    } else {
        lemma_bits_value_bound(bits.drop_first());
        lemma_pow2_unfold(bits.len());
    }
}

/// The digits of the number that `bits` spell are `bits`.
pub proof fn lemma_low_bits_of_value(bits: Seq<bool>)
    ensures
        low_bits(bits_value(bits), bits.len()) == bits,
    decreases bits.len(),
{
    if bits.len() == 0 {
        assert(low_bits(bits_value(bits), 0) =~= bits);
    } else {
        let rest = bits.drop_first();
        lemma_low_bits_of_value(rest);
        let v = bits_value(bits);
        assert(v / 2 == bits_value(rest));
        assert((v % 2 == 1) == bits[0]);
        assert(low_bits(v, bits.len()) =~= bits);
    }
}

/// At a byte boundary there is nothing to pad.
pub proof fn lemma_pad_aligned(bits: Seq<bool>)
    requires
        bits.len() % 8 == 0,
    ensures
        pad_to_byte(bits) == bits,
{
    assert(pad_to_byte(bits) =~= bits);
}

/// The digits of zero are zeros.
pub proof fn lemma_low_bits_zero(n: nat)
    ensures
        low_bits(0, n) == zero_bits(n),
{
    lemma2_to64();
    lemma_low_bits_extend(0, 0, n);
    assert(low_bits(0, 0) + zero_bits(n) =~= zero_bits(n));
}

/// Overwriting the first of a run of zero bytes that follows `head`.
pub(crate) proof fn lemma_patch_width(
    before: Seq<bool>,
    head: Seq<bool>,
    zeros: nat,
    tail: Seq<bool>,
    byte: Seq<bool>,
)
    requires
        byte.len() == 8,
        zeros >= 1,
        before == head + zero_bits(8 * zeros) + tail,
    ensures
        before.take(head.len() as int) + byte + before.skip((head.len() + 8) as int) == head + byte
            + zero_bits((8 * (zeros - 1)) as nat) + tail,
{
    assert(before.take(head.len() as int) =~= head);
    assert(before.skip((head.len() + 8) as int) =~= zero_bits((8 * (zeros - 1)) as nat) + tail);
    assert(before.take(head.len() as int) + byte + before.skip((head.len() + 8) as int) =~= head + byte
        + zero_bits((8 * (zeros - 1)) as nat) + tail);
}

/// Eight bits to a byte, the last byte begun counts.
pub proof fn lemma_pack_bits_len(bits: Seq<bool>)
    ensures
        pack_bits(bits).len() == (bits.len() + 7) / 8,
    decreases bits.len(),
{
    if bits.len() > 8 {
        lemma_pack_bits_len(bits.skip(8));
    }
}

/// The bits of a prefix of a byte string are a prefix of its bits.
pub proof fn lemma_bytes_bits_take(bytes: Seq<u8>, n: int)
    requires
        0 <= n <= bytes.len(),
    ensures
        bytes_bits(bytes.take(n)) == bytes_bits(bytes).take(8 * n),
{
    lemma_bytes_bits_concat(bytes.take(n), bytes.skip(n));
    assert(bytes.take(n) + bytes.skip(n) =~= bytes);
    lemma_bytes_bits_len(bytes.take(n));
    assert(bytes_bits(bytes).take(8 * n) =~= bytes_bits(bytes.take(n)));
}

/// One byte is eight bits.
pub proof fn lemma_bytes_bits_one(b: u8)
    ensures
        bytes_bits(seq![b]) == low_bits(b as nat, 8),
{
    lemma_bytes_bits_push(Seq::<u8>::empty(), b);
    assert(Seq::<u8>::empty().push(b) =~= seq![b]);
    assert(bytes_bits(Seq::<u8>::empty()) + low_bits(b as nat, 8) =~= low_bits(b as nat, 8));
}

/// A variable-length number of at least 16 takes at most a sixteenth of
/// its value in bytes.
pub proof fn lemma_vlq_len_bound(v: nat)
    ensures
        vlq_bytes(v).len() >= 1,
        v >= 16 ==> vlq_bytes(v).len() <= v / 16,
    decreases v,
{
    if v >= 128 {
        lemma_vlq_len_bound(v / 128);
    }
}

/// As many bytes as were asked for.
pub proof fn lemma_le_bytes_len(v: nat, n: nat)
    ensures
        le_bytes(v, n).len() == n,
    decreases n,
{
    if n > 0 {
        lemma_le_bytes_len(v / 256, (n - 1) as nat);
    }
}

/// A number below two to seven times `k` takes at most `k` bytes as a
/// variable-length number.
pub proof fn lemma_vlq_len_at_most(v: nat, k: nat)
    requires
        k >= 1,
        v < pow2(7 * k),
    ensures
        vlq_bytes(v).len() <= k,
    decreases k,
{
    if v >= 128 {
        lemma2_to64();
        if k == 1 {
            assert(false);
        } else {
            vstd::arithmetic::power2::lemma_pow2_adds(7, (7 * (k - 1)) as nat);
            assert(7 + 7 * (k - 1) == 7 * k);
            lemma_vlq_len_at_most(v / 128, (k - 1) as nat);
        }
    }
}

} // verus!
