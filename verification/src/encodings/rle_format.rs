//! The run-length and bit-packed hybrid, as a format.
//!
//! A stream is a sequence of runs. A repeated run is a header, twice the
//! count, as a variable-length number and then the value in as many whole
//! bytes as the bit width needs. A bit-packed run is one header byte,
//! twice the number of groups plus one, and then the groups: eight values
//! each, every value at the bit width, least significant bit first.

use vstd::prelude::*;
use crate::util::bit_util::ceil_div;
use crate::util::bits::{
    bytes_bits, le_bytes, lemma_bytes_bits_len, lemma_low_bits_len, lemma_pack_pad,
    lemma_pad_aligned, low_bits, pack_bits, vlq_bytes,
};

verus! {

/// The longest repeated run that is written as one.
pub const MAX_REPEAT_COUNT: usize = 0x7fff_ffff;

/// The most groups of eight that one bit-packed run holds.
pub const MAX_GROUPS_PER_BIT_PACKED_RUN: usize = 63;

/// One run of a hybrid stream.
pub enum Run {
    /// `count` times the same value.
    Repeated { count: nat, value: u64 },
    /// Values one by one, a multiple of eight of them.
    Packed { values: Seq<u64> },
}

/// `n` times `v`.
pub open spec fn repeat_values(v: u64, n: nat) -> Seq<u64> {
    Seq::new(n, |i: int| v)
}

/// Each of `values` at `width` bits, one after the other.
pub open spec fn packed_values(values: Seq<u64>, width: nat) -> Seq<bool>
    decreases values.len(),
{
    if values.len() == 0 {
        Seq::empty()
    } else {
        packed_values(values.drop_last(), width) + low_bits(values.last() as nat, width)
    }
}

/// Whether a run can be written: a repeated run has a count of at least
/// one whose double fits the header; a bit-packed run has between 1 and
/// 63 groups of eight.
pub open spec fn valid_run(run: Run) -> bool {
    match run {
        Run::Repeated { count, value } => 1 <= count <= 0x7fff_ffff,
        Run::Packed { values } => values.len() % 8 == 0 && 1 <= values.len() / 8 <= 63,
    }
}

/// The values that a run stands for.
pub open spec fn run_values(run: Run) -> Seq<u64> {
    match run {
        Run::Repeated { count, value } => repeat_values(value, count),
        Run::Packed { values } => values,
    }
}

/// The bits of a run at bit width `width`.
pub open spec fn run_bits(run: Run, width: nat) -> Seq<bool> {
    match run {
        Run::Repeated { count, value } => bytes_bits(vlq_bytes(2 * count)) + bytes_bits(
            le_bytes(value as nat, ceil_div(width as int, 8) as nat),
        ),
        Run::Packed { values } => bytes_bits(seq![(2 * (values.len() / 8) + 1) as u8])
            + packed_values(values, width),
    }
}

/// Whether every run can be written.
pub open spec fn valid_runs(runs: Seq<Run>) -> bool {
    forall|i: int| 0 <= i < runs.len() ==> valid_run(#[trigger] runs[i])
}

/// The values that the runs stand for, in order.
pub open spec fn runs_values(runs: Seq<Run>) -> Seq<u64>
    decreases runs.len(),
{
    if runs.len() == 0 {
        Seq::empty()
    } else {
        runs_values(runs.drop_last()) + run_values(runs.last())
    }
}

/// The bits of the runs, in order.
pub open spec fn runs_bits(runs: Seq<Run>, width: nat) -> Seq<bool>
    decreases runs.len(),
{
    if runs.len() == 0 {
        Seq::empty()
    } else {
        runs_bits(runs.drop_last(), width) + run_bits(runs.last(), width)
    }
}

/// Whether `bits` is a hybrid stream at `width` that stands for `values`
/// followed by fewer than eight zeros, which fill a last group.
pub open spec fn hybrid_encodes(bits: Seq<bool>, width: nat, values: Seq<u64>) -> bool {
    exists|runs: Seq<Run>, padding: nat|
        #![auto]
        valid_runs(runs) && runs_bits(runs, width) == bits && padding < 8 && runs_values(runs)
            == values + repeat_values(0, padding)
}

/// Values packed at a width take that many bits each.
pub proof fn lemma_packed_values_len(values: Seq<u64>, width: nat)
    ensures
        packed_values(values, width).len() == values.len() * width,
    decreases values.len(),
{
    if values.len() > 0 {
        lemma_packed_values_len(values.drop_last(), width);
        lemma_low_bits_len(values.last() as nat, width);
        assert(values.len() * width == (values.len() - 1) * width + width) by (nonlinear_arith);
    } else {
        assert(values.len() * width == 0) by (nonlinear_arith)
            requires
                values.len() == 0,
        ;
    }
}

/// Packing values in a row is packing each part in turn.
pub proof fn lemma_packed_values_concat(a: Seq<u64>, b: Seq<u64>, width: nat)
    ensures
        packed_values(a + b, width) == packed_values(a, width) + packed_values(b, width),
    decreases b.len(),
{
    if b.len() == 0 {
        assert(a + b =~= a);
        assert(packed_values(a, width) + packed_values(b, width) =~= packed_values(a, width));
    } else {
        lemma_packed_values_concat(a, b.drop_last(), width);
        assert((a + b).drop_last() =~= a + b.drop_last());
        assert(packed_values(a + b, width) =~= packed_values(a, width) + packed_values(b, width));
    }
}

/// Every run ends at a byte boundary.
pub proof fn lemma_run_bits_aligned(run: Run, width: nat)
    requires
        valid_run(run),
    ensures
        run_bits(run, width).len() % 8 == 0,
{
    match run {
        Run::Repeated { count, value } => {
            lemma_bytes_bits_len(vlq_bytes(2 * count));
            lemma_bytes_bits_len(le_bytes(value as nat, ceil_div(width as int, 8) as nat));
        },
        Run::Packed { values } => {
            lemma_bytes_bits_len(seq![(2 * (values.len() / 8) + 1) as u8]);
            lemma_packed_values_len(values, width);
            let g = values.len() / 8;
            assert(values.len() * width == 8 * (g * width)) by (nonlinear_arith)
                requires
                    values.len() == 8 * g,
            ;
        },
    }
}

/// Runs end at a byte boundary.
pub proof fn lemma_runs_bits_aligned(runs: Seq<Run>, width: nat)
    requires
        valid_runs(runs),
    ensures
        runs_bits(runs, width).len() % 8 == 0,
    decreases runs.len(),
{
    if runs.len() > 0 {
        lemma_runs_bits_aligned(runs.drop_last(), width);
        lemma_run_bits_aligned(runs.last(), width);
    }
}

/// One more run adds its bits and its values at the end.
pub proof fn lemma_runs_push(runs: Seq<Run>, run: Run, width: nat)
    requires
        valid_runs(runs),
        valid_run(run),
    ensures
        valid_runs(runs.push(run)),
        runs_bits(runs.push(run), width) == runs_bits(runs, width) + run_bits(run, width),
        runs_values(runs.push(run)) == runs_values(runs) + run_values(run),
{
    assert(runs.push(run).drop_last() =~= runs);
}

/// Whether `bytes` is a hybrid stream at `width` that stands for `values`
/// followed by fewer than eight zeros.
pub open spec fn is_hybrid_stream(bytes: Seq<u8>, width: nat, values: Seq<u64>) -> bool {
    hybrid_encodes(bytes_bits(bytes), width, values)
}

// ----------------------------------------------------------------------
// Which runs the writer chooses

/// Whether all of `s` are the same value.
pub open spec fn all_equal(s: Seq<u64>) -> bool {
    forall|i: int| 0 <= i < s.len() ==> #[trigger] s[i] == s[0]
}

/// How many values in front of `values` are `v`, counted up to `cap`.
pub open spec fn run_length(values: Seq<u64>, v: u64, cap: nat) -> nat
    decreases values.len(),
{
    if cap == 0 || values.len() == 0 || values[0] != v {
        0
    } else {
        1 + run_length(values.drop_first(), v, (cap - 1) as nat)
    }
}

/// The bit-packed run of the values `open`, if there are any.
pub open spec fn closed(open: Seq<u64>) -> Seq<Run> {
    if open.len() == 0 {
        Seq::empty()
    } else {
        seq![Run::Packed { values: open }]
    }
}

/// The runs that stand for `values`, behind a bit-packed run that is
/// open and holds `open` so far.
///
/// The values are taken eight at a time. Eight equal values start a
/// repeated run, which goes on for as long as the same value follows, up
/// to the longest count; a bit-packed run that is open ends before it.
/// Any other eight values join the bit-packed run, which ends at 63
/// groups. Fewer than eight values at the end are a repeated run if they
/// are equal and no bit-packed run is open; else they join the
/// bit-packed run, with zeros to make them eight.
pub open spec fn hybrid_runs(values: Seq<u64>, open: Seq<u64>) -> Seq<Run>
    decreases values.len(),
{
    if values.len() == 0 {
        closed(open)
    } else if values.len() < 8 {
        if open.len() == 0 && all_equal(values) {
            seq![Run::Repeated { count: values.len(), value: values[0] }]
        } else {
            closed(open + values + repeat_values(0, (8 - values.len()) as nat))
        }
    } else if all_equal(values.take(8)) {
        let more = run_length(values.skip(8), values[0], (MAX_REPEAT_COUNT - 8) as nat);
        proof {
            lemma_run_length(values.skip(8), values[0], (MAX_REPEAT_COUNT - 8) as nat);
        }
        closed(open) + seq![Run::Repeated { count: 8 + more, value: values[0] }] + hybrid_runs(
            values.skip((8 + more) as int),
            Seq::empty(),
        )
    } else {
        let joined = open + values.take(8);
        if joined.len() / 8 >= MAX_GROUPS_PER_BIT_PACKED_RUN {
            seq![Run::Packed { values: joined }] + hybrid_runs(values.skip(8), Seq::empty())
        } else {
            hybrid_runs(values.skip(8), joined)
        }
    }
}

/// The bytes of the hybrid stream of `values` at `width`.
pub open spec fn hybrid_bytes(values: Seq<u64>, width: nat) -> Seq<u8> {
    pack_bits(runs_bits(hybrid_runs(values, Seq::empty()), width))
}

/// A run length is within the cap and the number of values, and the
/// values that it counts are all the value asked for.
pub proof fn lemma_run_length(values: Seq<u64>, v: u64, cap: nat)
    ensures
        run_length(values, v, cap) <= cap,
        run_length(values, v, cap) <= values.len(),
        values.take(run_length(values, v, cap) as int) == repeat_values(
            v,
            run_length(values, v, cap),
        ),
    decreases values.len(),
{
    let n = run_length(values, v, cap);
    if cap == 0 || values.len() == 0 || values[0] != v {
        assert(values.take(0) =~= repeat_values(v, 0));
    } else {
        let rest = values.drop_first();
        lemma_run_length(rest, v, (cap - 1) as nat);
        let m = run_length(rest, v, (cap - 1) as nat);
        assert(values.take(n as int) =~= repeat_values(v, n)) by {
            assert forall|i: int| 0 <= i < n implies values.take(n as int)[i] == v by {
                if i > 0 {
                    assert(rest.take(m as int)[i - 1] == v);
                }
            }
        }
    }
}

/// The values of runs in a row are their values in a row.
pub proof fn lemma_runs_values_concat(a: Seq<Run>, b: Seq<Run>)
    ensures
        runs_values(a + b) == runs_values(a) + runs_values(b),
    decreases b.len(),
{
    if b.len() == 0 {
        assert(a + b =~= a);
        assert(runs_values(a) + runs_values(b) =~= runs_values(a));
    } else {
        lemma_runs_values_concat(a, b.drop_last());
        assert((a + b).drop_last() =~= a + b.drop_last());
        assert(runs_values(a + b) =~= runs_values(a) + runs_values(b));
    }
}

/// A single run has the values and the bits of that run.
pub proof fn lemma_runs_one(run: Run, width: nat)
    ensures
        runs_values(seq![run]) == run_values(run),
        runs_bits(seq![run], width) == run_bits(run, width),
        valid_run(run) ==> valid_runs(seq![run]),
{
    let none = Seq::<Run>::empty();
    assert(seq![run].drop_last() =~= none);
    assert(runs_values(none) =~= Seq::<u64>::empty());
    assert(runs_bits(none, width) =~= Seq::<bool>::empty());
    assert(runs_values(seq![run]) =~= run_values(run));
    assert(runs_bits(seq![run], width) =~= run_bits(run, width));
}

/// The runs that the writer chooses can be written, and they stand for
/// the values, in order, and for fewer than eight zeros behind them.
pub proof fn lemma_hybrid_runs(values: Seq<u64>, open: Seq<u64>)
    requires
        open.len() % 8 == 0,
        open.len() / 8 < MAX_GROUPS_PER_BIT_PACKED_RUN,
    ensures
        valid_runs(hybrid_runs(values, open)),
        exists|padding: nat|
            padding < 8 && #[trigger] runs_values(hybrid_runs(values, open)) == open + values
                + repeat_values(0, padding),
    decreases values.len(),
{
    let runs = hybrid_runs(values, open);
    let none = Seq::<u64>::empty();
    if open.len() > 0 {
        lemma_runs_one(Run::Packed { values: open }, 0);
    }
    if values.len() == 0 {
        assert(runs_values(runs) =~= open + values + repeat_values(0, 0));
    } else if values.len() < 8 {
        if open.len() == 0 && all_equal(values) {
            let run = Run::Repeated { count: values.len(), value: values[0] };
            lemma_runs_one(run, 0);
            assert(run_values(run) =~= values);
            assert(runs_values(runs) =~= open + values + repeat_values(0, 0));
        } else {
            let padding = (8 - values.len()) as nat;
            let all = open + values + repeat_values(0, padding);
            lemma_runs_one(Run::Packed { values: all }, 0);
            assert(runs_values(runs) == open + values + repeat_values(0, padding));
        }
    } else if all_equal(values.take(8)) {
        let v = values[0];
        let tail = values.skip(8);
        let more = run_length(tail, v, (MAX_REPEAT_COUNT - 8) as nat);
        lemma_run_length(tail, v, (MAX_REPEAT_COUNT - 8) as nat);
        let run = Run::Repeated { count: 8 + more, value: v };
        let rest = values.skip((8 + more) as int);
        lemma_hybrid_runs(rest, none);
        lemma_runs_one(run, 0);
        let after = hybrid_runs(rest, none);
        let padding = choose|padding: nat|
            padding < 8 && #[trigger] runs_values(after) == none + rest + repeat_values(0, padding);
        lemma_runs_values_concat(closed(open) + seq![run], after);
        lemma_runs_values_concat(closed(open), seq![run]);
        assert(values.take((8 + more) as int) =~= repeat_values(v, 8 + more)) by {
            assert forall|i: int| 0 <= i < 8 + more implies values[i] == v by {
                if i < 8 {
                    assert(values.take(8)[i] == values.take(8)[0]);
                } else {
                    assert(tail.take(more as int)[i - 8] == v);
                }
            }
        }
        assert(values =~= values.take((8 + more) as int) + rest);
        assert(runs_values(closed(open)) =~= open);
        assert(runs_values(runs) =~= open + values + repeat_values(0, padding));
        assert(valid_runs(runs));
    } else {
        let joined = open + values.take(8);
        let rest = values.skip(8);
        assert(values =~= values.take(8) + rest);
        if joined.len() / 8 >= MAX_GROUPS_PER_BIT_PACKED_RUN {
            lemma_hybrid_runs(rest, none);
            let run = Run::Packed { values: joined };
            lemma_runs_one(run, 0);
            let after = hybrid_runs(rest, none);
            let padding = choose|padding: nat|
                padding < 8 && #[trigger] runs_values(after) == none + rest + repeat_values(
                    0,
                    padding,
                );
            lemma_runs_values_concat(seq![run], after);
            assert(runs_values(runs) =~= open + values + repeat_values(0, padding));
            assert(valid_runs(runs));
        } else {
            lemma_hybrid_runs(rest, joined);
            let padding = choose|padding: nat|
                padding < 8 && #[trigger] runs_values(runs) == joined + rest + repeat_values(
                    0,
                    padding,
                );
            assert(runs_values(runs) =~= open + values + repeat_values(0, padding));
        }
    }
}

/// The stream of `values` is a hybrid stream that stands for `values`.
pub proof fn lemma_hybrid_bytes_decode(values: Seq<u64>, width: nat)
    ensures
        is_hybrid_stream(hybrid_bytes(values, width), width, values),
{
    let runs = hybrid_runs(values, Seq::empty());
    lemma_hybrid_runs(values, Seq::empty());
    lemma_runs_bits_aligned(runs, width);
    let bits = runs_bits(runs, width);
    lemma_pack_pad(bits);
    lemma_pad_aligned(bits);
    let padding = choose|padding: nat|
        padding < 8 && #[trigger] runs_values(runs) == Seq::<u64>::empty() + values
            + repeat_values(0, padding);
    assert(Seq::<u64>::empty() + values =~= values);
    assert(valid_runs(runs) && runs_bits(runs, width) == bits && padding < 8 && runs_values(runs)
        == values + repeat_values(0, padding));
}

} // verus!
