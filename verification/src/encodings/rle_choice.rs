//! How the state of the hybrid writer stands for the runs that it will
//! have written in the end, whatever values follow.

use vstd::prelude::*;
use crate::encodings::rle_format::{
    all_equal, closed, hybrid_runs, run_length, Run, MAX_GROUPS_PER_BIT_PACKED_RUN,
    MAX_REPEAT_COUNT,
};

verus! {

/// The runs that are still to come when `rest` follows: those of a
/// repeated run of `count` times `value` that is under way, or else those
/// of the values `buffered` behind the open bit-packed run `open`.
pub open spec fn continuation(
    repeating: bool,
    count: nat,
    value: u64,
    buffered: Seq<u64>,
    open: Seq<u64>,
    rest: Seq<u64>,
) -> Seq<Run> {
    if repeating {
        let more = run_length(rest, value, (MAX_REPEAT_COUNT - count) as nat);
        seq![Run::Repeated { count: count + more, value }] + hybrid_runs(
            rest.skip(more as int),
            Seq::empty(),
        )
    } else {
        hybrid_runs(buffered + rest, open)
    }
}

/// The runs of `values` followed by `rest`.
pub open spec fn total_runs(values: Seq<u64>, rest: Seq<u64>) -> Seq<Run> {
    hybrid_runs(values + rest, Seq::empty())
}

/// Whether the runs `runs`, followed by what is still to come, are the
/// runs of all values, whatever values follow.
pub open spec fn exact(
    values: Seq<u64>,
    runs: Seq<Run>,
    repeating: bool,
    count: nat,
    value: u64,
    buffered: Seq<u64>,
    open: Seq<u64>,
) -> bool {
    forall|rest: Seq<u64>| #[trigger]
        total_runs(values, rest) == runs + continuation(
            repeating,
            count,
            value,
            buffered,
            open,
            rest,
        )
}

/// Before the first value.
pub(crate) proof fn lemma_exact_start(value: u64, count: nat)
    ensures
        exact(
            Seq::empty(),
            Seq::empty(),
            false,
            count,
            value,
            Seq::empty(),
            Seq::empty(),
        ),
{
    let none = Seq::<u64>::empty();
    assert forall|rest: Seq<u64>| #[trigger]
        total_runs(none, rest) == Seq::<Run>::empty() + continuation(
            false,
            count,
            value,
            none,
            none,
            rest,
        ) by {
        assert(Seq::<Run>::empty() + hybrid_runs(none + rest, none) =~= hybrid_runs(
            none + rest,
            none,
        ));
    }
}

/// At the end, what is still to come is what is left to write.
pub(crate) proof fn lemma_exact_end(
    values: Seq<u64>,
    runs: Seq<Run>,
    repeating: bool,
    count: nat,
    value: u64,
    buffered: Seq<u64>,
    open: Seq<u64>,
)
    requires
        exact(values, runs, repeating, count, value, buffered, open),
    ensures
        hybrid_runs(values, Seq::empty()) == runs + continuation(
            repeating,
            count,
            value,
            buffered,
            open,
            Seq::empty(),
        ),
{
    let none = Seq::<u64>::empty();
    assert(values + none =~= values);
    assert(total_runs(values, none) == hybrid_runs(values, none));
}

/// One more value is buffered.
pub(crate) proof fn lemma_exact_buffer(
    values: Seq<u64>,
    runs: Seq<Run>,
    count: nat,
    value: u64,
    buffered: Seq<u64>,
    open: Seq<u64>,
    v: u64,
    count2: nat,
)
    requires
        exact(values, runs, false, count, value, buffered, open),
    ensures
        exact(values.push(v), runs, false, count2, v, buffered.push(v), open),
{
    assert forall|rest: Seq<u64>| #[trigger]
        total_runs(values.push(v), rest) == runs + continuation(
            false,
            count2,
            v,
            buffered.push(v),
            open,
            rest,
        ) by {
        let longer = seq![v] + rest;
        assert(values + longer =~= values.push(v) + rest);
        assert(buffered + longer =~= buffered.push(v) + rest);
        assert(total_runs(values, longer) == runs + continuation(
            false,
            count,
            value,
            buffered,
            open,
            longer,
        ));
    }
}

/// The value of a repeated run comes once more.
pub(crate) proof fn lemma_exact_repeat_more(values: Seq<u64>, runs: Seq<Run>, count: nat, value: u64)
    requires
        exact(values, runs, true, count, value, Seq::empty(), Seq::empty()),
        count < MAX_REPEAT_COUNT,
    ensures
        exact(values.push(value), runs, true, count + 1, value, Seq::empty(), Seq::empty()),
{
    let none = Seq::<u64>::empty();
    assert forall|rest: Seq<u64>| #[trigger]
        total_runs(values.push(value), rest) == runs + continuation(
            true,
            count + 1,
            value,
            none,
            none,
            rest,
        ) by {
        let longer = seq![value] + rest;
        assert(values + longer =~= values.push(value) + rest);
        assert(total_runs(values, longer) == runs + continuation(
            true,
            count,
            value,
            none,
            none,
            longer,
        ));
        assert(longer.drop_first() =~= rest);
        let more = run_length(rest, value, (MAX_REPEAT_COUNT - count - 1) as nat);
        assert(run_length(longer, value, (MAX_REPEAT_COUNT - count) as nat) == 1 + more);
        crate::encodings::rle_format::lemma_run_length(
            rest,
            value,
            (MAX_REPEAT_COUNT - count - 1) as nat,
        );
        assert(longer.skip((1 + more) as int) =~= rest.skip(more as int));
    }
}

/// A repeated run ends: another value comes, or the run is as long as a
/// run gets.
pub(crate) proof fn lemma_exact_repeat_ends(
    values: Seq<u64>,
    runs: Seq<Run>,
    count: nat,
    value: u64,
    v: u64,
)
    requires
        exact(values, runs, true, count, value, Seq::empty(), Seq::empty()),
        count <= MAX_REPEAT_COUNT,
        v != value || count == MAX_REPEAT_COUNT,
    ensures
        exact(
            values.push(v),
            runs.push(Run::Repeated { count, value }),
            false,
            1,
            v,
            seq![v],
            Seq::empty(),
        ),
{
    let none = Seq::<u64>::empty();
    let run = Run::Repeated { count, value };
    assert forall|rest: Seq<u64>| #[trigger]
        total_runs(values.push(v), rest) == runs.push(run) + continuation(
            false,
            1,
            v,
            seq![v],
            none,
            rest,
        ) by {
        let longer = seq![v] + rest;
        assert(values + longer =~= values.push(v) + rest);
        assert(total_runs(values, longer) == runs + continuation(
            true,
            count,
            value,
            none,
            none,
            longer,
        ));
        assert(run_length(longer, value, (MAX_REPEAT_COUNT - count) as nat) == 0);
        assert(longer.skip(0) =~= longer);
        assert(runs + (seq![run] + hybrid_runs(longer, none)) =~= runs.push(run) + hybrid_runs(
            longer,
            none,
        ));
    }
}

/// Eight equal values are buffered: a repeated run starts, and the open
/// bit-packed run ends.
pub(crate) proof fn lemma_exact_group_repeats(
    values: Seq<u64>,
    runs: Seq<Run>,
    count: nat,
    value: u64,
    buffered: Seq<u64>,
    open: Seq<u64>,
)
    requires
        exact(values, runs, false, count, value, buffered, open),
        buffered.len() == 8,
        all_equal(buffered),
        buffered[0] == value,
    ensures
        exact(values, runs + closed(open), true, 8, value, Seq::empty(), Seq::empty()),
{
    let none = Seq::<u64>::empty();
    assert forall|rest: Seq<u64>| #[trigger]
        total_runs(values, rest) == (runs + closed(open)) + continuation(
            true,
            8,
            value,
            none,
            none,
            rest,
        ) by {
        assert(total_runs(values, rest) == runs + continuation(
            false,
            count,
            value,
            buffered,
            open,
            rest,
        ));
        let all = buffered + rest;
        assert(all.take(8) =~= buffered);
        assert(all.skip(8) =~= rest);
        let more = run_length(rest, value, (MAX_REPEAT_COUNT - 8) as nat);
        crate::encodings::rle_format::lemma_run_length(
            rest,
            value,
            (MAX_REPEAT_COUNT - 8) as nat,
        );
        assert(all.skip((8 + more) as int) =~= rest.skip(more as int));
        let run = Run::Repeated { count: 8 + more, value };
        let after = hybrid_runs(rest.skip(more as int), none);
        assert(hybrid_runs(all, open) == closed(open) + seq![run] + after);
        assert(runs + (closed(open) + seq![run] + after) =~= (runs + closed(open)) + (seq![run]
            + after));
    }
}

/// Eight values that are not all equal are buffered: they join the open
/// bit-packed run, which ends if it is full.
pub(crate) proof fn lemma_exact_group_joins(
    values: Seq<u64>,
    runs: Seq<Run>,
    count: nat,
    value: u64,
    buffered: Seq<u64>,
    open: Seq<u64>,
)
    requires
        exact(values, runs, false, count, value, buffered, open),
        buffered.len() == 8,
        !all_equal(buffered),
    ensures
        (open + buffered).len() / 8 >= MAX_GROUPS_PER_BIT_PACKED_RUN ==> exact(
            values,
            runs.push(Run::Packed { values: open + buffered }),
            false,
            0,
            value,
            Seq::empty(),
            Seq::empty(),
        ),
        (open + buffered).len() / 8 < MAX_GROUPS_PER_BIT_PACKED_RUN ==> exact(
            values,
            runs,
            false,
            0,
            value,
            Seq::empty(),
            open + buffered,
        ),
{
    let none = Seq::<u64>::empty();
    let joined = open + buffered;
    let run = Run::Packed { values: joined };
    assert forall|rest: Seq<u64>|
        (joined.len() / 8 >= MAX_GROUPS_PER_BIT_PACKED_RUN ==> #[trigger] total_runs(values, rest)
            == runs.push(run) + continuation(false, 0, value, none, none, rest)) && (joined.len()
            / 8 < MAX_GROUPS_PER_BIT_PACKED_RUN ==> total_runs(values, rest) == runs
            + continuation(false, 0, value, none, joined, rest)) by {
        assert(total_runs(values, rest) == runs + continuation(
            false,
            count,
            value,
            buffered,
            open,
            rest,
        ));
        let all = buffered + rest;
        assert(all.take(8) =~= buffered);
        assert(all.skip(8) =~= rest);
        assert(none + rest =~= rest);
        if joined.len() / 8 >= MAX_GROUPS_PER_BIT_PACKED_RUN {
            assert(hybrid_runs(all, open) == seq![run] + hybrid_runs(rest, none));
            assert(runs + (seq![run] + hybrid_runs(rest, none)) =~= runs.push(run) + hybrid_runs(
                rest,
                none,
            ));
        } else {
            assert(hybrid_runs(all, open) == hybrid_runs(rest, joined));
        }
    }
}

} // verus!
