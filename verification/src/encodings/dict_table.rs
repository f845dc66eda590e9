//! The hash table of the dictionary encoder: open addressing with linear
//! probing over a table of dictionary indices.

use vstd::prelude::*;
use vstd::set_lib::{lemma_int_range, lemma_len_subset, lemma_map_size, set_int_range};
use crate::encodings::delta_byte_array::views;
use crate::util::hash_util::{hash, hash_spec};

verus! {

/// The mark of a slot that holds no index.
pub const HASH_SLOT_EMPTY: i32 = -1;

/// The slot that lies `step` slots behind `home`, around the end of a
/// table of `size` slots.
pub open spec fn slot_at(home: int, step: int, size: int) -> int {
    if home + step >= size {
        home + step - size
    } else {
        home + step
    }
}

/// The slot at which the search for `value` starts.
pub open spec fn home_of(value: Seq<u8>, mask: u32) -> int {
    (hash_spec(value, 0) & mask) as int
}

/// The home of a value is a slot of the table.
pub(crate) proof fn lemma_home_in_range(value: Seq<u8>, mask: u32)
    ensures
        0 <= home_of(value, mask) <= mask,
{
    let h = hash_spec(value, 0);
    assert(h & mask <= mask) by (bit_vector);
}

/// The slot that holds index `i`, given how far it lies from its home.
pub open spec fn slot_of(uniques: Seq<Seq<u8>>, mask: u32, probe: Seq<int>, i: int) -> int {
    slot_at(home_of(uniques[i], mask), probe[i], mask + 1)
}

/// No value occurs twice.
pub open spec fn distinct(uniques: Seq<Seq<u8>>) -> bool {
    forall|a: int, b: int| 0 <= a < b < uniques.len() ==> uniques[a] != uniques[b]
}

/// What holds of slot `p`: it is empty, or it holds one of the first
/// `count` indices, and that index belongs there.
pub open spec fn slot_ok(
    slots: Seq<i32>,
    uniques: Seq<Seq<u8>>,
    mask: u32,
    probe: Seq<int>,
    count: int,
    p: int,
) -> bool {
    slots[p] == -1 || (0 <= slots[p] < count && slot_of(uniques, mask, probe, slots[p] as int) == p)
}

/// What holds of index `i`: the slot where it belongs holds it.
pub open spec fn index_ok(
    slots: Seq<i32>,
    uniques: Seq<Seq<u8>>,
    mask: u32,
    probe: Seq<int>,
    i: int,
) -> bool {
    0 <= probe[i] < slots.len() && slots[slot_of(uniques, mask, probe, i)] == i
}

/// Whether the slot that lies `s` slots behind the home of value `i` is
/// taken.
pub open spec fn taken(slots: Seq<i32>, uniques: Seq<Seq<u8>>, mask: u32, i: int, s: int) -> bool {
    slots[slot_at(home_of(uniques[i], mask), s, slots.len() as int)] != -1
}

/// Whether every slot is empty or holds an index that belongs there.
pub open spec fn slots_ok(
    slots: Seq<i32>,
    uniques: Seq<Seq<u8>>,
    mask: u32,
    probe: Seq<int>,
    count: int,
) -> bool {
    forall|p: int| 0 <= p < slots.len() ==> #[trigger] slot_ok(slots, uniques, mask, probe, count, p)
}

/// Whether each of the first `count` indices is held where it belongs.
pub open spec fn indices_ok(
    slots: Seq<i32>,
    uniques: Seq<Seq<u8>>,
    mask: u32,
    probe: Seq<int>,
    count: int,
) -> bool {
    forall|i: int| 0 <= i < count ==> #[trigger] index_ok(slots, uniques, mask, probe, i)
}

/// Whether no slot between the home of a value and the slot of its index
/// is empty.
pub open spec fn gaps_ok(
    slots: Seq<i32>,
    uniques: Seq<Seq<u8>>,
    mask: u32,
    probe: Seq<int>,
    count: int,
) -> bool {
    forall|i: int, s: int|
        0 <= i < count && 0 <= s < probe[i] ==> #[trigger] taken(slots, uniques, mask, i, s)
}

/// Whether the table holds exactly the first `count` indices, each where
/// a search for its value finds it: an index lies `probe[i]` slots behind
/// the home of its value, and no slot between is empty.
pub open spec fn table_ok(
    slots: Seq<i32>,
    uniques: Seq<Seq<u8>>,
    mask: u32,
    probe: Seq<int>,
    count: int,
) -> bool {
    &&& slots.len() == mask + 1
    &&& probe.len() == uniques.len()
    &&& 0 <= count <= uniques.len()
    &&& slots_ok(slots, uniques, mask, probe, count)
    &&& indices_ok(slots, uniques, mask, probe, count)
    &&& gaps_ok(slots, uniques, mask, probe, count)
}

/// A table with fewer indices than slots has an empty slot.
pub(crate) proof fn lemma_has_empty_slot(
    slots: Seq<i32>,
    uniques: Seq<Seq<u8>>,
    mask: u32,
    probe: Seq<int>,
    count: int,
)
    requires
        table_ok(slots, uniques, mask, probe, count),
        count < slots.len(),
    ensures
        exists|p: int| 0 <= p < slots.len() && slots[p] == -1,
{
    let n = slots.len() as int;
    if forall|p: int| 0 <= p < n ==> slots[p] != -1 {
        let all = set_int_range(0, n);
        let f = |p: int| slots[p] as int;
        let image = all.map(f);
        lemma_int_range(0, n);
        lemma_int_range(0, count);
        assert(vstd::relations::injective_on(f, all)) by {
            assert forall|p: int, q: int|
                all.contains(p) && all.contains(q) && #[trigger] f(p) == #[trigger] f(q) implies p
                == q by {
                assert(slot_ok(slots, uniques, mask, probe, count, p));
                assert(slot_ok(slots, uniques, mask, probe, count, q));
            }
        }
        lemma_map_size(all, image, f);
        assert(image.subset_of(set_int_range(0, count))) by {
            assert forall|v: int| image.contains(v) implies set_int_range(0, count).contains(v) by {
                let p = choose|p: int| all.contains(p) && f(p) == v;
                assert(slot_ok(slots, uniques, mask, probe, count, p));
            }
        }
        lemma_len_subset(image, set_int_range(0, count));
        assert(false);
    }
}

/// Putting index `count` into the empty slot that the search for its
/// value ends at.
pub(crate) proof fn lemma_insert(
    slots: Seq<i32>,
    uniques: Seq<Seq<u8>>,
    mask: u32,
    probe: Seq<int>,
    count: int,
    j: int,
    t: int,
)
    requires
        table_ok(slots, uniques, mask, probe, count),
        count < uniques.len(),
        count <= i32::MAX,
        0 <= t < slots.len(),
        0 <= j < slots.len(),
        j == slot_at(home_of(uniques[count], mask), t, slots.len() as int),
        slots[j] == -1,
        forall|s: int| 0 <= s < t ==> #[trigger] taken(slots, uniques, mask, count, s),
    ensures
        table_ok(slots.update(j, count as i32), uniques, mask, probe.update(count, t), count + 1),
{
    lemma_insert_slots(slots, uniques, mask, probe, count, j, t);
    lemma_insert_indices(slots, uniques, mask, probe, count, j, t);
    lemma_insert_gaps(slots, uniques, mask, probe, count, j, t);
}

proof fn lemma_insert_slots(
    slots: Seq<i32>,
    uniques: Seq<Seq<u8>>,
    mask: u32,
    probe: Seq<int>,
    count: int,
    j: int,
    t: int,
)
    requires
        slots.len() == mask + 1,
        probe.len() == uniques.len(),
        0 <= count < uniques.len(),
        count <= i32::MAX,
        0 <= j < slots.len(),
        j == slot_at(home_of(uniques[count], mask), t, slots.len() as int),
        slots_ok(slots, uniques, mask, probe, count),
    ensures
        slots_ok(slots.update(j, count as i32), uniques, mask, probe.update(count, t), count + 1),
{
    let slots2 = slots.update(j, count as i32);
    let probe2 = probe.update(count, t);
    assert forall|p: int| 0 <= p < slots2.len() implies #[trigger] slot_ok(
        slots2,
        uniques,
        mask,
        probe2,
        count + 1,
        p,
    ) by {
        assert(slot_ok(slots, uniques, mask, probe, count, p));
        lemma_insert_slot(slots, uniques, mask, probe, count, j, t, p);
    }
}

proof fn lemma_insert_indices(
    slots: Seq<i32>,
    uniques: Seq<Seq<u8>>,
    mask: u32,
    probe: Seq<int>,
    count: int,
    j: int,
    t: int,
)
    requires
        slots.len() == mask + 1,
        probe.len() == uniques.len(),
        0 <= count < uniques.len(),
        count <= i32::MAX,
        0 <= t < slots.len(),
        0 <= j < slots.len(),
        j == slot_at(home_of(uniques[count], mask), t, slots.len() as int),
        slots[j] == -1,
        indices_ok(slots, uniques, mask, probe, count),
    ensures
        indices_ok(slots.update(j, count as i32), uniques, mask, probe.update(count, t), count + 1),
{
    let slots2 = slots.update(j, count as i32);
    let probe2 = probe.update(count, t);
    assert forall|i: int| 0 <= i < count + 1 implies #[trigger] index_ok(
        slots2,
        uniques,
        mask,
        probe2,
        i,
    ) by {
        if i < count {
            assert(index_ok(slots, uniques, mask, probe, i));
        }
        lemma_insert_index(slots, uniques, mask, probe, count, j, t, i);
    }
}

proof fn lemma_insert_gaps(
    slots: Seq<i32>,
    uniques: Seq<Seq<u8>>,
    mask: u32,
    probe: Seq<int>,
    count: int,
    j: int,
    t: int,
)
    requires
        slots.len() == mask + 1,
        probe.len() == uniques.len(),
        0 <= count < uniques.len(),
        count <= i32::MAX,
        0 <= t < slots.len(),
        0 <= j < slots.len(),
        indices_ok(slots, uniques, mask, probe, count),
        gaps_ok(slots, uniques, mask, probe, count),
        forall|s: int| 0 <= s < t ==> #[trigger] taken(slots, uniques, mask, count, s),
    ensures
        gaps_ok(slots.update(j, count as i32), uniques, mask, probe.update(count, t), count + 1),
{
    let slots2 = slots.update(j, count as i32);
    let probe2 = probe.update(count, t);
    assert forall|i: int, s: int| 0 <= i < count + 1 && 0 <= s < probe2[i] implies #[trigger] taken(
        slots2,
        uniques,
        mask,
        i,
        s,
    ) by {
        if i < count {
            assert(index_ok(slots, uniques, mask, probe, i));
            assert(probe2[i] == probe[i]);
        }
        assert(taken(slots, uniques, mask, i, s));
        lemma_insert_taken(slots, uniques, mask, probe, count, j, t, i, s);
    }
}

proof fn lemma_insert_slot(
    slots: Seq<i32>,
    uniques: Seq<Seq<u8>>,
    mask: u32,
    probe: Seq<int>,
    count: int,
    j: int,
    t: int,
    p: int,
)
    requires
        slots.len() == mask + 1,
        probe.len() == uniques.len(),
        0 <= count < uniques.len(),
        count <= i32::MAX,
        0 <= j < slots.len(),
        0 <= p < slots.len(),
        j == slot_at(home_of(uniques[count], mask), t, slots.len() as int),
        slot_ok(slots, uniques, mask, probe, count, p),
    ensures
        slot_ok(slots.update(j, count as i32), uniques, mask, probe.update(count, t), count + 1, p),
{
    let probe2 = probe.update(count, t);
    lemma_home_in_range(uniques[count], mask);
    if p == j {
        assert(probe2[count] == t);
    } else if slots[p] != -1 {
        let i = slots[p] as int;
        assert(probe2[i] == probe[i]);
    }
}

proof fn lemma_insert_index(
    slots: Seq<i32>,
    uniques: Seq<Seq<u8>>,
    mask: u32,
    probe: Seq<int>,
    count: int,
    j: int,
    t: int,
    i: int,
)
    requires
        slots.len() == mask + 1,
        probe.len() == uniques.len(),
        0 <= count < uniques.len(),
        count <= i32::MAX,
        0 <= t < slots.len(),
        0 <= j < slots.len(),
        j == slot_at(home_of(uniques[count], mask), t, slots.len() as int),
        slots[j] == -1,
        0 <= i <= count,
        i < count ==> index_ok(slots, uniques, mask, probe, i),
    ensures
        index_ok(slots.update(j, count as i32), uniques, mask, probe.update(count, t), i),
{
    let probe2 = probe.update(count, t);
    lemma_home_in_range(uniques[i], mask);
    if i == count {
        assert(probe2[count] == t);
    } else {
        assert(probe2[i] == probe[i]);
    }
}

proof fn lemma_insert_taken(
    slots: Seq<i32>,
    uniques: Seq<Seq<u8>>,
    mask: u32,
    probe: Seq<int>,
    count: int,
    j: int,
    t: int,
    i: int,
    s: int,
)
    requires
        slots.len() == mask + 1,
        probe.len() == uniques.len(),
        0 <= count < uniques.len(),
        count <= i32::MAX,
        0 <= j < slots.len(),
        0 <= i <= count,
        0 <= s < probe.update(count, t)[i],
        probe.update(count, t)[i] <= slots.len(),
        taken(slots, uniques, mask, i, s),
    ensures
        taken(slots.update(j, count as i32), uniques, mask, i, s),
{
    lemma_home_in_range(uniques[i], mask);
}

/// A table stays in order when a value is added behind those it holds.
pub(crate) proof fn lemma_table_grow(
    slots: Seq<i32>,
    uniques: Seq<Seq<u8>>,
    mask: u32,
    probe: Seq<int>,
    count: int,
    value: Seq<u8>,
)
    requires
        table_ok(slots, uniques, mask, probe, count),
    ensures
        table_ok(slots, uniques.push(value), mask, probe.push(0), count),
{
    let uniques2 = uniques.push(value);
    let probe2 = probe.push(0);
    assert forall|p: int| 0 <= p < slots.len() implies #[trigger] slot_ok(
        slots,
        uniques2,
        mask,
        probe2,
        count,
        p,
    ) by {
        assert(slot_ok(slots, uniques, mask, probe, count, p));
    }
    assert forall|i: int| 0 <= i < count implies #[trigger] index_ok(
        slots,
        uniques2,
        mask,
        probe2,
        i,
    ) by {
        assert(index_ok(slots, uniques, mask, probe, i));
    }
    assert forall|i: int, s: int| 0 <= i < count && 0 <= s < probe2[i] implies #[trigger] taken(
        slots,
        uniques2,
        mask,
        i,
        s,
    ) by {
        assert(taken(slots, uniques, mask, i, s));
    }
}

/// Whether two byte strings are the same.
pub(crate) fn bytes_equal(a: &Vec<u8>, b: &Vec<u8>) -> (r: bool)
    ensures
        r == (a@ == b@),
{
    if a.len() != b.len() {
        return false;
    }
    let n = a.len();
    let mut i: usize = 0;
    while i < n
        invariant
            i <= n,
            n == a@.len(),
            n == b@.len(),
            a@.take(i as int) == b@.take(i as int),
        decreases n - i,
    {
        if a[i] != b[i] {
            return false;
        }
        assert(a@.take(i + 1) =~= a@.take(i as int).push(a@[i as int]));
        assert(b@.take(i + 1) =~= b@.take(i as int).push(b@[i as int]));
        i = i + 1;
    }
    assert(a@.take(n as int) =~= a@);
    assert(b@.take(n as int) =~= b@);
    true
}

/// The slot at which the search for `value` starts.
fn home_slot(value: &Vec<u8>, mask: u32) -> (j: usize)
    ensures
        j == home_of(value@, mask),
        j <= mask,
{
    let h = hash(value.as_slice(), 0);
    proof {
        lemma_home_in_range(value@, mask);
    }
    (h & mask) as usize
}

/// Searches the table for `value`: walks from its home to the first slot
/// that is empty or holds the index of `value`. Returns that slot and how
/// many slots it lies behind the home.
#[verifier::rlimit(40)]
pub(crate) fn find_slot(
    slots: &Vec<i32>,
    uniques: &Vec<Vec<u8>>,
    value: &Vec<u8>,
    mask: u32,
    Ghost(probe): Ghost<Seq<int>>,
    Ghost(count): Ghost<int>,
) -> (found: (usize, Ghost<int>))
    requires
        table_ok(slots@, views(uniques@), mask, probe, count),
        count < slots@.len(),
    ensures
        found.0 < slots@.len(),
        0 <= found.1@ < slots@.len(),
        found.0 == slot_at(home_of(value@, mask), found.1@, slots@.len() as int),
        forall|s: int|
            0 <= s < found.1@ ==> slots@[#[trigger] slot_at(
                home_of(value@, mask),
                s,
                slots@.len() as int,
            )] != -1,
        slots@[found.0 as int] == -1 ==> forall|i: int|
            0 <= i < count ==> (#[trigger] uniques@[i])@ != value@,
        slots@[found.0 as int] != -1 ==> 0 <= slots@[found.0 as int] < count
            && uniques@[slots@[found.0 as int] as int]@ == value@,
{
    let n = slots.len();
    let ghost all = views(uniques@);
    let ghost home = home_of(value@, mask);
    let mut j: usize = home_slot(value, mask);
    let ghost mut t: int = 0;
    proof {
        lemma_has_empty_slot(slots@, all, mask, probe, count);
    }
    let ghost empty = choose|p: int| 0 <= p < slots@.len() && slots@[p] == -1;
    let ghost empty_step = if empty >= home {
        empty - home
    } else {
        empty - home + n
    };
    loop
        invariant
            n == slots@.len(),
            n == mask + 1,
            all == views(uniques@),
            home == home_of(value@, mask),
            table_ok(slots@, all, mask, probe, count),
            0 <= t < n,
            j == slot_at(home, t, n as int),
            0 <= empty < n,
            slots@[empty] == -1,
            0 <= empty_step < n,
            empty == slot_at(home, empty_step, n as int),
            t <= empty_step,
            forall|s: int| 0 <= s < t ==> slots@[#[trigger] slot_at(home, s, n as int)] != -1,
            forall|s: int|
                0 <= s < t ==> all[slots@[#[trigger] slot_at(home, s, n as int)] as int] != value@,
        ensures
            j < n,
            0 <= t < n,
            j == slot_at(home, t, n as int),
            forall|s: int| 0 <= s < t ==> slots@[#[trigger] slot_at(home, s, n as int)] != -1,
            forall|s: int|
                0 <= s < t ==> all[slots@[#[trigger] slot_at(home, s, n as int)] as int] != value@,
            slots@[j as int] == -1 || (0 <= slots@[j as int] < count
                && all[slots@[j as int] as int] == value@),
        decreases n - t,
    {
        let index = slots[j];
        if index == HASH_SLOT_EMPTY {
            break ;
        }
        assert(slot_ok(slots@, all, mask, probe, count, j as int));
        assert(0 <= index < count);
        if bytes_equal(&uniques[index as usize], value) {
            break ;
        }
        proof {
            assert(t != empty_step);
            assert(slot_at(home, t + 1, n as int) == (if j + 1 == n {
                0
            } else {
                j + 1
            }));
        }
        j = j + 1;
        if j == n {
            j = 0;
        }
        proof {
            t = t + 1;
        }
    }
    proof {
        if slots@[j as int] == -1 {
            assert forall|i: int| 0 <= i < count implies (#[trigger] uniques@[i])@ != value@ by {
                if uniques@[i]@ == value@ {
                    assert(all[i] == value@);
                    let d = probe[i];
                    assert(index_ok(slots@, all, mask, probe, i));
                    if d < t {
                        assert(all[slots@[slot_at(home, d, n as int)] as int] != value@);
                    } else if d > t {
                        assert(taken(slots@, all, mask, i, t));
                    }
                }
            }
        }
    }
    (j, Ghost(t))
}

} // verus!
