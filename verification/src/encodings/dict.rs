//! The dictionary encoder.

use std::marker::PhantomData;
use vstd::prelude::*;
use crate::basic::Encoding;
use crate::data_type::{push_bytes, DataType};
use crate::encodings::delta_byte_array::views;
use crate::encodings::dict_table::{
    distinct, find_slot, lemma_insert, lemma_table_grow, slot_ok, table_ok,
    HASH_SLOT_EMPTY,
};
use crate::encodings::encoding::{plain_bits, plain_bytes, plain_encode, put_plain_value, raws, Encoder};
use crate::encodings::rle::{
    lemma_max_buffer_size_grows, max_buffer_size_spec, min_buffer_size_spec, RleEncoder,
};
use crate::encodings::rle_format::hybrid_bytes;
use crate::errors::ParquetError;
use crate::schema::ColumnDescriptor;
use vstd::arithmetic::power2::pow2;
use crate::util::bit_util::{log2, log2_ceil, BitWriter};

verus! {

/// The number of slots of a new table.
pub const INITIAL_HASH_TABLE_SIZE: usize = 1024;

/// The most entries that a dictionary takes.
pub const MAX_DICT_ENTRIES: usize = 0x4000_0000;

/// The dictionary after `values` have been seen: each value that it did
/// not hold yet is added at the end, in the order of first appearance.
pub open spec fn dict_after(dict: Seq<Seq<u8>>, values: Seq<Seq<u8>>) -> Seq<Seq<u8>>
    decreases values.len(),
{
    if values.len() == 0 {
        dict
    } else {
        let before = dict_after(dict, values.drop_last());
        if before.contains(values.last()) {
            before
        } else {
            before.push(values.last())
        }
    }
}

/// A dictionary holds, after `values`, what it held before and each of
/// `values`, and nothing else; what it held before stays in front; and
/// where no value occurred twice before, none does after.
pub proof fn lemma_dict_after(dict: Seq<Seq<u8>>, values: Seq<Seq<u8>>)
    ensures
        forall|v: Seq<u8>|
            #![auto]
            dict_after(dict, values).contains(v) <==> dict.contains(v) || values.contains(v),
        dict_after(dict, values).len() >= dict.len(),
        dict_after(dict, values).take(dict.len() as int) == dict,
        distinct(dict) ==> distinct(dict_after(dict, values)),
    decreases values.len(),
{
    let after = dict_after(dict, values);
    if values.len() == 0 {
        assert(after.take(dict.len() as int) =~= dict);
        assert forall|v: Seq<u8>| #![auto] after.contains(v) <==> dict.contains(v)
            || values.contains(v) by {}
    } else {
        let init = values.drop_last();
        let last = values.last();
        let before = dict_after(dict, init);
        lemma_dict_after(dict, init);
        assert(after.take(dict.len() as int) =~= before.take(dict.len() as int));
        assert forall|v: Seq<u8>| #![auto] after.contains(v) <==> dict.contains(v)
            || values.contains(v) by {
            if after.contains(v) {
                let i = choose|i: int| 0 <= i < after.len() && after[i] == v;
                if i < before.len() {
                    assert(before.contains(v));
                    if init.contains(v) {
                        let k = choose|k: int| 0 <= k < init.len() && init[k] == v;
                        assert(values[k] == v);
                    }
                } else {
                    assert(values[values.len() - 1] == v);
                }
            }
            if dict.contains(v) {
                assert(before.contains(v));
                let i = choose|i: int| 0 <= i < before.len() && before[i] == v;
                assert(after[i] == v);
            }
            if values.contains(v) {
                let k = choose|k: int| 0 <= k < values.len() && values[k] == v;
                if k < init.len() {
                    assert(init[k] == v);
                    assert(before.contains(v));
                    let i = choose|i: int| 0 <= i < before.len() && before[i] == v;
                    assert(after[i] == v);
                } else if before.contains(last) {
                } else {
                    assert(after[before.len() as int] == v);
                }
            }
        }
        if distinct(dict) && !before.contains(last) {
            assert forall|a: int, b: int| 0 <= a < b < after.len() implies after[a] != after[b] by {
                if b == before.len() {
                    assert(before[a] == after[a]);
                    if after[a] == last {
                        assert(before.contains(last));
                    }
                } else {
                    assert(before[a] != before[b]);
                }
            }
        }
    }
}

/// The bit width of the indices of a dictionary of `num_entries` entries.
pub open spec fn dict_bit_width(num_entries: nat) -> nat {
    if num_entries == 0 {
        0
    } else if num_entries == 1 {
        1
    } else {
        log2_ceil(num_entries)
    }
}

/// The indices as the unsigned numbers that are written.
pub open spec fn index_values(indices: Seq<i32>) -> Seq<u64> {
    Seq::new(indices.len(), |i: int| indices[i] as u64)
}

/// The data page of `indices` into a dictionary of `num_entries` entries:
/// one byte with the bit width of the indices, then the indices as a
/// hybrid stream at that width.
pub open spec fn dict_data_page(num_entries: nat, indices: Seq<i32>) -> Seq<u8> {
    seq![dict_bit_width(num_entries) as u8] + hybrid_bytes(
        index_values(indices),
        dict_bit_width(num_entries),
    )
}

/// The number of entries that a table of `size` slots takes before it
/// grows: seven tenths of its slots.
pub open spec fn max_load(size: int) -> int {
    size * 7 / 10
}

/// The dictionary encoder, for every physical type.
///
/// It gathers the distinct values in the order in which they first
/// appear, and for every value put its index among them. The dictionary
/// outlives the batches; a flush hands out the indices of one batch.
pub struct DictEncoder<T: DataType> {
    desc: ColumnDescriptor,
    hash_table_size: usize,
    mod_bitmask: u32,
    hash_slots: Vec<i32>,
    buffered_indices: Vec<i32>,
    uniques: Vec<Vec<u8>>,
    probe: Ghost<Seq<int>>,
    doublings: Ghost<nat>,
    batch: Ghost<Seq<Seq<u8>>>,
    _phantom: PhantomData<T>,
}

impl<T: DataType> DictEncoder<T> {
    /// The distinct values seen so far, each by its bytes, in the order
    /// of first appearance.
    pub closed spec fn dictionary(&self) -> Seq<Seq<u8>> {
        views(self.uniques@)
    }

    /// The index of each value of the batch.
    pub closed spec fn indices(&self) -> Seq<i32> {
        self.buffered_indices@
    }

    /// The number of slots of the hash table.
    pub closed spec fn table_size(&self) -> nat {
        self.hash_table_size as nat
    }

    /// How often the hash table has doubled.
    pub closed spec fn doublings(&self) -> nat {
        self.doublings@
    }

    /// What holds of the table and the dictionary, the load aside.
    spec fn table_wf(&self) -> bool {
        &&& self.hash_slots@.len() == self.hash_table_size
        &&& self.hash_table_size >= 1
        &&& self.mod_bitmask == self.hash_table_size - 1
        &&& table_ok(
            self.hash_slots@,
            self.dictionary(),
            self.mod_bitmask,
            self.probe@,
            self.dictionary().len() as int,
        )
        &&& distinct(self.dictionary())
        &&& self.dictionary().len() <= MAX_DICT_ENTRIES
        &&& self.hash_table_size == INITIAL_HASH_TABLE_SIZE * pow2(self.doublings@)
        &&& (self.doublings@ > 0 ==> max_load(self.hash_table_size as int / 2) < self.dictionary().len())
    }

    /// What holds of the indices: each is the place of its value.
    spec fn indices_wf(&self) -> bool {
        &&& self.buffered_indices@.len() == self.batch@.len()
        &&& forall|k: int|
            0 <= k < self.batch@.len() ==> 0 <= (#[trigger] self.buffered_indices@[k])
                < self.dictionary().len() && self.dictionary()[self.buffered_indices@[k] as int]
                == self.batch@[k]
    }

    /// An encoder with an empty dictionary.
    pub fn new(desc: ColumnDescriptor) -> (e: Self)
        ensures
            e.wf(),
            e.dictionary() == Seq::<Seq<u8>>::empty(),
            e.indices() == Seq::<i32>::empty(),
            e.batch() == Seq::<Seq<u8>>::empty(),
            e.table_size() == INITIAL_HASH_TABLE_SIZE,
            e.doublings() == 0,
    {
        let mut slots: Vec<i32> = Vec::with_capacity(INITIAL_HASH_TABLE_SIZE);
        let mut i: usize = 0;
        while i < INITIAL_HASH_TABLE_SIZE
            invariant
                i <= INITIAL_HASH_TABLE_SIZE,
                slots@.len() == i,
                forall|p: int| 0 <= p < i ==> slots@[p] == -1,
            decreases INITIAL_HASH_TABLE_SIZE - i,
        {
            slots.push(HASH_SLOT_EMPTY);
            i = i + 1;
        }
        let e = DictEncoder {
            desc,
            hash_table_size: INITIAL_HASH_TABLE_SIZE,
            mod_bitmask: (INITIAL_HASH_TABLE_SIZE - 1) as u32,
            hash_slots: slots,
            buffered_indices: Vec::new(),
            uniques: Vec::new(),
            probe: Ghost(Seq::empty()),
            doublings: Ghost(0),
            batch: Ghost(Seq::empty()),
            _phantom: PhantomData,
        };
        proof {
            vstd::arithmetic::power2::lemma2_to64();
            assert(e.dictionary() =~= Seq::<Seq<u8>>::empty());
            assert forall|p: int| 0 <= p < e.hash_slots@.len() implies #[trigger] slot_ok(
                e.hash_slots@,
                e.dictionary(),
                e.mod_bitmask,
                e.probe@,
                0,
                p,
            ) by {}
        }
        e
    }

    /// The number of entries of the dictionary.
    pub fn num_entries(&self) -> (n: usize)
        ensures
            n == self.dictionary().len(),
    {
        self.uniques.len()
    }

    /// The bit width of the indices: 0 for an empty dictionary, 1 for one
    /// entry, else the ceiling of the binary logarithm of the number of
    /// entries.
    pub fn bit_width(&self) -> (w: u8)
        ensures
            w == dict_bit_width(self.dictionary().len()),
            w <= 64,
    {
        let num_entries = self.uniques.len();
        if num_entries == 0 {
            0
        } else if num_entries == 1 {
            1
        } else {
            log2(num_entries as u64) as u8
        }
    }

    /// The dictionary page: the entries in the PLAIN layout. The
    /// dictionary stays as it is.
    pub fn write_dict(&self) -> (r: Result<Vec<u8>, ParquetError>)
        ensures
            r is Ok,
            r.unwrap()@ == plain_encode(T::physical_type(), self.dictionary()),
    {
        let t = T::get_physical_type();
        let n = self.uniques.len();
        let mut buffer: Vec<u8> = Vec::new();
        let mut bit_writer = BitWriter::new(256);
        let mut i: usize = 0;
        assert(self.dictionary().take(0) =~= Seq::<Seq<u8>>::empty());
        while i < n
            invariant
                i <= n,
                n == self.uniques@.len(),
                t == T::physical_type(),
                bit_writer.wf(),
                buffer@ == plain_bytes(t, self.dictionary().take(i as int)),
                bit_writer@ == plain_bits(t, self.dictionary().take(i as int)),
            decreases n - i,
        {
            put_plain_value(t, &self.uniques[i], &mut buffer, &mut bit_writer);
            proof {
                let next = self.dictionary().take(i + 1);
                assert(next.drop_last() =~= self.dictionary().take(i as int));
                assert(next.last() == self.uniques@[i as int]@);
            }
            i = i + 1;
        }
        assert(self.dictionary().take(n as int) =~= self.dictionary());
        let tail = bit_writer.flush_buffer();
        push_bytes(&mut buffer, tail.as_slice());
        Ok(buffer)
    }
}

impl<T: DataType> DictEncoder<T> {
    /// Doubles the table and puts every index into its new slot. The
    /// dictionary and its indices stay as they are.
    #[verifier::rlimit(40)]
    fn double_table_size(&mut self)
        requires
            old(self).table_wf(),
            max_load(old(self).hash_table_size as int) < old(self).dictionary().len(),
            old(self).dictionary().len() <= max_load(old(self).hash_table_size as int) + 1,
        ensures
            final(self).table_wf(),
            final(self).dictionary().len() <= max_load(final(self).hash_table_size as int),
            final(self).hash_table_size == 2 * old(self).hash_table_size,
            final(self).doublings@ == old(self).doublings@ + 1,
            final(self).uniques == old(self).uniques,
            final(self).buffered_indices == old(self).buffered_indices,
            final(self).batch == old(self).batch,
    {
        let new_size: usize = self.hash_table_size * 2;
        let new_mask: u32 = (new_size - 1) as u32;
        let mut new_hash_slots: Vec<i32> = Vec::with_capacity(new_size);
        let mut i: usize = 0;
        while i < new_size
            invariant
                i <= new_size,
                new_hash_slots@.len() == i,
                forall|p: int| 0 <= p < i ==> new_hash_slots@[p] == -1,
            decreases new_size - i,
        {
            new_hash_slots.push(HASH_SLOT_EMPTY);
            i = i + 1;
        }
        let count = self.uniques.len();
        let ghost all = self.dictionary();
        let ghost mut probe: Seq<int> = Seq::new(all.len(), |i: int| 0int);
        proof {
            assert forall|p: int| 0 <= p < new_hash_slots@.len() implies #[trigger] slot_ok(
                new_hash_slots@,
                all,
                new_mask,
                probe,
                0,
                p,
            ) by {}
        }
        let mut k: usize = 0;
        while k < count
            invariant
                k <= count,
                count == self.uniques@.len(),
                count <= MAX_DICT_ENTRIES,
                count < new_size,
                all == views(self.uniques@),
                distinct(all),
                new_hash_slots@.len() == new_size,
                table_ok(new_hash_slots@, all, new_mask, probe, k as int),
                self.uniques == old(self).uniques,
                self.buffered_indices == old(self).buffered_indices,
                self.batch == old(self).batch,
            decreases count - k,
        {
            let found = find_slot(
                &new_hash_slots,
                &self.uniques,
                &self.uniques[k],
                new_mask,
                Ghost(probe),
                Ghost(k as int),
            );
            let j = found.0;
            proof {
                if new_hash_slots@[j as int] != -1 {
                    let other = new_hash_slots@[j as int] as int;
                    assert(all[other] == all[k as int]);
                }
                assert forall|s: int| 0 <= s < found.1@ implies #[trigger] crate::encodings::dict_table::taken(
                    new_hash_slots@,
                    all,
                    new_mask,
                    k as int,
                    s,
                ) by {}
                lemma_insert(new_hash_slots@, all, new_mask, probe, k as int, j as int, found.1@);
                probe = probe.update(k as int, found.1@);
            }
            new_hash_slots.set(j, k as i32);
            k = k + 1;
        }
        self.hash_table_size = new_size;
        self.mod_bitmask = new_mask;
        self.hash_slots = new_hash_slots;
        proof {
            self.probe = Ghost(probe);
            vstd::arithmetic::power2::lemma_pow2_unfold(self.doublings@ + 1);
            assert(INITIAL_HASH_TABLE_SIZE * (2 * pow2(self.doublings@)) == 2 * (
            INITIAL_HASH_TABLE_SIZE * pow2(self.doublings@))) by (nonlinear_arith);
            self.doublings = Ghost(self.doublings@ + 1);
        }
    }

    /// Takes one value: looks it up, adds it to the dictionary if it is
    /// new, and notes its index.
    #[verifier::rlimit(40)]
    fn put_one(&mut self, value: &T::T)
        requires
            old(self).wf(),
            old(self).dictionary().len() < MAX_DICT_ENTRIES,
        ensures
            final(self).wf(),
            final(self).batch() == old(self).batch().push(T::raw(value)),
            final(self).dictionary() == (if old(self).dictionary().contains(T::raw(value)) {
                old(self).dictionary()
            } else {
                old(self).dictionary().push(T::raw(value))
            }),
            final(self).indices().len() == old(self).indices().len() + 1,
            final(self).indices().drop_last() == old(self).indices(),
            final(self).dictionary()[final(self).indices().last() as int] == T::raw(value),
            final(self).doublings() >= old(self).doublings(),
    {
        let mut raw: Vec<u8> = Vec::new();
        T::write_raw(value, &mut raw);
        assert(raw@ =~= T::raw(value));
        let ghost all = self.dictionary();
        let ghost count = all.len() as int;
        let found = find_slot(
            &self.hash_slots,
            &self.uniques,
            &raw,
            self.mod_bitmask,
            Ghost(self.probe@),
            Ghost(count),
        );
        let j = found.0;
        let mut index = self.hash_slots[j];
        if index == HASH_SLOT_EMPTY {
            index = self.uniques.len() as i32;
            proof {
                assert(!all.contains(raw@)) by {
                    if all.contains(raw@) {
                        let i = choose|i: int| 0 <= i < all.len() && all[i] == raw@;
                        assert(self.uniques@[i]@ == raw@);
                    }
                }
                lemma_table_grow(
                    self.hash_slots@,
                    all,
                    self.mod_bitmask,
                    self.probe@,
                    count,
                    raw@,
                );
                let grown = all.push(raw@);
                assert forall|s: int| 0 <= s < found.1@ implies #[trigger] crate::encodings::dict_table::taken(
                    self.hash_slots@,
                    grown,
                    self.mod_bitmask,
                    count,
                    s,
                ) by {}
                lemma_insert(
                    self.hash_slots@,
                    grown,
                    self.mod_bitmask,
                    self.probe@.push(0),
                    count,
                    j as int,
                    found.1@,
                );
                self.probe = Ghost(self.probe@.push(0).update(count, found.1@));
            }
            self.hash_slots.set(j, index);
            self.uniques.push(raw);
            proof {
                assert(self.dictionary() =~= all.push(T::raw(value)));
                assert(distinct(self.dictionary()));
            }
            if self.uniques.len() > ((self.hash_table_size as u64) * 7 / 10) as usize {
                self.double_table_size();
            }
        } else {
            proof {
                assert(all[index as int] == raw@);
                assert(all.contains(raw@));
            }
        }
        let ghost before = self.buffered_indices@;
        self.buffered_indices.push(index);
        proof {
            assert(self.buffered_indices@.drop_last() =~= before);
            self.batch = Ghost(self.batch@.push(T::raw(value)));
        }
    }

    /// The data page of the batch: one byte with the bit width of the
    /// indices, then the indices as a hybrid stream at that width. The
    /// batch ends; the dictionary stays.
    pub fn write_indices(&mut self) -> (r: Result<Vec<u8>, ParquetError>)
        requires
            old(self).wf(),
            old(self).flushable(),
        ensures
            final(self).wf(),
            r is Ok,
            r.unwrap()@ == dict_data_page(old(self).dictionary().len(), old(self).indices()),
            final(self).dictionary() == old(self).dictionary(),
            final(self).indices() == Seq::<i32>::empty(),
            final(self).batch() == Seq::<Seq<u8>>::empty(),
            final(self).table_size() == old(self).table_size(),
            final(self).doublings() == old(self).doublings(),
    {
        let bit_width = self.bit_width();
        let count = self.buffered_indices.len();
        let ghost w = bit_width as nat;
        let buffer_len: usize = 1 + RleEncoder::min_buffer_size(bit_width)
            + RleEncoder::max_buffer_size(bit_width, count);
        let mut buffer: Vec<u8> = Vec::with_capacity(buffer_len);
        buffer.push(bit_width);
        let mut filled: usize = 1;
        while filled < buffer_len
            invariant
                1 <= filled <= buffer_len,
                buffer@.len() == filled,
                buffer@[0] == bit_width,
            decreases buffer_len - filled,
        {
            buffer.push(0);
            filled = filled + 1;
        }
        let mut encoder = RleEncoder::new_from_buf(bit_width, buffer, 1);
        assert(encoder.prefix() =~= seq![bit_width]);
        let ghost written = index_values(self.buffered_indices@);
        let mut i: usize = 0;
        assert(written.take(0) =~= Seq::<u64>::empty());
        while i < count
            invariant
                i <= count,
                count == self.buffered_indices@.len(),
                written == index_values(self.buffered_indices@),
                encoder.wf(),
                encoder.width() == w,
                encoder.capacity() == buffer_len,
                encoder.prefix() == seq![bit_width],
                encoder.values() == written.take(i as int),
                buffer_len == 1 + min_buffer_size_spec(w) + max_buffer_size_spec(w, count as nat),
                self.wf(),
                self.uniques == old(self).uniques,
                self.buffered_indices == old(self).buffered_indices,
                self.hash_table_size == old(self).hash_table_size,
                self.doublings == old(self).doublings,
            decreases count - i,
        {
            proof {
                lemma_max_buffer_size_grows(w, (i + 1) as nat, count as nat);
            }
            let taken = encoder.put(self.buffered_indices[i] as u64);
            if !taken {
                return Err(ParquetError::General("Encoder doesn't have enough space".to_string()));
            }
            assert(written.take(i + 1) =~= written.take(i as int).push(written[i as int]));
            i = i + 1;
        }
        assert(written.take(count as int) =~= written);
        let out = encoder.consume();
        self.buffered_indices.clear();
        proof {
            self.batch = Ghost(Seq::empty());
        }
        Ok(out)
    }

    /// The hash table starts with 1024 slots and doubles whenever the
    /// entries come to more than seven tenths of the slots, so that it has
    /// the fewest doublings that keep the entries within that load.
    pub proof fn lemma_table_load(&self)
        requires
            self.wf(),
        ensures
            self.table_size() == INITIAL_HASH_TABLE_SIZE * pow2(self.doublings()),
            self.dictionary().len() <= max_load(self.table_size() as int),
            self.doublings() > 0 ==> max_load(self.table_size() as int / 2)
                < self.dictionary().len(),
    {
    }

    /// No value occurs twice in the dictionary.
    pub proof fn lemma_dictionary_distinct(&self)
        requires
            self.wf(),
        ensures
            distinct(self.dictionary()),
    {
    }

    /// The index of each value of the batch is the place of that value in
    /// the dictionary.
    pub proof fn lemma_indices_decode(&self)
        requires
            self.wf(),
        ensures
            self.indices().len() == self.batch().len(),
            forall|k: int|
                0 <= k < self.batch().len() ==> 0 <= (#[trigger] self.indices()[k])
                    < self.dictionary().len() && self.dictionary()[self.indices()[k] as int]
                    == self.batch()[k],
    {
    }
}

impl<T: DataType> Encoder<T> for DictEncoder<T> {
    closed spec fn wf(&self) -> bool {
        &&& self.table_wf()
        &&& self.indices_wf()
        &&& self.dictionary().len() <= max_load(self.hash_table_size as int)
    }

    closed spec fn batch(&self) -> Seq<Seq<u8>> {
        self.batch@
    }

    /// The dictionary must stay within its limit of entries.
    open spec fn accepts(&self, count: nat) -> bool {
        self.dictionary().len() + count <= MAX_DICT_ENTRIES
    }

    /// The sink of the indices must fit in memory.
    open spec fn flushable(&self) -> bool {
        1 + min_buffer_size_spec(dict_bit_width(self.dictionary().len())) + max_buffer_size_spec(
            dict_bit_width(self.dictionary().len()),
            self.indices().len(),
        ) <= usize::MAX
    }

    fn put(&mut self, values: &[T::T]) -> (r: Result<(), ParquetError>)
        ensures
            r is Ok,
            final(self).dictionary() == dict_after(old(self).dictionary(), raws::<T>(values@)),
            final(self).indices().len() == old(self).indices().len() + values@.len(),
            final(self).indices().take(old(self).indices().len() as int) == old(self).indices(),
            forall|k: int|
                0 <= k < values@.len() ==> final(self).dictionary()[(#[trigger] final(
                    self).indices()[old(self).indices().len() + k]) as int] == T::raw(&values@[k]),
    {
        let n = values.len();
        let ghost added = raws::<T>(values@);
        let ghost start = self.buffered_indices@.len() as int;
        let mut i: usize = 0;
        proof {
            assert(added.take(0) =~= Seq::<Seq<u8>>::empty());
            assert(self.batch@ + added.take(0) =~= self.batch@);
            assert(self.indices().take(start) =~= self.indices());
        }
        while i < n
            invariant
                i <= n,
                n == values@.len(),
                added == raws::<T>(values@),
                start == old(self).indices().len(),
                self.wf(),
                old(self).dictionary().len() + n <= MAX_DICT_ENTRIES,
                self.dictionary().len() <= old(self).dictionary().len() + i,
                self.batch@ == old(self).batch@ + added.take(i as int),
                self.dictionary() == dict_after(old(self).dictionary(), added.take(i as int)),
                self.indices().len() == start + i,
                self.indices().take(start) == old(self).indices(),
            decreases n - i,
        {
            let ghost before = self.indices();
            self.put_one(&values[i]);
            proof {
                assert(added.take(i + 1).drop_last() =~= added.take(i as int));
                assert(added.take(i + 1).last() == T::raw(&values@[i as int]));
                assert(self.batch@ =~= old(self).batch@ + added.take(i + 1));
                assert(self.indices().take(start) =~= before.take(start));
            }
            i = i + 1;
        }
        proof {
            assert(added.take(n as int) =~= added);
            assert forall|k: int| 0 <= k < values@.len() implies self.dictionary()[(
            #[trigger] self.indices()[start + k]) as int] == T::raw(&values@[k]) by {
                assert(self.batch@[old(self).batch@.len() + k] == added[k]);
            }
        }
        Ok(())
    }

    open spec fn encoding_id(&self) -> Encoding {
        Encoding::PLAIN_DICTIONARY
    }

    fn encoding(&self) -> (e: Encoding) {
        Encoding::PLAIN_DICTIONARY
    }

    fn flush_buffer(&mut self) -> (r: Result<Vec<u8>, ParquetError>)
        ensures
            r is Ok,
            r.unwrap()@ == dict_data_page(old(self).dictionary().len(), old(self).indices()),
            final(self).dictionary() == old(self).dictionary(),
            final(self).indices() == Seq::<i32>::empty(),
    {
        self.write_indices()
    }
}

} // verus!
