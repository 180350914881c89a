use vstd::prelude::*;
use crate::aggregate::{
    Accumulator, AggregateKind, all_well_typed, arg_rows, check_types, fits,
};
use crate::block::DataBlock;
use crate::error::GroupByError;
use crate::group_key::encode_key;
use crate::grouper::bytes_equal;
use crate::key_index::KeyIndex;
use crate::value::{DataValue, ValueView};

verus! {

/// One input row as the aggregation sees it: its group-by values and, for
/// each aggregate function, its argument tuple.
pub struct RowView {
    pub keys: Seq<ValueView>,
    pub args: Seq<Seq<ValueView>>,
}

pub open spec fn row_key(row: RowView) -> Seq<u8> {
    encode_key(row.keys)
}

/// The rows with group key `k`, in order.
pub open spec fn group_rows(rows: Seq<RowView>, k: Seq<u8>) -> Seq<RowView>
    decreases rows.len(),
{
    if rows.len() == 0 {
        Seq::empty()
    } else if row_key(rows.last()) == k {
        group_rows(rows.drop_last(), k).push(rows.last())
    } else {
        group_rows(rows.drop_last(), k)
    }
}

/// The argument tuples of aggregate `j` of the rows with group key `k`.
pub open spec fn group_args(rows: Seq<RowView>, k: Seq<u8>, j: int) -> Seq<Seq<ValueView>> {
    group_rows(rows, k).map_values(|r: RowView| r.args[j])
}

/// Grouping distributes over concatenation.
pub proof fn lemma_group_rows_concat(a: Seq<RowView>, b: Seq<RowView>, k: Seq<u8>)
    ensures
        group_rows(a + b, k) == group_rows(a, k) + group_rows(b, k),
    decreases b.len(),
{
    if b.len() == 0 {
        assert(a + b =~= a);
        assert(group_rows(a, k) + group_rows(b, k) =~= group_rows(a, k));
    } else {
        lemma_group_rows_concat(a, b.drop_last(), k);
        assert((a + b).drop_last() =~= a + b.drop_last());
        assert((a + b).last() == b.last());
        if row_key(b.last()) == k {
            assert(group_rows(a, k) + group_rows(b, k) =~= (group_rows(a, k) + group_rows(
                b.drop_last(),
                k,
            )).push(b.last()));
        }
    }
}

pub proof fn lemma_group_args_concat(a: Seq<RowView>, b: Seq<RowView>, k: Seq<u8>, j: int)
    ensures
        group_args(a + b, k, j) == group_args(a, k, j) + group_args(b, k, j),
{
    lemma_group_rows_concat(a, b, k);
    assert(group_args(a + b, k, j) =~= group_args(a, k, j) + group_args(b, k, j));
}

/// Every row of a group has its key, and every row is in the group of its key.
pub proof fn lemma_group_rows_members(rows: Seq<RowView>, k: Seq<u8>)
    ensures
        forall|i: int|
            0 <= i < group_rows(rows, k).len() ==> row_key(#[trigger] group_rows(rows, k)[i]) == k,
        group_rows(rows, k).len() > 0 ==> exists|r: int|
            0 <= r < rows.len() && row_key(#[trigger] rows[r]) == k,
        forall|r: int| 0 <= r < rows.len() && row_key(#[trigger] rows[r]) == k ==> group_rows(rows, k).len() > 0,
    decreases rows.len(),
{
    if rows.len() > 0 {
        lemma_group_rows_members(rows.drop_last(), k);
        if group_rows(rows.drop_last(), k).len() > 0 {
            let r = choose|r: int|
                0 <= r < rows.drop_last().len() && row_key(#[trigger] rows.drop_last()[r]) == k;
            assert(rows[r] == rows.drop_last()[r]);
        }
        assert forall|r: int| 0 <= r < rows.len() && row_key(#[trigger] rows[r]) == k implies group_rows(
            rows,
            k,
        ).len() > 0 by {
            if r < rows.len() - 1 {
                assert(rows.drop_last()[r] == rows[r]);
            }
        }
    }
}

/// The accumulators and the first-seen group-by values of one group.
pub struct GroupEntry {
    pub key: Vec<u8>,
    pub key_values: Vec<DataValue>,
    pub slots: Vec<Accumulator>,
}

/// The group keys of the entries, in order.
pub open spec fn entry_keys(entries: Seq<GroupEntry>) -> Seq<Seq<u8>> {
    entries.map_values(|e: GroupEntry| e.key@)
}

/// Whether some entry has key `k`.
pub open spec fn has_entry(entries: Seq<GroupEntry>, k: Seq<u8>) -> bool {
    exists|e: int| 0 <= e < entries.len() && (#[trigger] entries[e]).key@ == k
}

/// The entry with key `k`, where there is one.
pub open spec fn entry_index(entries: Seq<GroupEntry>, k: Seq<u8>) -> int {
    choose|e: int| 0 <= e < entries.len() && (#[trigger] entries[e]).key@ == k
}

/// Whether the entries have distinct keys and one well-formed accumulator for
/// each of `kinds`.
pub open spec fn entries_wf(entries: Seq<GroupEntry>, kinds: Seq<AggregateKind>) -> bool {
    &&& forall|a: int, b: int|
        0 <= a < entries.len() && 0 <= b < entries.len() && a != b ==> (#[trigger] entries[a]).key@
            != (#[trigger] entries[b]).key@
    &&& forall|e: int| 0 <= e < entries.len() ==> (#[trigger] entries[e]).slots@.len() == kinds.len()
    &&& forall|e: int, j: int|
        0 <= e < entries.len() && 0 <= j < kinds.len() ==> {
            &&& (#[trigger] entries[e].slots@[j]).wf()
            &&& entries[e].slots@[j].kind_spec() == kinds[j]
        }
}

/// What accumulator `j` of the entry with key `k` has been fed, or nothing
/// where there is no such entry.
pub open spec fn prior_fed(entries: Seq<GroupEntry>, k: Seq<u8>, j: int) -> Seq<Seq<ValueView>> {
    if has_entry(entries, k) {
        entries[entry_index(entries, k)].slots@[j].fed()
    } else {
        Seq::empty()
    }
}

/// The store of per-group accumulators, keyed by group key.
pub struct PartialAggregationTable {
    entries: Vec<GroupEntry>,
    index: KeyIndex,
}

impl PartialAggregationTable {
    pub closed spec fn entries_spec(&self) -> Seq<GroupEntry> {
        self.entries@
    }

    /// Whether the key index locates every entry.
    pub closed spec fn index_ok(&self) -> bool {
        self.index.indexes(entry_keys(self.entries@))
    }

    pub fn create() -> (r: PartialAggregationTable)
        ensures
            r.entries_spec() == Seq::<GroupEntry>::empty(),
            r.index_ok(),
    {
        let r = PartialAggregationTable { entries: Vec::new(), index: KeyIndex::new() };
        assert(entry_keys(r.entries@) =~= Seq::<Seq<u8>>::empty());
        r
    }

    pub fn len(&self) -> (r: usize)
        ensures
            r == self.entries_spec().len(),
    {
        self.entries.len()
    }

    /// The entries, for the final read.
    pub fn into_entries(self) -> (r: Vec<GroupEntry>)
        ensures
            r@ == self.entries_spec(),
    {
        self.entries
    }

    /// Feeds the rows of `block` to the group `key`: to its accumulators where
    /// it has an entry, else to fresh ones in a new entry that keeps
    /// `key_values`. The arguments of function `j` are read from the columns at
    /// `arg_cols[j]`.
    pub fn upsert(
        &mut self,
        key: Vec<u8>,
        key_values: Vec<DataValue>,
        kinds: &Vec<AggregateKind>,
        arg_cols: &Vec<Vec<usize>>,
        block: &DataBlock,
    ) -> (r: Result<(), GroupByError>)
        requires
            entries_wf(old(self).entries_spec(), kinds@),
            old(self).index_ok(),
            block.wf(),
            arg_cols@.len() == kinds@.len(),
            forall|j: int, c: int|
                0 <= j < arg_cols@.len() && 0 <= c < arg_cols@[j]@.len() ==> #[trigger] arg_cols@[j]@[c]
                    < block.column_names().len(),
        ensures
            ({
                let old_entries = old(self).entries_spec();
                let found = has_entry(old_entries, key@);
                let p = entry_index(old_entries, key@);
                let typed = forall|j: int|
                    0 <= j < kinds@.len() ==> all_well_typed(kinds@[j], #[trigger] arg_rows(*block, arg_cols@[j]@));
                &&& (r == Err::<(), _>(GroupByError::ArgumentMismatch)) == !typed
                &&& r is Ok || r == Err::<(), _>(GroupByError::ArgumentMismatch) || r == Err::<
                    (),
                    _,
                >(GroupByError::Overflow)
                &&& (r == Err::<(), _>(GroupByError::Overflow)) == (typed && exists|j: int|
                    0 <= j < kinds@.len() && !fits(kinds@[j], #[trigger] prior_fed(old_entries, key@, j) + arg_rows(*block, arg_cols@[j]@)))
                &&& r is Ok ==> {
                    let entries = final(self).entries_spec();
                    &&& entries_wf(entries, kinds@)
                    &&& final(self).index_ok()
                    &&& found ==> {
                        &&& entries.len() == old_entries.len()
                        &&& forall|e: int|
                            0 <= e < entries.len() && e != p ==> #[trigger] entries[e]
                                == old_entries[e]
                        &&& entries[p].key@ == key@
                        &&& entries[p].key_values == old_entries[p].key_values
                        &&& forall|j: int|
                            0 <= j < kinds@.len() ==> (#[trigger] entries[p].slots@[j]).fed()
                                == prior_fed(old_entries, key@, j) + arg_rows(*block, arg_cols@[j]@)
                    }
                    &&& !found ==> {
                        &&& entries.len() == old_entries.len() + 1
                        &&& forall|e: int|
                            0 <= e < old_entries.len() ==> #[trigger] entries[e] == old_entries[e]
                        &&& entries.last().key@ == key@
                        &&& entries.last().key_values == key_values
                        &&& forall|j: int|
                            0 <= j < kinds@.len() ==> (#[trigger] entries[old_entries.len() as int].slots@[j]).fed()
                                == prior_fed(old_entries, key@, j) + arg_rows(*block, arg_cols@[j]@)
                    }
                }
            }),
    {
        let ghost old_entries = self.entries@;
        let m = kinds.len();
        let mut j: usize = 0;
        while j < m
            invariant
                m == kinds@.len(),
                block.wf(),
                arg_cols@.len() == kinds@.len(),
                forall|j: int, c: int|
                    0 <= j < arg_cols@.len() && 0 <= c < arg_cols@[j]@.len() ==> #[trigger] arg_cols@[j]@[c]
                        < block.column_names().len(),
                j <= m,
                forall|i: int|
                    0 <= i < j ==> all_well_typed(kinds@[i], #[trigger] arg_rows(*block, arg_cols@[i]@)),
            decreases m - j,
        {
            if !check_types(kinds[j], block, &arg_cols[j]) {
                assert(!all_well_typed(kinds@[j as int], arg_rows(*block, arg_cols@[j as int]@)));
                return Err(GroupByError::ArgumentMismatch);
            }
            j += 1;
        }
        let ghost ek = entry_keys(old_entries);
        let cands = self.index.candidates(&key);
        proof {
            self.index.lemma_bucket(ek, key@);
        }
        let mut c: usize = 0;
        let mut p: usize = 0;
        let mut found: bool = false;
        while !found && c < cands.len()
            invariant
                self.entries@ == old_entries,
                ek == entry_keys(old_entries),
                cands@ == self.index.bucket(key@),
                forall|i: int| 0 <= i < cands@.len() ==> #[trigger] cands@[i] < ek.len(),
                c <= cands@.len(),
                found ==> p < self.entries@.len() && self.entries@[p as int].key@ == key@,
                !found ==> forall|i: int| 0 <= i < c ==> (#[trigger] old_entries[cands@[i] as int]).key@ != key@,
            decreases cands.len() - c + if found {
                0int
            } else {
                1int
            },
        {
            let cand = cands[c];
            if bytes_equal(&self.entries[cand].key, &key) {
                found = true;
                p = cand;
            } else {
                c += 1;
            }
        }
        let elen = self.entries.len();
        proof {
            if !found {
                assert forall|h: int| 0 <= h < old_entries.len() implies (#[trigger] old_entries[h]).key@ != key@ by {
                    if old_entries[h].key@ == key@ {
                        assert(ek[h] == key@);
                        assert(h < elen);
                        assert(c == cands@.len());
                        assert(self.index.bucket(key@).contains(h as usize));
                        let i = choose|i: int| 0 <= i < cands@.len() && cands@[i] == h as usize;
                        assert(cands@[i] as int == h);
                        assert(old_entries[cands@[i] as int].key@ != key@);
                    }
                }
            }
        }
        if found {
            proof {
                assert(entry_index(old_entries, key@) == p) by {
                    let q = entry_index(old_entries, key@);
                    assert(has_entry(old_entries, key@));
                    assert(old_entries[q].key@ == key@);
                }
            }
            let mut entry = self.entries.remove(p);
            let ghost old_slots = entry.slots@;
            let mut j: usize = 0;
            while j < m
                invariant
                    m == kinds@.len(),
                    block.wf(),
                    arg_cols@.len() == kinds@.len(),
                    forall|j: int, c: int|
                        0 <= j < arg_cols@.len() && 0 <= c < arg_cols@[j]@.len() ==> #[trigger] arg_cols@[j]@[c]
                            < block.column_names().len(),
                    forall|i: int| 0 <= i < m ==> all_well_typed(kinds@[i], #[trigger] arg_rows(*block, arg_cols@[i]@)),
                    j <= m,
                    old_slots.len() == m,
                    entry.slots@.len() == m,
                    forall|i: int| 0 <= i < m ==> (#[trigger] old_slots[i]).wf() && old_slots[i].kind_spec() == kinds@[i],
                    forall|i: int| j <= i < m ==> #[trigger] entry.slots@[i] == old_slots[i],
                    forall|i: int|
                        0 <= i < j ==> {
                            &&& (#[trigger] entry.slots@[i]).wf()
                            &&& entry.slots@[i].kind_spec() == kinds@[i]
                            &&& entry.slots@[i].fed() == old_slots[i].fed() + arg_rows(*block, arg_cols@[i]@)
                        },
                    forall|i: int| 0 <= i < j ==> fits(kinds@[i], #[trigger] (old_slots[i].fed() + arg_rows(*block, arg_cols@[i]@))),
                    entry.key@ == key@,
                    entry.key_values == old_entries[p as int].key_values,
                    old_slots == old_entries[p as int].slots@,
                    has_entry(old_entries, key@),
                    old_entries == old(self).entries_spec(),
                    entry_index(old_entries, key@) == p,
                decreases m - j,
            {
                let mut acc = entry.slots.remove(j);
                assert(acc == old_slots[j as int]);
                assert(all_well_typed(kinds@[j as int], arg_rows(*block, arg_cols@[j as int]@)));
                let res = acc.accumulate(block, &arg_cols[j]);
                if res.is_err() {
                    assert(res == Err::<(), _>(GroupByError::Overflow));
                    assert(!fits(kinds@[j as int], prior_fed(old_entries, key@, j as int) + arg_rows(*block, arg_cols@[j as int]@)));
                    return Err(GroupByError::Overflow);
                }
                entry.slots.insert(j, acc);
                j += 1;
            }
            self.entries.insert(p, entry);
            proof {
                let entries = self.entries@;
                assert(entry_keys(entries) =~= entry_keys(old_entries));
                assert(entry_index(old_entries, key@) == p) by {
                    let q = entry_index(old_entries, key@);
                    assert(has_entry(old_entries, key@));
                    assert(old_entries[q].key@ == key@);
                }
                assert forall|a: int, b: int|
                    0 <= a < entries.len() && 0 <= b < entries.len() && a != b implies (#[trigger] entries[a]).key@
                        != (#[trigger] entries[b]).key@ by {
                    assert(entries[a].key@ == old_entries[a].key@);
                    assert(entries[b].key@ == old_entries[b].key@);
                }
                assert forall|e: int, i: int|
                    0 <= e < entries.len() && 0 <= i < kinds@.len() implies {
                        &&& (#[trigger] entries[e].slots@[i]).wf()
                        &&& entries[e].slots@[i].kind_spec() == kinds@[i]
                    } by {
                    if e != p {
                        assert(entries[e] == old_entries[e]);
                    }
                }
                assert forall|e: int| 0 <= e < entries.len() implies (#[trigger] entries[e]).slots@.len() == kinds@.len() by {
                    if e != p {
                        assert(entries[e] == old_entries[e]);
                    }
                }
            }
        } else {
            assert(!has_entry(old_entries, key@));
            let mut slots: Vec<Accumulator> = Vec::with_capacity(m);
            let mut j: usize = 0;
            while j < m
                invariant
                    m == kinds@.len(),
                    block.wf(),
                    arg_cols@.len() == kinds@.len(),
                    forall|j: int, c: int|
                        0 <= j < arg_cols@.len() && 0 <= c < arg_cols@[j]@.len() ==> #[trigger] arg_cols@[j]@[c]
                            < block.column_names().len(),
                    forall|i: int| 0 <= i < m ==> all_well_typed(kinds@[i], #[trigger] arg_rows(*block, arg_cols@[i]@)),
                    j <= m,
                    slots@.len() == j,
                    !has_entry(old_entries, key@),
                    old_entries == old(self).entries_spec(),
                    forall|i: int|
                        0 <= i < j ==> {
                            &&& (#[trigger] slots@[i]).wf()
                            &&& slots@[i].kind_spec() == kinds@[i]
                            &&& slots@[i].fed() == Seq::<Seq<ValueView>>::empty() + arg_rows(*block, arg_cols@[i]@)
                        },
                    forall|i: int| 0 <= i < j ==> fits(kinds@[i], #[trigger] (Seq::<Seq<ValueView>>::empty() + arg_rows(*block, arg_cols@[i]@))),
                decreases m - j,
            {
                let mut acc = Accumulator::create(kinds[j]);
                assert(all_well_typed(kinds@[j as int], arg_rows(*block, arg_cols@[j as int]@)));
                let res = acc.accumulate(block, &arg_cols[j]);
                if res.is_err() {
                    assert(res == Err::<(), _>(GroupByError::Overflow));
                    assert(!fits(kinds@[j as int], prior_fed(old_entries, key@, j as int) + arg_rows(*block, arg_cols@[j as int]@)));
                    return Err(GroupByError::Overflow);
                }
                slots.push(acc);
                j += 1;
            }
            self.index.add(Ghost(entry_keys(old_entries)), &key, self.entries.len());
            self.entries.push(GroupEntry { key, key_values, slots });
            proof {
                let entries = self.entries@;
                assert(entry_keys(entries) =~= entry_keys(old_entries).push(entries[old_entries.len() as int].key@));
                assert(!has_entry(old_entries, key@));
                assert forall|a: int, b: int|
                    0 <= a < entries.len() && 0 <= b < entries.len() && a != b implies (#[trigger] entries[a]).key@
                        != (#[trigger] entries[b]).key@ by {
                    if a < old_entries.len() {
                        assert(entries[a] == old_entries[a]);
                    }
                    if b < old_entries.len() {
                        assert(entries[b] == old_entries[b]);
                    }
                }
                assert forall|e: int, i: int|
                    0 <= e < entries.len() && 0 <= i < kinds@.len() implies {
                        &&& (#[trigger] entries[e].slots@[i]).wf()
                        &&& entries[e].slots@[i].kind_spec() == kinds@[i]
                    } by {
                    if e < old_entries.len() {
                        assert(entries[e] == old_entries[e]);
                    }
                }
                assert forall|e: int| 0 <= e < entries.len() implies (#[trigger] entries[e]).slots@.len() == kinds@.len() by {
                    if e < old_entries.len() {
                        assert(entries[e] == old_entries[e]);
                    }
                }
            }
        }
        Ok(())
    }
}

} // verus!
