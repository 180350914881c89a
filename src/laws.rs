use vstd::prelude::*;
use crate::aggregate::{AggregateKind, count_of, counted, state_of};
use crate::block::{DataBlock, lemma_first_index_bounds};
use crate::table::{
    RowView, entry_keys, group_args, lemma_group_args_concat, group_rows, has_entry, lemma_group_rows_members, row_key,
};
use crate::transform::{GroupByPartialTransform, resolved};
use crate::value::{ValueView, values_view};

verus! {

/// Whether `whole` is `first` followed by `second`: the same columns, and
/// the rows of `first` then those of `second`.
pub open spec fn is_split(whole: DataBlock, first: DataBlock, second: DataBlock) -> bool {
    let n1 = first.num_rows_spec();
    &&& first.column_names() == whole.column_names()
    &&& second.column_names() == whole.column_names()
    &&& whole.num_rows_spec() == n1 + second.num_rows_spec()
    &&& forall|c: int, r: int|
        0 <= c < whole.column_names().len() && 0 <= r < n1 ==> #[trigger] whole.cell(c, r)
            == first.cell(c, r)
    &&& forall|c: int, r: int|
        0 <= c < whole.column_names().len() && 0 <= r < second.num_rows_spec() ==> whole.cell(
            c,
            n1 + r,
        ) == #[trigger] second.cell(c, r)
}

proof fn lemma_resolved_in_range(block: DataBlock, names: Seq<Seq<char>>)
    requires
        crate::transform::resolves(block, names),
    ensures
        forall|i: int| 0 <= i < names.len() ==> #[trigger] resolved(block, names)[i] < block.column_names().len(),
{
    assert forall|i: int| 0 <= i < names.len() implies #[trigger] resolved(block, names)[i] < block.column_names().len() by {
        lemma_first_index_bounds(block.column_names(), names[i]);
        assert(crate::transform::resolves(block, names));
        assert(crate::block::first_index(block.column_names(), names[i]) is Some);
    }
}

/// Feeding a block whole, or split in two and fed part after part, adds the
/// same rows in the same order: every group then ends with the same rows, and
/// so with the same accumulator states.
pub proof fn lemma_split_block_same_rows(
    t: &GroupByPartialTransform,
    whole: DataBlock,
    first: DataBlock,
    second: DataBlock,
)
    requires
        t.names_resolve(whole),
        is_split(whole, first, second),
    ensures
        t.rows() + t.block_model(whole) == (t.rows() + t.block_model(first)) + t.block_model(
            second,
        ),
{
    let n1 = first.num_rows_spec();
    let gw = resolved(whole, t.group_names());
    assert(resolved(first, t.group_names()) =~= gw);
    assert(resolved(second, t.group_names()) =~= gw);
    assert(t.arg_cols(first) =~= t.arg_cols(whole));
    assert(t.arg_cols(second) =~= t.arg_cols(whole));
    lemma_resolved_in_range(whole, t.group_names());
    let bw = t.block_model(whole);
    let bf = t.block_model(first);
    let bs = t.block_model(second);
    let ac = t.arg_cols(whole);
    assert forall|j: int, x: int| 0 <= j < ac.len() && 0 <= x < ac[j].len() implies #[trigger] ac[j][x]
        < whole.column_names().len() by {
        assert(crate::transform::resolves(whole, t.arg_names()[j]));
        lemma_resolved_in_range(whole, t.arg_names()[j]);
    }
    assert forall|r: int| 0 <= r < bw.len() implies #[trigger] bw[r] == (bf + bs)[r] by {
        if r < n1 {
            assert(bw[r].keys =~= bf[r].keys);
            assert forall|j: int| 0 <= j < ac.len() implies #[trigger] bw[r].args[j] == bf[r].args[j] by {
                assert(bw[r].args[j] =~= bf[r].args[j]);
            }
            assert(bw[r].args =~= bf[r].args);
        } else {
            let q = r - n1;
            assert(bw[r].keys =~= bs[q].keys);
            assert forall|j: int| 0 <= j < ac.len() implies #[trigger] bw[r].args[j] == bs[q].args[j] by {
                assert(bw[r].args[j] =~= bs[q].args[j]);
            }
            assert(bw[r].args =~= bs[q].args);
        }
    }
    assert(bw =~= bf + bs);
    assert(t.rows() + bw =~= (t.rows() + bf) + bs);
}

/// Two operators with the same aggregate functions that were fed the same
/// rows, in whatever blocks, hold the same groups, with the same group-by
/// values and the same accumulator states.
pub proof fn lemma_same_rows_same_groups(t1: &GroupByPartialTransform, t2: &GroupByPartialTransform)
    requires
        t1.wf(),
        t2.wf(),
        t1.kinds_spec() == t2.kinds_spec(),
        t1.rows() == t2.rows(),
    ensures
        forall|k: Seq<u8>| has_entry(t1.entries(), k) == #[trigger] has_entry(t2.entries(), k),
        forall|a: int, b: int|
            0 <= a < t1.entries().len() && 0 <= b < t2.entries().len() && (#[trigger] t1.entries()[a]).key@
                == (#[trigger] t2.entries()[b]).key@ ==> {
                &&& values_view(t1.entries()[a].key_values@) == values_view(
                    t2.entries()[b].key_values@,
                )
                &&& forall|j: int|
                    0 <= j < t1.kinds_spec().len() ==> (#[trigger] t1.entries()[a].slots@[j]).fed()
                        == t2.entries()[b].slots@[j].fed() && state_of(
                        t1.kinds_spec()[j],
                        t1.entries()[a].slots@[j].fed(),
                    ) == state_of(t2.kinds_spec()[j], t2.entries()[b].slots@[j].fed())
            },
{
    let rows = t1.rows();
    assert forall|k: Seq<u8>| has_entry(t1.entries(), k) == #[trigger] has_entry(t2.entries(), k) by {
        lemma_group_rows_members(rows, k);
        if has_entry(t1.entries(), k) {
            let e = choose|e: int| 0 <= e < t1.entries().len() && (#[trigger] t1.entries()[e]).key@ == k;
            assert(group_rows(rows, k).len() > 0);
            let r = choose|r: int| 0 <= r < rows.len() && row_key(#[trigger] rows[r]) == k;
            assert(has_entry(t2.entries(), row_key(rows[r])));
        }
        if has_entry(t2.entries(), k) {
            let e = choose|e: int| 0 <= e < t2.entries().len() && (#[trigger] t2.entries()[e]).key@ == k;
            assert(group_rows(rows, k).len() > 0);
            let r = choose|r: int| 0 <= r < rows.len() && row_key(#[trigger] rows[r]) == k;
            assert(has_entry(t1.entries(), row_key(rows[r])));
        }
    }
}

proof fn lemma_count_of_concat(a: Seq<Seq<ValueView>>, b: Seq<Seq<ValueView>>)
    ensures
        count_of(a + b) == count_of(a) + count_of(b),
    decreases b.len(),
{
    if b.len() == 0 {
        assert(a + b =~= a);
    } else {
        lemma_count_of_concat(a, b.drop_last());
        assert((a + b).drop_last() =~= a + b.drop_last());
    }
}

/// A group's count after rows `first` and then rows `second` (two blocks, or
/// everything before and one block) is its count in `first` plus its count
/// in `second`: the group is one group across blocks.
pub proof fn lemma_count_across_blocks(
    first: Seq<RowView>,
    second: Seq<RowView>,
    k: Seq<u8>,
    j: int,
)
    ensures
        count_of(group_args(first + second, k, j)) == count_of(group_args(first, k, j)) + count_of(
            group_args(second, k, j),
        ),
{
    lemma_group_args_concat(first, second, k, j);
    lemma_count_of_concat(group_args(first, k, j), group_args(second, k, j));
}

/// The sum, over the group keys `keys`, of the rows counted by function `j`.
pub open spec fn count_total(keys: Seq<Seq<u8>>, rows: Seq<RowView>, j: int) -> nat
    decreases keys.len(),
{
    if keys.len() == 0 {
        0
    } else {
        count_total(keys.drop_last(), rows, j) + count_of(group_args(rows, keys.last(), j))
    }
}

/// The sum, over the group keys `keys`, of the sizes of the groups.
pub open spec fn size_total(keys: Seq<Seq<u8>>, rows: Seq<RowView>) -> nat
    decreases keys.len(),
{
    if keys.len() == 0 {
        0
    } else {
        size_total(keys.drop_last(), rows) + group_rows(rows, keys.last()).len()
    }
}

/// How many of `keys` equal `k`.
pub open spec fn occurrences(keys: Seq<Seq<u8>>, k: Seq<u8>) -> nat
    decreases keys.len(),
{
    if keys.len() == 0 {
        0
    } else {
        occurrences(keys.drop_last(), k) + if keys.last() == k {
            1nat
        } else {
            0nat
        }
    }
}

proof fn lemma_occurrences(keys: Seq<Seq<u8>>, k: Seq<u8>)
    requires
        forall|a: int, b: int| 0 <= a < b < keys.len() ==> keys[a] != keys[b],
    ensures
        occurrences(keys, k) == if keys.contains(k) {
            1nat
        } else {
            0nat
        },
    decreases keys.len(),
{
    if keys.len() > 0 {
        let d = keys.drop_last();
        lemma_occurrences(d, k);
        if keys.last() == k && d.contains(k) {
            let a = choose|a: int| 0 <= a < d.len() && d[a] == k;
            assert(keys[a] == keys[keys.len() - 1]);
        }
        if keys.contains(k) && keys.last() != k {
            let a = choose|a: int| 0 <= a < keys.len() && keys[a] == k;
            assert(d[a] == k);
        }
        if d.contains(k) {
            let a = choose|a: int| 0 <= a < d.len() && d[a] == k;
            assert(keys[a] == k);
        }
    }
}

proof fn lemma_size_push(keys: Seq<Seq<u8>>, rows: Seq<RowView>, x: RowView)
    ensures
        size_total(keys, rows.push(x)) == size_total(keys, rows) + occurrences(keys, row_key(x)),
    decreases keys.len(),
{
    if keys.len() > 0 {
        lemma_size_push(keys.drop_last(), rows, x);
        assert(rows.push(x).drop_last() =~= rows);
    }
}

proof fn lemma_size_total(keys: Seq<Seq<u8>>, rows: Seq<RowView>)
    requires
        forall|a: int, b: int| 0 <= a < b < keys.len() ==> keys[a] != keys[b],
        forall|r: int| 0 <= r < rows.len() ==> keys.contains(row_key(#[trigger] rows[r])),
    ensures
        size_total(keys, rows) == rows.len(),
    decreases rows.len(),
{
    if rows.len() == 0 {
        lemma_size_empty(keys, rows);
    } else {
        let d = rows.drop_last();
        assert forall|r: int| 0 <= r < d.len() implies keys.contains(row_key(#[trigger] d[r])) by {
            assert(d[r] == rows[r]);
        }
        lemma_size_total(keys, d);
        lemma_size_push(keys, d, rows.last());
        assert(d.push(rows.last()) =~= rows);
        lemma_occurrences(keys, row_key(rows.last()));
        assert(keys.contains(row_key(rows[rows.len() - 1])));
    }
}

proof fn lemma_size_empty(keys: Seq<Seq<u8>>, rows: Seq<RowView>)
    requires
        rows.len() == 0,
    ensures
        size_total(keys, rows) == 0,
    decreases keys.len(),
{
    if keys.len() > 0 {
        lemma_size_empty(keys.drop_last(), rows);
    }
}

proof fn lemma_count_group(rows: Seq<RowView>, k: Seq<u8>, j: int)
    requires
        forall|r: int| 0 <= r < rows.len() ==> (#[trigger] rows[r]).args[j].len() == 0,
    ensures
        count_of(group_args(rows, k, j)) == group_rows(rows, k).len(),
    decreases rows.len(),
{
    if rows.len() > 0 {
        let d = rows.drop_last();
        assert forall|r: int| 0 <= r < d.len() implies (#[trigger] d[r]).args[j].len() == 0 by {
            assert(d[r] == rows[r]);
        }
        lemma_count_group(d, k, j);
        if row_key(rows.last()) == k {
            assert(group_args(rows, k, j).drop_last() =~= group_args(d, k, j));
            assert(rows.last().args[j].len() == 0);
            assert(counted(group_args(rows, k, j).last()));
        }
    }
}

proof fn lemma_count_total(keys: Seq<Seq<u8>>, rows: Seq<RowView>, j: int)
    requires
        forall|r: int| 0 <= r < rows.len() ==> (#[trigger] rows[r]).args[j].len() == 0,
    ensures
        count_total(keys, rows, j) == size_total(keys, rows),
    decreases keys.len(),
{
    if keys.len() > 0 {
        lemma_count_total(keys.drop_last(), rows, j);
        lemma_count_group(rows, keys.last(), j);
    }
}

/// Every row lands in exactly one group: the counts of a `COUNT(*)` over all
/// groups add up to the number of rows fed.
pub proof fn lemma_count_star_total(t: &GroupByPartialTransform, j: int)
    requires
        t.wf(),
        0 <= j < t.kinds_spec().len(),
        t.kinds_spec()[j] == AggregateKind::Count,
        t.arg_names()[j].len() == 0,
    ensures
        count_total(entry_keys(t.entries()), t.rows(), j) == t.rows().len(),
{
    let keys = entry_keys(t.entries());
    let rows = t.rows();
    assert forall|a: int, b: int| 0 <= a < b < keys.len() implies keys[a] != keys[b] by {
        assert(t.entries()[a].key@ != t.entries()[b].key@);
    }
    assert forall|r: int| 0 <= r < rows.len() implies keys.contains(row_key(#[trigger] rows[r])) by {
        assert(has_entry(t.entries(), row_key(rows[r])));
        let e = choose|e: int| 0 <= e < t.entries().len() && (#[trigger] t.entries()[e]).key@ == row_key(rows[r]);
        assert(keys[e] == row_key(rows[r]));
    }
    assert forall|r: int| 0 <= r < rows.len() implies (#[trigger] rows[r]).args[j].len() == 0 by {
        assert(rows[r].args[j].len() == t.arg_names()[j].len());
    }
    lemma_size_total(keys, rows);
    lemma_count_total(keys, rows, j);
}

} // verus!
