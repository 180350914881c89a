use vstd::prelude::*;
use crate::block::DataBlock;
use crate::group_key::{all_encodable, encode_group_key, encode_key};
use crate::key_index::KeyIndex;
use crate::value::{DataValue, ValueView, values_view};

verus! {

/// The group-by values of row `r`, read from the columns at `gcols`.
pub open spec fn key_values_of(block: DataBlock, gcols: Seq<usize>, r: int) -> Seq<ValueView> {
    Seq::new(gcols.len(), |j: int| block.cell(gcols[j] as int, r))
}

/// The group key of every row of `block`.
pub open spec fn row_keys(block: DataBlock, gcols: Seq<usize>) -> Seq<Seq<u8>> {
    Seq::new(block.num_rows_spec(), |r: int| encode_key(key_values_of(block, gcols, r)))
}

/// The positions, in increasing order, of the keys equal to `k`.
pub open spec fn positions_of(keys: Seq<Seq<u8>>, k: Seq<u8>) -> Seq<int>
    decreases keys.len(),
{
    if keys.len() == 0 {
        Seq::empty()
    } else if keys.last() == k {
        positions_of(keys.drop_last(), k).push(keys.len() - 1)
    } else {
        positions_of(keys.drop_last(), k)
    }
}

pub proof fn lemma_positions_of(keys: Seq<Seq<u8>>, k: Seq<u8>)
    ensures
        forall|i: int|
            0 <= i < positions_of(keys, k).len() ==> 0 <= #[trigger] positions_of(keys, k)[i]
                < keys.len() && keys[positions_of(keys, k)[i]] == k,
        forall|i: int, j: int|
            0 <= i < j < positions_of(keys, k).len() ==> positions_of(keys, k)[i] < positions_of(
                keys,
                k,
            )[j],
        forall|r: int| 0 <= r < keys.len() && keys[r] == k ==> positions_of(keys, k).contains(r),
    decreases keys.len(),
{
    if keys.len() > 0 {
        let p = positions_of(keys.drop_last(), k);
        lemma_positions_of(keys.drop_last(), k);
        assert forall|r: int| 0 <= r < keys.len() && keys[r] == k implies positions_of(
            keys,
            k,
        ).contains(r) by {
            if r < keys.len() - 1 {
                assert(keys.drop_last()[r] == keys[r]);
                let w = choose|w: int| 0 <= w < p.len() && p[w] == r;
                assert(positions_of(keys, k)[w] == r);
            } else {
                assert(positions_of(keys, k)[p.len() as int] == r);
            }
        }
    }
}

/// The rows of one block that share a group key.
pub struct LocalGroup {
    pub key: Vec<u8>,
    /// The rows, in increasing order.
    pub indices: Vec<usize>,
    /// The group-by values of the first of them.
    pub values: Vec<DataValue>,
}

/// Whether some group has key `k`.
pub open spec fn has_group(groups: Seq<LocalGroup>, k: Seq<u8>) -> bool {
    exists|g: int| 0 <= g < groups.len() && (#[trigger] groups[g]).key@ == k
}

/// The keys of the groups, in order.
pub open spec fn group_keys(groups: Seq<LocalGroup>) -> Seq<Seq<u8>> {
    groups.map_values(|g: LocalGroup| g.key@)
}

pub open spec fn index_view(indices: Seq<usize>) -> Seq<int> {
    indices.map_values(|i: usize| i as int)
}

/// What `group_rows` returns: one group for each distinct key of the block,
/// holding exactly the rows with that key.
pub open spec fn groups_of_block(
    block: DataBlock,
    gcols: Seq<usize>,
    groups: Seq<LocalGroup>,
) -> bool {
    let keys = row_keys(block, gcols);
    &&& forall|a: int, b: int|
        0 <= a < groups.len() && 0 <= b < groups.len() && a != b ==> (#[trigger] groups[a]).key@
            != (#[trigger] groups[b]).key@
    &&& forall|g: int|
        0 <= g < groups.len() ==> index_view((#[trigger] groups[g]).indices@) == positions_of(
            keys,
            groups[g].key@,
        )
    &&& forall|g: int|
        0 <= g < groups.len() ==> (#[trigger] groups[g]).indices@.len() > 0 && values_view(
            groups[g].values@,
        ) == key_values_of(block, gcols, groups[g].indices@[0] as int)
    &&& forall|g: int| 0 <= g < groups.len() ==> (#[trigger] groups[g]).key@ == encode_key(
        values_view(groups[g].values@),
    )
    &&& forall|r: int| 0 <= r < keys.len() ==> #[trigger] has_group(groups, keys[r])
    &&& forall|r: int| 0 <= r < keys.len() ==> all_encodable(#[trigger] key_values_of(block, gcols, r))
}

pub fn bytes_equal(a: &Vec<u8>, b: &Vec<u8>) -> (r: bool)
    ensures
        r == (a@ == b@),
{
    if a.len() != b.len() {
        return false;
    }
    let mut i: usize = 0;
    while i < a.len()
        invariant
            a@.len() == b@.len(),
            i <= a.len(),
            forall|j: int| 0 <= j < i ==> a@[j] == b@[j],
        decreases a.len() - i,
    {
        if a[i] != b[i] {
            return false;
        }
        i += 1;
    }
    assert(a@ =~= b@);
    true
}

/// The group-by values of row `r`.
pub fn key_values_at(block: &DataBlock, gcols: &Vec<usize>, r: usize) -> (v: Vec<DataValue>)
    requires
        block.wf(),
        r < block.num_rows_spec(),
        forall|j: int| 0 <= j < gcols@.len() ==> gcols@[j] < block.column_names().len(),
    ensures
        values_view(v@) == key_values_of(*block, gcols@, r as int),
{
    let mut v: Vec<DataValue> = Vec::with_capacity(gcols.len());
    let mut j: usize = 0;
    while j < gcols.len()
        invariant
            block.wf(),
            r < block.num_rows_spec(),
            forall|j: int| 0 <= j < gcols@.len() ==> gcols@[j] < block.column_names().len(),
            j <= gcols.len(),
            values_view(v@) == key_values_of(*block, gcols@, r as int).subrange(0, j as int),
        decreases gcols.len() - j,
    {
        let x = block.value_at(gcols[j], r).copy();
        let ghost old_v = v@;
        v.push(x);
        assert(values_view(v@) == values_view(old_v).push(x@));
        j += 1;
        assert(values_view(v@) =~= key_values_of(*block, gcols@, r as int).subrange(0, j as int));
    }
    assert(key_values_of(*block, gcols@, r as int).subrange(0, j as int) =~= key_values_of(
        *block,
        gcols@,
        r as int,
    ));
    v
}

/// One pass over the rows of `block`: the rows grouped by the key of their
/// values in the columns at `gcols`, groups in order of first appearance.
pub fn group_rows(block: &DataBlock, gcols: &Vec<usize>) -> (groups: Vec<LocalGroup>)
    requires
        block.wf(),
        forall|j: int| 0 <= j < gcols@.len() ==> gcols@[j] < block.column_names().len(),
    ensures
        groups_of_block(*block, gcols@, groups@),
{
    let ghost keys = row_keys(*block, gcols@);
    let n = block.num_rows();
    let mut groups: Vec<LocalGroup> = Vec::new();
    let mut index = KeyIndex::new();
    assert(group_keys(groups@) =~= Seq::<Seq<u8>>::empty());
    let mut r: usize = 0;
    while r < n
        invariant
            block.wf(),
            forall|j: int| 0 <= j < gcols@.len() ==> gcols@[j] < block.column_names().len(),
            n == block.num_rows_spec(),
            keys == row_keys(*block, gcols@),
            r <= n,
            index.indexes(group_keys(groups@)),
            forall|a: int, b: int|
                0 <= a < groups@.len() && 0 <= b < groups@.len() && a != b ==> (#[trigger] groups@[a]).key@
                    != (#[trigger] groups@[b]).key@,
            forall|g: int|
                0 <= g < groups@.len() ==> index_view((#[trigger] groups@[g]).indices@)
                    == positions_of(keys.subrange(0, r as int), groups@[g].key@),
            forall|g: int|
                0 <= g < groups@.len() ==> (#[trigger] groups@[g]).indices@.len() > 0
                    && values_view(groups@[g].values@) == key_values_of(
                    *block,
                    gcols@,
                    groups@[g].indices@[0] as int,
                ),
            forall|g: int| 0 <= g < groups@.len() ==> (#[trigger] groups@[g]).key@ == encode_key(
                values_view(groups@[g].values@),
            ),
            forall|q: int| 0 <= q < r ==> #[trigger] has_group(groups@, keys[q]),
            forall|q: int| 0 <= q < r ==> all_encodable(#[trigger] key_values_of(*block, gcols@, q)),
        decreases n - r,
    {
        let values = key_values_at(block, gcols, r);
        let key = encode_group_key(&values);
        assert(key@ == keys[r as int]);
        let ghost pre = keys.subrange(0, r as int);
        let ghost post = keys.subrange(0, r + 1);
        assert(post.drop_last() =~= pre);
        assert(post.last() == key@);
        let ghost gk = group_keys(groups@);
        let cands = index.candidates(&key);
        proof {
            index.lemma_bucket(gk, key@);
        }
        let mut c: usize = 0;
        let mut g: usize = 0;
        let mut found: bool = false;
        while !found && c < cands.len()
            invariant
                gk == group_keys(groups@),
                cands@ == index.bucket(key@),
                forall|i: int| 0 <= i < cands@.len() ==> #[trigger] cands@[i] < gk.len(),
                c <= cands@.len(),
                found ==> g < groups@.len() && groups@[g as int].key@ == key@,
                !found ==> forall|i: int| 0 <= i < c ==> (#[trigger] groups@[cands@[i] as int]).key@ != key@,
            decreases cands.len() - c + if found {
                0int
            } else {
                1int
            },
        {
            let cand = cands[c];
            if bytes_equal(&groups[cand].key, &key) {
                found = true;
                g = cand;
            } else {
                c += 1;
            }
        }
        let glen = groups.len();
        proof {
            if !found {
                assert forall|h: int| 0 <= h < groups@.len() implies (#[trigger] groups@[h]).key@ != key@ by {
                    if groups@[h].key@ == key@ {
                        assert(gk[h] == key@);
                        assert(h < glen);
                        assert(c == cands@.len());
                        assert(index.bucket(key@).contains(h as usize));
                        let i = choose|i: int| 0 <= i < cands@.len() && cands@[i] == h as usize;
                        assert(cands@[i] as int == h);
                        assert(groups@[cands@[i] as int].key@ != key@);
                    }
                }
            }
        }
        if found {
            let ghost old_groups = groups@;
            let mut grp = groups.remove(g);
            let ghost old_idx = grp.indices@;
            grp.indices.push(r);
            assert(index_view(grp.indices@) =~= index_view(old_idx).push(r as int));
            groups.insert(g, grp);
            assert(group_keys(groups@) =~= group_keys(old_groups));
            assert forall|h: int| 0 <= h < groups@.len() implies index_view(
                (#[trigger] groups@[h]).indices@,
            ) == positions_of(post, groups@[h].key@) by {
                if h != g {
                    assert(groups@[h] == old_groups[h]);
                    assert(old_groups[h].key@ != key@);
                }
            }
            assert forall|a: int, b: int|
                0 <= a < groups@.len() && 0 <= b < groups@.len() && a != b implies (#[trigger] groups@[a]).key@
                    != (#[trigger] groups@[b]).key@ by {
                assert(groups@[a].key@ == old_groups[a].key@);
                assert(groups@[b].key@ == old_groups[b].key@);
            }
            assert forall|h: int| 0 <= h < groups@.len() implies (#[trigger] groups@[h]).indices@.len()
                > 0 && values_view(groups@[h].values@) == key_values_of(
                *block,
                gcols@,
                groups@[h].indices@[0] as int,
            ) by {
                if h != g {
                    assert(groups@[h] == old_groups[h]);
                } else {
                    assert(groups@[h].indices@[0] == old_idx[0]);
                }
            }
            assert forall|h: int| 0 <= h < groups@.len() implies (#[trigger] groups@[h]).key@
                == encode_key(values_view(groups@[h].values@)) by {
                assert(groups@[h].key@ == old_groups[h].key@);
                assert(groups@[h].values@ == old_groups[h].values@);
            }
            assert forall|q: int| 0 <= q < r + 1 implies #[trigger] has_group(groups@, keys[q]) by {
                if q < r {
                    assert(has_group(old_groups, keys[q]));
                    let h = choose|h: int| 0 <= h < old_groups.len() && (#[trigger] old_groups[h]).key@ == keys[q];
                    assert(groups@[h].key@ == old_groups[h].key@);
                } else {
                    assert(groups@[g as int].key@ == keys[q]);
                }
            }
        } else {
            let ghost old_groups = groups@;
            proof {
                lemma_positions_of(pre, key@);
                if positions_of(pre, key@).len() > 0 {
                    let q = positions_of(pre, key@)[0];
                    assert(pre[q] == key@);
                    assert(keys[q] == key@);
                    assert(has_group(old_groups, keys[q]));
                    let h = choose|h: int| 0 <= h < old_groups.len() && (#[trigger] old_groups[h]).key@ == keys[q];
                    assert(old_groups[h].key@ != key@);
                }
            }
            index.add(Ghost(group_keys(old_groups)), &key, groups.len());
            let mut indices: Vec<usize> = Vec::new();
            indices.push(r);
            assert(index_view(indices@) =~= seq![r as int]);
            assert(positions_of(post, key@) =~= seq![r as int]);
            groups.push(LocalGroup { key, indices, values });
            assert(group_keys(groups@) =~= group_keys(old_groups).push(groups@[old_groups.len() as int].key@));
            assert forall|h: int| 0 <= h < groups@.len() implies index_view(
                (#[trigger] groups@[h]).indices@,
            ) == positions_of(post, groups@[h].key@) by {
                if h < old_groups.len() {
                    assert(groups@[h] == old_groups[h]);
                    assert(old_groups[h].key@ != key@);
                }
            }
            assert forall|q: int| 0 <= q < r + 1 implies #[trigger] has_group(groups@, keys[q]) by {
                if q < r {
                    assert(has_group(old_groups, keys[q]));
                    let h = choose|h: int| 0 <= h < old_groups.len() && (#[trigger] old_groups[h]).key@ == keys[q];
                    assert(groups@[h] == old_groups[h]);
                } else {
                    assert(groups@[old_groups.len() as int].key@ == keys[q]);
                }
            }
        }
        r += 1;
    }
    assert(keys.subrange(0, n as int) =~= keys);
    groups
}

} // verus!
