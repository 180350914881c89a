use vstd::prelude::*;
use crate::aggregate::{
    AggregateKind, AggregateState, all_well_typed, kind_of_name, arg_rows, check_types, fits, lemma_slot_fits, state_of,
    well_typed,
};
use crate::block::{DataBlock, first_index};
use crate::error::GroupByError;
use crate::group_key::all_encodable;
use crate::grouper::{
    LocalGroup, group_rows as group_block_rows, groups_of_block, has_group, index_view,
    key_values_of, lemma_positions_of, positions_of, row_keys,
};
use crate::table::{
    GroupEntry, PartialAggregationTable, RowView, entries_wf, entry_index, group_args, group_rows,
    has_entry, lemma_group_rows_concat, lemma_group_rows_members, prior_fed, row_key,
};
use crate::value::{DataValue, ValueView, copy_bytes, copy_values, values_view};

verus! {

/// An aggregate expression: its function, output column name and argument
/// column names.
pub struct AggregateExpr {
    pub kind: AggregateKind,
    pub name: String,
    pub args: Vec<String>,
}

impl AggregateExpr {
    /// The expression calling the function registered under `function`;
    /// `None` where no function has that name.
    pub fn from_function(function: &String, name: String, args: Vec<String>) -> (r: Option<
        AggregateExpr,
    >)
        ensures
            r is Some == kind_of_name(function@) is Some,
            r matches Some(e) ==> {
                &&& Some(e.kind) == kind_of_name(function@)
                &&& e.name@ == name@
                &&& e.args@ == args@
            },
    {
        match AggregateKind::from_name(function) {
            Some(kind) => Some(AggregateExpr { kind, name, args }),
            None => None,
        }
    }
}

pub open spec fn names_view(v: Seq<String>) -> Seq<Seq<char>> {
    v.map_values(|s: String| s@)
}

/// Whether every name is a column of `block`.
pub open spec fn resolves(block: DataBlock, names: Seq<Seq<char>>) -> bool {
    forall|i: int| 0 <= i < names.len() ==> (#[trigger] first_index(block.column_names(), names[i])) is Some
}

/// The position of the first column of each name.
pub open spec fn resolved(block: DataBlock, names: Seq<Seq<char>>) -> Seq<usize> {
    Seq::new(
        names.len(),
        |i: int| first_index(block.column_names(), names[i])->Some_0 as usize,
    )
}

/// The rows of `block` as the aggregation sees them.
pub open spec fn block_rows(block: DataBlock, gcols: Seq<usize>, acols: Seq<Seq<usize>>) -> Seq<
    RowView,
> {
    Seq::new(
        block.num_rows_spec(),
        |r: int|
            RowView {
                keys: key_values_of(block, gcols, r),
                args: Seq::new(acols.len(), |j: int| arg_rows(block, acols[j])[r]),
            },
    )
}

/// Whether, for every row and every function, the state of the row's group
/// fits its machine type.
pub open spec fn all_fit(kinds: Seq<AggregateKind>, rows: Seq<RowView>) -> bool {
    forall|r: int, j: int|
        0 <= r < rows.len() && 0 <= j < kinds.len() ==> fits(
            kinds[j],
            #[trigger] group_args(rows, row_key(rows[r]), j),
        )
}

/// One row of the final output: the state of each function, the group-by
/// values, and the group key.
pub struct GroupOutput {
    pub states: Vec<AggregateState>,
    pub group_keys: Vec<DataValue>,
    pub group_by_key: Vec<u8>,
}

/// Whether some output row has group key `k`.
pub open spec fn has_output(out: Seq<GroupOutput>, k: Seq<u8>) -> bool {
    exists|i: int| 0 <= i < out.len() && (#[trigger] out[i]).group_by_key@ == k
}

/// The partial group-by operator: groups every row of every block it is fed
/// and keeps one accumulator per group and aggregate expression.
pub struct GroupByPartialTransform {
    aggr_exprs: Vec<AggregateExpr>,
    group_exprs: Vec<String>,
    kinds: Vec<AggregateKind>,
    groups: PartialAggregationTable,
    rows: Ghost<Seq<RowView>>,
}

impl GroupByPartialTransform {
    pub closed spec fn kinds_spec(&self) -> Seq<AggregateKind> {
        self.kinds@
    }

    pub closed spec fn group_names(&self) -> Seq<Seq<char>> {
        names_view(self.group_exprs@)
    }

    /// The argument column names of each aggregate expression.
    pub closed spec fn arg_names(&self) -> Seq<Seq<Seq<char>>> {
        self.aggr_exprs@.map_values(|e: AggregateExpr| names_view(e.args@))
    }

    /// The output column name of each aggregate expression.
    pub closed spec fn aggr_names(&self) -> Seq<Seq<char>> {
        self.aggr_exprs@.map_values(|e: AggregateExpr| e.name@)
    }

    /// Every row fed so far, in order.
    pub closed spec fn rows(&self) -> Seq<RowView> {
        self.rows@
    }

    pub closed spec fn entries(&self) -> Seq<GroupEntry> {
        self.groups.entries_spec()
    }

    /// Whether the table's key index locates every entry.
    pub closed spec fn table_ok(&self) -> bool {
        self.groups.index_ok()
    }

    pub closed spec fn consistent(&self) -> bool {
        &&& self.kinds@.len() == self.aggr_exprs@.len()
        &&& forall|j: int| 0 <= j < self.kinds@.len() ==> self.kinds@[j] == (#[trigger] self.aggr_exprs@[j]).kind
    }

    /// The argument columns of each function in `block`.
    pub open spec fn arg_cols(&self, block: DataBlock) -> Seq<Seq<usize>> {
        Seq::new(self.kinds_spec().len(), |j: int| resolved(block, self.arg_names()[j]))
    }

    pub open spec fn names_resolve(&self, block: DataBlock) -> bool {
        &&& resolves(block, self.group_names())
        &&& forall|j: int| 0 <= j < self.kinds_spec().len() ==> resolves(block, #[trigger] self.arg_names()[j])
    }

    pub open spec fn block_typed(&self, block: DataBlock) -> bool {
        forall|j: int|
            0 <= j < self.kinds_spec().len() ==> all_well_typed(
                self.kinds_spec()[j],
                #[trigger] arg_rows(block, self.arg_cols(block)[j]),
            )
    }

    /// The rows of `block` that feeding it adds.
    pub open spec fn block_model(&self, block: DataBlock) -> Seq<RowView> {
        block_rows(block, resolved(block, self.group_names()), self.arg_cols(block))
    }

    /// Whether the table holds exactly one entry for each group key of the
    /// rows fed so far, with the first-seen group-by values and accumulators
    /// fed exactly that group's rows.
    pub open spec fn wf(&self) -> bool {
        let rows = self.rows();
        let entries = self.entries();
        let m = self.kinds_spec().len();
        &&& self.consistent()
        &&& self.table_ok()
        &&& self.arg_names().len() == m
        &&& entries_wf(entries, self.kinds_spec())
        &&& forall|e: int|
            0 <= e < entries.len() ==> {
                let k = (#[trigger] entries[e]).key@;
                &&& group_rows(rows, k).len() > 0
                &&& values_view(entries[e].key_values@) == group_rows(rows, k)[0].keys
                &&& forall|j: int| 0 <= j < m ==> (#[trigger] entries[e].slots@[j]).fed() == group_args(rows, k, j)
            }
        &&& forall|r: int| 0 <= r < rows.len() ==> has_entry(entries, row_key(#[trigger] rows[r]))
        &&& forall|r: int| 0 <= r < rows.len() ==> all_encodable((#[trigger] rows[r]).keys)
        &&& forall|r: int|
            0 <= r < rows.len() ==> (#[trigger] rows[r]).args.len() == m && forall|j: int|
                0 <= j < m ==> (#[trigger] rows[r].args[j]).len() == self.arg_names()[j].len()
    }

    /// An operator with an empty table for the given aggregate and group-by
    /// expressions.
    pub fn create(aggr_exprs: Vec<AggregateExpr>, group_exprs: Vec<String>) -> (r: Self)
        ensures
            r.wf(),
            r.rows() == Seq::<RowView>::empty(),
            r.entries() == Seq::<GroupEntry>::empty(),
            r.group_names() == names_view(group_exprs@),
            r.aggr_names() == aggr_exprs@.map_values(|e: AggregateExpr| e.name@),
            r.arg_names() == aggr_exprs@.map_values(|e: AggregateExpr| names_view(e.args@)),
            r.kinds_spec() == aggr_exprs@.map_values(|e: AggregateExpr| e.kind),
    {
        let mut kinds: Vec<AggregateKind> = Vec::with_capacity(aggr_exprs.len());
        let mut j: usize = 0;
        while j < aggr_exprs.len()
            invariant
                j <= aggr_exprs@.len(),
                kinds@.len() == j,
                forall|i: int| 0 <= i < j ==> kinds@[i] == (#[trigger] aggr_exprs@[i]).kind,
            decreases aggr_exprs.len() - j,
        {
            kinds.push(aggr_exprs[j].kind);
            j += 1;
        }
        let r = GroupByPartialTransform {
            aggr_exprs,
            group_exprs,
            kinds,
            groups: PartialAggregationTable::create(),
            rows: Ghost(Seq::empty()),
        };
        assert(r.kinds_spec() =~= r.aggr_exprs@.map_values(|e: AggregateExpr| e.kind));
        assert(r.entries() =~= Seq::<GroupEntry>::empty());
        r
    }

    /// Groups the rows of `block` and feeds each group's rows, gathered into
    /// one block, to the group's accumulators, creating the group on its
    /// first row. Any error leaves the operator unusable.
    pub fn process_block(&mut self, block: &DataBlock) -> (r: Result<(), GroupByError>)
        requires
            old(self).wf(),
            block.wf(),
        ensures
            final(self).kinds_spec() == old(self).kinds_spec(),
            final(self).group_names() == old(self).group_names(),
            final(self).arg_names() == old(self).arg_names(),
            r is Ok || r == Err::<(), _>(GroupByError::MissingColumn) || r == Err::<(), _>(
                GroupByError::ArgumentMismatch,
            ) || r == Err::<(), _>(GroupByError::Overflow),
            (r == Err::<(), _>(GroupByError::MissingColumn)) == !(resolves(*block, old(self).group_names()) && (
            block.num_rows_spec() == 0 || old(self).names_resolve(*block))),
            block.num_rows_spec() == 0 && resolves(*block, old(self).group_names()) ==> {
                &&& r is Ok
                &&& final(self).wf()
                &&& final(self).rows() == old(self).rows()
            },
            old(self).names_resolve(*block) ==> (r == Err::<(), _>(GroupByError::ArgumentMismatch))
                == !old(self).block_typed(*block),
            old(self).names_resolve(*block) && old(self).block_typed(*block) ==> (r == Err::<
                (),
                _,
            >(GroupByError::Overflow)) == !all_fit(
                old(self).kinds_spec(),
                old(self).rows() + old(self).block_model(*block),
            ),
            r is Ok ==> final(self).wf() && final(self).rows() == old(self).rows() + old(
                self,
            ).block_model(*block),
    {
        let gcols = match resolve_columns(block, &self.group_exprs) {
            Some(v) => v,
            None => {
                return Err(GroupByError::MissingColumn);
            },
        };
        if block.num_rows() == 0 {
            proof {
                assert(old(self).rows() + old(self).block_model(*block) =~= old(self).rows());
                lemma_wf_all_fit(self);
            }
            return Ok(());
        }
        let m = self.kinds.len();
        let ghost acv = self.arg_cols(*block);
        let mut acols: Vec<Vec<usize>> = Vec::with_capacity(m);
        let mut j: usize = 0;
        while j < m
            invariant
                *self == *old(self),
                old(self).wf(),
                m == self.kinds@.len(),
                acv == self.arg_cols(*block),
                block.num_rows_spec() > 0,
                j <= m,
                acols@.len() == j,
                forall|i: int| 0 <= i < j ==> resolves(*block, #[trigger] self.arg_names()[i]),
                forall|i: int| 0 <= i < j ==> (#[trigger] acols@[i])@ == acv[i],
                forall|i: int, c: int|
                    0 <= i < j && 0 <= c < acols@[i]@.len() ==> #[trigger] acols@[i]@[c]
                        < block.column_names().len(),
            decreases m - j,
        {
            assert(self.arg_names()[j as int] == names_view(self.aggr_exprs@[j as int].args@));
            match resolve_columns(block, &self.aggr_exprs[j].args) {
                Some(v) => {
                    acols.push(v);
                },
                None => {
                    return Err(GroupByError::MissingColumn);
                },
            }
            j += 1;
        }
        assert(old(self).names_resolve(*block));
        let mut j: usize = 0;
        while j < m
            invariant
                *self == *old(self),
                old(self).wf(),
                old(self).names_resolve(*block),
                m == self.kinds@.len(),
                acv == self.arg_cols(*block),
                block.wf(),
                j <= m,
                acols@.len() == m,
                forall|i: int| 0 <= i < m ==> (#[trigger] acols@[i])@ == acv[i],
                forall|i: int, c: int|
                    0 <= i < m && 0 <= c < acols@[i]@.len() ==> #[trigger] acols@[i]@[c]
                        < block.column_names().len(),
                forall|i: int|
                    0 <= i < j ==> all_well_typed(self.kinds@[i], #[trigger] arg_rows(*block, acv[i])),
            decreases m - j,
        {
            if !check_types(self.kinds[j], block, &acols[j]) {
                assert(!all_well_typed(self.kinds@[j as int], arg_rows(*block, acv[j as int])));
                return Err(GroupByError::ArgumentMismatch);
            }
            j += 1;
        }
        let lg = group_block_rows(block, &gcols);
        let ghost rows = self.rows@;
        let ghost b = self.block_model(*block);
        let ghost kinds = self.kinds@;
        assert(b == block_rows(*block, gcols@, acv));
        assert forall|i: int, c: int|
            0 <= i < m && 0 <= c < acv[i].len() implies #[trigger] acv[i][c] < block.column_names().len() by {
            assert(acols@[i]@ == acv[i]);
            assert(acols@[i]@[c] < block.column_names().len());
        }
        assert(old(self).block_typed(*block));
        let mut g: usize = 0;
        while g < lg.len()
            invariant
                old(self).wf(),
                block.wf(),
                self.kinds == old(self).kinds,
                self.aggr_exprs == old(self).aggr_exprs,
                self.group_exprs == old(self).group_exprs,
                self.rows == old(self).rows,
                rows == old(self).rows(),
                kinds == self.kinds@,
                m == kinds.len(),
                acv == old(self).arg_cols(*block),
                b == block_rows(*block, gcols@, acv),
                b == old(self).block_model(*block),
                old(self).names_resolve(*block),
                old(self).block_typed(*block),
                kinds == old(self).kinds_spec(),
                acols@.len() == m,
                forall|i: int| 0 <= i < m ==> (#[trigger] acols@[i])@ == acv[i],
                forall|i: int, c: int|
                    0 <= i < m && 0 <= c < acols@[i]@.len() ==> #[trigger] acols@[i]@[c]
                        < block.column_names().len(),
                forall|i: int| 0 <= i < m ==> all_well_typed(kinds[i], #[trigger] arg_rows(*block, acv[i])),
                forall|c: int| 0 <= c < gcols@.len() ==> #[trigger] gcols@[c] < block.column_names().len(),
                groups_of_block(*block, gcols@, lg@),
                forall|i: int, c: int|
                    0 <= i < m && 0 <= c < acv[i].len() ==> #[trigger] acv[i][c] < block.column_names().len(),
                g <= lg@.len(),
                entries_wf(self.groups.entries_spec(), kinds),
                self.groups.index_ok(),
                forall|e: int|
                    0 <= e < self.groups.entries_spec().len() ==> {
                        let entry = #[trigger] self.groups.entries_spec()[e];
                        let cur = mid_rows(rows, b, lg@, g as int, entry.key@);
                        &&& cur.len() > 0
                        &&& values_view(entry.key_values@) == cur[0].keys
                        &&& forall|j: int| 0 <= j < m ==> (#[trigger] entry.slots@[j]).fed() == args_of(cur, j)
                    },
                forall|r: int| 0 <= r < rows.len() ==> has_entry(self.groups.entries_spec(), row_key(#[trigger] rows[r])),
                forall|h: int| 0 <= h < g ==> has_entry(self.groups.entries_spec(), (#[trigger] lg@[h]).key@),
            decreases lg.len() - g,
        {
            let grp = &lg[g];
            let ghost k = grp.key@;
            let ghost old_entries = self.groups.entries_spec();
            proof {
                assert(index_view(lg@[g as int].indices@) == positions_of(row_keys(*block, gcols@), k));
                lemma_positions_of(row_keys(*block, gcols@), k);
                assert forall|i: int| 0 <= i < grp.indices@.len() implies grp.indices@[i] < block.num_rows_spec() by {
                    assert(index_view(grp.indices@)[i] == grp.indices@[i] as int);
                }
            }
            let taken = block.take_rows(&grp.indices);
            let key = copy_bytes(&grp.key);
            let values = copy_values(&grp.values);
            proof {
                lemma_gathered(*block, gcols@, acv, *grp, taken);
                assert(!processed(lg@, g as int, k));
                assert forall|j: int, c: int|
                    0 <= j < acols@.len() && 0 <= c < acols@[j]@.len() implies #[trigger] acols@[j]@[c]
                        < taken.column_names().len() by {}
            }
            let res = self.groups.upsert(key, values, &self.kinds, &acols, &taken);
            proof {
                let gb = group_rows(b, k);
                let gr = group_rows(rows, k);
                assert forall|j: int| 0 <= j < m implies all_well_typed(kinds[j], #[trigger] arg_rows(taken, acols@[j]@)) by {
                    assert(arg_rows(taken, acv[j]) == args_of(gb, j));
                    assert forall|i: int| 0 <= i < arg_rows(taken, acv[j]).len() implies well_typed(kinds[j], #[trigger] arg_rows(taken, acv[j])[i]) by {
                        let q = grp.indices@[i] as int;
                        assert forall|x: int| 0 <= x < acv[j].len() implies taken.cell(acv[j][x] as int, i) == block.cell(acv[j][x] as int, q) by {
                            assert(acv[j][x] < block.column_names().len());
                        }
                        assert(arg_rows(taken, acv[j])[i] =~= arg_rows(*block, acv[j])[q]);
                        assert(all_well_typed(kinds[j], arg_rows(*block, acv[j])));
                    }
                }
                if !has_entry(old_entries, k) {
                    lemma_group_rows_members(rows, k);
                    if gr.len() > 0 {
                        let r = choose|r: int| 0 <= r < rows.len() && row_key(#[trigger] rows[r]) == k;
                        assert(has_entry(old_entries, row_key(rows[r])));
                    }
                    assert(gr.len() == 0);
                } else {
                    let p = entry_index(old_entries, k);
                    assert(old_entries[p].key@ == k);
                    assert forall|j: int| 0 <= j < m implies prior_fed(old_entries, k, j) == args_of(gr, j) by {
                        assert(old_entries[p].slots@[j].fed() == args_of(mid_rows(rows, b, lg@, g as int, k), j));
                    }
                }
            }
            if res.is_err() {
                proof {
                    let gb = group_rows(b, k);
                    let gr = group_rows(rows, k);
                    let j = choose|j: int| 0 <= j < kinds.len() && !fits(kinds[j], #[trigger] prior_fed(old_entries, k, j) + arg_rows(taken, acols@[j]@));
                    assert(prior_fed(old_entries, k, j) + arg_rows(taken, acols@[j]@) =~= group_args(rows + b, k, j)) by {
                        lemma_group_rows_concat(rows, b, k);
                        assert(arg_rows(taken, acv[j]) == args_of(gb, j));
                        if !has_entry(old_entries, k) {
                            assert(prior_fed(old_entries, k, j) =~= args_of(gr, j));
                        }
                    }
                    let q = rows.len() + grp.indices@[0] as int;
                    assert((rows + b)[q] == b[grp.indices@[0] as int]);
                    assert(row_key(b[grp.indices@[0] as int]) == k) by {
                        lemma_group_rows_members(b, k);
                        assert(gb[0] == b[grp.indices@[0] as int]);
                    }
                    assert(!fits(kinds[j], group_args(rows + b, row_key((rows + b)[q]), j)));
                }
                return Err(GroupByError::Overflow);
            }
            proof {
                let entries = self.groups.entries_spec();
                let gb = group_rows(b, k);
                let gr = group_rows(rows, k);
                let found = has_entry(old_entries, k);
                let at = if found {
                    entry_index(old_entries, k)
                } else {
                    old_entries.len() as int
                };
                assert(lg@[g as int].key@ == k);
                assert(processed(lg@, g + 1, k));
                assert(entries[at].key@ == k);
                assert forall|e: int| 0 <= e < entries.len() && e != at implies #[trigger] entries[e]
                    == old_entries[e] by {}
                assert forall|e: int|
                    0 <= e < entries.len() implies {
                        let entry = #[trigger] entries[e];
                        let cur = mid_rows(rows, b, lg@, g + 1, entry.key@);
                        &&& cur.len() > 0
                        &&& values_view(entry.key_values@) == cur[0].keys
                        &&& forall|j: int| 0 <= j < m ==> (#[trigger] entry.slots@[j]).fed() == args_of(cur, j)
                    } by {
                    let entry = entries[e];
                    if e == at {
                        assert(mid_rows(rows, b, lg@, g + 1, k) == gr + gb);
                        assert forall|j: int| 0 <= j < m implies (#[trigger] entry.slots@[j]).fed() == args_of(gr + gb, j) by {
                            assert(args_of(gr + gb, j) =~= args_of(gr, j) + args_of(gb, j));
                            assert(arg_rows(taken, acv[j]) == args_of(gb, j));
                            if !found {
                                assert(prior_fed(old_entries, k, j) =~= args_of(gr, j));
                            } else {
                                let p = entry_index(old_entries, k);
                                assert(old_entries[p].key@ == k);
                                assert(!processed(lg@, g as int, k));
                                assert(old_entries[p].slots@[j].fed() == args_of(mid_rows(rows, b, lg@, g as int, k), j));
                            }
                            assert(acols@[j]@ == acv[j]);
                        }
                        if found {
                            assert(old_entries[at].key@ == k);
                            assert(mid_rows(rows, b, lg@, g as int, k) == gr);
                        } else {
                            assert(gr + gb =~= gb);
                            assert(values_view(lg@[g as int].values@) == key_values_of(*block, gcols@, lg@[g as int].indices@[0] as int));
                        }
                    } else {
                        assert(entry == old_entries[e]);
                        assert(entry.key@ != k);
                        assert(processed(lg@, g + 1, entry.key@) == processed(lg@, g as int, entry.key@)) by {
                            if processed(lg@, g + 1, entry.key@) {
                                let h = choose|h: int| 0 <= h < g + 1 && (#[trigger] lg@[h]).key@ == entry.key@;
                                assert(h != g);
                            }
                        }
                    }
                }
                assert forall|x: Seq<u8>| has_entry(old_entries, x) implies has_entry(entries, x) by {
                    let e = choose|e: int| 0 <= e < old_entries.len() && (#[trigger] old_entries[e]).key@ == x;
                    if e != at {
                        assert(entries[e] == old_entries[e]);
                    } else {
                        assert(entries[at].key@ == k);
                    }
                }
                assert forall|r: int| 0 <= r < rows.len() implies has_entry(entries, row_key(#[trigger] rows[r])) by {
                    assert(has_entry(old_entries, row_key(rows[r])));
                }
                assert forall|h: int| 0 <= h < g + 1 implies has_entry(entries, (#[trigger] lg@[h]).key@) by {
                    if h < g {
                        assert(has_entry(old_entries, lg@[h].key@));
                    } else {
                        assert(entries[at].key@ == lg@[h].key@);
                    }
                }
            }
            g += 1;
        }
        proof {
            let entries = self.groups.entries_spec();
            let keys = row_keys(*block, gcols@);
            let nr = rows + b;
            assert forall|r: int| 0 <= r < b.len() implies keys[r] == row_key(#[trigger] b[r]) by {}
            assert forall|e: int| 0 <= e < entries.len() implies mid_rows(rows, b, lg@, g as int, (#[trigger] entries[e]).key@)
                == group_rows(nr, entries[e].key@) by {
                let k = entries[e].key@;
                lemma_group_rows_concat(rows, b, k);
                if !processed(lg@, g as int, k) {
                    lemma_group_rows_members(b, k);
                    if group_rows(b, k).len() > 0 {
                        let r = choose|r: int| 0 <= r < b.len() && row_key(#[trigger] b[r]) == k;
                        assert(has_group(lg@, keys[r]));
                        let h = choose|h: int| 0 <= h < lg@.len() && (#[trigger] lg@[h]).key@ == keys[r];
                        assert(processed(lg@, g as int, k));
                    }
                    assert(group_rows(rows, k) + group_rows(b, k) =~= group_rows(rows, k));
                }
            }
            assert forall|r: int| 0 <= r < nr.len() implies has_entry(entries, row_key(#[trigger] nr[r])) by {
                if r < rows.len() {
                    assert(nr[r] == rows[r]);
                } else {
                    let q = r - rows.len();
                    assert(nr[r] == b[q]);
                    assert(has_group(lg@, keys[q]));
                    let h = choose|h: int| 0 <= h < lg@.len() && (#[trigger] lg@[h]).key@ == keys[q];
                    assert(has_entry(entries, lg@[h].key@));
                }
            }
            assert forall|r: int| 0 <= r < nr.len() implies all_encodable((#[trigger] nr[r]).keys) by {
                if r < rows.len() {
                    assert(nr[r] == rows[r]);
                } else {
                    assert(nr[r] == b[r - rows.len()]);
                    assert(all_encodable(key_values_of(*block, gcols@, r - rows.len())));
                }
            }
            assert forall|r: int| 0 <= r < nr.len() implies (#[trigger] nr[r]).args.len() == m && forall|j: int|
                0 <= j < m ==> (#[trigger] nr[r].args[j]).len() == old(self).arg_names()[j].len() by {
                if r < rows.len() {
                    assert(nr[r] == rows[r]);
                } else {
                    assert(nr[r] == b[r - rows.len()]);
                }
            }
        }
        self.rows = Ghost(rows + b);
        proof {
            lemma_wf_all_fit(self);
        }
        Ok(())
    }

    /// Drains the table: one output row per group, holding the state of each
    /// function, the first-seen group-by values and the group key. No rows
    /// fed means no output rows.
    pub fn finish(self) -> (out: Vec<GroupOutput>)
        requires
            self.wf(),
        ensures
            out@.len() == self.entries().len(),
            self.rows().len() == 0 ==> out@.len() == 0,
            forall|a: int, b: int|
                0 <= a < out@.len() && 0 <= b < out@.len() && a != b ==> (#[trigger] out@[a]).group_by_key@
                    != (#[trigger] out@[b]).group_by_key@,
            forall|i: int|
                0 <= i < out@.len() ==> {
                    let k = (#[trigger] out@[i]).group_by_key@;
                    &&& k == self.entries()[i].key@
                    &&& group_rows(self.rows(), k).len() > 0
                    &&& values_view(out@[i].group_keys@) == group_rows(self.rows(), k)[0].keys
                    &&& out@[i].states@.len() == self.kinds_spec().len()
                    &&& forall|j: int|
                        0 <= j < self.kinds_spec().len() ==> #[trigger] out@[i].states@[j] == state_of(
                            self.kinds_spec()[j],
                            group_args(self.rows(), k, j),
                        )
                },
            forall|r: int| 0 <= r < self.rows().len() ==> has_output(out@, row_key(#[trigger] self.rows()[r])),
    {
        proof {
            lemma_no_rows_no_groups(&self);
        }
        let ghost rows = self.rows();
        let ghost kinds = self.kinds_spec();
        let m = self.kinds.len();
        let entries = self.groups.into_entries();
        let mut out: Vec<GroupOutput> = Vec::with_capacity(entries.len());
        let mut i: usize = 0;
        while i < entries.len()
            invariant
                m == kinds.len(),
                entries_wf(entries@, kinds),
                i <= entries@.len(),
                out@.len() == i,
                forall|e: int|
                    0 <= e < entries@.len() ==> {
                        let k = (#[trigger] entries@[e]).key@;
                        &&& group_rows(rows, k).len() > 0
                        &&& values_view(entries@[e].key_values@) == group_rows(rows, k)[0].keys
                        &&& forall|j: int| 0 <= j < m ==> (#[trigger] entries@[e].slots@[j]).fed() == group_args(rows, k, j)
                    },
                forall|e: int|
                    0 <= e < i ==> {
                        let k = (#[trigger] out@[e]).group_by_key@;
                        &&& k == entries@[e].key@
                        &&& values_view(out@[e].group_keys@) == values_view(entries@[e].key_values@)
                        &&& out@[e].states@.len() == m
                        &&& forall|j: int|
                            0 <= j < m ==> #[trigger] out@[e].states@[j] == state_of(kinds[j], group_args(rows, k, j))
                    },
            decreases entries.len() - i,
        {
            let entry = &entries[i];
            let mut states: Vec<AggregateState> = Vec::with_capacity(m);
            let mut j: usize = 0;
            while j < m
                invariant
                    m == kinds.len(),
                    entries_wf(entries@, kinds),
                    i < entries@.len(),
                    entry == entries@[i as int],
                    forall|j: int| 0 <= j < m ==> (#[trigger] entry.slots@[j]).fed() == group_args(rows, entry.key@, j),
                    j <= m,
                    states@.len() == j,
                    forall|x: int| 0 <= x < j ==> #[trigger] states@[x] == state_of(kinds[x], group_args(rows, entry.key@, x)),
                decreases m - j,
            {
                assert(entry.slots@[j as int].wf());
                let st = entry.slots[j].result();
                states.push(st);
                j += 1;
            }
            let group_by_key = copy_bytes(&entry.key);
            let group_keys = copy_values(&entry.key_values);
            out.push(GroupOutput { states, group_keys, group_by_key });
            i += 1;
        }
        proof {
            assert forall|r: int| 0 <= r < rows.len() implies has_output(out@, row_key(#[trigger] rows[r])) by {
                assert(has_entry(entries@, row_key(rows[r])));
                let e = choose|e: int| 0 <= e < entries@.len() && (#[trigger] entries@[e]).key@ == row_key(rows[r]);
                assert(out@[e].group_by_key@ == row_key(rows[r]));
            }
            assert forall|a: int, b: int|
                0 <= a < out@.len() && 0 <= b < out@.len() && a != b implies (#[trigger] out@[a]).group_by_key@
                    != (#[trigger] out@[b]).group_by_key@ by {
                assert(entries@[a].key@ != entries@[b].key@);
            }
        }
        out
    }

    /// The number of groups so far.
    pub fn num_groups(&self) -> (r: usize)
        ensures
            r == self.entries().len(),
    {
        self.groups.len()
    }

    /// The output column names: one per aggregate expression, then the
    /// group-by values and the group key.
    pub fn output_field_names(&self) -> (r: Vec<String>)
        ensures
            r@.len() == self.aggr_names().len() + 2,
            forall|j: int| 0 <= j < self.aggr_names().len() ==> (#[trigger] r@[j])@ == self.aggr_names()[j],
            r@[self.aggr_names().len() as int]@ == "_group_keys"@,
            r@[self.aggr_names().len() as int + 1]@ == "_group_by_key"@,
    {
        let mut r: Vec<String> = Vec::new();
        let mut j: usize = 0;
        while j < self.aggr_exprs.len()
            invariant
                j <= self.aggr_exprs@.len(),
                r@.len() == j,
                forall|i: int| 0 <= i < j ==> (#[trigger] r@[i])@ == self.aggr_names()[i],
            decreases self.aggr_exprs.len() - j,
        {
            r.push(self.aggr_exprs[j].name.clone());
            j += 1;
        }
        r.push(String::from_str("_group_keys"));
        r.push(String::from_str("_group_by_key"));
        r
    }

    /// The name of this operator.
    pub fn name(&self) -> (r: &'static str)
        ensures
            r@ == "GroupByPartialTransform"@,
    {
        "GroupByPartialTransform"
    }
}

/// The argument tuples of function `j` of `rows`.
pub open spec fn args_of(rows: Seq<RowView>, j: int) -> Seq<Seq<ValueView>> {
    rows.map_values(|r: RowView| r.args[j])
}

/// Whether one of the first `g` local groups has key `k`.
pub open spec fn processed(lg: Seq<LocalGroup>, g: int, k: Seq<u8>) -> bool {
    exists|h: int| 0 <= h < g && (#[trigger] lg[h]).key@ == k
}

/// The rows that the entry with key `k` has been fed once the first `g` local
/// groups of the block `b` are in.
pub open spec fn mid_rows(
    rows: Seq<RowView>,
    b: Seq<RowView>,
    lg: Seq<LocalGroup>,
    g: int,
    k: Seq<u8>,
) -> Seq<RowView> {
    if processed(lg, g, k) {
        group_rows(rows, k) + group_rows(b, k)
    } else {
        group_rows(rows, k)
    }
}

/// The rows with key `k` are those at the positions of `k` among their keys.
proof fn lemma_positions_match_group(rows: Seq<RowView>, keys: Seq<Seq<u8>>, k: Seq<u8>)
    requires
        keys.len() == rows.len(),
        forall|r: int| 0 <= r < rows.len() ==> keys[r] == row_key(#[trigger] rows[r]),
    ensures
        group_rows(rows, k) == Seq::new(
            positions_of(keys, k).len(),
            |i: int| rows[positions_of(keys, k)[i]],
        ),
    decreases rows.len(),
{
    if rows.len() > 0 {
        let rd = rows.drop_last();
        let kd = keys.drop_last();
        assert forall|r: int| 0 <= r < rd.len() implies kd[r] == row_key(#[trigger] rd[r]) by {
            assert(rd[r] == rows[r]);
        }
        lemma_positions_match_group(rd, kd, k);
        lemma_positions_of(kd, k);
        assert(keys.last() == row_key(rows.last()));
        assert(group_rows(rows, k) =~= Seq::new(
            positions_of(keys, k).len(),
            |i: int| rows[positions_of(keys, k)[i]],
        ));
    }
}

/// The rows gathered for one local group are the block's rows with its key.
proof fn lemma_gathered(
    block: DataBlock,
    gcols: Seq<usize>,
    acols: Seq<Seq<usize>>,
    grp: LocalGroup,
    taken: DataBlock,
)
    requires
        block.wf(),
        forall|j: int, c: int|
            0 <= j < acols.len() && 0 <= c < acols[j].len() ==> #[trigger] acols[j][c]
                < block.column_names().len(),
        index_view(grp.indices@) == positions_of(row_keys(block, gcols), grp.key@),
        grp.indices@.len() > 0,
        taken.num_rows_spec() == grp.indices@.len(),
        forall|c: int, i: int|
            0 <= c < block.column_names().len() && 0 <= i < grp.indices@.len() ==> #[trigger] taken.cell(c, i)
                == block.cell(c, grp.indices@[i] as int),
    ensures
        ({
            let b = block_rows(block, gcols, acols);
            let gb = group_rows(b, grp.key@);
            &&& gb.len() == grp.indices@.len()
            &&& gb[0] == b[grp.indices@[0] as int]
            &&& forall|j: int| 0 <= j < acols.len() ==> #[trigger] arg_rows(taken, acols[j]) == args_of(gb, j)
            &&& forall|i: int| 0 <= i < gb.len() ==> 0 <= #[trigger] grp.indices@[i] < block.num_rows_spec()
        }),
{
    let b = block_rows(block, gcols, acols);
    let keys = row_keys(block, gcols);
    let k = grp.key@;
    assert forall|r: int| 0 <= r < b.len() implies keys[r] == row_key(#[trigger] b[r]) by {}
    lemma_positions_match_group(b, keys, k);
    lemma_positions_of(keys, k);
    let pos = positions_of(keys, k);
    assert forall|i: int| 0 <= i < pos.len() implies pos[i] == grp.indices@[i] as int by {
        assert(index_view(grp.indices@)[i] == grp.indices@[i] as int);
    }
    let gb = group_rows(b, k);
    assert forall|i: int| 0 <= i < gb.len() implies 0 <= #[trigger] grp.indices@[i] < block.num_rows_spec() by {
        assert(pos[i] == grp.indices@[i] as int);
    }
    assert forall|j: int| 0 <= j < acols.len() implies #[trigger] arg_rows(taken, acols[j]) == args_of(gb, j) by {
        assert forall|i: int| 0 <= i < gb.len() implies arg_rows(taken, acols[j])[i] == args_of(gb, j)[i] by {
            assert(pos[i] == grp.indices@[i] as int);
            assert(arg_rows(taken, acols[j])[i] =~= arg_rows(block, acols[j])[pos[i]]);
        }
        assert(arg_rows(taken, acols[j]) =~= args_of(gb, j));
    }
}

/// No rows fed means no groups; a block without rows adds no rows.
pub proof fn lemma_no_rows_no_groups(t: &GroupByPartialTransform)
    requires
        t.wf(),
    ensures
        t.rows().len() == 0 ==> t.entries().len() == 0,
        forall|block: DataBlock| block.num_rows_spec() == 0 ==> #[trigger] t.block_model(block).len() == 0,
{
    if t.rows().len() == 0 && t.entries().len() > 0 {
        let k = t.entries()[0].key@;
        assert(group_rows(t.rows(), k).len() > 0);
        assert(group_rows(t.rows(), k) =~= Seq::<RowView>::empty());
    }
}

/// Every group's state fits its machine type.
proof fn lemma_wf_all_fit(t: &GroupByPartialTransform)
    requires
        t.wf(),
    ensures
        all_fit(t.kinds_spec(), t.rows()),
{
    let rows = t.rows();
    let entries = t.entries();
    assert forall|r: int, j: int|
        0 <= r < rows.len() && 0 <= j < t.kinds_spec().len() implies fits(
        t.kinds_spec()[j],
        #[trigger] group_args(rows, row_key(rows[r]), j),
    ) by {
        let k = row_key(rows[r]);
        assert(has_entry(entries, k));
        let e = choose|e: int| 0 <= e < entries.len() && (#[trigger] entries[e]).key@ == k;
        assert(entries[e].slots@[j].wf());
        assert(entries[e].slots@[j].fed() == group_args(rows, k, j));
        lemma_slot_fits(entries[e].slots@[j]);
    }
}

/// The positions of the first columns called `names`.
fn resolve_columns(block: &DataBlock, names: &Vec<String>) -> (r: Option<Vec<usize>>)
    ensures
        r is Some == resolves(*block, names_view(names@)),
        r matches Some(v) ==> v@ == resolved(*block, names_view(names@)) && forall|i: int|
            0 <= i < v@.len() ==> #[trigger] v@[i] < block.column_names().len(),
{
    let ghost nv = names_view(names@);
    let mut v: Vec<usize> = Vec::with_capacity(names.len());
    let mut i: usize = 0;
    while i < names.len()
        invariant
            nv == names_view(names@),
            i <= names@.len(),
            v@.len() == i,
            forall|k: int| 0 <= k < i ==> (#[trigger] first_index(block.column_names(), nv[k])) is Some,
            forall|k: int| 0 <= k < i ==> v@[k] == first_index(block.column_names(), nv[k])->Some_0,
            forall|k: int| 0 <= k < i ==> #[trigger] v@[k] < block.column_names().len(),
        decreases names.len() - i,
    {
        match block.column_index(&names[i]) {
            Some(c) => {
                v.push(c);
            },
            None => {
                assert(first_index(block.column_names(), nv[i as int]) is None);
                return None;
            },
        }
        i += 1;
    }
    assert(v@ =~= resolved(*block, nv));
    Some(v)
}

} // verus!
