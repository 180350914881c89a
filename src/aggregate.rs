use vstd::prelude::*;
use crate::block::DataBlock;
use crate::error::GroupByError;
use crate::value::{DataValue, ValueView};

verus! {

/// The aggregate functions.
#[derive(Debug, Clone, Copy, PartialEq, Eq, Structural)]
pub enum AggregateKind {
    /// The rows whose arguments are all non-null (every row when there are none).
    Count,
    /// The sum of the non-null 64-bit integers of the single argument.
    Sum,
    /// The least non-null 64-bit integer of the single argument.
    Min,
    /// The greatest non-null 64-bit integer of the single argument.
    Max,
}

/// The function a name stands for, in lower or upper case.
pub open spec fn kind_of_name(n: Seq<char>) -> Option<AggregateKind> {
    if n == "count"@ || n == "COUNT"@ {
        Some(AggregateKind::Count)
    } else if n == "sum"@ || n == "SUM"@ {
        Some(AggregateKind::Sum)
    } else if n == "min"@ || n == "MIN"@ {
        Some(AggregateKind::Min)
    } else if n == "max"@ || n == "MAX"@ {
        Some(AggregateKind::Max)
    } else {
        None
    }
}

impl AggregateKind {
    /// The function registered under `name`.
    pub fn from_name(name: &String) -> (r: Option<AggregateKind>)
        ensures
            r == kind_of_name(name@),
    {
        if *name == String::from_str("count") || *name == String::from_str("COUNT") {
            Some(AggregateKind::Count)
        } else if *name == String::from_str("sum") || *name == String::from_str("SUM") {
            Some(AggregateKind::Sum)
        } else if *name == String::from_str("min") || *name == String::from_str("MIN") {
            Some(AggregateKind::Min)
        } else if *name == String::from_str("max") || *name == String::from_str("MAX") {
            Some(AggregateKind::Max)
        } else {
            None
        }
    }
}

/// The running state of an accumulator.
#[derive(Debug, Clone, Copy, PartialEq, Eq, Structural)]
pub enum AggregateState {
    Count(u64),
    Sum(i128),
    Min(Option<i64>),
    Max(Option<i64>),
}

/// The argument tuples of the rows of `block`, the arguments read from the
/// columns at `args`.
pub open spec fn arg_rows(block: DataBlock, args: Seq<usize>) -> Seq<Seq<ValueView>> {
    Seq::new(
        block.num_rows_spec(),
        |r: int| Seq::new(args.len(), |j: int| block.cell(args[j] as int, r)),
    )
}

/// Whether the function takes the argument tuple `row`.
pub open spec fn well_typed(kind: AggregateKind, row: Seq<ValueView>) -> bool {
    match kind {
        AggregateKind::Count => true,
        _ => row.len() == 1 && (row[0] is Null || row[0] is Int64),
    }
}

pub open spec fn all_well_typed(kind: AggregateKind, rows: Seq<Seq<ValueView>>) -> bool {
    forall|r: int| 0 <= r < rows.len() ==> well_typed(kind, #[trigger] rows[r])
}

pub open spec fn counted(row: Seq<ValueView>) -> bool {
    forall|i: int| 0 <= i < row.len() ==> !(#[trigger] row[i] is Null)
}

/// The integer of the first argument, where it is one.
pub open spec fn int_value(row: Seq<ValueView>) -> Option<i64> {
    if row.len() > 0 && row[0] is Int64 {
        Some(row[0]->Int64_0)
    } else {
        None
    }
}

pub open spec fn count_of(rows: Seq<Seq<ValueView>>) -> nat
    decreases rows.len(),
{
    if rows.len() == 0 {
        0
    } else {
        count_of(rows.drop_last()) + if counted(rows.last()) {
            1nat
        } else {
            0nat
        }
    }
}

pub open spec fn sum_of(rows: Seq<Seq<ValueView>>) -> int
    decreases rows.len(),
{
    if rows.len() == 0 {
        0
    } else {
        sum_of(rows.drop_last()) + match int_value(rows.last()) {
            Some(x) => x as int,
            None => 0,
        }
    }
}

/// Every running sum, row after row, stays within `i128`.
pub open spec fn sum_fits(rows: Seq<Seq<ValueView>>) -> bool
    decreases rows.len(),
{
    rows.len() == 0 || (sum_fits(rows.drop_last()) && i128::MIN <= sum_of(rows) <= i128::MAX)
}

/// The least (`least`) or greatest integer of the first arguments.
pub open spec fn extreme_of(rows: Seq<Seq<ValueView>>, least: bool) -> Option<i64>
    decreases rows.len(),
{
    if rows.len() == 0 {
        None
    } else {
        let m = extreme_of(rows.drop_last(), least);
        match int_value(rows.last()) {
            None => m,
            Some(x) => match m {
                None => Some(x),
                Some(y) => Some(
                    if (least && x < y) || (!least && x > y) {
                        x
                    } else {
                        y
                    },
                ),
            },
        }
    }
}

/// Whether the state of the rows fits its machine type.
pub open spec fn fits(kind: AggregateKind, rows: Seq<Seq<ValueView>>) -> bool {
    match kind {
        AggregateKind::Count => count_of(rows) <= u64::MAX,
        AggregateKind::Sum => sum_fits(rows),
        _ => true,
    }
}

/// The state after feeding `rows`.
pub open spec fn state_of(kind: AggregateKind, rows: Seq<Seq<ValueView>>) -> AggregateState {
    match kind {
        AggregateKind::Count => AggregateState::Count(count_of(rows) as u64),
        AggregateKind::Sum => AggregateState::Sum(sum_of(rows) as i128),
        AggregateKind::Min => AggregateState::Min(extreme_of(rows, true)),
        AggregateKind::Max => AggregateState::Max(extreme_of(rows, false)),
    }
}

proof fn lemma_count_grows(t: Seq<Seq<ValueView>>, u: Seq<Seq<ValueView>>)
    ensures
        count_of(t) <= count_of(t + u),
    decreases u.len(),
{
    if u.len() == 0 {
        assert(t + u =~= t);
    } else {
        lemma_count_grows(t, u.drop_last());
        assert((t + u).drop_last() =~= t + u.drop_last());
    }
}

proof fn lemma_sum_fits_prefix(t: Seq<Seq<ValueView>>, u: Seq<Seq<ValueView>>)
    requires
        sum_fits(t + u),
    ensures
        sum_fits(t),
    decreases u.len(),
{
    if u.len() == 0 {
        assert(t + u =~= t);
    } else {
        assert((t + u).drop_last() =~= t + u.drop_last());
        lemma_sum_fits_prefix(t, u.drop_last());
    }
}

/// What does not fit stays so however many rows follow.
proof fn lemma_fits_prefix(kind: AggregateKind, t: Seq<Seq<ValueView>>, u: Seq<Seq<ValueView>>)
    requires
        fits(kind, t + u),
    ensures
        fits(kind, t),
{
    match kind {
        AggregateKind::Count => lemma_count_grows(t, u),
        AggregateKind::Sum => lemma_sum_fits_prefix(t, u),
        _ => {},
    }
}

/// A well-formed accumulator's rows fit its state.
pub proof fn lemma_slot_fits(a: Accumulator)
    requires
        a.wf(),
    ensures
        fits(a.kind_spec(), a.fed()),
{
}

/// One accumulator: a function and the state of the rows fed to it so far.
pub struct Accumulator {
    kind: AggregateKind,
    state: AggregateState,
    fed: Ghost<Seq<Seq<ValueView>>>,
}

impl Accumulator {
    pub closed spec fn kind_spec(&self) -> AggregateKind {
        self.kind
    }

    /// The argument tuples of every row fed so far, in order.
    pub closed spec fn fed(&self) -> Seq<Seq<ValueView>> {
        self.fed@
    }

    pub closed spec fn wf(&self) -> bool {
        fits(self.kind, self.fed@) && self.state == state_of(self.kind, self.fed@)
    }

    /// A fresh accumulator that has been fed nothing.
    pub fn create(kind: AggregateKind) -> (r: Accumulator)
        ensures
            r.wf(),
            r.kind_spec() == kind,
            r.fed() == Seq::<Seq<ValueView>>::empty(),
    {
        let state = match kind {
            AggregateKind::Count => AggregateState::Count(0),
            AggregateKind::Sum => AggregateState::Sum(0),
            AggregateKind::Min => AggregateState::Min(None),
            AggregateKind::Max => AggregateState::Max(None),
        };
        Accumulator { kind, state, fed: Ghost(Seq::empty()) }
    }

    pub fn kind(&self) -> (r: AggregateKind)
        ensures
            r == self.kind_spec(),
    {
        self.kind
    }

    /// The state of the rows fed so far.
    pub fn result(&self) -> (r: AggregateState)
        requires
            self.wf(),
        ensures
            r == state_of(self.kind_spec(), self.fed()),
    {
        self.state
    }

    /// Feeds every row of `block`, its arguments read from the columns at `args`.
    /// Feeding in several calls ends in the state of one call on all the rows.
    pub fn accumulate(&mut self, block: &DataBlock, args: &Vec<usize>) -> (r: Result<
        (),
        GroupByError,
    >)
        requires
            old(self).wf(),
            block.wf(),
            forall|j: int| 0 <= j < args@.len() ==> args@[j] < block.column_names().len(),
        ensures
            ({
                let batch = arg_rows(*block, args@);
                &&& (r == Err::<(), _>(GroupByError::ArgumentMismatch)) == !all_well_typed(
                    old(self).kind_spec(),
                    batch,
                )
                &&& (r == Err::<(), _>(GroupByError::Overflow)) == (all_well_typed(
                    old(self).kind_spec(),
                    batch,
                ) && !fits(old(self).kind_spec(), old(self).fed() + batch))
                &&& r is Ok || r == Err::<(), _>(GroupByError::ArgumentMismatch) || r == Err::<
                    (),
                    _,
                >(GroupByError::Overflow)
                &&& r is Ok ==> {
                    &&& final(self).wf()
                    &&& final(self).kind_spec() == old(self).kind_spec()
                    &&& final(self).fed() == old(self).fed() + batch
                }
            }),
    {
        let ghost batch = arg_rows(*block, args@);
        let n = block.num_rows();
        if !check_types(self.kind, block, args) {
            return Err(GroupByError::ArgumentMismatch);
        }
        let ghost start = self.fed@;
        let mut state = self.state;
        let mut i: usize = 0;
        while i < n
            invariant
                block.wf(),
                forall|j: int| 0 <= j < args@.len() ==> args@[j] < block.column_names().len(),
                n == block.num_rows_spec(),
                batch == arg_rows(*block, args@),
                all_well_typed(self.kind, batch),
                *self == *old(self),
                start == old(self).fed(),
                i <= n,
                fits(self.kind, start + batch.subrange(0, i as int)),
                state == state_of(self.kind, start + batch.subrange(0, i as int)),
            decreases n - i,
        {
            let ghost prev = start + batch.subrange(0, i as int);
            let ghost next = start + batch.subrange(0, i + 1);
            assert(next.drop_last() =~= prev);
            assert(next.last() == batch[i as int]);
            assert(well_typed(self.kind, batch[i as int]));
            match self.kind {
                AggregateKind::Count => {
                    let c = match state {
                        AggregateState::Count(c) => c,
                        _ => 0,
                    };
                    if row_counted(block, args, i) {
                        if c == u64::MAX {
                            proof {
                                assert(count_of(prev) <= u64::MAX);
                                assert(count_of(next) == count_of(prev) + 1);
                                assert(next + batch.subrange(i + 1, n as int) =~= start + batch);
                                if fits(self.kind, start + batch) {
                                    lemma_fits_prefix(self.kind, next, batch.subrange(i + 1, n as int));
                                }
                            }
                            return Err(GroupByError::Overflow);
                        }
                        state = AggregateState::Count(c + 1);
                    }
                },
                AggregateKind::Sum => {
                    let s = match state {
                        AggregateState::Sum(s) => s,
                        _ => 0,
                    };
                    assert(batch[i as int][0] == block.cell(args@[0] as int, i as int));
                    if let DataValue::Int64(x) = block.value_at(args[0], i) {
                        match s.checked_add(*x as i128) {
                            Some(t) => {
                                state = AggregateState::Sum(t);
                            },
                            None => {
                                proof {
                                    assert(i128::MIN <= sum_of(prev) <= i128::MAX);
                                    assert(int_value(next.last()) == Some(*x));
                                    assert(sum_of(next) == sum_of(prev) + *x);
                                    assert(!sum_fits(next));
                                    assert(next + batch.subrange(i + 1, n as int) =~= start + batch);
                                    if fits(self.kind, start + batch) {
                                        lemma_fits_prefix(self.kind, next, batch.subrange(i + 1, n as int));
                                    }
                                }
                                return Err(GroupByError::Overflow);
                            },
                        }
                    }
                },
                AggregateKind::Min | AggregateKind::Max => {
                    let least = match self.kind {
                        AggregateKind::Min => true,
                        _ => false,
                    };
                    let m = match state {
                        AggregateState::Min(m) => m,
                        AggregateState::Max(m) => m,
                        _ => None,
                    };
                    assert(batch[i as int][0] == block.cell(args@[0] as int, i as int));
                    if let DataValue::Int64(x) = block.value_at(args[0], i) {
                        let x = *x;
                        let picked = match m {
                            None => x,
                            Some(y) => if (least && x < y) || (!least && x > y) {
                                x
                            } else {
                                y
                            },
                        };
                        state = if least {
                            AggregateState::Min(Some(picked))
                        } else {
                            AggregateState::Max(Some(picked))
                        };
                    }
                },
            }
            i += 1;
        }
        assert(batch.subrange(0, n as int) =~= batch);
        self.state = state;
        self.fed = Ghost(start + batch);
        Ok(())
    }
}

/// Whether every argument of row `i` is non-null.
fn row_counted(block: &DataBlock, args: &Vec<usize>, i: usize) -> (r: bool)
    requires
        block.wf(),
        i < block.num_rows_spec(),
        forall|j: int| 0 <= j < args@.len() ==> args@[j] < block.column_names().len(),
    ensures
        r == counted(arg_rows(*block, args@)[i as int]),
{
    let ghost row = arg_rows(*block, args@)[i as int];
    let mut j: usize = 0;
    while j < args.len()
        invariant
            block.wf(),
            i < block.num_rows_spec(),
            forall|j: int| 0 <= j < args@.len() ==> args@[j] < block.column_names().len(),
            row == arg_rows(*block, args@)[i as int],
            j <= args.len(),
            forall|k: int| 0 <= k < j ==> !(#[trigger] row[k] is Null),
        decreases args.len() - j,
    {
        assert(row[j as int] == block.cell(args@[j as int] as int, i as int));
        if block.value_at(args[j], i).is_null() {
            return false;
        }
        j += 1;
    }
    true
}

/// Whether the function takes the argument tuple of every row of `block`.
pub fn check_types(kind: AggregateKind, block: &DataBlock, args: &Vec<usize>) -> (r: bool)
    requires
        block.wf(),
        forall|j: int| 0 <= j < args@.len() ==> args@[j] < block.column_names().len(),
    ensures
        r == all_well_typed(kind, arg_rows(*block, args@)),
{
    let ghost batch = arg_rows(*block, args@);
    if let AggregateKind::Count = kind {
        return true;
    }
    let n = block.num_rows();
    let mut i: usize = 0;
    while i < n
        invariant
            block.wf(),
            kind != AggregateKind::Count,
            forall|j: int| 0 <= j < args@.len() ==> args@[j] < block.column_names().len(),
            n == block.num_rows_spec(),
            batch == arg_rows(*block, args@),
            i <= n,
            forall|r: int| 0 <= r < i ==> well_typed(kind, #[trigger] batch[r]),
        decreases n - i,
    {
        if args.len() != 1 {
            assert(!well_typed(kind, batch[i as int]));
            return false;
        }
        assert(batch[i as int][0] == block.cell(args@[0] as int, i as int));
        let ok = match block.value_at(args[0], i) {
            DataValue::Null => true,
            DataValue::Int64(_) => true,
            _ => false,
        };
        if !ok {
            return false;
        }
        i += 1;
    }
    true
}

} // verus!
