use vstd::prelude::*;
use crate::value::{DataValue, ValueView};

verus! {

/// A named column of values.
pub struct Column {
    pub name: String,
    pub values: Vec<DataValue>,
}

/// The position of the first name equal to `n`.
pub open spec fn first_index(names: Seq<Seq<char>>, n: Seq<char>) -> Option<int>
    decreases names.len(),
{
    if names.len() == 0 {
        None
    } else {
        match first_index(names.drop_last(), n) {
            Some(i) => Some(i),
            None => if names.last() == n {
                Some(names.len() - 1)
            } else {
                None
            },
        }
    }
}

pub proof fn lemma_first_index_bounds(names: Seq<Seq<char>>, n: Seq<char>)
    ensures
        first_index(names, n) matches Some(i) ==> 0 <= i < names.len() && names[i] == n,
        first_index(names, n) is None ==> forall|j: int| 0 <= j < names.len() ==> names[j] != n,
    decreases names.len(),
{
    if names.len() > 0 {
        lemma_first_index_bounds(names.drop_last(), n);
        if first_index(names.drop_last(), n) is None {
            assert forall|j: int| 0 <= j < names.len() - 1 implies names[j] != n by {
                assert(names.drop_last()[j] == names[j]);
            }
        } else {
            let i = first_index(names.drop_last(), n)->Some_0;
            assert(names.drop_last()[i] == names[i]);
        }
    }
}

/// An immutable batch of equally long named columns.
pub struct DataBlock {
    columns: Vec<Column>,
    rows: usize,
}

impl DataBlock {
    pub closed spec fn num_rows_spec(&self) -> nat {
        self.rows as nat
    }

    pub closed spec fn column_names(&self) -> Seq<Seq<char>> {
        self.columns@.map_values(|c: Column| c.name@)
    }

    /// The value in column `c` at row `r`.
    pub closed spec fn cell(&self, c: int, r: int) -> ValueView {
        self.columns@[c].values@[r]@
    }

    pub closed spec fn wf(&self) -> bool {
        forall|c: int| 0 <= c < self.columns@.len() ==> (#[trigger] self.columns@[c]).values@.len()
            == self.rows
    }

    /// The values of column `c`, top to bottom.
    pub open spec fn column_view(&self, c: int) -> Seq<ValueView> {
        Seq::new(self.num_rows_spec(), |r: int| self.cell(c, r))
    }

    /// A block of `num_rows` rows; `None` where a column holds another number of values.
    pub fn create(num_rows: usize, columns: Vec<Column>) -> (r: Option<DataBlock>)
        ensures
            r is Some <==> forall|c: int| 0 <= c < columns@.len() ==> (#[trigger] columns@[c]).values@.len()
                == num_rows,
            r matches Some(b) ==> {
                &&& b.wf()
                &&& b.num_rows_spec() == num_rows
                &&& b.column_names() == columns@.map_values(|c: Column| c.name@)
                &&& forall|c: int, i: int|
                    0 <= c < columns@.len() && 0 <= i < num_rows ==> b.cell(c, i)
                        == (#[trigger] columns@[c].values@[i])@
            },
    {
        let mut c: usize = 0;
        while c < columns.len()
            invariant
                c <= columns.len(),
                forall|k: int| 0 <= k < c ==> (#[trigger] columns@[k]).values@.len() == num_rows,
            decreases columns.len() - c,
        {
            if columns[c].values.len() != num_rows {
                return None;
            }
            c += 1;
        }
        Some(DataBlock { columns, rows: num_rows })
    }

    pub fn num_rows(&self) -> (r: usize)
        ensures
            r == self.num_rows_spec(),
    {
        self.rows
    }

    pub fn num_columns(&self) -> (r: usize)
        ensures
            r == self.column_names().len(),
    {
        self.columns.len()
    }

    /// The position of the first column called `name`.
    pub fn column_index(&self, name: &String) -> (r: Option<usize>)
        ensures
            r matches Some(i) ==> first_index(self.column_names(), name@) == Some(i as int),
            r is None ==> first_index(self.column_names(), name@) is None,
            r matches Some(i) ==> i < self.column_names().len() && self.column_names()[i as int]
                == name@,
    {
        let ghost names = self.column_names();
        let mut i: usize = 0;
        while i < self.columns.len()
            invariant
                i <= self.columns.len(),
                names == self.column_names(),
                first_index(names.subrange(0, i as int), name@) is None,
            decreases self.columns.len() - i,
        {
            assert(names.subrange(0, i + 1).drop_last() =~= names.subrange(0, i as int));
            if self.columns[i].name == *name {
                proof {
                    lemma_first_index_bounds(names.subrange(0, i + 1), name@);
                    lemma_first_index_prefix(names, name@, i + 1);
                }
                return Some(i);
            }
            i += 1;
        }
        assert(names.subrange(0, i as int) =~= names);
        None
    }

    /// The value in column `c` at row `r`.
    pub fn value_at(&self, c: usize, r: usize) -> (v: &DataValue)
        requires
            self.wf(),
            c < self.column_names().len(),
            r < self.num_rows_spec(),
        ensures
            v@ == self.cell(c as int, r as int),
    {
        &self.columns[c].values[r]
    }

    /// A new block holding exactly the rows at `indices`, in that order, with
    /// every column.
    pub fn take_rows(&self, indices: &Vec<usize>) -> (r: DataBlock)
        requires
            self.wf(),
            forall|i: int| 0 <= i < indices@.len() ==> indices@[i] < self.num_rows_spec(),
        ensures
            r.wf(),
            r.num_rows_spec() == indices@.len(),
            r.column_names() == self.column_names(),
            forall|c: int, i: int|
                0 <= c < self.column_names().len() && 0 <= i < indices@.len() ==> #[trigger] r.cell(c, i)
                    == self.cell(c, indices@[i] as int),
    {
        let mut columns: Vec<Column> = Vec::with_capacity(self.columns.len());
        let mut c: usize = 0;
        while c < self.columns.len()
            invariant
                self.wf(),
                forall|i: int| 0 <= i < indices@.len() ==> indices@[i] < self.num_rows_spec(),
                c <= self.columns.len(),
                columns@.len() == c,
                forall|k: int| 0 <= k < c ==> (#[trigger] columns@[k]).values@.len() == indices@.len(),
                forall|k: int| 0 <= k < c ==> (#[trigger] columns@[k]).name@ == self.columns@[k].name@,
                forall|k: int, i: int|
                    0 <= k < c && 0 <= i < indices@.len() ==> (#[trigger] columns@[k].values@[i])@
                        == self.cell(k, indices@[i] as int),
            decreases self.columns.len() - c,
        {
            let col = &self.columns[c];
            let mut values: Vec<DataValue> = Vec::with_capacity(indices.len());
            let mut i: usize = 0;
            while i < indices.len()
                invariant
                    self.wf(),
                    forall|i: int| 0 <= i < indices@.len() ==> indices@[i] < self.num_rows_spec(),
                    c < self.columns.len(),
                    col == self.columns@[c as int],
                    i <= indices.len(),
                    values@.len() == i,
                    forall|j: int| 0 <= j < i ==> (#[trigger] values@[j])@ == self.cell(
                        c as int,
                        indices@[j] as int,
                    ),
                decreases indices.len() - i,
            {
                assert(self.columns@[c as int].values@.len() == self.rows);
                let v = col.values[indices[i]].copy();
                values.push(v);
                i += 1;
            }
            let name = col.name.clone();
            columns.push(Column { name, values });
            c += 1;
        }
        let r = DataBlock { columns, rows: indices.len() };
        assert(r.column_names() =~= self.column_names());
        r
    }
}

proof fn lemma_first_index_prefix(names: Seq<Seq<char>>, n: Seq<char>, k: int)
    requires
        0 <= k <= names.len(),
        first_index(names.subrange(0, k), n) is Some,
    ensures
        first_index(names, n) == first_index(names.subrange(0, k), n),
    decreases names.len() - k,
{
    if k < names.len() {
        assert(names.subrange(0, k + 1).drop_last() =~= names.subrange(0, k));
        lemma_first_index_prefix(names, n, k + 1);
    } else {
        assert(names.subrange(0, k) =~= names);
    }
}

} // verus!
