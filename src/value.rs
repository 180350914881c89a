use vstd::prelude::*;

verus! {

/// The mathematical value of a scalar.
pub enum ValueView {
    Null,
    Boolean(bool),
    Int64(i64),
    UInt64(u64),
    Utf8(Seq<u8>),
}

/// A typed, possibly null, scalar of a column.
#[derive(Debug, PartialEq, Eq)]
pub enum DataValue {
    Null,
    Boolean(bool),
    Int64(i64),
    UInt64(u64),
    /// The UTF-8 bytes of a string.
    Utf8(Vec<u8>),
}

impl View for DataValue {
    type V = ValueView;

    open spec fn view(&self) -> ValueView {
        match self {
            DataValue::Null => ValueView::Null,
            DataValue::Boolean(b) => ValueView::Boolean(*b),
            DataValue::Int64(x) => ValueView::Int64(*x),
            DataValue::UInt64(x) => ValueView::UInt64(*x),
            DataValue::Utf8(s) => ValueView::Utf8(s@),
        }
    }
}

/// The views of a sequence of values.
pub open spec fn values_view(vs: Seq<DataValue>) -> Seq<ValueView> {
    vs.map_values(|v: DataValue| v@)
}

pub fn copy_bytes(b: &Vec<u8>) -> (r: Vec<u8>)
    ensures
        r@ == b@,
{
    let mut r: Vec<u8> = Vec::with_capacity(b.len());
    let mut i: usize = 0;
    while i < b.len()
        invariant
            i <= b.len(),
            r@ == b@.subrange(0, i as int),
        decreases b.len() - i,
    {
        r.push(b[i]);
        i += 1;
        assert(r@ =~= b@.subrange(0, i as int));
    }
    assert(r@ =~= b@);
    r
}

impl DataValue {
    /// A copy of this value.
    pub fn copy(&self) -> (r: DataValue)
        ensures
            r@ == self@,
    {
        match self {
            DataValue::Null => DataValue::Null,
            DataValue::Boolean(b) => DataValue::Boolean(*b),
            DataValue::Int64(x) => DataValue::Int64(*x),
            DataValue::UInt64(x) => DataValue::UInt64(*x),
            DataValue::Utf8(s) => DataValue::Utf8(copy_bytes(s)),
        }
    }

    pub fn is_null(&self) -> (r: bool)
        ensures
            r == (self@ == ValueView::Null),
    {
        match self {
            DataValue::Null => true,
            _ => false,
        }
    }
}

/// Copies of a sequence of values.
pub fn copy_values(vs: &Vec<DataValue>) -> (r: Vec<DataValue>)
    ensures
        values_view(r@) == values_view(vs@),
{
    let mut r: Vec<DataValue> = Vec::with_capacity(vs.len());
    let mut i: usize = 0;
    while i < vs.len()
        invariant
            i <= vs.len(),
            values_view(r@) == values_view(vs@).subrange(0, i as int),
        decreases vs.len() - i,
    {
        let v = vs[i].copy();
        let ghost old_r = r@;
        r.push(v);
        assert(r@ == old_r.push(v));
        assert(values_view(r@) == values_view(old_r).push(v@));
        i += 1;
        assert(values_view(r@) =~= values_view(vs@).subrange(0, i as int));
    }
    assert(values_view(r@) =~= values_view(vs@));
    r
}

} // verus!
