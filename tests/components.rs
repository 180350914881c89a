use groupby_partial::aggregate::{Accumulator, AggregateKind, AggregateState};
use groupby_partial::block::{Column, DataBlock};
use groupby_partial::group_key::encode_group_key;
use groupby_partial::grouper::group_rows;
use groupby_partial::table::PartialAggregationTable;
use groupby_partial::value::DataValue;

fn col(name: &str, values: Vec<DataValue>) -> Column {
    Column { name: name.to_string(), values }
}

#[test]
fn key_of_int_is_tag_and_little_endian_bytes() {
    assert_eq!(encode_group_key(&vec![DataValue::Int64(1)]), vec![2, 1, 0, 0, 0, 0, 0, 0, 0]);
    assert_eq!(encode_group_key(&vec![DataValue::Int64(-1)]), vec![2, 255, 255, 255, 255, 255, 255, 255, 255]);
    assert_eq!(encode_group_key(&vec![DataValue::UInt64(258)]), vec![3, 2, 1, 0, 0, 0, 0, 0, 0]);
    assert_eq!(encode_group_key(&vec![DataValue::Null]), vec![0]);
    assert_eq!(encode_group_key(&vec![DataValue::Boolean(true)]), vec![1, 1]);
    assert_eq!(
        encode_group_key(&vec![DataValue::Utf8(b"ab".to_vec())]),
        vec![4, 2, 0, 0, 0, 0, 0, 0, 0, b'a', b'b']
    );
    assert_eq!(encode_group_key(&Vec::new()), Vec::<u8>::new());
}

#[test]
fn keys_of_different_splits_differ() {
    let a = encode_group_key(&vec![DataValue::Utf8(b"ab".to_vec()), DataValue::Utf8(b"c".to_vec())]);
    let b = encode_group_key(&vec![DataValue::Utf8(b"a".to_vec()), DataValue::Utf8(b"bc".to_vec())]);
    assert_ne!(a, b);
    let c = encode_group_key(&vec![DataValue::Utf8(b"ab".to_vec()), DataValue::Utf8(b"c".to_vec())]);
    assert_eq!(a, c);
    assert_ne!(
        encode_group_key(&vec![DataValue::Int64(5)]),
        encode_group_key(&vec![DataValue::UInt64(5)])
    );
    assert_ne!(
        encode_group_key(&vec![DataValue::Null, DataValue::Int64(0)]),
        encode_group_key(&vec![DataValue::Int64(0), DataValue::Null])
    );
}

#[test]
fn grouper_collects_rows_in_order() {
    let b = DataBlock::create(5, vec![col("g", vec![
        DataValue::Int64(1),
        DataValue::Int64(2),
        DataValue::Int64(0),
        DataValue::Int64(1),
        DataValue::Int64(2),
    ])])
    .unwrap();
    let groups = group_rows(&b, &vec![0]);
    assert_eq!(groups.len(), 3);
    assert_eq!(groups[0].indices, vec![0, 3]);
    assert_eq!(groups[1].indices, vec![1, 4]);
    assert_eq!(groups[2].indices, vec![2]);
    assert_eq!(groups[2].values, vec![DataValue::Int64(0)]);
    assert_eq!(groups[0].key, encode_group_key(&vec![DataValue::Int64(1)]));
}

#[test]
fn gather_takes_rows_in_given_order() {
    let b = DataBlock::create(3, vec![
        col("a", vec![DataValue::Int64(10), DataValue::Int64(20), DataValue::Int64(30)]),
        col("b", vec![DataValue::Null, DataValue::Boolean(false), DataValue::UInt64(7)]),
    ])
    .unwrap();
    let t = b.take_rows(&vec![2, 0, 2]);
    assert_eq!(t.num_rows(), 3);
    assert_eq!(t.num_columns(), 2);
    assert_eq!(*t.value_at(0, 0), DataValue::Int64(30));
    assert_eq!(*t.value_at(0, 1), DataValue::Int64(10));
    assert_eq!(*t.value_at(1, 2), DataValue::UInt64(7));
    assert_eq!(t.column_index(&"b".to_string()), Some(1));
    assert_eq!(t.column_index(&"c".to_string()), None);
}

#[test]
fn accumulating_twice_equals_once() {
    let b = DataBlock::create(4, vec![col("v", vec![
        DataValue::Int64(3),
        DataValue::Null,
        DataValue::Int64(-8),
        DataValue::Int64(6),
    ])])
    .unwrap();
    let first = b.take_rows(&vec![0, 1]);
    let second = b.take_rows(&vec![2, 3]);
    for kind in [AggregateKind::Count, AggregateKind::Sum, AggregateKind::Min, AggregateKind::Max] {
        let mut once = Accumulator::create(kind);
        assert_eq!(once.accumulate(&b, &vec![0]), Ok(()));
        let mut twice = Accumulator::create(kind);
        assert_eq!(twice.accumulate(&first, &vec![0]), Ok(()));
        assert_eq!(twice.accumulate(&second, &vec![0]), Ok(()));
        assert_eq!(once.result(), twice.result());
    }
    let mut s = Accumulator::create(AggregateKind::Sum);
    assert_eq!(s.accumulate(&b, &vec![0]), Ok(()));
    assert_eq!(s.result(), AggregateState::Sum(1));
    let mut c = Accumulator::create(AggregateKind::Count);
    assert_eq!(c.accumulate(&b, &vec![0]), Ok(()));
    assert_eq!(c.result(), AggregateState::Count(3));
    let mut m = Accumulator::create(AggregateKind::Max);
    assert_eq!(m.kind(), AggregateKind::Max);
    assert_eq!(m.result(), AggregateState::Max(None));
    assert_eq!(m.accumulate(&b, &vec![0]), Ok(()));
    assert_eq!(m.result(), AggregateState::Max(Some(6)));
}

#[test]
fn table_upsert_creates_then_accumulates() {
    let b = DataBlock::create(2, vec![col("v", vec![DataValue::Int64(4), DataValue::Int64(5)])]).unwrap();
    let mut table = PartialAggregationTable::create();
    let kinds = vec![AggregateKind::Sum];
    let args = vec![vec![0usize]];
    let key = encode_group_key(&vec![DataValue::Int64(1)]);
    assert_eq!(table.upsert(key.clone(), vec![DataValue::Int64(1)], &kinds, &args, &b), Ok(()));
    assert_eq!(table.upsert(key.clone(), vec![DataValue::Int64(1)], &kinds, &args, &b), Ok(()));
    assert_eq!(table.len(), 1);
    let other = encode_group_key(&vec![DataValue::Int64(2)]);
    assert_eq!(table.upsert(other, vec![DataValue::Int64(2)], &kinds, &args, &b), Ok(()));
    assert_eq!(table.len(), 2);
    let entries = table.into_entries();
    assert_eq!(entries[0].key, key);
    assert_eq!(entries[0].slots[0].result(), AggregateState::Sum(18));
    assert_eq!(entries[1].slots[0].result(), AggregateState::Sum(9));
}
