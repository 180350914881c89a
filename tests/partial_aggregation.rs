use groupby_partial::aggregate::{AggregateKind, AggregateState};
use groupby_partial::block::{Column, DataBlock};
use groupby_partial::error::GroupByError;
use groupby_partial::transform::{AggregateExpr, GroupByPartialTransform, GroupOutput};
use groupby_partial::value::DataValue;

fn ints(xs: &[i64]) -> Vec<DataValue> {
    xs.iter().map(|x| DataValue::Int64(*x)).collect()
}

fn col(name: &str, values: Vec<DataValue>) -> Column {
    Column { name: name.to_string(), values }
}

fn block(n: usize, cols: Vec<Column>) -> DataBlock {
    DataBlock::create(n, cols).unwrap()
}

fn agg(kind: AggregateKind, name: &str, args: &[&str]) -> AggregateExpr {
    AggregateExpr {
        kind,
        name: name.to_string(),
        args: args.iter().map(|a| a.to_string()).collect(),
    }
}

fn sorted(mut out: Vec<GroupOutput>) -> Vec<GroupOutput> {
    out.sort_by(|a, b| a.group_by_key.cmp(&b.group_by_key));
    out
}

fn group_state(out: &[GroupOutput], key: &[DataValue], j: usize) -> AggregateState {
    out.iter().find(|o| o.group_keys.as_slice() == key).expect("group").states[j]
}

#[test]
fn scenario_a_sum_grouped_by_remainder() {
    let b = block(
        5,
        vec![col("A", ints(&[1, 2, 3, 4, 5])), col("A % 3", ints(&[1, 2, 0, 1, 2]))],
    );
    let mut t = GroupByPartialTransform::create(
        vec![agg(AggregateKind::Sum, "SUM(A)", &["A"])],
        vec!["A % 3".to_string()],
    );
    assert_eq!(t.process_block(&b), Ok(()));
    assert_eq!(t.num_groups(), 3);
    let out = t.finish();
    assert_eq!(out.len(), 3);
    assert_eq!(group_state(&out, &ints(&[0]), 0), AggregateState::Sum(3));
    assert_eq!(group_state(&out, &ints(&[1]), 0), AggregateState::Sum(5));
    assert_eq!(group_state(&out, &ints(&[2]), 0), AggregateState::Sum(7));
}

#[test]
fn scenario_b_count_across_two_blocks() {
    let b1 = block(3, vec![col("g", vec![
        DataValue::Utf8(b"x".to_vec()),
        DataValue::Utf8(b"y".to_vec()),
        DataValue::Utf8(b"x".to_vec()),
    ])]);
    let b2 = block(2, vec![col("g", vec![
        DataValue::Utf8(b"x".to_vec()),
        DataValue::Utf8(b"z".to_vec()),
    ])]);
    let mut t = GroupByPartialTransform::create(
        vec![agg(AggregateKind::Count, "COUNT(*)", &[])],
        vec!["g".to_string()],
    );
    assert_eq!(t.process_block(&b1), Ok(()));
    assert_eq!(t.process_block(&b2), Ok(()));
    let out = t.finish();
    assert_eq!(out.len(), 3);
    assert_eq!(group_state(&out, &[DataValue::Utf8(b"x".to_vec())], 0), AggregateState::Count(3));
    assert_eq!(group_state(&out, &[DataValue::Utf8(b"y".to_vec())], 0), AggregateState::Count(1));
    assert_eq!(group_state(&out, &[DataValue::Utf8(b"z".to_vec())], 0), AggregateState::Count(1));
}

#[test]
fn scenario_c_null_key_is_its_own_group() {
    let b = block(4, vec![
        col("g", vec![DataValue::Null, DataValue::Int64(0), DataValue::Null, DataValue::Int64(0)]),
        col("v", ints(&[10, 20, 30, 40])),
    ]);
    let mut t = GroupByPartialTransform::create(
        vec![agg(AggregateKind::Sum, "SUM(v)", &["v"])],
        vec!["g".to_string()],
    );
    assert_eq!(t.process_block(&b), Ok(()));
    let out = t.finish();
    assert_eq!(out.len(), 2);
    assert_eq!(group_state(&out, &[DataValue::Null], 0), AggregateState::Sum(40));
    assert_eq!(group_state(&out, &[DataValue::Int64(0)], 0), AggregateState::Sum(60));
}

#[test]
fn empty_string_and_null_keys_differ() {
    let b = block(2, vec![col("g", vec![DataValue::Utf8(Vec::new()), DataValue::Null])]);
    let mut t = GroupByPartialTransform::create(
        vec![agg(AggregateKind::Count, "COUNT(*)", &[])],
        vec!["g".to_string()],
    );
    assert_eq!(t.process_block(&b), Ok(()));
    assert_eq!(t.finish().len(), 2);
}

#[test]
fn no_blocks_give_no_output_rows() {
    let t = GroupByPartialTransform::create(
        vec![agg(AggregateKind::Count, "COUNT(*)", &[])],
        vec!["g".to_string()],
    );
    assert_eq!(t.finish().len(), 0);
}

#[test]
fn empty_blocks_give_no_output_rows() {
    let mut t = GroupByPartialTransform::create(
        vec![agg(AggregateKind::Sum, "SUM(v)", &["v"])],
        vec!["g".to_string()],
    );
    let b = block(0, vec![col("g", vec![]), col("v", vec![])]);
    assert_eq!(t.process_block(&b), Ok(()));
    assert_eq!(t.process_block(&b), Ok(()));
    assert_eq!(t.num_groups(), 0);
    assert_eq!(t.finish().len(), 0);
}

fn mixed_exprs() -> Vec<AggregateExpr> {
    vec![
        agg(AggregateKind::Sum, "SUM(v)", &["v"]),
        agg(AggregateKind::Count, "COUNT(*)", &[]),
        agg(AggregateKind::Count, "COUNT(v)", &["v"]),
        agg(AggregateKind::Min, "MIN(v)", &["v"]),
        agg(AggregateKind::Max, "MAX(v)", &["v"]),
    ]
}

#[test]
fn split_block_gives_same_states() {
    let keys = vec![3, 1, 3, 2, 1, 3];
    let vals = vec![
        DataValue::Int64(5),
        DataValue::Null,
        DataValue::Int64(-7),
        DataValue::Int64(4),
        DataValue::Int64(9),
        DataValue::Int64(1),
    ];
    let whole = block(6, vec![col("g", ints(&keys)), col("v", vals.iter().map(|v| v.copy()).collect())]);
    let first = block(2, vec![col("g", ints(&keys[..2])), col("v", vals[..2].iter().map(|v| v.copy()).collect())]);
    let second = block(4, vec![col("g", ints(&keys[2..])), col("v", vals[2..].iter().map(|v| v.copy()).collect())]);

    let mut one = GroupByPartialTransform::create(mixed_exprs(), vec!["g".to_string()]);
    assert_eq!(one.process_block(&whole), Ok(()));
    let mut two = GroupByPartialTransform::create(mixed_exprs(), vec!["g".to_string()]);
    assert_eq!(two.process_block(&first), Ok(()));
    assert_eq!(two.process_block(&second), Ok(()));

    let a = sorted(one.finish());
    let b = sorted(two.finish());
    assert_eq!(a.len(), 3);
    assert_eq!(a.len(), b.len());
    for (x, y) in a.iter().zip(b.iter()) {
        assert_eq!(x.group_by_key, y.group_by_key);
        assert_eq!(x.group_keys, y.group_keys);
        assert_eq!(x.states, y.states);
    }
    let g3 = &ints(&[3]);
    assert_eq!(group_state(&a, g3, 0), AggregateState::Sum(-1));
    assert_eq!(group_state(&a, g3, 1), AggregateState::Count(3));
    assert_eq!(group_state(&a, g3, 3), AggregateState::Min(Some(-7)));
    assert_eq!(group_state(&a, g3, 4), AggregateState::Max(Some(5)));
    let g1 = &ints(&[1]);
    assert_eq!(group_state(&a, g1, 1), AggregateState::Count(2));
    assert_eq!(group_state(&a, g1, 2), AggregateState::Count(1));
    assert_eq!(group_state(&a, g1, 3), AggregateState::Min(Some(9)));
}

#[test]
fn count_star_adds_up_to_all_rows() {
    let b1 = block(5, vec![col("g", ints(&[1, 2, 1, 7, 2])), col("h", ints(&[0, 0, 1, 0, 0]))]);
    let b2 = block(3, vec![col("g", ints(&[7, 7, 9])), col("h", ints(&[0, 0, 0]))]);
    let mut t = GroupByPartialTransform::create(
        vec![agg(AggregateKind::Count, "COUNT(*)", &[])],
        vec!["g".to_string(), "h".to_string()],
    );
    assert_eq!(t.process_block(&b1), Ok(()));
    assert_eq!(t.process_block(&b2), Ok(()));
    let out = t.finish();
    assert_eq!(out.len(), 5);
    let total: u64 = out
        .iter()
        .map(|o| match o.states[0] {
            AggregateState::Count(c) => c,
            _ => panic!("not a count"),
        })
        .sum();
    assert_eq!(total, 8);
}

#[test]
fn group_keys_keep_first_seen_values() {
    let b = block(3, vec![
        col("a", ints(&[4, 4, 5])),
        col("s", vec![
            DataValue::Utf8(b"p".to_vec()),
            DataValue::Utf8(b"p".to_vec()),
            DataValue::Boolean(true),
        ]),
    ]);
    let mut t = GroupByPartialTransform::create(
        vec![agg(AggregateKind::Count, "COUNT(*)", &[])],
        vec!["a".to_string(), "s".to_string()],
    );
    assert_eq!(t.process_block(&b), Ok(()));
    let out = t.finish();
    assert_eq!(out.len(), 2);
    assert_eq!(
        group_state(&out, &[DataValue::Int64(4), DataValue::Utf8(b"p".to_vec())], 0),
        AggregateState::Count(2)
    );
    let o = out.iter().find(|o| o.group_keys[0] == DataValue::Int64(5)).unwrap();
    assert_eq!(o.group_keys[1], DataValue::Boolean(true));
    assert_eq!(o.group_by_key, groupby_partial::group_key::encode_group_key(&o.group_keys));
}

#[test]
fn missing_group_column_is_rejected() {
    let b = block(1, vec![col("v", ints(&[1]))]);
    let mut t = GroupByPartialTransform::create(
        vec![agg(AggregateKind::Sum, "SUM(v)", &["v"])],
        vec!["g".to_string()],
    );
    assert_eq!(t.process_block(&b), Err(GroupByError::MissingColumn));
}

#[test]
fn missing_argument_column_is_rejected() {
    let b = block(1, vec![col("g", ints(&[1]))]);
    let mut t = GroupByPartialTransform::create(
        vec![agg(AggregateKind::Sum, "SUM(v)", &["v"])],
        vec!["g".to_string()],
    );
    assert_eq!(t.process_block(&b), Err(GroupByError::MissingColumn));
}

#[test]
fn sum_of_strings_is_a_mismatch() {
    let b = block(2, vec![
        col("g", ints(&[1, 1])),
        col("v", vec![DataValue::Int64(1), DataValue::Utf8(b"no".to_vec())]),
    ]);
    let mut t = GroupByPartialTransform::create(
        vec![agg(AggregateKind::Sum, "SUM(v)", &["v"])],
        vec!["g".to_string()],
    );
    assert_eq!(t.process_block(&b), Err(GroupByError::ArgumentMismatch));
}

#[test]
fn sum_without_argument_is_a_mismatch() {
    let b = block(1, vec![col("g", ints(&[1]))]);
    let mut t = GroupByPartialTransform::create(
        vec![agg(AggregateKind::Max, "MAX()", &[])],
        vec!["g".to_string()],
    );
    assert_eq!(t.process_block(&b), Err(GroupByError::ArgumentMismatch));
}

#[test]
fn unequal_columns_make_no_block() {
    assert!(DataBlock::create(2, vec![col("a", ints(&[1]))]).is_none());
    assert!(DataBlock::create(1, vec![col("a", ints(&[1]))]).is_some());
}

#[test]
fn no_group_columns_make_one_group() {
    let b = block(3, vec![col("v", ints(&[1, 2, 3]))]);
    let mut t = GroupByPartialTransform::create(
        vec![agg(AggregateKind::Sum, "SUM(v)", &["v"])],
        Vec::new(),
    );
    assert_eq!(t.process_block(&b), Ok(()));
    let out = t.finish();
    assert_eq!(out.len(), 1);
    assert_eq!(out[0].states[0], AggregateState::Sum(6));
    assert!(out[0].group_by_key.is_empty());
}

#[test]
fn sum_reaches_past_i64() {
    let b = block(3, vec![col("g", ints(&[0, 0, 0])), col("v", ints(&[i64::MAX, i64::MAX, 2]))]);
    let mut t = GroupByPartialTransform::create(
        vec![agg(AggregateKind::Sum, "SUM(v)", &["v"]), agg(AggregateKind::Min, "MIN(v)", &["v"])],
        vec!["g".to_string()],
    );
    assert_eq!(t.process_block(&b), Ok(()));
    let out = t.finish();
    assert_eq!(out[0].states[0], AggregateState::Sum(2 * (i64::MAX as i128) + 2));
    assert_eq!(out[0].states[1], AggregateState::Min(Some(2)));
}

#[test]
fn output_fields_follow_the_aggregates() {
    let t = GroupByPartialTransform::create(
        vec![agg(AggregateKind::Sum, "SUM(v)", &["v"]), agg(AggregateKind::Count, "COUNT(*)", &[])],
        vec!["g".to_string()],
    );
    assert_eq!(t.output_field_names(), vec!["SUM(v)", "COUNT(*)", "_group_keys", "_group_by_key"]);
    assert_eq!(t.name(), "GroupByPartialTransform");
}

#[test]
fn many_groups_each_keep_their_rows() {
    let n = 3000usize;
    let keys: Vec<i64> = (0..n).map(|i| (i % 700) as i64).collect();
    let vals: Vec<i64> = (0..n).map(|i| i as i64).collect();
    let b = block(n, vec![col("g", ints(&keys)), col("v", ints(&vals))]);
    let mut t = GroupByPartialTransform::create(
        vec![agg(AggregateKind::Count, "COUNT(*)", &[]), agg(AggregateKind::Sum, "SUM(v)", &["v"])],
        vec!["g".to_string()],
    );
    assert_eq!(t.process_block(&b), Ok(()));
    assert_eq!(t.process_block(&b), Ok(()));
    let out = t.finish();
    assert_eq!(out.len(), 700);
    for o in &out {
        let k = match o.group_keys[0] {
            DataValue::Int64(k) => k as usize,
            _ => panic!("not an integer key"),
        };
        let rows: Vec<usize> = (0..n).filter(|i| i % 700 == k).collect();
        assert_eq!(o.states[0], AggregateState::Count(2 * rows.len() as u64));
        let sum: i128 = rows.iter().map(|i| *i as i128).sum();
        assert_eq!(o.states[1], AggregateState::Sum(2 * sum));
    }
}

#[test]
fn empty_block_without_argument_column_is_skipped() {
    let mut t = GroupByPartialTransform::create(
        vec![agg(AggregateKind::Sum, "SUM(v)", &["v"])],
        vec!["g".to_string()],
    );
    let empty = block(0, vec![col("g", vec![])]);
    assert_eq!(t.process_block(&empty), Ok(()));
    assert_eq!(t.num_groups(), 0);
    let full = block(1, vec![col("g", ints(&[1]))]);
    assert_eq!(t.process_block(&full), Err(GroupByError::MissingColumn));
}

#[test]
fn empty_block_without_group_column_is_rejected() {
    let mut t = GroupByPartialTransform::create(
        vec![agg(AggregateKind::Count, "COUNT(*)", &[])],
        vec!["g".to_string()],
    );
    let empty = block(0, vec![col("v", vec![])]);
    assert_eq!(t.process_block(&empty), Err(GroupByError::MissingColumn));
}

#[test]
fn functions_are_found_by_name() {
    assert_eq!(AggregateKind::from_name(&"sum".to_string()), Some(AggregateKind::Sum));
    assert_eq!(AggregateKind::from_name(&"COUNT".to_string()), Some(AggregateKind::Count));
    assert_eq!(AggregateKind::from_name(&"min".to_string()), Some(AggregateKind::Min));
    assert_eq!(AggregateKind::from_name(&"MAX".to_string()), Some(AggregateKind::Max));
    assert_eq!(AggregateKind::from_name(&"avg".to_string()), None);
    let e = AggregateExpr::from_function(&"sum".to_string(), "SUM(v)".to_string(), vec!["v".to_string()])
        .unwrap();
    assert_eq!(e.kind, AggregateKind::Sum);
    assert_eq!(e.name, "SUM(v)");
    assert_eq!(e.args, vec!["v".to_string()]);
    assert!(AggregateExpr::from_function(&"median".to_string(), "m".to_string(), Vec::new()).is_none());
}
