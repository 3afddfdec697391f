use columnar_exec::approx_distinct::{
    count_as_unsigned, get_small_int_approx_accumulator, is_fixed_domain_type,
    make_approx_distinct_accumulator,
    is_hll_groups_type, is_supported_type, registers_from_scalar, Accumulator, ApproxDistinct,
    BinaryHLLAccumulator, NumericHLLAccumulator, Native, ScalarValue, StateColumn,
    StringHLLAccumulator, StringViewHLLAccumulator,
};
use columnar_exec::column_values::ColumnValues;
use columnar_exec::data_type::{DataType, Field, TimeUnit};
use columnar_exec::distinct_counter::{DistinctCounter, SmallInt};
use columnar_exec::error::ExecError;
use columnar_exec::hyperloglog::{hll_hash_state, HyperLogLog};
use columnar_exec::signature::{Signature, TypeSignature, Volatility};
use std::sync::Arc;

fn dictionary(value_type: DataType) -> DataType {
    DataType::Dictionary(Box::new(DataType::Int32), Box::new(value_type))
}

/// The number of registers in use, which is exact for a few values.
fn used(counts: &Vec<u32>) -> u64 {
    counts[1..].iter().map(|count| u64::from(*count)).sum()
}

fn count(accumulator: &Accumulator) -> u64 {
    match accumulator.evaluate(used).unwrap() {
        ScalarValue::UInt64(Some(count)) => count,
        _ => unreachable!(),
    }
}

fn registers(accumulator: &Accumulator) -> Vec<u8> {
    match accumulator.state().remove(0) {
        ScalarValue::Binary(Some(bytes)) => bytes,
        _ => unreachable!(),
    }
}

fn accumulator(data_type: DataType) -> Accumulator {
    ApproxDistinct::new().accumulator(&data_type).unwrap()
}

#[test]
fn dictionary_support() {
    for value_type in [
        DataType::UInt8,
        DataType::Int8,
        DataType::UInt16,
        DataType::Int16,
        DataType::Int64,
        DataType::Null,
        DataType::Utf8,
        DataType::Binary,
    ] {
        let dict_type = dictionary(value_type.clone());
        assert!(is_hll_groups_type(&dict_type));
    }

    // Nested dictionaries resolve to the innermost value
    assert!(is_hll_groups_type(&dictionary(dictionary(DataType::Utf8))));

    // Unsupported value types are rejected
    for value_type in [DataType::Float16, DataType::Float32, DataType::Float64] {
        let dict_type = dictionary(value_type.clone());
        let nested_dict_type = dictionary(dict_type.clone());
        assert!(!is_hll_groups_type(&value_type));
        assert!(!is_supported_type(&dict_type));
        assert!(!is_hll_groups_type(&dict_type));
        assert!(!is_hll_groups_type(&nested_dict_type));
    }
}

#[test]
fn supported_types_have_accumulators() {
    let function = ApproxDistinct::new();
    for data_type in [
        DataType::Null,
        DataType::UInt8,
        DataType::Int16,
        DataType::UInt32,
        DataType::Date32,
        DataType::Date64,
        DataType::Time32(TimeUnit::Second),
        DataType::Time64(TimeUnit::Nanosecond),
        DataType::Timestamp(TimeUnit::Microsecond, None),
        DataType::LargeUtf8,
        DataType::Utf8View,
        DataType::LargeBinary,
    ] {
        assert!(is_supported_type(&data_type));
        assert!(function.accumulator(&data_type).is_ok());
        assert!(function.accumulator(&dictionary(data_type)).is_ok());
    }
    for data_type in [
        DataType::Boolean,
        DataType::Float64,
        DataType::Time32(TimeUnit::Nanosecond),
        DataType::Time64(TimeUnit::Second),
        dictionary(DataType::Float64),
    ] {
        assert!(!is_supported_type(&data_type));
        let Err(ExecError::NotImplemented { data_type: refused }) =
            function.accumulator(&data_type)
        else {
            unreachable!()
        };
        assert_eq!(refused, data_type);
    }
    assert!(is_fixed_domain_type(&DataType::Int8));
    assert!(!is_fixed_domain_type(&DataType::Int32));
    assert!(!is_hll_groups_type(&DataType::UInt8));
    assert!(!is_hll_groups_type(&DataType::Null));
    assert!(matches!(
        get_small_int_approx_accumulator(&DataType::Int32),
        Err(ExecError::UnsupportedSmallInt { data_type: DataType::Int32 })
    ));
}

#[test]
fn small_integers_are_counted_exactly() {
    let mut small = accumulator(DataType::Int8);
    small
        .update_batch(&ColumnValues::Int8(vec![Some(-1), None, Some(5), Some(-128), Some(5)]))
        .unwrap();
    assert_eq!(count(&small), 3);
    assert!(small.size() >= 256);
    assert!(matches!(
        small.update_batch(&ColumnValues::UInt8(vec![Some(1)])),
        Err(ExecError::UnexpectedColumn)
    ));
    let ScalarValue::List(values) = small.state().remove(0) else { unreachable!() };
    assert_eq!(values, vec![5, -128, -1]);
    // Its state restores the counter, and null lists are passed over.
    let mut merged = accumulator(DataType::Int8);
    let list = values.iter().map(|value| Some(*value as i8)).collect();
    merged
        .merge_batch(&StateColumn::Lists(vec![
            None,
            Some(ColumnValues::Int8(list)),
            Some(ColumnValues::Int8(vec![Some(7)])),
        ]))
        .unwrap();
    assert_eq!(count(&merged), 4);
    assert!(matches!(
        merged.merge_batch(&StateColumn::Lists(vec![Some(ColumnValues::Int16(vec![]))])),
        Err(ExecError::UnexpectedColumn)
    ));
    assert!(matches!(
        merged.merge_batch(&StateColumn::Registers(vec![])),
        Err(ExecError::UnexpectedColumn)
    ));
    let mut wide = DistinctCounter::new(SmallInt::UInt16);
    wide.update_batch(&ColumnValues::UInt16((0..=u16::MAX).map(Some).collect())).unwrap();
    assert_eq!(wide.count(), 65536);
}

#[test]
fn hashes_of_numbers_and_strings_are_counted() {
    let mut numbers = accumulator(DataType::Int64);
    let column = ColumnValues::Int64((0..100).map(|value| Some(value % 10)).collect());
    numbers.update_batch(&column).unwrap();
    assert_eq!(count(&numbers), 10);
    numbers.update_batch(&ColumnValues::Int64(vec![None, None])).unwrap();
    assert_eq!(count(&numbers), 10);
    assert_eq!(numbers.size(), 16384);
    assert!(matches!(
        numbers.update_batch(&ColumnValues::Int32(vec![Some(1)])),
        Err(ExecError::UnexpectedColumn)
    ));

    let mut texts = accumulator(DataType::Utf8);
    let column = ColumnValues::Utf8(vec![Some("a".to_owned()), None, Some("b".to_owned())]);
    texts.update_batch(&column).unwrap();
    assert_eq!(count(&texts), 2);
    let mut expected = HyperLogLog::new();
    for text in ["a", "b"] {
        expected.add_hashed(hll_hash_state().hash_one(text));
    }
    assert_eq!(registers(&texts), expected.to_vec());

    let mut bytes = BinaryHLLAccumulator::new();
    bytes.update_batch(&ColumnValues::Binary(vec![Some(vec![1]), Some(vec![1])])).unwrap();
    assert!(matches!(bytes.evaluate(used), ScalarValue::UInt64(Some(1))));
    assert!(bytes.update_batch(&ColumnValues::AllNull(1)).is_err());

    let mut nulls = accumulator(DataType::Null);
    nulls.update_batch(&ColumnValues::AllNull(5)).unwrap();
    assert_eq!(count(&nulls), 0);
    assert_eq!(nulls.size(), 0);
}

#[test]
fn views_are_counted_by_their_strings() {
    let mut views = StringViewHLLAccumulator::new();
    let column = |texts: &[Option<&str>]| {
        ColumnValues::Views(texts.iter().map(|text| text.map(str::to_owned)).collect())
    };
    views.update_batch(&column(&[Some("short"), None, Some("short")])).unwrap();
    let mut expected = HyperLogLog::new();
    expected.add_hashed(hll_hash_state().hash_one("short"));
    assert!(matches!(
        views.state(),
        ScalarValue::Binary(Some(bytes)) if bytes == expected.to_vec()
    ));
    // A string beside a long one is the same string as before.
    views.update_batch(&column(&[Some("a string of more bytes"), Some("short")])).unwrap();
    assert!(matches!(views.evaluate(used), ScalarValue::UInt64(Some(2))));
    // Order, repeats, nulls and batches do not matter.
    let mut again = StringViewHLLAccumulator::new();
    again
        .update_batch(&column(&[Some("a string of more bytes"), None, Some("short")]))
        .unwrap();
    assert_eq!(format!("{:?}", again.state()), format!("{:?}", views.state()));
    assert!(views.update_batch(&ColumnValues::Utf8(vec![])).is_err());
    assert!(StringHLLAccumulator::new().update_batch(&ColumnValues::Views(vec![])).is_err());
}

#[test]
fn dictionaries_are_counted_by_their_values() {
    let mut plain = accumulator(DataType::Utf8);
    let mut encoded = accumulator(dictionary(dictionary(DataType::Utf8)));
    let texts = || vec![Some("x".to_owned()), None, Some("y".to_owned()), Some("z".to_owned())];
    let inner = ColumnValues::Dictionary(
        vec![Some(2), Some(0), Some(1)],
        Box::new(ColumnValues::Utf8(texts())),
    );
    let column =
        ColumnValues::Dictionary(vec![Some(1), None, Some(0), Some(2), Some(1)], Box::new(inner));
    encoded.update_batch(&column).unwrap();
    // The rows are x, null, y, null and x.
    plain
        .update_batch(&ColumnValues::Utf8(vec![Some("x".to_owned()), Some("y".to_owned())]))
        .unwrap();
    assert_eq!(count(&encoded), 2);
    assert_eq!(registers(&encoded), registers(&plain));
    let wrong = ColumnValues::Dictionary(vec![], Box::new(ColumnValues::Int8(vec![])));
    assert!(matches!(encoded.update_batch(&wrong), Err(ExecError::UnexpectedColumn)));
}

#[test]
fn dictionary_accumulators_take_strings_in_either_form_and_nulls() {
    let texts = || vec![Some("x".to_owned()), None, Some("y".to_owned())];
    for (value_type, plain) in [
        (DataType::Utf8, ColumnValues::Utf8(texts())),
        (DataType::Utf8View, ColumnValues::Views(texts())),
    ] {
        let mut expected = accumulator(value_type.clone());
        expected.update_batch(&plain).unwrap();
        for column in [
            ColumnValues::Utf8(texts()),
            ColumnValues::Views(texts()),
            ColumnValues::Dictionary(
                vec![Some(0), Some(2), Some(1), Some(0)],
                Box::new(ColumnValues::Views(texts())),
            ),
        ] {
            let mut encoded = accumulator(dictionary(value_type.clone()));
            encoded.update_batch(&column).unwrap();
            encoded.update_batch(&ColumnValues::AllNull(3)).unwrap();
            assert_eq!(count(&encoded), 2);
            assert_eq!(registers(&encoded), registers(&expected));
        }
    }
    let mut small = accumulator(dictionary(DataType::Int8));
    small.update_batch(&ColumnValues::AllNull(2)).unwrap();
    assert_eq!(count(&small), 0);
    assert!(small.update_batch(&ColumnValues::Utf8(texts())).is_err());
}

#[test]
fn equal_columns_give_equal_results() {
    let columns = || {
        [
            ColumnValues::Int64(vec![Some(1), None, Some(-7)]),
            ColumnValues::Int64(vec![Some(1), Some(9)]),
        ]
    };
    let results: Vec<(Vec<u8>, u64)> = (0..2)
        .map(|_| {
            let mut accumulator = accumulator(DataType::Int64);
            for column in columns() {
                accumulator.update_batch(&column).unwrap();
            }
            (registers(&accumulator), count(&accumulator))
        })
        .collect();
    assert_eq!(results[0], results[1]);
    assert_eq!(results[0].1, 3);
}

#[test]
fn merged_parts_are_the_whole() {
    let mut whole = accumulator(DataType::UInt32);
    let mut left = accumulator(DataType::UInt32);
    let mut right = accumulator(DataType::UInt32);
    let part = |from: u32, to: u32| ColumnValues::UInt32((from..to).map(Some).collect());
    whole.update_batch(&part(0, 500)).unwrap();
    left.update_batch(&part(0, 300)).unwrap();
    right.update_batch(&part(200, 500)).unwrap();
    left.merge_batch(&StateColumn::Registers(vec![Some(registers(&right))])).unwrap();
    assert_eq!(registers(&left), registers(&whole));
    // Merging again changes nothing.
    left.merge_batch(&StateColumn::Registers(vec![Some(registers(&whole))])).unwrap();
    assert_eq!(registers(&left), registers(&whole));
    // States before a bad one are merged.
    let mut fresh = accumulator(DataType::UInt32);
    let good = Some(registers(&whole));
    assert!(matches!(
        fresh.merge_batch(&StateColumn::Registers(vec![good, None])),
        Err(ExecError::MissingRegisters)
    ));
    assert_eq!(registers(&fresh), registers(&whole));
    assert!(matches!(
        fresh.merge_batch(&StateColumn::Registers(vec![Some(vec![0; 16383])])),
        Err(ExecError::InvalidRegisters)
    ));
    assert!(matches!(
        fresh.merge_batch(&StateColumn::Other),
        Err(ExecError::UnexpectedColumn)
    ));
}

#[test]
fn registers_hold_the_largest_rank() {
    let mut hll = HyperLogLog::new();
    hll.add_hashed(3);
    // No bit above the lowest 14 is set.
    assert_eq!(hll.to_vec()[3], 51);
    hll.add_hashed((1 << 14) | 5);
    assert_eq!(hll.to_vec()[5], 1);
    hll.add_hashed((1 << 16) | 5);
    assert_eq!(hll.to_vec()[5], 3);
    hll.add_hashed((1 << 14) | 5);
    assert_eq!(hll.to_vec()[5], 3);
    let histogram = hll.get_histogram();
    assert_eq!(histogram.len(), 52);
    assert_eq!(histogram[0], 16382);
    assert_eq!(histogram[3], 1);
    assert_eq!(histogram[51], 1);
    let same = HyperLogLog::new_with_registers(hll.to_vec());
    assert_eq!(same.to_vec(), hll.to_vec());
}

#[test]
fn registers_are_restored_from_scalars() {
    let mut numbers = NumericHLLAccumulator::new(Native::Int32);
    numbers.update_batch(&ColumnValues::Int32(vec![Some(1), Some(2)])).unwrap();
    let state = numbers.state();
    let restored = registers_from_scalar(&state).unwrap();
    assert!(matches!(state, ScalarValue::Binary(Some(bytes)) if bytes == restored.to_vec()));
    assert!(matches!(
        registers_from_scalar(&ScalarValue::Binary(Some(vec![0; 3]))),
        Err(ExecError::InvalidRegisters)
    ));
    for other in [ScalarValue::Binary(None), ScalarValue::UInt64(Some(0))] {
        assert!(matches!(registers_from_scalar(&other), Err(ExecError::MissingRegisters)));
    }
}

#[test]
fn counts_become_unsigned() {
    assert!(matches!(
        count_as_unsigned(ScalarValue::Int64(Some(42))),
        Ok(ScalarValue::UInt64(Some(42)))
    ));
    for other in [ScalarValue::Int64(None), ScalarValue::UInt64(Some(1))] {
        assert!(matches!(count_as_unsigned(other), Err(ExecError::UnexpectedCount)));
    }
}

#[test]
fn state_fields_follow_the_type() {
    let function = ApproxDistinct::default();
    assert_eq!(function.name(), "approx_distinct");
    assert_eq!(
        *function.signature(),
        Signature { type_signature: TypeSignature::Any(1), volatility: Volatility::Immutable }
    );
    assert_eq!(function.return_type(&[DataType::Utf8]).unwrap(), DataType::UInt64);
    let field = |name: &str, data_type: DataType, nullable: bool| Field {
        name: name.to_owned(),
        data_type,
        nullable,
        metadata: Arc::new(vec![]),
    };
    let list = |value: DataType| DataType::List(Arc::new(field("item", value, true)));
    for (data_type, expected) in [
        (DataType::Null, field("c[approx_distinct]", DataType::Null, true)),
        (DataType::Int16, field("c[approx_distinct]", list(DataType::Int16), false)),
        (
            dictionary(DataType::UInt8),
            field("c[approx_distinct]", list(DataType::UInt8), false),
        ),
        (DataType::Utf8, field("c[hll_registers]", DataType::Binary, false)),
        (dictionary(DataType::Utf8), field("c[hll_registers]", DataType::Binary, false)),
        (dictionary(DataType::Float32), field("c[hll_registers]", DataType::Binary, false)),
    ] {
        assert_eq!(function.state_fields("c", &data_type).unwrap(), vec![expected]);
    }
}

#[test]
fn fresh_accumulators_count_zero_and_are_made_alike() {
    for data_type in [
        DataType::UInt8,
        DataType::Int16,
        DataType::Int64,
        DataType::Utf8,
        DataType::Utf8View,
        DataType::Binary,
        DataType::Null,
    ] {
        let fresh = accumulator(data_type.clone());
        assert_eq!(count(&fresh), 0);
        assert!(matches!(&fresh, Accumulator::Plain(_)));
        let plain = make_approx_distinct_accumulator(&data_type).unwrap();
        assert_eq!(format!("{:?}", plain.state()), format!("{:?}", fresh.state()));
        assert_eq!(count(&accumulator(dictionary(data_type))), 0);
    }
    let lists = make_approx_distinct_accumulator(&DataType::Float64);
    assert!(matches!(lists, Err(ExecError::NotImplemented { data_type: DataType::Float64 })));
}
