use arrow::array::{Array, ArrayData, BinaryArray, StringArray};
use columnar_exec::data_type::{DataType, Field, Schema, TimeUnit};
use columnar_exec::dense::GroupValuesDense;
use columnar_exec::dictionary_ids::{admits, retained_bytes, DictionaryIds};
use columnar_exec::domain::{sample_exceeds_limit, IntegerDomain};
use columnar_exec::error::ExecError;
use columnar_exec::group_keys::{
    DictionaryColumn, DictionaryValues, EmitTo, EmittedColumn, GroupColumn, GroupKey,
    IntegerColumn, KEY_BYTES,
};
use columnar_exec::group_values_column::{GroupValuesColumn, INDEX_BYTES, LIST_BYTES};
use std::sync::Arc;

fn field(name: &str, data_type: DataType) -> Field {
    Field { name: name.to_string(), data_type, nullable: true, metadata: Arc::new(vec![]) }
}

fn schema(integer_type: DataType, binary: bool, reverse: bool) -> Schema {
    let value = if binary { DataType::Binary } else { DataType::Utf8 };
    let mut fields = vec![
        field("integer", integer_type),
        field("dictionary", DataType::Dictionary(Box::new(DataType::Int32), Box::new(value))),
    ];
    if reverse {
        fields.reverse();
    }
    Schema { fields }
}

fn array(values: &[Option<&str>], binary: bool) -> ArrayData {
    if binary {
        let values: Vec<Option<&[u8]>> =
            values.iter().map(|value| value.map(|text| text.as_bytes())).collect();
        BinaryArray::from(values).to_data()
    } else {
        StringArray::from(values.to_vec()).to_data()
    }
}

fn wrapped(data: ArrayData) -> Arc<DictionaryValues> {
    Arc::new(DictionaryValues::new(data).unwrap())
}

fn dictionary_values(values: &[Option<&str>]) -> Arc<DictionaryValues> {
    wrapped(array(values, false))
}

fn integers_first(schema: &Schema) -> bool {
    schema.fields[0].name == "integer"
}

fn is_binary(schema: &Schema) -> bool {
    let field = &schema.fields[usize::from(integers_first(schema))];
    matches!(&field.data_type, DataType::Dictionary(_, value) if **value == DataType::Binary)
}

fn integer_column(integers: &[Option<i64>]) -> IntegerColumn {
    IntegerColumn {
        values: integers.iter().map(|value| value.unwrap_or(0)).collect(),
        nulls: integers.iter().map(|value| value.is_none()).collect(),
    }
}

fn columns(
    schema: &Schema,
    integers: &[Option<i64>],
    keys: &[Option<i32>],
    values: &Arc<DictionaryValues>,
) -> Vec<GroupColumn> {
    let integer = GroupColumn::Integer(integer_column(integers));
    let dictionary = GroupColumn::Dictionary(DictionaryColumn {
        keys: keys.iter().map(|key| key.map(|key| key as usize)).collect(),
        values: Arc::clone(values),
    });
    if integers_first(schema) {
        vec![integer, dictionary]
    } else {
        vec![dictionary, integer]
    }
}

fn batch(
    schema: &Schema,
    integers: &[Option<i64>],
    keys: &[Option<i32>],
    values: &[Option<&str>],
) -> Vec<GroupColumn> {
    columns(schema, integers, keys, &wrapped(array(values, is_binary(schema))))
}

fn parts(columns: &[GroupColumn]) -> (&IntegerColumn, &DictionaryColumn) {
    match (&columns[0], &columns[1]) {
        (GroupColumn::Integer(integers), GroupColumn::Dictionary(dictionary)) => {
            (integers, dictionary)
        }
        (GroupColumn::Dictionary(dictionary), GroupColumn::Integer(integers)) => {
            (integers, dictionary)
        }
        _ => unreachable!(),
    }
}

fn check_batch(
    dense: &mut GroupValuesDense,
    reference: &mut GroupValuesColumn,
    columns: &[GroupColumn],
) {
    let mut actual = Vec::new();
    let mut expected = Vec::new();
    dense.intern(columns, &mut actual).unwrap();
    let (integers, dictionary) = parts(columns);
    reference.intern(integers, dictionary, &mut expected);
    assert_eq!(actual, expected);
    assert_eq!(dense.len(), reference.len());
}

/// The rows of emitted columns, which must come in the order of the schema.
fn emitted_rows(schema: &Schema, columns: &[EmittedColumn]) -> Vec<GroupKey> {
    assert_eq!(columns.len(), 2);
    let integer_index = usize::from(!integers_first(schema));
    match (&columns[integer_index], &columns[1 - integer_index]) {
        (EmittedColumn::Integer(integers), EmittedColumn::Dictionary(values)) => {
            assert_eq!(integers.len(), values.len());
            integers
                .iter()
                .zip(values)
                .map(|(integer, value)| GroupKey { integer: *integer, value: value.clone() })
                .collect()
        }
        _ => panic!("columns in another order than those of the schema"),
    }
}

fn check_emit(
    schema: &Schema,
    dense: &mut GroupValuesDense,
    reference: &mut GroupValuesColumn,
    emit: EmitTo,
) {
    let actual = dense.emit(emit);
    let expected = reference.emit(emit);
    assert_eq!(emitted_rows(schema, &actual), expected);
    if matches!(emit, EmitTo::All) {
        reference.clear();
    }
}

fn key(integer: Option<i64>, value: Option<&str>) -> GroupKey {
    GroupKey { integer, value: value.map(|text| text.as_bytes().to_vec()) }
}

#[test]
fn domain_growth_dictionary_identity_and_nulls() {
    for reverse in [false, true] {
        for binary in [false, true] {
            for integer_type in [
                DataType::Int64,
                DataType::Timestamp(TimeUnit::Nanosecond, Some(Arc::new("UTC".to_string()))),
            ] {
                let schema = schema(integer_type, binary, reverse);
                let mut dense = GroupValuesDense::try_new(&schema).unwrap();
                let mut reference = GroupValuesColumn::new();
                let first = batch(
                    &schema,
                    &[Some(0), Some(30), Some(60), Some(90), None, Some(0), None, Some(30)],
                    &[Some(0), Some(2), Some(1), Some(1), Some(0), Some(3), None, Some(1)],
                    &[Some("a"), Some("b"), Some("a"), None],
                );
                check_batch(&mut dense, &mut reference, &first);
                check_batch(&mut dense, &mut reference, &first); // shared values Arc
                let second = batch(
                    &schema,
                    &[Some(-60), Some(15), Some(300), Some(0), Some(0), None],
                    &[Some(3), Some(1), Some(0), None, Some(2), Some(4)],
                    &[Some("b"), Some("a"), None, Some("c"), Some("a")],
                );
                check_batch(&mut dense, &mut reference, &second);
                assert!(!dense.uses_fallback());
                assert_eq!(dense.domain().unwrap().stride, 15);
                assert!(dense.table_size() >= dense.table_len() * 4);
                assert!(dense.size() >= dense.table_size() + dense.dictionary().size());
                check_emit(&schema, &mut dense, &mut reference, EmitTo::All);
                assert!(dense.is_empty());
                check_batch(&mut dense, &mut reference, &second);
                dense.clear_shrink(0);
                reference.clear();
                check_batch(&mut dense, &mut reference, &first);
                check_emit(&schema, &mut dense, &mut reference, EmitTo::All);
            }
        }
    }
}

#[test]
fn coalesced_dictionary_wrappers_reuse_mapping() {
    for binary in [false, true] {
        let schema = schema(DataType::Int64, binary, false);
        let mut dense = GroupValuesDense::try_new(&schema).unwrap();
        let mut reference = GroupValuesColumn::new();
        let integers = [Some(0), Some(30), Some(0), Some(30)];
        let keys = [Some(0), Some(1), Some(2), Some(3)];
        let data = array(&[Some("a"), Some("b"), Some("a"), None], binary);
        let original_values = wrapped(data.clone());
        let input = columns(&schema, &integers, &keys, &original_values);
        check_batch(&mut dense, &mut reference, &input);
        // Two batches put together, with the same values in another wrapper.
        let merged_values = wrapped(data.clone());
        assert!(!Arc::ptr_eq(&original_values, &merged_values));
        assert!(original_values.shares_memory(&merged_values));
        let merged = columns(
            &schema,
            &[integers, integers].concat(),
            &[keys, keys].concat(),
            &merged_values,
        );
        assert_eq!(merged[0].len(), 8);
        check_batch(&mut dense, &mut reference, &merged);
        assert!(!dense.uses_fallback());
        // A cache miss replaces this handle; that it is kept shows that the numbers were.
        assert!(Arc::ptr_eq(dense.dictionary().cached_values().unwrap(), &original_values));
        // The same memory with a different slice must still remap dictionary keys.
        let slice = wrapped(data.slice(1, 3));
        assert!(!original_values.shares_memory(&slice));
        let sliced =
            columns(&schema, &integers, &[Some(0), Some(1), Some(2), None], &slice);
        check_batch(&mut dense, &mut reference, &sliced);
        check_emit(&schema, &mut dense, &mut reference, EmitTo::All);
    }
}

#[test]
fn sparse_fallback_preserves_existing_accumulator_indices() {
    let schema = schema(DataType::Int64, false, false);
    let mut dense = GroupValuesDense::try_new(&schema).unwrap();
    let mut reference = GroupValuesColumn::new();
    let first = batch(
        &schema,
        &[Some(0), Some(30), Some(60)],
        &[Some(0), Some(1), Some(0)],
        &[Some("a"), Some("b")],
    );
    let second = batch(
        &schema,
        &[Some(60), Some(1_000_003), Some(0), Some(30)],
        &[Some(1), Some(0), Some(1), Some(0)],
        &[Some("b"), Some("a")],
    );
    let third = batch(
        &schema,
        &[Some(0), Some(30), Some(60), Some(90)],
        &[Some(0), Some(1), Some(0), Some(1)],
        &[Some("a"), Some("b")],
    );
    let mut actual_sums: Vec<i64> = vec![];
    let mut expected_sums: Vec<i64> = vec![];
    for (index, input) in [&first, &second, &third].into_iter().enumerate() {
        let mut actual = Vec::new();
        let mut expected = Vec::new();
        dense.intern(input, &mut actual).unwrap();
        let (integers, dictionary) = parts(input);
        reference.intern(integers, dictionary, &mut expected);
        assert_eq!(actual, expected);
        actual_sums.resize(dense.len(), 0);
        expected_sums.resize(reference.len(), 0);
        for row in 0..input[0].len() {
            let weight = (index * 100 + row + 1) as i64;
            actual_sums[actual[row]] += weight;
            expected_sums[expected[row]] += weight;
        }
        assert_eq!(dense.uses_fallback(), index != 0);
    }
    assert_eq!(actual_sums, expected_sums);
    check_emit(&schema, &mut dense, &mut reference, EmitTo::All);
    check_batch(&mut dense, &mut reference, &second);
    check_emit(&schema, &mut dense, &mut reference, EmitTo::All);
}

#[test]
fn prefix_emission_and_reappearing_keys() {
    for emit_count in [0, 1, 3] {
        let schema = schema(DataType::Int64, false, false);
        let mut dense = GroupValuesDense::try_new(&schema).unwrap();
        let mut reference = GroupValuesColumn::new();
        let input = batch(
            &schema,
            &[Some(0), Some(30), Some(60)],
            &[Some(0), Some(1), Some(0)],
            &[Some("a"), Some("b")],
        );
        check_batch(&mut dense, &mut reference, &input);
        check_emit(&schema, &mut dense, &mut reference, EmitTo::First(emit_count));
        assert!(dense.uses_fallback());
        check_batch(&mut dense, &mut reference, &input);
        check_emit(&schema, &mut dense, &mut reference, EmitTo::All);
    }
}

#[test]
fn unproven_or_overflowing_domains_fall_back() {
    for integers in [
        vec![None, None],
        vec![Some(7), Some(7)],
        vec![Some(i64::MIN), Some(i64::MAX)],
    ] {
        let schema = schema(DataType::Int64, false, false);
        let mut dense = GroupValuesDense::try_new(&schema).unwrap();
        let mut reference = GroupValuesColumn::new();
        let input = batch(&schema, &integers, &[None, None], &[]);
        check_batch(&mut dense, &mut reference, &input);
        assert!(dense.uses_fallback());
        check_emit(&schema, &mut dense, &mut reference, EmitTo::All);
    }
}

#[test]
fn dictionary_admission_is_bounded_before_remapping_unused_values() {
    let schema = schema(DataType::Int64, false, false);
    let mut dense = GroupValuesDense::try_new(&schema).unwrap();
    dense.set_limit(32);
    let mut reference = GroupValuesColumn::new();
    let input = batch(
        &schema,
        &[Some(0), Some(30)],
        &[None, None],
        &[Some("unreferenced payload which exceeds the admission limit")],
    );
    check_batch(&mut dense, &mut reference, &input);
    assert!(dense.uses_fallback());
    assert_eq!(dense.dictionary().cached_len(), 0);
    check_emit(&schema, &mut dense, &mut reference, EmitTo::All);
}

#[test]
fn sampled_rejection_preserves_nullable_sliced_groups() {
    for samples in [[0, 1, 1_000_000_000], [i64::MIN, 0, i64::MAX]] {
        let schema = schema(DataType::Int64, false, false);
        let mut dense = GroupValuesDense::try_new(&schema).unwrap();
        let mut reference = GroupValuesColumn::new();
        let mut integers = vec![None; 131];
        integers[0] = Some(99);
        integers[130] = Some(99);
        for (row, value) in [1, 3, 129].into_iter().zip(samples) {
            integers[row] = Some(value);
        }
        let input = batch(&schema, &integers[1..130], &[Some(0); 129], &[Some("a")]);
        let (column, _) = parts(&input);
        assert!(sample_exceeds_limit(
            &column.values,
            &column.nulls,
            1,
            columnar_exec::dense::MAX_ROUTING_BYTES,
        ));
        check_batch(&mut dense, &mut reference, &input);
        assert!(dense.uses_fallback());
        assert_eq!(dense.len(), 4); // Three distinct integers and the NULL group.
        check_emit(&schema, &mut dense, &mut reference, EmitTo::All);
    }
}

#[test]
fn compact_sample_still_checks_unsampled_stride_changes() {
    for (step, remains_dense) in [(1_000i64, true), (1_000_000, false)] {
        let schema = schema(DataType::Int64, false, false);
        let mut dense = GroupValuesDense::try_new(&schema).unwrap();
        let mut reference = GroupValuesColumn::new();
        let mut integers: Vec<_> = (0..129).map(|index| Some(index * step)).collect();
        // The evenly spaced samples skip row 1. It changes the actual stride to one,
        // either widening a valid domain or forcing generic fallback.
        integers[1] = Some(step + 1);
        let input = batch(&schema, &integers, &[Some(0); 129], &[Some("a")]);
        let (column, _) = parts(&input);
        assert!(!sample_exceeds_limit(
            &column.values,
            &column.nulls,
            1,
            columnar_exec::dense::MAX_ROUTING_BYTES,
        ));
        check_batch(&mut dense, &mut reference, &input);
        assert_eq!(!dense.uses_fallback(), remains_dense);
        if remains_dense {
            assert_eq!(dense.domain().unwrap().stride, 1);
        }
        check_emit(&schema, &mut dense, &mut reference, EmitTo::All);
    }
}

#[test]
fn high_cardinality_product_declines_dense_routing() {
    let schema = schema(DataType::Int64, false, false);
    let mut dense = GroupValuesDense::try_new(&schema).unwrap();
    let mut reference = GroupValuesColumn::new();
    let integers: Vec<_> = (0..4096).map(|value| Some(i64::from(value))).collect();
    let keys: Vec<_> = (0..4096).map(Some).collect();
    let owned: Vec<_> = (0..4096).map(|value: i32| value.to_string()).collect();
    let values: Vec<_> = owned.iter().map(|value| Some(value.as_str())).collect();
    let input = batch(&schema, &integers, &keys, &values);
    check_batch(&mut dense, &mut reference, &input);
    assert!(dense.uses_fallback());
    assert_eq!(dense.table_len(), 0);
    // Every group has a key, a list of its own and its number in it.
    assert!(dense.size() >= 4096 * (KEY_BYTES + LIST_BYTES + INDEX_BYTES));
    check_emit(&schema, &mut dense, &mut reference, EmitTo::All);
}

#[test]
fn varied_small_batches_and_slices_match_native_grouping() {
    let schema = schema(DataType::Int64, true, true);
    let mut dense = GroupValuesDense::try_new(&schema).unwrap();
    let mut reference = GroupValuesColumn::new();
    let mut seed = 13u64;
    for batch_index in 0..12 {
        let mut integers = Vec::new();
        let mut keys = Vec::new();
        for row in 0..19 {
            seed = seed.wrapping_mul(6364136223846793005).wrapping_add(1);
            integers.push((row % 7 != 0).then_some(((seed >> 32) % 41) as i64 * 6 - 120));
            keys.push((row % 5 != 0).then_some((seed % 4) as i32));
        }
        let values = if batch_index % 2 == 0 {
            [Some("a"), Some("b"), None, Some("a")]
        } else {
            [Some("b"), Some("a"), Some("c"), None]
        };
        let input = batch(&schema, &integers[1..18], &keys[1..18], &values);
        check_batch(&mut dense, &mut reference, &input);
        if batch_index == 5 {
            check_emit(&schema, &mut dense, &mut reference, EmitTo::First(3));
        }
    }
    check_emit(&schema, &mut dense, &mut reference, EmitTo::All);
}

#[test]
fn groups_are_numbered_in_order_of_appearance() {
    let schema = schema(DataType::Int64, false, false);
    let mut dense = GroupValuesDense::try_new(&schema).unwrap();
    let input = batch(
        &schema,
        &[Some(10), Some(20), Some(10), None, Some(20), Some(10)],
        &[Some(0), Some(1), Some(2), Some(0), None, Some(3)],
        &[Some("x"), Some("y"), Some("x"), None],
    );
    let mut groups = vec![7, 7];
    dense.intern(&input, &mut groups).unwrap();
    // Equal bytes share a group whatever their key, and a null value is a null.
    assert_eq!(groups, vec![0, 1, 0, 2, 3, 4]);
    assert!(!dense.uses_fallback());
    assert_eq!(dense.domain().unwrap(), IntegerDomain { base: 10, stride: 10, width: 2 });
    // The same keys keep their numbers.
    dense.intern(&input, &mut groups).unwrap();
    assert_eq!(groups, vec![0, 1, 0, 2, 3, 4]);
    assert_eq!(
        emitted_rows(&schema, &dense.emit(EmitTo::All)),
        vec![
            key(Some(10), Some("x")),
            key(Some(20), Some("y")),
            key(None, Some("x")),
            key(Some(20), None),
            key(Some(10), None),
        ]
    );
    assert!(dense.is_empty());
    assert!(dense.domain().is_none());
}

#[test]
fn emitting_a_prefix_renumbers_the_rest() {
    let schema = schema(DataType::Int64, false, false);
    let mut dense = GroupValuesDense::try_new(&schema).unwrap();
    let input = batch(
        &schema,
        &[Some(0), Some(5), Some(10)],
        &[Some(0), Some(0), Some(0)],
        &[Some("a")],
    );
    let mut groups = vec![];
    dense.intern(&input, &mut groups).unwrap();
    let first = emitted_rows(&schema, &dense.emit(EmitTo::First(1)));
    assert_eq!(first, vec![key(Some(0), Some("a"))]);
    dense.intern(&input, &mut groups).unwrap();
    assert_eq!(groups, vec![2, 0, 1]);
}

#[test]
fn unsupported_schemas_and_ragged_batches_are_errors() {
    let integer_only = Schema { fields: vec![field("integer", DataType::Int64)] };
    assert!(!GroupValuesDense::supports_schema(&integer_only));
    assert!(matches!(
        GroupValuesDense::try_new(&integer_only),
        Err(ExecError::UnsupportedGroupSchema)
    ));
    let floats = schema(DataType::Float64, false, false);
    assert!(!GroupValuesDense::supports_schema(&floats));
    let schema = schema(DataType::Int64, false, false);
    assert!(GroupValuesDense::supports_schema(&schema));
    let mut dense = GroupValuesDense::try_new(&schema).unwrap();
    let mut ragged = batch(&schema, &[Some(0), Some(1)], &[None, None], &[]);
    ragged[0] = GroupColumn::Integer(integer_column(&[Some(0)]));
    let mut groups = vec![];
    assert!(matches!(
        dense.intern(&ragged, &mut groups),
        Err(ExecError::MismatchedGroupColumns)
    ));
    assert!(dense.is_empty());
}

#[test]
fn observed_domains_are_lattices() {
    let valid = [false; 4];
    let domain = IntegerDomain::observe(&[6, 18, 0, 30], &valid, None).unwrap();
    // Six points, rounded up to a power of two.
    assert_eq!(domain, IntegerDomain { base: 0, stride: 6, width: 8 });
    assert_eq!(domain.last(), Some(42));
    // Zero stands for null.
    assert_eq!(domain.ordinal(0), Some(1));
    assert_eq!(domain.ordinal(18), Some(4));
    assert_eq!(domain.ordinal(7), None);
    assert_eq!(domain.ordinal(-6), None);
    assert_eq!(domain.ordinal(48), None);
    let three = IntegerDomain { base: -6, stride: 6, width: 3 };
    assert_eq!(three.ordinal(6), Some(3));
    assert_eq!(three.ordinal(12), None);
    let wide = IntegerDomain { base: i64::MIN, stride: 1, width: usize::MAX };
    assert_eq!(wide.ordinal(i64::MIN + 4), Some(5));
    assert_eq!(wide.ordinal(0), None);
    // A domain that covers the values stays.
    let same = IntegerDomain::observe(&[12, 24], &[false; 2], Some(domain)).unwrap();
    assert_eq!(same, domain);
    // Nulls are passed over, and one value alone shows no stride.
    assert!(IntegerDomain::observe(&[1, 9], &[false, true], None).is_none());
}

#[test]
fn equal_dictionary_values_share_a_number() {
    let mut ids = DictionaryIds::new();
    assert_eq!(ids.len(), 1);
    let values = dictionary_values(&[Some("a"), None, Some("b"), Some("a")]);
    assert!(ids.prepare(&values, 1 << 20));
    assert_eq!(
        (0..4).map(|index| ids.cached_id(index)).collect::<Vec<_>>(),
        vec![1, 0, 2, 1]
    );
    assert_eq!(ids.len(), 3);
    // Values of another dictionary keep the numbers that they have.
    assert!(ids.prepare(&dictionary_values(&[Some("c"), Some("b")]), 1 << 20));
    assert_eq!(ids.cached_id(0), 3);
    assert_eq!(ids.cached_id(1), 2);
    assert_eq!(ids.number_value(&b"c".to_vec()), Some(3));
    assert_eq!(ids.number_value(&b"d".to_vec()), Some(4));
    assert!(!ids.prepare(&dictionary_values(&[Some("too long")]), 4));
    // A declined dictionary leaves the cached one, and one without values is prepared.
    assert_eq!(ids.cached_len(), 2);
    let empty = dictionary_values(&[]);
    assert!(ids.prepare(&empty, empty.size()));
    assert_eq!(ids.cached_len(), 0);
    assert_eq!(ids.len(), 5);
}

#[test]
fn retained_bytes_saturate() {
    assert_eq!(retained_bytes(1, 2, 3, 4), 19);
    assert_eq!(retained_bytes(usize::MAX, 2, 3, 4), usize::MAX);
    assert_eq!(retained_bytes(0, 0, usize::MAX, 0), usize::MAX);
    let values = dictionary_values(&[Some("abc"), Some("d")]);
    assert!(admits(&values, values.size() + 8));
    assert!(!admits(&values, values.size() + 7));
}

#[test]
fn dictionary_values_are_byte_strings_or_strings() {
    for binary in [false, true] {
        let values = wrapped(array(&[Some("a"), None], binary));
        assert_eq!(values.len(), 2);
        assert_eq!(values.item(0), Some(&b"a".to_vec()));
        assert_eq!(values.item(1), None);
    }
    let numbers = arrow::array::Int32Array::from(vec![1]).to_data();
    assert!(matches!(DictionaryValues::new(numbers), Err(ExecError::UnexpectedColumn)));
}

#[test]
fn reversed_schemas_emit_the_dictionary_first() {
    for (binary, fallback) in [(false, false), (true, false), (false, true), (true, true)] {
        let schema = schema(DataType::Int64, binary, true);
        let mut dense = GroupValuesDense::try_new(&schema).unwrap();
        // One integer alone shows no stride, so that its group is hashed.
        let integers = if fallback { [Some(5), Some(5)] } else { [Some(5), Some(10)] };
        let input = batch(&schema, &integers, &[Some(1), Some(0)], &[Some("x"), Some("y")]);
        let mut groups = vec![];
        dense.intern(&input, &mut groups).unwrap();
        assert_eq!(dense.uses_fallback(), fallback);
        assert_eq!(
            dense.emit(EmitTo::All),
            vec![
                EmittedColumn::Dictionary(vec![Some(b"y".to_vec()), Some(b"x".to_vec())]),
                EmittedColumn::Integer(integers.to_vec()),
            ]
        );
    }
}

#[test]
fn dictionaries_over_the_limit_move_groups_to_hashing() {
    let schema = schema(DataType::Int64, true, false);
    let mut dense = GroupValuesDense::try_new(&schema).unwrap();
    let mut reference = GroupValuesColumn::new();
    let first = batch(&schema, &[Some(0), Some(4)], &[Some(0), Some(1)], &[Some("a"), Some("b")]);
    check_batch(&mut dense, &mut reference, &first);
    assert!(!dense.uses_fallback());
    dense.set_limit(8);
    let second = batch(&schema, &[Some(4), Some(0)], &[Some(0), Some(0)], &[Some("c")]);
    check_batch(&mut dense, &mut reference, &second);
    assert!(dense.uses_fallback());
    check_emit(&schema, &mut dense, &mut reference, EmitTo::All);
}
