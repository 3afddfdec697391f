use ahash::RandomState;
use arrow::array::{Array, FixedSizeBinaryArray};
use columnar_exec::fixed_size_binary::{
    next_hash, nulls_equal_to, FixedSizeBinaryGroupValueBuilder,
};
use columnar_exec::hashing::combine_hashes;
use columnar_exec::null_builder::MaybeNullBufferBuilder;

fn make_fsb(items: Vec<Option<&[u8]>>) -> FixedSizeBinaryArray {
    FixedSizeBinaryArray::try_from_sparse_iter_with_size(items.into_iter(), 4).unwrap()
}

fn rows(array: &FixedSizeBinaryArray) -> Vec<Option<Vec<u8>>> {
    (0..array.len()).map(|row| array.is_valid(row).then(|| array.value(row).to_vec())).collect()
}

#[test]
fn test_nullable_fixed_size_binary_equal_to() {
    let mut builder = FixedSizeBinaryGroupValueBuilder::<true>::new(4);

    let array =
        make_fsb(vec![Some(b"abcd" as &[u8]), Some(b"efgh"), None, Some(b"ijkl")]);

    // Append rows: null (row 2), b"abcd" (row 0), null (row 2), b"efgh" (row 1)
    builder.append_val(&array, 2).unwrap(); // null
    builder.append_val(&array, 0).unwrap(); // b"abcd"
    builder.append_val(&array, 2).unwrap(); // null
    builder.append_val(&array, 1).unwrap(); // b"efgh"

    let test_array =
        make_fsb(vec![None, Some(b"abcd" as &[u8]), Some(b"xxxx"), Some(b"efgh")]);

    // null == null -> true
    assert!(builder.equal_to(0, &test_array, 0));
    // b"abcd" == b"abcd" -> true
    assert!(builder.equal_to(1, &test_array, 1));
    // null != b"xxxx" -> false
    assert!(!builder.equal_to(2, &test_array, 2));
    // b"efgh" == b"efgh" -> true
    assert!(builder.equal_to(3, &test_array, 3));
    // b"abcd" != b"xxxx" -> false
    assert!(!builder.equal_to(1, &test_array, 2));
}

#[test]
fn test_non_nullable_fixed_size_binary_equal_to() {
    let mut builder = FixedSizeBinaryGroupValueBuilder::<false>::new(4);

    let array = make_fsb(vec![Some(b"abcd" as &[u8]), Some(b"efgh")]);

    builder.append_val(&array, 0).unwrap();
    builder.append_val(&array, 1).unwrap();

    let test_array = make_fsb(vec![Some(b"abcd" as &[u8]), Some(b"xxxx")]);

    assert!(builder.equal_to(0, &test_array, 0));
    assert!(!builder.equal_to(1, &test_array, 1));
}

#[test]
fn test_vectorized_operations() {
    let mut builder = FixedSizeBinaryGroupValueBuilder::<false>::new(4);

    let array =
        make_fsb(vec![Some(b"aaaa" as &[u8]), Some(b"bbbb"), Some(b"cccc"), Some(b"dddd")]);

    builder.vectorized_append(&array, &[0, 1, 2, 3]).unwrap();
    assert_eq!(builder.len(), 4);

    let mut results = vec![true; 4];
    builder.vectorized_equal_to(&[0, 1, 2, 3], &array, &[0, 1, 2, 3], &mut results);
    assert!(results.iter().all(|&r| r));

    // Check inequality
    let other =
        make_fsb(vec![Some(b"aaaa" as &[u8]), Some(b"xxxx"), Some(b"cccc"), Some(b"yyyy")]);

    let mut results = vec![true; 4];
    builder.vectorized_equal_to(&[0, 1, 2, 3], &other, &[0, 1, 2, 3], &mut results);
    assert!(results[0]);
    assert!(!results[1]);
    assert!(results[2]);
    assert!(!results[3]);
}

#[test]
fn test_build_and_take_n() {
    let mut builder = FixedSizeBinaryGroupValueBuilder::<false>::new(4);

    let array = make_fsb(vec![Some(b"aaaa" as &[u8]), Some(b"bbbb"), Some(b"cccc")]);

    builder.vectorized_append(&array, &[0, 1, 2]).unwrap();

    // take_n(2) should return first two and leave one
    let taken = builder.take_n(2);
    assert_eq!(taken.len(), 2);
    assert_eq!(taken.value(0), b"aaaa");
    assert_eq!(taken.value(1), b"bbbb");
    assert_eq!(builder.len(), 1);

    // build should return the remaining
    let remaining = builder.build();
    assert_eq!(remaining.len(), 1);
    assert_eq!(remaining.value(0), b"cccc");
}

#[test]
fn nullable_rows_survive_every_way_of_appending() {
    let mixed = make_fsb(vec![Some(b"aaaa" as &[u8]), None, Some(b"bbbb")]);
    let nulls = make_fsb(vec![None, None]);
    let valid = make_fsb(vec![Some(b"cccc" as &[u8]), Some(b"dddd")]);
    let mut builder = FixedSizeBinaryGroupValueBuilder::<true>::new(4);
    builder.vectorized_append(&valid, &[1]).unwrap();
    builder.vectorized_append(&mixed, &[2, 1, 0]).unwrap();
    builder.vectorized_append(&nulls, &[0, 1]).unwrap();
    builder.append_val(&valid, 0).unwrap();
    assert_eq!(builder.len(), 7);
    assert!(builder.size() >= 28);

    // Appended rows are equal to the rows that they came from.
    let mut results = vec![true, true, false, true];
    builder.vectorized_equal_to(&[1, 2, 3], &mixed, &[2, 1, 1], &mut results);
    assert_eq!(results, vec![true, true, false, true]);

    let first = builder.take_n(3);
    assert_eq!(rows(&first), vec![Some(b"dddd".to_vec()), Some(b"bbbb".to_vec()), None]);
    assert_eq!(first.value_data(), b"ddddbbbb\0\0\0\0");
    let rest = builder.build();
    assert_eq!(
        rows(&rest),
        vec![Some(b"aaaa".to_vec()), None, None, Some(b"cccc".to_vec())]
    );
}

#[test]
fn rows_are_appended_as_one_by_one() {
    let order = [3, 0, 2, 2, 1];
    for array in [
        make_fsb(vec![Some(b"abcd" as &[u8]), None, Some(b"efgh"), Some(b"ijkl")]),
        make_fsb(vec![None; 4]),
        make_fsb(vec![Some(b"abcd" as &[u8]); 4]),
    ] {
        let mut together = FixedSizeBinaryGroupValueBuilder::<true>::new(4);
        let mut single = FixedSizeBinaryGroupValueBuilder::<true>::new(4);
        together.vectorized_append(&array, &order).unwrap();
        for row in order {
            single.append_val(&array, row).unwrap();
        }
        assert_eq!(rows(&together.build()), rows(&single.build()));
    }
}

#[test]
fn nulls_are_equal_to_nulls_only() {
    assert_eq!(nulls_equal_to(true, true), Some(true));
    assert_eq!(nulls_equal_to(true, false), Some(false));
    assert_eq!(nulls_equal_to(false, true), Some(false));
    assert_eq!(nulls_equal_to(false, false), None);
    let array = make_fsb(vec![None, Some(b"aaaa" as &[u8]), None, Some(b"aaaa"), Some(b"bbbb")]);
    let builder = FixedSizeBinaryGroupValueBuilder::<true>::new(4);
    assert!(builder.input_rows_equal(&array, 0, 2));
    assert!(builder.input_rows_equal(&array, 1, 3));
    assert!(!builder.input_rows_equal(&array, 0, 1));
    assert!(!builder.input_rows_equal(&array, 3, 4));
}

#[test]
fn boundaries_mark_rows_that_differ_from_the_row_before() {
    let array = make_fsb(vec![
        Some(b"aaaa" as &[u8]),
        Some(b"aaaa"),
        None,
        None,
        Some(b"aaaa"),
        Some(b"bbbb"),
        Some(b"bbbb"),
    ]);
    let builder = FixedSizeBinaryGroupValueBuilder::<true>::new(4);
    let mut boundaries = vec![true, false, false, false, false, false, true, false];
    builder.compute_boundaries(&array, &mut boundaries);
    assert_eq!(boundaries, vec![true, false, true, false, true, true, true, false]);

    let valid = make_fsb(vec![Some(b"aaaa" as &[u8]), Some(b"aaab"), Some(b"aaab")]);
    for _ in 0..2 {
        let mut boundaries = vec![false; 3];
        builder.compute_boundaries(&valid, &mut boundaries);
        assert_eq!(boundaries, vec![false, true, false]);
    }
    let plain = FixedSizeBinaryGroupValueBuilder::<false>::new(4);
    let mut boundaries = vec![false; 3];
    plain.compute_boundaries(&valid, &mut boundaries);
    assert_eq!(boundaries, vec![false, true, false]);
}

#[test]
fn hashes_of_rows_are_combined() {
    assert_eq!(combine_hashes(1, 2), 630 * 37 + 2);
    assert_eq!(combine_hashes(u64::MAX, 0), 628 * 37);
    assert_eq!(next_hash(true, 5, true, 9), 9);
    assert_eq!(next_hash(false, 5, false, 9), 5);
    assert_eq!(next_hash(false, 5, true, 9), 634 * 37 + 9);

    let array = make_fsb(vec![Some(b"aaaa" as &[u8]), None]);
    let builder = FixedSizeBinaryGroupValueBuilder::<true>::new(4);
    let state = RandomState::with_seeds(1, 2, 3, 4);
    let alone = builder.hash_input_row(&array, 0, &state, false, 9);
    assert_eq!(alone, state.hash_one(b"aaaa" as &[u8]));
    assert_eq!(builder.hash_input_row(&array, 0, &state, true, 9), combine_hashes(alone, 9));
    assert_eq!(builder.hash_input_row(&array, 1, &state, true, 9), 9);
}

#[test]
fn values_without_bytes_are_counted_by_their_nulls() {
    let empty: Vec<Option<&[u8]>> = vec![Some(b""), None];
    let array = FixedSizeBinaryArray::try_from_sparse_iter_with_size(empty.into_iter(), 0).unwrap();
    let mut builder = FixedSizeBinaryGroupValueBuilder::<true>::new(0);
    builder.append_val(&array, 0).unwrap();
    builder.append_val(&array, 1).unwrap();
    assert_eq!(builder.len(), 2);
    assert_eq!(rows(&builder.take_n(2)), vec![Some(vec![]), None]);
    builder.append_val(&array, 0).unwrap();
    assert_eq!(builder.build().len(), 0);
}

#[test]
fn null_flags_are_taken_and_built() {
    let mut nulls = MaybeNullBufferBuilder::new();
    assert!(!nulls.might_have_nulls());
    for flag in [false, true, false, false] {
        nulls.append(flag);
    }
    assert!(nulls.might_have_nulls());
    assert!(nulls.is_null(1));
    assert_eq!(nulls.take_n(2), Some(vec![true, false]));
    assert_eq!(nulls.len(), 2);
    assert!(!nulls.might_have_nulls());
    assert_eq!(nulls.build(), None);
}
