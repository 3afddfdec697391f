use arrow::array::{
    make_array, Array, ArrayData, ArrayRef, FixedSizeBinaryArray, Float64Array, Int32Array,
    StringArray,
};
use columnar_exec::arrays::ArrayKind;
use columnar_exec::error::ExecError;
use columnar_exec::probe_runs::{plan, supports_type, JoinMatches, KeyColumn, ProbeRuns};
use std::collections::HashMap;
use std::hash::{DefaultHasher, Hash, Hasher};
use std::sync::Arc;

#[derive(Clone, Copy, PartialEq)]
enum NullEquality {
    NullEqualsNothing,
    NullEqualsNull,
}

fn key_column(array: &ArrayRef) -> KeyColumn {
    match array.data_type() {
        arrow::datatypes::DataType::FixedSizeBinary(_) => {
            KeyColumn::FixedSizeBinary(FixedSizeBinaryArray::from(array.to_data()))
        }
        _ => KeyColumn::Plain(array.to_data()),
    }
}

fn row_hash(columns: &[ArrayRef], row: usize) -> u64 {
    let mut hasher = DefaultHasher::new();
    for column in columns {
        format!("{:?}", column.slice(row, 1)).hash(&mut hasher);
    }
    hasher.finish()
}

fn rows_equal(
    build: &[ArrayRef],
    row: usize,
    keys: &[ArrayRef],
    run: usize,
    nulls: NullEquality,
) -> bool {
    build.iter().zip(keys).all(|(build, key)| {
        if build.is_null(row) || key.is_null(run) {
            return nulls == NullEquality::NullEqualsNull
                && build.is_null(row)
                && key.is_null(run);
        }
        build.slice(row, 1).to_data() == key.slice(run, 1).to_data()
    })
}

/// Every build row that equals a key, key by key, up to `limit` matches. Candidates
/// come from the chain of the key's hash.
fn lookup(
    build: &[ArrayRef],
    chains: &HashMap<u64, Vec<usize>>,
    keys: &Vec<ArrayData>,
    nulls: NullEquality,
    limit: usize,
) -> JoinMatches {
    let keys: Vec<ArrayRef> = keys.iter().map(|data| make_array(data.clone())).collect();
    let mut build_indices = vec![];
    let mut run_indices = vec![];
    for run in 0..keys[0].len() {
        for &row in chains.get(&row_hash(&keys, run)).unwrap_or(&vec![]) {
            if rows_equal(build, row, &keys, run, nulls) {
                if build_indices.len() == limit {
                    return JoinMatches {
                        build_indices,
                        run_indices,
                        next_offset: Some((run, Some(row as u64))),
                    };
                }
                build_indices.push(row as u64);
                run_indices.push(run as u32);
            }
        }
    }
    JoinMatches { build_indices, run_indices, next_offset: None }
}

fn prepare_runs(
    build: &[ArrayRef],
    probe: &[ArrayRef],
    nulls: NullEquality,
    batch_size: usize,
    force_collision: bool,
) -> Option<ProbeRuns> {
    let mut hashes: Vec<u64> = (0..build[0].len()).map(|row| row_hash(build, row)).collect();
    if force_collision {
        // The middle build key differs but shares the candidate hash chain.
        hashes[1] = hashes[0];
    }
    let mut chains: HashMap<u64, Vec<usize>> = HashMap::new();
    for (row, hash) in hashes.into_iter().enumerate() {
        chains.entry(hash).or_default().push(row);
    }
    let columns: Vec<KeyColumn> = probe.iter().map(key_column).collect();
    ProbeRuns::try_new(&columns, batch_size, |keys: &Vec<ArrayData>, limit: usize| {
        Ok(lookup(build, &chains, keys, nulls, limit))
    })
    .unwrap()
}

fn collect_pairs(mut runs: ProbeRuns, limit: usize) -> Vec<(u64, u32)> {
    let mut result = vec![];
    loop {
        let (build, probe, next, _) = runs.next_indices(limit);
        assert!(build.len() <= limit);
        result.extend(build.into_iter().zip(probe));
        if next.is_none() {
            return result;
        }
    }
}

fn ints(values: Vec<i32>) -> ArrayRef {
    Arc::new(Int32Array::from(values))
}

fn strings(values: Vec<String>) -> ArrayRef {
    Arc::new(StringArray::from(values))
}

#[test]
fn run_probe_preserves_duplicate_order_and_collision_checks() {
    let build = vec![ints(vec![7, 8, 7])];
    let probe = vec![ints(vec![7; 6])];
    let runs = prepare_runs(&build, &probe, NullEquality::NullEqualsNothing, 4, true)
        .expect("one run with bounded build fanout");
    let expected = (0..6).flat_map(|row| [(0, row), (2, row)]).collect::<Vec<_>>();
    // An output limit of three splits both a run and one row's build matches.
    assert_eq!(collect_pairs(runs, 3), expected);
}

#[test]
fn run_probe_handles_nulls_and_all_key_columns() {
    let build: Vec<ArrayRef> = vec![
        Arc::new(Int32Array::from(vec![None, Some(1), Some(1), Some(2)])),
        ints(vec![5, 7, 8, 9]),
    ];
    let probe: Vec<ArrayRef> = vec![
        Arc::new(Int32Array::from(vec![
            None,
            None,
            Some(1),
            Some(1),
            Some(1),
            Some(1),
            Some(2),
            Some(2),
            Some(3),
            Some(3),
        ])),
        ints(vec![5, 5, 7, 7, 8, 8, 9, 9, 0, 0]),
    ];
    for null_equality in [NullEquality::NullEqualsNothing, NullEquality::NullEqualsNull] {
        let runs = prepare_runs(&build, &probe, null_equality, 8, false).expect("five exact-key runs");
        assert_eq!(runs.run_count(), 5);
        let mut expected = vec![(1, 2), (1, 3), (2, 4), (2, 5), (3, 6), (3, 7)];
        if null_equality == NullEquality::NullEqualsNull {
            expected.splice(0..0, [(0, 0), (0, 1)]);
        }
        assert_eq!(collect_pairs(runs, 3), expected);
    }
}

#[test]
fn run_probe_fixed_binary_slices_compare_both_halves() {
    let zero = [0_u8; 16];
    let mut low = zero;
    low[15] = 1;
    let mut high = low;
    high[0] = 1;
    let build: Vec<ArrayRef> = vec![Arc::new(
        FixedSizeBinaryArray::try_from_iter([zero, low, high].into_iter()).unwrap(),
    )];
    let probe: ArrayRef = Arc::new(
        FixedSizeBinaryArray::try_from_iter(
            [high, zero, zero, low, low, high, high, zero].into_iter(),
        )
        .unwrap(),
    );
    let runs =
        prepare_runs(&build, &[probe.slice(1, 6)], NullEquality::NullEqualsNothing, 4, false)
            .expect("three sliced binary-key runs");
    assert_eq!(
        collect_pairs(runs, 4),
        vec![(0, 0), (0, 1), (1, 2), (1, 3), (2, 4), (2, 5)],
    );
}

#[test]
fn run_probe_falls_back_for_sparse_runs_or_excess_fanout() {
    let build = vec![ints(vec![1; 5])];
    let repeated = vec![ints(vec![1; 8])];
    assert!(prepare_runs(&build, &repeated, NullEquality::NullEqualsNothing, 4, false).is_none());
    let sparse = vec![ints(vec![1, 2, 3, 4])];
    assert!(prepare_runs(&build, &sparse, NullEquality::NullEqualsNothing, 8, false).is_none());
}

#[test]
fn run_probe_bulk_single_matches_preserve_gaps_and_run_boundaries() {
    let build = vec![ints(vec![1, 2])];
    let probe = vec![ints([vec![1; 70], vec![9; 4], vec![2; 17], vec![1; 5]].concat())];
    let runs = prepare_runs(&build, &probe, NullEquality::NullEqualsNothing, 4, false)
        .expect("three matched runs and an unmatched gap");
    let expected = (0..70)
        .map(|row| (0, row))
        .chain((74..91).map(|row| (1, row)))
        .chain((91..96).map(|row| (0, row)))
        .collect::<Vec<_>>();
    for limit in [1, 4, 8] {
        assert_eq!(collect_pairs(runs.clone(), limit), expected);
    }
}

#[test]
fn run_probe_prefix_admission_still_checks_the_full_composite_key() {
    let build = vec![ints(vec![0]), strings(vec!["same".to_owned()])];
    // A dense prefix must not hide a mostly unique second key in the tail.
    let dense_prefix = vec![
        ints(vec![0; 128]),
        strings(
            (0..128)
                .map(|row| if row < 64 { "same".to_owned() } else { row.to_string() })
                .collect(),
        ),
    ];
    assert!(
        prepare_runs(&build, &dense_prefix, NullEquality::NullEqualsNothing, 256, false).is_none()
    );

    // A sparse prefix may decline even if the full batch later becomes dense.
    let sparse_prefix = vec![
        ints(vec![0; 256]),
        strings(
            (0..256)
                .map(|row| if row < 64 { row.to_string() } else { "same".to_owned() })
                .collect(),
        ),
    ];
    assert!(
        prepare_runs(&build, &sparse_prefix, NullEquality::NullEqualsNothing, 256, false).is_none()
    );
}

#[test]
fn run_probe_materialization_reuses_only_contiguous_probe_buffers() {
    for (build_keys, probe_keys, limit, shares_probe, expected) in [
        (
            vec![1, 2],
            vec![1, 1, 1, 1, 2, 2, 2, 2],
            3,
            true,
            vec![
                (10, Some(100)),
                (10, None),
                (10, Some(102)),
                (10, Some(103)),
                (11, Some(104)),
                (11, None),
                (11, Some(106)),
                (11, Some(107)),
            ],
        ),
        (
            vec![1, 2],
            vec![1, 1, 9, 9, 2, 2, 2, 2],
            16,
            false,
            vec![
                (10, Some(100)),
                (10, None),
                (11, Some(104)),
                (11, None),
                (11, Some(106)),
                (11, Some(107)),
            ],
        ),
        (
            vec![1, 1, 2],
            vec![1, 1, 1, 1, 2, 2, 2, 2],
            16,
            false,
            vec![
                (10, Some(100)),
                (11, Some(100)),
                (10, None),
                (11, None),
                (10, Some(102)),
                (11, Some(102)),
                (10, Some(103)),
                (11, Some(103)),
                (12, Some(104)),
                (12, None),
                (12, Some(106)),
                (12, Some(107)),
            ],
        ),
    ] {
        let mut runs = prepare_runs(
            &[ints(build_keys)],
            &[ints(probe_keys)],
            NullEquality::NullEqualsNothing,
            16,
        false,
    )
        .expect("bounded representative matches");
        // Start with a sliced payload so that sharing also checks nonzero offsets.
        let payload: ArrayRef = Arc::new(
            Int32Array::from(vec![
                Some(-1),
                Some(100),
                None,
                Some(102),
                Some(103),
                Some(104),
                None,
                Some(106),
                Some(107),
                Some(-1),
            ])
            .slice(1, 8),
        );
        let mut actual = vec![];
        loop {
            let (build_indices, probe_indices, next, range) = runs.next_indices(limit);
            assert_eq!(range.is_some(), shares_probe);
            assert!(build_indices.len() <= limit);
            let taken = match range {
                // The rows of a range are a slice of the payload.
                Some(range) => payload.slice(range.start, range.end - range.start),
                None => arrow::compute::take(
                    &payload,
                    &arrow::array::UInt32Array::from(probe_indices),
                    None,
                )
                .unwrap(),
            };
            let taken = Int32Array::from(taken.to_data());
            actual.extend(
                build_indices.iter().map(|row| 10 + *row as i32).zip(taken.iter()),
            );
            if next.is_none() {
                break;
            }
        }
        assert_eq!(actual, expected);
    }
}

#[test]
fn chunks_say_where_they_go_on() {
    let mut runs = ProbeRuns::from_matches(
        vec![0, 3, 5, 6],
        JoinMatches {
            build_indices: vec![4, 9, 2],
            run_indices: vec![0, 0, 2],
            next_offset: None,
        },
    )
    .unwrap();
    assert_eq!(runs.run_count(), 3);
    assert_eq!(runs.next_indices(0), (vec![], vec![], Some((0, None)), None));
    // The second match of row 1 is still to come.
    assert_eq!(
        runs.next_indices(3),
        (vec![4, 9, 4], vec![0, 0, 1], Some((1, None)), None)
    );
    // Row 1 is done.
    assert_eq!(runs.next_indices(1), (vec![9], vec![1], Some((2, None)), None));
    assert_eq!(runs.next_indices(2), (vec![4, 9], vec![2, 2], Some((3, None)), None));
    // The run without matches is passed over.
    assert_eq!(runs.next_indices(9), (vec![2], vec![5], None, Some(5..6)));
    assert_eq!(runs.next_indices(9), (vec![], vec![], None, None));
}

#[test]
fn unfinished_lookups_are_declined() {
    let matches = JoinMatches {
        build_indices: vec![1],
        run_indices: vec![0],
        next_offset: Some((0, Some(3))),
    };
    assert!(ProbeRuns::from_matches(vec![0, 2], matches).is_none());
}

#[test]
fn plans_hold_the_first_key_of_each_run() {
    let columns = vec![
        key_column(&ints(vec![5, 5, 5, 7, 7, 7, 7, 7])),
        key_column(&strings(
            ["a", "a", "a", "a", "a", "b", "b", "b"].map(str::to_owned).to_vec(),
        )),
    ];
    let runs = plan(&columns, 8).unwrap().unwrap();
    assert_eq!(runs.starts, vec![0, 3, 5, 8]);
    assert_eq!(
        Int32Array::from(runs.representatives[0].clone()),
        Int32Array::from(vec![5, 7, 7])
    );
    assert_eq!(
        StringArray::from(runs.representatives[1].clone()),
        StringArray::from(vec!["a", "a", "b"])
    );
    // More runs than the batch has room for.
    assert!(plan(&columns, 2).unwrap().is_none());
    assert!(plan(&[], 8).unwrap().is_none());
    assert!(plan(&[key_column(&ints(vec![1]))], 8).unwrap().is_none());
}

#[test]
fn nullable_binary_keys_are_compared_by_value() {
    let items: Vec<Option<&[u8]>> =
        vec![None, None, Some(&[1; 16]), Some(&[1; 16]), Some(&[2; 16]), Some(&[2; 16])];
    let array = FixedSizeBinaryArray::try_from_sparse_iter_with_size(items.into_iter(), 16);
    let runs = plan(&[KeyColumn::FixedSizeBinary(array.unwrap())], 8).unwrap().unwrap();
    assert_eq!(runs.starts, vec![0, 2, 4, 6]);
}

#[test]
fn unsupported_keys_are_left_to_ordinary_probing() {
    assert!(supports_type(ArrayKind::Int64));
    assert!(supports_type(ArrayKind::FixedSizeBinary));
    assert!(supports_type(ArrayKind::Timestamp));
    for kind in [ArrayKind::Float32, ArrayKind::Float64, ArrayKind::Date32, ArrayKind::Other] {
        assert!(!supports_type(kind));
    }
    let floats: ArrayRef = Arc::new(Float64Array::from(vec![1.0; 8]));
    assert!(plan(&[key_column(&floats)], 8).unwrap().is_none());
}

#[test]
fn nested_keys_are_left_to_ordinary_probing() {
    let items: Vec<Option<Vec<Option<i32>>>> = vec![Some(vec![Some(1)]); 4];
    let lists = arrow::array::ListArray::from_iter_primitive::<arrow::datatypes::Int32Type, _, _>(
        items,
    );
    assert!(plan(&[KeyColumn::Plain(lists.to_data())], 8).unwrap().is_none());
}

#[test]
fn lookup_errors_are_handed_on() {
    let columns = vec![key_column(&ints(vec![1; 8]))];
    let result = ProbeRuns::try_new(&columns, 8, |_: &Vec<ArrayData>, _: usize| {
        Err(ExecError::ExpectedValueThenLambda)
    });
    assert!(matches!(result, Err(ExecError::ExpectedValueThenLambda)));
}

#[test]
fn chunks_of_changing_limits_give_every_pair_once() {
    let build = vec![ints(vec![1, 2, 1])];
    let probe = vec![ints(vec![1, 1, 1, 2, 2, 2])];
    let mut runs =
        prepare_runs(&build, &probe, NullEquality::NullEqualsNothing, 8, false).unwrap();
    let mut pairs = vec![];
    for limit in [1, 4, 2, 9] {
        let (build, probe, next, _) = runs.next_indices(limit);
        pairs.extend(build.into_iter().zip(probe));
        if next.is_none() {
            break;
        }
    }
    assert_eq!(
        pairs,
        vec![(0, 0), (2, 0), (0, 1), (2, 1), (0, 2), (2, 2), (1, 3), (1, 4), (1, 5)]
    );
}
