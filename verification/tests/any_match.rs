use arrow::array::{
    make_array, Array, ArrayData, ArrayRef, BooleanArray, Int32Array, Int8Array, StructArray,
};
use arrow::buffer::NullBuffer;
use arrow::datatypes::{DataType as ArrowType, Field as ArrowField};
use columnar_exec::any_match::{
    any_match_over_fixed_size, any_match_over_offsets, remove_list_null_values,
    value_lambda_pair, AnyMatch, ListColumn, ListLayout, ValueOrLambda, Verdicts,
};
use columnar_exec::data_type::{DataType, Field};
use columnar_exec::error::ExecError;
use columnar_exec::signature::{Signature, TypeSignature, Volatility};
use std::sync::Arc;

fn create_i32_list(
    values: Vec<i32>,
    lengths: Vec<usize>,
    nulls: Option<NullBuffer>,
) -> ListColumn {
    let mut offsets = vec![0];
    for length in &lengths {
        offsets.push(offsets[offsets.len() - 1] + length);
    }
    ListColumn {
        layout: ListLayout::Offsets(offsets),
        values: Int32Array::from(values).to_data(),
        nulls,
        len: lengths.len(),
    }
}

fn greater_than_zero(values: &ArrayData) -> Result<Verdicts, ExecError> {
    let values = Int32Array::from(values.clone());
    Ok(Verdicts::Boolean(values.iter().map(|value| value.map(|value| value > 0)).collect()))
}

fn any_greater_than_zero(list: ListColumn) -> Result<BooleanArray, ExecError> {
    AnyMatch::new().invoke_with_args(&list, greater_than_zero)
}

#[test]
fn any_match_basic() {
    let list = create_i32_list(vec![-1, -2, 3], vec![3], None);
    let actual = any_greater_than_zero(list).unwrap();
    assert_eq!(actual, BooleanArray::from(vec![true]));
}

#[test]
fn any_match_all_negative() {
    let list = create_i32_list(vec![-1, -2, -3], vec![3], None);
    let actual = any_greater_than_zero(list).unwrap();
    assert_eq!(actual, BooleanArray::from(vec![false]));
}

#[test]
fn any_match_null_list_row_returns_null() {
    let list = create_i32_list(
        vec![1, 2, 3, 4],
        vec![2, 2],
        Some(NullBuffer::from(vec![false, true])),
    );
    let actual = any_greater_than_zero(list).unwrap();
    assert_eq!(actual, BooleanArray::from(vec![None, Some(true)]));
}

#[test]
fn any_match_multiple_rows() {
    // row 0: [-1, -2] -> false
    // row 1: [-1, 5]  -> true
    // row 2: [0]      -> false
    let list = create_i32_list(vec![-1, -2, -1, 5, 0], vec![2, 2, 1], None);
    let actual = any_greater_than_zero(list).unwrap();
    assert_eq!(actual, BooleanArray::from(vec![false, true, false]));
}

#[test]
fn any_match_empty_sublist() {
    let list = create_i32_list(vec![0i32; 0], vec![0], None);
    let actual = any_greater_than_zero(list).unwrap();
    // no elements -> no match
    assert_eq!(actual, BooleanArray::from(vec![false]));
}

#[test]
fn predicate_does_not_see_what_null_rows_hold() {
    let nulls = || Some(NullBuffer::from(vec![true, false, true]));
    let list = create_i32_list(vec![4, 0, 0, -3, 2], vec![1, 2, 2], nulls());
    let parts = remove_list_null_values(&list).unwrap();
    assert_eq!(parts.len(), 1);
    assert_eq!((parts[0].first, parts[0].len), (0, 3));
    assert!(matches!(&parts[0].layout, ListLayout::Offsets(offsets) if *offsets == vec![0, 1, 1, 3]));
    assert_eq!(Int32Array::from(parts[0].values.clone()), Int32Array::from(vec![4, -3, 2]));

    let fixed = ListColumn {
        layout: ListLayout::FixedSize(2),
        values: Int32Array::from(vec![-1, 4, 0, 0, -3, -2]).to_data(),
        nulls: nulls(),
        len: 3,
    };
    let parts = remove_list_null_values(&fixed).unwrap();
    assert_eq!(parts.len(), 1);
    assert_eq!(Int32Array::from(parts[0].values.clone()), Int32Array::from(vec![-1, 4, -3, -2]));
    assert_eq!(
        any_greater_than_zero(fixed).unwrap(),
        BooleanArray::from(vec![Some(true), None, Some(false)])
    );
}

#[test]
fn predicate_does_not_see_elements_that_are_in_no_row() {
    let list = ListColumn {
        layout: ListLayout::Offsets(vec![2, 3, 5]),
        values: Int32Array::from(vec![0, 0, 7, -1, -2, 0]).to_data(),
        nulls: None,
        len: 2,
    };
    let result = AnyMatch::new().invoke_with_args(&list, |values: &ArrayData| {
        assert_eq!(Int32Array::from(values.clone()), Int32Array::from(vec![7, -1, -2]));
        greater_than_zero(values)
    });
    assert_eq!(result.unwrap(), BooleanArray::from(vec![true, false]));
}

fn struct_list(layout: ListLayout, numbers: Vec<i32>, nulls: Vec<bool>) -> ListColumn {
    let field = ArrowField::new("x", ArrowType::Int32, true);
    let numbers: ArrayRef = Arc::new(Int32Array::from(numbers));
    ListColumn {
        layout,
        values: StructArray::from(vec![(Arc::new(field), numbers)]).to_data(),
        len: nulls.len(),
        nulls: Some(NullBuffer::from(nulls)),
    }
}

fn any_field_greater_than_zero(list: &ListColumn) -> Vec<usize> {
    let sizes = std::cell::RefCell::new(Vec::new());
    let result = AnyMatch::new().invoke_with_args(list, |values: &ArrayData| {
        let values = StructArray::from(values.clone());
        sizes.borrow_mut().push(values.len());
        let numbers = Int32Array::from(values.column(0).to_data());
        assert!(numbers.iter().all(|number| number != Some(0)));
        Ok(Verdicts::Boolean(numbers.iter().map(|number| number.map(|x| x > 0)).collect()))
    });
    assert_eq!(
        result.unwrap(),
        BooleanArray::from(vec![Some(false), Some(true), None, None, Some(true), None])
    );
    sizes.into_inner()
}

#[test]
fn nested_elements_are_asked_stretch_by_stretch() {
    let nulls = vec![true, true, false, false, true, false];
    let offsets = vec![0, 1, 2, 3, 3, 5, 6];
    let list = struct_list(ListLayout::Offsets(offsets), vec![-1, 2, 0, -3, 4, 0], nulls.clone());
    assert_eq!(any_field_greater_than_zero(&list), vec![2, 2]);
    let fixed = struct_list(ListLayout::FixedSize(1), vec![-1, 2, 0, 0, 4, 0], nulls);
    assert_eq!(any_field_greater_than_zero(&fixed), vec![2, 1]);
    let parts = remove_list_null_values(&fixed).unwrap();
    assert_eq!(parts.iter().map(|part| (part.first, part.len)).collect::<Vec<_>>(), [(0, 2), (4, 1)]);
}

#[test]
fn struct_elements_with_nulls_behind_dictionaries_are_accepted() {
    let values = Int32Array::from(vec![None, Some(1)]).to_data();
    let dictionary = ArrowType::Dictionary(Box::new(ArrowType::Int8), Box::new(ArrowType::Int32));
    let keys = Int8Array::from(vec![0, 1]).to_data();
    let keys = keys
        .into_builder()
        .data_type(dictionary.clone())
        .child_data(vec![values])
        .build()
        .unwrap();
    let fields = vec![ArrowField::new("x", dictionary, false)];
    let elements = ArrayData::builder(ArrowType::Struct(fields.into()))
        .len(2)
        .child_data(vec![keys])
        .build()
        .unwrap();
    let list = ListColumn {
        layout: ListLayout::Offsets(vec![0, 1, 2]),
        values: elements,
        nulls: Some(NullBuffer::from(vec![true, false])),
        len: 2,
    };
    let result = AnyMatch::new().invoke_with_args(&list, |values: &ArrayData| {
        Ok(Verdicts::Boolean(BooleanArray::from(vec![true; values.len()])))
    });
    assert_eq!(result.unwrap(), BooleanArray::from(vec![Some(true), None]));
}

#[test]
fn one_verdict_stands_for_every_element() {
    let list = || create_i32_list(vec![1, 2], vec![0, 2, 0], None);
    for (verdict, expected) in [(Some(true), true), (Some(false), false), (None, false)] {
        let result =
            AnyMatch::new().invoke_with_args(&list(), |_: &ArrayData| Ok(Verdicts::Scalar(verdict)));
        assert_eq!(result.unwrap(), BooleanArray::from(vec![false, expected, false]));
    }
}

#[test]
fn predicate_is_not_evaluated_where_every_row_is_null() {
    for len in [0, 2] {
        let list = ListColumn {
            layout: ListLayout::FixedSize(1),
            values: Int32Array::from(vec![1; len]).to_data(),
            nulls: Some(NullBuffer::from(vec![false; len])),
            len,
        };
        let result = AnyMatch::new().invoke_with_args(&list, |_: &ArrayData| {
            panic!("evaluated")
        });
        assert_eq!(result.unwrap(), BooleanArray::from(vec![None::<bool>; len]));
    }
}

#[test]
fn predicate_must_return_booleans() {
    let list = create_i32_list(vec![1], vec![1], None);
    let result = AnyMatch::new().invoke_with_args(&list, |values: &ArrayData| {
        assert_eq!(make_array(values.clone()).len(), 1);
        Ok(Verdicts::Other(DataType::Int32))
    });
    assert!(matches!(
        result,
        Err(ExecError::LambdaNotBoolean { data_type: DataType::Int32 })
    ));
    let result = AnyMatch::new().invoke_with_args(&list, |_: &ArrayData| {
        Err(ExecError::UnexpectedColumn)
    });
    assert!(matches!(result, Err(ExecError::UnexpectedColumn)));
}

#[test]
fn null_verdicts_do_not_match() {
    let verdicts = BooleanArray::from(vec![None, Some(false), None, Some(true)]);
    assert_eq!(
        any_match_over_offsets(&[0, 2, 2, 4], &verdicts, None),
        BooleanArray::from(vec![false, false, true])
    );
    assert_eq!(any_match_over_offsets(&[], &verdicts, None).len(), 0);
    let nulls = NullBuffer::from(vec![true, false]);
    assert_eq!(
        any_match_over_fixed_size(2, 2, &verdicts, Some(&nulls)),
        BooleanArray::from(vec![Some(false), None])
    );
}

fn field(name: &str, data_type: DataType, nullable: bool) -> Field {
    Field {
        name: name.to_owned(),
        data_type,
        nullable,
        metadata: Arc::new(vec![("origin".to_owned(), "test".to_owned())]),
    }
}

#[test]
fn list_views_are_coerced_to_lists() {
    let function = AnyMatch::new();
    let item = Arc::new(field("item", DataType::Int32, true));
    for (given, expected) in [
        (DataType::List(item.clone()), DataType::List(item.clone())),
        (DataType::LargeList(item.clone()), DataType::LargeList(item.clone())),
        (DataType::FixedSizeList(item.clone(), 3), DataType::FixedSizeList(item.clone(), 3)),
        (DataType::ListView(item.clone()), DataType::List(item.clone())),
        (DataType::LargeListView(item.clone()), DataType::LargeList(item.clone())),
    ] {
        assert_eq!(function.coerce_value_types(&[given]).unwrap(), vec![expected]);
    }
    assert!(matches!(
        function.coerce_value_types(&[DataType::Int32]),
        Err(ExecError::ExpectedList { data_type: DataType::Int32 })
    ));
    assert!(matches!(
        function.coerce_value_types(&[]),
        Err(ExecError::ArgumentCount { expected: 1, actual: 0 })
    ));
}

#[test]
fn lambda_takes_the_elements() {
    let function = AnyMatch::default();
    let item = Arc::new(field("item", DataType::Utf8, false));
    let list = field("list", DataType::LargeList(item), true);
    let parameters = function.lambdas_parameters(&[list]).unwrap();
    assert_eq!(parameters, vec![vec![field("", DataType::Utf8, false)]]);
    assert!(matches!(
        function.lambdas_parameters(&[field("x", DataType::Utf8, true)]),
        Err(ExecError::ExpectedList { data_type: DataType::Utf8 })
    ));
    assert!(matches!(
        function.lambdas_parameters(&[]),
        Err(ExecError::ArgumentCount { expected: 1, actual: 0 })
    ));
}

#[test]
fn result_is_nullable_where_the_list_is() {
    let function = AnyMatch::new();
    assert_eq!(function.name(), "any_match");
    assert!(function.short_circuits());
    assert_eq!(
        *function.signature(),
        Signature {
            type_signature: TypeSignature::UserDefined,
            volatility: Volatility::Immutable,
        }
    );
    for nullable in [false, true] {
        let result = function
            .return_field_from_args(&[
                ValueOrLambda::Value(field("list", DataType::Null, nullable)),
                ValueOrLambda::Lambda(field("lambda", DataType::Boolean, true)),
            ])
            .unwrap();
        assert_eq!(result.name, "");
        assert_eq!(result.data_type, DataType::Boolean);
        assert_eq!(result.nullable, nullable);
    }
    assert!(matches!(
        function.return_field_from_args(&[]),
        Err(ExecError::ArgumentCount { expected: 2, actual: 0 })
    ));
}

#[test]
fn arguments_are_a_value_and_then_a_lambda() {
    let args = [ValueOrLambda::Value(1), ValueOrLambda::Lambda("x")];
    assert_eq!(value_lambda_pair(&args).unwrap(), (&1, &"x"));
    let swapped = [ValueOrLambda::Lambda("x"), ValueOrLambda::Value(1)];
    assert!(matches!(value_lambda_pair(&swapped), Err(ExecError::ExpectedValueThenLambda)));
    assert!(matches!(
        value_lambda_pair(&args[..1]),
        Err(ExecError::ArgumentCount { expected: 2, actual: 1 })
    ));
}
