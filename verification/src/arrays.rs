//! The parts of `arrow` and `arrow_ord` that the kernels call.
use arrow::array::{
    make_array, Array, ArrayData, AsArray, BinaryArray, BooleanArray, FixedSizeBinaryArray,
    StringArray, UInt64Array,
};
use arrow::buffer::{BooleanBuffer, Buffer, NullBuffer};
use arrow::compute::cast;
use arrow::datatypes::{DataType, Int64Type};
use arrow::error::ArrowError;
use vstd::prelude::*;

verus! {

/// `arrow::array::ArrayData`: an array of any type.
#[verifier::external_type_specification]
#[verifier::external_body]
pub struct ExArrayData(arrow::array::ArrayData);

/// `arrow::array::FixedSizeBinaryArray`: byte strings of one length.
#[verifier::external_type_specification]
#[verifier::external_body]
pub struct ExFixedSizeBinaryArray(arrow::array::FixedSizeBinaryArray);

/// `arrow::buffer::BooleanBuffer`: bits.
#[verifier::external_type_specification]
#[verifier::external_body]
pub struct ExBooleanBuffer(arrow::buffer::BooleanBuffer);

/// `arrow::array::BooleanArray`: nullable booleans.
#[verifier::external_type_specification]
#[verifier::external_body]
pub struct ExBooleanArray(arrow::array::BooleanArray);

/// `arrow::buffer::NullBuffer`: which rows are null.
#[verifier::external_type_specification]
#[verifier::external_body]
pub struct ExNullBuffer(arrow::buffer::NullBuffer);

/// `arrow::error::ArrowError`: why a call into `arrow` failed.
#[verifier::external_type_specification]
#[verifier::external_body]
pub struct ExArrowError(arrow::error::ArrowError);

/// The rows of an array of any type: `None` for a null, else bytes that stand
/// for the value. Within one type equal values, and no others, have equal bytes; a
/// byte string and a string stand for themselves.
pub uninterp spec fn array_rows(array: ArrayData) -> Seq<Option<Seq<u8>>>;

/// A number for the type of an array whose rows `arrow_ord` compares with each
/// other; `None` for the types that it does not compare, such as nested ones.
pub uninterp spec fn compared_type(array: ArrayData) -> Option<int>;

/// The kinds of array types that are told apart.
#[derive(Clone, Copy, Debug, PartialEq, Eq, Structural)]
pub enum ArrayKind {
    Boolean,
    Int8,
    Int16,
    Int32,
    Int64,
    UInt8,
    UInt16,
    UInt32,
    UInt64,
    Float32,
    Float64,
    Date32,
    Utf8,
    LargeUtf8,
    Utf8View,
    Binary,
    LargeBinary,
    BinaryView,
    FixedSizeBinary,
    Timestamp,
    /// Every other type, among them the nested and the encoded ones.
    Other,
}

/// The kind of an array's type.
pub uninterp spec fn kind_of(array: ArrayData) -> ArrayKind;

/// Whether an array is of a type that is told apart, neither nested nor encoded.
pub open spec fn is_flat(array: ArrayData) -> bool {
    kind_of(array) != ArrayKind::Other
}

/// Whether an array is of type `Binary` or `Utf8`.
pub open spec fn holds_bytes(array: ArrayData) -> bool {
    kind_of(array) == ArrayKind::Binary || kind_of(array) == ArrayKind::Utf8
}

/// The bytes behind optional vectors.
pub open spec fn byte_rows(items: Seq<Option<Vec<u8>>>) -> Seq<Option<Seq<u8>>> {
    Seq::new(
        items.len(),
        |i: int|
            match items[i] {
                Some(bytes) => Some(bytes@),
                None => None,
            },
    )
}

/// The rows of a fixed-size binary array: whether each is valid, and the bytes
/// of its slot, which a null row has too.
pub uninterp spec fn binary_slots(array: FixedSizeBinaryArray) -> Seq<(bool, Seq<u8>)>;

/// The number that `compared_type` gives to the fixed-size binary type whose slots have
/// `size` bytes.
pub uninterp spec fn slot_type(size: i32) -> int;

/// The number of bytes in each slot of a fixed-size binary array.
pub uninterp spec fn slot_size(array: FixedSizeBinaryArray) -> i32;

/// The bits of a boolean buffer.
pub uninterp spec fn bits(buffer: BooleanBuffer) -> Seq<bool>;

/// The rows of a boolean array.
pub uninterp spec fn truths(array: BooleanArray) -> Seq<Option<bool>>;

/// Which rows a null buffer marks as null.
pub uninterp spec fn null_flags(nulls: NullBuffer) -> Seq<bool>;

/// The row that a slot holds.
pub open spec fn slot_row(slot: (bool, Seq<u8>)) -> Option<Seq<u8>> {
    if slot.0 {
        Some(slot.1)
    } else {
        None
    }
}

/// The rows of a fixed-size binary array.
pub open spec fn binary_rows(array: FixedSizeBinaryArray) -> Seq<Option<Seq<u8>>> {
    Seq::new(binary_slots(array).len(), |i: int| slot_row(binary_slots(array)[i]))
}

/// Which rows of a fixed-size binary array are null.
pub open spec fn null_slots(array: FixedSizeBinaryArray) -> Seq<bool> {
    Seq::new(binary_slots(array).len(), |i: int| !binary_slots(array)[i].0)
}

/// The positions of the set bits, in order.
pub open spec fn set_positions(bits: Seq<bool>) -> Seq<int>
    decreases bits.len(),
{
    if bits.len() == 0 {
        Seq::empty()
    } else if bits.last() {
        set_positions(bits.drop_last()).push(bits.len() - 1)
    } else {
        set_positions(bits.drop_last())
    }
}

/// Which rows of two columns differ; a null differs from every value, and not
/// from a null.
pub open spec fn differing(left: Seq<Option<Seq<u8>>>, right: Seq<Option<Seq<u8>>>) -> Seq<bool> {
    Seq::new(left.len(), |i: int| left[i] != right[i])
}

/// Where either of two bits is set.
pub open spec fn either(left: Seq<bool>, right: Seq<bool>) -> Seq<bool> {
    Seq::new(left.len(), |i: int| left[i] || right[i])
}

/// The rows at the given positions.
pub open spec fn gathered(rows: Seq<Option<Seq<u8>>>, positions: Seq<u64>) -> Seq<
    Option<Seq<u8>>,
> {
    Seq::new(positions.len(), |i: int| rows[positions[i] as int])
}

/// The positions as integers.
pub open spec fn as_positions(indices: Seq<usize>) -> Seq<int> {
    Seq::new(indices.len(), |i: int| indices[i] as int)
}

/// Whether the 16 bytes at position `index` differ from the next 16.
pub open spec fn chunk_differs(bytes: Seq<u8>, index: int) -> bool {
    bytes.subrange(16 * index, 16 * index + 16) != bytes.subrange(
        16 * index + 16,
        16 * index + 32,
    )
}

/// For each of the first `length` chunks of 16 bytes, whether the next differs.
pub open spec fn differing_chunks(bytes: Seq<u8>, length: int) -> Seq<bool> {
    Seq::new(length as nat, |i: int| chunk_differs(bytes, i))
}

/// The positions of the set bits are the increasing list of all of them.
pub proof fn lemma_set_positions(bits: Seq<bool>)
    ensures
        set_positions(bits).len() <= bits.len(),
        forall|k: int|
            0 <= k < set_positions(bits).len() ==> 0 <= #[trigger] set_positions(bits)[k]
                < bits.len() && bits[set_positions(bits)[k]],
        forall|j: int, k: int|
            0 <= j < k < set_positions(bits).len() ==> #[trigger] set_positions(bits)[j]
                < #[trigger] set_positions(bits)[k],
        forall|i: int| 0 <= i < bits.len() && #[trigger] bits[i] ==> set_positions(bits).contains(i),
    decreases bits.len(),
{
    if bits.len() > 0 {
        let rest = bits.drop_last();
        lemma_set_positions(rest);
        assert forall|i: int| 0 <= i < bits.len() && #[trigger] bits[i] implies set_positions(
            bits,
        ).contains(i) by {
            if i == bits.len() - 1 {
                assert(set_positions(bits)[set_positions(bits).len() - 1] == i);
            } else {
                assert(rest[i]);
                let k = choose|k: int|
                    0 <= k < set_positions(rest).len() && set_positions(rest)[k] == i;
                assert(set_positions(bits)[k] == i);
            }
        }
        assert forall|k: int| 0 <= k < set_positions(bits).len() implies 0
            <= #[trigger] set_positions(bits)[k] < bits.len() && bits[set_positions(bits)[k]] by {
            if k < set_positions(rest).len() {
                assert(set_positions(bits)[k] == set_positions(rest)[k]);
                assert(rest[set_positions(rest)[k]]);
            }
        }
        assert forall|j: int, k: int|
            0 <= j < k < set_positions(bits).len() implies #[trigger] set_positions(bits)[j]
            < #[trigger] set_positions(bits)[k] by {
            assert(set_positions(bits)[j] == set_positions(rest)[j]);
            if k < set_positions(rest).len() {
                assert(set_positions(bits)[k] == set_positions(rest)[k]);
            }
        }
    }
}

/// No set positions means that no bit is set, and as many as there are bits that
/// all are.
pub proof fn lemma_none_or_all_set(bits: Seq<bool>)
    ensures
        set_positions(bits).len() == 0 <==> forall|i: int|
            0 <= i < bits.len() ==> !(#[trigger] bits[i]),
        set_positions(bits).len() == bits.len() <==> forall|i: int|
            0 <= i < bits.len() ==> #[trigger] bits[i],
    decreases bits.len(),
{
    lemma_set_positions(bits);
    if bits.len() > 0 {
        let rest = bits.drop_last();
        lemma_none_or_all_set(rest);
        lemma_set_positions(rest);
        assert(bits.last() == bits[bits.len() - 1]);
        if forall|i: int| 0 <= i < bits.len() ==> !(#[trigger] bits[i]) {
            assert forall|i: int| 0 <= i < rest.len() implies !(#[trigger] rest[i]) by {
                assert(!bits[i]);
            }
        }
        if forall|i: int| 0 <= i < bits.len() ==> #[trigger] bits[i] {
            assert forall|i: int| 0 <= i < rest.len() implies #[trigger] rest[i] by {
                assert(bits[i]);
            }
        }
        if set_positions(bits).len() == 0 {
            assert forall|i: int| 0 <= i < bits.len() implies !(#[trigger] bits[i]) by {
                if i < rest.len() {
                    assert(!rest[i]);
                }
            }
        }
        if set_positions(bits).len() == bits.len() {
            assert forall|i: int| 0 <= i < bits.len() implies #[trigger] bits[i] by {
                if i < rest.len() {
                    assert(rest[i]);
                }
            }
        }
    }
}

/// Setting more bits does not lower their number.
pub proof fn lemma_set_positions_monotone(fewer: Seq<bool>, more: Seq<bool>)
    requires
        fewer.len() == more.len(),
        forall|i: int| 0 <= i < fewer.len() && #[trigger] fewer[i] ==> more[i],
    ensures
        set_positions(fewer).len() <= set_positions(more).len(),
    decreases fewer.len(),
{
    if fewer.len() > 0 {
        assert forall|i: int|
            0 <= i < fewer.drop_last().len() && #[trigger] fewer.drop_last()[i] implies more.drop_last()[i] by {
            assert(fewer[i]);
        }
        lemma_set_positions_monotone(fewer.drop_last(), more.drop_last());
        assert(fewer.last() == fewer[fewer.len() - 1]);
    }
}

/// `ArrayData::len`: the number of rows.
#[verifier::external_body]
pub(crate) fn array_len(array: &ArrayData) -> (result: usize)
    ensures
        result == array_rows(*array).len(),
{
    array.len()
}

/// `ArrayData::slice`: the `length` rows from `offset` on, in an array of the
/// same type. It panics where the array ends before.
#[verifier::external_body]
pub(crate) fn array_slice(array: &ArrayData, offset: usize, length: usize) -> (result: ArrayData)
    requires
        offset + length <= array_rows(*array).len(),
    ensures
        array_rows(result) == array_rows(*array).subrange(offset as int, offset + length),
        compared_type(result) == compared_type(*array),
        kind_of(result) == kind_of(*array),
{
    array.slice(offset, length)
}

/// Which rows are null.
pub open spec fn null_rows(rows: Seq<Option<Seq<u8>>>) -> Seq<bool> {
    Seq::new(rows.len(), |i: int| rows[i] is None)
}

/// The different values, in the order of their first rows.
pub open spec fn distinct_rows(rows: Seq<Option<Seq<u8>>>) -> Seq<Option<Seq<u8>>>
    decreases rows.len(),
{
    if rows.len() == 0 {
        Seq::empty()
    } else if distinct_rows(rows.drop_last()).contains(rows.last()) {
        distinct_rows(rows.drop_last())
    } else {
        distinct_rows(rows.drop_last()).push(rows.last())
    }
}

/// Each key is the position of the row's value.
pub open spec fn keys_point(
    keys: Seq<usize>,
    values: Seq<Option<Seq<u8>>>,
    rows: Seq<Option<Seq<u8>>>,
) -> bool {
    &&& keys.len() == rows.len()
    &&& forall|i: int|
        0 <= i < rows.len() ==> (#[trigger] keys[i]) < values.len() && values[keys[i] as int]
            == rows[i]
}

/// `ArrayData::data_type`: the type, as a kind. `arrow_ord` compares the types that are
/// told apart.
#[verifier::external_body]
pub(crate) fn array_kind(array: &ArrayData) -> (result: ArrayKind)
    ensures
        result == kind_of(*array),
        result != ArrayKind::Other ==> compared_type(*array) is Some,
{
    match array.data_type() {
        DataType::Boolean => ArrayKind::Boolean, DataType::Int8 => ArrayKind::Int8, DataType::Int16 => ArrayKind::Int16,
        DataType::Int32 => ArrayKind::Int32, DataType::Int64 => ArrayKind::Int64, DataType::UInt8 => ArrayKind::UInt8,
        DataType::UInt16 => ArrayKind::UInt16, DataType::UInt32 => ArrayKind::UInt32, DataType::UInt64 => ArrayKind::UInt64,
        DataType::Float32 => ArrayKind::Float32, DataType::Float64 => ArrayKind::Float64, DataType::Date32 => ArrayKind::Date32,
        DataType::Utf8 => ArrayKind::Utf8, DataType::LargeUtf8 => ArrayKind::LargeUtf8, DataType::Utf8View => ArrayKind::Utf8View,
        DataType::Binary => ArrayKind::Binary, DataType::LargeBinary => ArrayKind::LargeBinary, DataType::BinaryView => ArrayKind::BinaryView,
        DataType::FixedSizeBinary(_) => ArrayKind::FixedSizeBinary,
        DataType::Timestamp(_, _) => ArrayKind::Timestamp,
        _ => ArrayKind::Other,
    }
}

/// `ArrayData::ptr_eq`: whether both arrays refer to the same memory. Arrays that do
/// hold the same rows; nothing is claimed of arrays that do not.
#[verifier::external_body]
pub(crate) fn same_memory(left: &ArrayData, right: &ArrayData) -> (result: bool)
    ensures
        result ==> array_rows(*left) == array_rows(*right),
{
    left.ptr_eq(right)
}

/// `BinaryArray::iter`: the rows of an array of byte strings.
#[verifier::external_body]
pub(crate) fn binary_items(array: &ArrayData) -> (result: Vec<Option<Vec<u8>>>)
    requires
        kind_of(*array) == ArrayKind::Binary,
    ensures
        byte_rows(result@) == array_rows(*array),
{
    BinaryArray::from(array.clone()).iter().map(|item| item.map(<[u8]>::to_vec)).collect()
}

/// `StringArray::iter`: the rows of an array of strings, as their bytes.
#[verifier::external_body]
pub(crate) fn string_items(array: &ArrayData) -> (result: Vec<Option<Vec<u8>>>)
    requires
        kind_of(*array) == ArrayKind::Utf8,
    ensures
        byte_rows(result@) == array_rows(*array),
{
    StringArray::from(array.clone()).iter().map(|item| item.map(|text| text.as_bytes().to_vec())).collect()
}

/// `ArrayData::null_count`: the number of null rows of an array of bytes. For
/// other types, of which some have nulls that it does not count, nothing is
/// claimed.
#[verifier::external_body]
pub(crate) fn array_null_count(array: &ArrayData) -> (result: usize)
    ensures
        holds_bytes(*array) ==> result == set_positions(null_rows(array_rows(*array))).len(),
{
    array.null_count()
}

/// `ArrayData::get_array_memory_size`: the bytes that the array occupies. They
/// depend on what was allocated, and nothing is claimed of them.
#[verifier::external_body]
pub(crate) fn array_memory_size(array: &ArrayData) -> usize {
    array.get_array_memory_size()
}

/// `arrow::compute::cast` of an array of bytes without nulls to a dictionary of the
/// same bytes: its values are the different values in the order of their first
/// rows, and the key of each row is the position of its value. Keys of 64 bits
/// number every value, so that the cast succeeds.
#[verifier::external_body]
pub(crate) fn dictionary_encode(array: &ArrayData) -> (result: Result<
    (Vec<usize>, ArrayData),
    ArrowError,
>)
    requires
        holds_bytes(*array),
        set_positions(null_rows(array_rows(*array))).len() == 0,
    ensures
        result is Ok,
        array_rows(result->Ok_0.1) == distinct_rows(array_rows(*array)),
        keys_point(result->Ok_0.0@, array_rows(result->Ok_0.1), array_rows(*array)),
        kind_of(result->Ok_0.1) == kind_of(*array),
{
    let bytes = array.data_type().clone();
    let target = DataType::Dictionary(Box::new(DataType::Int64), Box::new(bytes));
    let encoded = cast(&make_array(array.clone()), &target)?;
    let encoded = encoded.as_dictionary::<Int64Type>();
    let keys = encoded.keys().values().iter().map(|key| *key as usize).collect();
    Ok((keys, encoded.values().to_data()))
}

/// `arrow_ord::cmp::distinct`: in which rows two equally long arrays differ,
/// where a null equals a null and no value. It succeeds on arrays of one type, and
/// fails on arrays of two; what the failure says is not claimed.
///
/// Arrays of other types than those told apart are left out: `make_array` panics on
/// some of them, such as a struct whose field is not nullable and has a dictionary
/// with a null among its values.
#[verifier::external_body]
pub(crate) fn distinct(left: &ArrayData, right: &ArrayData) -> (result: Result<
    BooleanBuffer,
    ArrowError,
>)
    requires
        is_flat(*left),
        is_flat(*right),
        array_rows(*left).len() == array_rows(*right).len(),
    ensures
        result is Ok <==> compared_type(*left) == compared_type(*right),
        result is Ok ==> bits(result->Ok_0) == differing(array_rows(*left), array_rows(*right)),
{
    let left = make_array(left.clone());
    let right = make_array(right.clone());
    Ok(arrow_ord::cmp::distinct(&left, &right)?.values().clone())
}

/// The positions are in order, and none is given twice.
pub open spec fn ascending(positions: Seq<u64>) -> bool {
    forall|i: int, j: int| 0 <= i < j < positions.len() ==> positions[i] < positions[j]
}

/// `arrow::compute::take`: the rows at the given positions, in an array of the same
/// type. A position past the end makes it panic. It succeeds: the bytes of rows that are
/// each taken once are no more than the offsets of the array number.
///
/// Arrays of other types than those told apart are left out, as of `distinct`.
#[verifier::external_body]
pub(crate) fn take(array: &ArrayData, positions: Vec<u64>) -> (result: Result<
    ArrayData,
    ArrowError,
>)
    requires
        is_flat(*array),
        ascending(positions@),
        forall|i: int|
            0 <= i < positions@.len() ==> #[trigger] positions@[i] < array_rows(*array).len(),
    ensures
        result is Ok,
        array_rows(result->Ok_0) == gathered(array_rows(*array), positions@),
        compared_type(result->Ok_0) == compared_type(*array),
        kind_of(result->Ok_0) == kind_of(*array),
{
    let values = make_array(array.clone());
    let indices = UInt64Array::from(positions);
    Ok(arrow::compute::take(&values, &indices, None)?.to_data())
}

/// `FixedSizeBinaryArray::len`: the number of rows.
#[verifier::external_body]
pub(crate) fn binary_len(array: &FixedSizeBinaryArray) -> (result: usize)
    ensures
        result == binary_slots(*array).len(),
{
    array.len()
}

/// `FixedSizeBinaryArray::value_length`: the bytes in each slot, which is never
/// negative.
#[verifier::external_body]
pub(crate) fn binary_value_length(array: &FixedSizeBinaryArray) -> (result: i32)
    ensures
        result == slot_size(*array),
        result >= 0,
{
    array.value_length()
}

/// `FixedSizeBinaryArray::null_count`: the number of null rows.
#[verifier::external_body]
pub(crate) fn binary_null_count(array: &FixedSizeBinaryArray) -> (result: usize)
    ensures
        result == set_positions(null_slots(*array)).len(),
{
    array.null_count()
}

/// `FixedSizeBinaryArray::value_data`: the slots of all rows, one after the
/// other. More bytes may follow.
#[verifier::external_body]
pub(crate) fn binary_value_data(array: &FixedSizeBinaryArray) -> (result: &[u8])
    ensures
        result@.len() >= binary_slots(*array).len() * slot_size(*array),
        forall|i: int|
            0 <= i < binary_slots(*array).len() ==> (#[trigger] binary_slots(*array)[i]).1
                == result@.subrange(i * slot_size(*array), i * slot_size(*array) + slot_size(*array)),
{
    array.value_data()
}

/// `FixedSizeBinaryArray::is_null`: whether row `row` is null. A row past the end
/// makes it panic.
#[verifier::external_body]
pub(crate) fn binary_is_null(array: &FixedSizeBinaryArray, row: usize) -> (result: bool)
    requires
        row < binary_slots(*array).len(),
    ensures
        result == !binary_slots(*array)[row as int].0,
{
    array.is_null(row)
}

/// `FixedSizeBinaryArray::value`: the slot of row `row`, also of a null row. A row
/// past the end makes it panic.
#[verifier::external_body]
pub(crate) fn binary_value(array: &FixedSizeBinaryArray, row: usize) -> (result: &[u8])
    requires
        row < binary_slots(*array).len(),
    ensures
        result@ == binary_slots(*array)[row as int].1,
        result@.len() == slot_size(*array),
{
    array.value(row)
}

/// The slots of an array made of the bytes of its values and of their validity.
pub open spec fn slots_of(value_length: int, values: Seq<u8>, valid: Option<Seq<bool>>) -> Seq<
    (bool, Seq<u8>),
> {
    let rows = match valid {
        Some(valid) => valid.len(),
        None => if value_length == 0 {
            0
        } else {
            (values.len() / (value_length as nat)) as nat
        },
    };
    Seq::new(
        rows,
        |i: int|
            (
                valid is Some ==> valid->0[i],
                values.subrange(i * value_length, i * value_length + value_length),
            ),
    )
}

/// The view of an optional list of flags.
pub open spec fn flags(valid: Option<Vec<bool>>) -> Option<Seq<bool>> {
    match valid {
        Some(valid) => Some(valid@),
        None => None,
    }
}

/// `FixedSizeBinaryArray::new`: an array of the given slots. Without a list of
/// which are valid all are, and the number of rows is that of the slots, or 0 where
/// a slot has no bytes. It panics where `values` is not made of slots of that many
/// bytes, one for each entry of `valid`.
#[verifier::external_body]
pub(crate) fn binary_new(value_length: i32, values: Vec<u8>, valid: Option<Vec<bool>>) -> (result:
    FixedSizeBinaryArray)
    requires
        value_length >= 0,
        value_length == 0 ==> values@.len() == 0,
        valid is Some ==> values@.len() == valid->0@.len() * value_length,
    ensures
        slot_size(result) == value_length,
        binary_slots(result) == slots_of(value_length as int, values@, flags(valid)),
{
    FixedSizeBinaryArray::new(value_length, Buffer::from_vec(values), valid.map(NullBuffer::from))
}

/// `Array::to_data` of a fixed-size binary array: the same rows, of the type that the
/// size of the slots makes, which `arrow_ord` compares by their bytes.
#[verifier::external_body]
pub(crate) fn binary_to_data(array: &FixedSizeBinaryArray) -> (result: ArrayData)
    ensures
        array_rows(result) == binary_rows(*array),
        compared_type(result) == Some(slot_type(slot_size(*array))),
        kind_of(result) == ArrayKind::FixedSizeBinary,
{
    array.to_data()
}

/// `BooleanArray::len`: the number of rows.
#[verifier::external_body]
pub(crate) fn boolean_len(array: &BooleanArray) -> (result: usize)
    ensures
        result == truths(*array).len(),
{
    array.len()
}

/// `BooleanArray::is_null`: whether row `row` is null. A row past the end makes it
/// panic.
#[verifier::external_body]
pub(crate) fn boolean_is_null(array: &BooleanArray, row: usize) -> (result: bool)
    requires
        row < truths(*array).len(),
    ensures
        result == (truths(*array)[row as int] is None),
{
    array.is_null(row)
}

/// `BooleanArray::value`: the value in row `row`; in a null row it may be either. A
/// row past the end makes it panic.
#[verifier::external_body]
pub(crate) fn boolean_value(array: &BooleanArray, row: usize) -> (result: bool)
    requires
        row < truths(*array).len(),
    ensures
        truths(*array)[row as int] is Some ==> truths(*array)[row as int] == Some(result),
{
    array.value(row)
}

/// `BooleanArray::from`: an array of the given rows.
#[verifier::external_body]
pub(crate) fn boolean_from(rows: Vec<Option<bool>>) -> (result: BooleanArray)
    ensures
        truths(result) == rows@,
{
    BooleanArray::from(rows)
}

/// `NullBuffer::null_count`: the number of null rows.
#[verifier::external_body]
pub(crate) fn null_buffer_count(nulls: &NullBuffer) -> (result: usize)
    ensures
        result == set_positions(null_flags(*nulls)).len(),
{
    nulls.null_count()
}

/// `NullBuffer::is_null`: whether row `row` is null. A row past the end makes it
/// panic.
#[verifier::external_body]
pub(crate) fn null_buffer_is_null(nulls: &NullBuffer, row: usize) -> (result: bool)
    requires
        row < null_flags(*nulls).len(),
    ensures
        result == null_flags(*nulls)[row as int],
{
    nulls.is_null(row)
}

/// `BooleanBuffer::count_set_bits`: the number of set bits.
#[verifier::external_body]
pub(crate) fn count_set_bits(buffer: &BooleanBuffer) -> (result: usize)
    ensures
        result == set_positions(bits(*buffer)).len(),
{
    buffer.count_set_bits()
}

/// `BooleanBuffer::set_indices`: the positions of the set bits, in order.
#[verifier::external_body]
pub(crate) fn set_indices(buffer: &BooleanBuffer) -> (result: Vec<usize>)
    ensures
        as_positions(result@) == set_positions(bits(*buffer)),
{
    buffer.set_indices().collect()
}

/// `|` of two equally long buffers: the bits set in either. Buffers of different
/// lengths make it panic.
#[verifier::external_body]
pub(crate) fn bit_or(left: &BooleanBuffer, right: &BooleanBuffer) -> (result: BooleanBuffer)
    requires
        bits(*left).len() == bits(*right).len(),
    ensures
        bits(result) == either(bits(*left), bits(*right)),
{
    left | right
}

/// `BooleanBuffer::collect_bool`: `length` bits, each the answer of the closure
/// for its position.
#[verifier::external_body]
pub(crate) fn collect_differing_chunks(bytes: &[u8], length: usize) -> (result: BooleanBuffer)
    requires
        16 * length + 16 <= bytes@.len(),
    ensures
        bits(result) == differing_chunks(bytes@, length as int),
{
    BooleanBuffer::collect_bool(length, |index: usize| chunks_differ(bytes, index))
}

/// Whether the 16 bytes at position `index` differ from the next 16.
pub fn chunks_differ(bytes: &[u8], index: usize) -> (result: bool)
    requires
        16 * index + 32 <= bytes@.len(),
    ensures
        result == chunk_differs(bytes@, index as int),
{
    let ghost left = bytes@.subrange(16 * index, 16 * index + 16);
    let ghost right = bytes@.subrange(16 * index + 16, 16 * index + 32);
    proof {
        assert(bytes@.len() == bytes.len());
    }
    let start: usize = 16 * index;
    let mut i: usize = 0;
    while i < 16
        invariant
            i <= 16,
            start == 16 * index,
            16 * index + 32 <= bytes@.len(),
            bytes@.len() <= usize::MAX,
            left == bytes@.subrange(16 * index, 16 * index + 16),
            right == bytes@.subrange(16 * index + 16, 16 * index + 32),
            forall|j: int| 0 <= j < i ==> left[j] == right[j],
        decreases 16 - i,
    {
        if bytes[start + i] != bytes[start + 16 + i] {
            assert(left[i as int] != right[i as int]);
            return true;
        }
        assert(left[i as int] == right[i as int]);
        i = i + 1;
    }
    assert(left =~= right);
    false
}

/// Two neighbouring chunks of 16 bytes differ exactly where one of their bytes does.
pub proof fn law_chunks_differ_in_a_byte(bytes: &[u8], index: usize, result: bool)
    requires
        16 * index + 32 <= bytes@.len(),
        call_ensures(chunks_differ, (bytes, index), result),
    ensures
        result <==> exists|i: int|
            16 * index <= i < 16 * index + 16 && #[trigger] bytes@[i] != bytes@[i + 16],
{
    let left = bytes@.subrange(16 * index, 16 * index + 16);
    let right = bytes@.subrange(16 * index + 16, 16 * index + 32);
    if !(exists|i: int|
        16 * index <= i < 16 * index + 16 && #[trigger] bytes@[i] != bytes@[i + 16]) {
        assert forall|k: int| 0 <= k < 16 implies left[k] == right[k] by {
            let i = 16 * index + k;
            assert(bytes@[i] == bytes@[i + 16]);
        }
        assert(left =~= right);
    } else {
        let i = choose|i: int|
            16 * index <= i < 16 * index + 16 && #[trigger] bytes@[i] != bytes@[i + 16];
        assert(left[i - 16 * index] == bytes@[i]);
        assert(right[i - 16 * index] == bytes@[i + 16]);
    }
}

} // verus!
