//! Group values of a fixed-size binary column.
use crate::arith;
use crate::arrays;
use crate::arrays::{
    binary_is_null, binary_len, binary_new, binary_null_count, binary_value, binary_value_data,
};
use crate::error::ExecError;
use crate::hashing;
use crate::hashing::{combine_hashes, hash_value};
use crate::null_builder;
use crate::null_builder::MaybeNullBufferBuilder;
use crate::shared::capacity;
use ahash::RandomState;
use arrow::array::FixedSizeBinaryArray;
use vstd::prelude::*;

verus! {

/// How many rows of a batch are null.
#[derive(Clone, Copy, Debug, PartialEq, Eq, Structural)]
pub enum Nulls {
    /// Every row.
    Every,
    /// Some rows, and some not.
    Mixed,
    /// No row.
    Absent,
}

/// What is stored of a slot: its bytes, or nothing for a null in a nullable
/// column. A column that is not nullable stores the bytes of every slot.
pub open spec fn stored(nullable: bool, slot: (bool, Seq<u8>)) -> Option<Seq<u8>> {
    if nullable && !slot.0 {
        None
    } else {
        Some(slot.1)
    }
}

/// `count` zero bytes.
pub open spec fn zeros(count: int) -> Seq<u8> {
    Seq::new(count as nat, |i: int| 0u8)
}

/// The slot that stands for a row in the built array: a null has zero bytes.
pub open spec fn slot_for(size: int, row: Option<Seq<u8>>) -> (bool, Seq<u8>) {
    match row {
        Some(bytes) => (true, bytes),
        None => (false, zeros(size)),
    }
}

/// The slots of the array built of `rows`. Values without bytes are counted by
/// their nulls, so that such rows without a null give an empty array.
pub open spec fn built(size: int, rows: Seq<Option<Seq<u8>>>) -> Seq<(bool, Seq<u8>)> {
    if size == 0 && !(exists|i: int| 0 <= i < rows.len() && #[trigger] rows[i] is None) {
        Seq::empty()
    } else {
        Seq::new(rows.len(), |i: int| slot_for(size, rows[i]))
    }
}

/// What is stored of each row of `array`.
pub open spec fn stored_rows(nullable: bool, array: FixedSizeBinaryArray) -> Seq<Option<Seq<u8>>> {
    Seq::new(
        arrays::binary_slots(array).len(),
        |i: int| stored(nullable, arrays::binary_slots(array)[i]),
    )
}

/// The values in rows `rows`, in that order.
pub open spec fn picked(values: Seq<Option<Seq<u8>>>, rows: Seq<usize>) -> Seq<Option<Seq<u8>>> {
    Seq::new(rows.len(), |i: int| values[rows[i] as int])
}

/// Every one of `rows` is a row of a column of `count`.
pub open spec fn rows_exist(rows: Seq<usize>, count: int) -> bool {
    forall|i: int| 0 <= i < rows.len() ==> (#[trigger] rows[i]) < count
}

/// `results` after each pair of rows that differs was cleared; where a list of rows
/// is shorter, the rest stays.
pub open spec fn compared(
    lhs: Seq<Option<Seq<u8>>>,
    lhs_rows: Seq<usize>,
    rhs: Seq<Option<Seq<u8>>>,
    rhs_rows: Seq<usize>,
    results: Seq<bool>,
) -> Seq<bool> {
    Seq::new(
        results.len(),
        |i: int|
            if i < lhs_rows.len() && i < rhs_rows.len() {
                results[i] && lhs[lhs_rows[i] as int] == rhs[rhs_rows[i] as int]
            } else {
                results[i]
            },
    )
}

/// `marks` after each row that differs from the row before was marked.
pub open spec fn marked(rows: Seq<Option<Seq<u8>>>, marks: Seq<bool>) -> Seq<bool> {
    Seq::new(
        marks.len(),
        |i: int| marks[i] || (1 <= i < rows.len() && rows[i - 1] != rows[i]),
    )
}

/// The bytes of row `row` in a buffer of rows of `size` bytes.
pub open spec fn bytes_at(values: Seq<u8>, size: int, row: int) -> Seq<u8> {
    values.subrange(row * size, row * size + size)
}

/// The hash of a row after `hash` was computed of its bytes: nulls keep the hash
/// so far, and a later column is combined with it.
pub open spec fn row_hash(is_null: bool, hash: u64, rehash: bool, current_hash: u64) -> int {
    if is_null {
        current_hash as int
    } else if rehash {
        hashing::combined(hash, current_hash)
    } else {
        hash as int
    }
}

/// The hash of a row after `hash` was computed of its bytes.
pub fn next_hash(is_null: bool, hash: u64, rehash: bool, current_hash: u64) -> (result: u64)
    ensures
        result == row_hash(is_null, hash, rehash, current_hash),
{
    if is_null {
        current_hash
    } else if rehash {
        combine_hashes(hash, current_hash)
    } else {
        hash
    }
}

/// Whether two nullable values are equal, as far as their nulls decide it.
pub fn nulls_equal_to(lhs_null: bool, rhs_null: bool) -> (result: Option<bool>)
    ensures
        result == (if lhs_null || rhs_null {
            Some(lhs_null && rhs_null)
        } else {
            None
        }),
{
    if lhs_null {
        Some(rhs_null)
    } else if rhs_null {
        Some(false)
    } else {
        None
    }
}

/// Whether `size` bytes of each buffer, from the given positions on, are equal.
fn ranges_equal(left: &[u8], left_start: usize, right: &[u8], right_start: usize, size: usize) -> (result:
    bool)
    requires
        left_start + size <= left@.len(),
        right_start + size <= right@.len(),
    ensures
        result == (left@.subrange(left_start as int, left_start + size) == right@.subrange(
            right_start as int,
            right_start + size,
        )),
{
    let ghost l = left@.subrange(left_start as int, left_start + size);
    let ghost r = right@.subrange(right_start as int, right_start + size);
    proof {
        assert(left@.len() == left.len() && right@.len() == right.len());
    }
    let mut i: usize = 0;
    while i < size
        invariant
            i <= size,
            left_start + size <= left@.len() <= usize::MAX,
            right_start + size <= right@.len() <= usize::MAX,
            l == left@.subrange(left_start as int, left_start + size),
            r == right@.subrange(right_start as int, right_start + size),
            forall|j: int| 0 <= j < i ==> l[j] == r[j],
        decreases size - i,
    {
        if left[left_start + i] != right[right_start + i] {
            assert(l[i as int] != r[i as int]);
            return false;
        }
        assert(l[i as int] == r[i as int]);
        i = i + 1;
    }
    assert(l =~= r);
    true
}

/// Appends `size` bytes of `source`, from `start` on.
fn append_range(values: &mut Vec<u8>, source: &[u8], start: usize, size: usize)
    requires
        start + size <= source@.len(),
    ensures
        final(values)@ == old(values)@ + source@.subrange(start as int, start + size),
{
    let ghost before = values@;
    proof {
        assert(source@.len() == source.len());
    }
    let mut i: usize = 0;
    while i < size
        invariant
            i <= size,
            start + size <= source@.len() <= usize::MAX,
            values@ == before + source@.subrange(start as int, start + i),
        decreases size - i,
    {
        values.push(source[start + i]);
        i = i + 1;
        proof {
            assert(values@ =~= before + source@.subrange(start as int, start + i));
        }
    }
}

/// Appends `count` zero bytes.
fn append_zeros(values: &mut Vec<u8>, count: usize)
    ensures
        final(values)@ == old(values)@ + zeros(count as int),
{
    let ghost before = values@;
    let mut i: usize = 0;
    proof {
        assert(before + zeros(0) =~= before);
    }
    while i < count
        invariant
            i <= count,
            values@ == before + zeros(i as int),
        decreases count - i,
    {
        values.push(0);
        i = i + 1;
        proof {
            assert(values@ =~= before + zeros(i as int));
        }
    }
}

/// Group values of fixed-size binary type.
///
/// Values stand in one buffer with a fixed stride, so that rows are compared
/// without an offset lookup. `NULLABLE`: whether nulls are kept apart.
#[derive(Debug)]
pub struct FixedSizeBinaryGroupValueBuilder<const NULLABLE: bool> {
    values: Vec<u8>,
    value_size: usize,
    len: usize,
    nulls: MaybeNullBufferBuilder,
}

impl<const NULLABLE: bool> FixedSizeBinaryGroupValueBuilder<NULLABLE> {
    /// The bytes in each value.
    pub closed spec fn value_size(self) -> usize {
        self.value_size
    }

    /// The stored rows.
    pub closed spec fn rows(self) -> Seq<Option<Seq<u8>>> {
        Seq::new(
            self.len as nat,
            |i: int|
                if NULLABLE && self.nulls@[i] {
                    None
                } else {
                    Some(bytes_at(self.values@, self.value_size as int, i))
                },
        )
    }

    /// The buffer holds each row, nulls have zero bytes, and only a nullable
    /// column tracks them.
    pub closed spec fn wf(self) -> bool {
        &&& self.values@.len() == self.len * self.value_size
        &&& self.nulls.wf()
        &&& self.nulls@.len() == (if NULLABLE {
            self.len as nat
        } else {
            0
        })
        &&& forall|i: int|
            0 <= i < self.nulls@.len() && #[trigger] self.nulls@[i] ==> bytes_at(
                self.values@,
                self.value_size as int,
                i,
            ) == zeros(self.value_size as int)
    }

    /// No rows, for values of `value_size` bytes.
    pub fn new(value_size: usize) -> (result: Self)
        ensures
            result.wf(),
            result.value_size() == value_size,
            result.rows() == Seq::<Option<Seq<u8>>>::empty(),
    {
        let result = FixedSizeBinaryGroupValueBuilder {
            values: Vec::new(),
            value_size,
            len: 0,
            nulls: MaybeNullBufferBuilder::new(),
        };
        proof {
            assert(0 * value_size == 0) by (nonlinear_arith);
        }
        result
    }

    proof fn lemma_rows(self)
        requires
            self.wf(),
        ensures
            forall|i: int|
                0 <= i < self.len ==> (#[trigger] self.rows()[i]) == (if NULLABLE && self.nulls@[i] {
                    None
                } else {
                    Some(bytes_at(self.values@, self.value_size as int, i))
                }),
            forall|i: int|
                0 <= i < self.len ==> 0 <= #[trigger] (i * self.value_size) && i * self.value_size
                    + self.value_size <= self.values@.len(),
    {
        assert forall|i: int| 0 <= i < self.len implies 0 <= #[trigger] (i * self.value_size) && i
            * self.value_size + self.value_size <= self.values@.len() by {
            arith::lemma_row_fits(i, self.len as int, self.value_size as int);
        }
    }

    /// The stored bytes of row `row`.
    fn value(&self, row: usize) -> (result: &[u8])
        requires
            self.wf(),
            row < self.rows().len(),
        ensures
            result@ == bytes_at(self.values@, self.value_size as int, row as int),
    {
        proof {
            self.lemma_rows();
            assert(self.values@.len() == self.values.len());
            arith::lemma_row_fits(row as int, self.len as int, self.value_size as int);
        }
        let start: usize = row * self.value_size;
        vstd::slice::slice_subrange(self.values.as_slice(), start, start + self.value_size)
    }

    /// Whether stored row `lhs_row` equals row `rhs_row` of `array`; a null equals
    /// a null only.
    pub fn equal_to(&self, lhs_row: usize, array: &FixedSizeBinaryArray, rhs_row: usize) -> (result:
        bool)
        requires
            self.wf(),
            lhs_row < self.rows().len(),
            rhs_row < arrays::binary_slots(*array).len(),
        ensures
            result == (self.rows()[lhs_row as int] == stored(
                NULLABLE,
                arrays::binary_slots(*array)[rhs_row as int],
            )),
    {
        proof {
            self.lemma_rows();
        }
        if NULLABLE {
            let exist_null: bool = self.nulls.is_null(lhs_row);
            let input_null: bool = binary_is_null(array, rhs_row);
            if let Some(result) = nulls_equal_to(exist_null, input_null) {
                return result;
            }
        }
        let left = self.value(lhs_row);
        let right = binary_value(array, rhs_row);
        if left.len() != right.len() {
            return false;
        }
        proof {
            assert(left@.subrange(0, left@.len() as int) =~= left@);
            assert(right@.subrange(0, right@.len() as int) =~= right@);
        }
        ranges_equal(left, 0, right, 0, left.len())
    }

    /// Stores row `row` of `array`.
    pub fn append_val(&mut self, array: &FixedSizeBinaryArray, row: usize) -> (result: Result<
        (),
        ExecError,
    >)
        requires
            old(self).wf(),
            old(self).rows().len() < usize::MAX,
            arrays::slot_size(*array) == old(self).value_size(),
            row < arrays::binary_slots(*array).len(),
        ensures
            result is Ok,
            final(self).wf(),
            final(self).value_size() == old(self).value_size(),
            final(self).rows() == old(self).rows().push(
                stored(NULLABLE, arrays::binary_slots(*array)[row as int]),
            ),
    {
        let ghost before = *self;
        if NULLABLE && binary_is_null(array, row) {
            self.nulls.append(true);
            append_zeros(&mut self.values, self.value_size);
        } else {
            if NULLABLE {
                self.nulls.append(false);
            }
            let bytes = binary_value(array, row);
            proof {
                assert(bytes@.subrange(0, bytes@.len() as int) =~= bytes@);
            }
            append_range(&mut self.values, bytes, 0, bytes.len());
        }
        self.len = self.len + 1;
        proof {
            before.lemma_appended(
                *self,
                stored(NULLABLE, arrays::binary_slots(*array)[row as int]),
            );
        }
        Ok(())
    }

    /// One more row of bytes in the buffers is one more row.
    proof fn lemma_appended(self, after: Self, row: Option<Seq<u8>>)
        requires
            self.wf(),
            after.nulls.wf(),
            after.len == self.len + 1,
            after.value_size == self.value_size,
            after.nulls@ == (if NULLABLE {
                self.nulls@.push(row is None)
            } else {
                self.nulls@
            }),
            !NULLABLE ==> row is Some,
            row is Some ==> row->0.len() == self.value_size,
            after.values@ == self.values@ + slot_for(self.value_size as int, row).1,
        ensures
            after.wf(),
            after.rows() == self.rows().push(row),
    {
        let size = self.value_size as int;
        arith::lemma_row_fits(self.len as int, self.len + 1, size);
        assert forall|i: int| 0 <= i < self.len implies #[trigger] bytes_at(after.values@, size, i)
            == bytes_at(self.values@, size, i) by {
            arith::lemma_row_fits(i, self.len as int, size);
            assert(bytes_at(after.values@, size, i) =~= bytes_at(self.values@, size, i));
        }
        assert(bytes_at(after.values@, size, self.len as int) =~= slot_for(size, row).1);
        assert forall|i: int|
            0 <= i < after.nulls@.len() && #[trigger] after.nulls@[i] implies bytes_at(
            after.values@,
            size,
            i,
        ) == zeros(size) by {
            if i < self.len {
                assert(self.nulls@[i]);
            }
        }
        assert(after.rows() =~= self.rows().push(row));
    }

    /// Compares the stored rows `lhs_rows` with the rows `rhs_rows` of `array`,
    /// pair by pair, and clears the result of each pair that differs. Stops at the
    /// end of the shortest list.
    pub fn vectorized_equal_to(
        &self,
        lhs_rows: &[usize],
        array: &FixedSizeBinaryArray,
        rhs_rows: &[usize],
        equal_to_results: &mut [bool],
    )
        requires
            self.wf(),
            arrays::slot_size(*array) == self.value_size(),
            rows_exist(lhs_rows@, self.rows().len() as int),
            rows_exist(rhs_rows@, arrays::binary_slots(*array).len() as int),
        ensures
            final(equal_to_results)@ == compared(
                self.rows(),
                lhs_rows@,
                stored_rows(NULLABLE, *array),
                rhs_rows@,
                old(equal_to_results)@,
            ),
            forall|i: int|
                0 <= i < old(equal_to_results)@.len() && i < lhs_rows@.len() && i < rhs_rows@.len()
                    ==> #[trigger] final(equal_to_results)@[i] == (old(equal_to_results)@[i]
                    && self.rows()[lhs_rows@[i] as int] == stored(
                    NULLABLE,
                    arrays::binary_slots(*array)[rhs_rows@[i] as int],
                )),
    {
        if !NULLABLE || (binary_null_count(array) == 0 && !self.nulls.might_have_nulls()) {
            self.vectorized_equal_to_non_nullable(lhs_rows, array, rhs_rows, equal_to_results);
        } else {
            self.vectorized_equal_to_nullable(lhs_rows, array, rhs_rows, equal_to_results);
        }
    }

    fn vectorized_equal_to_non_nullable(
        &self,
        lhs_rows: &[usize],
        array: &FixedSizeBinaryArray,
        rhs_rows: &[usize],
        equal_to_results: &mut [bool],
    )
        requires
            self.wf(),
            arrays::slot_size(*array) == self.value_size(),
            rows_exist(lhs_rows@, self.rows().len() as int),
            rows_exist(rhs_rows@, arrays::binary_slots(*array).len() as int),
            NULLABLE ==> !null_builder::any(self.nulls@) && arrays::set_positions(
                arrays::null_slots(*array),
            ).len() == 0,
        ensures
            final(equal_to_results)@ == compared(
                self.rows(),
                lhs_rows@,
                stored_rows(NULLABLE, *array),
                rhs_rows@,
                old(equal_to_results)@,
            ),
    {
        let rhs_values = binary_value_data(array);
        let size: usize = self.value_size;
        let ghost before = equal_to_results@;
        let ghost rows = self.rows();
        let ghost slots = arrays::binary_slots(*array);
        proof {
            self.lemma_rows();
            arrays::lemma_none_or_all_set(arrays::null_slots(*array));
            assert(rhs_values@.len() == rhs_values.len());
        }
        let mut i: usize = 0;
        while i < lhs_rows.len() && i < rhs_rows.len() && i < equal_to_results.len()
            invariant
                self.wf(),
                rows == self.rows(),
                slots == arrays::binary_slots(*array),
                size == self.value_size,
                arrays::slot_size(*array) == size,
                rows_exist(lhs_rows@, rows.len() as int),
                rows_exist(rhs_rows@, slots.len() as int),
                rhs_values@.len() >= slots.len() * size,
                rhs_values@.len() <= usize::MAX,
                forall|k: int|
                    0 <= k < slots.len() ==> (#[trigger] slots[k]).1 == bytes_at(
                        rhs_values@,
                        size as int,
                        k,
                    ),
                NULLABLE ==> !null_builder::any(self.nulls@),
                NULLABLE ==> forall|k: int|
                    0 <= k < slots.len() ==> !(#[trigger] arrays::null_slots(*array)[k]),
                i <= lhs_rows@.len(),
                i <= rhs_rows@.len(),
                i <= before.len(),
                equal_to_results@.len() == before.len(),
                forall|k: int| i <= k < before.len() ==> equal_to_results@[k] == before[k],
                forall|k: int|
                    0 <= k < i ==> (#[trigger] equal_to_results@[k]) == (before[k]
                        && rows[lhs_rows@[k] as int] == stored_rows(
                        NULLABLE,
                        *array,
                    )[rhs_rows@[k] as int]),
            decreases lhs_rows@.len() - i,
        {
            let lhs_row: usize = lhs_rows[i];
            let rhs_row: usize = rhs_rows[i];
            proof {
                self.lemma_rows();
                assert(self.values@.len() == self.values.len());
                arith::lemma_row_fits(lhs_row as int, rows.len() as int, size as int);
                arith::lemma_row_fits(rhs_row as int, slots.len() as int, size as int);
                if NULLABLE {
                    assert(!self.nulls@[lhs_row as int]);
                    assert(!arrays::null_slots(*array)[rhs_row as int]);
                }
            }
            let result: bool = ranges_equal(
                self.values.as_slice(),
                lhs_row * size,
                rhs_values,
                rhs_row * size,
                size,
            );
            proof {
                assert(slots[rhs_row as int].1 == bytes_at(rhs_values@, size as int, rhs_row as int));
                assert(result == (rows[lhs_row as int] == stored_rows(
                    NULLABLE,
                    *array,
                )[rhs_row as int]));
            }
            equal_to_results[i] = result && equal_to_results[i];
            i = i + 1;
        }
        proof {
            assert(equal_to_results@ =~= compared(
                rows,
                lhs_rows@,
                stored_rows(NULLABLE, *array),
                rhs_rows@,
                before,
            ));
        }
    }

    fn vectorized_equal_to_nullable(
        &self,
        lhs_rows: &[usize],
        array: &FixedSizeBinaryArray,
        rhs_rows: &[usize],
        equal_to_results: &mut [bool],
    )
        requires
            self.wf(),
            rows_exist(lhs_rows@, self.rows().len() as int),
            rows_exist(rhs_rows@, arrays::binary_slots(*array).len() as int),
        ensures
            final(equal_to_results)@ == compared(
                self.rows(),
                lhs_rows@,
                stored_rows(NULLABLE, *array),
                rhs_rows@,
                old(equal_to_results)@,
            ),
    {
        let ghost before = equal_to_results@;
        let mut i: usize = 0;
        while i < lhs_rows.len() && i < rhs_rows.len() && i < equal_to_results.len()
            invariant
                self.wf(),
                rows_exist(lhs_rows@, self.rows().len() as int),
                rows_exist(rhs_rows@, arrays::binary_slots(*array).len() as int),
                i <= lhs_rows@.len(),
                i <= rhs_rows@.len(),
                i <= before.len(),
                equal_to_results@.len() == before.len(),
                forall|k: int| i <= k < before.len() ==> equal_to_results@[k] == before[k],
                forall|k: int|
                    0 <= k < i ==> (#[trigger] equal_to_results@[k]) == (before[k]
                        && self.rows()[lhs_rows@[k] as int] == stored_rows(
                        NULLABLE,
                        *array,
                    )[rhs_rows@[k] as int]),
            decreases lhs_rows@.len() - i,
        {
            if equal_to_results[i] {
                equal_to_results[i] = self.equal_to(lhs_rows[i], array, rhs_rows[i]);
            }
            i = i + 1;
        }
        proof {
            assert(equal_to_results@ =~= compared(
                self.rows(),
                lhs_rows@,
                stored_rows(NULLABLE, *array),
                rhs_rows@,
                before,
            ));
        }
    }

    /// Stores the rows `rows` of `array`, in that order.
    pub fn vectorized_append(&mut self, array: &FixedSizeBinaryArray, rows: &[usize]) -> (result:
        Result<(), ExecError>)
        requires
            old(self).wf(),
            old(self).rows().len() + rows@.len() <= usize::MAX,
            arrays::slot_size(*array) == old(self).value_size(),
            rows_exist(rows@, arrays::binary_slots(*array).len() as int),
        ensures
            result is Ok,
            final(self).wf(),
            final(self).value_size() == old(self).value_size(),
            final(self).rows() == old(self).rows() + picked(stored_rows(NULLABLE, *array), rows@),
    {
        let size: usize = self.value_size;
        let null_count: usize = binary_null_count(array);
        let num_rows: usize = binary_len(array);
        let nulls: Nulls = if null_count == 0 {
            Nulls::Absent
        } else if null_count == num_rows {
            Nulls::Every
        } else {
            Nulls::Mixed
        };
        let value_data = binary_value_data(array);
        let ghost before = self.rows();
        let ghost slots = arrays::binary_slots(*array);
        let ghost inputs = stored_rows(NULLABLE, *array);
        proof {
            arrays::lemma_none_or_all_set(arrays::null_slots(*array));
            assert(value_data@.len() == value_data.len());
            assert(before + picked(inputs, rows@.take(0)) =~= before);
        }
        let mut i: usize = 0;
        while i < rows.len()
            invariant
                self.wf(),
                self.value_size == size,
                arrays::slot_size(*array) == size,
                slots == arrays::binary_slots(*array),
                inputs == stored_rows(NULLABLE, *array),
                rows_exist(rows@, slots.len() as int),
                i <= rows@.len(),
                before.len() + rows@.len() <= usize::MAX,
                value_data@.len() >= slots.len() * size,
                value_data@.len() <= usize::MAX,
                forall|k: int|
                    0 <= k < slots.len() ==> (#[trigger] slots[k]).1 == bytes_at(
                        value_data@,
                        size as int,
                        k,
                    ),
                nulls is Absent ==> forall|k: int|
                    0 <= k < slots.len() ==> !(#[trigger] arrays::null_slots(*array)[k]),
                nulls is Every ==> forall|k: int|
                    0 <= k < slots.len() ==> #[trigger] arrays::null_slots(*array)[k],
                self.rows() == before + picked(inputs, rows@.take(i as int)),
            decreases rows@.len() - i,
        {
            let ghost current = *self;
            let row: usize = rows[i];
            let ghost input = inputs[row as int];
            proof {
                arith::lemma_row_fits(row as int, slots.len() as int, size as int);
                assert(slots[row as int].1 == bytes_at(value_data@, size as int, row as int));
                assert(arrays::null_slots(*array)[row as int] == !slots[row as int].0);
                assert(picked(inputs, rows@.take(i as int)).len() == i);
                assert(current.rows().len() == before.len() + i);
            }
            match (NULLABLE, nulls) {
                (true, Nulls::Mixed) => {
                    let _ = self.append_val(array, row);
                },
                (true, Nulls::Every) => {
                    self.nulls.append(true);
                    append_zeros(&mut self.values, size);
                    self.len = self.len + 1;
                    proof {
                        current.lemma_appended(*self, input);
                    }
                },
                (true, Nulls::Absent) => {
                    self.nulls.append(false);
                    append_range(&mut self.values, value_data, row * size, size);
                    self.len = self.len + 1;
                    proof {
                        current.lemma_appended(*self, input);
                    }
                },
                (false, _) => {
                    append_range(&mut self.values, value_data, row * size, size);
                    self.len = self.len + 1;
                    proof {
                        current.lemma_appended(*self, input);
                    }
                },
            }
            i = i + 1;
            proof {
                assert(picked(inputs, rows@.take(i as int)) =~= picked(
                    inputs,
                    rows@.take(i - 1),
                ).push(input));
                assert(self.rows() =~= before + picked(inputs, rows@.take(i as int)));
            }
        }
        proof {
            assert(rows@.take(i as int) =~= rows@);
        }
        Ok(())
    }

    /// The slots of the first `n` rows, as an array made of their buffers has them.
    proof fn lemma_built(self, n: int)
        requires
            self.wf(),
            0 <= n <= self.len,
        ensures
            ({
                let size = self.value_size as int;
                let nulls = self.nulls@.take(if NULLABLE {
                    n
                } else {
                    0
                });
                let valid = null_builder::validity(nulls);
                &&& 0 <= n * size <= self.values@.len()
                &&& valid is Some ==> valid->0.len() == n
                &&& arrays::slots_of(size, self.values@.take(n * size), valid) == built(
                    size,
                    self.rows().take(n),
                )
            }),
    {
        let size = self.value_size as int;
        let nulls = self.nulls@.take(
            if NULLABLE {
                n
            } else {
                0
            },
        );
        let valid = null_builder::validity(nulls);
        let values = self.values@.take(n * size);
        let rows = self.rows().take(n);
        assert(0 <= n * size <= self.len * size) by (nonlinear_arith)
            requires
                0 <= n <= self.len,
                0 <= size,
        ;
        self.lemma_rows();
        if null_builder::any(nulls) {
            let i = choose|i: int| 0 <= i < nulls.len() && #[trigger] nulls[i];
            assert(rows[i] is None);
        } else if exists|i: int| 0 <= i < rows.len() && #[trigger] rows[i] is None {
            let i = choose|i: int| 0 <= i < rows.len() && #[trigger] rows[i] is None;
            assert(self.rows()[i] == rows[i]);
            assert(nulls[i]);
        }
        if size > 0 {
            vstd::arithmetic::div_mod::lemma_div_multiples_vanish(n, size);
            assert(size * n == n * size) by (nonlinear_arith);
        }
        let left = arrays::slots_of(size, values, valid);
        let right = built(size, rows);
        assert(left.len() == right.len());
        assert forall|i: int| 0 <= i < left.len() implies left[i] == right[i] by {
            arith::lemma_row_fits(i, n, size);
            assert(bytes_at(values, size, i) =~= bytes_at(self.values@, size, i));
            assert(rows[i] == self.rows()[i]);
            if NULLABLE {
                assert(nulls[i] == self.nulls@[i]);
            }
        }
        assert(left =~= right);
    }

    /// The rows as an array.
    pub fn build(self) -> (result: FixedSizeBinaryArray)
        requires
            self.wf(),
            self.value_size() <= i32::MAX,
        ensures
            arrays::slot_size(result) == self.value_size(),
            arrays::binary_slots(result) == built(self.value_size() as int, self.rows()),
    {
        proof {
            self.lemma_built(self.len as int);
            assert(self.values@.take(self.values@.len() as int) =~= self.values@);
            assert(self.nulls@.take(self.nulls@.len() as int) =~= self.nulls@);
            assert(self.rows().take(self.len as int) =~= self.rows());
            if self.value_size == 0 {
                assert(self.len * self.value_size == 0) by (nonlinear_arith)
                    requires
                        self.value_size == 0,
                ;
            }
        }
        let valid = self.nulls.build();
        binary_new(self.value_size as i32, self.values, valid)
    }

    /// Removes the first `n` rows and returns them as an array.
    pub fn take_n(&mut self, n: usize) -> (result: FixedSizeBinaryArray)
        requires
            old(self).wf(),
            n <= old(self).rows().len(),
            old(self).value_size() <= i32::MAX,
        ensures
            arrays::slot_size(result) == old(self).value_size(),
            arrays::binary_slots(result) == built(
                old(self).value_size() as int,
                old(self).rows().take(n as int),
            ),
            final(self).wf(),
            final(self).value_size() == old(self).value_size(),
            final(self).rows() == old(self).rows().skip(n as int),
    {
        let ghost before = *self;
        let size: usize = self.value_size;
        proof {
            self.lemma_built(n as int);
            assert(self.values@.len() == self.values.len());
            if size == 0 {
                assert(n * size == 0) by (nonlinear_arith)
                    requires
                        size == 0,
                ;
            }
        }
        let byte_count: usize = n * size;
        let mut first_n_values = self.values.split_off(byte_count);
        std::mem::swap(&mut first_n_values, &mut self.values);
        let first_n_nulls: Option<Vec<bool>> = if NULLABLE {
            self.nulls.take_n(n)
        } else {
            None
        };
        self.len = self.len - n;
        proof {
            let bytes = size as int;
            assert(first_n_values@ =~= before.values@.take(n * size));
            assert(self.values@ =~= before.values@.skip(n * size));
            assert((before.len - n) * bytes == before.len * bytes - n * bytes) by (nonlinear_arith);
            if !NULLABLE {
                assert(!null_builder::any(before.nulls@.take(0)));
            }
            assert forall|i: int| 0 <= i < self.len implies #[trigger] bytes_at(
                self.values@,
                bytes,
                i,
            ) == bytes_at(before.values@, bytes, i + n) by {
                assert((i + n) * bytes == i * bytes + n * bytes) by (nonlinear_arith);
                arith::lemma_row_fits(i, self.len as int, bytes);
                assert(bytes_at(self.values@, bytes, i) =~= bytes_at(before.values@, bytes, i + n));
            }
            assert forall|i: int| 0 <= i < self.nulls@.len() && #[trigger] self.nulls@[i] implies bytes_at(
                self.values@,
                bytes,
                i,
            ) == zeros(bytes) by {
                assert(before.nulls@[i + n]);
            }
            assert(self.rows() =~= before.rows().skip(n as int));
        }
        binary_new(size as i32, first_n_values, first_n_nulls)
    }

    /// Whether two rows of `array` are equal; a null equals a null only.
    pub fn input_rows_equal(&self, array: &FixedSizeBinaryArray, row_a: usize, row_b: usize) -> (result:
        bool)
        requires
            row_a < arrays::binary_slots(*array).len(),
            row_b < arrays::binary_slots(*array).len(),
        ensures
            result == (stored_rows(NULLABLE, *array)[row_a as int] == stored_rows(
                NULLABLE,
                *array,
            )[row_b as int]),
    {
        if NULLABLE {
            let a_null: bool = binary_is_null(array, row_a);
            let b_null: bool = binary_is_null(array, row_b);
            if a_null || b_null {
                return a_null && b_null;
            }
        }
        let a = binary_value(array, row_a);
        let b = binary_value(array, row_b);
        proof {
            assert(a@.subrange(0, a@.len() as int) =~= a@);
            assert(b@.subrange(0, b@.len() as int) =~= b@);
        }
        ranges_equal(a, 0, b, 0, a.len())
    }

    /// The hash of row `row` of `array`, combined with the hash of earlier columns
    /// where `rehash` is set. A null keeps that hash.
    pub fn hash_input_row(
        &self,
        array: &FixedSizeBinaryArray,
        row: usize,
        random_state: &RandomState,
        rehash: bool,
        current_hash: u64,
    ) -> (result: u64)
        requires
            row < arrays::binary_slots(*array).len(),
        ensures
            match stored_rows(NULLABLE, *array)[row as int] {
                None => result == current_hash,
                Some(_) => exists|bytes: &[u8], hash: u64|
                    bytes@ == arrays::binary_slots(*array)[row as int].1
                        && #[trigger] hashing::hashes_to(*random_state, bytes, hash) && result
                        == row_hash(false, hash, rehash, current_hash),
            },
    {
        if NULLABLE && binary_is_null(array, row) {
            return current_hash;
        }
        let hash: u64 = hash_value(random_state, binary_value(array, row));
        next_hash(false, hash, rehash, current_hash)
    }

    /// Marks the rows of `array` that differ from the row before; marks that are
    /// set stay set.
    pub fn compute_boundaries(&self, array: &FixedSizeBinaryArray, boundaries: &mut [bool])
        requires
            self.wf(),
            arrays::slot_size(*array) == self.value_size(),
            old(boundaries)@.len() >= arrays::binary_slots(*array).len(),
        ensures
            final(boundaries)@ == marked(stored_rows(NULLABLE, *array), old(boundaries)@),
    {
        let value_data = binary_value_data(array);
        let size: usize = self.value_size;
        let rows: usize = binary_len(array);
        let with_nulls: bool = NULLABLE && binary_null_count(array) > 0;
        let ghost before = boundaries@;
        let ghost slots = arrays::binary_slots(*array);
        let ghost inputs = stored_rows(NULLABLE, *array);
        proof {
            arrays::lemma_none_or_all_set(arrays::null_slots(*array));
            assert(value_data@.len() == value_data.len());
        }
        let mut row: usize = 1;
        while row < rows
            invariant
                1 <= row,
                row <= rows || row == 1,
                rows == slots.len(),
                slots == arrays::binary_slots(*array),
                inputs == stored_rows(NULLABLE, *array),
                arrays::slot_size(*array) == size,
                value_data@.len() >= slots.len() * size,
                value_data@.len() <= usize::MAX,
                forall|k: int|
                    0 <= k < slots.len() ==> (#[trigger] slots[k]).1 == bytes_at(
                        value_data@,
                        size as int,
                        k,
                    ),
                NULLABLE && !with_nulls ==> forall|k: int|
                    0 <= k < slots.len() ==> !(#[trigger] arrays::null_slots(*array)[k]),
                with_nulls ==> NULLABLE,
                before.len() >= rows,
                boundaries@.len() == before.len(),
                forall|k: int|
                    0 <= k < before.len() && (k == 0 || row <= k) ==> boundaries@[k] == before[k],
                forall|k: int|
                    1 <= k < row && k < rows ==> (#[trigger] boundaries@[k]) == (before[k]
                        || inputs[k - 1] != inputs[k]),
            decreases rows - row,
        {
            if !boundaries[row] {
                proof {
                    arith::lemma_row_fits(row - 1, rows as int, size as int);
                    arith::lemma_row_fits(row as int, rows as int, size as int);
                    assert(slots[row - 1].1 == bytes_at(value_data@, size as int, row - 1));
                    assert(slots[row as int].1 == bytes_at(value_data@, size as int, row as int));
                    assert(arrays::null_slots(*array)[row as int] == !slots[row as int].0);
                    assert(arrays::null_slots(*array)[row - 1] == !slots[row - 1].0);
                }
                let prev_null: bool = with_nulls && binary_is_null(array, row - 1);
                let curr_null: bool = with_nulls && binary_is_null(array, row);
                if prev_null != curr_null {
                    boundaries[row] = true;
                } else if !prev_null {
                    if !ranges_equal(value_data, (row - 1) * size, value_data, row * size, size) {
                        boundaries[row] = true;
                    }
                }
            }
            row = row + 1;
        }
        proof {
            assert forall|k: int| 0 <= k < before.len() implies boundaries@[k] == marked(
                inputs,
                before,
            )[k] by {
                if 1 <= k < rows {
                    assert(boundaries@[k] == (before[k] || inputs[k - 1] != inputs[k]));
                } else {
                    assert(boundaries@[k] == before[k]);
                }
            }
            assert(boundaries@ =~= marked(inputs, before));
        }
    }

    /// The number of rows.
    pub fn len(&self) -> (result: usize)
        ensures
            result == self.rows().len(),
    {
        self.len
    }

    /// The bytes that the buffers were found to have allocated, at most `usize::MAX`.
    pub closed spec fn retains(self, bytes: usize) -> bool {
        exists|values: usize, nulls: usize| #[trigger]
            call_ensures(capacity::<u8>, (&self.values,), values) && #[trigger] self.nulls.retains(
                nulls,
            ) && bytes == arith::capped(values + nulls)
    }

    /// The bytes that the buffers have allocated, at least those in use.
    pub fn size(&self) -> (result: usize)
        requires
            self.wf(),
        ensures
            self.retains(result),
            result >= self.rows().len() * self.value_size(),
    {
        let values: usize = capacity(&self.values);
        let nulls: usize = self.nulls.allocated_size();
        proof {
            assert(call_ensures(capacity::<u8>, (&self.values,), values));
        }
        values.saturating_add(nulls)
    }
}

/// Rows compare equal to the input rows that they were appended from.
pub proof fn law_appended_rows_compare_equal(
    nullable: bool,
    before: Seq<Option<Seq<u8>>>,
    array: FixedSizeBinaryArray,
    rows: Seq<usize>,
    results: Seq<bool>,
)
    requires
        before.len() + rows.len() <= usize::MAX,
    ensures
        compared(
            before + picked(stored_rows(nullable, array), rows),
            Seq::new(rows.len(), |i: int| (before.len() + i) as usize),
            stored_rows(nullable, array),
            rows,
            results,
        ) == results,
{
    let all = before + picked(stored_rows(nullable, array), rows);
    let own = Seq::new(rows.len(), |i: int| (before.len() + i) as usize);
    assert forall|i: int| 0 <= i < rows.len() implies all[#[trigger] own[i] as int] == stored_rows(
        nullable,
        array,
    )[rows[i] as int] by {}
    assert(compared(all, own, stored_rows(nullable, array), rows, results) =~= results);
}

/// The rows after each of the rows `rows` of `array` was appended by itself, one after the
/// other.
pub open spec fn appended_one_by_one(
    nullable: bool,
    before: Seq<Option<Seq<u8>>>,
    array: FixedSizeBinaryArray,
    rows: Seq<usize>,
) -> Seq<Option<Seq<u8>>>
    decreases rows.len(),
{
    if rows.len() == 0 {
        before
    } else {
        appended_one_by_one(nullable, before, array, rows.drop_last()).push(
            stored(nullable, arrays::binary_slots(array)[rows.last() as int]),
        )
    }
}

/// Appending rows together gives the rows that appending them one by one gives.
pub proof fn law_rows_are_appended_as_one_by_one(
    nullable: bool,
    before: Seq<Option<Seq<u8>>>,
    array: FixedSizeBinaryArray,
    rows: Seq<usize>,
)
    requires
        rows_exist(rows, arrays::binary_slots(array).len() as int),
    ensures
        before + picked(stored_rows(nullable, array), rows) == appended_one_by_one(
            nullable,
            before,
            array,
            rows,
        ),
    decreases rows.len(),
{
    let inputs = stored_rows(nullable, array);
    if rows.len() == 0 {
        assert(before + picked(inputs, rows) =~= before);
    } else {
        let fewer = rows.drop_last();
        assert forall|i: int| 0 <= i < fewer.len() implies (#[trigger] fewer[i])
            < arrays::binary_slots(array).len() by {
            assert(rows[i] == fewer[i]);
        }
        law_rows_are_appended_as_one_by_one(nullable, before, array, fewer);
        assert(rows[rows.len() - 1] < arrays::binary_slots(array).len());
        assert(before + picked(inputs, rows) =~= (before + picked(inputs, fewer)).push(
            inputs[rows.last() as int],
        ));
    }
}

/// Taking rows in two parts gives the array of all rows in two parts.
pub proof fn law_parts_make_the_whole(size: int, rows: Seq<Option<Seq<u8>>>, n: int)
    requires
        size > 0,
        0 <= n <= rows.len(),
    ensures
        built(size, rows) == built(size, rows.take(n)) + built(size, rows.skip(n)),
{
    assert(built(size, rows) =~= built(size, rows.take(n)) + built(size, rows.skip(n)));
}

/// An array built of the rows of a nullable column holds these rows.
pub proof fn law_built_rows_are_the_rows(
    size: int,
    rows: Seq<Option<Seq<u8>>>,
    array: FixedSizeBinaryArray,
)
    requires
        size > 0,
        arrays::binary_slots(array) == built(size, rows),
    ensures
        stored_rows(true, array) == rows,
{
    assert(stored_rows(true, array) =~= rows);
}

/// What is stored of a row of an array: nothing of a null in a nullable column, else the
/// bytes of its slot, and in a column that is not nullable the bytes of every slot.
pub proof fn law_rows_are_stored_as_they_are(nullable: bool, array: FixedSizeBinaryArray, row: int)
    requires
        0 <= row < arrays::binary_slots(array).len(),
    ensures
        stored_rows(nullable, array).len() == arrays::binary_slots(array).len(),
        stored_rows(nullable, array)[row] == stored(nullable, arrays::binary_slots(array)[row]),
        nullable && !arrays::binary_slots(array)[row].0 ==> stored_rows(nullable, array)[row]
            is None,
        !nullable || arrays::binary_slots(array)[row].0 ==> stored_rows(nullable, array)[row]
            == Some(arrays::binary_slots(array)[row].1),
{
}

/// Comparing rows in pairs is comparing each pair by itself: a result stays true exactly
/// where it was true and the stored row equals the row of the array, which is what
/// [`FixedSizeBinaryGroupValueBuilder::equal_to`] tells of the two. A null equals a null
/// only, and values are equal where all their bytes are. Results without a pair stay.
pub proof fn law_pairs_compare_as_single_rows(
    nullable: bool,
    rows: Seq<Option<Seq<u8>>>,
    lhs_rows: Seq<usize>,
    array: FixedSizeBinaryArray,
    rhs_rows: Seq<usize>,
    results: Seq<bool>,
    i: int,
)
    requires
        0 <= i < results.len(),
        forall|k: int| 0 <= k < lhs_rows.len() ==> (#[trigger] lhs_rows[k]) < rows.len(),
        forall|k: int|
            0 <= k < rhs_rows.len() ==> (#[trigger] rhs_rows[k]) < arrays::binary_slots(array).len(),
    ensures
        ({
            let after = compared(rows, lhs_rows, stored_rows(nullable, array), rhs_rows, results);
            &&& after.len() == results.len()
            &&& if i < lhs_rows.len() && i < rhs_rows.len() {
                let row = rows[lhs_rows[i] as int];
                let (valid, bytes) = arrays::binary_slots(array)[rhs_rows[i] as int];
                &&& after[i] == (results[i] && row == stored(nullable, (valid, bytes)))
                &&& nullable && !valid ==> after[i] == (results[i] && row is None)
                &&& !nullable || valid ==> after[i] == (results[i] && row is Some && row->0
                    == bytes)
            } else {
                after[i] == results[i]
            }
        }),
{
    assert(i < lhs_rows.len() ==> lhs_rows[i] < rows.len());
    assert(i < rhs_rows.len() ==> rhs_rows[i] < arrays::binary_slots(array).len());
}

/// Appended rows follow the rows that are there, in the order in which they are given, each
/// as the array has it.
pub proof fn law_appended_rows_are_those_of_the_array(
    nullable: bool,
    before: Seq<Option<Seq<u8>>>,
    array: FixedSizeBinaryArray,
    rows: Seq<usize>,
    i: int,
)
    requires
        forall|k: int|
            0 <= k < rows.len() ==> (#[trigger] rows[k]) < arrays::binary_slots(array).len(),
        0 <= i < before.len() + rows.len(),
    ensures
        ({
            let after = before + picked(stored_rows(nullable, array), rows);
            &&& after.len() == before.len() + rows.len()
            &&& if i < before.len() {
                after[i] == before[i]
            } else {
                let (valid, bytes) = arrays::binary_slots(array)[rows[i - before.len()] as int];
                if nullable && !valid {
                    after[i] is None
                } else {
                    after[i] == Some(bytes)
                }
            }
        }),
{
    assert(i >= before.len() ==> rows[i - before.len()] < arrays::binary_slots(array).len());
}

/// The built array has a row for each stored one: the bytes of a value, and a null with
/// zero bytes. Values without bytes are counted by their nulls.
pub proof fn law_built_rows_hold_the_bytes(size: int, rows: Seq<Option<Seq<u8>>>, i: int)
    requires
        size >= 0,
        0 <= i < rows.len(),
    ensures
        size > 0 || rows.contains(None) ==> built(size, rows).len() == rows.len() && match rows[i] {
            Some(bytes) => built(size, rows)[i].0 && built(size, rows)[i].1 == bytes,
            None => !built(size, rows)[i].0 && built(size, rows)[i].1.len() == size && forall|k: int|
                0 <= k < size ==> #[trigger] built(size, rows)[i].1[k] == 0,
        },
        size == 0 && !rows.contains(None) ==> built(size, rows).len() == 0,
{
    if rows.contains(None) {
        let k = choose|k: int| 0 <= k < rows.len() && rows[k] is None;
        assert(rows[k] is None);
    }
}

/// A row of an array is marked exactly where it was marked or differs from the row before;
/// a null differs from every value, and not from a null.
pub proof fn law_marks_stand_between_different_rows(
    nullable: bool,
    array: FixedSizeBinaryArray,
    marks: Seq<bool>,
    i: int,
)
    requires
        0 <= i < marks.len(),
    ensures
        ({
            let after = marked(stored_rows(nullable, array), marks);
            let slots = arrays::binary_slots(array);
            &&& after.len() == marks.len()
            &&& if 1 <= i < slots.len() {
                after[i] == (marks[i] || if nullable && (!slots[i - 1].0 || !slots[i].0) {
                    slots[i - 1].0 != slots[i].0
                } else {
                    slots[i - 1].1 != slots[i].1
                })
            } else {
                after[i] == marks[i]
            }
        }),
{
}

/// A null keeps the hash of the columns before, whether or not there are any; the first
/// column's hash is the value's own.
pub proof fn law_nulls_keep_the_hash(hash: u64, rehash: bool, current_hash: u64)
    ensures
        row_hash(true, hash, rehash, current_hash) == current_hash,
        row_hash(false, hash, false, current_hash) == hash,
        row_hash(false, hash, true, current_hash) == hashing::combined(hash, current_hash),
{
}

/// Comparing in pairs gives what comparing each pair by itself gives: the result of a pair
/// is true exactly where it was true and [`FixedSizeBinaryGroupValueBuilder::equal_to`]
/// tells that the two rows are equal.
pub proof fn law_each_pair_is_compared<const NULLABLE: bool>(
    builder: &FixedSizeBinaryGroupValueBuilder<NULLABLE>,
    lhs_rows: &[usize],
    array: &FixedSizeBinaryArray,
    rhs_rows: &[usize],
    results: &mut [bool],
    i: int,
    equal: bool,
)
    requires
        builder.wf(),
        arrays::slot_size(*array) == builder.value_size(),
        rows_exist(lhs_rows@, builder.rows().len() as int),
        rows_exist(rhs_rows@, arrays::binary_slots(*array).len() as int),
        call_ensures(
            FixedSizeBinaryGroupValueBuilder::<NULLABLE>::vectorized_equal_to,
            (builder, lhs_rows, array, rhs_rows, results),
            (),
        ),
        0 <= i < old(results)@.len(),
        i < lhs_rows@.len() && i < rhs_rows@.len() ==> call_ensures(
            FixedSizeBinaryGroupValueBuilder::<NULLABLE>::equal_to,
            (builder, lhs_rows@[i], array, rhs_rows@[i]),
            equal,
        ),
    ensures
        final(results)@.len() == old(results)@.len(),
        final(results)@[i] == (old(results)@[i] && (i < lhs_rows@.len() && i < rhs_rows@.len()
            ==> equal)),
{
    assert(i < lhs_rows@.len() ==> lhs_rows@[i] < builder.rows().len());
    assert(i < rhs_rows@.len() ==> rhs_rows@[i] < arrays::binary_slots(*array).len());
}

/// A row that was appended equals a row of an array exactly where both are null, or neither
/// is and their bytes are the same; without nulls, where their bytes are the same.
pub proof fn law_appended_row_is_compared<const NULLABLE: bool>(
    builder: &mut FixedSizeBinaryGroupValueBuilder<NULLABLE>,
    array: &FixedSizeBinaryArray,
    row: usize,
    appended: Result<(), ExecError>,
    count: usize,
    other: &FixedSizeBinaryArray,
    other_row: usize,
    equal: bool,
)
    requires
        old(builder).wf(),
        old(builder).rows().len() < usize::MAX,
        arrays::slot_size(*array) == old(builder).value_size(),
        row < arrays::binary_slots(*array).len(),
        other_row < arrays::binary_slots(*other).len(),
        call_ensures(
            FixedSizeBinaryGroupValueBuilder::<NULLABLE>::len,
            (&*old(builder),),
            count,
        ),
        call_ensures(
            FixedSizeBinaryGroupValueBuilder::<NULLABLE>::append_val,
            (builder, array, row),
            appended,
        ),
        call_ensures(
            FixedSizeBinaryGroupValueBuilder::<NULLABLE>::equal_to,
            (&*final(builder), count, other, other_row),
            equal,
        ),
    ensures
        appended is Ok,
        final(builder).rows().len() == count + 1,
        ({
            let (valid, bytes) = arrays::binary_slots(*array)[row as int];
            let (other_valid, other_bytes) = arrays::binary_slots(*other)[other_row as int];
            equal == if NULLABLE && (!valid || !other_valid) {
                !valid && !other_valid
            } else {
                bytes == other_bytes
            }
        }),
{
}

/// Rows that are appended to a fresh builder come back in the array that it builds: in the
/// given order, values with their bytes and nulls as nulls.
pub proof fn law_appended_rows_are_built<const NULLABLE: bool>(
    value_size: usize,
    fresh: FixedSizeBinaryGroupValueBuilder<NULLABLE>,
    builder: &mut FixedSizeBinaryGroupValueBuilder<NULLABLE>,
    array: &FixedSizeBinaryArray,
    rows: &[usize],
    appended: Result<(), ExecError>,
    result: FixedSizeBinaryArray,
)
    requires
        1 <= value_size <= i32::MAX,
        arrays::slot_size(*array) == value_size,
        rows_exist(rows@, arrays::binary_slots(*array).len() as int),
        call_ensures(
            FixedSizeBinaryGroupValueBuilder::<NULLABLE>::new,
            (value_size,),
            fresh,
        ),
        *old(builder) == fresh,
        call_ensures(
            FixedSizeBinaryGroupValueBuilder::<NULLABLE>::vectorized_append,
            (builder, array, rows),
            appended,
        ),
        call_ensures(
            FixedSizeBinaryGroupValueBuilder::<NULLABLE>::build,
            (*final(builder),),
            result,
        ),
    ensures
        appended is Ok,
        arrays::slot_size(result) == value_size,
        arrays::binary_slots(result).len() == rows@.len(),
        forall|k: int|
            0 <= k < rows@.len() ==> {
                let (valid, bytes) = arrays::binary_slots(*array)[rows@[k] as int];
                let slot = #[trigger] arrays::binary_slots(result)[k];
                if NULLABLE && !valid {
                    !slot.0
                } else {
                    slot.0 && slot.1 == bytes
                }
            },
{
    let before = Seq::<Option<Seq<u8>>>::empty();
    let all = before + picked(stored_rows(NULLABLE, *array), rows@);
    assert(final(builder).rows() == all);
    assert(all.len() == rows@.len());
    if rows@.len() == 0 {
        assert(built(value_size as int, all).len() == 0);
    } else {
        law_built_rows_hold_the_bytes(value_size as int, all, 0);
    }
    assert forall|k: int| 0 <= k < rows@.len() implies ({
        let (valid, bytes) = arrays::binary_slots(*array)[rows@[k] as int];
        let slot = #[trigger] arrays::binary_slots(result)[k];
        if NULLABLE && !valid {
            !slot.0
        } else {
            slot.0 && slot.1 == bytes
        }
    }) by {
        law_appended_rows_are_those_of_the_array(NULLABLE, before, *array, rows@, k);
        law_built_rows_hold_the_bytes(value_size as int, all, k);
        assert(rows@[k] < arrays::binary_slots(*array).len());
    }
}

/// The rows that were taken, followed by those that are built afterwards, are the rows that
/// would have been built before.
pub proof fn law_taken_rows_are_the_first<const NULLABLE: bool>(
    builder: &mut FixedSizeBinaryGroupValueBuilder<NULLABLE>,
    n: usize,
    count: usize,
    whole: FixedSizeBinaryArray,
    taken: FixedSizeBinaryArray,
    rest: FixedSizeBinaryArray,
)
    requires
        old(builder).wf(),
        1 <= old(builder).value_size() <= i32::MAX,
        call_ensures(
            FixedSizeBinaryGroupValueBuilder::<NULLABLE>::len,
            (&*old(builder),),
            count,
        ),
        n <= count,
        call_ensures(
            FixedSizeBinaryGroupValueBuilder::<NULLABLE>::build,
            (*old(builder),),
            whole,
        ),
        call_ensures(
            FixedSizeBinaryGroupValueBuilder::<NULLABLE>::take_n,
            (builder, n),
            taken,
        ),
        call_ensures(
            FixedSizeBinaryGroupValueBuilder::<NULLABLE>::build,
            (*final(builder),),
            rest,
        ),
    ensures
        arrays::binary_slots(taken).len() == n,
        arrays::binary_slots(taken) + arrays::binary_slots(rest) == arrays::binary_slots(whole),
        arrays::slot_size(taken) == arrays::slot_size(whole),
        arrays::slot_size(rest) == arrays::slot_size(whole),
{
    let size = old(builder).value_size() as int;
    let rows = old(builder).rows();
    law_parts_make_the_whole(size, rows, n as int);
    if n > 0 {
        law_built_rows_hold_the_bytes(size, rows.take(n as int), 0);
    }
}

/// Two rows of an array are equal where both are null, or neither is and their bytes are
/// the same; and a row is marked exactly where it was marked or is not equal to the row
/// before.
pub proof fn law_marks_tell_unequal_neighbours<const NULLABLE: bool>(
    builder: &FixedSizeBinaryGroupValueBuilder<NULLABLE>,
    array: &FixedSizeBinaryArray,
    marks: &mut [bool],
    row: usize,
    equal: bool,
)
    requires
        builder.wf(),
        arrays::slot_size(*array) == builder.value_size(),
        old(marks)@.len() >= arrays::binary_slots(*array).len(),
        1 <= row < arrays::binary_slots(*array).len(),
        call_ensures(
            FixedSizeBinaryGroupValueBuilder::<NULLABLE>::input_rows_equal,
            (builder, array, (row - 1) as usize, row),
            equal,
        ),
        call_ensures(
            FixedSizeBinaryGroupValueBuilder::<NULLABLE>::compute_boundaries,
            (builder, array, marks),
            (),
        ),
    ensures
        final(marks)@.len() == old(marks)@.len(),
        final(marks)@[0] == old(marks)@[0],
        final(marks)@[row as int] == (old(marks)@[row as int] || !equal),
        ({
            let (valid, bytes) = arrays::binary_slots(*array)[row - 1];
            let (next_valid, next_bytes) = arrays::binary_slots(*array)[row as int];
            equal == if NULLABLE && (!valid || !next_valid) {
                !valid && !next_valid
            } else {
                bytes == next_bytes
            }
        }),
{
    law_marks_stand_between_different_rows(NULLABLE, *array, old(marks)@, row as int);
    law_marks_stand_between_different_rows(NULLABLE, *array, old(marks)@, 0);
}

/// A null leaves the hash of the columns before as it is. What nulls decide of an equality
/// is that a null equals a null and nothing else.
pub proof fn law_nulls_are_decided_first<const NULLABLE: bool>(
    builder: &FixedSizeBinaryGroupValueBuilder<NULLABLE>,
    array: &FixedSizeBinaryArray,
    row: usize,
    state: &RandomState,
    rehash: bool,
    current_hash: u64,
    result: u64,
    left: bool,
    right: bool,
    decided: Option<bool>,
)
    requires
        row < arrays::binary_slots(*array).len(),
        call_ensures(
            FixedSizeBinaryGroupValueBuilder::<NULLABLE>::hash_input_row,
            (builder, array, row, state, rehash, current_hash),
            result,
        ),
        call_ensures(nulls_equal_to, (left, right), decided),
    ensures
        NULLABLE && !arrays::binary_slots(*array)[row as int].0 ==> result == current_hash,
        decided is None <==> !left && !right,
        decided is Some ==> decided->0 == (left && right),
{
    law_rows_are_stored_as_they_are(NULLABLE, *array, row as int);
}

/// The hash of a row that is not null is computed from the bytes of the row. It is taken as
/// it is for the first column, and combined with the hash so far for a later one.
pub proof fn law_values_are_hashed_by_their_bytes<const NULLABLE: bool>(
    builder: &FixedSizeBinaryGroupValueBuilder<NULLABLE>,
    array: &FixedSizeBinaryArray,
    row: usize,
    state: &RandomState,
    rehash: bool,
    current_hash: u64,
    result: u64,
)
    requires
        row < arrays::binary_slots(*array).len(),
        !NULLABLE || arrays::binary_slots(*array)[row as int].0,
        call_ensures(
            FixedSizeBinaryGroupValueBuilder::<NULLABLE>::hash_input_row,
            (builder, array, row, state, rehash, current_hash),
            result,
        ),
    ensures
        exists|bytes: &[u8], hash: u64|
            bytes@ == arrays::binary_slots(*array)[row as int].1 && #[trigger] hashing::hashes_to(
                *state,
                bytes,
                hash,
            ) && result == if rehash {
                (23273 + 37 * hash + current_hash) % 0x1_0000_0000_0000_0000
            } else {
                hash as int
            },
{
    law_rows_are_stored_as_they_are(NULLABLE, *array, row as int);
    let (bytes, hash) = choose|bytes: &[u8], hash: u64|
        bytes@ == arrays::binary_slots(*array)[row as int].1 && #[trigger] hashing::hashes_to(
            *state,
            bytes,
            hash,
        ) && result == row_hash(false, hash, rehash, current_hash);
    hashing::law_combined_hashes_depend_on_both(hash, current_hash, current_hash);
    assert(hashing::hashes_to(*state, bytes, hash));
}

/// The hash of a value in the first column is taken as it is, in a later one it is combined
/// with the hash so far, and a null takes over the hash so far.
pub proof fn law_next_hashes_take_in_the_value(
    is_null: bool,
    hash: u64,
    rehash: bool,
    current_hash: u64,
    result: u64,
)
    requires
        call_ensures(next_hash, (is_null, hash, rehash, current_hash), result),
    ensures
        result == if is_null {
            current_hash as int
        } else if rehash {
            (23273 + 37 * hash + current_hash) % 0x1_0000_0000_0000_0000
        } else {
            hash as int
        },
{
    hashing::law_combined_hashes_depend_on_both(hash, current_hash, current_hash);
}

/// The buffers occupy at least the bytes of the rows.
pub proof fn law_sizes_cover_the_rows<const NULLABLE: bool>(
    builder: &FixedSizeBinaryGroupValueBuilder<NULLABLE>,
    count: usize,
    size: usize,
)
    requires
        builder.wf(),
        call_ensures(FixedSizeBinaryGroupValueBuilder::<NULLABLE>::len, (builder,), count),
        call_ensures(FixedSizeBinaryGroupValueBuilder::<NULLABLE>::size, (builder,), size),
    ensures
        size >= count * builder.value_size(),
{
}

} // verus!
