//! `any_match`: whether any element of a list satisfies a predicate.
use crate::arith;
use crate::arrays;
use crate::arrays::{
    array_kind, array_len, array_slice, boolean_from, boolean_is_null, boolean_len, boolean_value,
    null_buffer_count, null_buffer_is_null, take, ArrayKind,
};
use crate::data_type::{DataType, Field};
use crate::error::ExecError;
use crate::shared::share;
use crate::signature::{Signature, TypeSignature, Volatility};
use arrow::array::{ArrayData, BooleanArray};
use arrow::buffer::NullBuffer;
use std::sync::Arc;
use vstd::prelude::*;

verus! {

/// Whether a predicate holds of any of the elements `start..end`; a null verdict is
/// none.
pub open spec fn any_true(verdicts: Seq<Option<bool>>, start: int, end: int) -> bool {
    exists|j: int| start <= j < end && #[trigger] verdicts[j] == Some(true)
}

/// Whether row `row` is null.
pub open spec fn null_at(nulls: Option<NullBuffer>, row: int) -> bool {
    nulls is Some && arrays::null_flags(nulls->0)[row]
}

/// Where the elements of each row of a list column stand.
#[derive(Debug)]
pub enum ListLayout {
    /// Row `i` has the elements from the offset `i` to the offset `i + 1`.
    Offsets(Vec<usize>),
    /// Every row has this many elements.
    FixedSize(i32),
}

impl ListLayout {
    /// The first element of row `row`.
    pub open spec fn start(self, row: int) -> int {
        match self {
            ListLayout::Offsets(offsets) => offsets@[row] as int,
            ListLayout::FixedSize(size) => row * size,
        }
    }

    /// The end of the elements of row `row`.
    pub open spec fn end(self, row: int) -> int {
        match self {
            ListLayout::Offsets(offsets) => offsets@[row + 1] as int,
            ListLayout::FixedSize(size) => row * size + size,
        }
    }

    /// The layout has `rows` rows and stays within `elements` elements.
    pub open spec fn fits(self, rows: int, elements: int) -> bool {
        match self {
            ListLayout::Offsets(offsets) => {
                &&& offsets@.len() == rows + 1
                &&& forall|i: int, j: int| 0 <= i <= j <= rows ==> offsets@[i] <= offsets@[j]
                &&& offsets@[rows] <= elements
            },
            ListLayout::FixedSize(size) => size >= 0 && rows * size <= elements,
        }
    }
}

/// For each row, whether the predicate holds of any of its elements; null for a null
/// row.
pub open spec fn matched(
    layout: ListLayout,
    rows: int,
    nulls: Option<NullBuffer>,
    verdicts: Seq<Option<bool>>,
) -> Seq<Option<bool>> {
    Seq::new(
        rows as nat,
        |i: int|
            if null_at(nulls, i) {
                None
            } else {
                Some(any_true(verdicts, layout.start(i), layout.end(i)))
            },
    )
}

fn is_null_row(nulls: Option<&NullBuffer>, row: usize) -> (result: bool)
    requires
        nulls is Some ==> row < arrays::null_flags(*nulls->0).len(),
    ensures
        result == (nulls is Some && arrays::null_flags(*nulls->0)[row as int]),
{
    match nulls {
        Some(nulls) => null_buffer_is_null(nulls, row),
        None => false,
    }
}

/// Whether the predicate holds of any of the elements `start..end`.
fn any_in_range(predicate: &BooleanArray, start: usize, end: usize) -> (result: bool)
    requires
        end <= arrays::truths(*predicate).len() || end <= start,
    ensures
        result == any_true(arrays::truths(*predicate), start as int, end as int),
{
    let mut j: usize = start;
    while j < end
        invariant
            start <= j,
            j <= end || j == start,
            end <= arrays::truths(*predicate).len() || end <= start,
            forall|k: int| start <= k < j ==> #[trigger] arrays::truths(*predicate)[k] != Some(true),
        decreases end - j,
    {
        if boolean_value(predicate, j) && !boolean_is_null(predicate, j) {
            assert(arrays::truths(*predicate)[j as int] == Some(true));
            return true;
        }
        j = j + 1;
    }
    false
}

/// For each row of a list with the given offsets, whether the predicate is true for
/// any of its elements.
pub fn any_match_over_offsets(
    offsets: &[usize],
    predicate: &BooleanArray,
    nulls: Option<&NullBuffer>,
) -> (result: BooleanArray)
    requires
        forall|i: int|
            0 <= i < offsets@.len() ==> (#[trigger] offsets@[i]) <= arrays::truths(*predicate).len(),
        nulls is Some ==> arrays::null_flags(*nulls->0).len() + 1 >= offsets@.len(),
    ensures
        arrays::truths(result) == Seq::new(
            if offsets@.len() == 0 {
                0
            } else {
                (offsets@.len() - 1) as nat
            },
            |i: int|
                if nulls is Some && arrays::null_flags(*nulls->0)[i] {
                    None
                } else {
                    Some(
                        any_true(
                            arrays::truths(*predicate),
                            offsets@[i] as int,
                            offsets@[i + 1] as int,
                        ),
                    )
                },
        ),
{
    let mut rows: Vec<Option<bool>> = Vec::new();
    let mut i: usize = 0;
    while offsets.len() > 0 && i < offsets.len() - 1
        invariant
            i == 0 || i < offsets@.len(),
            forall|i: int|
                0 <= i < offsets@.len() ==> (#[trigger] offsets@[i]) <= arrays::truths(
                    *predicate,
                ).len(),
            nulls is Some ==> arrays::null_flags(*nulls->0).len() + 1 >= offsets@.len(),
            rows@.len() == i,
            forall|k: int|
                0 <= k < i ==> (#[trigger] rows@[k]) == (if nulls is Some && arrays::null_flags(
                    *nulls->0,
                )[k] {
                    None
                } else {
                    Some(
                        any_true(
                            arrays::truths(*predicate),
                            offsets@[k] as int,
                            offsets@[k + 1] as int,
                        ),
                    )
                }),
        decreases offsets@.len() - i,
    {
        if is_null_row(nulls, i) {
            rows.push(None);
        } else {
            rows.push(Some(any_in_range(predicate, offsets[i], offsets[i + 1])));
        }
        i = i + 1;
    }
    boolean_from(rows)
}

/// For each of `len` rows of `size` elements, whether the predicate is true for any of
/// its elements.
pub fn any_match_over_fixed_size(
    len: usize,
    size: i32,
    predicate: &BooleanArray,
    nulls: Option<&NullBuffer>,
) -> (result: BooleanArray)
    requires
        size >= 0,
        len * size <= arrays::truths(*predicate).len(),
        nulls is Some ==> arrays::null_flags(*nulls->0).len() >= len,
    ensures
        arrays::truths(result) == Seq::new(
            len as nat,
            |i: int|
                if nulls is Some && arrays::null_flags(*nulls->0)[i] {
                    None
                } else {
                    Some(any_true(arrays::truths(*predicate), i * size, i * size + size))
                },
        ),
{
    let count: usize = boolean_len(predicate);
    let width: usize = size as usize;
    let mut rows: Vec<Option<bool>> = Vec::new();
    let mut i: usize = 0;
    while i < len
        invariant
            i <= len,
            size >= 0,
            width == size,
            count == arrays::truths(*predicate).len(),
            len * size <= count,
            nulls is Some ==> arrays::null_flags(*nulls->0).len() >= len,
            rows@.len() == i,
            forall|k: int|
                0 <= k < i ==> (#[trigger] rows@[k]) == (if nulls is Some && arrays::null_flags(
                    *nulls->0,
                )[k] {
                    None
                } else {
                    Some(any_true(arrays::truths(*predicate), k * size, k * size + size))
                }),
        decreases len - i,
    {
        if is_null_row(nulls, i) {
            rows.push(None);
        } else {
            proof {
                arith::lemma_row_fits(i as int, len as int, size as int);
            }
            let start: usize = i * width;
            rows.push(Some(any_in_range(predicate, start, start + width)));
        }
        i = i + 1;
    }
    boolean_from(rows)
}

/// The rows of a list column.
#[derive(Debug)]
pub struct ListColumn {
    /// Where the elements of each row stand.
    pub layout: ListLayout,
    /// The elements of all rows.
    pub values: ArrayData,
    /// Which rows are null.
    pub nulls: Option<NullBuffer>,
    /// The number of rows.
    pub len: usize,
}

impl ListColumn {
    /// Every row has its elements, and a null flag where there are any.
    pub open spec fn wf(self) -> bool {
        &&& self.layout.fits(self.len as int, arrays::array_rows(self.values).len() as int)
        &&& self.nulls is Some ==> arrays::null_flags(self.nulls->0).len() == self.len
    }

    /// The elements of row `row`.
    pub open spec fn elements(self, row: int) -> Seq<Option<Seq<u8>>> {
        arrays::array_rows(self.values).subrange(self.layout.start(row), self.layout.end(row))
    }

    /// There is no null row.
    pub open spec fn no_null(self) -> bool {
        forall|i: int| 0 <= i < self.len ==> !(#[trigger] null_at(self.nulls, i))
    }

    /// Every row is null, as in a column without rows.
    pub open spec fn all_null(self) -> bool {
        forall|i: int| 0 <= i < self.len ==> #[trigger] null_at(self.nulls, i)
    }
}

/// The elements of consecutive rows of a list column and where those of each row stand.
#[derive(Debug)]
pub struct ListElements {
    /// The first of the rows.
    pub first: usize,
    /// The number of rows.
    pub len: usize,
    /// Where the elements of each row stand.
    pub layout: ListLayout,
    /// The elements of all rows.
    pub values: ArrayData,
}

impl ListElements {
    /// Whether row `row` of the column is one of the rows.
    pub open spec fn holds(self, row: int) -> bool {
        self.first <= row < self.first + self.len
    }

    /// The first element of row `row` of the column.
    pub open spec fn start(self, row: int) -> int {
        self.layout.start(row - self.first)
    }

    /// The end of the elements of row `row` of the column.
    pub open spec fn end(self, row: int) -> int {
        self.layout.end(row - self.first)
    }

    /// The elements of row `row` of the column.
    pub open spec fn elements(self, row: int) -> Seq<Option<Seq<u8>>> {
        arrays::array_rows(self.values).subrange(self.start(row), self.end(row))
    }

    /// The rows are rows of `list`, and the values are their elements and no others,
    /// without what null rows hold. The type of the elements stays.
    pub open spec fn stand_for(self, list: ListColumn) -> bool {
        &&& self.len > 0
        &&& self.first + self.len <= list.len
        &&& self.layout.fits(self.len as int, arrays::array_rows(self.values).len() as int)
        &&& self.layout.start(0) == 0
        &&& self.layout.end(self.len - 1) == arrays::array_rows(self.values).len()
        &&& forall|row: int|
            self.holds(row) && !null_at(list.nulls, row) ==> #[trigger] self.elements(row)
                == list.elements(row)
        &&& forall|row: int|
            self.holds(row) && #[trigger] null_at(list.nulls, row) ==> self.start(row) == self.end(
                row,
            )
        &&& arrays::kind_of(self.values) == arrays::kind_of(list.values)
        &&& arrays::compared_type(self.values) == arrays::compared_type(list.values)
    }

    /// The row before the first and the row after the last, where there are any, are null.
    pub open spec fn between_nulls(self, list: ListColumn) -> bool {
        let end = self.first + self.len;
        &&& self.first == 0 || null_at(list.nulls, self.first - 1)
        &&& end == list.len || null_at(list.nulls, end)
    }
}

/// The parts follow each other in the column, and every row that is not null is in one of
/// them; a part without some of the rows has none that is null, and stands between null
/// rows. Where no row is null, and for elements of types that are told apart, there is one
/// part with all rows.
pub open spec fn parts_of(parts: Seq<ListElements>, list: ListColumn) -> bool {
    &&& forall|p: int| 0 <= p < parts.len() ==> (#[trigger] parts[p]).stand_for(list)
    &&& forall|p: int, q: int|
        0 <= p < q < parts.len() ==> (#[trigger] parts[p]).first + parts[p].len <= (
        #[trigger] parts[q]).first
    &&& forall|row: int|
        0 <= row < list.len && !(#[trigger] null_at(list.nulls, row)) ==> exists|p: int|
            0 <= p < parts.len() && (#[trigger] parts[p]).holds(row)
    &&& forall|p: int, row: int|
        0 <= p < parts.len() && #[trigger] parts[p].holds(row) && null_at(list.nulls, row)
            ==> parts[p].len == list.len
    &&& forall|p: int| 0 <= p < parts.len() ==> (#[trigger] parts[p]).between_nulls(list)
    &&& list.len > 0 && (list.no_null() || arrays::is_flat(list.values)) ==> parts.len() == 1
        && parts[0].first == 0 && parts[0].len == list.len
}

/// The first element of row `row`.
fn row_start(list: &ListColumn, row: usize) -> (result: usize)
    requires
        list.wf(),
        row < list.len,
    ensures
        result == list.layout.start(row as int),
        list.layout.start(row as int) <= list.layout.end(row as int) <= arrays::array_rows(
            list.values,
        ).len(),
{
    proof {
        let elements = arrays::array_rows(list.values).len() as int;
        lemma_rows_in_order(list.layout, list.len as int, elements, row as int, row as int);
    }
    let _count: usize = array_len(&list.values);
    match &list.layout {
        ListLayout::Offsets(offsets) => offsets[row],
        ListLayout::FixedSize(size) => {
            let width: usize = *size as usize;
            row * width
        },
    }
}

/// The end of the elements of row `row`.
fn row_end(list: &ListColumn, row: usize) -> (result: usize)
    requires
        list.wf(),
        row < list.len,
    ensures
        result == list.layout.end(row as int),
        list.layout.start(row as int) <= list.layout.end(row as int) <= arrays::array_rows(
            list.values,
        ).len(),
{
    proof {
        let elements = arrays::array_rows(list.values).len() as int;
        lemma_rows_in_order(list.layout, list.len as int, elements, row as int, row as int);
    }
    let _count: usize = array_len(&list.values);
    match &list.layout {
        ListLayout::Offsets(offsets) => offsets[row + 1],
        ListLayout::FixedSize(size) => {
            let width: usize = *size as usize;
            row * width + width
        },
    }
}

/// The elements of a later row stand behind those of an earlier one.
proof fn lemma_rows_in_order(layout: ListLayout, rows: int, elements: int, i: int, j: int)
    requires
        layout.fits(rows, elements),
        0 <= i <= j < rows,
    ensures
        0 <= layout.start(i) <= layout.end(i) <= layout.end(j) <= elements,
        layout.start(i) <= layout.start(j) <= layout.end(j),
        i < j ==> layout.end(i) <= layout.start(j),
        i + 1 == j ==> layout.end(i) == layout.start(j),
{
    match layout {
        ListLayout::Offsets(offsets) => {
            assert(offsets@[i] <= offsets@[i + 1] && offsets@[i + 1] <= offsets@[j + 1]);
            assert(offsets@[j] <= offsets@[j + 1] && offsets@[j + 1] <= offsets@[rows]);
        },
        ListLayout::FixedSize(size) => {
            arith::lemma_row_fits(i, rows, size as int);
            arith::lemma_row_fits(j, rows, size as int);
            assert(i * size <= j * size) by (nonlinear_arith)
                requires
                    i <= j,
                    size >= 0,
            ;
            if i < j {
                assert((i + 1) * size <= j * size) by (nonlinear_arith)
                    requires
                        i + 1 <= j,
                        size >= 0,
                ;
                assert((i + 1) * size == i * size + size) by (nonlinear_arith);
            }
        },
    }
}

/// The elements of the rows `from..to`, of which none is null.
fn rows_between(list: &ListColumn, from: usize, to: usize) -> (result: ListElements)
    requires
        list.wf(),
        from < to <= list.len,
        forall|i: int| from <= i < to ==> !(#[trigger] null_at(list.nulls, i)),
    ensures
        result.stand_for(*list),
        result.first == from,
        result.len == to - from,
{
    let ghost rows = arrays::array_rows(list.values);
    let start: usize = row_start(list, from);
    let end: usize = row_end(list, to - 1);
    proof {
        lemma_rows_in_order(list.layout, list.len as int, rows.len() as int, from as int, to - 1);
    }
    let layout = match &list.layout {
        ListLayout::Offsets(offsets) => {
            let mut moved: Vec<usize> = Vec::new();
            let mut i: usize = from;
            while i <= to
                invariant
                    from <= i <= to + 1,
                    to <= list.len,
                    list.wf(),
                    list.layout == ListLayout::Offsets(*offsets),
                    start == offsets@[from as int],
                    moved@ == Seq::new(
                        (i - from) as nat,
                        |k: int| (offsets@[from + k] - start) as usize,
                    ),
                decreases to + 1 - i,
            {
                assert(offsets@[from as int] <= offsets@[i as int]);
                assert(i < offsets.len());
                moved.push(offsets[i] - start);
                i = i + 1;
                proof {
                    assert(moved@ =~= Seq::new(
                        (i - from) as nat,
                        |k: int| (offsets@[from + k] - start) as usize,
                    ));
                }
            }
            proof {
                assert forall|j: int, k: int| 0 <= j <= k <= to - from implies moved@[j]
                    <= moved@[k] by {
                    assert(offsets@[from as int] <= offsets@[from + j]);
                    assert(offsets@[from + j] <= offsets@[from + k]);
                }
            }
            ListLayout::Offsets(moved)
        },
        ListLayout::FixedSize(size) => {
            proof {
                assert(to * *size == from * *size + (to - from) * *size) by (nonlinear_arith);
                assert((to - 1) * *size + *size == to * *size) by (nonlinear_arith);
                assert((to - from - 1) * *size + *size == (to - from) * *size)
                    by (nonlinear_arith);
            }
            ListLayout::FixedSize(*size)
        },
    };
    let values = array_slice(&list.values, start, end - start);
    let elements = ListElements { first: from, len: to - from, layout, values };
    proof {
        let sliced = arrays::array_rows(values);
        assert(layout.fits(elements.len as int, sliced.len() as int));
        assert forall|row: int| elements.holds(row) && !null_at(list.nulls, row) implies
            #[trigger] elements.elements(row) == list.elements(row) by {
            lemma_rows_in_order(list.layout, list.len as int, rows.len() as int, from as int, row);
            lemma_rows_in_order(list.layout, list.len as int, rows.len() as int, row, to - 1);
            match list.layout {
                ListLayout::Offsets(offsets) => {
                    assert(elements.start(row) == offsets@[row] - start);
                    assert(elements.end(row) == offsets@[row + 1] - start);
                },
                ListLayout::FixedSize(size) => {
                    assert((row - from) * size == row * size - from * size) by (nonlinear_arith);
                },
            }
            assert(elements.elements(row) =~= list.elements(row));
        }
    }
    elements
}

/// The numbers `from..to`.
spec fn counted(from: int, to: int) -> Seq<u64> {
    Seq::new((to - from) as nat, |k: int| (from + k) as u64)
}

/// Appends the positions `from..to`.
fn append_positions(positions: &mut Vec<u64>, from: usize, to: usize)
    requires
        from <= to,
    ensures
        final(positions)@ == old(positions)@ + counted(from as int, to as int),
{
    let ghost before = positions@;
    let mut j: usize = from;
    proof {
        assert(positions@ =~= before + counted(from as int, from as int));
    }
    while j < to
        invariant
            from <= j <= to,
            positions@ == before + counted(from as int, j as int),
        decreases to - j,
    {
        positions.push(j as u64);
        j = j + 1;
        proof {
            assert(positions@ =~= before + counted(from as int, j as int));
        }
    }
}

/// The positions of the elements of row `row`, none for a null row.
spec fn row_picks(list: ListColumn, row: int) -> Seq<u64> {
    if null_at(list.nulls, row) {
        Seq::empty()
    } else {
        counted(list.layout.start(row), list.layout.end(row))
    }
}

/// The positions that rows at `starts` have are those of the elements of the rows that are
/// not null.
spec fn picks(positions: Seq<u64>, starts: Seq<usize>, list: ListColumn, rows: int) -> bool {
    &&& starts.len() == rows + 1
    &&& starts[0] == 0
    &&& starts[rows] == positions.len()
    &&& arrays::ascending(positions)
    &&& forall|j: int, k: int| 0 <= j <= k <= rows ==> starts[j] <= starts[k]
    &&& forall|k: int|
        0 <= k < rows ==> positions.subrange(starts[k] as int, starts[k + 1] as int)
            == #[trigger] row_picks(list, k)
}

/// The positions of the elements of all rows that are not null, and where those of each row
/// start.
fn positions_of_rows(list: &ListColumn, nulls: &NullBuffer) -> (result: (Vec<u64>, Vec<usize>))
    requires
        list.wf(),
        list.nulls == Some(*nulls),
    ensures
        picks(result.0@, result.1@, *list, list.len as int),
        forall|j: int|
            0 <= j < result.0@.len() ==> #[trigger] result.0@[j] < arrays::array_rows(
                list.values,
            ).len(),
{
    let ghost rows = arrays::array_rows(list.values);
    let _count: usize = array_len(&list.values);
    let mut positions: Vec<u64> = Vec::new();
    let mut starts: Vec<usize> = Vec::new();
    starts.push(0);
    let mut i: usize = 0;
    while i < list.len
        invariant
            i <= list.len,
            list.wf(),
            list.nulls == Some(*nulls),
            rows == arrays::array_rows(list.values),
            rows.len() <= usize::MAX,
            picks(positions@, starts@, *list, i as int),
            forall|j: int|
                0 <= j < positions@.len() ==> i > 0 && #[trigger] positions@[j] < list.layout.end(
                    i - 1,
                ),
        decreases list.len - i,
    {
        let ghost positions0 = positions@;
        let ghost starts0 = starts@;
        proof {
            let elements = rows.len() as int;
            lemma_rows_in_order(list.layout, list.len as int, elements, i as int, i as int);
            if i > 0 {
                lemma_rows_in_order(list.layout, list.len as int, elements, i - 1, i as int);
            }
        }
        if !null_buffer_is_null(nulls, i) {
            let start: usize = row_start(list, i);
            let end: usize = row_end(list, i);
            append_positions(&mut positions, start, end);
            proof {
                let bound = if i > 0 {
                    list.layout.end(i - 1)
                } else {
                    0
                };
                lemma_counted_appended(positions0, bound, start as int, end as int);
            }
        }
        starts.push(positions.len());
        proof {
            assert(positions@ =~= positions0 + row_picks(*list, i as int));
            lemma_row_picked(positions0, starts0, positions@, starts@, *list, i as int);
        }
        i = i + 1;
    }
    proof {
        if list.len > 0 {
            let last = list.len - 1;
            lemma_rows_in_order(list.layout, list.len as int, rows.len() as int, last, last);
        }
    }
    (positions, starts)
}

/// Elements taken at the positions of the rows stand for the rows.
proof fn lemma_taken(list: ListColumn, positions: Seq<u64>, elements: ListElements)
    requires
        list.wf(),
        list.len > 0,
        elements.first == 0,
        elements.len == list.len,
        elements.layout is Offsets,
        picks(positions, elements.layout->Offsets_0@, list, list.len as int),
        arrays::array_rows(elements.values) == arrays::gathered(
            arrays::array_rows(list.values),
            positions,
        ),
        arrays::kind_of(elements.values) == arrays::kind_of(list.values),
        arrays::compared_type(elements.values) == arrays::compared_type(list.values),
        arrays::array_rows(list.values).len() <= usize::MAX,
    ensures
        elements.stand_for(list),
{
    let starts = elements.layout->Offsets_0@;
    assert forall|row: int| elements.holds(row) && !null_at(list.nulls, row) implies
        #[trigger] elements.elements(row) == list.elements(row) by {
        lemma_taken_row(list, positions, elements, row);
    }
    assert forall|row: int| elements.holds(row) && #[trigger] null_at(list.nulls, row) implies
        elements.start(row) == elements.end(row) by {
        assert(starts[row] <= starts[row + 1] && starts[row + 1] <= starts[list.len as int]);
        assert(positions.subrange(starts[row] as int, starts[row + 1] as int) == row_picks(
            list,
            row,
        ));
    }
}

proof fn lemma_taken_row(list: ListColumn, positions: Seq<u64>, elements: ListElements, row: int)
    requires
        list.wf(),
        0 <= row < list.len,
        !null_at(list.nulls, row),
        elements.first == 0,
        elements.layout is Offsets,
        picks(positions, elements.layout->Offsets_0@, list, list.len as int),
        arrays::array_rows(elements.values) == arrays::gathered(
            arrays::array_rows(list.values),
            positions,
        ),
        arrays::array_rows(list.values).len() <= usize::MAX,
    ensures
        elements.elements(row) == list.elements(row),
{
    let rows = arrays::array_rows(list.values);
    let taken = arrays::array_rows(elements.values);
    let starts = elements.layout->Offsets_0@;
    let from = list.layout.start(row);
    let to = list.layout.end(row);
    lemma_rows_in_order(list.layout, list.len as int, rows.len() as int, row, row);
    let part = positions.subrange(starts[row] as int, starts[row + 1] as int);
    assert(starts[row] <= starts[row + 1] && starts[row + 1] <= starts[list.len as int]);
    assert(part == row_picks(list, row));
    assert(part.len() == to - from && part.len() == starts[row + 1] - starts[row]);
    assert forall|t: int| 0 <= t < part.len() implies elements.elements(row)[t] == list.elements(
        row,
    )[t] by {
        assert(part[t] == positions[starts[row] + t]);
        assert(part[t] == (from + t) as u64);
        assert(taken[starts[row] + t] == rows[from + t]);
    }
    assert(elements.elements(row) =~= list.elements(row));
}

/// The elements of all rows that are not null, taken together.
fn taken_rows(list: &ListColumn, nulls: &NullBuffer) -> (result: Result<ListElements, ExecError>)
    requires
        list.wf(),
        list.len > 0,
        list.nulls == Some(*nulls),
        arrays::is_flat(list.values),
    ensures
        match result {
            Ok(elements) => elements.stand_for(*list) && elements.first == 0 && elements.len
                == list.len,
            Err(_) => false,
        },
{
    let _count: usize = array_len(&list.values);
    let (positions, starts) = positions_of_rows(list, nulls);
    let ghost picked = positions@;
    match take(&list.values, positions) {
        Ok(values) => {
            let layout = ListLayout::Offsets(starts);
            let elements = ListElements { first: 0, len: list.len, layout, values };
            proof {
                lemma_taken(*list, picked, elements);
            }
            Ok(elements)
        },
        Err(error) => Err(ExecError::Arrow(error)),
    }
}

/// Numbers behind the others are appended in order.
proof fn lemma_counted_appended(positions: Seq<u64>, bound: int, from: int, to: int)
    requires
        arrays::ascending(positions),
        forall|j: int| 0 <= j < positions.len() ==> #[trigger] positions[j] < bound,
        positions.len() > 0 ==> bound <= from,
        0 <= from <= to <= u64::MAX,
    ensures
        arrays::ascending(positions + counted(from, to)),
        forall|j: int|
            0 <= j < (positions + counted(from, to)).len() ==> #[trigger] (positions + counted(
                from,
                to,
            ))[j] < to,
{
    let all = positions + counted(from, to);
    assert forall|j: int| 0 <= j < all.len() implies #[trigger] all[j] < to && (j
        >= positions.len() ==> all[j] == from + (j - positions.len())) by {
        if j < positions.len() {
            assert(all[j] == positions[j]);
        } else {
            assert(all[j] == counted(from, to)[j - positions.len()]);
        }
    }
    assert forall|j: int, k: int| 0 <= j < k < all.len() implies all[j] < all[k] by {
        if k < positions.len() {
            assert(all[j] == positions[j] && all[k] == positions[k]);
        } else if j < positions.len() {
            assert(all[j] == positions[j]);
            assert(all[k] == from + (k - positions.len()));
        } else {
            assert(all[j] == from + (j - positions.len()));
            assert(all[k] == from + (k - positions.len()));
        }
    }
}

/// One more row keeps what is picked.
proof fn lemma_row_picked(
    positions0: Seq<u64>,
    starts0: Seq<usize>,
    positions: Seq<u64>,
    starts: Seq<usize>,
    list: ListColumn,
    i: int,
)
    requires
        0 <= i,
        picks(positions0, starts0, list, i),
        arrays::ascending(positions),
        positions == positions0 + row_picks(list, i),
        positions.len() <= usize::MAX,
        starts == starts0.push(positions.len() as usize),
    ensures
        picks(positions, starts, list, i + 1),
{
    assert forall|k: int| 0 <= k < i + 1 implies positions.subrange(
        starts[k] as int,
        starts[k + 1] as int,
    ) == #[trigger] row_picks(list, k) by {
        if k < i {
            assert(starts0[k] <= starts0[k + 1] && starts0[k + 1] <= starts0[i]);
            assert(starts[k] == starts0[k] && starts[k + 1] == starts0[k + 1]);
            assert(positions.subrange(starts[k] as int, starts[k + 1] as int)
                =~= positions0.subrange(starts0[k] as int, starts0[k + 1] as int));
        } else {
            assert(positions.subrange(starts[k] as int, starts[k + 1] as int) =~= row_picks(list, k));
        }
    }
    assert forall|j: int, k: int| 0 <= j <= k <= i + 1 implies starts[j] <= starts[k] by {
        if k <= i {
            assert(starts0[j] <= starts0[k]);
        } else if j <= i {
            assert(starts0[j] <= starts0[i]);
        }
    }
}

/// The stretches of rows that are not null, each by itself.
fn stretches(list: &ListColumn, nulls: &NullBuffer) -> (result: Vec<ListElements>)
    requires
        list.wf(),
        list.nulls == Some(*nulls),
    ensures
        forall|p: int| 0 <= p < result@.len() ==> (#[trigger] result@[p]).stand_for(*list),
        forall|p: int, q: int|
            0 <= p < q < result@.len() ==> (#[trigger] result@[p]).first + result@[p].len <= (
            #[trigger] result@[q]).first,
        forall|row: int|
            0 <= row < list.len && !(#[trigger] null_at(list.nulls, row)) ==> exists|p: int|
                0 <= p < result@.len() && (#[trigger] result@[p]).holds(row),
        forall|p: int, row: int|
            0 <= p < result@.len() && #[trigger] result@[p].holds(row) ==> !null_at(
                list.nulls,
                row,
            ),
        forall|p: int| 0 <= p < result@.len() ==> (#[trigger] result@[p]).between_nulls(*list),
{
    let mut parts: Vec<ListElements> = Vec::new();
    let mut i: usize = 0;
    while i < list.len
        invariant
            i <= list.len,
            list.wf(),
            list.nulls == Some(*nulls),
            forall|p: int|
                0 <= p < parts@.len() ==> (#[trigger] parts@[p]).stand_for(*list)
                    && parts@[p].first + parts@[p].len <= i,
            forall|p: int, q: int|
                0 <= p < q < parts@.len() ==> (#[trigger] parts@[p]).first + parts@[p].len <= (
                #[trigger] parts@[q]).first,
            forall|row: int|
                0 <= row < i && !(#[trigger] null_at(list.nulls, row)) ==> exists|p: int|
                    0 <= p < parts@.len() && (#[trigger] parts@[p]).holds(row),
            forall|p: int, row: int|
                0 <= p < parts@.len() && #[trigger] parts@[p].holds(row) ==> !null_at(
                    list.nulls,
                    row,
                ),
            forall|p: int| 0 <= p < parts@.len() ==> (#[trigger] parts@[p]).between_nulls(*list),
            i == 0 || null_at(list.nulls, i - 1) || i == list.len || null_at(list.nulls, i as int),
        decreases list.len - i,
    {
        if null_buffer_is_null(nulls, i) {
            i = i + 1;
        } else {
            let from: usize = i;
            i = i + 1;
            while i < list.len && !null_buffer_is_null(nulls, i)
                invariant
                    from < i <= list.len,
                    list.wf(),
                    list.nulls == Some(*nulls),
                    forall|row: int| from <= row < i ==> !(#[trigger] null_at(list.nulls, row)),
                decreases list.len - i,
            {
                i = i + 1;
            }
            let ghost parts0 = parts@;
            let part = rows_between(list, from, i);
            parts.push(part);
            proof {
                assert(parts@[parts0.len() as int] == part);
                assert forall|row: int|
                    0 <= row < i && !(#[trigger] null_at(list.nulls, row)) implies exists|p: int|
                    0 <= p < parts@.len() && (#[trigger] parts@[p]).holds(row) by {
                    if row < from {
                        let p = choose|p: int|
                            0 <= p < parts0.len() && (#[trigger] parts0[p]).holds(row);
                        assert(parts@[p].holds(row));
                    } else {
                        assert(parts@[parts0.len() as int].holds(row));
                    }
                }
            }
        }
    }
    parts
}

/// The elements of the rows that are not null. What a null row holds could make a
/// predicate fail.
///
/// Elements of a type that is told apart are taken together. Others, such as structs, are
/// not copied: each stretch of rows that are not null is a part of its own.
pub fn remove_list_null_values(list: &ListColumn) -> (result: Result<Vec<ListElements>, ExecError>)
    requires
        list.wf(),
    ensures
        match result {
            Ok(parts) => parts_of(parts@, *list),
            Err(_) => false,
        },
{
    let mut parts: Vec<ListElements> = Vec::new();
    if list.len == 0 {
        return Ok(parts);
    }
    let nulls: &NullBuffer = match &list.nulls {
        Some(nulls) => {
            proof {
                lemma_any_null(*list);
            }
            if null_buffer_count(nulls) == 0 {
                parts.push(rows_between(list, 0, list.len));
                assert(parts@[0].stand_for(*list));
                return Ok(parts);
            }
            nulls
        },
        None => {
            parts.push(rows_between(list, 0, list.len));
            assert(parts@[0].stand_for(*list));
            return Ok(parts);
        },
    };
    if array_kind(&list.values) == ArrayKind::Other {
        return Ok(stretches(list, nulls));
    }
    match taken_rows(list, nulls) {
        Ok(elements) => {
            parts.push(elements);
            assert(parts@[0].stand_for(*list));
            Ok(parts)
        },
        Err(error) => Err(error),
    }
}

proof fn lemma_any_null(list: ListColumn)
    requires
        list.wf(),
        list.nulls is Some,
    ensures
        ({
            let count = arrays::set_positions(arrays::null_flags(list.nulls->0)).len();
            &&& count == 0 <==> list.no_null()
            &&& count == list.len <==> list.all_null()
        }),
{
    let flags = arrays::null_flags(list.nulls->0);
    arrays::lemma_none_or_all_set(flags);
    if arrays::set_positions(flags).len() == 0 {
        assert forall|i: int| 0 <= i < list.len implies !(#[trigger] null_at(list.nulls, i)) by {
            assert(!flags[i]);
        }
    }
    if list.no_null() {
        assert forall|i: int| 0 <= i < flags.len() implies !(#[trigger] flags[i]) by {
            assert(!null_at(list.nulls, i));
        }
    }
    if arrays::set_positions(flags).len() == list.len {
        assert forall|i: int| 0 <= i < list.len implies #[trigger] null_at(list.nulls, i) by {
            assert(flags[i]);
        }
    }
    if list.all_null() {
        assert forall|i: int| 0 <= i < flags.len() implies #[trigger] flags[i] by {
            assert(null_at(list.nulls, i));
        }
    }
}

/// What a predicate returned for all elements.
#[derive(Debug)]
pub enum Verdicts {
    /// A verdict for each element.
    Boolean(BooleanArray),
    /// One verdict for every element.
    Scalar(Option<bool>),
    /// Values of another type.
    Other(DataType),
}

/// For each row, whether any of the verdicts on its elements is true; null for a null
/// row.
pub fn any_match_rows(
    layout: &ListLayout,
    len: usize,
    verdicts: &BooleanArray,
    nulls: Option<&NullBuffer>,
) -> (result: BooleanArray)
    requires
        layout.fits(len as int, arrays::truths(*verdicts).len() as int),
        nulls is Some ==> arrays::null_flags(*nulls->0).len() == len,
    ensures
        arrays::truths(result) == matched(
            *layout,
            len as int,
            match nulls {
                Some(nulls) => Some(*nulls),
                None => None,
            },
            arrays::truths(*verdicts),
        ),
{
    let result = match layout {
        ListLayout::Offsets(offsets) => {
            proof {
                assert forall|i: int| 0 <= i < offsets@.len() implies (#[trigger] offsets@[i])
                    <= arrays::truths(*verdicts).len() by {
                    assert(offsets@[i] <= offsets@[len as int]);
                }
            }
            any_match_over_offsets(offsets.as_slice(), verdicts, nulls)
        },
        ListLayout::FixedSize(size) => any_match_over_fixed_size(len, *size, verdicts, nulls),
    };
    proof {
        assert(arrays::truths(result) =~= matched(
            *layout,
            len as int,
            match nulls {
                Some(nulls) => Some(*nulls),
                None => None,
            },
            arrays::truths(*verdicts),
        ));
    }
    result
}

/// Whether the verdicts on the elements of row `row` have one that is true.
pub open spec fn told(parts: Seq<ListElements>, verdicts: Seq<BooleanArray>, row: int) -> bool {
    exists|p: int|
        0 <= p < parts.len() && (#[trigger] parts[p]).holds(row) && any_true(
            arrays::truths(verdicts[p]),
            parts[p].start(row),
            parts[p].end(row),
        )
}

/// For each row, whether any of the verdicts on its elements is true; null for a null
/// row.
pub open spec fn matched_in_parts(
    list: ListColumn,
    parts: Seq<ListElements>,
    verdicts: Seq<BooleanArray>,
) -> Seq<Option<bool>> {
    Seq::new(
        list.len as nat,
        |i: int|
            if null_at(list.nulls, i) {
                None
            } else {
                Some(told(parts, verdicts, i))
            },
    )
}

/// The verdicts are what the predicate returned for the elements of a part, one that it
/// returned for all of them repeated.
pub open spec fn answers<F>(lambda: F, part: ListElements, verdicts: BooleanArray) -> bool where
    F: Fn(&ArrayData) -> Result<Verdicts, ExecError>,
 {
    ||| call_ensures(lambda, (&part.values,), Ok(Verdicts::Boolean(verdicts)))
    ||| exists|verdict: Option<bool>|
        call_ensures(lambda, (&part.values,), Ok(Verdicts::Scalar(verdict))) && arrays::truths(
            verdicts,
        ) == #[trigger] repeated(verdict, arrays::array_rows(part.values).len())
}

/// As many times the same verdict.
pub open spec fn repeated(verdict: Option<bool>, count: nat) -> Seq<Option<bool>> {
    Seq::new(count, |i: int| verdict)
}

/// The verdicts are what the predicate returned for the elements of each part.
pub open spec fn answered<F>(
    lambda: F,
    parts: Seq<ListElements>,
    verdicts: Seq<BooleanArray>,
) -> bool where F: Fn(&ArrayData) -> Result<Verdicts, ExecError> {
    &&& verdicts.len() == parts.len()
    &&& forall|p: int|
        0 <= p < parts.len() ==> answers(lambda, parts[p], #[trigger] verdicts[p])
}

/// The predicate failed on the elements of a part, or returned no booleans for them.
pub open spec fn refused<F>(lambda: F, part: ListElements, error: ExecError) -> bool where
    F: Fn(&ArrayData) -> Result<Verdicts, ExecError>,
 {
    ||| call_ensures(lambda, (&part.values,), Err(error))
    ||| error is LambdaNotBoolean && call_ensures(
        lambda,
        (&part.values,),
        Ok(Verdicts::Other(error->LambdaNotBoolean_data_type)),
    )
}

/// The row after those of the first `p` parts.
spec fn end_of(parts: Seq<ListElements>, p: int) -> int {
    if p == 0 {
        0
    } else {
        parts[p - 1].first + parts[p - 1].len
    }
}

/// The rows tell what the verdicts on the first `p` parts say, and null rows are null.
spec fn rows_told(
    list: ListColumn,
    parts: Seq<ListElements>,
    verdicts: Seq<BooleanArray>,
    p: int,
    rows: Seq<Option<bool>>,
) -> bool {
    &&& forall|i: int|
        0 <= i < rows.len() && #[trigger] null_at(list.nulls, i) ==> rows[i] == None::<bool>
    &&& forall|q: int, row: int|
        0 <= q < p && #[trigger] parts[q].holds(row) && !null_at(list.nulls, row) ==> rows[row]
            == Some(
            any_true(arrays::truths(verdicts[q]), parts[q].start(row), parts[q].end(row)),
        )
}

/// A row behind the first `p` parts and before the next is null.
proof fn lemma_gap_is_null(list: ListColumn, parts: Seq<ListElements>, p: int, row: int)
    requires
        parts_of(parts, list),
        0 <= p <= parts.len(),
        end_of(parts, p) <= row < list.len,
        p < parts.len() ==> row < parts[p].first,
    ensures
        null_at(list.nulls, row),
{
    if !null_at(list.nulls, row) {
        let q = choose|q: int| 0 <= q < parts.len() && (#[trigger] parts[q]).holds(row);
        if q < p {
            if q < p - 1 {
                assert(parts[q].first + parts[q].len <= parts[p - 1].first);
            }
        } else if q > p {
            assert(parts[p].first + parts[p].len <= parts[q].first);
        }
    }
}

proof fn lemma_part_told(
    list: ListColumn,
    parts: Seq<ListElements>,
    verdicts0: Seq<BooleanArray>,
    verdicts: BooleanArray,
    p: int,
    rows0: Seq<Option<bool>>,
    told: Seq<Option<bool>>,
    rows: Seq<Option<bool>>,
)
    requires
        list.wf(),
        parts_of(parts, list),
        0 <= p < parts.len(),
        verdicts0.len() == p,
        rows0.len() == end_of(parts, p),
        rows0.len() <= parts[p].first,
        rows_told(list, parts, verdicts0, p, rows0),
        told == matched(
            parts[p].layout,
            parts[p].len as int,
            if parts[p].len == list.len {
                list.nulls
            } else {
                None
            },
            arrays::truths(verdicts),
        ),
        rows == rows0 + Seq::new((parts[p].first - rows0.len()) as nat, |i: int| None::<bool>)
            + told,
    ensures
        rows.len() == end_of(parts, p + 1),
        rows_told(list, parts, verdicts0.push(verdicts), p + 1, rows),
{
    let part = parts[p];
    let answers = verdicts0.push(verdicts);
    assert(part.stand_for(list));
    assert forall|i: int| 0 <= i < rows.len() && #[trigger] null_at(list.nulls, i) implies rows[i]
        == None::<bool> by {
        if i < rows0.len() {
            assert(rows[i] == rows0[i]);
        } else if i >= part.first {
            assert(rows[i] == told[i - part.first]);
            assert(parts[p].holds(i));
        }
    }
    assert forall|q: int, row: int|
        0 <= q < p + 1 && #[trigger] parts[q].holds(row) && !null_at(list.nulls, row) implies rows[row]
        == Some(any_true(arrays::truths(answers[q]), parts[q].start(row), parts[q].end(row))) by {
        if q < p {
            if q < p - 1 {
                assert(parts[q].first + parts[q].len <= parts[p - 1].first);
            }
            assert(rows[row] == rows0[row]);
            assert(answers[q] == verdicts0[q]);
        } else {
            assert(rows[row] == told[row - part.first]);
        }
    }
}

/// Where every row is answered for, the rows are what the parts tell.
proof fn lemma_all_told(
    list: ListColumn,
    parts: Seq<ListElements>,
    verdicts: Seq<BooleanArray>,
    rows0: Seq<Option<bool>>,
    rows: Seq<Option<bool>>,
)
    requires
        parts_of(parts, list),
        rows0.len() == end_of(parts, parts.len() as int) <= list.len,
        rows_told(list, parts, verdicts, parts.len() as int, rows0),
        rows == rows0 + Seq::new((list.len - rows0.len()) as nat, |i: int| None::<bool>),
    ensures
        rows == matched_in_parts(list, parts, verdicts),
{
    assert forall|i: int| 0 <= i < list.len implies #[trigger] rows[i] == matched_in_parts(
        list,
        parts,
        verdicts,
    )[i] by {
        if i >= rows0.len() {
            lemma_gap_is_null(list, parts, parts.len() as int, i);
        } else if null_at(list.nulls, i) {
            assert(rows[i] == rows0[i]);
        } else {
            let p = choose|p: int| 0 <= p < parts.len() && (#[trigger] parts[p]).holds(i);
            assert(rows0[i] == Some(
                any_true(arrays::truths(verdicts[p]), parts[p].start(i), parts[p].end(i)),
            ));
            if told(parts, verdicts, i) {
                let q = choose|q: int|
                    0 <= q < parts.len() && (#[trigger] parts[q]).holds(i) && any_true(
                        arrays::truths(verdicts[q]),
                        parts[q].start(i),
                        parts[q].end(i),
                    );
                lemma_one_part(list, parts, p, q, i);
            }
        }
    }
    assert(rows =~= matched_in_parts(list, parts, verdicts));
}

/// A row is in one part only.
proof fn lemma_one_part(list: ListColumn, parts: Seq<ListElements>, p: int, q: int, row: int)
    requires
        parts_of(parts, list),
        0 <= p < parts.len(),
        0 <= q < parts.len(),
        parts[p].holds(row),
        parts[q].holds(row),
    ensures
        p == q,
{
    if p < q {
        assert(parts[p].first + parts[p].len <= parts[q].first);
    } else if q < p {
        assert(parts[q].first + parts[q].len <= parts[p].first);
    }
}

/// An array with `count` times the same verdict.
fn repeat(verdict: Option<bool>, count: usize) -> (result: BooleanArray)
    ensures
        arrays::truths(result) == repeated(verdict, count as nat),
{
    let mut rows: Vec<Option<bool>> = Vec::new();
    let mut i: usize = 0;
    while i < count
        invariant
            i <= count,
            rows@ == repeated(verdict, i as nat),
        decreases count - i,
    {
        rows.push(verdict);
        i = i + 1;
        proof {
            assert(rows@ =~= repeated(verdict, i as nat));
        }
    }
    boolean_from(rows)
}

/// Appends `count` nulls.
fn append_nulls(rows: &mut Vec<Option<bool>>, count: usize)
    ensures
        final(rows)@ == old(rows)@ + Seq::new(count as nat, |i: int| None::<bool>),
{
    let ghost before = rows@;
    let mut i: usize = 0;
    proof {
        assert(rows@ =~= before + Seq::new(0, |k: int| None::<bool>));
    }
    while i < count
        invariant
            i <= count,
            rows@ == before + Seq::new(i as nat, |k: int| None::<bool>),
        decreases count - i,
    {
        rows.push(None);
        i = i + 1;
        proof {
            assert(rows@ =~= before + Seq::new(i as nat, |k: int| None::<bool>));
        }
    }
}

/// Appends the rows of an array.
fn append_rows(rows: &mut Vec<Option<bool>>, array: &BooleanArray)
    ensures
        final(rows)@ == old(rows)@ + arrays::truths(*array),
{
    let ghost before = rows@;
    let ghost more = arrays::truths(*array);
    let count: usize = boolean_len(array);
    let mut i: usize = 0;
    proof {
        assert(rows@ =~= before + more.take(0));
    }
    while i < count
        invariant
            i <= count,
            count == more.len(),
            more == arrays::truths(*array),
            rows@ == before + more.take(i as int),
        decreases count - i,
    {
        if boolean_is_null(array, i) {
            rows.push(None);
        } else {
            rows.push(Some(boolean_value(array, i)));
        }
        i = i + 1;
        proof {
            assert(rows@ =~= before + more.take(i as int));
        }
    }
    proof {
        assert(more.take(count as int) =~= more);
    }
}

/// What the predicate tells of each row, asked part by part.
fn rows_of_parts<F>(list: &ListColumn, parts: &Vec<ListElements>, lambda: F) -> (result: Result<
    BooleanArray,
    ExecError,
>) where F: Fn(&ArrayData) -> Result<Verdicts, ExecError>
    requires
        list.wf(),
        parts_of(parts@, *list),
        forall|values: &ArrayData| call_requires(lambda, (values,)),
        forall|values: &ArrayData, verdicts: BooleanArray| #[trigger]
            call_ensures(lambda, (values,), Ok(Verdicts::Boolean(verdicts))) ==> arrays::truths(
                verdicts,
            ).len() == arrays::array_rows(*values).len(),
    ensures
        match result {
            Ok(rows) => exists|verdicts: Seq<BooleanArray>| #[trigger]
                answered(lambda, parts@, verdicts) && arrays::truths(rows) == matched_in_parts(
                    *list,
                    parts@,
                    verdicts,
                ),
            Err(error) => exists|p: int|
                0 <= p < parts@.len() && #[trigger] refused(lambda, parts@[p], error),
        },
{
    let mut rows: Vec<Option<bool>> = Vec::new();
    let ghost mut given: Seq<BooleanArray> = Seq::empty();
    let mut p: usize = 0;
    while p < parts.len()
        invariant
            p <= parts@.len(),
            list.wf(),
            parts_of(parts@, *list),
            forall|values: &ArrayData| call_requires(lambda, (values,)),
            forall|values: &ArrayData, verdicts: BooleanArray| #[trigger]
                call_ensures(
                    lambda,
                    (values,),
                    Ok(Verdicts::Boolean(verdicts)),
                ) ==> arrays::truths(verdicts).len() == arrays::array_rows(*values).len(),
            answered(lambda, parts@.take(p as int), given),
            rows@.len() == end_of(parts@, p as int),
            rows_told(*list, parts@, given, p as int, rows@),
        decreases parts@.len() - p,
    {
        let part: &ListElements = &parts[p];
        assert(parts@[p as int].stand_for(*list));
        let verdicts = match lambda(&part.values) {
            Ok(Verdicts::Boolean(verdicts)) => verdicts,
            Ok(Verdicts::Scalar(verdict)) => repeat(verdict, array_len(&part.values)),
            Ok(Verdicts::Other(data_type)) => {
                let error = ExecError::LambdaNotBoolean { data_type };
                assert(refused(lambda, parts@[p as int], error));
                return Err(error);
            },
            Err(error) => {
                assert(refused(lambda, parts@[p as int], error));
                return Err(error);
            },
        };
        let nulls: Option<&NullBuffer> = if part.len == list.len {
            list.nulls.as_ref()
        } else {
            None
        };
        let told = any_match_rows(&part.layout, part.len, &verdicts, nulls);
        let ghost rows0 = rows@;
        proof {
            assert(p > 0 ==> parts@[p - 1].first + parts@[p - 1].len <= parts@[p as int].first);
        }
        let gap: usize = part.first - rows.len();
        append_nulls(&mut rows, gap);
        append_rows(&mut rows, &told);
        proof {
            let given0 = given;
            given = given.push(verdicts);
            lemma_part_told(
                *list,
                parts@,
                given0,
                verdicts,
                p as int,
                rows0,
                arrays::truths(told),
                rows@,
            );
            assert(answered(lambda, parts@.take(p + 1), given)) by {
                assert forall|q: int| 0 <= q < p + 1 implies answers(
                    lambda,
                    parts@.take(p + 1)[q],
                    #[trigger] given[q],
                ) by {
                    if q < p {
                        assert(given[q] == given0[q]);
                        assert(parts@.take(p + 1)[q] == parts@.take(p as int)[q]);
                    }
                }
            }
        }
        p = p + 1;
    }
    let ghost rows0 = rows@;
    proof {
        assert(parts@.len() > 0 ==> parts@[parts@.len() - 1].stand_for(*list));
    }
    let gap: usize = list.len - rows.len();
    append_nulls(&mut rows, gap);
    proof {
        assert(parts@.take(parts@.len() as int) =~= parts@);
        lemma_all_told(*list, parts@, given, rows0, rows@);
        assert(answered(lambda, parts@, given));
    }
    Ok(boolean_from(rows))
}

/// An argument of a function that takes lambdas.
#[derive(Debug)]
pub enum ValueOrLambda<V, L> {
    Value(V),
    Lambda(L),
}

/// The two arguments of a function that takes a value and then a lambda.
pub fn value_lambda_pair<V, L>(args: &[ValueOrLambda<V, L>]) -> (result: Result<
    (&V, &L),
    ExecError,
>)
    ensures
        args@.len() != 2 ==> result == Err::<(&V, &L), _>(
            ExecError::ArgumentCount { expected: 2, actual: args@.len() as usize },
        ),
        args@.len() == 2 ==> result == (match (args@[0], args@[1]) {
            (ValueOrLambda::Value(value), ValueOrLambda::Lambda(lambda)) => Ok((&value, &lambda)),
            _ => Err(ExecError::ExpectedValueThenLambda),
        }),
{
    if args.len() != 2 {
        return Err(ExecError::ArgumentCount { expected: 2, actual: args.len() });
    }
    match (&args[0], &args[1]) {
        (ValueOrLambda::Value(value), ValueOrLambda::Lambda(lambda)) => Ok((value, lambda)),
        _ => Err(ExecError::ExpectedValueThenLambda),
    }
}

/// The type to which a list argument is coerced: views become plain lists. Nothing
/// for a type that is no list.
pub open spec fn coerced(data_type: DataType) -> Option<DataType> {
    match data_type {
        DataType::List(field) => Some(DataType::List(field)),
        DataType::LargeList(field) => Some(DataType::LargeList(field)),
        DataType::FixedSizeList(field, size) => Some(DataType::FixedSizeList(field, size)),
        DataType::ListView(field) => Some(DataType::List(field)),
        DataType::LargeListView(field) => Some(DataType::LargeList(field)),
        _ => None,
    }
}

/// The field of the elements of a coerced list type.
pub open spec fn element_field(data_type: DataType) -> Option<Arc<Field>> {
    match data_type {
        DataType::List(field) => Some(field),
        DataType::LargeList(field) => Some(field),
        DataType::FixedSizeList(field, _) => Some(field),
        _ => None,
    }
}

/// Returns true if any element in the array satisfies the predicate lambda.
#[derive(Debug, PartialEq, Eq, Hash)]
pub struct AnyMatch {
    signature: Signature,
}

impl Default for AnyMatch {
    fn default() -> (result: AnyMatch)
        ensures
            result.sig() == (Signature {
                type_signature: TypeSignature::UserDefined,
                volatility: Volatility::Immutable,
            }),
    {
        AnyMatch::new()
    }
}

impl AnyMatch {
    /// The signature of the function.
    pub closed spec fn sig(self) -> Signature {
        self.signature
    }

    /// The function, which coerces its arguments itself and is immutable.
    pub fn new() -> (result: AnyMatch)
        ensures
            result.sig() == (Signature {
                type_signature: TypeSignature::UserDefined,
                volatility: Volatility::Immutable,
            }),
    {
        AnyMatch {
            signature: Signature {
                type_signature: TypeSignature::UserDefined,
                volatility: Volatility::Immutable,
            },
        }
    }

    /// The name of the function.
    pub fn name(&self) -> (result: &'static str)
        ensures
            result@ == "any_match"@,
    {
        "any_match"
    }

    /// The signature of the function.
    pub fn signature(&self) -> (result: &Signature)
        ensures
            *result == self.sig(),
    {
        &self.signature
    }

    /// Whether the function may leave an argument unevaluated.
    pub fn short_circuits(&self) -> (result: bool)
        ensures
            result,
    {
        true
    }

    /// The types to which the value arguments are coerced.
    pub fn coerce_value_types(&self, arg_types: &[DataType]) -> (result: Result<
        Vec<DataType>,
        ExecError,
    >)
        ensures
            match result {
                Ok(types) => arg_types@.len() == 1 && types@.len() == 1 && coerced(arg_types@[0])
                    == Some(types@[0]),
                Err(error) => (arg_types@.len() != 1 && error == ExecError::ArgumentCount {
                    expected: 1,
                    actual: arg_types@.len() as usize,
                }) || (arg_types@.len() == 1 && coerced(arg_types@[0]) is None && error
                    == ExecError::ExpectedList { data_type: arg_types@[0] }),
            },
    {
        if arg_types.len() != 1 {
            return Err(ExecError::ArgumentCount { expected: 1, actual: arg_types.len() });
        }
        let coerced = match &arg_types[0] {
            DataType::List(field) => DataType::List(share(field)),
            DataType::LargeList(field) => DataType::LargeList(share(field)),
            DataType::FixedSizeList(field, size) => DataType::FixedSizeList(share(field), *size),
            DataType::ListView(field) => DataType::List(share(field)),
            DataType::LargeListView(field) => DataType::LargeList(share(field)),
            other => {
                return Err(ExecError::ExpectedList { data_type: other.duplicate() });
            },
        };
        let mut types: Vec<DataType> = Vec::new();
        types.push(coerced);
        Ok(types)
    }

    /// The parameters of the lambda: one, of the type of the list's elements.
    pub fn lambdas_parameters(&self, value_fields: &[Field]) -> (result: Result<
        Vec<Vec<Field>>,
        ExecError,
    >)
        ensures
            match result {
                Ok(parameters) => {
                    &&& value_fields@.len() == 1
                    &&& element_field(value_fields@[0].data_type) is Some
                    &&& parameters@.len() == 1
                    &&& parameters@[0]@.len() == 1
                    &&& parameters@[0]@[0].name@ == ""@
                    &&& parameters@[0]@[0].data_type == element_field(
                        value_fields@[0].data_type,
                    )->0.data_type
                    &&& parameters@[0]@[0].nullable == element_field(
                        value_fields@[0].data_type,
                    )->0.nullable
                    &&& parameters@[0]@[0].metadata == element_field(
                        value_fields@[0].data_type,
                    )->0.metadata
                },
                Err(error) => (value_fields@.len() != 1 && error == ExecError::ArgumentCount {
                    expected: 1,
                    actual: value_fields@.len() as usize,
                }) || (value_fields@.len() == 1 && element_field(value_fields@[0].data_type) is None
                    && error == ExecError::ExpectedList { data_type: value_fields@[0].data_type }),
            },
    {
        if value_fields.len() != 1 {
            return Err(ExecError::ArgumentCount { expected: 1, actual: value_fields.len() });
        }
        let field: &Arc<Field> = match &value_fields[0].data_type {
            DataType::List(field) => field,
            DataType::LargeList(field) => field,
            DataType::FixedSizeList(field, _) => field,
            other => {
                return Err(ExecError::ExpectedList { data_type: other.duplicate() });
            },
        };
        let value = Field {
            name: "".to_owned(),
            data_type: field.data_type.duplicate(),
            nullable: field.nullable,
            metadata: share(&field.metadata),
        };
        let mut parameter: Vec<Field> = Vec::new();
        parameter.push(value);
        let mut parameters: Vec<Vec<Field>> = Vec::new();
        parameters.push(parameter);
        Ok(parameters)
    }

    /// The field of the result: a boolean, nullable where the list is.
    pub fn return_field_from_args(&self, arg_fields: &[ValueOrLambda<Field, Field>]) -> (result:
        Result<Field, ExecError>)
        ensures
            match result {
                Ok(field) => {
                    &&& arg_fields@.len() == 2
                    &&& arg_fields@[0] is Value
                    &&& arg_fields@[1] is Lambda
                    &&& field.name@ == ""@
                    &&& field.data_type == DataType::Boolean
                    &&& field.nullable == arg_fields@[0]->Value_0.nullable
                    &&& field.metadata@.len() == 0
                },
                Err(error) => (arg_fields@.len() != 2 && error == ExecError::ArgumentCount {
                    expected: 2,
                    actual: arg_fields@.len() as usize,
                }) || (arg_fields@.len() == 2 && !(arg_fields@[0] is Value && arg_fields@[1] is Lambda)
                    && error == ExecError::ExpectedValueThenLambda),
            },
    {
        match value_lambda_pair(arg_fields) {
            Ok((list, _lambda)) => Ok(
                Field {
                    name: "".to_owned(),
                    data_type: DataType::Boolean,
                    nullable: list.nullable,
                    metadata: Arc::new(Vec::new()),
                },
            ),
            Err(error) => Err(error),
        }
    }

    /// Evaluates the predicate on the elements of the rows that are not null, and tells for
    /// each row whether it holds of any element. The predicate is evaluated once where no
    /// row is null and for elements of types that are told apart, and otherwise for each
    /// stretch of rows that are not null; not at all where every row is null.
    pub fn invoke_with_args<F>(&self, list: &ListColumn, lambda: F) -> (result: Result<
        BooleanArray,
        ExecError,
    >) where F: Fn(&ArrayData) -> Result<Verdicts, ExecError>
        requires
            list.wf(),
            forall|values: &ArrayData| call_requires(lambda, (values,)),
            forall|values: &ArrayData, verdicts: BooleanArray| #[trigger]
                call_ensures(lambda, (values,), Ok(Verdicts::Boolean(verdicts))) ==> arrays::truths(
                    verdicts,
                ).len() == arrays::array_rows(*values).len(),
        ensures
            list.all_null() ==> result is Ok && arrays::truths(result->Ok_0) == Seq::new(
                list.len as nat,
                |i: int| None::<bool>,
            ),
            !list.all_null() ==> match result {
                Ok(rows) => exists|parts: Seq<ListElements>, verdicts: Seq<BooleanArray>| #[trigger]
                    answered(lambda, parts, verdicts) && parts_of(parts, *list) && arrays::truths(
                        rows,
                    ) == matched_in_parts(*list, parts, verdicts),
                Err(error) => exists|parts: Seq<ListElements>, p: int|
                    parts_of(parts, *list) && 0 <= p < parts.len() && #[trigger] refused(
                        lambda,
                        parts[p],
                        error,
                    ),
            },
    {
        let null_count: usize = match &list.nulls {
            Some(nulls) => {
                proof {
                    lemma_any_null(*list);
                }
                null_buffer_count(nulls)
            },
            None => {
                proof {
                    if list.len > 0 {
                        assert(!null_at(list.nulls, 0));
                    }
                }
                0
            },
        };
        if null_count == list.len {
            let mut rows: Vec<Option<bool>> = Vec::new();
            append_nulls(&mut rows, list.len);
            proof {
                assert(rows@ =~= Seq::new(list.len as nat, |i: int| None::<bool>));
            }
            return Ok(boolean_from(rows));
        }
        let parts = match remove_list_null_values(list) {
            Ok(parts) => parts,
            Err(error) => {
                return Err(error);
            },
        };
        rows_of_parts(list, &parts, lambda)
    }
}

/// Where the predicate tells each element by itself, the result for a row that is not
/// null is whether the predicate is true of one of the row's elements, and a null row
/// gives null.
pub proof fn law_any_match_asks_the_elements(
    list: ListColumn,
    parts: Seq<ListElements>,
    verdicts: Seq<BooleanArray>,
    predicate: spec_fn(Option<Seq<u8>>) -> Option<bool>,
    row: int,
)
    requires
        list.wf(),
        parts_of(parts, list),
        verdicts.len() == parts.len(),
        forall|p: int|
            0 <= p < parts.len() ==> arrays::truths(#[trigger] verdicts[p])
                == arrays::array_rows(parts[p].values).map_values(predicate),
        0 <= row < list.len,
    ensures
        ({
            let result = matched_in_parts(list, parts, verdicts)[row];
            &&& null_at(list.nulls, row) ==> result is None
            &&& !null_at(list.nulls, row) ==> result == Some(
                exists|k: int|
                    0 <= k < list.elements(row).len() && predicate(
                        #[trigger] list.elements(row)[k],
                    ) == Some(true),
            )
        }),
{
    if !null_at(list.nulls, row) {
        let p = choose|p: int| 0 <= p < parts.len() && (#[trigger] parts[p]).holds(row);
        let part = parts[p];
        assert(part.stand_for(list));
        let rows = arrays::array_rows(part.values);
        let truths = arrays::truths(verdicts[p]);
        let start = part.start(row);
        let end = part.end(row);
        lemma_rows_in_order(
            part.layout,
            part.len as int,
            rows.len() as int,
            row - part.first,
            row - part.first,
        );
        assert(part.elements(row) == list.elements(row));
        if told(parts, verdicts, row) {
            let q = choose|q: int|
                0 <= q < parts.len() && (#[trigger] parts[q]).holds(row) && any_true(
                    arrays::truths(verdicts[q]),
                    parts[q].start(row),
                    parts[q].end(row),
                );
            lemma_one_part(list, parts, p, q, row);
            let j = choose|j: int| start <= j < end && #[trigger] truths[j] == Some(true);
            assert(part.elements(row)[j - start] == rows[j]);
            assert(predicate(list.elements(row)[j - start]) == Some(true));
        }
        if exists|k: int|
            0 <= k < list.elements(row).len() && predicate(#[trigger] list.elements(row)[k]) == Some(
                true,
            ) {
            let k = choose|k: int|
                0 <= k < list.elements(row).len() && predicate(#[trigger] list.elements(row)[k])
                    == Some(true);
            assert(part.elements(row)[k] == rows[start + k]);
            assert(truths[start + k] == Some(true));
            assert(any_true(truths, start, end));
        }
    }
}

/// No element of a null row is handed to the predicate, and none that is in no row.
pub proof fn law_predicate_sees_the_rows(
    list: ListColumn,
    parts: Seq<ListElements>,
    p: int,
    at: int,
)
    requires
        list.wf(),
        parts_of(parts, list),
        0 <= p < parts.len(),
        0 <= at < arrays::array_rows(parts[p].values).len(),
    ensures
        exists|row: int, k: int|
            0 <= row < list.len && !null_at(list.nulls, row) && 0 <= k < list.elements(row).len()
                && arrays::array_rows(parts[p].values)[at] == #[trigger] list.elements(row)[k],
{
    let part = parts[p];
    assert(part.stand_for(list));
    let row = lemma_row_of(part, at, part.len - 1);
    lemma_rows_in_order(
        part.layout,
        part.len as int,
        arrays::array_rows(part.values).len() as int,
        row - part.first,
        row - part.first,
    );
    let k = at - part.start(row);
    assert(part.elements(row) == list.elements(row));
    assert(part.elements(row)[k] == arrays::array_rows(part.values)[at]);
    assert(arrays::array_rows(part.values)[at] == list.elements(row)[k]);
}

/// The row of an element that stands before the end of the part's row `last`.
proof fn lemma_row_of(part: ListElements, at: int, last: int) -> (row: int)
    requires
        0 <= last < part.len,
        part.layout.fits(part.len as int, arrays::array_rows(part.values).len() as int),
        part.layout.start(0) == 0,
        0 <= at < part.layout.end(last),
    ensures
        part.holds(row),
        part.start(row) <= at < part.end(row),
    decreases last,
{
    if at >= part.layout.start(last) {
        part.first + last
    } else {
        let count = arrays::array_rows(part.values).len() as int;
        lemma_rows_in_order(part.layout, part.len as int, count, last - 1, last);
        lemma_row_of(part, at, last - 1)
    }
}

/// A coerced type is a list with the elements of the argument, and is not coerced
/// further.
pub proof fn law_coercion_is_stable(data_type: DataType)
    requires
        coerced(data_type) is Some,
    ensures
        coerced(coerced(data_type)->0) == coerced(data_type),
        element_field(coerced(data_type)->0) is Some,
{
}

/// Whether the null buffer of a column, where it has one, marks the row.
pub open spec fn is_marked_null(list: ListColumn, row: int) -> bool {
    match list.nulls {
        Some(nulls) => arrays::null_flags(nulls)[row],
        None => false,
    }
}

/// Whether an element stands in the row: from the row's offset up to the next, or among as
/// many as every row has.
pub open spec fn stands_in(list: ListColumn, row: int, element: int) -> bool {
    match list.layout {
        ListLayout::Offsets(offsets) => offsets@[row] <= element < offsets@[row + 1],
        ListLayout::FixedSize(size) => row * size <= element < (row + 1) * size,
    }
}

/// The elements of a row are those that stand in it.
proof fn lemma_stands_in(list: ListColumn, row: int, element: int)
    ensures
        stands_in(list, row, element) <==> list.layout.start(row) <= element < list.layout.end(row),
        is_marked_null(list, row) == null_at(list.nulls, row),
{
    if let ListLayout::FixedSize(size) = list.layout {
        assert((row + 1) * size == row * size + size) by (nonlinear_arith);
    }
}

/// The result for a row tells whether the predicate is true of an element that stands in
/// the row, from the first to the last; verdicts that are false or null do not make it true,
/// and a row without elements is false. A row that is marked null gives null.
pub proof fn law_a_row_matches_where_an_element_does(
    list: ListColumn,
    parts: Seq<ListElements>,
    verdicts: Seq<BooleanArray>,
    predicate: spec_fn(Option<Seq<u8>>) -> Option<bool>,
    row: int,
)
    requires
        list.wf(),
        parts_of(parts, list),
        verdicts.len() == parts.len(),
        forall|p: int|
            0 <= p < parts.len() ==> arrays::truths(#[trigger] verdicts[p])
                == arrays::array_rows(parts[p].values).map_values(predicate),
        0 <= row < list.len,
    ensures
        matched_in_parts(list, parts, verdicts).len() == list.len,
        matched_in_parts(list, parts, verdicts)[row] == (if is_marked_null(list, row) {
            None
        } else {
            Some(
                exists|j: int| #[trigger]
                    stands_in(list, row, j) && predicate(arrays::array_rows(list.values)[j]) == Some(
                        true,
                    ),
            )
        }),
{
    let rows = arrays::array_rows(list.values);
    let start = list.layout.start(row);
    let end = list.layout.end(row);
    law_any_match_asks_the_elements(list, parts, verdicts, predicate, row);
    lemma_stands_in(list, row, start);
    lemma_rows_in_order(list.layout, list.len as int, rows.len() as int, row, row);
    if !null_at(list.nulls, row) {
        if exists|k: int|
            0 <= k < list.elements(row).len() && predicate(#[trigger] list.elements(row)[k]) == Some(
                true,
            ) {
            let k = choose|k: int|
                0 <= k < list.elements(row).len() && predicate(#[trigger] list.elements(row)[k])
                    == Some(true);
            lemma_stands_in(list, row, start + k);
            assert(list.elements(row)[k] == rows[start + k]);
            assert(stands_in(list, row, start + k));
        }
        if exists|j: int| #[trigger]
            stands_in(list, row, j) && predicate(rows[j]) == Some(true) {
            let j = choose|j: int| #[trigger]
                stands_in(list, row, j) && predicate(rows[j]) == Some(true);
            lemma_stands_in(list, row, j);
            assert(list.elements(row)[j - start] == rows[j]);
        }
    }
}

/// A predicate that answers all elements at once with one verdict makes every row true that
/// has an element, where the verdict is true, and no row otherwise.
pub proof fn law_one_verdict_holds_for_all_elements<F>(
    list: ListColumn,
    lambda: F,
    parts: Seq<ListElements>,
    verdicts: Seq<BooleanArray>,
    verdict: Option<bool>,
    row: int,
) where F: Fn(&ArrayData) -> Result<Verdicts, ExecError>
    requires
        list.wf(),
        parts_of(parts, list),
        answered(lambda, parts, verdicts),
        forall|values: &ArrayData, answer: Verdicts| #[trigger]
            call_ensures(lambda, (values,), Ok(answer)) ==> answer == Verdicts::Scalar(verdict),
        0 <= row < list.len,
    ensures
        matched_in_parts(list, parts, verdicts)[row] == (if is_marked_null(list, row) {
            None
        } else {
            Some(verdict == Some(true) && exists|j: int| stands_in(list, row, j))
        }),
{
    let predicate = |element: Option<Seq<u8>>| verdict;
    assert forall|p: int| 0 <= p < parts.len() implies arrays::truths(#[trigger] verdicts[p])
        == arrays::array_rows(parts[p].values).map_values(predicate) by {
        let rows = arrays::array_rows(parts[p].values);
        assert(answers(lambda, parts[p], verdicts[p]));
        assert(!call_ensures(lambda, (&parts[p].values,), Ok(Verdicts::Boolean(verdicts[p]))));
        let one = choose|one: Option<bool>|
            call_ensures(lambda, (&parts[p].values,), Ok(Verdicts::Scalar(one)))
                && arrays::truths(verdicts[p]) == #[trigger] repeated(one, rows.len());
        assert(call_ensures(lambda, (&parts[p].values,), Ok(Verdicts::Scalar(one))));
        assert(arrays::truths(verdicts[p]) =~= rows.map_values(predicate));
    }
    law_a_row_matches_where_an_element_does(list, parts, verdicts, predicate, row);
}

/// Every element that stands in a row that is not null is shown to the predicate, and what
/// is shown to it stands in such a row.
pub proof fn law_the_predicate_is_shown_every_element(
    list: ListColumn,
    parts: Seq<ListElements>,
    row: int,
    element: int,
    p: int,
    at: int,
)
    requires
        list.wf(),
        parts_of(parts, list),
    ensures
        0 <= row < list.len && !is_marked_null(list, row) && stands_in(list, row, element)
            ==> exists|q: int, k: int|
            0 <= q < parts.len() && 0 <= k < arrays::array_rows(parts[q].values).len()
                && #[trigger] arrays::array_rows(parts[q].values)[k] == arrays::array_rows(
                list.values,
            )[element],
        0 <= p < parts.len() && 0 <= at < arrays::array_rows(parts[p].values).len()
            ==> exists|r: int, j: int|
            0 <= r < list.len && !is_marked_null(list, r) && #[trigger] stands_in(list, r, j)
                && arrays::array_rows(parts[p].values)[at] == arrays::array_rows(list.values)[j],
{
    let rows = arrays::array_rows(list.values);
    if 0 <= row < list.len && !is_marked_null(list, row) && stands_in(list, row, element) {
        lemma_stands_in(list, row, element);
        lemma_rows_in_order(list.layout, list.len as int, rows.len() as int, row, row);
        let q = choose|q: int| 0 <= q < parts.len() && (#[trigger] parts[q]).holds(row);
        let part = parts[q];
        assert(part.stand_for(list));
        let values = arrays::array_rows(part.values);
        lemma_rows_in_order(
            part.layout,
            part.len as int,
            values.len() as int,
            row - part.first,
            row - part.first,
        );
        let k = part.start(row) + (element - list.layout.start(row));
        assert(part.elements(row) == list.elements(row));
        assert(part.elements(row).len() == part.end(row) - part.start(row));
        assert(list.elements(row).len() == list.layout.end(row) - list.layout.start(row));
        assert(part.elements(row)[element - list.layout.start(row)] == values[k]);
        assert(list.elements(row)[element - list.layout.start(row)] == rows[element]);
        assert(arrays::array_rows(parts[q].values)[k] == rows[element]);
    }
    if 0 <= p < parts.len() && 0 <= at < arrays::array_rows(parts[p].values).len() {
        law_predicate_sees_the_rows(list, parts, p, at);
        let (r, k) = choose|r: int, k: int|
            0 <= r < list.len && !null_at(list.nulls, r) && 0 <= k < list.elements(r).len()
                && arrays::array_rows(parts[p].values)[at] == #[trigger] list.elements(r)[k];
        lemma_rows_in_order(list.layout, list.len as int, rows.len() as int, r, r);
        let j = list.layout.start(r) + k;
        lemma_stands_in(list, r, j);
        assert(list.elements(r)[k] == rows[j]);
        assert(stands_in(list, r, j));
    }
}

/// Every row is null, or none is, exactly where the null buffer marks every row or none.
pub proof fn law_null_rows_are_the_marked_ones(list: ListColumn)
    ensures
        list.all_null() <==> forall|row: int|
            0 <= row < list.len ==> #[trigger] is_marked_null(list, row),
        list.no_null() <==> forall|row: int|
            0 <= row < list.len ==> !(#[trigger] is_marked_null(list, row)),
{
    assert forall|row: int| #[trigger] is_marked_null(list, row) == null_at(list.nulls, row) by {}
    assert forall|row: int| is_marked_null(list, row) == #[trigger] null_at(list.nulls, row) by {}
}

/// Verdicts on the elements make a row true where one that stands in the row is true.
pub proof fn law_a_row_is_true_where_a_verdict_is(
    layout: ListLayout,
    rows: int,
    nulls: Option<NullBuffer>,
    verdicts: Seq<Option<bool>>,
    row: int,
)
    requires
        0 <= row < rows,
    ensures
        matched(layout, rows, nulls, verdicts).len() == rows,
        matched(layout, rows, nulls, verdicts)[row] == (if nulls is Some && arrays::null_flags(
            nulls->0,
        )[row] {
            None
        } else {
            Some(
                exists|j: int|
                    (match layout {
                        ListLayout::Offsets(offsets) => offsets@[row] <= j < offsets@[row + 1],
                        ListLayout::FixedSize(size) => row * size <= j < row * size + size,
                    }) && #[trigger] verdicts[j] == Some(true),
            )
        }),
{
    let start = layout.start(row);
    let end = layout.end(row);
    if any_true(verdicts, start, end) {
        let j = choose|j: int| start <= j < end && #[trigger] verdicts[j] == Some(true);
        assert(verdicts[j] == Some(true));
    }
}

/// A range of verdicts has a true one where one of them is true, not false and not null.
pub proof fn law_any_true_is_a_true_verdict(
    verdicts: Seq<Option<bool>>,
    start: int,
    end: int,
)
    ensures
        any_true(verdicts, start, end) <==> exists|j: int|
            start <= j < end && (#[trigger] verdicts[j] matches Some(verdict) && verdict),
{
    if any_true(verdicts, start, end) {
        let j = choose|j: int| start <= j < end && #[trigger] verdicts[j] == Some(true);
        assert(verdicts[j] == Some(true));
    }
    if exists|j: int|
        start <= j < end && (#[trigger] verdicts[j] matches Some(verdict) && verdict) {
        let j = choose|j: int|
            start <= j < end && (#[trigger] verdicts[j] matches Some(verdict) && verdict);
        assert(verdicts[j] == Some(true));
    }
}

/// A refusal is the error that the predicate gave, or names the type that it returned in
/// place of booleans.
pub proof fn law_refusals_come_from_the_predicate<F>(
    lambda: F,
    part: ListElements,
    error: ExecError,
) where F: Fn(&ArrayData) -> Result<Verdicts, ExecError>
    requires
        refused(lambda, part, error),
    ensures
        call_ensures(lambda, (&part.values,), Err(error)) || (error
            matches ExecError::LambdaNotBoolean { data_type } && call_ensures(
            lambda,
            (&part.values,),
            Ok(Verdicts::Other(data_type)),
        )),
{
}

/// A list is coerced to a list with the same elements: views become the plain lists of their
/// size, and large lists stay large and fixed sizes stay. Nothing else is coerced.
pub proof fn law_coercion_keeps_the_elements(data_type: DataType)
    ensures
        match data_type {
            DataType::List(field) | DataType::ListView(field) => coerced(data_type) == Some(
                DataType::List(field),
            ),
            DataType::LargeList(field) | DataType::LargeListView(field) => coerced(data_type)
                == Some(DataType::LargeList(field)),
            DataType::FixedSizeList(field, size) => coerced(data_type) == Some(
                DataType::FixedSizeList(field, size),
            ),
            _ => coerced(data_type) is None,
        },
        match data_type {
            DataType::List(field)
            | DataType::LargeList(field)
            | DataType::FixedSizeList(field, _) => element_field(data_type) == Some(field),
            _ => element_field(data_type) is None,
        },
{
}

/// What the function returns for a list column and a predicate that tells each element by
/// itself: for every row whether the predicate is true of an element that stands in the row,
/// and null for a row that is marked null. A predicate that does not fail gives a result.
pub proof fn law_rows_tell_whether_an_element_matches<F>(
    function: &AnyMatch,
    list: &ListColumn,
    lambda: F,
    predicate: spec_fn(Option<Seq<u8>>) -> Option<bool>,
    result: Result<BooleanArray, ExecError>,
    row: int,
) where F: Fn(&ArrayData) -> Result<Verdicts, ExecError>
    requires
        list.wf(),
        forall|values: &ArrayData| call_requires(lambda, (values,)),
        forall|values: &ArrayData, answer: Result<Verdicts, ExecError>| #[trigger]
            call_ensures(lambda, (values,), answer) ==> (answer matches Ok(
                Verdicts::Boolean(verdicts),
            ) && arrays::truths(verdicts) == arrays::array_rows(*values).map_values(predicate)),
        call_ensures(AnyMatch::invoke_with_args::<F>, (function, list, lambda), result),
        0 <= row < list.len,
    ensures
        result is Ok,
        arrays::truths(result->Ok_0).len() == list.len,
        arrays::truths(result->Ok_0)[row] == (if is_marked_null(*list, row) {
            None
        } else {
            Some(
                exists|j: int| #[trigger]
                    stands_in(*list, row, j) && predicate(arrays::array_rows(list.values)[j])
                        == Some(true),
            )
        }),
{
    law_null_rows_are_the_marked_ones(*list);
    if !list.all_null() {
        if let Err(error) = result {
            let (parts, p) = choose|parts: Seq<ListElements>, p: int|
                parts_of(parts, *list) && 0 <= p < parts.len() && #[trigger] refused(
                    lambda,
                    parts[p],
                    error,
                );
            law_refusals_come_from_the_predicate(lambda, parts[p], error);
        } else {
            let rows = result->Ok_0;
            let (parts, verdicts) = choose|parts: Seq<ListElements>, verdicts: Seq<BooleanArray>|
             #[trigger]
                answered(lambda, parts, verdicts) && parts_of(parts, *list) && arrays::truths(rows)
                    == matched_in_parts(*list, parts, verdicts);
            assert forall|p: int| 0 <= p < parts.len() implies arrays::truths(
                #[trigger] verdicts[p],
            ) == arrays::array_rows(parts[p].values).map_values(predicate) by {
                assert(answers(lambda, parts[p], verdicts[p]));
                assert(forall|one: Option<bool>|
                    !call_ensures(lambda, (&parts[p].values,), Ok(Verdicts::Scalar(one))));
            }
            law_a_row_matches_where_an_element_does(*list, parts, verdicts, predicate, row);
        }
    } else {
        assert(is_marked_null(*list, row));
    }
}

/// The predicate gave the error for the elements, or returned values of a type that is not
/// boolean, which the error names.
pub open spec fn fails_with<F>(lambda: F, values: ArrayData, error: ExecError) -> bool where
    F: Fn(&ArrayData) -> Result<Verdicts, ExecError>,
 {
    ||| call_ensures(lambda, (&values,), Err(error))
    ||| error matches ExecError::LambdaNotBoolean { data_type } && call_ensures(
        lambda,
        (&values,),
        Ok(Verdicts::Other(data_type)),
    )
}

/// The error of a call is one of the predicate. Where every row is null the predicate is not
/// needed: the result is null for every row.
pub proof fn law_errors_are_those_of_the_predicate<F>(
    function: &AnyMatch,
    list: &ListColumn,
    lambda: F,
    result: Result<BooleanArray, ExecError>,
) where F: Fn(&ArrayData) -> Result<Verdicts, ExecError>
    requires
        list.wf(),
        forall|values: &ArrayData| call_requires(lambda, (values,)),
        forall|values: &ArrayData, verdicts: BooleanArray| #[trigger]
            call_ensures(lambda, (values,), Ok(Verdicts::Boolean(verdicts))) ==> arrays::truths(
                verdicts,
            ).len() == arrays::array_rows(*values).len(),
        call_ensures(AnyMatch::invoke_with_args::<F>, (function, list, lambda), result),
    ensures
        (forall|row: int| 0 <= row < list.len ==> #[trigger] is_marked_null(*list, row))
            ==> result is Ok && arrays::truths(result->Ok_0).len() == list.len && forall|row: int|
            0 <= row < list.len ==> #[trigger] arrays::truths(result->Ok_0)[row] is None,
        result matches Err(error) ==> exists|values: ArrayData| #[trigger]
            fails_with(lambda, values, error),
{
    law_null_rows_are_the_marked_ones(*list);
    if let Err(error) = result {
        let (parts, p) = choose|parts: Seq<ListElements>, p: int|
            parts_of(parts, *list) && 0 <= p < parts.len() && #[trigger] refused(
                lambda,
                parts[p],
                error,
            );
        law_refusals_come_from_the_predicate(lambda, parts[p], error);
        assert(fails_with(lambda, parts[p].values, error));
    }
}

/// Verdicts on elements make a row true exactly where one of those that stand in the row is
/// true; a null row gives null, and rows without elements are false.
pub proof fn law_rows_are_true_where_a_verdict_is(
    layout: &ListLayout,
    len: usize,
    verdicts: &BooleanArray,
    nulls: Option<&NullBuffer>,
    result: BooleanArray,
    row: int,
)
    requires
        layout.fits(len as int, arrays::truths(*verdicts).len() as int),
        nulls is Some ==> arrays::null_flags(*nulls->0).len() == len,
        call_ensures(any_match_rows, (layout, len, verdicts, nulls), result),
        0 <= row < len,
    ensures
        arrays::truths(result).len() == len,
        arrays::truths(result)[row] == if nulls is Some && arrays::null_flags(*nulls->0)[row] {
            None
        } else {
            Some(
                exists|j: int|
                    (match *layout {
                        ListLayout::Offsets(offsets) => offsets@[row] <= j < offsets@[row + 1],
                        ListLayout::FixedSize(size) => row * size <= j < row * size + size,
                    }) && #[trigger] arrays::truths(*verdicts)[j] == Some(true),
            )
        },
{
    law_a_row_is_true_where_a_verdict_is(
        *layout,
        len as int,
        match nulls {
            Some(nulls) => Some(*nulls),
            None => None,
        },
        arrays::truths(*verdicts),
        row,
    );
}

/// The rows of offsets and those of a fixed size are answered alike: by the verdicts between
/// where a row starts and where it ends.
pub proof fn law_offsets_and_sizes_bound_the_rows(
    offsets: &[usize],
    len: usize,
    size: i32,
    predicate: &BooleanArray,
    nulls: Option<&NullBuffer>,
    by_offsets: BooleanArray,
    by_size: BooleanArray,
    row: int,
)
    requires
        forall|i: int|
            0 <= i < offsets@.len() ==> (#[trigger] offsets@[i]) <= arrays::truths(*predicate).len(),
        nulls is Some ==> arrays::null_flags(*nulls->0).len() + 1 >= offsets@.len(),
        size >= 0,
        len * size <= arrays::truths(*predicate).len(),
        nulls is Some ==> arrays::null_flags(*nulls->0).len() >= len,
        call_ensures(any_match_over_offsets, (offsets, predicate, nulls), by_offsets),
        call_ensures(any_match_over_fixed_size, (len, size, predicate, nulls), by_size),
        0 <= row,
    ensures
        offsets@.len() > 0 ==> arrays::truths(by_offsets).len() == offsets@.len() - 1,
        offsets@.len() == 0 ==> arrays::truths(by_offsets).len() == 0,
        row + 1 < offsets@.len() ==> arrays::truths(by_offsets)[row] == if nulls is Some
            && arrays::null_flags(*nulls->0)[row] {
            None
        } else {
            Some(
                exists|j: int|
                    offsets@[row] <= j < offsets@[row + 1] && (
                    #[trigger] arrays::truths(*predicate)[j] matches Some(verdict) && verdict),
            )
        },
        arrays::truths(by_size).len() == len,
        row < len ==> arrays::truths(by_size)[row] == if nulls is Some && arrays::null_flags(
            *nulls->0,
        )[row] {
            None
        } else {
            Some(
                exists|j: int|
                    row * size <= j < row * size + size && (
                    #[trigger] arrays::truths(*predicate)[j] matches Some(verdict) && verdict),
            )
        },
{
    let verdicts = arrays::truths(*predicate);
    if row + 1 < offsets@.len() {
        law_any_true_is_a_true_verdict(verdicts, offsets@[row] as int, offsets@[row + 1] as int);
    }
    law_any_true_is_a_true_verdict(verdicts, row * size, row * size + size);
}

/// The one argument is coerced to a list with the same elements: views to the plain lists of
/// their size. The predicate has one parameter, of the type of the elements, and the result
/// is a boolean that may be null where the list may be.
pub proof fn law_arguments_are_a_list_and_a_predicate(
    function: &AnyMatch,
    types: &[DataType],
    coercion: Result<Vec<DataType>, ExecError>,
    fields: &[Field],
    parameters: Result<Vec<Vec<Field>>, ExecError>,
    arguments: &[ValueOrLambda<Field, Field>],
    returned: Result<Field, ExecError>,
)
    requires
        call_ensures(AnyMatch::coerce_value_types, (function, types), coercion),
        call_ensures(AnyMatch::lambdas_parameters, (function, fields), parameters),
        call_ensures(AnyMatch::return_field_from_args, (function, arguments), returned),
    ensures
        types@.len() == 1 ==> match types@[0] {
            DataType::List(field) | DataType::ListView(field) => coercion is Ok
                && coercion->Ok_0@.len() == 1 && coercion->Ok_0@[0] == DataType::List(field),
            DataType::LargeList(field) | DataType::LargeListView(field) => coercion is Ok
                && coercion->Ok_0@.len() == 1 && coercion->Ok_0@[0] == DataType::LargeList(field),
            DataType::FixedSizeList(field, size) => coercion is Ok && coercion->Ok_0@.len() == 1
                && coercion->Ok_0@[0] == DataType::FixedSizeList(field, size),
            other => coercion is Err && coercion->Err_0 == (ExecError::ExpectedList {
                data_type: other,
            }),
        },
        types@.len() != 1 ==> coercion is Err && coercion->Err_0 is ArgumentCount,
        fields@.len() == 1 ==> match fields@[0].data_type {
            DataType::List(field)
            | DataType::LargeList(field)
            | DataType::FixedSizeList(field, _) => parameters is Ok && parameters->Ok_0@.len() == 1
                && parameters->Ok_0@[0]@.len() == 1 && parameters->Ok_0@[0]@[0].data_type
                == field.data_type && parameters->Ok_0@[0]@[0].nullable == field.nullable,
            other => parameters is Err && parameters->Err_0 == (ExecError::ExpectedList {
                data_type: other,
            }),
        },
        fields@.len() != 1 ==> parameters is Err && parameters->Err_0 is ArgumentCount,
        returned is Ok <==> arguments@.len() == 2 && arguments@[0] is Value
            && arguments@[1] is Lambda,
        returned matches Ok(field) ==> field.data_type is Boolean && field.nullable
            == arguments@[0]->Value_0.nullable,
{
    if types@.len() == 1 {
        law_coercion_keeps_the_elements(types@[0]);
    }
    if fields@.len() == 1 {
        law_coercion_keeps_the_elements(fields@[0].data_type);
    }
}

/// A value followed by a predicate are told apart and handed back as they are; any other
/// arguments are refused, with their number where it is not two.
pub proof fn law_a_value_and_a_predicate_are_paired<V, L>(
    arguments: &[ValueOrLambda<V, L>],
    result: Result<(&V, &L), ExecError>,
)
    requires
        call_ensures(value_lambda_pair::<V, L>, (arguments,), result),
    ensures
        result is Ok <==> arguments@.len() == 2 && arguments@[0] is Value && arguments@[1] is Lambda,
        result matches Ok((value, lambda)) ==> arguments@[0] == ValueOrLambda::<V, L>::Value(*value)
            && arguments@[1] == ValueOrLambda::<V, L>::Lambda(*lambda),
        result is Err && arguments@.len() == 2 ==> result->Err_0 is ExpectedValueThenLambda,
        result is Err && arguments@.len() != 2 ==> (result->Err_0 matches ExecError::ArgumentCount {
            expected,
            actual,
        } && expected == 2 && actual == arguments@.len() as usize),
{
}

/// The elements that are handed out stand for the rows of the column: for each row that is
/// not null there is one part that has its elements, all of them and in their order.
pub proof fn law_parts_have_the_elements_of_the_rows(
    list: &ListColumn,
    result: Result<Vec<ListElements>, ExecError>,
    row: int,
    k: int,
)
    requires
        list.wf(),
        call_ensures(remove_list_null_values, (list,), result),
        0 <= row < list.len,
        !is_marked_null(*list, row),
        stands_in(*list, row, list.layout.start(row) + k),
    ensures
        result is Ok,
        exists|p: int|
            0 <= p < result->Ok_0@.len() && {
                let part = #[trigger] result->Ok_0@[p];
                &&& part.first <= row < part.first + part.len
                &&& arrays::array_rows(part.values)[part.start(row) + k] == arrays::array_rows(
                    list.values,
                )[list.layout.start(row) + k]
                &&& part.end(row) - part.start(row) == list.layout.end(row) - list.layout.start(row)
            },
{
    let parts = result->Ok_0@;
    let rows = arrays::array_rows(list.values);
    lemma_stands_in(*list, row, list.layout.start(row) + k);
    lemma_rows_in_order(list.layout, list.len as int, rows.len() as int, row, row);
    let p = choose|p: int| 0 <= p < parts.len() && (#[trigger] parts[p]).holds(row);
    let part = parts[p];
    assert(part.stand_for(*list));
    let values = arrays::array_rows(part.values);
    lemma_rows_in_order(
        part.layout,
        part.len as int,
        values.len() as int,
        row - part.first,
        row - part.first,
    );
    assert(part.elements(row) == list.elements(row));
    assert(part.elements(row)[k] == values[part.start(row) + k]);
    assert(list.elements(row)[k] == rows[list.layout.start(row) + k]);
    assert(part.elements(row).len() == part.end(row) - part.start(row));
    assert(list.elements(row).len() == list.layout.end(row) - list.layout.start(row));
}

/// The function is named, decides its argument types itself, gives the same for the same
/// input, and need not look at every element.
pub proof fn law_function_decides_its_arguments(
    function: AnyMatch,
    name: &'static str,
    signature: &Signature,
    stops: bool,
)
    requires
        call_ensures(AnyMatch::new, (), function),
        call_ensures(AnyMatch::name, (&function,), name),
        call_ensures(AnyMatch::signature, (&function,), signature),
        call_ensures(AnyMatch::short_circuits, (&function,), stops),
    ensures
        name@ == "any_match"@,
        signature.type_signature is UserDefined,
        signature.volatility is Immutable,
        stops,
{
}

} // verus!
