//! Probe adjacent equal keys once, then expand their matches in probe-row order.
use crate::arrays;
use crate::arrays::{
    array_kind, array_len, array_slice, binary_len, binary_null_count, binary_to_data, binary_value_data,
    binary_value_length, bit_or, collect_differing_chunks, count_set_bits, distinct, set_indices, take,
    ArrayKind,
};
use crate::error::ExecError;
use arrow::array::{ArrayData, FixedSizeBinaryArray};
use arrow::buffer::BooleanBuffer;
use vstd::prelude::*;

verus! {

/// Rows of a prefix that is scanned before a longer batch.
pub const SAMPLE_ROWS: usize = 64;

/// A column of join keys.
pub enum KeyColumn {
    /// Keys of one fixed number of bytes.
    FixedSizeBinary(FixedSizeBinaryArray),
    /// Keys of another type.
    Plain(ArrayData),
}

impl KeyColumn {
    /// The keys of the column.
    pub open spec fn rows(self) -> Seq<Option<Seq<u8>>> {
        match self {
            KeyColumn::FixedSizeBinary(array) => arrays::binary_rows(array),
            KeyColumn::Plain(array) => arrays::array_rows(array),
        }
    }

    /// The kind of the keys' type.
    pub open spec fn kind(self) -> ArrayKind {
        match self {
            KeyColumn::FixedSizeBinary(_) => ArrayKind::FixedSizeBinary,
            KeyColumn::Plain(array) => arrays::kind_of(array),
        }
    }

    /// The number of the keys' type, for the types that `arrow_ord` compares.
    pub open spec fn compared_type(self) -> Option<int> {
        match self {
            KeyColumn::FixedSizeBinary(array) => Some(
                arrays::slot_type(arrays::slot_size(array)),
            ),
            KeyColumn::Plain(array) => arrays::compared_type(array),
        }
    }

    /// Whether runs of the keys are looked for.
    pub open spec fn supported(self) -> bool {
        is_supported(self.kind())
    }

    /// The number of rows.
    pub fn len(&self) -> (result: usize)
        ensures
            result == self.rows().len(),
    {
        match self {
            KeyColumn::FixedSizeBinary(array) => binary_len(array),
            KeyColumn::Plain(array) => array_len(array),
        }
    }

    fn is_supported(&self) -> (result: bool)
        ensures
            result == self.supported(),
    {
        match self {
            KeyColumn::FixedSizeBinary(_) => true,
            KeyColumn::Plain(array) => supports_type(array_kind(array)),
        }
    }

    fn to_data(&self) -> (result: ArrayData)
        ensures
            arrays::array_rows(result) == self.rows(),
            arrays::compared_type(result) == self.compared_type(),
            arrays::kind_of(result) == self.kind(),
    {
        match self {
            KeyColumn::FixedSizeBinary(array) => binary_to_data(array),
            KeyColumn::Plain(array) => {
                let rows: usize = array_len(array);
                proof {
                    assert(arrays::array_rows(*array).subrange(0, rows as int)
                        =~= arrays::array_rows(*array));
                }
                array_slice(array, 0, rows)
            },
        }
    }
}

/// The types whose keys are compared by value, neither floats nor encoded nor
/// nested.
pub open spec fn is_supported(kind: ArrayKind) -> bool {
    match kind {
        ArrayKind::Float32 | ArrayKind::Float64 | ArrayKind::Date32 | ArrayKind::Other => false,
        _ => true,
    }
}

/// Whether runs of keys of this type are looked for.
pub fn supports_type(kind: ArrayKind) -> (result: bool)
    ensures
        result == is_supported(kind),
{
    match kind {
        ArrayKind::Boolean => true,
        ArrayKind::Int8 | ArrayKind::Int16 | ArrayKind::Int32 | ArrayKind::Int64 => true,
        ArrayKind::UInt8 | ArrayKind::UInt16 | ArrayKind::UInt32 | ArrayKind::UInt64 => true,
        ArrayKind::Utf8 | ArrayKind::LargeUtf8 | ArrayKind::Utf8View => true,
        ArrayKind::Binary | ArrayKind::LargeBinary | ArrayKind::BinaryView => true,
        ArrayKind::FixedSizeBinary => true,
        ArrayKind::Timestamp => true,
        ArrayKind::Float32 | ArrayKind::Float64 | ArrayKind::Date32 | ArrayKind::Other => false,
    }
}

/// Which of the first `rows` keys of a column differ from the next of them.
pub open spec fn key_changes(keys: Seq<Option<Seq<u8>>>, rows: int) -> Seq<bool> {
    Seq::new((rows - 1) as nat, |i: int| keys[i] != keys[i + 1])
}

/// The key in row `row`, one part for each column.
pub open spec fn key_at(columns: Seq<KeyColumn>, row: int) -> Seq<Option<Seq<u8>>> {
    Seq::new(columns.len(), |c: int| columns[c].rows()[row])
}

/// Which of the first `rows` keys, over all columns, differ from the next of
/// them.
pub open spec fn boundaries(columns: Seq<KeyColumn>, rows: int) -> Seq<bool> {
    Seq::new((rows - 1) as nat, |i: int| key_at(columns, i) != key_at(columns, i + 1))
}

/// The number of runs among the first `rows` keys.
pub open spec fn run_total(columns: Seq<KeyColumn>, rows: int) -> int {
    (arrays::set_positions(boundaries(columns, rows)).len() + 1) as int
}

/// Every column has a key for each of `rows` rows.
pub open spec fn cover(columns: Seq<KeyColumn>, rows: int) -> bool {
    forall|c: int| 0 <= c < columns.len() ==> (#[trigger] columns[c]).rows().len() >= rows
}

/// Runs are looked for in the keys of every column.
pub open spec fn all_supported(columns: Seq<KeyColumn>) -> bool {
    forall|c: int| 0 <= c < columns.len() ==> (#[trigger] columns[c]).supported()
}

/// Which of the first `rows` keys of `column` differ from the next of them.
fn adjacent_distinct(column: &KeyColumn, rows: usize) -> (result: Result<BooleanBuffer, ExecError>)
    requires
        1 <= rows <= column.rows().len(),
        column.supported(),
    ensures
        match result {
            Ok(changes) => arrays::bits(changes) == key_changes(column.rows(), rows as int),
            Err(_) => false,
        },
{
    let length: usize = rows - 1;
    if let KeyColumn::FixedSizeBinary(array) = column {
        if binary_null_count(array) == 0 && binary_value_length(array) == 16 {
            let bytes = binary_value_data(array);
            proof {
                arrays::lemma_none_or_all_set(arrays::null_slots(*array));
                assert forall|i: int| 0 <= i < arrays::binary_slots(*array).len() implies (
                #[trigger] arrays::binary_slots(*array)[i]).0 by {
                    assert(!arrays::null_slots(*array)[i]);
                }
                lemma_chunk_rows(*array, bytes@, length as int);
            }
            return Ok(collect_differing_chunks(bytes, length));
        }
    }
    let data = column.to_data();
    let left = array_slice(&data, 0, length);
    let right = array_slice(&data, 1, length);
    match distinct(&left, &right) {
        Ok(changes) => {
            proof {
                assert(arrays::bits(changes) =~= key_changes(column.rows(), rows as int));
            }
            Ok(changes)
        },
        Err(error) => Err(ExecError::Arrow(error)),
    }
}

proof fn lemma_chunk_rows(array: FixedSizeBinaryArray, bytes: Seq<u8>, length: int)
    requires
        0 <= length < arrays::binary_slots(array).len(),
        arrays::slot_size(array) == 16,
        bytes.len() >= arrays::binary_slots(array).len() * 16,
        forall|i: int|
            0 <= i < arrays::binary_slots(array).len() ==> (#[trigger] arrays::binary_slots(
                array,
            )[i]).0,
        forall|i: int|
            0 <= i < arrays::binary_slots(array).len() ==> (#[trigger] arrays::binary_slots(
                array,
            )[i]).1 == bytes.subrange(i * 16, i * 16 + 16),
    ensures
        16 * length + 16 <= bytes.len(),
        arrays::differing_chunks(bytes, length) == key_changes(
            arrays::binary_rows(array),
            length + 1,
        ),
{
    let rows = arrays::binary_rows(array);
    assert forall|i: int| 0 <= i < length implies #[trigger] arrays::chunk_differs(bytes, i) == (rows[i]
        != rows[i + 1]) by {
        assert(arrays::binary_slots(array)[i].1 == bytes.subrange(16 * i, 16 * i + 16));
        assert(arrays::binary_slots(array)[i + 1].1 == bytes.subrange(16 * i + 16, 16 * i + 32));
    }
    assert(arrays::differing_chunks(bytes, length) =~= key_changes(rows, length + 1));
}

/// Where the first `rows` keys change, unless they have more runs than half of
/// the rows. Another column can only add changes, so that the scan stops at the
/// first column that makes too many.
fn run_boundaries(columns: &[KeyColumn], rows: usize) -> (result: Result<
    Option<BooleanBuffer>,
    ExecError,
>)
    requires
        columns@.len() > 0,
        rows >= 1,
        cover(columns@, rows as int),
        all_supported(columns@),
    ensures
        match result {
            Ok(Some(changes)) => arrays::bits(changes) == boundaries(columns@, rows as int)
                && run_total(columns@, rows as int) <= rows / 2,
            Ok(None) => run_total(columns@, rows as int) > rows / 2,
            Err(_) => false,
        },
{
    let ghost first = columns@.take(1);
    let mut changes = match adjacent_distinct(&columns[0], rows) {
        Ok(changes) => changes,
        Err(error) => {
            return Err(error);
        },
    };
    proof {
        assert forall|i: int| 0 <= i < rows - 1 implies (#[trigger] key_at(first, i) != key_at(first, i + 1))
            == (columns@[0].rows()[i] != columns@[0].rows()[i + 1]) by {
            if columns@[0].rows()[i] == columns@[0].rows()[i + 1] {
                assert(key_at(first, i) =~= key_at(first, i + 1));
            } else {
                assert(key_at(first, i)[0] != key_at(first, i + 1)[0]);
            }
        }
        assert(arrays::bits(changes) =~= boundaries(first, rows as int));
        lemma_more_columns(columns@, 1, rows as int);
        lemma_run_total(columns@, rows as int);
        lemma_run_total(first, rows as int);
    }
    if count_set_bits(&changes) + 1 > rows / 2 {
        return Ok(None);
    }
    let mut c: usize = 1;
    while c < columns.len()
        invariant
            1 <= c <= columns@.len(),
            rows >= 1,
            cover(columns@, rows as int),
            all_supported(columns@),
            arrays::bits(changes) == boundaries(columns@.take(c as int), rows as int),
            run_total(columns@.take(c as int), rows as int) <= rows / 2,
        decreases columns@.len() - c,
    {
        let ghost wider = columns@.take(c + 1);
        let more = match adjacent_distinct(&columns[c], rows) {
            Ok(more) => more,
            Err(error) => {
                return Err(error);
            },
        };
        changes = bit_or(&changes, &more);
        proof {
            lemma_column_added(columns@, c as int, rows as int);
            assert(arrays::bits(changes) =~= boundaries(wider, rows as int));
            lemma_more_columns(columns@, c + 1, rows as int);
            lemma_run_total(wider, rows as int);
        }
        if count_set_bits(&changes) + 1 > rows / 2 {
            return Ok(None);
        }
        c = c + 1;
    }
    proof {
        assert(columns@.take(c as int) =~= columns@);
    }
    Ok(Some(changes))
}

proof fn lemma_run_total(columns: Seq<KeyColumn>, rows: int)
    requires
        rows >= 1,
    ensures
        1 <= run_total(columns, rows) <= rows,
{
    arrays::lemma_set_positions(boundaries(columns, rows));
}

proof fn lemma_column_added(columns: Seq<KeyColumn>, c: int, rows: int)
    requires
        0 <= c < columns.len(),
        rows >= 1,
    ensures
        boundaries(columns.take(c + 1), rows) == arrays::either(
            boundaries(columns.take(c), rows),
            key_changes(columns[c].rows(), rows),
        ),
{
    let narrow = columns.take(c);
    let wide = columns.take(c + 1);
    assert forall|i: int| 0 <= i < rows - 1 implies (#[trigger] key_at(wide, i) != key_at(wide, i + 1)) == (
    key_at(narrow, i) != key_at(narrow, i + 1) || columns[c].rows()[i] != columns[c].rows()[i
        + 1]) by {
        assert(key_at(wide, i) =~= key_at(narrow, i).push(columns[c].rows()[i]));
        assert(key_at(wide, i + 1) =~= key_at(narrow, i + 1).push(columns[c].rows()[i + 1]));
        assert(key_at(wide, i).drop_last() =~= key_at(narrow, i));
        assert(key_at(wide, i + 1).drop_last() =~= key_at(narrow, i + 1));
        assert(key_at(wide, i).last() == columns[c].rows()[i]);
        assert(key_at(wide, i + 1).last() == columns[c].rows()[i + 1]);
    }
    assert(boundaries(wide, rows) =~= arrays::either(
        boundaries(narrow, rows),
        key_changes(columns[c].rows(), rows),
    ));
}

/// More columns do not make fewer runs.
proof fn lemma_more_columns(columns: Seq<KeyColumn>, c: int, rows: int)
    requires
        0 <= c <= columns.len(),
        rows >= 1,
    ensures
        run_total(columns.take(c), rows) <= run_total(columns, rows),
{
    let few = boundaries(columns.take(c), rows);
    let all = boundaries(columns, rows);
    assert forall|i: int| 0 <= i < few.len() && #[trigger] few[i] implies all[i] by {
        if key_at(columns, i) == key_at(columns, i + 1) {
            assert forall|k: int| 0 <= k < c implies key_at(columns.take(c), i)[k] == key_at(
                columns.take(c),
                i + 1,
            )[k] by {
                assert(key_at(columns, i)[k] == key_at(columns, i + 1)[k]);
            }
            assert(key_at(columns.take(c), i) =~= key_at(columns.take(c), i + 1));
        }
    }
    arrays::lemma_set_positions_monotone(few, all);
}

/// The number of rows that the first column has.
pub open spec fn row_count(columns: Seq<KeyColumn>) -> int {
    columns[0].rows().len() as int
}

/// Whether the columns are declined without a look at their keys.
pub open spec fn declined_unread(columns: Seq<KeyColumn>) -> bool {
    ||| columns.len() == 0
    ||| row_count(columns) < 2
    ||| row_count(columns) > u32::MAX
    ||| exists|c: int| 0 <= c < columns.len() && !(#[trigger] columns[c]).supported()
}

/// Whether the runs are too many, in a prefix or in all rows, for half of the rows
/// or for `batch_size`.
pub open spec fn too_many_runs(columns: Seq<KeyColumn>, batch_size: int) -> bool {
    let rows = row_count(columns);
    ||| rows > SAMPLE_ROWS && run_total(columns, SAMPLE_ROWS as int) > SAMPLE_ROWS / 2
    ||| run_total(columns, rows) > rows / 2
    ||| run_total(columns, rows) > batch_size
}

/// Whether the keys are left to ordinary probing.
pub open spec fn declined(columns: Seq<KeyColumn>, batch_size: int) -> bool {
    declined_unread(columns) || too_many_runs(columns, batch_size)
}

/// The first row of each run among the first `rows` keys, then `rows`.
pub open spec fn run_starts(columns: Seq<KeyColumn>, rows: int) -> Seq<u32> {
    let changes = arrays::set_positions(boundaries(columns, rows));
    Seq::new(
        changes.len() + 2,
        |k: int|
            if k == 0 {
                0u32
            } else if k <= changes.len() {
                (changes[k - 1] + 1) as u32
            } else {
                rows as u32
            },
    )
}

/// The keys in the given rows.
pub open spec fn first_keys(keys: Seq<Option<Seq<u8>>>, rows: Seq<u32>) -> Seq<Option<Seq<u8>>> {
    Seq::new(rows.len(), |i: int| keys[rows[i] as int])
}

/// The array has the keys in the given rows of the column, and their type.
pub open spec fn represents(array: ArrayData, column: KeyColumn, rows: Seq<u32>) -> bool {
    &&& arrays::array_rows(array) == first_keys(column.rows(), rows)
    &&& arrays::kind_of(array) == column.kind()
    &&& arrays::compared_type(array) == column.compared_type()
}

/// The runs of a batch of keys.
pub struct RunPlan {
    /// The first row of each run, then the number of rows.
    pub starts: Vec<u32>,
    /// The key of each run, column by column.
    pub representatives: Vec<ArrayData>,
}

impl RunPlan {
    /// The runs are those of the keys, and each is represented by its first key. The
    /// types of the keys stay.
    pub open spec fn describes(self, columns: Seq<KeyColumn>) -> bool {
        &&& self.starts@ == run_starts(columns, row_count(columns))
        &&& self.representatives@.len() == columns.len()
        &&& forall|c: int|
            0 <= c < columns.len() ==> represents(
                #[trigger] self.representatives@[c],
                columns[c],
                self.starts@.drop_last(),
            )
    }
}

/// The matches that a lookup of run keys found.
#[derive(Debug)]
pub struct JoinMatches {
    /// The build row of each match.
    pub build_indices: Vec<u64>,
    /// The run of each match.
    pub run_indices: Vec<u32>,
    /// Where the lookup goes on, if it stopped before the end.
    pub next_offset: Option<(usize, Option<u64>)>,
}

impl JoinMatches {
    /// The matches are listed by run, and the runs are among `runs`.
    pub open spec fn listed_by_run(self, runs: int) -> bool {
        &&& self.build_indices@.len() == self.run_indices@.len()
        &&& forall|m: int| 0 <= m < self.run_indices@.len() ==> #[trigger] self.run_indices@[m] < runs
        &&& forall|m: int, n: int|
            0 <= m <= n < self.run_indices@.len() ==> self.run_indices@[m] <= self.run_indices@[n]
    }
}

/// Runs start one after the other, and keys within a run are equal while those on
/// its two sides differ.
pub proof fn law_runs_share_keys(columns: Seq<KeyColumn>, rows: int)
    requires
        1 <= rows <= u32::MAX,
    ensures
        ({
            let starts = run_starts(columns, rows);
            &&& starts.len() == run_total(columns, rows) + 1
            &&& starts[0] == 0
            &&& starts.last() == rows
            &&& forall|j: int, k: int| 0 <= j < k < starts.len() ==> starts[j] < starts[k]
            &&& forall|k: int, row: int|
                0 <= k < starts.len() - 1 && starts[k] <= row < starts[k + 1] ==> #[trigger] key_at(
                    columns,
                    row,
                ) == key_at(columns, #[trigger] starts[k] as int)
            &&& forall|k: int|
                1 <= k < starts.len() - 1 ==> key_at(columns, #[trigger] starts[k] - 1) != key_at(
                    columns,
                    starts[k] as int,
                )
        }),
{
    let changes = arrays::set_positions(boundaries(columns, rows));
    let starts = run_starts(columns, rows);
    arrays::lemma_set_positions(boundaries(columns, rows));
    assert forall|j: int, k: int| 0 <= j < k < starts.len() implies starts[j] < starts[k] by {
        if 0 < j && k <= changes.len() {
            assert(changes[j - 1] < changes[k - 1]);
        } else if 0 < j {
            assert(changes[j - 1] < rows - 1);
        } else if k <= changes.len() {
            assert(changes[k - 1] >= 0);
        }
    }
    assert forall|k: int, row: int|
        0 <= k < starts.len() - 1 && starts[k] <= row < starts[k + 1] implies #[trigger] key_at(
        columns,
        row,
    ) == key_at(columns, #[trigger] starts[k] as int) by {
        lemma_keys_within_run(columns, rows, k, row);
    }
    assert forall|k: int| 1 <= k < starts.len() - 1 implies key_at(columns, #[trigger] starts[k] - 1)
        != key_at(columns, starts[k] as int) by {
        assert(boundaries(columns, rows)[changes[k - 1]]);
    }
}

proof fn lemma_keys_within_run(columns: Seq<KeyColumn>, rows: int, k: int, row: int)
    requires
        1 <= rows <= u32::MAX,
        0 <= k < run_starts(columns, rows).len() - 1,
        run_starts(columns, rows)[k] <= row < run_starts(columns, rows)[k + 1],
    ensures
        key_at(columns, row) == key_at(columns, run_starts(columns, rows)[k] as int),
    decreases row,
{
    let changes = arrays::set_positions(boundaries(columns, rows));
    let starts = run_starts(columns, rows);
    arrays::lemma_set_positions(boundaries(columns, rows));
    if k < changes.len() {
        assert(0 <= changes[k] < rows - 1);
    }
    if k > 0 {
        assert(0 <= changes[k - 1] < rows - 1);
    }
    if row > starts[k] {
        lemma_keys_within_run(columns, rows, k, row - 1);
        if boundaries(columns, rows)[row - 1] {
            assert(changes.contains(row - 1));
            let j = choose|j: int| 0 <= j < changes.len() && changes[j] == row - 1;
            if j < k {
                if j < k - 1 {
                    assert(changes[j] < changes[k - 1]);
                }
            } else if j > k {
                assert(changes[k] < changes[j]);
            }
            assert(false);
        }
    }
}

/// The runs of a batch of keys, or nothing where the keys are left to ordinary
/// probing.
pub fn plan(columns: &[KeyColumn], batch_size: usize) -> (result: Result<
    Option<RunPlan>,
    ExecError,
>)
    requires
        columns@.len() > 0 ==> cover(columns@, row_count(columns@)),
    ensures
        match result {
            Ok(Some(plan)) => !declined(columns@, batch_size as int) && plan.describes(columns@),
            Ok(None) => declined(columns@, batch_size as int),
            Err(_) => false,
        },
{
    if columns.len() == 0 {
        return Ok(None);
    }
    let rows: usize = columns[0].len();
    if rows < 2 || rows > u32::MAX as usize {
        return Ok(None);
    }
    let mut c: usize = 0;
    while c < columns.len()
        invariant
            c <= columns@.len(),
            forall|k: int| 0 <= k < c ==> (#[trigger] columns@[k]).supported(),
        decreases columns@.len() - c,
    {
        if !columns[c].is_supported() {
            return Ok(None);
        }
        c = c + 1;
    }
    if rows > SAMPLE_ROWS {
        match run_boundaries(columns, SAMPLE_ROWS) {
            Ok(Some(_)) => {},
            Ok(None) => {
                return Ok(None);
            },
            Err(error) => {
                return Err(error);
            },
        }
    }
    let changes = match run_boundaries(columns, rows) {
        Ok(Some(changes)) => changes,
        Ok(None) => {
            return Ok(None);
        },
        Err(error) => {
            return Err(error);
        },
    };
    proof {
        lemma_run_total(columns@, rows as int);
        law_runs_share_keys(columns@, rows as int);
    }
    let runs: usize = count_set_bits(&changes) + 1;
    if runs > batch_size {
        return Ok(None);
    }
    let ghost expected = run_starts(columns@, rows as int);
    let positions = set_indices(&changes);
    let ghost set = arrays::set_positions(arrays::bits(changes));
    proof {
        arrays::lemma_set_positions(arrays::bits(changes));
        assert(arrays::as_positions(positions@).len() == positions@.len());
    }
    let mut starts: Vec<u32> = Vec::new();
    starts.push(0);
    let mut i: usize = 0;
    while i < positions.len()
        invariant
            i <= positions@.len(),
            rows <= u32::MAX,
            set == arrays::as_positions(positions@),
            set == arrays::set_positions(boundaries(columns@, rows as int)),
            forall|k: int| 0 <= k < set.len() ==> 0 <= #[trigger] set[k] < rows - 1,
            expected == run_starts(columns@, rows as int),
            starts@ == expected.take(i + 1),
        decreases positions@.len() - i,
    {
        assert(set[i as int] == positions@[i as int]);
        starts.push((positions[i] + 1) as u32);
        proof {
            assert(starts@ =~= expected.take(i + 2));
        }
        i = i + 1;
    }
    let ghost firsts = starts@;
    proof {
        assert(firsts =~= expected.drop_last());
        assert forall|k: int| 0 <= k < firsts.len() implies (#[trigger] firsts[k]) < rows by {
            assert(expected[k] < expected[expected.len() - 1]);
        }
        assert forall|j: int, k: int| 0 <= j < k < firsts.len() implies firsts[j] < firsts[k] by {
            assert(expected[j] < expected[k]);
        }
    }
    let mut representatives: Vec<ArrayData> = Vec::new();
    let mut c: usize = 0;
    while c < columns.len()
        invariant
            c <= columns@.len(),
            cover(columns@, rows as int),
            all_supported(columns@),
            starts@ == firsts,
            forall|k: int| 0 <= k < firsts.len() ==> (#[trigger] firsts[k]) < rows,
            forall|j: int, k: int| 0 <= j < k < firsts.len() ==> firsts[j] < firsts[k],
            firsts.len() <= rows,
            representatives@.len() == c,
            !declined(columns@, batch_size as int),
            forall|k: int|
                0 <= k < c ==> represents(#[trigger] representatives@[k], columns@[k], firsts),
        decreases columns@.len() - c,
    {
        let data = columns[c].to_data();
        let mut positions: Vec<u64> = Vec::new();
        let mut k: usize = 0;
        while k < starts.len()
            invariant
                k <= starts@.len(),
                starts@ == firsts,
                positions@ == Seq::new(k as nat, |j: int| firsts[j] as u64),
            decreases starts@.len() - k,
        {
            positions.push(starts[k] as u64);
            k = k + 1;
            proof {
                assert(positions@ =~= Seq::new(k as nat, |j: int| firsts[j] as u64));
            }
        }
        proof {
            assert(arrays::gathered(columns@[c as int].rows(), positions@) =~= first_keys(
                columns@[c as int].rows(),
                firsts,
            ));
            assert forall|j: int| 0 <= j < positions@.len() implies #[trigger] positions@[j]
                < rows by {
                assert(firsts[j] < rows);
            }
            assert forall|i: int, j: int| 0 <= i < j < positions@.len() implies positions@[i]
                < positions@[j] by {
                assert(firsts[i] < firsts[j]);
            }
        }
        match take(&data, positions) {
            Ok(keys) => representatives.push(keys),
            Err(error) => {
                return Err(ExecError::Arrow(error));
            },
        }
        c = c + 1;
    }
    starts.push(rows as u32);
    proof {
        assert(starts@ =~= expected);
    }
    Ok(Some(RunPlan { starts, representatives }))
}

/// A build row paired with a probe row, and whether it is the only match of that
/// probe row.
pub type Pair = (u64, u32, bool);

/// The end of the matches that belong to the same run as match `start`.
pub open spec fn group_end(runs: Seq<u32>, start: int) -> int {
    group_end_from(runs, start, start)
}

/// The first match from `at` on that belongs to another run than match `start`.
pub open spec fn group_end_from(runs: Seq<u32>, start: int, at: int) -> int
    decreases runs.len() - at,
{
    if at < runs.len() && runs[at] == runs[start] {
        group_end_from(runs, start, at + 1)
    } else {
        at
    }
}

/// Probe row `row` with matches `from..end` of a group that starts at `start`.
pub open spec fn row_pairs(build: Seq<u64>, start: int, from: int, end: int, row: int) -> Seq<
    Pair,
> {
    Seq::new((end - from) as nat, |k: int| (build[from + k], row as u32, end - start == 1))
}

/// Probe rows `row..row_end`, each with matches `start..end`.
pub open spec fn span_pairs(build: Seq<u64>, start: int, end: int, row: int, row_end: int) -> Seq<
    Pair,
>
    decreases row_end - row,
{
    if row >= row_end {
        Seq::empty()
    } else {
        row_pairs(build, start, start, end, row) + span_pairs(build, start, end, row + 1, row_end)
    }
}

/// The pairs of matches `start..`: run by run, each probe row of a run with all
/// matches of the run.
pub open spec fn pairs_from(starts: Seq<u32>, build: Seq<u64>, runs: Seq<u32>, start: int) -> Seq<
    Pair,
>
    decreases runs.len() - start,
    when start >= 0
    via pairs_from_decreases
{
    if start >= runs.len() {
        Seq::empty()
    } else {
        span_pairs(
            build,
            start,
            group_end(runs, start),
            starts[runs[start] as int] as int,
            starts[runs[start] as int + 1] as int,
        ) + pairs_from(starts, build, runs, group_end(runs, start))
    }
}

#[via_fn]
proof fn pairs_from_decreases(starts: Seq<u32>, build: Seq<u64>, runs: Seq<u32>, start: int) {
    if start < runs.len() {
        lemma_group_end(runs, start, start);
    }
}

proof fn lemma_group_end(runs: Seq<u32>, start: int, at: int)
    requires
        0 <= start <= at <= runs.len(),
        start < runs.len(),
        forall|m: int| start <= m < at ==> runs[m] == runs[start],
    ensures
        at <= group_end_from(runs, start, at) <= runs.len(),
        start < group_end_from(runs, start, at),
        forall|m: int| start <= m < group_end_from(runs, start, at) ==> runs[m] == runs[start],
        group_end_from(runs, start, at) < runs.len() ==> runs[group_end_from(runs, start, at)]
            != runs[start],
    decreases runs.len() - at,
{
    if at < runs.len() && runs[at] == runs[start] {
        lemma_group_end(runs, start, at + 1);
    }
}

/// Run `k` covers the probe rows `starts[k]..starts[k + 1]`; matches are listed by run.
pub open spec fn matches_wf(starts: Seq<u32>, build: Seq<u64>, runs: Seq<u32>) -> bool {
    &&& starts.len() >= 1
    &&& forall|j: int, k: int| 0 <= j < k < starts.len() ==> starts[j] < starts[k]
    &&& build.len() == runs.len()
    &&& forall|m: int| 0 <= m < runs.len() ==> #[trigger] runs[m] + 1 < starts.len()
    &&& forall|m: int, n: int| 0 <= m <= n < runs.len() ==> runs[m] <= runs[n]
}

/// The build rows of the pairs.
pub open spec fn build_rows(pairs: Seq<Pair>) -> Seq<u64> {
    Seq::new(pairs.len(), |i: int| pairs[i].0)
}

/// The probe rows of the pairs.
pub open spec fn probe_rows(pairs: Seq<Pair>) -> Seq<u32> {
    Seq::new(pairs.len(), |i: int| pairs[i].1)
}

/// Probe rows do not go back, and advance after a row's only match.
pub open spec fn probe_major(pairs: Seq<Pair>) -> bool {
    forall|i: int, j: int|
        0 <= i < j < pairs.len() ==> (#[trigger] pairs[i]).1 <= (#[trigger] pairs[j]).1 && (
        pairs[i].2 ==> pairs[i].1 < pairs[j].1)
}

/// Every probe row is in `low..high`.
pub open spec fn rows_within(pairs: Seq<Pair>, low: int, high: int) -> bool {
    forall|i: int| 0 <= i < pairs.len() ==> low <= (#[trigger] pairs[i]).1 < high
}

proof fn lemma_span_pairs(build: Seq<u64>, start: int, end: int, row: int, row_end: int)
    requires
        start < end,
        0 <= row <= row_end <= u32::MAX,
    ensures
        probe_major(span_pairs(build, start, end, row, row_end)),
        rows_within(span_pairs(build, start, end, row, row_end), row, row_end),
        row < row_end ==> span_pairs(build, start, end, row, row_end).len() > 0 && span_pairs(
            build,
            start,
            end,
            row,
            row_end,
        )[0].1 == row,
    decreases row_end - row,
{
    if row < row_end {
        lemma_span_pairs(build, start, end, row + 1, row_end);
        let first = row_pairs(build, start, start, end, row);
        let rest = span_pairs(build, start, end, row + 1, row_end);
        lemma_joined(first, rest, row, row + 1, row_end);
    }
}

proof fn lemma_joined(left: Seq<Pair>, right: Seq<Pair>, low: int, middle: int, high: int)
    requires
        probe_major(left),
        probe_major(right),
        low <= middle <= high,
        rows_within(left, low, middle),
        rows_within(right, middle, high),
    ensures
        probe_major(left + right),
        rows_within(left + right, low, high),
{
    let both = left + right;
    assert forall|i: int, j: int| 0 <= i < j < both.len() implies (#[trigger] both[i]).1 <= (
    #[trigger] both[j]).1 && (both[i].2 ==> both[i].1 < both[j].1) by {
        if j < left.len() {
            assert(both[i] == left[i] && both[j] == left[j]);
        } else if i >= left.len() {
            assert(both[i] == right[i - left.len()] && both[j] == right[j - left.len()]);
        } else {
            assert(both[i] == left[i] && both[j] == right[j - left.len()]);
        }
    }
    assert forall|i: int| 0 <= i < both.len() implies low <= (#[trigger] both[i]).1 < high by {
        if i < left.len() {
            assert(both[i] == left[i]);
        } else {
            assert(both[i] == right[i - left.len()]);
        }
    }
}

/// The first row of run `k`, or the number of rows past the last run.
spec fn start_of(starts: Seq<u32>, runs: Seq<u32>, at: int) -> int {
    if at < runs.len() {
        starts[runs[at] as int] as int
    } else {
        starts.last() as int
    }
}

proof fn lemma_pairs_from(starts: Seq<u32>, build: Seq<u64>, runs: Seq<u32>, start: int)
    requires
        matches_wf(starts, build, runs),
        0 <= start <= runs.len(),
    ensures
        probe_major(pairs_from(starts, build, runs, start)),
        rows_within(
            pairs_from(starts, build, runs, start),
            start_of(starts, runs, start),
            starts.last() as int,
        ),
        start < runs.len() ==> pairs_from(starts, build, runs, start).len() > 0 && pairs_from(
            starts,
            build,
            runs,
            start,
        )[0].1 == starts[runs[start] as int],
    decreases runs.len() - start,
{
    if start < runs.len() {
        lemma_group_end(runs, start, start);
        let end = group_end(runs, start);
        let row = starts[runs[start] as int] as int;
        let row_end = starts[runs[start] as int + 1] as int;
        lemma_span_pairs(build, start, end, row, row_end);
        lemma_pairs_from(starts, build, runs, end);
        lemma_after_group(starts, build, runs, start);
        let first = span_pairs(build, start, end, row, row_end);
        let rest = pairs_from(starts, build, runs, end);
        assert(row_end <= starts.last());
        lemma_joined(first, rest, row, row_end, starts.last() as int);
    }
}

/// The group after the one at `start` belongs to a later run.
proof fn lemma_after_group(starts: Seq<u32>, build: Seq<u64>, runs: Seq<u32>, start: int)
    requires
        matches_wf(starts, build, runs),
        0 <= start < runs.len(),
    ensures
        starts[runs[start] as int + 1] <= start_of(starts, runs, group_end(runs, start)),
        starts[runs[start] as int + 1] <= starts.last(),
{
    lemma_group_end(runs, start, start);
    let end = group_end(runs, start);
    if end < runs.len() {
        assert(runs[start] < runs[end]);
        if runs[start] + 1 < runs[end] {
            assert(starts[runs[start] as int + 1] < starts[runs[end] as int]);
        }
    }
    if runs[start] + 1 < starts.len() - 1 {
        assert(starts[runs[start] as int + 1] < starts[starts.len() - 1]);
    }
}

/// The pairs of a group with one match, split after `count` rows.
proof fn lemma_single_span(build: Seq<u64>, start: int, row: int, row_end: int, count: int)
    requires
        0 <= count <= row_end - row,
        0 <= row <= row_end <= u32::MAX,
    ensures
        span_pairs(build, start, start + 1, row, row_end) == Seq::new(
            count as nat,
            |k: int| (build[start], (row + k) as u32, true),
        ) + span_pairs(build, start, start + 1, row + count, row_end),
    decreases count,
{
    let all = span_pairs(build, start, start + 1, row, row_end);
    let head = Seq::new(count as nat, |k: int| (build[start], (row + k) as u32, true));
    let tail = span_pairs(build, start, start + 1, row + count, row_end);
    if count > 0 {
        lemma_single_span(build, start, row + 1, row_end, count - 1);
        let shorter = Seq::new(
            (count - 1) as nat,
            |k: int| (build[start], (row + 1 + k) as u32, true),
        );
        let first = row_pairs(build, start, start, start + 1, row);
        assert(all == first + (shorter + tail));
        assert(first + (shorter + tail) =~= head + tail);
    } else {
        assert(all =~= head + tail);
    }
}

/// Matches for the representatives of adjacent equal probe keys, and how far
/// they have been expanded.
#[derive(Debug, Clone)]
pub struct ProbeRuns {
    starts: Vec<u32>,
    build_indices: Vec<u64>,
    run_indices: Vec<u32>,
    match_start: usize,
    match_end: usize,
    next_match: usize,
    probe_row: u32,
}

impl ProbeRuns {
    /// The first probe row of each run, then the number of probe rows.
    pub closed spec fn starts(self) -> Seq<u32> {
        self.starts@
    }

    /// The build row of each match.
    pub closed spec fn build_indices(self) -> Seq<u64> {
        self.build_indices@
    }

    /// The run of each match.
    pub closed spec fn run_indices(self) -> Seq<u32> {
        self.run_indices@
    }

    /// The probe row at which expansion stands.
    pub closed spec fn cursor(self) -> u32 {
        self.probe_row
    }

    /// The pairs not yet expanded.
    #[verifier::opaque]
    pub closed spec fn remaining(self) -> Seq<Pair> {
        if self.match_start >= self.run_indices@.len() {
            Seq::empty()
        } else if self.match_end == self.match_start {
            pairs_from(
                self.starts@,
                self.build_indices@,
                self.run_indices@,
                self.match_start as int,
            )
        } else {
            row_pairs(
                self.build_indices@,
                self.match_start as int,
                self.next_match as int,
                self.match_end as int,
                self.probe_row as int,
            ) + span_pairs(
                self.build_indices@,
                self.match_start as int,
                self.match_end as int,
                self.probe_row + 1,
                self.starts@[self.run_indices@[self.match_start as int] as int + 1] as int,
            ) + pairs_from(
                self.starts@,
                self.build_indices@,
                self.run_indices@,
                self.match_end as int,
            )
        }
    }

    /// The runs are in order, the matches are listed by run, and the position is
    /// inside a group of matches or between two.
    pub closed spec fn wf(self) -> bool {
        &&& matches_wf(self.starts@, self.build_indices@, self.run_indices@)
        &&& self.match_start <= self.match_end <= self.run_indices@.len()
        &&& self.match_start < self.match_end ==> {
            let run = self.run_indices@[self.match_start as int] as int;
            &&& self.match_end == group_end(self.run_indices@, self.match_start as int)
            &&& self.match_start <= self.next_match < self.match_end
            &&& self.starts@[run] <= self.probe_row < self.starts@[run + 1]
            &&& self.match_end - self.match_start == 1 ==> self.next_match == self.match_start
        }
    }

    /// What is left to expand is in probe-row order, and there is something left
    /// while there are groups of matches left.
    proof fn lemma_remaining(self)
        requires
            self.wf(),
        ensures
            probe_major(self.remaining()),
            rows_within(self.remaining(), 0, self.starts@.last() as int),
            self.remaining().len() > 0 <==> self.match_start < self.run_indices@.len(),
            self.match_start < self.match_end ==> self.remaining()[0] == (
                self.build_indices@[self.next_match as int],
                self.probe_row,
                self.match_end - self.match_start == 1,
            ),
            self.match_start == self.match_end && self.match_start < self.run_indices@.len()
                ==> self.remaining()[0].1
                == self.starts@[self.run_indices@[self.match_start as int] as int],
    {
        reveal(ProbeRuns::remaining);
        let starts = self.starts@;
        let build = self.build_indices@;
        let runs = self.run_indices@;
        let start = self.match_start as int;
        let end = self.match_end as int;
        if start < runs.len() {
            if start == end {
                lemma_pairs_from(starts, build, runs, start);
            } else {
                let row = self.probe_row as int;
                let row_end = starts[runs[start] as int + 1] as int;
                lemma_pairs_from(starts, build, runs, end);
                lemma_after_group(starts, build, runs, start);
                lemma_span_pairs(build, start, end, row + 1, row_end);
                let first = row_pairs(build, start, self.next_match as int, end, row);
                let middle = span_pairs(build, start, end, row + 1, row_end);
                let last = pairs_from(starts, build, runs, end);
                lemma_joined(first, middle, row, row + 1, row_end);
                lemma_joined(first + middle, last, row, row_end, starts.last() as int);
                assert(first[0] == (first + middle + last)[0]);
            }
        }
    }

    /// Matches that have not been expanded yet; nothing where the lookup stopped
    /// before the end, since an unfinished list would change the order of the
    /// pairs.
    pub fn from_matches(starts: Vec<u32>, matches: JoinMatches) -> (result: Option<ProbeRuns>)
        requires
            starts@.len() >= 1,
            forall|j: int, k: int| 0 <= j < k < starts@.len() ==> starts@[j] < starts@[k],
            matches.next_offset is None ==> matches.listed_by_run(starts@.len() - 1),
        ensures
            match result {
                None => matches.next_offset is Some,
                Some(runs) => matches.next_offset is None && runs.wf() && runs.starts() == starts@
                    && runs.build_indices() == matches.build_indices@ && runs.run_indices()
                    == matches.run_indices@ && runs.cursor() == 0 && runs.remaining() == pairs_from(
                    starts@,
                    matches.build_indices@,
                    matches.run_indices@,
                    0,
                ),
            },
    {
        if matches.next_offset.is_some() {
            return None;
        }
        proof {
            reveal(ProbeRuns::remaining);
        }
        Some(
            ProbeRuns {
                starts,
                build_indices: matches.build_indices,
                run_indices: matches.run_indices,
                match_start: 0,
                match_end: 0,
                next_match: 0,
                probe_row: 0,
            },
        )
    }

    /// Looks up each run of equal keys once. Nothing where the keys are left to
    /// ordinary probing, or where the matches are more than `batch_size`.
    pub fn try_new<L>(columns: &[KeyColumn], batch_size: usize, lookup: L) -> (result: Result<
        Option<ProbeRuns>,
        ExecError,
    >) where L: FnOnce(&Vec<ArrayData>, usize) -> Result<JoinMatches, ExecError>
        requires
            columns@.len() > 0 ==> cover(columns@, row_count(columns@)),
            forall|keys: &Vec<ArrayData>, limit: usize| call_requires(lookup, (keys, limit)),
            forall|keys: &Vec<ArrayData>, limit: usize, matches: JoinMatches| #[trigger]
                call_ensures(lookup, (keys, limit), Ok(matches)) && matches.next_offset is None
                    && keys@.len() > 0 ==> matches.listed_by_run(
                    arrays::array_rows(keys@[0]).len() as int,
                ) && matches.build_indices@.len() <= limit,
        ensures
            declined(columns@, batch_size as int) ==> (result matches Ok(None)),
            match result {
                Ok(None) => declined(columns@, batch_size as int) || exists|
                    plan: RunPlan,
                    matches: JoinMatches,
                | #[trigger]
                    plan.describes(columns@) && #[trigger] call_ensures(
                        lookup,
                        (&plan.representatives, batch_size),
                        Ok(matches),
                    ) && matches.next_offset is Some,
                Ok(Some(runs)) => !declined(columns@, batch_size as int) && runs.wf()
                    && runs.build_indices().len() <= batch_size && exists|
                    plan: RunPlan,
                    matches: JoinMatches,
                | #[trigger]
                    plan.describes(columns@) && #[trigger] call_ensures(
                        lookup,
                        (&plan.representatives, batch_size),
                        Ok(matches),
                    ) && matches.next_offset is None && runs.starts() == run_starts(
                        columns@,
                        row_count(columns@),
                    ) && runs.build_indices() == matches.build_indices@ && runs.run_indices()
                        == matches.run_indices@ && runs.cursor() == 0 && runs.remaining() == pairs_from(
                        runs.starts(),
                        matches.build_indices@,
                        matches.run_indices@,
                        0,
                    ),
                Err(error) => !declined(columns@, batch_size as int) && exists|plan: RunPlan|
                 #[trigger]
                    plan.describes(columns@) && call_ensures(
                        lookup,
                        (&plan.representatives, batch_size),
                        Err(error),
                    ),
            },
    {
        let plan = match plan(columns, batch_size) {
            Ok(Some(plan)) => plan,
            Ok(None) => {
                return Ok(None);
            },
            Err(error) => {
                return Err(error);
            },
        };
        let ghost planned = plan;
        proof {
            lemma_run_total(columns@, row_count(columns@));
            law_runs_share_keys(columns@, row_count(columns@));
            assert(arrays::array_rows(planned.representatives@[0]).len() == planned.starts@.len()
                - 1);
        }
        let matches = match lookup(&plan.representatives, batch_size) {
            Ok(matches) => matches,
            Err(error) => {
                assert(planned.describes(columns@));
                return Err(error);
            },
        };
        proof {
            assert(planned.describes(columns@));
            assert(call_ensures(lookup, (&planned.representatives, batch_size), Ok(matches)));
        }
        Ok(ProbeRuns::from_matches(plan.starts, matches))
    }

    /// The number of runs.
    pub fn run_count(&self) -> (result: usize)
        requires
            self.wf(),
        ensures
            result == self.starts().len() - 1,
    {
        self.starts.len() - 1
    }

    /// Finds the group of matches at the position and goes to the first probe row
    /// of its run.
    fn enter_group(&mut self)
        requires
            old(self).wf(),
            old(self).match_start < old(self).run_indices@.len(),
            old(self).match_start == old(self).match_end,
        ensures
            final(self).wf(),
            final(self).starts@ == old(self).starts@,
            final(self).build_indices@ == old(self).build_indices@,
            final(self).run_indices@ == old(self).run_indices@,
            final(self).match_start == old(self).match_start,
            final(self).match_start < final(self).match_end,
            final(self).remaining() == old(self).remaining(),
    {
        let ghost runs = self.run_indices@;
        let ghost start = self.match_start as int;
        let run: u32 = self.run_indices[self.match_start];
        proof {
            lemma_group_end(runs, start, start);
        }
        let mut end: usize = self.match_end;
        while end < self.run_indices.len() && self.run_indices[end] == run
            invariant
                start <= end <= runs.len(),
                0 <= start < runs.len(),
                runs == self.run_indices@,
                run == runs[start],
                group_end(runs, start) == group_end_from(runs, start, end as int),
            decreases runs.len() - end,
        {
            end = end + 1;
        }
        self.match_end = end;
        self.probe_row = self.starts[run as usize];
        self.next_match = self.match_start;
        proof {
            reveal(ProbeRuns::remaining);
            let row = self.probe_row as int;
            let row_end = self.starts@[run as int + 1] as int;
            let build = self.build_indices@;
            assert(span_pairs(build, start, end as int, row, row_end) == row_pairs(
                build,
                start,
                start,
                end as int,
                row,
            ) + span_pairs(build, start, end as int, row + 1, row_end));
        }
    }

    /// Expands the only match of a run for as many of its rows as there is room
    /// for.
    fn expand_single(&mut self, room: usize, build: &mut Vec<u64>, probe: &mut Vec<u32>)
        requires
            old(self).wf(),
            old(self).match_end - old(self).match_start == 1,
            room > 0,
            old(build)@.len() + room <= usize::MAX,
            old(build)@.len() == old(probe)@.len(),
        ensures
            final(self).wf(),
            final(self).starts@ == old(self).starts@,
            final(self).build_indices@ == old(self).build_indices@,
            final(self).run_indices@ == old(self).run_indices@,
            emitted(
                *old(self),
                *final(self),
                old(build)@,
                final(build)@,
                old(probe)@,
                final(probe)@,
            ),
            final(build)@.len() <= old(build)@.len() + room,
            forall|i: int|
                0 <= i < final(build)@.len() - old(build)@.len() ==> (
                #[trigger] old(self).remaining()[i]).2,
    {
        proof {
            self.lemma_remaining();
            assert(self.starts@.len() == self.starts.len());
        }
        let ghost before = *self;
        let ghost start = self.match_start as int;
        let ghost first_row = self.probe_row as int;
        let run: usize = self.run_indices[self.match_start] as usize;
        let run_end: u32 = self.starts[run + 1];
        let rows: usize = (run_end - self.probe_row) as usize;
        let count: usize = if room <= rows {
            room
        } else {
            rows
        };
        let value: u64 = self.build_indices[self.match_start];
        let next_probe_row: u32 = self.probe_row + count as u32;
        let ghost build0 = build@;
        let ghost probe0 = probe@;
        let mut row: u32 = self.probe_row;
        while row < next_probe_row
            invariant
                first_row <= row <= next_probe_row,
                build@ == build0 + Seq::new((row - first_row) as nat, |k: int| value),
                probe@ == probe0 + Seq::new(
                    (row - first_row) as nat,
                    |k: int| (first_row + k) as u32,
                ),
            decreases next_probe_row - row,
        {
            build.push(value);
            probe.push(row);
            row = row + 1;
        }
        self.probe_row = next_probe_row;
        if self.probe_row == run_end {
            self.match_start = self.match_end;
        }
        proof {
            reveal(ProbeRuns::remaining);
            let starts = self.starts@;
            let values = self.build_indices@;
            let runs = self.run_indices@;
            let head = Seq::new(
                count as nat,
                |k: int| (values[start], (first_row + k) as u32, true),
            );
            let tail = span_pairs(
                values,
                start,
                start + 1,
                first_row + count,
                run_end as int,
            );
            let later = pairs_from(starts, values, runs, start + 1);
            lemma_single_span(values, start, first_row, run_end as int, count as int);
            assert(span_pairs(values, start, start + 1, first_row, run_end as int)
                =~= row_pairs(values, start, start, start + 1, first_row) + span_pairs(
                values,
                start,
                start + 1,
                first_row + 1,
                run_end as int,
            ));
            assert(before.remaining() =~= head + tail + later);
            if next_probe_row == run_end {
                assert(tail =~= Seq::empty());
                assert(self.remaining() =~= later);
            } else {
                assert(self.remaining() =~= tail + later);
            }
            assert(self.remaining() =~= before.remaining().skip(count as int));
            assert(before.remaining().take(count as int) =~= head);
            assert(build_rows(head) =~= Seq::new(count as nat, |k: int| value));
            assert(probe_rows(head) =~= Seq::new(count as nat, |k: int| (first_row + k) as u32));
            assert forall|i: int| 0 <= i < count implies (#[trigger] before.remaining()[i]).2 by {
                assert(before.remaining()[i] == head[i]);
            }
            assert(before.remaining()[count - 1] == head[count - 1]);
            self.lemma_remaining();
            assert(self.remaining().len() > 0 ==> self.remaining()[0]
                == before.remaining()[count as int]);
        }
    }

    /// Expands the matches of the current probe row, as many as there is room for.
    fn expand_row(&mut self, room: usize, build: &mut Vec<u64>, probe: &mut Vec<u32>)
        requires
            old(self).wf(),
            old(self).match_end - old(self).match_start > 1,
            room > 0,
            old(build)@.len() + room <= usize::MAX,
            old(build)@.len() == old(probe)@.len(),
        ensures
            final(self).wf(),
            final(self).starts@ == old(self).starts@,
            final(self).build_indices@ == old(self).build_indices@,
            final(self).run_indices@ == old(self).run_indices@,
            emitted(
                *old(self),
                *final(self),
                old(build)@,
                final(build)@,
                old(probe)@,
                final(probe)@,
            ),
            final(build)@.len() <= old(build)@.len() + room,
            !old(self).remaining()[0].2,
    {
        proof {
            self.lemma_remaining();
            assert(self.starts@.len() == self.starts.len());
        }
        let ghost before = *self;
        let ghost start = self.match_start as int;
        let ghost from = self.next_match as int;
        let run: usize = self.run_indices[self.match_start] as usize;
        let matches: usize = self.match_end - self.next_match;
        let count: usize = if room <= matches {
            room
        } else {
            matches
        };
        let stop: usize = self.next_match + count;
        let ghost build0 = build@;
        let ghost probe0 = probe@;
        let mut at: usize = self.next_match;
        while at < stop
            invariant
                0 <= from <= at <= stop,
                stop <= self.build_indices@.len(),
                *self == before,
                build@ == build0 + self.build_indices@.subrange(from, at as int),
                probe@ == probe0 + Seq::new((at - from) as nat, |k: int| self.probe_row),
            decreases stop - at,
        {
            build.push(self.build_indices[at]);
            probe.push(self.probe_row);
            at = at + 1;
        }
        self.next_match = stop;
        if self.next_match == self.match_end {
            self.probe_row = self.probe_row + 1;
            self.next_match = self.match_start;
            if self.probe_row == self.starts[run + 1] {
                self.match_start = self.match_end;
            }
        }
        proof {
            reveal(ProbeRuns::remaining);
            let starts = self.starts@;
            let values = self.build_indices@;
            let runs = self.run_indices@;
            let end = before.match_end as int;
            let row = before.probe_row as int;
            let row_end = starts[run + 1] as int;
            let current = row_pairs(values, start, from, end, row);
            let head = row_pairs(values, start, from, end, row).take(count as int);
            let tail = span_pairs(values, start, end, row + 1, row_end);
            let later = pairs_from(starts, values, runs, end);
            assert(before.remaining() == current + tail + later);
            assert(before.remaining().take(count as int) =~= head);
            if stop == end {
                if row + 1 == row_end {
                    assert(self.remaining() =~= later);
                    lemma_after_group(starts, values, runs, start);
                    assert(tail =~= Seq::empty());
                } else {
                    assert(self.remaining() =~= tail + later);
                }
            }
            assert(self.remaining() =~= before.remaining().skip(count as int));
            assert(build_rows(head) =~= values.subrange(from, stop as int));
            assert(probe_rows(head) =~= Seq::new(count as nat, |k: int| before.probe_row));
            assert(before.remaining()[count - 1] == head[count - 1]);
            self.lemma_remaining();
            assert(self.remaining().len() > 0 ==> self.remaining()[0]
                == before.remaining()[count as int]);
        }
    }

    /// The next pairs, at most `limit`, as build rows and probe rows; where more
    /// follow, the probe row at which they do; and the probe rows as a range,
    /// where they are consecutive and each has one match.
    pub fn next_indices(&mut self, limit: usize) -> (result: (
        Vec<u64>,
        Vec<u32>,
        Option<(usize, Option<u64>)>,
        Option<std::ops::Range<usize>>,
    ))
        requires
            old(self).wf(),
        ensures
            final(self).wf(),
            final(self).starts() == old(self).starts(),
            final(self).build_indices() == old(self).build_indices(),
            final(self).run_indices() == old(self).run_indices(),
            ({
                let pairs = old(self).remaining();
                let count = chunk_len(pairs, limit);
                let chunk = pairs.take(count);
                &&& result.0@ == build_rows(chunk)
                &&& result.1@ == probe_rows(chunk)
                &&& final(self).remaining() == pairs.skip(count)
                &&& result.2 == (if count < pairs.len() {
                    Some((final(self).cursor() as usize, None::<u64>))
                } else {
                    None
                })
                &&& count == 0 ==> final(self).cursor() == old(self).cursor()
                &&& 0 < count < pairs.len() ==> final(self).cursor() == (if pairs[count].1
                    == pairs[count - 1].1 {
                    pairs[count].1 as int
                } else {
                    pairs[count - 1].1 + 1
                })
                &&& match result.3 {
                    Some(range) => count > 0 && single_matches(chunk) && consecutive(chunk)
                        && range.start == chunk[0].1 && range.end == chunk[0].1 + count,
                    None => count == 0 || !single_matches(chunk) || !consecutive(chunk),
                }
            }),
    {
        let ghost pairs = self.remaining();
        let ghost before = *self;
        proof {
            self.lemma_remaining();
            assert(pairs.skip(0) =~= pairs);
        }
        let mut build: Vec<u64> = Vec::new();
        let mut probe: Vec<u32> = Vec::new();
        let mut only_single_matches: bool = true;
        while self.match_start < self.build_indices.len() && build.len() < limit
            invariant
                self.wf(),
                self.starts@ == before.starts@,
                self.build_indices@ == before.build_indices@,
                self.run_indices@ == before.run_indices@,
                pairs == before.remaining(),
                probe_major(pairs),
                build@.len() <= limit,
                build@.len() <= pairs.len(),
                build@ == build_rows(pairs.take(build@.len() as int)),
                probe@ == probe_rows(pairs.take(build@.len() as int)),
                self.remaining() == pairs.skip(build@.len() as int),
                only_single_matches == single_matches(pairs.take(build@.len() as int)),
                build@.len() == 0 ==> self.probe_row == before.probe_row,
                0 < build@.len() < pairs.len() ==> self.probe_row == (if pairs[build@.len() as int].1
                    == pairs[build@.len() - 1].1 {
                    pairs[build@.len() as int].1 as int
                } else {
                    pairs[build@.len() - 1].1 + 1
                }),
            decreases limit - build@.len(),
        {
            let ghost done = build@.len() as int;
            if self.match_end == self.match_start {
                self.enter_group();
            }
            let ghost entered = *self;
            let ghost build0 = build@;
            let ghost probe0 = probe@;
            let room: usize = limit - build.len();
            if self.match_end - self.match_start == 1 {
                self.expand_single(room, &mut build, &mut probe);
                proof {
                    assert forall|i: int| done <= i < build@.len() implies (#[trigger] pairs[i]).2 by {
                        assert(entered.remaining()[i - done].2);
                    }
                    lemma_all_single(pairs, done, build@.len() as int);
                }
            } else {
                only_single_matches = false;
                self.expand_row(room, &mut build, &mut probe);
                proof {
                    assert(!pairs.take(build@.len() as int)[done].2);
                }
            }
            proof {
                lemma_chunk_grows(pairs, done, build@.len() as int);
            }
        }
        proof {
            self.lemma_remaining();
            assert(build@.len() == chunk_len(pairs, limit));
        }
        let next: Option<(usize, Option<u64>)> = if self.match_start < self.build_indices.len() {
            Some((self.probe_row as usize, None))
        } else {
            None
        };
        let ghost count = build@.len() as int;
        let ghost chunk = pairs.take(count);
        let mut range: Option<std::ops::Range<usize>> = None;
        if only_single_matches && probe.len() > 0 {
            let first: u32 = probe[0];
            let last: u32 = probe[probe.len() - 1];
            proof {
                lemma_spread(chunk);
                assert(chunk[0] == pairs[0] && chunk[count - 1] == pairs[count - 1]);
                assert(chunk[count - 1].1 < before.starts@.last());
            }
            if first as usize + probe.len() == last as usize + 1 {
                range = Some(first as usize..last as usize + 1);
            }
        }
        (build, probe, next, range)
    }
}

/// How many pairs a chunk of at most `limit` holds.
pub open spec fn chunk_len(pairs: Seq<Pair>, limit: usize) -> int {
    if limit <= pairs.len() {
        limit as int
    } else {
        pairs.len() as int
    }
}

/// Every pair is the only match of its probe row.
pub open spec fn single_matches(pairs: Seq<Pair>) -> bool {
    forall|i: int| 0 <= i < pairs.len() ==> (#[trigger] pairs[i]).2
}

/// The probe rows go up by one.
pub open spec fn consecutive(pairs: Seq<Pair>) -> bool {
    forall|i: int| 0 <= i < pairs.len() ==> (#[trigger] pairs[i]).1 == pairs[0].1 + i
}

/// One step of expansion: the pairs that `after` lacks were appended to the build
/// rows and the probe rows.
spec fn emitted(
    before: ProbeRuns,
    after: ProbeRuns,
    build0: Seq<u64>,
    build: Seq<u64>,
    probe0: Seq<u32>,
    probe: Seq<u32>,
) -> bool {
    let count = build.len() - build0.len();
    let pairs = before.remaining();
    &&& 0 < count <= pairs.len()
    &&& build == build0 + build_rows(pairs.take(count))
    &&& probe == probe0 + probe_rows(pairs.take(count))
    &&& after.remaining() == pairs.skip(count)
    &&& count < pairs.len() ==> after.probe_row == (if pairs[count].1 == pairs[count - 1].1 {
        pairs[count].1 as int
    } else {
        pairs[count - 1].1 + 1
    })
}

proof fn lemma_chunk_grows(pairs: Seq<Pair>, done: int, count: int)
    requires
        0 <= done < count <= pairs.len(),
    ensures
        ({
            let rest = pairs.skip(done);
            let more = rest.take(count - done);
            &&& build_rows(pairs.take(count)) == build_rows(pairs.take(done)) + build_rows(more)
            &&& probe_rows(pairs.take(count)) == probe_rows(pairs.take(done)) + probe_rows(more)
            &&& rest.skip(count - done) == pairs.skip(count)
            &&& rest[count - done - 1] == pairs[count - 1]
            &&& count < pairs.len() ==> rest[count - done] == pairs[count]
        }),
{
    let rest = pairs.skip(done);
    let more = rest.take(count - done);
    assert(build_rows(pairs.take(count)) =~= build_rows(pairs.take(done)) + build_rows(more));
    assert(probe_rows(pairs.take(count)) =~= probe_rows(pairs.take(done)) + probe_rows(more));
    assert(rest.skip(count - done) =~= pairs.skip(count));
}

proof fn lemma_all_single(pairs: Seq<Pair>, done: int, count: int)
    requires
        0 <= done <= count <= pairs.len(),
        forall|i: int| done <= i < count ==> (#[trigger] pairs[i]).2,
    ensures
        single_matches(pairs.take(count)) == single_matches(pairs.take(done)),
{
    if single_matches(pairs.take(count)) {
        assert forall|i: int| 0 <= i < done implies (#[trigger] pairs.take(done)[i]).2 by {
            assert(pairs.take(count)[i].2);
        }
    }
    if single_matches(pairs.take(done)) {
        assert forall|i: int| 0 <= i < count implies (#[trigger] pairs.take(count)[i]).2 by {
            if i < done {
                assert(pairs.take(done)[i].2);
            } else {
                assert(pairs[i].2);
            }
        }
    }
}

/// Single matches are consecutive if and only if their rows span as many rows as
/// there are matches.
proof fn lemma_spread(pairs: Seq<Pair>)
    requires
        pairs.len() > 0,
        probe_major(pairs),
        single_matches(pairs),
    ensures
        pairs.last().1 >= pairs[0].1 + pairs.len() - 1,
        consecutive(pairs) <==> pairs[0].1 + pairs.len() == pairs.last().1 + 1,
    decreases pairs.len(),
{
    if pairs.len() > 1 {
        let shorter = pairs.drop_last();
        assert forall|i: int| 0 <= i < shorter.len() implies (#[trigger] shorter[i]).2 by {
            assert(pairs[i].2);
        }
        assert forall|i: int, j: int| 0 <= i < j < shorter.len() implies (#[trigger] shorter[i]).1
            <= (#[trigger] shorter[j]).1 && (shorter[i].2 ==> shorter[i].1 < shorter[j].1) by {
            assert(pairs[i].1 <= pairs[j].1 && (pairs[i].2 ==> pairs[i].1 < pairs[j].1));
        }
        lemma_spread(shorter);
        let n = pairs.len() as int;
        assert(pairs[n - 2].2);
        assert(pairs[n - 2].1 < pairs[n - 1].1);
        if pairs[0].1 + n == pairs.last().1 + 1 {
            assert(consecutive(shorter));
            assert forall|i: int| 0 <= i < n implies (#[trigger] pairs[i]).1 == pairs[0].1 + i by {
                if i < n - 1 {
                    assert(shorter[i].1 == shorter[0].1 + i);
                }
            }
        }
        if consecutive(pairs) {
            assert(pairs[n - 1].1 == pairs[0].1 + (n - 1));
        }
    }
}

/// The build rows paired with probe row `row`, in order.
pub open spec fn at_row(pairs: Seq<Pair>, row: int) -> Seq<u64>
    decreases pairs.len(),
{
    if pairs.len() == 0 {
        Seq::empty()
    } else if pairs.last().1 == row {
        at_row(pairs.drop_last(), row).push(pairs.last().0)
    } else {
        at_row(pairs.drop_last(), row)
    }
}

/// The build rows of matches `from..` that belong to run `run`, in order.
pub open spec fn run_matches(build: Seq<u64>, runs: Seq<u32>, run: int, from: int) -> Seq<u64>
    decreases runs.len() - from,
{
    if from >= runs.len() {
        Seq::empty()
    } else if runs[from] == run {
        seq![build[from]] + run_matches(build, runs, run, from + 1)
    } else {
        run_matches(build, runs, run, from + 1)
    }
}

proof fn lemma_at_row_joined(left: Seq<Pair>, right: Seq<Pair>, row: int)
    ensures
        at_row(left + right, row) == at_row(left, row) + at_row(right, row),
    decreases right.len(),
{
    if right.len() == 0 {
        assert(left + right =~= left);
        assert(at_row(left, row) + at_row(right, row) =~= at_row(left, row));
    } else {
        lemma_at_row_joined(left, right.drop_last(), row);
        assert((left + right).drop_last() =~= left + right.drop_last());
        assert((left + right).last() == right.last());
        assert(at_row(left + right, row) =~= at_row(left, row) + at_row(right, row));
    }
}

proof fn lemma_at_other_row(pairs: Seq<Pair>, low: int, high: int, row: int)
    requires
        rows_within(pairs, low, high),
        row < low || high <= row,
    ensures
        at_row(pairs, row) == Seq::<u64>::empty(),
    decreases pairs.len(),
{
    if pairs.len() > 0 {
        assert(pairs.last() == pairs[pairs.len() - 1]);
        assert forall|i: int| 0 <= i < pairs.drop_last().len() implies low <= (
        #[trigger] pairs.drop_last()[i]).1 < high by {
            assert(pairs[i].1 < high);
        }
        lemma_at_other_row(pairs.drop_last(), low, high, row);
    }
}

proof fn lemma_at_own_row(pairs: Seq<Pair>, row: int)
    requires
        rows_within(pairs, row, row + 1),
    ensures
        at_row(pairs, row) == build_rows(pairs),
    decreases pairs.len(),
{
    if pairs.len() > 0 {
        assert(pairs.last() == pairs[pairs.len() - 1]);
        assert forall|i: int| 0 <= i < pairs.drop_last().len() implies row <= (
        #[trigger] pairs.drop_last()[i]).1 < row + 1 by {
            assert(pairs[i].1 < row + 1);
        }
        lemma_at_own_row(pairs.drop_last(), row);
        assert(build_rows(pairs) =~= build_rows(pairs.drop_last()).push(pairs.last().0));
    } else {
        assert(build_rows(pairs) =~= Seq::empty());
    }
}

proof fn lemma_span_at_row(
    build: Seq<u64>,
    start: int,
    end: int,
    first: int,
    row_end: int,
    row: int,
)
    requires
        0 <= start < end <= build.len(),
        0 <= first <= row < row_end <= u32::MAX,
    ensures
        at_row(span_pairs(build, start, end, first, row_end), row) == build.subrange(start, end),
    decreases row_end - first,
{
    let head = row_pairs(build, start, start, end, first);
    let rest = span_pairs(build, start, end, first + 1, row_end);
    lemma_at_row_joined(head, rest, row);
    lemma_span_pairs(build, start, end, first + 1, row_end);
    if first == row {
        lemma_at_own_row(head, row);
        lemma_at_other_row(rest, first + 1, row_end, row);
        assert(build_rows(head) =~= build.subrange(start, end));
        assert(build.subrange(start, end) + Seq::<u64>::empty() =~= build.subrange(start, end));
    } else {
        lemma_at_other_row(head, first, first + 1, row);
        lemma_span_at_row(build, start, end, first + 1, row_end, row);
        assert(Seq::<u64>::empty() + build.subrange(start, end) =~= build.subrange(start, end));
    }
}

proof fn lemma_group_matches(build: Seq<u64>, runs: Seq<u32>, run: int, from: int, end: int)
    requires
        0 <= from <= end <= runs.len(),
        build.len() == runs.len(),
        forall|m: int| from <= m < end ==> runs[m] == runs[from],
    ensures
        run_matches(build, runs, run, from) == (if from < end && runs[from] == run {
            build.subrange(from, end)
        } else {
            Seq::empty()
        }) + run_matches(build, runs, run, end),
    decreases end - from,
{
    if from < end {
        if from + 1 < end {
            assert(runs[from + 1] == runs[from]);
        }
        lemma_group_matches(build, runs, run, from + 1, end);
        assert(run_matches(build, runs, run, from) =~= (if runs[from] == run {
            build.subrange(from, end)
        } else {
            Seq::empty()
        }) + run_matches(build, runs, run, end));
    } else {
        assert(run_matches(build, runs, run, from) =~= Seq::<u64>::empty() + run_matches(
            build,
            runs,
            run,
            end,
        ));
    }
}

proof fn lemma_pairs_at_row(
    starts: Seq<u32>,
    build: Seq<u64>,
    runs: Seq<u32>,
    start: int,
    run: int,
    row: int,
)
    requires
        matches_wf(starts, build, runs),
        0 <= start <= runs.len(),
        0 <= run < starts.len() - 1,
        starts[run] <= row < starts[run + 1],
    ensures
        at_row(pairs_from(starts, build, runs, start), row) == run_matches(
            build,
            runs,
            run,
            start,
        ),
    decreases runs.len() - start,
{
    if start < runs.len() {
        lemma_group_end(runs, start, start);
        let end = group_end(runs, start);
        let here = runs[start] as int;
        let first = starts[here] as int;
        let row_end = starts[here + 1] as int;
        let span = span_pairs(build, start, end, first, row_end);
        let rest = pairs_from(starts, build, runs, end);
        lemma_at_row_joined(span, rest, row);
        lemma_pairs_at_row(starts, build, runs, end, run, row);
        lemma_group_matches(build, runs, run, start, end);
        lemma_span_pairs(build, start, end, first, row_end);
        if here == run {
            lemma_span_at_row(build, start, end, first, row_end, row);
        } else {
            if here < run {
                if here + 1 < run {
                    assert(starts[here + 1] < starts[run]);
                }
            } else if run + 1 < here {
                assert(starts[run + 1] < starts[here]);
            }
            lemma_at_other_row(span, first, row_end, row);
        }
    }
}

/// Pairs come in probe-row order, and only rows of the batch are paired.
pub proof fn law_expansion_is_probe_major(starts: Seq<u32>, build: Seq<u64>, runs: Seq<u32>)
    requires
        matches_wf(starts, build, runs),
    ensures
        probe_major(pairs_from(starts, build, runs, 0)),
        rows_within(pairs_from(starts, build, runs, 0), 0, starts.last() as int),
{
    lemma_pairs_from(starts, build, runs, 0);
}

/// Each probe row is paired with the matches of its run, in their order.
pub proof fn law_rows_get_the_matches_of_their_run(
    starts: Seq<u32>,
    build: Seq<u64>,
    runs: Seq<u32>,
    run: int,
    row: int,
)
    requires
        matches_wf(starts, build, runs),
        0 <= run < starts.len() - 1,
        starts[run] <= row < starts[run + 1],
    ensures
        at_row(pairs_from(starts, build, runs, 0), row) == run_matches(build, runs, run, 0),
{
    lemma_pairs_at_row(starts, build, runs, 0, run, row);
}

/// The run of a row.
proof fn lemma_row_in_run(starts: Seq<u32>, row: int, runs: int) -> (run: int)
    requires
        1 <= runs < starts.len(),
        starts[0] <= row < starts[runs],
    ensures
        0 <= run < runs,
        starts[run] <= row < starts[run + 1],
    decreases runs,
{
    if runs == 1 || starts[runs - 1] <= row {
        runs - 1
    } else {
        lemma_row_in_run(starts, row, runs - 1)
    }
}

/// Looking up one key for each run pairs every probe row as looking up every
/// row's key would: where the matches of each run are those of its first key, the
/// pairs of a row are the matches of the row's own key.
pub proof fn law_expansion_is_probing_every_row(
    columns: Seq<KeyColumn>,
    rows: int,
    build: Seq<u64>,
    runs: Seq<u32>,
    matches_of: spec_fn(Seq<Option<Seq<u8>>>) -> Seq<u64>,
    row: int,
)
    requires
        1 <= rows <= u32::MAX,
        matches_wf(run_starts(columns, rows), build, runs),
        forall|run: int|
            0 <= run < run_total(columns, rows) ==> #[trigger] run_matches(build, runs, run, 0)
                == matches_of(key_at(columns, run_starts(columns, rows)[run] as int)),
        0 <= row < rows,
    ensures
        at_row(pairs_from(run_starts(columns, rows), build, runs, 0), row) == matches_of(
            key_at(columns, row),
        ),
{
    let starts = run_starts(columns, rows);
    law_runs_share_keys(columns, rows);
    let run = lemma_row_in_run(starts, row, starts.len() - 1);
    law_rows_get_the_matches_of_their_run(starts, build, runs, run, row);
    assert(key_at(columns, row) == key_at(columns, starts[run] as int));
}

/// The pairs that repeated chunks of at most `limit` give, one after the other.
pub open spec fn drained(pairs: Seq<Pair>, limit: usize) -> Seq<Pair>
    decreases pairs.len(),
{
    if limit == 0 || pairs.len() == 0 {
        Seq::empty()
    } else {
        pairs.take(chunk_len(pairs, limit)) + drained(pairs.skip(chunk_len(pairs, limit)), limit)
    }
}

/// Chunks of any positive size give all pairs, in the same order.
pub proof fn law_chunks_give_all_pairs(pairs: Seq<Pair>, limit: usize)
    requires
        limit > 0,
    ensures
        drained(pairs, limit) == pairs,
    decreases pairs.len(),
{
    if pairs.len() > 0 {
        let count = chunk_len(pairs, limit);
        law_chunks_give_all_pairs(pairs.skip(count), limit);
        assert(pairs.take(count) + pairs.skip(count) =~= pairs);
    }
}

/// The pairs that are left after one chunk for each of the limits.
pub open spec fn left_after(pairs: Seq<Pair>, limits: Seq<usize>) -> Seq<Pair>
    decreases limits.len(),
{
    if limits.len() == 0 {
        pairs
    } else {
        let left = left_after(pairs, limits.drop_last());
        left.skip(chunk_len(left, limits.last()))
    }
}

/// The pairs that one chunk for each of the limits gives, one after the other.
pub open spec fn given_by(pairs: Seq<Pair>, limits: Seq<usize>) -> Seq<Pair>
    decreases limits.len(),
{
    if limits.len() == 0 {
        Seq::empty()
    } else {
        let left = left_after(pairs, limits.drop_last());
        given_by(pairs, limits.drop_last()) + left.take(chunk_len(left, limits.last()))
    }
}

/// Whatever the limits of the chunks are, they give the pairs in their order, none
/// twice and none left out before what is left.
pub proof fn law_chunks_split_the_pairs(pairs: Seq<Pair>, limits: Seq<usize>)
    ensures
        given_by(pairs, limits) + left_after(pairs, limits) == pairs,
    decreases limits.len(),
{
    if limits.len() == 0 {
        assert(Seq::<Pair>::empty() + pairs =~= pairs);
    } else {
        let left = left_after(pairs, limits.drop_last());
        law_chunks_split_the_pairs(pairs, limits.drop_last());
        let count = chunk_len(left, limits.last());
        assert(given_by(pairs, limits) + left_after(pairs, limits) =~= given_by(
            pairs,
            limits.drop_last(),
        ) + left);
    }
}

/// Chunks that leave nothing, whatever their limits, pair each probe row with the
/// matches of its key, each once and in their order, and no other rows.
pub proof fn law_chunks_give_every_match_once(
    columns: Seq<KeyColumn>,
    rows: int,
    build: Seq<u64>,
    runs: Seq<u32>,
    matches_of: spec_fn(Seq<Option<Seq<u8>>>) -> Seq<u64>,
    limits: Seq<usize>,
    row: int,
)
    requires
        1 <= rows <= u32::MAX,
        matches_wf(run_starts(columns, rows), build, runs),
        forall|run: int|
            0 <= run < run_total(columns, rows) ==> #[trigger] run_matches(build, runs, run, 0)
                == matches_of(key_at(columns, run_starts(columns, rows)[run] as int)),
        0 <= row < rows,
        left_after(pairs_from(run_starts(columns, rows), build, runs, 0), limits).len() == 0,
    ensures
        ({
            let given = given_by(pairs_from(run_starts(columns, rows), build, runs, 0), limits);
            &&& at_row(given, row) == matches_of(key_at(columns, row))
            &&& rows_within(given, 0, rows)
        }),
{
    let starts = run_starts(columns, rows);
    let pairs = pairs_from(starts, build, runs, 0);
    law_chunks_split_the_pairs(pairs, limits);
    assert(given_by(pairs, limits) =~= pairs);
    law_expansion_is_probing_every_row(columns, rows, build, runs, matches_of, row);
    law_expansion_is_probe_major(starts, build, runs);
    assert(starts.last() == rows);
}

/// What a column of keys has in a row: the value of the array there, or the bytes of a slot
/// that is valid.
pub open spec fn key_part(column: KeyColumn, row: int) -> Option<Seq<u8>> {
    match column {
        KeyColumn::Plain(array) => arrays::array_rows(array)[row],
        KeyColumn::FixedSizeBinary(array) => if arrays::binary_slots(array)[row].0 {
            Some(arrays::binary_slots(array)[row].1)
        } else {
            None
        },
    }
}

/// The keys of two rows are equal: in every column both rows have the same bytes, or both
/// are null.
pub open spec fn keys_equal(columns: Seq<KeyColumn>, left: int, right: int) -> bool {
    forall|c: int|
        0 <= c < columns.len() ==> key_part(#[trigger] columns[c], left) == key_part(
            columns[c],
            right,
        )
}

/// Every column has at least as many keys as there are rows.
pub open spec fn have_rows(columns: Seq<KeyColumn>, rows: int) -> bool {
    forall|c: int|
        0 <= c < columns.len() ==> match #[trigger] columns[c] {
            KeyColumn::Plain(array) => arrays::array_rows(array).len() >= rows,
            KeyColumn::FixedSizeBinary(array) => arrays::binary_slots(array).len() >= rows,
        }
}

proof fn lemma_keys_equal(columns: Seq<KeyColumn>, rows: int, left: int, right: int)
    requires
        have_rows(columns, rows),
        0 <= left < rows,
        0 <= right < rows,
    ensures
        key_at(columns, left) == key_at(columns, right) <==> keys_equal(columns, left, right),
{
    assert forall|c: int| 0 <= c < columns.len() implies key_at(columns, left)[c] == key_part(
        #[trigger] columns[c],
        left,
    ) && key_at(columns, right)[c] == key_part(columns[c], right) by {}
    if key_at(columns, left) == key_at(columns, right) {
        assert forall|c: int| 0 <= c < columns.len() implies key_part(#[trigger] columns[c], left)
            == key_part(columns[c], right) by {
            assert(key_at(columns, left)[c] == key_at(columns, right)[c]);
        }
    }
    if keys_equal(columns, left, right) {
        assert forall|c: int| 0 <= c < columns.len() implies key_at(columns, left)[c] == key_at(
            columns,
            right,
        )[c] by {
            assert(key_part(columns[c], left) == key_part(columns[c], right));
        }
        assert(key_at(columns, left) =~= key_at(columns, right));
    }
}

/// A run is of rows that have the same bytes in every column, or nulls, and ends where a row
/// has other bytes than the next in one of them: no rows with different keys share a run,
/// and no two neighbouring runs have the same key. The runs make up all rows.
pub proof fn law_runs_are_of_equal_keys(columns: Seq<KeyColumn>, rows: int)
    requires
        1 <= rows <= u32::MAX,
        have_rows(columns, rows),
    ensures
        ({
            let starts = run_starts(columns, rows);
            &&& starts.len() >= 2
            &&& starts[0] == 0
            &&& starts.last() == rows
            &&& forall|j: int, k: int| 0 <= j < k < starts.len() ==> starts[j] < starts[k]
            &&& forall|k: int, row: int|
                0 <= k < starts.len() - 1 && starts[k] <= row < starts[k + 1]
                    ==> #[trigger] keys_equal(columns, row, starts[k] as int)
            &&& forall|k: int|
                1 <= k < starts.len() - 1 ==> !keys_equal(
                    columns,
                    #[trigger] starts[k] - 1,
                    starts[k] as int,
                )
        }),
{
    let starts = run_starts(columns, rows);
    law_runs_share_keys(columns, rows);
    arrays::lemma_set_positions(boundaries(columns, rows));
    assert(starts.last() == starts[starts.len() - 1]);
    assert forall|k: int| 0 <= k < starts.len() - 1 implies #[trigger] starts[k] < rows by {
        assert(starts[k] < starts[starts.len() - 1]);
    }
    assert forall|k: int, row: int|
        0 <= k < starts.len() - 1 && starts[k] <= row < starts[k + 1] implies #[trigger] keys_equal(
        columns,
        row,
        starts[k] as int,
    ) by {
        assert(starts[k] < rows);
        if k + 1 < starts.len() - 1 {
            assert(starts[k + 1] < rows);
        }
        assert(key_at(columns, row) == key_at(columns, starts[k] as int));
        lemma_keys_equal(columns, rows, row, starts[k] as int);
    }
    assert forall|k: int| 1 <= k < starts.len() - 1 implies !keys_equal(
        columns,
        #[trigger] starts[k] - 1,
        starts[k] as int,
    ) by {
        assert(starts[0] < starts[k]);
        assert(key_at(columns, starts[k] - 1) != key_at(columns, starts[k] as int));
        lemma_keys_equal(columns, rows, starts[k] - 1, starts[k] as int);
    }
}

/// The rows whose key differs from the next row's.
pub open spec fn changing_rows(columns: Seq<KeyColumn>, rows: int) -> Set<int> {
    Set::new(|row: int| 0 <= row < rows - 1 && !keys_equal(columns, row, row + 1))
}

/// The runs are one more than the rows whose key differs from the next.
pub proof fn law_runs_are_counted_by_their_changes(columns: Seq<KeyColumn>, rows: int)
    requires
        1 <= rows <= u32::MAX,
        have_rows(columns, rows),
    ensures
        changing_rows(columns, rows).finite(),
        run_total(columns, rows) == changing_rows(columns, rows).len() + 1,
        run_starts(columns, rows).len() == run_total(columns, rows) + 1,
{
    let bits = boundaries(columns, rows);
    let positions = arrays::set_positions(bits);
    arrays::lemma_set_positions(bits);
    assert(positions.no_duplicates()) by {
        assert forall|i: int, j: int| 0 <= i < j < positions.len() implies positions[i]
            != positions[j] by {
            assert(positions[i] < positions[j]);
        }
    }
    assert forall|row: int| positions.to_set().contains(row) <==> changing_rows(
        columns,
        rows,
    ).contains(row) by {
        if 0 <= row < rows - 1 {
            lemma_keys_equal(columns, rows, row, row + 1);
            if bits[row] {
                assert(positions.contains(row));
            }
        }
        if positions.contains(row) {
            let k = choose|k: int| 0 <= k < positions.len() && positions[k] == row;
            assert(bits[positions[k]]);
        }
    }
    assert(positions.to_set() =~= changing_rows(columns, rows));
    positions.unique_seq_to_set();
}

/// The types whose keys are not looked for in runs.
pub open spec fn is_left_out(column: KeyColumn) -> bool {
    match column {
        KeyColumn::FixedSizeBinary(_) => false,
        KeyColumn::Plain(array) => match arrays::kind_of(array) {
            ArrayKind::Float32 | ArrayKind::Float64 | ArrayKind::Date32 | ArrayKind::Other => true,
            _ => false,
        },
    }
}

/// Keys are left to ordinary probing where there are no columns, fewer than two rows or more
/// than 32 bits number, or a column of a type that is left out; where the first 64 rows of
/// more have over 32 runs; and where all rows have runs for more than half of them or more
/// than a batch holds. Elsewhere they are not.
pub proof fn law_few_runs_are_looked_up(columns: Seq<KeyColumn>, rows: int, batch_size: int)
    requires
        columns.len() > 0 ==> rows == columns[0].rows().len() && have_rows(columns, rows),
    ensures
        columns.len() == 0 ==> declined(columns, batch_size),
        columns.len() > 0 && (rows < 2 || rows > u32::MAX) ==> declined(columns, batch_size),
        columns.len() > 0 && 2 <= rows <= u32::MAX ==> (declined(columns, batch_size) <==> {
            ||| exists|c: int| 0 <= c < columns.len() && is_left_out(#[trigger] columns[c])
            ||| rows > 64 && changing_rows(columns, 64).len() + 1 > 32
            ||| changing_rows(columns, rows).len() + 1 > rows / 2
            ||| changing_rows(columns, rows).len() + 1 > batch_size
        }),
{
    if columns.len() > 0 && 2 <= rows <= u32::MAX {
        law_runs_are_counted_by_their_changes(columns, rows);
        if rows > 64 {
            assert(have_rows(columns, 64)) by {
                assert forall|c: int| 0 <= c < columns.len() implies match #[trigger] columns[c] {
                    KeyColumn::Plain(array) => arrays::array_rows(array).len() >= 64,
                    KeyColumn::FixedSizeBinary(array) => arrays::binary_slots(array).len() >= 64,
                } by {}
            }
            law_runs_are_counted_by_their_changes(columns, 64);
        }
        assert forall|c: int| 0 <= c < columns.len() implies columns[c].supported() == !is_left_out(
            #[trigger] columns[c],
        ) by {}
        if exists|c: int| 0 <= c < columns.len() && is_left_out(#[trigger] columns[c]) {
            let c = choose|c: int| 0 <= c < columns.len() && is_left_out(#[trigger] columns[c]);
            assert(!columns[c].supported());
        }
        if exists|c: int| 0 <= c < columns.len() && !(#[trigger] columns[c]).supported() {
            let c = choose|c: int| 0 <= c < columns.len() && !(#[trigger] columns[c]).supported();
            assert(is_left_out(columns[c]));
        }
    }
}

/// What is looked up for a run is the key of its first row, column by column and in full,
/// in an array of the column's type.
pub proof fn law_runs_are_looked_up_by_their_first_key(
    columns: Seq<KeyColumn>,
    plan: RunPlan,
    c: int,
    run: int,
)
    requires
        columns.len() > 0,
        1 <= columns[0].rows().len() <= u32::MAX,
        have_rows(columns, columns[0].rows().len() as int),
        plan.describes(columns),
        0 <= c < columns.len(),
        0 <= run < plan.starts@.len() - 1,
    ensures
        plan.representatives@.len() == columns.len(),
        arrays::array_rows(plan.representatives@[c]).len() == plan.starts@.len() - 1,
        arrays::array_rows(plan.representatives@[c])[run] == key_part(
            columns[c],
            plan.starts@[run] as int,
        ),
        columns[c] matches KeyColumn::Plain(array) ==> arrays::kind_of(plan.representatives@[c])
            == arrays::kind_of(array) && arrays::compared_type(plan.representatives@[c])
            == arrays::compared_type(array),
{
    let rows = columns[0].rows().len() as int;
    law_runs_share_keys(columns, rows);
    assert(represents(plan.representatives@[c], columns[c], plan.starts@.drop_last()));
    assert(plan.starts@[run] < plan.starts@[plan.starts@.len() - 1]);
    assert(have_rows(columns, rows));
    match columns[c] {
        KeyColumn::Plain(array) => {},
        KeyColumn::FixedSizeBinary(array) => {},
    }
}

/// The build rows that are paired with a probe row, in the order of the pairs.
pub open spec fn paired_with(pairs: Seq<Pair>, row: int) -> Seq<u64> {
    pairs.filter(|pair: Pair| pair.1 == row).map_values(|pair: Pair| pair.0)
}

/// Matches with their runs.
pub open spec fn with_runs(build: Seq<u64>, runs: Seq<u32>) -> Seq<(u64, u32)> {
    Seq::new(runs.len(), |m: int| (build[m], runs[m]))
}

/// Whether a match is of the run.
pub open spec fn in_run(run: int) -> spec_fn((u64, u32)) -> bool {
    |one: (u64, u32)| one.1 == run
}

/// The build rows of the matches of a run, in the order of the matches.
pub open spec fn of_run(found: Seq<(u64, u32)>, run: int) -> Seq<u64> {
    found.filter(in_run(run)).map_values(|one: (u64, u32)| one.0)
}

proof fn lemma_paired_with(pairs: Seq<Pair>, row: int)
    ensures
        paired_with(pairs, row) == at_row(pairs, row),
    decreases pairs.len(),
{
    reveal(Seq::filter);
    let own = |pair: Pair| pair.1 == row;
    let first = |pair: Pair| pair.0;
    if pairs.len() > 0 {
        let fewer = pairs.drop_last();
        lemma_paired_with(fewer, row);
        if pairs.last().1 == row {
            assert(fewer.filter(own).push(pairs.last()).map_values(first) =~= fewer.filter(
                own,
            ).map_values(first).push(pairs.last().0));
        }
        assert(paired_with(pairs, row) =~= at_row(pairs, row));
    } else {
        assert(paired_with(pairs, row) =~= at_row(pairs, row));
    }
}

proof fn lemma_matched_by(build: Seq<u64>, runs: Seq<u32>, run: int, from: int)
    requires
        0 <= from <= runs.len(),
    ensures
        of_run(with_runs(build, runs).skip(from), run) == run_matches(build, runs, run, from),
    decreases runs.len() - from,
{
    reveal(Seq::filter);
    let own = in_run(run);
    let first = |one: (u64, u32)| one.0;
    let all = with_runs(build, runs);
    if from < runs.len() {
        lemma_matched_by(build, runs, run, from + 1);
        let head = seq![all[from]];
        let rest = all.skip(from + 1);
        assert(all.skip(from) =~= head + rest);
        Seq::filter_distributes_over_add(head, rest, own);
        assert(head.drop_last() =~= Seq::empty());
        assert(head.drop_last().filter(own) =~= Seq::empty());
        if runs[from] == run {
            assert(head.filter(own) =~= head);
            assert((head + rest.filter(own)).map_values(first) =~= seq![build[from]]
                + rest.filter(own).map_values(first));
        } else {
            assert(head.filter(own) =~= Seq::empty());
            assert((Seq::<(u64, u32)>::empty() + rest.filter(own)).map_values(first)
                =~= rest.filter(own).map_values(first));
        }
    } else {
        assert(all.skip(from) =~= Seq::empty());
        assert(all.skip(from).filter(own).map_values(first) =~= Seq::<u64>::empty());
    }
}

/// Each probe row of a run is paired with all matches of the run, each once and in the order
/// in which the lookup gave them, and with no others. Pairs go through the probe rows from
/// the first to the last.
pub proof fn law_each_row_is_paired_with_the_matches_of_its_run(
    starts: Seq<u32>,
    build: Seq<u64>,
    runs: Seq<u32>,
    run: int,
    row: int,
)
    requires
        matches_wf(starts, build, runs),
        0 <= run < starts.len() - 1,
        starts[run] <= row < starts[run + 1],
    ensures
        paired_with(pairs_from(starts, build, runs, 0), row) == of_run(with_runs(build, runs), run),
        forall|i: int, j: int|
            0 <= i < j < pairs_from(starts, build, runs, 0).len() ==> (#[trigger] pairs_from(
                starts,
                build,
                runs,
                0,
            )[i]).1 <= (#[trigger] pairs_from(starts, build, runs, 0)[j]).1,
{
    law_rows_get_the_matches_of_their_run(starts, build, runs, run, row);
    law_expansion_is_probe_major(starts, build, runs);
    lemma_paired_with(pairs_from(starts, build, runs, 0), row);
    lemma_matched_by(build, runs, run, 0);
    assert(with_runs(build, runs).skip(0) =~= with_runs(build, runs));
}

/// Only rows of the batch are paired.
pub proof fn law_rows_outside_the_batch_are_not_paired(
    starts: Seq<u32>,
    build: Seq<u64>,
    runs: Seq<u32>,
    i: int,
)
    requires
        matches_wf(starts, build, runs),
        0 <= i < pairs_from(starts, build, runs, 0).len(),
    ensures
        0 <= pairs_from(starts, build, runs, 0)[i].1 < starts.last(),
{
    law_expansion_is_probe_major(starts, build, runs);
}

proof fn lemma_flags(starts: Seq<u32>, build: Seq<u64>, runs: Seq<u32>, start: int, i: int)
    requires
        matches_wf(starts, build, runs),
        0 <= start <= runs.len(),
        0 <= i < pairs_from(starts, build, runs, start).len(),
    ensures
        pairs_from(starts, build, runs, start)[i].2 <==> at_row(
            pairs_from(starts, build, runs, start),
            pairs_from(starts, build, runs, start)[i].1 as int,
        ).len() == 1,
    decreases runs.len() - start,
{
    if start < runs.len() {
        lemma_group_end(runs, start, start);
        let end = group_end(runs, start);
        let here = runs[start] as int;
        let first = starts[here] as int;
        let row_end = starts[here + 1] as int;
        let span = span_pairs(build, start, end, first, row_end);
        let rest = pairs_from(starts, build, runs, end);
        let all = pairs_from(starts, build, runs, start);
        let row = all[i].1 as int;
        lemma_at_row_joined(span, rest, row);
        lemma_span_pairs(build, start, end, first, row_end);
        lemma_pairs_from(starts, build, runs, end);
        lemma_after_group(starts, build, runs, start);
        if i < span.len() {
            assert(all[i] == span[i]);
            lemma_span_flag(build, start, end, first, row_end, i);
            lemma_span_at_row(build, start, end, first, row_end, row);
            lemma_at_other_row(
                rest,
                start_of(starts, runs, end),
                starts.last() as int,
                row,
            );
        } else {
            assert(all[i] == rest[i - span.len()]);
            lemma_flags(starts, build, runs, end, i - span.len());
            lemma_at_other_row(span, first, row_end, row);
            assert(at_row(all, row) =~= at_row(rest, row));
        }
    }
}

proof fn lemma_span_flag(build: Seq<u64>, start: int, end: int, row: int, row_end: int, i: int)
    requires
        start < end,
        0 <= i < span_pairs(build, start, end, row, row_end).len(),
    ensures
        span_pairs(build, start, end, row, row_end)[i].2 == (end - start == 1),
    decreases row_end - row,
{
    if row < row_end {
        let head = row_pairs(build, start, start, end, row);
        if i >= head.len() {
            lemma_span_flag(build, start, end, row + 1, row_end, i - head.len());
        }
    }
}

/// A pair is marked as the only one of its probe row exactly where it is.
pub proof fn law_marked_pairs_are_the_only_ones(
    starts: Seq<u32>,
    build: Seq<u64>,
    runs: Seq<u32>,
    i: int,
)
    requires
        matches_wf(starts, build, runs),
        0 <= i < pairs_from(starts, build, runs, 0).len(),
    ensures
        pairs_from(starts, build, runs, 0)[i].2 <==> paired_with(
            pairs_from(starts, build, runs, 0),
            pairs_from(starts, build, runs, 0)[i].1 as int,
        ).len() == 1,
{
    let pairs = pairs_from(starts, build, runs, 0);
    lemma_flags(starts, build, runs, 0, i);
    lemma_paired_with(pairs, pairs[i].1 as int);
}

/// A chunk has as many pairs as are asked for, or all that are left where those are fewer;
/// its two lists have the build row and the probe row of each pair, and it is given as a
/// range only where each probe row has one match and follows the one before.
pub proof fn law_chunks_hold_the_next_pairs(pairs: Seq<Pair>, limit: usize, i: int)
    ensures
        chunk_len(pairs, limit) <= limit,
        chunk_len(pairs, limit) <= pairs.len(),
        chunk_len(pairs, limit) == limit || chunk_len(pairs, limit) == pairs.len(),
        build_rows(pairs).len() == pairs.len(),
        probe_rows(pairs).len() == pairs.len(),
        0 <= i < pairs.len() ==> build_rows(pairs)[i] == pairs[i].0 && probe_rows(pairs)[i]
            == pairs[i].1,
        single_matches(pairs) && 0 <= i < pairs.len() ==> pairs[i].2,
        !single_matches(pairs) ==> exists|k: int| 0 <= k < pairs.len() && !(#[trigger] pairs[k]).2,
        consecutive(pairs) && 0 <= i < pairs.len() ==> pairs[i].1 == pairs[0].1 + i,
        !consecutive(pairs) ==> exists|k: int|
            0 <= k < pairs.len() && (#[trigger] pairs[k]).1 != pairs[0].1 + k,
{
}

/// Looking up the first key of each run pairs every probe row with the matches of its own
/// key: rows with equal bytes in all columns get the same build rows.
pub proof fn law_equal_keys_get_equal_matches(
    columns: Seq<KeyColumn>,
    rows: int,
    build: Seq<u64>,
    runs: Seq<u32>,
    left: int,
    right: int,
)
    requires
        1 <= rows <= u32::MAX,
        have_rows(columns, rows),
        matches_wf(run_starts(columns, rows), build, runs),
        0 <= left <= right < rows,
        forall|row: int| left <= row < right ==> #[trigger] keys_equal(columns, row, row + 1),
    ensures
        paired_with(pairs_from(run_starts(columns, rows), build, runs, 0), left) == paired_with(
            pairs_from(run_starts(columns, rows), build, runs, 0),
            right,
        ),
    decreases right - left,
{
    let starts = run_starts(columns, rows);
    if left < right {
        law_equal_keys_get_equal_matches(columns, rows, build, runs, left, right - 1);
        law_runs_are_of_equal_keys(columns, rows);
        law_runs_share_keys(columns, rows);
        let run = lemma_row_in_run(starts, right - 1, starts.len() - 1);
        assert(keys_equal(columns, right - 1, right - 1 + 1));
        assert(right < starts[run + 1]) by {
            if right >= starts[run + 1] {
                assert(right == starts[run + 1]);
                if run + 1 < starts.len() - 1 {
                    assert(!keys_equal(columns, starts[run + 1] - 1, starts[run + 1] as int));
                }
            }
        }
        law_each_row_is_paired_with_the_matches_of_its_run(starts, build, runs, run, right - 1);
        law_each_row_is_paired_with_the_matches_of_its_run(starts, build, runs, run, right);
    }
}

proof fn lemma_listed_for(pairs: Seq<Pair>, row: int)
    ensures
        of_run(with_runs(build_rows(pairs), probe_rows(pairs)), row) == paired_with(pairs, row),
    decreases pairs.len(),
{
    reveal(Seq::filter);
    let own = |pair: Pair| pair.1 == row;
    let first = |pair: Pair| pair.0;
    let head = |one: (u64, u32)| one.0;
    let listed = with_runs(build_rows(pairs), probe_rows(pairs));
    if pairs.len() > 0 {
        let fewer = pairs.drop_last();
        let listed_fewer = with_runs(build_rows(fewer), probe_rows(fewer));
        lemma_listed_for(fewer, row);
        assert(listed.drop_last() =~= listed_fewer);
        if pairs.last().1 == row {
            assert(fewer.filter(own).push(pairs.last()).map_values(first) =~= fewer.filter(
                own,
            ).map_values(first).push(pairs.last().0));
            assert(listed_fewer.filter(in_run(row)).push(listed.last()).map_values(head)
                =~= listed_fewer.filter(in_run(row)).map_values(head).push(listed.last().0));
        }
        assert(of_run(listed, row) =~= paired_with(pairs, row));
    } else {
        assert(of_run(listed, row) =~= paired_with(pairs, row));
    }
}

/// What chunks give, whatever their limits, is the matches of each probe row's run: put
/// together, their lists have for a row the build rows that the lookup found for the run of
/// the row, each once and in their order. Probe rows go from the first to the last, and a
/// chunk says where it goes on exactly while something is left.
pub proof fn law_chunks_list_the_matches_of_each_row(
    starts: Vec<u32>,
    matches: JoinMatches,
    made: Option<ProbeRuns>,
    first: &mut ProbeRuns,
    limit: usize,
    chunk: (
        Vec<u64>,
        Vec<u32>,
        Option<(usize, Option<u64>)>,
        Option<std::ops::Range<usize>>,
    ),
    second: &mut ProbeRuns,
    rest_limit: usize,
    rest: (
        Vec<u64>,
        Vec<u32>,
        Option<(usize, Option<u64>)>,
        Option<std::ops::Range<usize>>,
    ),
    run: int,
    row: int,
)
    requires
        starts@.len() >= 1,
        forall|j: int, k: int| 0 <= j < k < starts@.len() ==> starts@[j] < starts@[k],
        matches.next_offset is None ==> matches.listed_by_run(starts@.len() - 1),
        call_ensures(ProbeRuns::from_matches, (starts, matches), made),
        made matches Some(runs) ==> *old(first) == runs,
        made is Some ==> call_ensures(ProbeRuns::next_indices, (first, limit), chunk),
        made is Some ==> *old(second) == *final(first),
        made is Some ==> call_ensures(ProbeRuns::next_indices, (second, rest_limit), rest),
        made is Some ==> rest.2 is None,
        0 <= run < starts@.len() - 1,
        starts@[run] <= row < starts@[run + 1],
    ensures
        made is Some <==> matches.next_offset is None,
        made is Some ==> {
            let build = chunk.0@ + rest.0@;
            let probe = chunk.1@ + rest.1@;
            &&& chunk.0@.len() == chunk.1@.len() && rest.0@.len() == rest.1@.len()
            &&& chunk.0@.len() <= limit
            &&& chunk.0@.len() == limit || rest.0@.len() == 0
            &&& chunk.2 is Some <==> rest.0@.len() > 0
            &&& chunk.2 matches Some((at, offset)) ==> offset is None && (chunk.1@.len() == 0
                ==> at == 0) && (chunk.1@.len() > 0 ==> at == if rest.1@[0] == chunk.1@.last() {
                rest.1@[0] as int
            } else {
                chunk.1@.last() + 1
            })
            &&& of_run(with_runs(build, probe), row) == of_run(
                with_runs(matches.build_indices@, matches.run_indices@),
                run,
            )
            &&& forall|i: int, j: int| 0 <= i < j < probe.len() ==> probe[i] <= probe[j]
            &&& forall|i: int| 0 <= i < probe.len() ==> probe[i] < starts@.last()
        },
{
    if let Some(runs) = made {
        let all = pairs_from(starts@, matches.build_indices@, matches.run_indices@, 0);
        let count = chunk_len(all, limit);
        let left = all.skip(count);
        let more = chunk_len(left, rest_limit);
        assert(more == left.len());
        assert(left.take(more) =~= left);
        assert(build_rows(all.take(count)) + build_rows(left) =~= build_rows(all));
        assert(probe_rows(all.take(count)) + probe_rows(left) =~= probe_rows(all));
        assert(matches_wf(starts@, matches.build_indices@, matches.run_indices@));
        lemma_listed_for(all, row);
        law_each_row_is_paired_with_the_matches_of_its_run(
            starts@,
            matches.build_indices@,
            matches.run_indices@,
            run,
            row,
        );
        let probe = probe_rows(all);
        assert forall|i: int, j: int| 0 <= i < j < probe.len() implies probe[i] <= probe[j] by {
            assert(all[i].1 <= all[j].1);
        }
        assert forall|i: int| 0 <= i < probe.len() implies probe[i] < starts@.last() by {
            law_rows_outside_the_batch_are_not_paired(
                starts@,
                matches.build_indices@,
                matches.run_indices@,
                i,
            );
        }
    }
}

/// A chunk is given as a range where it is not empty, its probe rows follow each other, and
/// each of them has one match; the range then has exactly these rows.
pub proof fn law_ranges_are_of_single_matches(
    starts: Vec<u32>,
    matches: JoinMatches,
    first: &mut ProbeRuns,
    limit: usize,
    chunk: (
        Vec<u64>,
        Vec<u32>,
        Option<(usize, Option<u64>)>,
        Option<std::ops::Range<usize>>,
    ),
    i: int,
    run: int,
)
    requires
        starts@.len() >= 1,
        forall|j: int, k: int| 0 <= j < k < starts@.len() ==> starts@[j] < starts@[k],
        matches.next_offset is None,
        matches.listed_by_run(starts@.len() - 1),
        call_ensures(ProbeRuns::from_matches, (starts, matches), Some(*old(first))),
        call_ensures(ProbeRuns::next_indices, (first, limit), chunk),
        0 <= i < chunk.1@.len(),
        0 <= run < starts@.len() - 1,
        starts@[run] <= chunk.1@[i] < starts@[run + 1],
    ensures
        chunk.3 matches Some(range) ==> chunk.1@[i] == range.start + i && range.end - range.start
            == chunk.1@.len() && of_run(
            with_runs(matches.build_indices@, matches.run_indices@),
            run,
        ).len() == 1,
        chunk.3 is None ==> {
            ||| exists|k: int|
                0 <= k < chunk.1@.len() && #[trigger] chunk.1@[k] != chunk.1@[0] + k
            ||| exists|k: int, other: int|
                0 <= k < chunk.1@.len() && 0 <= other < starts@.len() - 1 && starts@[other]
                    <= #[trigger] chunk.1@[k] < starts@[other + 1] && #[trigger] of_run(
                    with_runs(matches.build_indices@, matches.run_indices@),
                    other,
                ).len() != 1
        },
{
    let build = matches.build_indices@;
    let runs = matches.run_indices@;
    let all = pairs_from(starts@, build, runs, 0);
    let count = chunk_len(all, limit);
    let taken = all.take(count);
    assert(matches_wf(starts@, build, runs));
    assert(chunk.1@ == probe_rows(taken));
    law_marked_pairs_are_the_only_ones(starts@, build, runs, i);
    law_each_row_is_paired_with_the_matches_of_its_run(
        starts@,
        build,
        runs,
        run,
        chunk.1@[i] as int,
    );
    assert(taken[i] == all[i]);
    if let Some(range) = chunk.3 {
        assert(taken[i].2);
        assert(taken[i].1 == taken[0].1 + i);
    } else {
        if !consecutive(taken) {
            let k = choose|k: int|
                0 <= k < taken.len() && (#[trigger] taken[k]).1 != taken[0].1 + k;
            assert(chunk.1@[k] != chunk.1@[0] + k);
        } else {
            let k = choose|k: int| 0 <= k < taken.len() && !(#[trigger] taken[k]).2;
            assert(taken[k] == all[k]);
            law_marked_pairs_are_the_only_ones(starts@, build, runs, k);
            law_rows_outside_the_batch_are_not_paired(starts@, build, runs, k);
            law_rows_outside_the_batch_are_not_paired(starts@, build, runs, i);
            let row = all[k].1 as int;
            lemma_pairs_from(starts@, build, runs, 0);
            assert(starts@[0] <= row);
            let other = lemma_row_in_run(starts@, row, starts@.len() - 1);
            law_each_row_is_paired_with_the_matches_of_its_run(starts@, build, runs, other, row);
            assert(chunk.1@[k] == row);
            assert(of_run(with_runs(build, runs), other).len() != 1);
        }
    }
}

/// A plan is made exactly where keys repeat enough. Its runs make up all rows, the rows of a
/// run have the same bytes in every column and the next run has others, and a run is looked
/// up by the key of its first row.
pub proof fn law_plans_are_of_repeated_keys(
    columns: &[KeyColumn],
    batch_size: usize,
    result: Result<Option<RunPlan>, ExecError>,
    rows: int,
    c: int,
    k: int,
    row: int,
)
    requires
        columns@.len() > 0,
        rows == columns@[0].rows().len(),
        have_rows(columns@, rows),
        call_ensures(plan, (columns, batch_size), result),
        0 <= c < columns@.len(),
    ensures
        result is Ok,
        result->Ok_0 is None <==> {
            ||| rows < 2
            ||| rows > u32::MAX
            ||| exists|d: int| 0 <= d < columns@.len() && is_left_out(#[trigger] columns@[d])
            ||| rows > 64 && changing_rows(columns@, 64).len() + 1 > 32
            ||| changing_rows(columns@, rows).len() + 1 > rows / 2
            ||| changing_rows(columns@, rows).len() + 1 > batch_size
        },
        result->Ok_0 matches Some(plan) ==> {
            let starts = plan.starts@;
            &&& starts.len() >= 2 && starts[0] == 0 && starts.last() == rows
            &&& starts.len() == changing_rows(columns@, rows).len() + 2
            &&& 0 <= k < starts.len() - 1 ==> starts[k] < starts[k + 1]
            &&& 0 <= k < starts.len() - 1 && starts[k] <= row < starts[k + 1] ==> keys_equal(
                columns@,
                row,
                starts[k] as int,
            )
            &&& 1 <= k < starts.len() - 1 ==> !keys_equal(
                columns@,
                starts[k] - 1,
                starts[k] as int,
            )
            &&& plan.representatives@.len() == columns@.len()
            &&& arrays::array_rows(plan.representatives@[c]).len() == starts.len() - 1
            &&& 0 <= k < starts.len() - 1 ==> arrays::array_rows(plan.representatives@[c])[k]
                == key_part(columns@[c], starts[k] as int)
        },
{
    law_few_runs_are_looked_up(columns@, rows, batch_size as int);
    assert(columns@[0].rows().len() == rows);
    assert(cover(columns@, rows)) by {
        assert forall|d: int| 0 <= d < columns@.len() implies (#[trigger] columns@[d]).rows().len()
            >= rows by {
            match columns@[d] {
                KeyColumn::Plain(array) => {},
                KeyColumn::FixedSizeBinary(array) => {},
            }
        }
    }
    if let Ok(Some(plan)) = result {
        law_runs_are_of_equal_keys(columns@, rows);
        law_runs_are_counted_by_their_changes(columns@, rows);
        law_runs_are_looked_up_by_their_first_key(columns@, plan, c, 0);
        if 0 <= k < plan.starts@.len() - 1 {
            law_runs_are_looked_up_by_their_first_key(columns@, plan, c, k);
        }
    }
}

/// Expanding what was looked up for the runs of a batch pairs each probe row with the
/// matches of the first row with its key: the lookup was asked for the first key of each
/// run, and the pairs of a row are what it found there.
pub proof fn law_rows_are_paired_with_what_was_looked_up<L>(
    columns: &[KeyColumn],
    batch_size: usize,
    lookup: L,
    made: ProbeRuns,
    runs: &mut ProbeRuns,
    limit: usize,
    all: (
        Vec<u64>,
        Vec<u32>,
        Option<(usize, Option<u64>)>,
        Option<std::ops::Range<usize>>,
    ),
    count: usize,
    rows: int,
    row: int,
) where L: FnOnce(&Vec<ArrayData>, usize) -> Result<JoinMatches, ExecError>
    requires
        columns@.len() > 0,
        rows == columns@[0].rows().len(),
        have_rows(columns@, rows),
        cover(columns@, rows),
        forall|keys: &Vec<ArrayData>, most: usize| call_requires(lookup, (keys, most)),
        forall|keys: &Vec<ArrayData>, most: usize, matches: JoinMatches| #[trigger]
            call_ensures(lookup, (keys, most), Ok(matches)) && matches.next_offset is None
                && keys@.len() > 0 ==> matches.listed_by_run(
                arrays::array_rows(keys@[0]).len() as int,
            ) && matches.build_indices@.len() <= most,
        call_ensures(
            ProbeRuns::try_new::<L>,
            (columns, batch_size, lookup),
            Ok(Some(made)),
        ),
        *old(runs) == made,
        call_ensures(ProbeRuns::run_count, (&made,), count),
        call_ensures(ProbeRuns::next_indices, (runs, limit), all),
        all.2 is None,
        0 <= row < rows,
    ensures
        count == changing_rows(columns@, rows).len() + 1,
        exists|found: JoinMatches, keys: Vec<ArrayData>, run: int|
            {
                &&& #[trigger] call_ensures(lookup, (&keys, batch_size), Ok(found))
                &&& found.next_offset is None
                &&& keys@.len() == columns@.len()
                &&& of_run(with_runs(all.0@, all.1@), row) == #[trigger] of_run(
                    with_runs(found.build_indices@, found.run_indices@),
                    run,
                )
                &&& forall|c: int|
                    0 <= c < columns@.len() ==> arrays::array_rows(#[trigger] keys@[c])[run]
                        == key_part(columns@[c], row)
            },
{
    assert(!declined(columns@, batch_size as int));
    law_few_runs_are_looked_up(columns@, rows, batch_size as int);
    law_runs_are_of_equal_keys(columns@, rows);
    law_runs_share_keys(columns@, rows);
    law_runs_are_counted_by_their_changes(columns@, rows);
    let (plan, found) = choose|plan: RunPlan, found: JoinMatches| #[trigger]
        plan.describes(columns@) && #[trigger] call_ensures(
            lookup,
            (&plan.representatives, batch_size),
            Ok(found),
        ) && found.next_offset is None && made.starts() == run_starts(columns@, rows)
            && made.build_indices() == found.build_indices@ && made.run_indices()
            == found.run_indices@ && made.cursor() == 0 && made.remaining() == pairs_from(
            made.starts(),
            found.build_indices@,
            found.run_indices@,
            0,
        );
    let starts = run_starts(columns@, rows);
    let build = found.build_indices@;
    let listed = found.run_indices@;
    let pairs = pairs_from(starts, build, listed, 0);
    law_runs_are_looked_up_by_their_first_key(columns@, plan, 0, 0);
    assert(call_ensures(lookup, (&plan.representatives, batch_size), Ok(found)));
    assert(found.listed_by_run(starts.len() - 1));
    assert(matches_wf(starts, build, listed));
    assert(pairs.take(chunk_len(pairs, limit)) =~= pairs);
    let run = lemma_row_in_run(starts, row, starts.len() - 1);
    lemma_listed_for(pairs, row);
    law_each_row_is_paired_with_the_matches_of_its_run(starts, build, listed, run, row);
    assert(keys_equal(columns@, row, starts[run] as int));
    assert forall|c: int| 0 <= c < columns@.len() implies arrays::array_rows(
        #[trigger] plan.representatives@[c],
    )[run] == key_part(columns@[c], row) by {
        law_runs_are_looked_up_by_their_first_key(columns@, plan, c, run);
        assert(key_part(columns@[c], row) == key_part(columns@[c], starts[run] as int));
    }
    assert(of_run(with_runs(all.0@, all.1@), row) == of_run(with_runs(build, listed), run));
}

/// Runs are looked for in keys of booleans, integers, strings, byte strings and timestamps.
pub proof fn law_keys_of_these_types_are_looked_for(kind: ArrayKind, result: bool)
    requires
        call_ensures(supports_type, (kind,), result),
    ensures
        result <==> match kind {
            ArrayKind::Boolean
            | ArrayKind::Int8
            | ArrayKind::Int16
            | ArrayKind::Int32
            | ArrayKind::Int64
            | ArrayKind::UInt8
            | ArrayKind::UInt16
            | ArrayKind::UInt32
            | ArrayKind::UInt64
            | ArrayKind::Utf8
            | ArrayKind::LargeUtf8
            | ArrayKind::Utf8View
            | ArrayKind::Binary
            | ArrayKind::LargeBinary
            | ArrayKind::BinaryView
            | ArrayKind::FixedSizeBinary
            | ArrayKind::Timestamp => true,
            _ => false,
        },
{
}

} // verus!
