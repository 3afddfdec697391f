//! Columns whose distinct values are counted.
use crate::hashing;
use crate::hashing::hash_value;
use ahash::RandomState;
use vstd::prelude::*;

verus! {

/// A value of a column.
pub enum Cell {
    /// A number.
    Number(int),
    /// A string.
    Text(Seq<char>),
    /// A byte string.
    Bytes(Seq<u8>),
}

/// Rust values that stand for cells.
pub trait CellValue: Sized {
    /// The cell.
    spec fn cell(self) -> Cell;

    /// A value of the same cell.
    fn copy_of(&self) -> (result: Self)
        ensures
            result.cell() == self.cell(),
    ;

    /// The number is a hash of a value of the cell.
    spec fn cell_hash(state: RandomState, cell: Cell, hash: u64) -> bool;

    /// The hash of the value.
    fn hash_with(&self, state: &RandomState) -> (result: u64)
        ensures
            Self::cell_hash(*state, self.cell(), result),
    ;
}

impl CellValue for i8 {
    open spec fn cell(self) -> Cell {
        Cell::Number(self as int)
    }

    open spec fn cell_hash(state: RandomState, cell: Cell, hash: u64) -> bool {
        cell matches Cell::Number(number) && hashing::hashes_to(state, &(number as i8), hash)
    }

    fn copy_of(&self) -> i8 {
        *self
    }

    fn hash_with(&self, state: &RandomState) -> u64 {
        hash_value(state, self)
    }
}

impl CellValue for i16 {
    open spec fn cell(self) -> Cell {
        Cell::Number(self as int)
    }

    open spec fn cell_hash(state: RandomState, cell: Cell, hash: u64) -> bool {
        cell matches Cell::Number(number) && hashing::hashes_to(state, &(number as i16), hash)
    }

    fn copy_of(&self) -> i16 {
        *self
    }

    fn hash_with(&self, state: &RandomState) -> u64 {
        hash_value(state, self)
    }
}

impl CellValue for i32 {
    open spec fn cell(self) -> Cell {
        Cell::Number(self as int)
    }

    open spec fn cell_hash(state: RandomState, cell: Cell, hash: u64) -> bool {
        cell matches Cell::Number(number) && hashing::hashes_to(state, &(number as i32), hash)
    }

    fn copy_of(&self) -> i32 {
        *self
    }

    fn hash_with(&self, state: &RandomState) -> u64 {
        hash_value(state, self)
    }
}

impl CellValue for i64 {
    open spec fn cell(self) -> Cell {
        Cell::Number(self as int)
    }

    open spec fn cell_hash(state: RandomState, cell: Cell, hash: u64) -> bool {
        cell matches Cell::Number(number) && hashing::hashes_to(state, &(number as i64), hash)
    }

    fn copy_of(&self) -> i64 {
        *self
    }

    fn hash_with(&self, state: &RandomState) -> u64 {
        hash_value(state, self)
    }
}

impl CellValue for u8 {
    open spec fn cell(self) -> Cell {
        Cell::Number(self as int)
    }

    open spec fn cell_hash(state: RandomState, cell: Cell, hash: u64) -> bool {
        cell matches Cell::Number(number) && hashing::hashes_to(state, &(number as u8), hash)
    }

    fn copy_of(&self) -> u8 {
        *self
    }

    fn hash_with(&self, state: &RandomState) -> u64 {
        hash_value(state, self)
    }
}

impl CellValue for u16 {
    open spec fn cell(self) -> Cell {
        Cell::Number(self as int)
    }

    open spec fn cell_hash(state: RandomState, cell: Cell, hash: u64) -> bool {
        cell matches Cell::Number(number) && hashing::hashes_to(state, &(number as u16), hash)
    }

    fn copy_of(&self) -> u16 {
        *self
    }

    fn hash_with(&self, state: &RandomState) -> u64 {
        hash_value(state, self)
    }
}

impl CellValue for u32 {
    open spec fn cell(self) -> Cell {
        Cell::Number(self as int)
    }

    open spec fn cell_hash(state: RandomState, cell: Cell, hash: u64) -> bool {
        cell matches Cell::Number(number) && hashing::hashes_to(state, &(number as u32), hash)
    }

    fn copy_of(&self) -> u32 {
        *self
    }

    fn hash_with(&self, state: &RandomState) -> u64 {
        hash_value(state, self)
    }
}

impl CellValue for u64 {
    open spec fn cell(self) -> Cell {
        Cell::Number(self as int)
    }

    open spec fn cell_hash(state: RandomState, cell: Cell, hash: u64) -> bool {
        cell matches Cell::Number(number) && hashing::hashes_to(state, &(number as u64), hash)
    }

    fn copy_of(&self) -> u64 {
        *self
    }

    fn hash_with(&self, state: &RandomState) -> u64 {
        hash_value(state, self)
    }
}

impl CellValue for String {
    open spec fn cell(self) -> Cell {
        Cell::Text(self@)
    }

    open spec fn cell_hash(state: RandomState, cell: Cell, hash: u64) -> bool {
        exists|text: &str| cell == Cell::Text(text@) && #[trigger] hashing::hashes_to(state, text, hash)
    }

    fn copy_of(&self) -> String {
        self.clone()
    }

    fn hash_with(&self, state: &RandomState) -> u64 {
        hash_value(state, self.as_str())
    }
}

impl CellValue for Vec<u8> {
    open spec fn cell(self) -> Cell {
        Cell::Bytes(self@)
    }

    open spec fn cell_hash(state: RandomState, cell: Cell, hash: u64) -> bool {
        exists|bytes: &[u8]|
            cell == Cell::Bytes(bytes@) && #[trigger] hashing::hashes_to(state, bytes, hash)
    }

    fn copy_of(&self) -> Vec<u8> {
        self.clone()
    }

    fn hash_with(&self, state: &RandomState) -> u64 {
        hash_value(state, self.as_slice())
    }
}

/// The cells of a list of values; nothing for a null.
pub open spec fn cells<T: CellValue>(values: Seq<Option<T>>) -> Seq<Option<Cell>> {
    Seq::new(
        values.len(),
        |i: int|
            match values[i] {
                Some(value) => Some(value.cell()),
                None => None,
            },
    )
}

/// The cells that keys point to.
pub open spec fn selected(values: Seq<Option<Cell>>, keys: Seq<Option<usize>>) -> Seq<Option<Cell>> {
    Seq::new(
        keys.len(),
        |i: int|
            match keys[i] {
                Some(key) => values[key as int],
                None => None,
            },
    )
}

/// Every key is below `count`.
pub open spec fn keys_within(keys: Seq<Option<usize>>, count: int) -> bool {
    forall|i: int| 0 <= i < keys.len() && #[trigger] keys[i] is Some ==> keys[i]->0 < count
}

/// The hashes are those of the rows that are not null, in their order.
pub open spec fn row_hashes<T: CellValue>(
    state: RandomState,
    rows: Seq<Option<Cell>>,
    hashes: Seq<u64>,
) -> bool
    decreases rows.len(),
{
    if rows.len() == 0 {
        hashes.len() == 0
    } else if rows.last() is Some {
        &&& hashes.len() > 0
        &&& T::cell_hash(state, rows.last()->0, hashes.last())
        &&& row_hashes::<T>(state, rows.drop_last(), hashes.drop_last())
    } else {
        row_hashes::<T>(state, rows.drop_last(), hashes)
    }
}

/// A column. Dates, times and timestamps are the numbers that stand for them.
#[derive(Debug)]
pub enum ColumnValues {
    /// A column of nulls.
    AllNull(usize),
    Int8(Vec<Option<i8>>),
    Int16(Vec<Option<i16>>),
    Int32(Vec<Option<i32>>),
    Int64(Vec<Option<i64>>),
    UInt8(Vec<Option<u8>>),
    UInt16(Vec<Option<u16>>),
    UInt32(Vec<Option<u32>>),
    UInt64(Vec<Option<u64>>),
    Utf8(Vec<Option<String>>),
    /// Strings that are referred to by views.
    Views(Vec<Option<String>>),
    Binary(Vec<Option<Vec<u8>>>),
    /// A dictionary-encoded column.
    Dictionary(Vec<Option<usize>>, Box<ColumnValues>),
}

impl ColumnValues {
    /// The rows of the column.
    pub open spec fn rows(self) -> Seq<Option<Cell>>
        decreases self,
    {
        match self {
            ColumnValues::AllNull(len) => Seq::new(len as nat, |i: int| None),
            ColumnValues::Int8(values) => cells(values@),
            ColumnValues::Int16(values) => cells(values@),
            ColumnValues::Int32(values) => cells(values@),
            ColumnValues::Int64(values) => cells(values@),
            ColumnValues::UInt8(values) => cells(values@),
            ColumnValues::UInt16(values) => cells(values@),
            ColumnValues::UInt32(values) => cells(values@),
            ColumnValues::UInt64(values) => cells(values@),
            ColumnValues::Utf8(values) => cells(values@),
            ColumnValues::Views(values) => cells(values@),
            ColumnValues::Binary(values) => cells(values@),
            ColumnValues::Dictionary(keys, values) => selected(values.rows(), keys@),
        }
    }

    /// The keys of a dictionary are positions of its values.
    pub open spec fn wf(self) -> bool
        decreases self,
    {
        match self {
            ColumnValues::Dictionary(keys, values) => values.wf() && keys_within(
                keys@,
                values.rows().len() as int,
            ),
            _ => true,
        }
    }

    /// The column whose values a dictionary encodes, at the innermost.
    pub open spec fn innermost(self) -> ColumnValues
        decreases self,
    {
        match self {
            ColumnValues::Dictionary(_, values) => values.innermost(),
            other => other,
        }
    }

    /// The hashes are those of rows that hold values of the same Rust type as the column.
    /// Columns of nulls have none, and the values of a dictionary are those of another
    /// column.
    pub open spec fn row_hashes(
        self,
        state: RandomState,
        rows: Seq<Option<Cell>>,
        hashes: Seq<u64>,
    ) -> bool {
        match self {
            ColumnValues::AllNull(_) => hashes.len() == 0,
            ColumnValues::Int8(_) => row_hashes::<i8>(state, rows, hashes),
            ColumnValues::Int16(_) => row_hashes::<i16>(state, rows, hashes),
            ColumnValues::Int32(_) => row_hashes::<i32>(state, rows, hashes),
            ColumnValues::Int64(_) => row_hashes::<i64>(state, rows, hashes),
            ColumnValues::UInt8(_) => row_hashes::<u8>(state, rows, hashes),
            ColumnValues::UInt16(_) => row_hashes::<u16>(state, rows, hashes),
            ColumnValues::UInt32(_) => row_hashes::<u32>(state, rows, hashes),
            ColumnValues::UInt64(_) => row_hashes::<u64>(state, rows, hashes),
            ColumnValues::Utf8(_) => row_hashes::<String>(state, rows, hashes),
            ColumnValues::Views(_) => row_hashes::<String>(state, rows, hashes),
            ColumnValues::Binary(_) => row_hashes::<Vec<u8>>(state, rows, hashes),
            ColumnValues::Dictionary(_, _) => false,
        }
    }

    /// Whether two columns are of the same kind.
    pub open spec fn same_kind(self, other: ColumnValues) -> bool {
        match (self, other) {
            (ColumnValues::AllNull(_), ColumnValues::AllNull(_)) => true,
            (ColumnValues::Int8(_), ColumnValues::Int8(_)) => true,
            (ColumnValues::Int16(_), ColumnValues::Int16(_)) => true,
            (ColumnValues::Int32(_), ColumnValues::Int32(_)) => true,
            (ColumnValues::Int64(_), ColumnValues::Int64(_)) => true,
            (ColumnValues::UInt8(_), ColumnValues::UInt8(_)) => true,
            (ColumnValues::UInt16(_), ColumnValues::UInt16(_)) => true,
            (ColumnValues::UInt32(_), ColumnValues::UInt32(_)) => true,
            (ColumnValues::UInt64(_), ColumnValues::UInt64(_)) => true,
            (ColumnValues::Utf8(_), ColumnValues::Utf8(_)) => true,
            (ColumnValues::Views(_), ColumnValues::Views(_)) => true,
            (ColumnValues::Binary(_), ColumnValues::Binary(_)) => true,
            (ColumnValues::Dictionary(_, _), ColumnValues::Dictionary(_, _)) => true,
            _ => false,
        }
    }

    /// The rows without the dictionary encoding.
    pub fn decoded(&self) -> (result: ColumnValues)
        requires
            self.wf(),
        ensures
            result.rows() == self.rows(),
            result.same_kind(self.innermost()),
            result !is Dictionary,
        decreases self,
    {
        match self {
            ColumnValues::Dictionary(keys, values) => {
                let plain = values.decoded();
                gathered(&plain, keys)
            },
            ColumnValues::AllNull(len) => ColumnValues::AllNull(*len),
            ColumnValues::Int8(values) => ColumnValues::Int8(copied(values)),
            ColumnValues::Int16(values) => ColumnValues::Int16(copied(values)),
            ColumnValues::Int32(values) => ColumnValues::Int32(copied(values)),
            ColumnValues::Int64(values) => ColumnValues::Int64(copied(values)),
            ColumnValues::UInt8(values) => ColumnValues::UInt8(copied(values)),
            ColumnValues::UInt16(values) => ColumnValues::UInt16(copied(values)),
            ColumnValues::UInt32(values) => ColumnValues::UInt32(copied(values)),
            ColumnValues::UInt64(values) => ColumnValues::UInt64(copied(values)),
            ColumnValues::Utf8(values) => ColumnValues::Utf8(copied(values)),
            ColumnValues::Views(values) => ColumnValues::Views(copied(values)),
            ColumnValues::Binary(values) => ColumnValues::Binary(copied(values)),
        }
    }
}

/// The same values.
fn copied<T: CellValue>(values: &Vec<Option<T>>) -> (result: Vec<Option<T>>)
    ensures
        cells(result@) == cells(values@),
{
    let mut result: Vec<Option<T>> = Vec::new();
    let mut i: usize = 0;
    while i < values.len()
        invariant
            i <= values@.len(),
            cells(result@) == cells(values@.take(i as int)),
        decreases values@.len() - i,
    {
        let ghost before = result@;
        match &values[i] {
            Some(value) => result.push(Some(value.copy_of())),
            None => result.push(None),
        }
        i = i + 1;
        proof {
            assert(cells(result@) =~= cells(before).push(cells(result@).last()));
            assert(cells(values@.take(i as int)) =~= cells(values@.take(i - 1)).push(
                cells(values@)[i - 1],
            ));
        }
    }
    proof {
        assert(values@.take(i as int) =~= values@);
    }
    result
}

/// The values that keys point to.
fn picked<T: CellValue>(values: &Vec<Option<T>>, keys: &Vec<Option<usize>>) -> (result: Vec<
    Option<T>,
>)
    requires
        keys_within(keys@, values@.len() as int),
    ensures
        cells(result@) == selected(cells(values@), keys@),
{
    let mut result: Vec<Option<T>> = Vec::new();
    let mut i: usize = 0;
    proof {
        assert(cells(result@) =~= selected(cells(values@), keys@.take(0)));
    }
    while i < keys.len()
        invariant
            i <= keys@.len(),
            keys_within(keys@, values@.len() as int),
            cells(result@) == selected(cells(values@), keys@.take(i as int)),
        decreases keys@.len() - i,
    {
        let ghost before = result@;
        assert(keys@[i as int] is Some ==> keys@[i as int]->0 < values@.len());
        match keys[i] {
            Some(key) => match &values[key] {
                Some(value) => result.push(Some(value.copy_of())),
                None => result.push(None),
            },
            None => result.push(None),
        }
        i = i + 1;
        proof {
            assert(cells(result@) =~= cells(before).push(cells(result@).last()));
            assert(selected(cells(values@), keys@.take(i as int)) =~= selected(
                cells(values@),
                keys@.take(i - 1),
            ).push(selected(cells(values@), keys@)[i - 1]));
        }
    }
    proof {
        assert(keys@.take(i as int) =~= keys@);
    }
    result
}

/// The rows of a column that keys point to.
fn gathered(values: &ColumnValues, keys: &Vec<Option<usize>>) -> (result: ColumnValues)
    requires
        values !is Dictionary,
        keys_within(keys@, values.rows().len() as int),
    ensures
        result.rows() == selected(values.rows(), keys@),
        result.same_kind(*values),
{
    match values {
        ColumnValues::AllNull(_) => {
            proof {
                assert(ColumnValues::AllNull(keys.len()).rows() =~= selected(values.rows(), keys@));
            }
            ColumnValues::AllNull(keys.len())
        },
        ColumnValues::Int8(values) => ColumnValues::Int8(picked(values, keys)),
        ColumnValues::Int16(values) => ColumnValues::Int16(picked(values, keys)),
        ColumnValues::Int32(values) => ColumnValues::Int32(picked(values, keys)),
        ColumnValues::Int64(values) => ColumnValues::Int64(picked(values, keys)),
        ColumnValues::UInt8(values) => ColumnValues::UInt8(picked(values, keys)),
        ColumnValues::UInt16(values) => ColumnValues::UInt16(picked(values, keys)),
        ColumnValues::UInt32(values) => ColumnValues::UInt32(picked(values, keys)),
        ColumnValues::UInt64(values) => ColumnValues::UInt64(picked(values, keys)),
        ColumnValues::Utf8(values) => ColumnValues::Utf8(picked(values, keys)),
        ColumnValues::Views(values) => ColumnValues::Views(picked(values, keys)),
        ColumnValues::Binary(values) => ColumnValues::Binary(picked(values, keys)),
        ColumnValues::Dictionary(_, _) => ColumnValues::AllNull(0),
    }
}

/// The row of a column holds what the values have there: the number, the string or the byte
/// string in full, nothing for a null, and in a dictionary the row of the values that the
/// key refers to.
pub proof fn law_rows_are_the_values(column: ColumnValues, row: int)
    requires
        0 <= row < column.rows().len(),
    ensures
        match column {
            ColumnValues::AllNull(len) => column.rows().len() == len && column.rows()[row] is None,
            ColumnValues::Int8(values) => column.rows().len() == values@.len() && match values@[row] {
                Some(value) => column.rows()[row] == Some(Cell::Number(value as int)),
                None => column.rows()[row] is None,
            },
            ColumnValues::Int16(values) => column.rows().len() == values@.len() && match values@[row] {
                Some(value) => column.rows()[row] == Some(Cell::Number(value as int)),
                None => column.rows()[row] is None,
            },
            ColumnValues::Int32(values) => column.rows().len() == values@.len() && match values@[row] {
                Some(value) => column.rows()[row] == Some(Cell::Number(value as int)),
                None => column.rows()[row] is None,
            },
            ColumnValues::Int64(values) => column.rows().len() == values@.len() && match values@[row] {
                Some(value) => column.rows()[row] == Some(Cell::Number(value as int)),
                None => column.rows()[row] is None,
            },
            ColumnValues::UInt8(values) => column.rows().len() == values@.len() && match values@[row] {
                Some(value) => column.rows()[row] == Some(Cell::Number(value as int)),
                None => column.rows()[row] is None,
            },
            ColumnValues::UInt16(values) => column.rows().len() == values@.len() && match values@[row] {
                Some(value) => column.rows()[row] == Some(Cell::Number(value as int)),
                None => column.rows()[row] is None,
            },
            ColumnValues::UInt32(values) => column.rows().len() == values@.len() && match values@[row] {
                Some(value) => column.rows()[row] == Some(Cell::Number(value as int)),
                None => column.rows()[row] is None,
            },
            ColumnValues::UInt64(values) => column.rows().len() == values@.len() && match values@[row] {
                Some(value) => column.rows()[row] == Some(Cell::Number(value as int)),
                None => column.rows()[row] is None,
            },
            ColumnValues::Utf8(values) => column.rows().len() == values@.len() && match values@[row] {
                Some(value) => column.rows()[row] == Some(Cell::Text(value@)),
                None => column.rows()[row] is None,
            },
            ColumnValues::Views(values) => column.rows().len() == values@.len() && match values@[row] {
                Some(value) => column.rows()[row] == Some(Cell::Text(value@)),
                None => column.rows()[row] is None,
            },
            ColumnValues::Binary(values) => column.rows().len() == values@.len()
                && match values@[row] {
                Some(value) => column.rows()[row] == Some(Cell::Bytes(value@)),
                None => column.rows()[row] is None,
            },
            ColumnValues::Dictionary(keys, values) => column.rows().len() == keys@.len()
                && match keys@[row] {
                Some(key) => column.rows()[row] == values.rows()[key as int],
                None => column.rows()[row] is None,
            },
        },
{
}

/// The value in row `r` has one of the hashes.
pub open spec fn value_is_hashed<T>(
    values: Seq<Option<T>>,
    hashes: Seq<u64>,
    is_hash: spec_fn(T, u64) -> bool,
    r: int,
) -> bool {
    exists|k: int| 0 <= k < hashes.len() && is_hash(values[r]->0, #[trigger] hashes[k])
}

/// Hash `k` is that of a value.
pub open spec fn hash_has_a_value<T>(
    values: Seq<Option<T>>,
    hashes: Seq<u64>,
    is_hash: spec_fn(T, u64) -> bool,
    k: int,
) -> bool {
    exists|r: int|
        0 <= r < values.len() && #[trigger] values[r] is Some && is_hash(values[r]->0, hashes[k])
}

/// The hashes are those of the values, as `is_hash` tells: every value that is not null has
/// one, and each is that of such a value.
pub open spec fn hashes_of<T>(
    values: Seq<Option<T>>,
    hashes: Seq<u64>,
    is_hash: spec_fn(T, u64) -> bool,
) -> bool {
    &&& forall|r: int|
        0 <= r < values.len() && values[r] is Some ==> #[trigger] value_is_hashed(
            values,
            hashes,
            is_hash,
            r,
        )
    &&& forall|k: int|
        0 <= k < hashes.len() ==> #[trigger] hash_has_a_value(values, hashes, is_hash, k)
}

/// The hashes are those that a hasher gives for the values of a column: the numbers in their
/// own type, strings by all their characters, and byte strings by all their bytes.
pub open spec fn hashes_values(column: ColumnValues, state: RandomState, hashes: Seq<u64>) -> bool {
    match column {
        ColumnValues::AllNull(_) => hashes.len() == 0,
        ColumnValues::Int8(values) => hashes_of(
            values@,
            hashes,
            |value: i8, hash: u64| hashing::hashes_to(state, &value, hash),
        ),
        ColumnValues::Int16(values) => hashes_of(
            values@,
            hashes,
            |value: i16, hash: u64| hashing::hashes_to(state, &value, hash),
        ),
        ColumnValues::Int32(values) => hashes_of(
            values@,
            hashes,
            |value: i32, hash: u64| hashing::hashes_to(state, &value, hash),
        ),
        ColumnValues::Int64(values) => hashes_of(
            values@,
            hashes,
            |value: i64, hash: u64| hashing::hashes_to(state, &value, hash),
        ),
        ColumnValues::UInt8(values) => hashes_of(
            values@,
            hashes,
            |value: u8, hash: u64| hashing::hashes_to(state, &value, hash),
        ),
        ColumnValues::UInt16(values) => hashes_of(
            values@,
            hashes,
            |value: u16, hash: u64| hashing::hashes_to(state, &value, hash),
        ),
        ColumnValues::UInt32(values) => hashes_of(
            values@,
            hashes,
            |value: u32, hash: u64| hashing::hashes_to(state, &value, hash),
        ),
        ColumnValues::UInt64(values) => hashes_of(
            values@,
            hashes,
            |value: u64, hash: u64| hashing::hashes_to(state, &value, hash),
        ),
        ColumnValues::Utf8(values) => hashes_of(
            values@,
            hashes,
            |value: String, hash: u64|
                exists|text: &str| text@ == value@ && #[trigger] hashing::hashes_to(
                    state,
                    text,
                    hash,
                ),
        ),
        ColumnValues::Views(values) => hashes_of(
            values@,
            hashes,
            |value: String, hash: u64|
                exists|text: &str| text@ == value@ && #[trigger] hashing::hashes_to(
                    state,
                    text,
                    hash,
                ),
        ),
        ColumnValues::Binary(values) => hashes_of(
            values@,
            hashes,
            |value: Vec<u8>, hash: u64|
                exists|bytes: &[u8]| bytes@ == value@ && #[trigger] hashing::hashes_to(
                    state,
                    bytes,
                    hash,
                ),
        ),
        ColumnValues::Dictionary(_, _) => false,
    }
}

proof fn lemma_each_row_has_its_hash<T: CellValue>(
    state: RandomState,
    rows: Seq<Option<Cell>>,
    hashes: Seq<u64>,
)
    requires
        row_hashes::<T>(state, rows, hashes),
    ensures
        hashes_of(rows, hashes, |cell: Cell, hash: u64| T::cell_hash(state, cell, hash)),
    decreases rows.len(),
{
    let is_hash = |cell: Cell, hash: u64| T::cell_hash(state, cell, hash);
    if rows.len() > 0 {
        let fewer = rows.drop_last();
        let last = rows.len() - 1;
        let earlier = if rows.last() is Some {
            hashes.drop_last()
        } else {
            hashes
        };
        lemma_each_row_has_its_hash::<T>(state, fewer, earlier);
        assert(rows[last] == rows.last());
        assert forall|r: int| 0 <= r < rows.len() && rows[r] is Some implies
            #[trigger] value_is_hashed(rows, hashes, is_hash, r) by {
            if r < last {
                assert(fewer[r] == rows[r]);
                assert(value_is_hashed(fewer, earlier, is_hash, r));
                let k = choose|k: int|
                    0 <= k < earlier.len() && is_hash(fewer[r]->0, #[trigger] earlier[k]);
                assert(hashes[k] == earlier[k]);
            } else {
                assert(is_hash(rows[r]->0, hashes[hashes.len() - 1]));
            }
        }
        assert forall|k: int| 0 <= k < hashes.len() implies #[trigger] hash_has_a_value(
            rows,
            hashes,
            is_hash,
            k,
        ) by {
            if k < earlier.len() {
                assert(earlier[k] == hashes[k]);
                assert(hash_has_a_value(fewer, earlier, is_hash, k));
                let r = choose|r: int|
                    0 <= r < fewer.len() && #[trigger] fewer[r] is Some && is_hash(
                        fewer[r]->0,
                        earlier[k],
                    );
                assert(rows[r] == fewer[r]);
            } else {
                assert(rows[last] is Some && is_hash(rows[last]->0, hashes[k]));
            }
        }
    }
}

proof fn lemma_hashes_of_values<T: CellValue>(
    state: RandomState,
    values: Seq<Option<T>>,
    hashes: Seq<u64>,
    is_hash: spec_fn(T, u64) -> bool,
)
    requires
        row_hashes::<T>(state, cells(values), hashes),
        forall|value: T, hash: u64| #[trigger]
            T::cell_hash(state, value.cell(), hash) ==> is_hash(value, hash),
    ensures
        hashes_of(values, hashes, is_hash),
{
    let rows = cells(values);
    let cell_hash = |cell: Cell, hash: u64| T::cell_hash(state, cell, hash);
    lemma_each_row_has_its_hash::<T>(state, rows, hashes);
    assert forall|r: int| 0 <= r < values.len() && values[r] is Some implies
        #[trigger] value_is_hashed(values, hashes, is_hash, r) by {
        assert(value_is_hashed(rows, hashes, cell_hash, r));
        let k = choose|k: int|
            0 <= k < hashes.len() && cell_hash(rows[r]->0, #[trigger] hashes[k]);
        assert(T::cell_hash(state, (values[r]->0).cell(), hashes[k]));
    }
    assert forall|k: int| 0 <= k < hashes.len() implies #[trigger] hash_has_a_value(
        values,
        hashes,
        is_hash,
        k,
    ) by {
        assert(hash_has_a_value(rows, hashes, cell_hash, k));
        let r = choose|r: int|
            0 <= r < rows.len() && #[trigger] rows[r] is Some && cell_hash(rows[r]->0, hashes[k]);
        assert(T::cell_hash(state, (values[r]->0).cell(), hashes[k]));
        assert(values[r] is Some);
    }
}

/// Every value of a column is hashed and nothing else: in its own type, and in full.
pub proof fn law_every_value_is_hashed(column: ColumnValues, state: RandomState, hashes: Seq<u64>)
    requires
        column.row_hashes(state, column.rows(), hashes),
    ensures
        hashes_values(column, state, hashes),
{
    match column {
        ColumnValues::Int8(values) => {
            lemma_hashes_of_values::<i8>(
                state,
                values@,
                hashes,
                |value: i8, hash: u64| hashing::hashes_to(state, &value, hash),
            );
        },
        ColumnValues::Int16(values) => {
            lemma_hashes_of_values::<i16>(
                state,
                values@,
                hashes,
                |value: i16, hash: u64| hashing::hashes_to(state, &value, hash),
            );
        },
        ColumnValues::Int32(values) => {
            lemma_hashes_of_values::<i32>(
                state,
                values@,
                hashes,
                |value: i32, hash: u64| hashing::hashes_to(state, &value, hash),
            );
        },
        ColumnValues::Int64(values) => {
            lemma_hashes_of_values::<i64>(
                state,
                values@,
                hashes,
                |value: i64, hash: u64| hashing::hashes_to(state, &value, hash),
            );
        },
        ColumnValues::UInt8(values) => {
            lemma_hashes_of_values::<u8>(
                state,
                values@,
                hashes,
                |value: u8, hash: u64| hashing::hashes_to(state, &value, hash),
            );
        },
        ColumnValues::UInt16(values) => {
            lemma_hashes_of_values::<u16>(
                state,
                values@,
                hashes,
                |value: u16, hash: u64| hashing::hashes_to(state, &value, hash),
            );
        },
        ColumnValues::UInt32(values) => {
            lemma_hashes_of_values::<u32>(
                state,
                values@,
                hashes,
                |value: u32, hash: u64| hashing::hashes_to(state, &value, hash),
            );
        },
        ColumnValues::UInt64(values) => {
            lemma_hashes_of_values::<u64>(
                state,
                values@,
                hashes,
                |value: u64, hash: u64| hashing::hashes_to(state, &value, hash),
            );
        },
        ColumnValues::Utf8(values) => {
            lemma_hashes_of_values::<String>(
                state,
                values@,
                hashes,
                |value: String, hash: u64|
                    exists|text: &str| text@ == value@ && #[trigger] hashing::hashes_to(
                        state,
                        text,
                        hash,
                    ),
            );
        },
        ColumnValues::Views(values) => {
            lemma_hashes_of_values::<String>(
                state,
                values@,
                hashes,
                |value: String, hash: u64|
                    exists|text: &str| text@ == value@ && #[trigger] hashing::hashes_to(
                        state,
                        text,
                        hash,
                    ),
            );
        },
        ColumnValues::Binary(values) => {
            lemma_hashes_of_values::<Vec<u8>>(
                state,
                values@,
                hashes,
                |value: Vec<u8>, hash: u64|
                    exists|bytes: &[u8]| bytes@ == value@ && #[trigger] hashing::hashes_to(
                        state,
                        bytes,
                        hash,
                    ),
            );
        },
        _ => {},
    }
}

/// A dictionary stands for the values that its keys refer to, however deep dictionaries are
/// nested: the innermost values are of the kind that is counted, and are no dictionary.
pub proof fn law_innermost_values_are_no_dictionary(column: ColumnValues)
    ensures
        column.innermost() !is Dictionary,
        column !is Dictionary ==> column.innermost() == column,
        column matches ColumnValues::Dictionary(_, values) ==> column.innermost()
            == values.innermost(),
    decreases column,
{
    if let ColumnValues::Dictionary(_, values) = column {
        law_innermost_values_are_no_dictionary(*values);
    }
}

/// Columns are of the same kind where their values are of the same type, dictionaries among
/// themselves.
pub proof fn law_kinds_are_told_apart(left: ColumnValues, right: ColumnValues)
    ensures
        left.same_kind(right) <==> match left {
            ColumnValues::AllNull(_) => right is AllNull,
            ColumnValues::Int8(_) => right is Int8,
            ColumnValues::Int16(_) => right is Int16,
            ColumnValues::Int32(_) => right is Int32,
            ColumnValues::Int64(_) => right is Int64,
            ColumnValues::UInt8(_) => right is UInt8,
            ColumnValues::UInt16(_) => right is UInt16,
            ColumnValues::UInt32(_) => right is UInt32,
            ColumnValues::UInt64(_) => right is UInt64,
            ColumnValues::Utf8(_) => right is Utf8,
            ColumnValues::Views(_) => right is Views,
            ColumnValues::Binary(_) => right is Binary,
            ColumnValues::Dictionary(_, _) => right is Dictionary,
        },
{
}

/// Decoding gives a column that is no dictionary, with the rows that the dictionary stands
/// for: in each row the value that the key refers to, and null where the key or the value
/// is null.
pub proof fn law_decoded_rows_are_the_referred_values(
    keys: Vec<Option<usize>>,
    values: Box<ColumnValues>,
    result: ColumnValues,
    row: int,
)
    requires
        ColumnValues::Dictionary(keys, values).wf(),
        call_ensures(
            ColumnValues::decoded,
            (&ColumnValues::Dictionary(keys, values),),
            result,
        ),
        0 <= row < keys@.len(),
    ensures
        result !is Dictionary,
        result.rows().len() == keys@.len(),
        result.rows()[row] == match keys@[row] {
            Some(key) => values.rows()[key as int],
            None => None,
        },
{
    law_rows_are_the_values(ColumnValues::Dictionary(keys, values), row);
}

/// Decoding a column that is no dictionary gives a column of the same values.
pub proof fn law_plain_columns_are_decoded_as_they_are(column: &ColumnValues, result: ColumnValues)
    requires
        *column !is Dictionary,
        column.wf(),
        call_ensures(ColumnValues::decoded, (column,), result),
    ensures
        result.rows() == column.rows(),
        result.same_kind(*column),
{
}

} // verus!
