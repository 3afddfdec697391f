//! Group keys of one integer and one dictionary column, and what it means to
//! number them.
use crate::arith;
use crate::arrays;
use crate::arrays::{
    array_kind, array_memory_size, binary_items, same_memory, string_items, ArrayKind,
};
use crate::error::ExecError;
use crate::shared::capacity;
use arrow::array::ArrayData;
use std::sync::Arc;
use vstd::prelude::*;

verus! {

/// Bytes of one key besides its value's bytes.
pub const KEY_BYTES: usize = 40;

/// What identifies a group: the integer and the bytes, each `None` for null.
pub type KeyRow = (Option<i64>, Option<Seq<u8>>);

/// The bytes behind an optional vector.
pub open spec fn bytes_of(value: Option<Vec<u8>>) -> Option<Seq<u8>> {
    match value {
        Some(bytes) => Some(bytes@),
        None => None,
    }
}

/// One group's key.
#[derive(Debug, PartialEq, Eq)]
pub struct GroupKey {
    pub integer: Option<i64>,
    pub value: Option<Vec<u8>>,
}

impl View for GroupKey {
    type V = KeyRow;

    open spec fn view(&self) -> KeyRow {
        (self.integer, bytes_of(self.value))
    }
}

/// The keys as rows.
pub open spec fn key_rows(keys: Seq<GroupKey>) -> Seq<KeyRow> {
    Seq::new(keys.len(), |i: int| keys[i]@)
}

/// A nullable integer column.
#[derive(Debug)]
pub struct IntegerColumn {
    pub values: Vec<i64>,
    pub nulls: Vec<bool>,
}

impl IntegerColumn {
    /// Every row has a null flag.
    pub open spec fn wf(self) -> bool {
        self.values@.len() == self.nulls@.len()
    }

    /// The integer at a row, `None` for null.
    pub open spec fn at(self, row: int) -> Option<i64> {
        if self.nulls@[row] {
            None
        } else {
            Some(self.values@[row])
        }
    }
}

/// The distinct or repeated values that dictionary keys refer to, with the bytes
/// of memory that they hold on to.
#[derive(Debug)]
pub struct DictionaryValues {
    data: ArrayData,
    items: Vec<Option<Vec<u8>>>,
    memory_size: usize,
}

impl DictionaryValues {
    /// The items are the rows of the array.
    #[verifier::type_invariant]
    spec fn items_are_rows(self) -> bool {
        arrays::byte_rows(self.items@) == arrays::array_rows(self.data)
    }

    /// The values, `None` for null.
    pub closed spec fn rows(&self) -> Seq<Option<Seq<u8>>> {
        arrays::byte_rows(self.items@)
    }

    /// The bytes of memory that the values hold on to.
    pub closed spec fn memory_size(&self) -> usize {
        self.memory_size
    }

    /// The bytes are what the array was found to occupy.
    pub closed spec fn occupies(data: ArrayData, bytes: usize) -> bool {
        call_ensures(array_memory_size, (&data,), bytes)
    }

    /// The values in an array of byte strings or of strings; an error for arrays of
    /// other types.
    pub fn new(data: ArrayData) -> (result: Result<DictionaryValues, ExecError>)
        ensures
            match result {
                Ok(values) => arrays::holds_bytes(data) && values.rows() == arrays::array_rows(
                    data,
                ) && DictionaryValues::occupies(data, values.memory_size()),
                Err(error) => !arrays::holds_bytes(data) && error is UnexpectedColumn,
            },
    {
        let items: Vec<Option<Vec<u8>>> = match array_kind(&data) {
            ArrayKind::Binary => binary_items(&data),
            ArrayKind::Utf8 => string_items(&data),
            _ => {
                return Err(ExecError::UnexpectedColumn);
            },
        };
        let memory_size: usize = array_memory_size(&data);
        Ok(DictionaryValues { data, items, memory_size })
    }

    /// The number of values.
    pub fn len(&self) -> (result: usize)
        ensures
            result == self.rows().len(),
    {
        self.items.len()
    }

    /// The bytes of memory that the values hold on to.
    pub fn size(&self) -> (result: usize)
        ensures
            result == self.memory_size(),
    {
        self.memory_size
    }

    /// The value at a position, `None` for null.
    pub fn item(&self, position: usize) -> (result: Option<&Vec<u8>>)
        requires
            position < self.rows().len(),
        ensures
            self.rows()[position as int] == (match result {
                Some(bytes) => Some(bytes@),
                None => None,
            }),
    {
        match &self.items[position] {
            Some(bytes) => Some(bytes),
            None => None,
        }
    }

    /// The values were found not to be in the same memory.
    pub closed spec fn is_apart(&self, other: &DictionaryValues) -> bool {
        call_ensures(same_memory, (&self.data, &other.data), false)
    }

    /// Whether both are the same values in the same memory, though each in a wrapper
    /// of its own.
    pub fn shares_memory(&self, other: &DictionaryValues) -> (result: bool)
        ensures
            result ==> self.rows() == other.rows(),
            !result ==> self.is_apart(other),
    {
        proof {
            use_type_invariant(self);
            use_type_invariant(other);
        }
        same_memory(&self.data, &other.data)
    }
}

/// A dictionary-encoded column of byte strings.
#[derive(Debug)]
pub struct DictionaryColumn {
    pub keys: Vec<Option<usize>>,
    pub values: Arc<DictionaryValues>,
}

impl DictionaryColumn {
    /// Every key that is not null refers to a value.
    pub open spec fn wf(self) -> bool {
        forall|row: int|
            0 <= row < self.keys@.len() ==> match #[trigger] self.keys@[row] {
                Some(key) => key < self.values.rows().len(),
                None => true,
            }
    }

    /// The bytes at a row. A null key and a key of a null value are both null.
    pub open spec fn at(self, row: int) -> Option<Seq<u8>> {
        match self.keys@[row] {
            Some(key) => self.values.rows()[key as int],
            None => None,
        }
    }
}

/// One column of a batch to group.
#[derive(Debug)]
pub enum GroupColumn {
    Integer(IntegerColumn),
    Dictionary(DictionaryColumn),
}

impl GroupColumn {
    /// The number of rows.
    pub open spec fn rows(self) -> nat {
        match self {
            GroupColumn::Integer(column) => column.values@.len(),
            GroupColumn::Dictionary(column) => column.keys@.len(),
        }
    }

    /// The column's own invariant.
    pub open spec fn wf(self) -> bool {
        match self {
            GroupColumn::Integer(column) => column.wf(),
            GroupColumn::Dictionary(column) => column.wf(),
        }
    }

    /// The number of rows.
    pub fn len(&self) -> (result: usize)
        ensures
            result == self.rows(),
    {
        match self {
            GroupColumn::Integer(column) => column.values.len(),
            GroupColumn::Dictionary(column) => column.keys.len(),
        }
    }
}

/// The group keys of a batch, row by row.
pub open spec fn batch_rows(integers: IntegerColumn, dictionary: DictionaryColumn) -> Seq<KeyRow> {
    Seq::new(integers.values@.len(), |row: int| (integers.at(row), dictionary.at(row)))
}

/// The groups after interning `rows`: each row's key is appended where it is not
/// among the groups yet.
pub open spec fn interned(groups: Seq<KeyRow>, rows: Seq<KeyRow>) -> Seq<KeyRow>
    decreases rows.len(),
{
    if rows.len() == 0 {
        groups
    } else {
        let before = interned(groups, rows.drop_last());
        if before.contains(rows.last()) {
            before
        } else {
            before.push(rows.last())
        }
    }
}

/// `ids` numbers `rows` by their places in `groups`.
pub open spec fn numbers(groups: Seq<KeyRow>, rows: Seq<KeyRow>, ids: Seq<usize>) -> bool {
    &&& ids.len() == rows.len()
    &&& forall|i: int|
        0 <= i < ids.len() ==> (#[trigger] ids[i]) < groups.len() && groups[ids[i] as int]
            == rows[i]
}

/// Interning keeps every group at its number, adds no key twice, adds no key
/// that is not in the batch, and leaves every row with a group.
pub proof fn law_interning_keeps_groups(groups: Seq<KeyRow>, rows: Seq<KeyRow>)
    requires
        groups.no_duplicates(),
    ensures
        groups.len() <= interned(groups, rows).len() <= groups.len() + rows.len(),
        interned(groups, rows).take(groups.len() as int) == groups,
        interned(groups, rows).no_duplicates(),
        forall|i: int| 0 <= i < rows.len() ==> interned(groups, rows).contains(#[trigger] rows[i]),
        forall|g: int|
            groups.len() <= g < interned(groups, rows).len() ==> rows.contains(
                #[trigger] interned(groups, rows)[g],
            ),
    decreases rows.len(),
{
    let after = interned(groups, rows);
    if rows.len() == 0 {
        assert(groups.take(groups.len() as int) =~= groups);
    } else {
        let fewer = rows.drop_last();
        law_interning_keeps_groups(groups, fewer);
        let before = interned(groups, fewer);
        assert(after.take(groups.len() as int) =~= before.take(groups.len() as int));
        assert forall|i: int| 0 <= i < rows.len() implies after.contains(#[trigger] rows[i]) by {
            if i < fewer.len() {
                assert(fewer[i] == rows[i]);
                let g = choose|g: int| 0 <= g < before.len() && before[g] == rows[i];
                assert(after[g] == rows[i]);
            } else if !before.contains(rows.last()) {
                assert(after[before.len() as int] == rows[i]);
            }
        }
        assert forall|g: int| groups.len() <= g < after.len() implies rows.contains(
            #[trigger] after[g],
        ) by {
            if g < before.len() {
                assert(before[g] == after[g]);
                let i = choose|i: int| 0 <= i < fewer.len() && fewer[i] == before[g];
                assert(rows[i] == after[g]);
            } else {
                assert(rows[rows.len() - 1] == after[g]);
            }
        }
    }
}

/// Interning two batches one after the other is interning their concatenation.
pub proof fn law_interning_is_incremental(
    groups: Seq<KeyRow>,
    first: Seq<KeyRow>,
    second: Seq<KeyRow>,
)
    ensures
        interned(groups, first + second) == interned(interned(groups, first), second),
    decreases second.len(),
{
    if second.len() == 0 {
        assert(first + second =~= first);
    } else {
        law_interning_is_incremental(groups, first, second.drop_last());
        assert((first + second).drop_last() =~= first + second.drop_last());
    }
}

/// Rows share a number exactly where they share a key.
pub proof fn law_equal_keys_share_a_group(
    groups: Seq<KeyRow>,
    rows: Seq<KeyRow>,
    ids: Seq<usize>,
    i: int,
    j: int,
)
    requires
        groups.no_duplicates(),
        numbers(groups, rows, ids),
        0 <= i < rows.len(),
        0 <= j < rows.len(),
    ensures
        ids[i] == ids[j] <==> rows[i] == rows[j],
{
}

/// The numbers of a batch are determined by the groups.
pub proof fn law_numbers_are_unique(
    groups: Seq<KeyRow>,
    rows: Seq<KeyRow>,
    left: Seq<usize>,
    right: Seq<usize>,
)
    requires
        groups.no_duplicates(),
        numbers(groups, rows, left),
        numbers(groups, rows, right),
    ensures
        left == right,
{
    assert forall|i: int| 0 <= i < left.len() implies left[i] == right[i] by {
        assert(groups[left[i] as int] == groups[right[i] as int]);
    }
    assert(left =~= right);
}

/// Numbers stay right when more rows are interned later.
pub proof fn law_numbers_survive_interning(
    groups: Seq<KeyRow>,
    rows: Seq<KeyRow>,
    ids: Seq<usize>,
    more: Seq<KeyRow>,
)
    requires
        groups.no_duplicates(),
        numbers(groups, rows, ids),
    ensures
        numbers(interned(groups, more), rows, ids),
{
    law_interning_keeps_groups(groups, more);
    let after = interned(groups, more);
    assert forall|i: int| 0 <= i < ids.len() implies (#[trigger] ids[i]) < after.len()
        && after[ids[i] as int] == rows[i] by {
        assert(after.take(groups.len() as int)[ids[i] as int] == groups[ids[i] as int]);
    }
}

/// Which groups to emit.
#[derive(Clone, Copy, Debug, PartialEq, Eq, Structural)]
pub enum EmitTo {
    All,
    First(usize),
}

impl DictionaryColumn {
    /// The bytes at a row, `None` for null.
    pub fn value_at(&self, row: usize) -> (result: Option<&Vec<u8>>)
        requires
            self.wf(),
            row < self.keys@.len(),
        ensures
            match result {
                Some(bytes) => self.at(row as int) == Some(bytes@),
                None => self.at(row as int) is None,
            },
    {
        match self.keys[row] {
            Some(key) => self.values.item(key),
            None => None,
        }
    }
}

impl GroupKey {
    /// The key of the given integer and a copy of the given bytes.
    pub fn of(integer: Option<i64>, value: Option<&Vec<u8>>) -> (result: GroupKey)
        ensures
            result@ == (
                integer,
                match value {
                    Some(bytes) => Some(bytes@),
                    None => None,
                },
            ),
    {
        let value: Option<Vec<u8>> = match value {
            Some(bytes) => {
                let copy: Vec<u8> = bytes.clone();
                assert(copy@ =~= bytes@);
                Some(copy)
            },
            None => None,
        };
        GroupKey { integer, value }
    }

    /// Whether the key's bytes are the given ones.
    pub fn has_value(&self, value: Option<&Vec<u8>>) -> (result: bool)
        ensures
            result == (self@.1 == match value {
                Some(bytes) => Some(bytes@),
                None => None,
            }),
    {
        match (&self.value, value) {
            (Some(own), Some(bytes)) => {
                let equal: bool = own == bytes;
                assert(equal ==> own@ =~= bytes@);
                equal
            },
            (None, None) => true,
            _ => false,
        }
    }
}

/// The keys in reverse order.
pub(crate) fn reversed(keys: Vec<GroupKey>) -> (result: Vec<GroupKey>)
    ensures
        result@.len() == keys@.len(),
        forall|i: int|
            0 <= i < result@.len() ==> (#[trigger] result@[i])@ == keys@[keys@.len() - 1 - i]@,
{
    let ghost all = key_rows(keys@);
    let mut keys: Vec<GroupKey> = keys;
    let count: usize = keys.len();
    let mut result: Vec<GroupKey> = Vec::new();
    while keys.len() > 0
        invariant
            all.len() == count,
            keys@.len() + result@.len() == count,
            forall|i: int| 0 <= i < keys@.len() ==> (#[trigger] keys@[i])@ == all[i],
            forall|i: int| 0 <= i < result@.len() ==> (#[trigger] result@[i])@ == all[count - 1 - i],
        decreases keys@.len(),
    {
        match keys.pop() {
            Some(key) => {
                result.push(key);
            },
            None => {},
        }
    }
    result
}

/// An emitted column.
#[derive(Debug, PartialEq, Eq)]
pub enum EmittedColumn {
    Integer(Vec<Option<i64>>),
    Dictionary(Vec<Option<Vec<u8>>>),
}

/// `columns` holds `rows`, the integers at `integer_index` of the two columns.
pub open spec fn emits(
    columns: Seq<EmittedColumn>,
    integer_index: int,
    rows: Seq<KeyRow>,
) -> bool {
    &&& columns.len() == 2
    &&& columns[integer_index] matches EmittedColumn::Integer(integers)
    &&& columns[1 - integer_index] matches EmittedColumn::Dictionary(values)
    &&& integers@.len() == rows.len()
    &&& values@.len() == rows.len()
    &&& forall|i: int|
        0 <= i < rows.len() ==> #[trigger] rows[i] == (integers@[i], bytes_of(values@[i]))
}

/// The keys as two columns, the integers at `integer_index`.
pub(crate) fn emit_columns(keys: Vec<GroupKey>, integer_index: usize) -> (result: Vec<
    EmittedColumn,
>)
    requires
        integer_index < 2,
    ensures
        emits(result@, integer_index as int, key_rows(keys@)),
{
    let ghost all = key_rows(keys@);
    let mut remaining: Vec<GroupKey> = reversed(keys);
    let mut integers: Vec<Option<i64>> = Vec::new();
    let mut values: Vec<Option<Vec<u8>>> = Vec::new();
    while remaining.len() > 0
        invariant
            integers@.len() == values@.len(),
            integers@.len() + remaining@.len() == all.len(),
            forall|i: int|
                0 <= i < remaining@.len() ==> (#[trigger] remaining@[i])@ == all[all.len() - 1 - i],
            forall|i: int|
                0 <= i < integers@.len() ==> #[trigger] all[i] == (integers@[i], bytes_of(values@[i])),
        decreases remaining@.len(),
    {
        match remaining.pop() {
            Some(key) => {
                assert(key@ == all[integers@.len() as int]);
                integers.push(key.integer);
                values.push(key.value);
            },
            None => {},
        }
    }
    let mut result: Vec<EmittedColumn> = Vec::new();
    if integer_index == 0 {
        result.push(EmittedColumn::Integer(integers));
        result.push(EmittedColumn::Dictionary(values));
    } else {
        result.push(EmittedColumn::Dictionary(values));
        result.push(EmittedColumn::Integer(integers));
    }
    result
}

/// The vectors of the keys' values were found to have room for `total` bytes.
pub(crate) closed spec fn values_retain(keys: Seq<GroupKey>, total: int) -> bool
    decreases keys.len(),
{
    if keys.len() == 0 {
        total == 0
    } else {
        match keys.last().value {
            Some(bytes) => exists|room: usize| #[trigger]
                call_ensures(capacity::<u8>, (&bytes,), room) && values_retain(
                    keys.drop_last(),
                    total - room,
                ),
            None => values_retain(keys.drop_last(), total),
        }
    }
}

/// Bytes that the keys were found to hold on to, at most `usize::MAX`: one entry for
/// each key that there is room for, and the room of the values.
pub(crate) closed spec fn keys_retain(keys: Vec<GroupKey>, bytes: usize) -> bool {
    exists|room: usize, total: int| #[trigger]
        call_ensures(capacity::<GroupKey>, (&keys,), room) && #[trigger] values_retain(
            keys@,
            total,
        ) && bytes == arith::capped(room * KEY_BYTES + total)
}

/// Bytes that the keys hold on to, at most `usize::MAX`.
pub(crate) fn keys_size(keys: &Vec<GroupKey>) -> (result: usize)
    ensures
        keys_retain(*keys, result),
{
    let room: usize = capacity(keys);
    let mut result: usize = match room.checked_mul(KEY_BYTES) {
        Some(bytes) => bytes,
        None => usize::MAX,
    };
    let ghost mut total: int = 0;
    let mut i: usize = 0;
    while i < keys.len()
        invariant
            i <= keys@.len(),
            total >= 0,
            values_retain(keys@.take(i as int), total),
            result == arith::capped(room * KEY_BYTES + total),
        decreases keys@.len() - i,
    {
        assert(keys@.take(i + 1).drop_last() =~= keys@.take(i as int));
        if let Some(bytes) = &keys[i].value {
            let more: usize = capacity(bytes);
            result = result.saturating_add(more);
            proof {
                assert(call_ensures(capacity::<u8>, (bytes,), more));
                assert(values_retain(keys@.take(i + 1).drop_last(), total + more - more));
                total = total + more;
            }
        }
        i = i + 1;
    }
    proof {
        assert(keys@.take(i as int) =~= keys@);
        assert(call_ensures(capacity::<GroupKey>, (keys,), room));
    }
    result
}

/// The key of a row is the integer and the bytes that the columns have there: nothing for
/// an integer whose null flag is set, and nothing where the dictionary key or the value that
/// it refers to is null.
pub proof fn law_keys_are_read_from_the_columns(
    integers: IntegerColumn,
    dictionary: DictionaryColumn,
    row: int,
)
    requires
        0 <= row < integers.values@.len(),
    ensures
        batch_rows(integers, dictionary).len() == integers.values@.len(),
        batch_rows(integers, dictionary)[row].0 == (if integers.nulls@[row] {
            None
        } else {
            Some(integers.values@[row])
        }),
        batch_rows(integers, dictionary)[row].1 == (match dictionary.keys@[row] {
            Some(key) => dictionary.values.rows()[key as int],
            None => None,
        }),
{
}

/// New groups are numbered in the order in which their keys come first: the key of a new
/// group is in a row before which there are only keys of groups with smaller numbers.
pub proof fn law_new_groups_come_in_row_order(
    groups: Seq<KeyRow>,
    rows: Seq<KeyRow>,
    group: int,
)
    requires
        groups.no_duplicates(),
        groups.len() <= group < interned(groups, rows).len(),
    ensures
        exists|i: int|
            0 <= i < rows.len() && #[trigger] rows[i] == interned(groups, rows)[group] && forall|j: int|
                0 <= j < i ==> interned(groups, rows).take(group).contains(#[trigger] rows[j]),
    decreases rows.len(),
{
    let after = interned(groups, rows);
    if rows.len() > 0 {
        let fewer = rows.drop_last();
        let before = interned(groups, fewer);
        law_interning_keeps_groups(groups, fewer);
        if group < before.len() {
            law_new_groups_come_in_row_order(groups, fewer, group);
            let i = choose|i: int|
                0 <= i < fewer.len() && #[trigger] fewer[i] == before[group] && forall|j: int|
                    0 <= j < i ==> before.take(group).contains(#[trigger] fewer[j]);
            assert(rows[i] == after[group]);
            assert(after.take(group) =~= before.take(group));
            assert forall|j: int| 0 <= j < i implies after.take(group).contains(
                #[trigger] rows[j],
            ) by {
                assert(before.take(group).contains(fewer[j]));
            }
        } else {
            let i = rows.len() - 1;
            assert(rows[i] == after[group]);
            assert(after.take(group) =~= before);
            assert forall|j: int| 0 <= j < i implies after.take(group).contains(
                #[trigger] rows[j],
            ) by {
                assert(before.contains(fewer[j]));
            }
        }
    }
}

/// Every row gets the number of a group, and that group has the key of the row.
pub proof fn law_numbers_lead_to_the_keys(
    groups: Seq<KeyRow>,
    rows: Seq<KeyRow>,
    ids: Seq<usize>,
    row: int,
)
    requires
        numbers(groups, rows, ids),
        0 <= row < rows.len(),
    ensures
        ids.len() == rows.len(),
        0 <= ids[row] < groups.len(),
        groups[ids[row] as int].0 == rows[row].0,
        groups[ids[row] as int].1 == rows[row].1,
{
    assert(ids[row] < groups.len());
}

/// The rows that two columns of integers and byte strings make.
pub open spec fn rows_of(
    integers: Seq<Option<i64>>,
    values: Seq<Option<Vec<u8>>>,
) -> Seq<KeyRow> {
    Seq::new(
        integers.len(),
        |i: int|
            (
                integers[i],
                match values[i] {
                    Some(bytes) => Some(bytes@),
                    None => None,
                },
            ),
    )
}

/// Emitted columns hold the keys of the groups, row by row and in full: the integers in the
/// one column, and in the other all bytes of each value. Interning what was emitted into no
/// groups gives the same groups.
pub proof fn law_emitted_columns_are_the_groups(
    columns: Seq<EmittedColumn>,
    integer_index: int,
    groups: Seq<KeyRow>,
)
    requires
        integer_index == 0 || integer_index == 1,
        emits(columns, integer_index, groups),
    ensures
        columns.len() == 2,
        match (columns[integer_index], columns[1 - integer_index]) {
            (EmittedColumn::Integer(integers), EmittedColumn::Dictionary(values)) => {
                &&& integers@.len() == groups.len()
                &&& values@.len() == groups.len()
                &&& forall|g: int|
                    0 <= g < groups.len() ==> #[trigger] integers@[g] == groups[g].0
                &&& forall|g: int|
                    0 <= g < groups.len() ==> match #[trigger] values@[g] {
                        Some(bytes) => groups[g].1 == Some(bytes@),
                        None => groups[g].1 is None,
                    }
                &&& rows_of(integers@, values@) == groups
                &&& groups.no_duplicates() ==> interned(
                    Seq::empty(),
                    rows_of(integers@, values@),
                ) == groups
            },
            _ => false,
        },
{
    if let (EmittedColumn::Integer(integers), EmittedColumn::Dictionary(values)) = (
        columns[integer_index],
        columns[1 - integer_index],
    ) {
        assert forall|g: int| 0 <= g < groups.len() implies #[trigger] groups[g] == rows_of(
            integers@,
            values@,
        )[g] by {
            assert(groups[g].0 == integers@[g]);
        }
        assert forall|g: int| 0 <= g < groups.len() implies #[trigger] integers@[g] == groups[g].0 by {
            assert(groups[g] == rows_of(integers@, values@)[g]);
        }
        assert forall|g: int| 0 <= g < groups.len() implies match #[trigger] values@[g] {
            Some(bytes) => groups[g].1 == Some(bytes@),
            None => groups[g].1 is None,
        } by {
            assert(groups[g] == rows_of(integers@, values@)[g]);
        }
        assert(rows_of(integers@, values@) =~= groups);
        if groups.no_duplicates() {
            lemma_interned_distinct(groups);
        }
    }
}

/// Interning different keys into no groups gives these keys.
proof fn lemma_interned_distinct(rows: Seq<KeyRow>)
    requires
        rows.no_duplicates(),
    ensures
        interned(Seq::empty(), rows) == rows,
    decreases rows.len(),
{
    if rows.len() > 0 {
        let fewer = rows.drop_last();
        assert(fewer.no_duplicates());
        lemma_interned_distinct(fewer);
        assert(!fewer.contains(rows.last()));
        assert(fewer.push(rows.last()) =~= rows);
    } else {
        assert(rows =~= Seq::empty());
    }
}

/// What was interned comes out again: the emitted columns have, at the number that a row
/// got, the integer and all bytes that the row has in the columns of the batch.
pub proof fn law_emitted_rows_are_the_interned_rows(
    before: Seq<KeyRow>,
    integers: IntegerColumn,
    dictionary: DictionaryColumn,
    ids: Seq<usize>,
    columns: Seq<EmittedColumn>,
    integer_index: int,
    row: int,
)
    requires
        integers.wf(),
        dictionary.wf(),
        integers.values@.len() == dictionary.keys@.len(),
        numbers(
            interned(before, batch_rows(integers, dictionary)),
            batch_rows(integers, dictionary),
            ids,
        ),
        integer_index == 0 || integer_index == 1,
        emits(columns, integer_index, interned(before, batch_rows(integers, dictionary))),
        0 <= row < integers.values@.len(),
    ensures
        match (columns[integer_index], columns[1 - integer_index]) {
            (EmittedColumn::Integer(keys), EmittedColumn::Dictionary(values)) => {
                let group = ids[row] as int;
                &&& 0 <= group < keys@.len()
                &&& keys@.len() == values@.len()
                &&& keys@[group] is None <==> integers.nulls@[row]
                &&& keys@[group] matches Some(integer) ==> integer == integers.values@[row]
                &&& match (values@[group], dictionary.keys@[row]) {
                    (Some(bytes), Some(key)) => dictionary.values.rows()[key as int] == Some(bytes@),
                    (None, Some(key)) => dictionary.values.rows()[key as int] is None,
                    (None, None) => true,
                    (Some(_), None) => false,
                }
            },
            _ => false,
        },
{
    let rows = batch_rows(integers, dictionary);
    law_keys_are_read_from_the_columns(integers, dictionary, row);
    law_numbers_lead_to_the_keys(interned(before, rows), rows, ids, row);
    law_emitted_columns_are_the_groups(columns, integer_index, interned(before, rows));
    if let (EmittedColumn::Integer(keys), EmittedColumn::Dictionary(values)) = (
        columns[integer_index],
        columns[1 - integer_index],
    ) {
        assert(keys@[ids[row] as int] == rows[row].0);
        assert(values@[ids[row] as int] is Some ==> rows[row].1 is Some);
    }
}

/// Two rows have the same key: both integers are null or they are the same, and both values
/// are null or have the same bytes.
pub open spec fn same_key(
    integers: IntegerColumn,
    dictionary: DictionaryColumn,
    row: int,
    other: int,
) -> bool {
    &&& integers.nulls@[row] == integers.nulls@[other]
    &&& integers.nulls@[row] || integers.values@[row] == integers.values@[other]
    &&& match (dictionary.keys@[row], dictionary.keys@[other]) {
        (Some(left), Some(right)) => dictionary.values.rows()[left as int]
            == dictionary.values.rows()[right as int],
        (Some(left), None) => dictionary.values.rows()[left as int] is None,
        (None, Some(right)) => dictionary.values.rows()[right as int] is None,
        (None, None) => true,
    }
}

/// A key holds the integer and the bytes that it was made of, and has the value of these
/// bytes and no other.
pub proof fn law_keys_have_their_values(
    integer: Option<i64>,
    value: Option<&Vec<u8>>,
    key: GroupKey,
    other: Option<&Vec<u8>>,
    has: bool,
)
    requires
        call_ensures(GroupKey::of, (integer, value), key),
        call_ensures(GroupKey::has_value, (&key, other), has),
    ensures
        key.integer == integer,
        match (key.value, value) {
            (Some(own), Some(bytes)) => own@ == bytes@,
            (None, None) => true,
            _ => false,
        },
        has == match (value, other) {
            (Some(left), Some(right)) => left@ == right@,
            (None, None) => true,
            _ => false,
        },
{
}

/// The value at a row of a dictionary column is the item that its key refers to; a null key
/// has none.
pub proof fn law_dictionary_values_are_looked_up(
    column: &DictionaryColumn,
    row: usize,
    value: Option<&Vec<u8>>,
    item: Option<&Vec<u8>>,
)
    requires
        column.wf(),
        row < column.keys@.len(),
        call_ensures(DictionaryColumn::value_at, (column, row), value),
        column.keys@[row as int] matches Some(key) ==> call_ensures(
            DictionaryValues::item,
            (&*column.values, key),
            item,
        ),
    ensures
        column.keys@[row as int] is None ==> value is None,
        column.keys@[row as int] is Some ==> match (value, item) {
            (Some(left), Some(right)) => left@ == right@,
            (None, None) => true,
            _ => false,
        },
{
}

/// The values of a dictionary are those of the array, null where the array is, and an array
/// that has neither byte strings nor strings is refused.
pub proof fn law_dictionary_values_are_those_of_the_array(
    data: ArrayData,
    result: Result<DictionaryValues, ExecError>,
    count: usize,
    position: usize,
    item: Option<&Vec<u8>>,
)
    requires
        call_ensures(DictionaryValues::new, (data,), result),
        result is Ok ==> call_ensures(DictionaryValues::len, (&result->Ok_0,), count),
        result is Ok ==> position < count ==> call_ensures(
            DictionaryValues::item,
            (&result->Ok_0, position),
            item,
        ),
    ensures
        result is Ok <==> arrays::kind_of(data) == ArrayKind::Binary || arrays::kind_of(data)
            == ArrayKind::Utf8,
        result is Err ==> result->Err_0 is UnexpectedColumn,
        result is Ok ==> count == arrays::array_rows(data).len(),
        result is Ok && position < count ==> match item {
            Some(bytes) => arrays::array_rows(data)[position as int] == Some(bytes@),
            None => arrays::array_rows(data)[position as int] is None,
        },
{
}

/// The bytes in the values of keys.
pub open spec fn value_bytes(keys: Seq<KeyRow>) -> int
    decreases keys.len(),
{
    if keys.len() == 0 {
        0
    } else {
        value_bytes(keys.drop_last()) + match keys.last().1 {
            Some(bytes) => bytes.len() as int,
            None => 0,
        }
    }
}

proof fn lemma_values_retain(keys: Seq<GroupKey>, total: int)
    requires
        values_retain(keys, total),
    ensures
        total >= value_bytes(key_rows(keys)) >= 0,
    decreases keys.len(),
{
    if keys.len() > 0 {
        let fewer = keys.drop_last();
        assert(key_rows(keys).drop_last() =~= key_rows(fewer));
        match keys.last().value {
            Some(bytes) => {
                let room = choose|room: usize| #[trigger]
                    call_ensures(capacity::<u8>, (&bytes,), room) && values_retain(
                        fewer,
                        total - room,
                    );
                assert(room >= bytes@.len());
                lemma_values_retain(fewer, total - room);
            },
            None => {
                lemma_values_retain(fewer, total);
            },
        }
    }
}

/// Keys hold on to 40 bytes each and to the bytes of their values, as far as they can be
/// counted.
pub(crate) proof fn lemma_keys_retain(keys: Vec<GroupKey>, bytes: usize)
    requires
        keys_retain(keys, bytes),
    ensures
        bytes < usize::MAX ==> bytes >= 40 * keys@.len() + value_bytes(key_rows(keys@)),
        value_bytes(key_rows(keys@)) >= 0,
{
    let (room, total) = choose|room: usize, total: int| #[trigger]
        call_ensures(capacity::<GroupKey>, (&keys,), room) && #[trigger] values_retain(
            keys@,
            total,
        ) && bytes == arith::capped(room * KEY_BYTES + total);
    assert(room >= keys@.len());
    lemma_values_retain(keys@, total);
}

/// A column has as many rows as it has integers or keys.
pub proof fn law_columns_count_their_rows(column: &GroupColumn, count: usize)
    requires
        call_ensures(GroupColumn::len, (column,), count),
    ensures
        match *column {
            GroupColumn::Integer(integers) => count == integers.values@.len(),
            GroupColumn::Dictionary(dictionary) => count == dictionary.keys@.len(),
        },
{
}

} // verus!
