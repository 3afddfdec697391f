//! Exact distinct counts of small integers.
use crate::arrays;
use crate::column_values;
use crate::column_values::{Cell, CellValue, ColumnValues};
use crate::error::ExecError;
use crate::shared::capacity;
use vstd::prelude::*;

verus! {

/// The small integer types.
#[derive(Clone, Copy, Debug, PartialEq, Eq, Structural)]
pub enum SmallInt {
    UInt8,
    Int8,
    UInt16,
    Int16,
}

impl SmallInt {
    /// The number of values of the type.
    pub open spec fn slots(self) -> int {
        match self {
            SmallInt::UInt8 => 256,
            SmallInt::Int8 => 256,
            SmallInt::UInt16 => 65536,
            SmallInt::Int16 => 65536,
        }
    }

    /// Whether a column is of the type.
    pub open spec fn counts(self, column: ColumnValues) -> bool {
        match self {
            SmallInt::UInt8 => column is UInt8,
            SmallInt::Int8 => column is Int8,
            SmallInt::UInt16 => column is UInt16,
            SmallInt::Int16 => column is Int16,
        }
    }

    /// Whether the type has negative values.
    pub open spec fn is_signed(self) -> bool {
        self is Int8 || self is Int16
    }
}

/// The slot of a value among `slots`: negative values follow the others.
pub open spec fn slot_of(value: int, slots: int) -> int {
    if value < 0 {
        value + slots
    } else {
        value
    }
}

/// The value of a slot among `slots`.
pub open spec fn value_of(slot: int, slots: int, signed: bool) -> int {
    if signed && slot >= slots / 2 {
        slot - slots
    } else {
        slot
    }
}

/// Whether the value of a slot is in a row.
pub open spec fn occurs(rows: Seq<Option<Cell>>, slot: int, slots: int) -> bool {
    exists|r: int|
        0 <= r < rows.len() && #[trigger] rows[r] is Some && rows[r]->0 is Number && slot_of(
            rows[r]->0->Number_0,
            slots,
        ) == slot
}

/// The slots seen after the values of a column were counted.
pub open spec fn counted(seen: Seq<bool>, rows: Seq<Option<Cell>>) -> Seq<bool> {
    Seq::new(seen.len(), |i: int| seen[i] || occurs(rows, i, seen.len() as int))
}

/// Small integers, each with a slot of its own.
pub trait SlotValue: CellValue {
    /// The number of slots.
    spec fn slots() -> int;

    /// The slot of the value.
    fn slot(&self) -> (result: usize)
        ensures
            result < Self::slots(),
            self.cell() is Number,
            result == slot_of(self.cell()->Number_0, Self::slots()),
    ;
}

impl SlotValue for u8 {
    open spec fn slots() -> int {
        256
    }

    fn slot(&self) -> usize {
        *self as usize
    }
}

impl SlotValue for i8 {
    open spec fn slots() -> int {
        256
    }

    fn slot(&self) -> usize {
        if *self < 0 {
            (*self as i32 + 256) as usize
        } else {
            *self as usize
        }
    }
}

impl SlotValue for u16 {
    open spec fn slots() -> int {
        65536
    }

    fn slot(&self) -> usize {
        *self as usize
    }
}

impl SlotValue for i16 {
    open spec fn slots() -> int {
        65536
    }

    fn slot(&self) -> usize {
        if *self < 0 {
            (*self as i32 + 65536) as usize
        } else {
            *self as usize
        }
    }
}

fn mark<T: SlotValue>(seen: &mut Vec<bool>, values: &Vec<Option<T>>)
    requires
        old(seen)@.len() == T::slots(),
    ensures
        final(seen)@ == counted(old(seen)@, column_values::cells(values@)),
{
    let ghost before = seen@;
    let ghost slots = T::slots();
    let mut r: usize = 0;
    proof {
        assert(counted(before, column_values::cells(values@.take(0))) =~= before);
    }
    while r < values.len()
        invariant
            r <= values@.len(),
            before.len() == slots,
            slots == T::slots(),
            seen@ == counted(before, column_values::cells(values@.take(r as int))),
        decreases values@.len() - r,
    {
        let ghost done = column_values::cells(values@.take(r as int));
        let ghost more = column_values::cells(values@.take(r + 1));
        let ghost seen0 = seen@;
        proof {
            assert(more =~= done.push(column_values::cells(values@)[r as int]));
        }
        if let Some(value) = &values[r] {
            let slot: usize = value.slot();
            seen[slot] = true;
            proof {
                assert forall|i: int| 0 <= i < slots implies #[trigger] seen@[i] == (before[i]
                    || occurs(more, i, slots)) by {
                    lemma_occurs_pushed(done, column_values::cells(values@)[r as int], i, slots);
                    assert(seen0[i] == (before[i] || occurs(done, i, slots)));
                }
            }
        } else {
            proof {
                assert forall|i: int| 0 <= i < slots implies #[trigger] seen@[i] == (before[i]
                    || occurs(more, i, slots)) by {
                    lemma_occurs_pushed(done, None, i, slots);
                    assert(seen0[i] == (before[i] || occurs(done, i, slots)));
                }
            }
        }
        r = r + 1;
        proof {
            assert(seen@ =~= counted(before, more));
        }
    }
    proof {
        assert(values@.take(r as int) =~= values@);
    }
}

proof fn lemma_occurs_pushed(rows: Seq<Option<Cell>>, row: Option<Cell>, slot: int, slots: int)
    ensures
        occurs(rows.push(row), slot, slots) == (occurs(rows, slot, slots) || (row is Some
            && row->0 is Number && slot_of(row->0->Number_0, slots) == slot)),
{
    let more = rows.push(row);
    if occurs(rows, slot, slots) {
        let r = choose|r: int|
            0 <= r < rows.len() && #[trigger] rows[r] is Some && rows[r]->0 is Number && slot_of(
                rows[r]->0->Number_0,
                slots,
            ) == slot;
        assert(more[r] == rows[r]);
    }
    if row is Some && row->0 is Number && slot_of(row->0->Number_0, slots) == slot {
        assert(more[rows.len() as int] == row);
    }
    if occurs(more, slot, slots) {
        let r = choose|r: int|
            0 <= r < more.len() && #[trigger] more[r] is Some && more[r]->0 is Number && slot_of(
                more[r]->0->Number_0,
                slots,
            ) == slot;
        if r < rows.len() {
            assert(more[r] == rows[r]);
        }
    }
}

/// The slots seen after lists of values were counted one after the other; null lists
/// are passed over.
pub open spec fn counted_lists(seen: Seq<bool>, lists: Seq<Option<ColumnValues>>) -> Seq<bool>
    decreases lists.len(),
{
    if lists.len() == 0 {
        seen
    } else {
        let before = counted_lists(seen, lists.drop_last());
        match lists.last() {
            Some(list) => counted(before, list.rows()),
            None => before,
        }
    }
}

/// How many of the first lists are null or of the type.
pub open spec fn lists_of_type(kind: SmallInt, lists: Seq<Option<ColumnValues>>) -> int
    decreases lists.len(),
{
    if lists.len() == 0 {
        0
    } else if lists_of_type(kind, lists.drop_last()) < lists.len() - 1 {
        lists_of_type(kind, lists.drop_last())
    } else if lists.last() is None || kind.counts(lists.last()->0) {
        lists.len() as int
    } else {
        lists.len() - 1
    }
}

/// The values of the slots seen, by slot.
pub open spec fn listed(seen: Seq<bool>, signed: bool) -> Seq<int> {
    let slots = arrays::set_positions(seen);
    Seq::new(slots.len(), |k: int| value_of(slots[k], seen.len() as int, signed))
}

/// Which values of a small integer type were seen.
#[derive(Debug)]
pub struct DistinctCounter {
    kind: SmallInt,
    seen: Vec<bool>,
}

impl DistinctCounter {
    /// The type of the values.
    pub closed spec fn kind(self) -> SmallInt {
        self.kind
    }

    /// The slots of the values seen.
    pub closed spec fn seen(self) -> Seq<bool> {
        self.seen@
    }

    /// Each value of the type has a slot.
    pub open spec fn wf(self) -> bool {
        self.seen().len() == self.kind().slots()
    }

    /// No values seen.
    pub fn new(kind: SmallInt) -> (result: DistinctCounter)
        ensures
            result.wf(),
            result.kind() == kind,
            forall|i: int| 0 <= i < kind.slots() ==> !(#[trigger] result.seen()[i]),
    {
        let slots: usize = match kind {
            SmallInt::UInt8 => 256,
            SmallInt::Int8 => 256,
            SmallInt::UInt16 => 65536,
            SmallInt::Int16 => 65536,
        };
        DistinctCounter { kind, seen: vec![false; slots] }
    }

    /// Counts the values of a column.
    pub fn update_batch(&mut self, column: &ColumnValues) -> (result: Result<(), ExecError>)
        requires
            old(self).wf(),
        ensures
            final(self).wf(),
            final(self).kind() == old(self).kind(),
            match result {
                Ok(()) => old(self).kind().counts(*column) && final(self).seen() == counted(
                    old(self).seen(),
                    column.rows(),
                ),
                Err(error) => !old(self).kind().counts(*column) && error is UnexpectedColumn
                    && final(self).seen() == old(self).seen(),
            },
    {
        match (self.kind, column) {
            (SmallInt::UInt8, ColumnValues::UInt8(values)) => mark(&mut self.seen, values),
            (SmallInt::Int8, ColumnValues::Int8(values)) => mark(&mut self.seen, values),
            (SmallInt::UInt16, ColumnValues::UInt16(values)) => mark(&mut self.seen, values),
            (SmallInt::Int16, ColumnValues::Int16(values)) => mark(&mut self.seen, values),
            _ => {
                return Err(ExecError::UnexpectedColumn);
            },
        }
        Ok(())
    }

    /// Counts the values of lists, up to the first that is of another type.
    pub fn merge_batch(&mut self, lists: &Vec<Option<ColumnValues>>) -> (result: Result<
        (),
        ExecError,
    >)
        requires
            old(self).wf(),
        ensures
            final(self).wf(),
            final(self).kind() == old(self).kind(),
            final(self).seen() == counted_lists(
                old(self).seen(),
                lists@.take(lists_of_type(old(self).kind(), lists@)),
            ),
            match result {
                Ok(()) => lists_of_type(old(self).kind(), lists@) == lists@.len(),
                Err(error) => lists_of_type(old(self).kind(), lists@) < lists@.len()
                    && error is UnexpectedColumn,
            },
    {
        let ghost before = self.seen();
        let ghost kind = self.kind();
        let mut i: usize = 0;
        proof {
            assert(counted_lists(before, lists@.take(0)) == before);
            assert(lists_of_type(kind, lists@.take(0)) == 0);
        }
        while i < lists.len()
            invariant
                i <= lists@.len(),
                self.wf(),
                self.kind() == kind,
                before == old(self).seen(),
                kind == old(self).kind(),
                self.seen() == counted_lists(before, lists@.take(i as int)),
                lists_of_type(kind, lists@.take(i as int)) == i,
            decreases lists@.len() - i,
        {
            proof {
                assert(lists@.take(i + 1).drop_last() =~= lists@.take(i as int));
                assert(lists@.take(i + 1).last() == lists@[i as int]);
            }
            if let Some(list) = &lists[i] {
                match self.update_batch(list) {
                    Ok(()) => {},
                    Err(error) => {
                        proof {
                            lemma_lists_of_type(kind, lists@, i + 1);
                        }
                        return Err(error);
                    },
                }
            }
            i = i + 1;
        }
        proof {
            assert(lists@.take(i as int) =~= lists@);
        }
        Ok(())
    }

    /// The number of values seen.
    pub fn count(&self) -> (result: usize)
        requires
            self.wf(),
        ensures
            result == arrays::set_positions(self.seen()).len(),
            result <= 65536,
    {
        let mut count: usize = 0;
        let mut i: usize = 0;
        proof {
            assert(self.seen@.take(0) =~= Seq::empty());
        }
        while i < self.seen.len()
            invariant
                i <= self.seen@.len(),
                self.seen@.len() <= 65536,
                count <= i,
                count == arrays::set_positions(self.seen@.take(i as int)).len(),
            decreases self.seen@.len() - i,
        {
            proof {
                assert(self.seen@.take(i + 1).drop_last() =~= self.seen@.take(i as int));
            }
            if self.seen[i] {
                count = count + 1;
            }
            i = i + 1;
        }
        proof {
            assert(self.seen@.take(i as int) =~= self.seen@);
        }
        count
    }

    /// The values seen.
    pub fn values(&self) -> (result: Vec<i64>)
        requires
            self.wf(),
        ensures
            result@.len() == listed(self.seen(), self.kind().is_signed()).len(),
            forall|k: int|
                0 <= k < result@.len() ==> (#[trigger] result@[k]) == listed(
                    self.seen(),
                    self.kind().is_signed(),
                )[k],
    {
        let signed: bool = match self.kind {
            SmallInt::Int8 => true,
            SmallInt::Int16 => true,
            _ => false,
        };
        let slots: usize = self.seen.len();
        let mut result: Vec<i64> = Vec::new();
        let mut i: usize = 0;
        proof {
            assert(self.seen@.take(0) =~= Seq::empty());
        }
        while i < slots
            invariant
                i <= slots,
                slots == self.seen@.len(),
                slots == 256 || slots == 65536,
                signed == self.kind.is_signed(),
                result@.len() == arrays::set_positions(self.seen@.take(i as int)).len(),
                forall|k: int|
                    0 <= k < result@.len() ==> (#[trigger] result@[k]) == value_of(
                        arrays::set_positions(self.seen@.take(i as int))[k],
                        slots as int,
                        signed,
                    ),
            decreases slots - i,
        {
            proof {
                assert(self.seen@.take(i + 1).drop_last() =~= self.seen@.take(i as int));
            }
            if self.seen[i] {
                if signed && i >= slots / 2 {
                    result.push(i as i64 - slots as i64);
                } else {
                    result.push(i as i64);
                }
            }
            i = i + 1;
        }
        proof {
            assert(self.seen@.take(i as int) =~= self.seen@);
        }
        result
    }

    /// The bytes that were found to be allocated for the slots.
    pub closed spec fn retains(self, bytes: usize) -> bool {
        call_ensures(capacity::<bool>, (&self.seen,), bytes)
    }

    /// The bytes allocated for the slots, at least one for each.
    pub fn size(&self) -> (result: usize)
        ensures
            self.retains(result),
            result >= self.seen().len(),
    {
        capacity(&self.seen)
    }
}

proof fn lemma_lists_of_type(kind: SmallInt, lists: Seq<Option<ColumnValues>>, bad: int)
    requires
        1 <= bad <= lists.len(),
        lists_of_type(kind, lists.take(bad)) == bad - 1,
    ensures
        lists_of_type(kind, lists) == bad - 1,
    decreases lists.len(),
{
    if bad == lists.len() {
        assert(lists.take(bad) =~= lists);
    } else {
        assert(lists.drop_last().take(bad) =~= lists.take(bad));
        lemma_lists_of_type(kind, lists.drop_last(), bad);
    }
}

/// A slot stands for one value: the value listed for it has that slot.
pub proof fn law_slots_and_values_agree(kind: SmallInt, slot: int)
    requires
        0 <= slot < kind.slots(),
    ensures
        slot_of(value_of(slot, kind.slots(), kind.is_signed()), kind.slots()) == slot,
{
}

/// The values listed by one counter, counted by a counter that saw nothing, give what
/// the first saw.
pub proof fn law_listed_values_restore_the_counter(
    kind: SmallInt,
    seen: Seq<bool>,
    empty: Seq<bool>,
    rows: Seq<Option<Cell>>,
)
    requires
        seen.len() == kind.slots(),
        empty.len() == kind.slots(),
        forall|i: int| 0 <= i < empty.len() ==> !(#[trigger] empty[i]),
        rows == Seq::new(
            listed(seen, kind.is_signed()).len(),
            |k: int| Some(Cell::Number(listed(seen, kind.is_signed())[k])),
        ),
    ensures
        counted(empty, rows) == seen,
{
    let slots = kind.slots();
    let positions = arrays::set_positions(seen);
    arrays::lemma_set_positions(seen);
    assert forall|i: int| 0 <= i < slots implies occurs(rows, i, slots) == seen[i] by {
        if seen[i] {
            assert(positions.contains(i));
            let k = choose|k: int| 0 <= k < positions.len() && positions[k] == i;
            law_slots_and_values_agree(kind, i);
            assert(rows[k] is Some);
        }
        if occurs(rows, i, slots) {
            let r = choose|r: int|
                0 <= r < rows.len() && #[trigger] rows[r] is Some && rows[r]->0 is Number
                    && slot_of(rows[r]->0->Number_0, slots) == i;
            law_slots_and_values_agree(kind, positions[r]);
            assert(seen[positions[r]]);
        }
    }
    assert(counted(empty, rows) =~= seen);
}

/// Counting two columns one after the other is counting their rows together.
pub proof fn law_counting_in_parts(
    seen: Seq<bool>,
    first: Seq<Option<Cell>>,
    second: Seq<Option<Cell>>,
)
    ensures
        counted(counted(seen, first), second) == counted(seen, first + second),
{
    let slots = seen.len() as int;
    let both = first + second;
    assert forall|i: int| 0 <= i < slots implies occurs(both, i, slots) == (occurs(first, i, slots)
        || occurs(second, i, slots)) by {
        if occurs(first, i, slots) {
            let r = choose|r: int|
                0 <= r < first.len() && #[trigger] first[r] is Some && first[r]->0 is Number
                    && slot_of(first[r]->0->Number_0, slots) == i;
            assert(both[r] == first[r]);
        }
        if occurs(second, i, slots) {
            let r = choose|r: int|
                0 <= r < second.len() && #[trigger] second[r] is Some && second[r]->0 is Number
                    && slot_of(second[r]->0->Number_0, slots) == i;
            assert(both[first.len() + r] == second[r]);
        }
        if occurs(both, i, slots) {
            let r = choose|r: int|
                0 <= r < both.len() && #[trigger] both[r] is Some && both[r]->0 is Number
                    && slot_of(both[r]->0->Number_0, slots) == i;
            if r < first.len() {
                assert(both[r] == first[r]);
            } else {
                assert(both[r] == second[r - first.len()]);
            }
        }
    }
    assert(counted(counted(seen, first), second) =~= counted(seen, first + second));
}

/// Whether a number is a value of the type.
pub open spec fn is_value(kind: SmallInt, number: int) -> bool {
    match kind {
        SmallInt::UInt8 => 0 <= number <= 255,
        SmallInt::Int8 => -128 <= number <= 127,
        SmallInt::UInt16 => 0 <= number <= 65535,
        SmallInt::Int16 => -32768 <= number <= 32767,
    }
}

/// Whether a number is in a row of a column of small integers.
pub open spec fn has_number(column: ColumnValues, number: int) -> bool {
    match column {
        ColumnValues::UInt8(values) => exists|r: int|
            0 <= r < values@.len() && (#[trigger] values@[r] matches Some(value) && value == number),
        ColumnValues::Int8(values) => exists|r: int|
            0 <= r < values@.len() && (#[trigger] values@[r] matches Some(value) && value == number),
        ColumnValues::UInt16(values) => exists|r: int|
            0 <= r < values@.len() && (#[trigger] values@[r] matches Some(value) && value == number),
        ColumnValues::Int16(values) => exists|r: int|
            0 <= r < values@.len() && (#[trigger] values@[r] matches Some(value) && value == number),
        _ => false,
    }
}

/// A counter takes the columns of its type and no others.
pub proof fn law_counters_take_their_type(kind: SmallInt, column: ColumnValues)
    ensures
        kind.counts(column) <==> match (kind, column) {
            (SmallInt::UInt8, ColumnValues::UInt8(_)) => true,
            (SmallInt::Int8, ColumnValues::Int8(_)) => true,
            (SmallInt::UInt16, ColumnValues::UInt16(_)) => true,
            (SmallInt::Int16, ColumnValues::Int16(_)) => true,
            _ => false,
        },
{
}

/// Every value of a type has a slot, from which it is read again, and no two values share
/// one.
pub proof fn law_values_have_slots_of_their_own(kind: SmallInt, left: int, right: int)
    requires
        is_value(kind, left),
        is_value(kind, right),
    ensures
        0 <= slot_of(left, kind.slots()) < kind.slots(),
        slot_of(left, kind.slots()) == slot_of(right, kind.slots()) <==> left == right,
        value_of(slot_of(left, kind.slots()), kind.slots(), kind.is_signed()) == left,
{
}

/// A number is listed where it is a value of the type whose slot was seen.
proof fn lemma_listed(kind: SmallInt, seen: Seq<bool>, number: int)
    requires
        seen.len() == kind.slots(),
    ensures
        listed(seen, kind.is_signed()).contains(number) <==> is_value(kind, number)
            && seen[slot_of(number, kind.slots())],
{
    let slots = kind.slots();
    let positions = arrays::set_positions(seen);
    let values = listed(seen, kind.is_signed());
    arrays::lemma_set_positions(seen);
    if values.contains(number) {
        let k = choose|k: int| 0 <= k < values.len() && values[k] == number;
        assert(seen[positions[k]]);
        law_slots_and_values_agree(kind, positions[k]);
    }
    if is_value(kind, number) && seen[slot_of(number, slots)] {
        law_values_have_slots_of_their_own(kind, number, number);
        assert(positions.contains(slot_of(number, slots)));
        let k = choose|k: int| 0 <= k < positions.len() && positions[k] == slot_of(number, slots);
        assert(values[k] == number);
    }
}

/// A slot occurs in a column where its value is in a row.
proof fn lemma_occurs(kind: SmallInt, column: ColumnValues, number: int)
    requires
        kind.counts(column),
        is_value(kind, number),
    ensures
        occurs(column.rows(), slot_of(number, kind.slots()), kind.slots()) <==> has_number(
            column,
            number,
        ),
{
    let slots = kind.slots();
    let rows = column.rows();
    let slot = slot_of(number, slots);
    if occurs(rows, slot, slots) {
        let r = choose|r: int|
            0 <= r < rows.len() && #[trigger] rows[r] is Some && rows[r]->0 is Number && slot_of(
                rows[r]->0->Number_0,
                slots,
            ) == slot;
        let found = rows[r]->0->Number_0;
        assert(is_value(kind, found) && has_number(column, found)) by {
            match column {
                ColumnValues::UInt8(values) => {
                    assert(values@[r] is Some);
                },
                ColumnValues::Int8(values) => {
                    assert(values@[r] is Some);
                },
                ColumnValues::UInt16(values) => {
                    assert(values@[r] is Some);
                },
                ColumnValues::Int16(values) => {
                    assert(values@[r] is Some);
                },
                _ => {},
            }
        }
        law_values_have_slots_of_their_own(kind, number, found);
    }
    if has_number(column, number) {
        let r = match column {
            ColumnValues::UInt8(values) => choose|r: int|
                0 <= r < values@.len() && (#[trigger] values@[r] matches Some(value) && value
                    == number),
            ColumnValues::Int8(values) => choose|r: int|
                0 <= r < values@.len() && (#[trigger] values@[r] matches Some(value) && value
                    == number),
            ColumnValues::UInt16(values) => choose|r: int|
                0 <= r < values@.len() && (#[trigger] values@[r] matches Some(value) && value
                    == number),
            ColumnValues::Int16(values) => choose|r: int|
                0 <= r < values@.len() && (#[trigger] values@[r] matches Some(value) && value
                    == number),
            _ => 0,
        };
        assert(rows[r] == Some(Cell::Number(number)));
    }
}

proof fn lemma_has_value(kind: SmallInt, column: ColumnValues, number: int)
    requires
        kind.counts(column),
        has_number(column, number),
    ensures
        is_value(kind, number),
{
}

/// After a column the values listed are those listed before and those in the rows of the
/// column that are not null, and no others.
pub proof fn law_listed_values_are_those_of_the_rows(
    kind: SmallInt,
    seen: Seq<bool>,
    column: ColumnValues,
    number: int,
)
    requires
        seen.len() == kind.slots(),
        kind.counts(column),
    ensures
        listed(counted(seen, column.rows()), kind.is_signed()).contains(number) <==> listed(
            seen,
            kind.is_signed(),
        ).contains(number) || has_number(column, number),
{
    let after = counted(seen, column.rows());
    lemma_listed(kind, seen, number);
    lemma_listed(kind, after, number);
    if has_number(column, number) {
        lemma_has_value(kind, column, number);
    }
    if is_value(kind, number) {
        lemma_occurs(kind, column, number);
        law_values_have_slots_of_their_own(kind, number, number);
    }
}

/// The count is the number of the listed values, each of which is listed once. Nothing is
/// listed where nothing was seen.
pub proof fn law_listed_values_are_counted_once(kind: SmallInt, seen: Seq<bool>)
    requires
        seen.len() == kind.slots(),
    ensures
        listed(seen, kind.is_signed()).no_duplicates(),
        arrays::set_positions(seen).len() == listed(seen, kind.is_signed()).len(),
        (forall|i: int| 0 <= i < seen.len() ==> !(#[trigger] seen[i])) ==> listed(
            seen,
            kind.is_signed(),
        ).len() == 0,
{
    let positions = arrays::set_positions(seen);
    let values = listed(seen, kind.is_signed());
    arrays::lemma_set_positions(seen);
    arrays::lemma_none_or_all_set(seen);
    assert forall|i: int, j: int| 0 <= i < j < values.len() implies values[i] != values[j] by {
        law_slots_and_values_agree(kind, positions[i]);
        law_slots_and_values_agree(kind, positions[j]);
        assert(positions[i] < positions[j]);
    }
}

/// A counter that saw nothing counts, after a column of its type, the different values in
/// the rows that are not null.
pub proof fn law_a_column_counts_its_different_values(
    kind: SmallInt,
    empty: Seq<bool>,
    column: ColumnValues,
)
    requires
        empty.len() == kind.slots(),
        forall|i: int| 0 <= i < empty.len() ==> !(#[trigger] empty[i]),
        kind.counts(column),
    ensures
        Set::new(|number: int| has_number(column, number)).finite(),
        arrays::set_positions(counted(empty, column.rows())).len() == Set::new(
            |number: int| has_number(column, number),
        ).len(),
{
    let after = counted(empty, column.rows());
    let values = listed(after, kind.is_signed());
    let numbers = Set::new(|number: int| has_number(column, number));
    law_listed_values_are_counted_once(kind, empty);
    law_listed_values_are_counted_once(kind, after);
    assert forall|number: int| values.to_set().contains(number) <==> numbers.contains(number) by {
        law_listed_values_are_those_of_the_rows(kind, empty, column, number);
    }
    assert(values.to_set() =~= numbers);
    values.unique_seq_to_set();
}

/// After lists the values listed are those listed before and those in the lists that are
/// not null, whichever of the lists they are in.
pub proof fn law_listed_values_are_those_of_the_lists(
    kind: SmallInt,
    seen: Seq<bool>,
    lists: Seq<Option<ColumnValues>>,
    number: int,
)
    requires
        seen.len() == kind.slots(),
        forall|k: int|
            0 <= k < lists.len() ==> ((#[trigger] lists[k]) matches Some(list) ==> kind.counts(list)),
    ensures
        counted_lists(seen, lists).len() == seen.len(),
        listed(counted_lists(seen, lists), kind.is_signed()).contains(number) <==> listed(
            seen,
            kind.is_signed(),
        ).contains(number) || exists|k: int|
            0 <= k < lists.len() && ((#[trigger] lists[k]) matches Some(list) && has_number(
                list,
                number,
            )),
    decreases lists.len(),
{
    if lists.len() > 0 {
        let fewer = lists.drop_last();
        assert forall|k: int| 0 <= k < fewer.len() implies ((#[trigger] fewer[k]) matches Some(list)
            ==> kind.counts(list)) by {
            assert(lists[k] == fewer[k]);
        }
        law_listed_values_are_those_of_the_lists(kind, seen, fewer, number);
        assert(lists[lists.len() - 1] == lists.last());
        if let Some(list) = lists.last() {
            law_listed_values_are_those_of_the_rows(
                kind,
                counted_lists(seen, fewer),
                list,
                number,
            );
        }
        if exists|k: int|
            0 <= k < fewer.len() && ((#[trigger] fewer[k]) matches Some(list) && has_number(
                list,
                number,
            )) {
            let k = choose|k: int|
                0 <= k < fewer.len() && ((#[trigger] fewer[k]) matches Some(list) && has_number(
                    list,
                    number,
                ));
            assert(lists[k] == fewer[k]);
        }
        if exists|k: int|
            0 <= k < lists.len() && ((#[trigger] lists[k]) matches Some(list) && has_number(
                list,
                number,
            )) {
            let k = choose|k: int|
                0 <= k < lists.len() && ((#[trigger] lists[k]) matches Some(list) && has_number(
                    list,
                    number,
                ));
            if k < fewer.len() {
                assert(fewer[k] == lists[k]);
            }
        }
    }
}

/// Lists are counted up to the first that is of another type.
pub proof fn law_lists_are_counted_up_to_another_type(
    kind: SmallInt,
    lists: Seq<Option<ColumnValues>>,
)
    ensures
        ({
            let count = lists_of_type(kind, lists);
            &&& 0 <= count <= lists.len()
            &&& forall|k: int|
                0 <= k < count ==> ((#[trigger] lists[k]) matches Some(list) ==> kind.counts(list))
            &&& count < lists.len() ==> lists[count] is Some && !kind.counts(lists[count]->0)
        }),
    decreases lists.len(),
{
    if lists.len() > 0 {
        let fewer = lists.drop_last();
        law_lists_are_counted_up_to_another_type(kind, fewer);
        assert forall|k: int| 0 <= k < lists_of_type(kind, lists) implies ((#[trigger] lists[k])
            matches Some(list) ==> kind.counts(list)) by {
            if k < fewer.len() {
                assert(fewer[k] == lists[k]);
            }
        }
    }
}

/// After rows of any column, a dictionary among them, the values listed are those listed
/// before and those in the rows.
pub proof fn law_rows_add_their_numbers(
    kind: SmallInt,
    seen: Seq<bool>,
    rows: Seq<Option<Cell>>,
    number: int,
)
    requires
        seen.len() == kind.slots(),
        forall|r: int|
            0 <= r < rows.len() && #[trigger] rows[r] is Some ==> (rows[r]->0 matches Cell::Number(n)
                && is_value(kind, n)),
    ensures
        counted(seen, rows).len() == seen.len(),
        listed(counted(seen, rows), kind.is_signed()).contains(number) <==> listed(
            seen,
            kind.is_signed(),
        ).contains(number) || rows.contains(Some(Cell::Number(number))),
{
    let slots = kind.slots();
    lemma_listed(kind, seen, number);
    lemma_listed(kind, counted(seen, rows), number);
    if rows.contains(Some(Cell::Number(number))) {
        let r = choose|r: int| 0 <= r < rows.len() && rows[r] == Some(Cell::Number(number));
        assert(rows[r] is Some);
        assert(occurs(rows, slot_of(number, slots), slots));
        law_values_have_slots_of_their_own(kind, number, number);
    }
    if is_value(kind, number) {
        law_values_have_slots_of_their_own(kind, number, number);
        if occurs(rows, slot_of(number, slots), slots) {
            let r = choose|r: int|
                0 <= r < rows.len() && #[trigger] rows[r] is Some && rows[r]->0 is Number
                    && slot_of(rows[r]->0->Number_0, slots) == slot_of(number, slots);
            law_values_have_slots_of_their_own(kind, number, rows[r]->0->Number_0);
            assert(rows[r] == Some(Cell::Number(number)));
        }
    }
}

/// Whether a column is of a small integer type.
pub open spec fn is_of(kind: SmallInt, column: ColumnValues) -> bool {
    match (kind, column) {
        (SmallInt::UInt8, ColumnValues::UInt8(_)) => true,
        (SmallInt::Int8, ColumnValues::Int8(_)) => true,
        (SmallInt::UInt16, ColumnValues::UInt16(_)) => true,
        (SmallInt::Int16, ColumnValues::Int16(_)) => true,
        _ => false,
    }
}

/// The numbers that are not negative come first, and each part ascends.
pub open spec fn in_slot_order(values: Seq<i64>) -> bool {
    forall|i: int, j: int|
        0 <= i < j < values.len() ==> (#[trigger] values[i] >= 0 && #[trigger] values[j] < 0) || (
        values[i] < values[j] && (values[i] >= 0 || values[j] < 0))
}

proof fn lemma_values_returned(counter: DistinctCounter, values: Vec<i64>)
    requires
        counter.wf(),
        call_ensures(DistinctCounter::values, (&counter,), values),
    ensures
        in_slot_order(values@),
        values@.len() == arrays::set_positions(counter.seen()).len(),
        forall|number: i64| #[trigger]
            values@.contains(number) <==> listed(
                counter.seen(),
                counter.kind().is_signed(),
            ).contains(number as int),
{
    let all = listed(counter.seen(), counter.kind().is_signed());
    let positions = arrays::set_positions(counter.seen());
    arrays::lemma_set_positions(counter.seen());
    assert forall|number: i64| #[trigger] values@.contains(number) <==> all.contains(
        number as int,
    ) by {
        if values@.contains(number) {
            let k = choose|k: int| 0 <= k < values@.len() && values@[k] == number;
            assert(all[k] == number);
        }
        if all.contains(number as int) {
            let k = choose|k: int| 0 <= k < all.len() && all[k] == number;
            assert(values@[k] == number);
        }
    }
    assert forall|i: int, j: int| 0 <= i < j < values@.len() implies (#[trigger] values@[i] >= 0
        && #[trigger] values@[j] < 0) || (values@[i] < values@[j] && (values@[i] >= 0 || values@[j]
        < 0)) by {
        assert(positions[i] < positions[j]);
        assert(values@[i] == all[i] && values@[j] == all[j]);
    }
}

/// A fresh counter lists nothing. After a column of its type a counter lists, once each,
/// what it listed before and the values in the rows that are not null, and counts what it
/// lists; a column of another type is refused and changes nothing.
pub proof fn law_counters_list_the_values_seen(
    kind: SmallInt,
    fresh: DistinctCounter,
    nothing: Vec<i64>,
    counter: &mut DistinctCounter,
    column: ColumnValues,
    result: Result<(), ExecError>,
    before: Vec<i64>,
    after: Vec<i64>,
    count: usize,
)
    requires
        call_ensures(DistinctCounter::new, (kind,), fresh),
        call_ensures(DistinctCounter::values, (&fresh,), nothing),
        old(counter).wf(),
        old(counter).kind() == kind,
        call_ensures(DistinctCounter::values, (&*old(counter),), before),
        call_ensures(DistinctCounter::update_batch, (counter, &column), result),
        call_ensures(DistinctCounter::values, (&*final(counter),), after),
        call_ensures(DistinctCounter::count, (&*final(counter),), count),
    ensures
        fresh.wf() && fresh.kind() == kind && nothing@.len() == 0,
        final(counter).wf() && final(counter).kind() == kind,
        result is Ok <==> is_of(kind, column),
        result is Err ==> result->Err_0 is UnexpectedColumn && after@ == before@,
        result is Ok ==> forall|number: i64| #[trigger]
            after@.contains(number) <==> before@.contains(number) || has_number(
                column,
                number as int,
            ),
        in_slot_order(after@),
        count == after@.len(),
{
    lemma_values_returned(fresh, nothing);
    law_listed_values_are_counted_once(kind, fresh.seen());
    lemma_values_returned(*old(counter), before);
    lemma_values_returned(*final(counter), after);
    if result is Ok {
        assert forall|number: i64| #[trigger] after@.contains(number) <==> before@.contains(number)
            || has_number(column, number as int) by {
            law_listed_values_are_those_of_the_rows(
                kind,
                old(counter).seen(),
                column,
                number as int,
            );
        }
    } else {
        assert(after@ =~= before@);
    }
}

/// After lists of its type a counter lists what it listed before and the values in any of
/// the lists. Lists are taken up to the first that is of another type, which is refused.
pub proof fn law_counters_list_the_values_of_lists(
    counter: &mut DistinctCounter,
    lists: Vec<Option<ColumnValues>>,
    result: Result<(), ExecError>,
    before: Vec<i64>,
    after: Vec<i64>,
)
    requires
        old(counter).wf(),
        call_ensures(DistinctCounter::values, (&*old(counter),), before),
        call_ensures(DistinctCounter::merge_batch, (counter, &lists), result),
        call_ensures(DistinctCounter::values, (&*final(counter),), after),
    ensures
        final(counter).wf() && final(counter).kind() == old(counter).kind(),
        result is Ok <==> forall|k: int|
            0 <= k < lists@.len() ==> ((#[trigger] lists@[k]) matches Some(list) ==> is_of(
                old(counter).kind(),
                list,
            )),
        result is Err ==> result->Err_0 is UnexpectedColumn,
        result is Ok ==> forall|number: i64| #[trigger]
            after@.contains(number) <==> before@.contains(number) || exists|k: int|
                0 <= k < lists@.len() && ((#[trigger] lists@[k]) matches Some(list) && has_number(
                    list,
                    number as int,
                )),
        in_slot_order(after@),
{
    let kind = old(counter).kind();
    let taken = lists_of_type(kind, lists@);
    lemma_values_returned(*old(counter), before);
    law_lists_are_counted_up_to_another_type(kind, lists@);
    assert(final(counter).wf());
    lemma_values_returned(*final(counter), after);
    if result is Ok {
        assert(lists@.take(taken) =~= lists@);
        assert forall|number: i64| #[trigger] after@.contains(number) <==> before@.contains(number)
            || exists|k: int|
            0 <= k < lists@.len() && ((#[trigger] lists@[k]) matches Some(list) && has_number(
                list,
                number as int,
            )) by {
            law_listed_values_are_those_of_the_lists(
                kind,
                old(counter).seen(),
                lists@,
                number as int,
            );
        }
    } else {
        assert(lists@[taken] is Some && !is_of(kind, lists@[taken]->0));
    }
}

} // verus!
