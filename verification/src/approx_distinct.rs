//! `approx_distinct`: the approximate number of distinct values of a column.
use crate::arrays;
use crate::column_values;
use crate::column_values::{Cell, CellValue, ColumnValues};
use crate::data_type::{DataType, Field, TimeUnit};
use crate::distinct_counter;
use crate::distinct_counter::{DistinctCounter, SmallInt};
use crate::error::ExecError;
use crate::hyperloglog;
use crate::hyperloglog::{hll_hash_state, HyperLogLog, MAX_RANK, NUM_REGISTERS};
use crate::signature::{Signature, TypeSignature, Volatility};
use ahash::RandomState;
use std::sync::Arc;
use vstd::prelude::*;
use vstd::string::StringExecFns;

verus! {

/// A single value.
#[derive(Debug)]
pub enum ScalarValue {
    UInt64(Option<u64>),
    Int64(Option<i64>),
    Binary(Option<Vec<u8>>),
    /// A list of small integers.
    List(Vec<i64>),
}

/// States of accumulators that are merged into one.
#[derive(Debug)]
pub enum StateColumn {
    /// Registers as bytes.
    Registers(Vec<Option<Vec<u8>>>),
    /// Lists of values.
    Lists(Vec<Option<ColumnValues>>),
    /// Anything else.
    Other,
}

impl StateColumn {
    /// Every byte of registers is a rank or nothing.
    pub open spec fn holds_ranks(self) -> bool {
        self matches StateColumn::Registers(states) ==> states_hold_ranks(state_bytes(states@))
    }
}

/// The state of registers.
pub fn registers_to_scalar(hll: &HyperLogLog) -> (result: ScalarValue)
    ensures
        result is Binary,
        result->Binary_0 is Some,
        result->Binary_0->0@ == hll@,
{
    ScalarValue::Binary(Some(hll.to_vec()))
}

/// Registers from their state.
pub fn registers_from_scalar(value: &ScalarValue) -> (result: Result<HyperLogLog, ExecError>)
    ensures
        match result {
            Ok(hll) => *value is Binary && value->Binary_0 is Some && hll.wf() && hll@
                == value->Binary_0->0@,
            Err(error) => if *value is Binary && value->Binary_0 is Some {
                error is InvalidRegisters && value->Binary_0->0@.len() != NUM_REGISTERS
            } else {
                error is MissingRegisters
            },
        },
{
    match value {
        ScalarValue::Binary(Some(bytes)) => HyperLogLog::try_from_bytes(bytes),
        _ => Err(ExecError::MissingRegisters),
    }
}

/// The registers after the hashes of all rows that are not null were added, each hash
/// made by a hasher of the seeds that all registers share.
pub open spec fn absorbed(
    before: Seq<u8>,
    after: Seq<u8>,
    column: ColumnValues,
    rows: Seq<Option<Cell>>,
) -> bool {
    exists|state: RandomState, hashes: Seq<u64>|
        hyperloglog::is_hll_state(state) && #[trigger] column.row_hashes(state, rows, hashes)
            && after == hyperloglog::added_all(before, hashes)
}

/// The same for values of one Rust type.
spec fn absorbed_values<T: CellValue>(
    before: Seq<u8>,
    after: Seq<u8>,
    rows: Seq<Option<Cell>>,
) -> bool {
    exists|state: RandomState, hashes: Seq<u64>|
        hyperloglog::is_hll_state(state) && #[trigger] column_values::row_hashes::<T>(
            state,
            rows,
            hashes,
        ) && after == hyperloglog::added_all(before, hashes)
}

proof fn lemma_absorbed_values<T: CellValue>(
    before: Seq<u8>,
    after: Seq<u8>,
    column: ColumnValues,
    rows: Seq<Option<Cell>>,
)
    requires
        absorbed_values::<T>(before, after, rows),
        forall|state: RandomState, hashes: Seq<u64>|
            column_values::row_hashes::<T>(state, rows, hashes) ==> #[trigger] column.row_hashes(
                state,
                rows,
                hashes,
            ),
    ensures
        absorbed(before, after, column, rows),
{
    let (state, hashes) = choose|state: RandomState, hashes: Seq<u64>|
        hyperloglog::is_hll_state(state) && #[trigger] column_values::row_hashes::<T>(
            state,
            rows,
            hashes,
        ) && after == hyperloglog::added_all(before, hashes);
    assert(column.row_hashes(state, rows, hashes));
}

/// Adds the values that are not null.
fn extend<T: CellValue>(hll: &mut HyperLogLog, values: &Vec<Option<T>>)
    requires
        old(hll).wf(),
    ensures
        final(hll).wf(),
        old(hll).holds_ranks() ==> final(hll).holds_ranks(),
        absorbed_values::<T>(old(hll)@, final(hll)@, column_values::cells(values@)),
{
    let state = hll_hash_state();
    let ghost before = hll@;
    let ghost mut hashes: Seq<u64> = Seq::empty();
    let mut i: usize = 0;
    proof {
        assert(column_values::cells(values@.take(0)) =~= Seq::empty());
    }
    while i < values.len()
        invariant
            i <= values@.len(),
            hll.wf(),
            before == old(hll)@,
            old(hll).holds_ranks() ==> hll.holds_ranks(),
            column_values::row_hashes::<T>(
                state,
                column_values::cells(values@.take(i as int)),
                hashes,
            ),
            hll@ == hyperloglog::added_all(before, hashes),
        decreases values@.len() - i,
    {
        proof {
            let more = column_values::cells(values@.take(i + 1));
            assert(more.drop_last() =~= column_values::cells(values@.take(i as int)));
            assert(more.last() == column_values::cells(values@)[i as int]);
        }
        if let Some(value) = &values[i] {
            let hash: u64 = value.hash_with(&state);
            hll.add_hashed(hash);
            proof {
                assert(hashes.push(hash).drop_last() =~= hashes);
                hashes = hashes.push(hash);
            }
        }
        i = i + 1;
    }
    proof {
        assert(values@.take(i as int) =~= values@);
        assert(column_values::row_hashes::<T>(state, column_values::cells(values@), hashes));
    }
}

/// Whether a state holds registers.
pub open spec fn is_state(state: Option<Seq<u8>>) -> bool {
    state is Some && state->0.len() == NUM_REGISTERS
}

/// How many of the first states hold registers.
pub open spec fn good_states(states: Seq<Option<Seq<u8>>>) -> int
    decreases states.len(),
{
    if states.len() == 0 {
        0
    } else if good_states(states.drop_last()) < states.len() - 1 {
        good_states(states.drop_last())
    } else if is_state(states.last()) {
        states.len() as int
    } else {
        states.len() - 1
    }
}

/// The bytes of states.
pub open spec fn state_bytes(states: Seq<Option<Vec<u8>>>) -> Seq<Option<Seq<u8>>> {
    Seq::new(
        states.len(),
        |i: int|
            match states[i] {
                Some(bytes) => Some(bytes@),
                None => None,
            },
    )
}

/// Every register holds a rank or nothing.
pub open spec fn hold_ranks(registers: Seq<u8>) -> bool {
    forall|i: int| 0 <= i < registers.len() ==> (#[trigger] registers[i]) <= MAX_RANK
}

/// Every byte of the states is a rank or nothing.
pub open spec fn states_hold_ranks(states: Seq<Option<Seq<u8>>>) -> bool {
    forall|i: int, k: int|
        0 <= i < states.len() && states[i] is Some && 0 <= k < states[i]->0.len() ==> (
        #[trigger] states[i]->0[k]) <= MAX_RANK
}

/// The registers in states.
pub open spec fn present_states(states: Seq<Option<Seq<u8>>>) -> Seq<Seq<u8>> {
    Seq::new(states.len(), |i: int| states[i]->0)
}

/// Merges states, up to the first that does not hold registers.
fn merge_states(hll: &mut HyperLogLog, states: &Vec<Option<Vec<u8>>>) -> (result: Result<
    (),
    ExecError,
>)
    requires
        old(hll).wf(),
    ensures
        final(hll).wf(),
        old(hll).holds_ranks() && states_hold_ranks(state_bytes(states@))
            ==> final(hll).holds_ranks(),
        merge_outcome(old(hll)@, state_bytes(states@), final(hll)@, result),
{
    let ghost before = hll@;
    let ghost all = state_bytes(states@);
    let mut i: usize = 0;
    proof {
        assert(present_states(all.take(0)) =~= Seq::empty());
    }
    while i < states.len()
        invariant
            i <= states@.len(),
            hll.wf(),
            before == old(hll)@,
            all == state_bytes(states@),
            old(hll).holds_ranks() && states_hold_ranks(all) ==> hll.holds_ranks(),
            good_states(all.take(i as int)) == i,
            hll@ == hyperloglog::merged_all(before, present_states(all.take(i as int))),
        decreases states@.len() - i,
    {
        proof {
            assert(all.take(i + 1).drop_last() =~= all.take(i as int));
            assert(all.take(i + 1).last() == all[i as int]);
            assert(present_states(all.take(i + 1)).drop_last() =~= present_states(
                all.take(i as int),
            ));
        }
        match &states[i] {
            Some(bytes) => match HyperLogLog::try_from_bytes(bytes) {
                Ok(other) => {
                    proof {
                        if states_hold_ranks(all) {
                            assert forall|k: int| 0 <= k < other@.len() implies (#[trigger] other@[k])
                                <= MAX_RANK by {
                                assert(all[i as int]->0[k] <= MAX_RANK);
                            }
                        }
                    }
                    hll.merge(&other)
                },
                Err(error) => {
                    proof {
                        lemma_good_states(all, i + 1);
                    }
                    return Err(error);
                },
            },
            None => {
                proof {
                    lemma_good_states(all, i + 1);
                }
                return Err(ExecError::MissingRegisters);
            },
        }
        i = i + 1;
    }
    proof {
        assert(all.take(i as int) =~= all);
    }
    Ok(())
}

/// What merging states does: the states before the first that does not hold registers
/// are merged, and that one decides the error.
pub open spec fn merge_outcome(
    before: Seq<u8>,
    states: Seq<Option<Seq<u8>>>,
    after: Seq<u8>,
    result: Result<(), ExecError>,
) -> bool {
    let good = good_states(states);
    &&& after == hyperloglog::merged_all(before, present_states(states.take(good)))
    &&& match result {
        Ok(()) => good == states.len(),
        Err(error) => good < states.len() && if states[good] is None {
            error is MissingRegisters
        } else {
            error is InvalidRegisters
        },
    }
}

proof fn lemma_good_states(states: Seq<Option<Seq<u8>>>, bad: int)
    requires
        1 <= bad <= states.len(),
        good_states(states.take(bad)) == bad - 1,
    ensures
        good_states(states) == bad - 1,
    decreases states.len(),
{
    if bad == states.len() {
        assert(states.take(bad) =~= states);
    } else {
        assert(states.drop_last().take(bad) =~= states.take(bad));
        lemma_good_states(states.drop_last(), bad);
    }
}

/// How many registers hold each rank.
pub open spec fn is_histogram(counts: Seq<u32>, registers: Seq<u8>) -> bool {
    &&& counts.len() == MAX_RANK + 1
    &&& forall|rank: int|
        0 <= rank <= MAX_RANK ==> (#[trigger] counts[rank]) == hyperloglog::holding(
            registers,
            rank,
            NUM_REGISTERS as int,
        )
}

/// The count that `estimate` gives for the registers.
fn estimated<E>(hll: &HyperLogLog, estimate: E) -> (result: ScalarValue) where
    E: FnOnce(&Vec<u32>) -> u64,

    requires
        hll.wf(),
        hll.holds_ranks(),
        forall|counts: &Vec<u32>| call_requires(estimate, (counts,)),
    ensures
        estimates(hll@, estimate, result),
{
    let counts = hll.get_histogram();
    let count: u64 = estimate(&counts);
    ScalarValue::UInt64(Some(count))
}

/// The value is what `estimate` gives for the histogram of the registers.
pub open spec fn estimates<E: FnOnce(&Vec<u32>) -> u64>(
    registers: Seq<u8>,
    estimate: E,
    value: ScalarValue,
) -> bool {
    exists|counts: Vec<u32>, count: u64|
        is_histogram(counts@, registers) && #[trigger] call_ensures(estimate, (&counts,), count)
            && value == ScalarValue::UInt64(Some(count))
}

/// The types of numbers that are counted by their hashes.
#[derive(Clone, Copy, Debug, PartialEq, Eq, Structural)]
pub enum Native {
    Int32,
    Int64,
    UInt32,
    UInt64,
}

impl Native {
    /// Whether a column is of the type.
    pub open spec fn counts(self, column: ColumnValues) -> bool {
        match self {
            Native::Int32 => column is Int32,
            Native::Int64 => column is Int64,
            Native::UInt32 => column is UInt32,
            Native::UInt64 => column is UInt64,
        }
    }
}

/// Counts small integers exactly.
#[derive(Debug)]
pub struct ApproxDistinctBitmapWrapper {
    inner: DistinctCounter,
}

/// The count of distinct values as an unsigned number; an error for anything that is
/// no count.
pub fn count_as_unsigned(value: ScalarValue) -> (result: Result<ScalarValue, ExecError>)
    ensures
        match value {
            ScalarValue::Int64(Some(count)) => result == Ok::<ScalarValue, ExecError>(
                ScalarValue::UInt64(Some(count as u64)),
            ),
            _ => result is Err && result->Err_0 is UnexpectedCount,
        },
{
    match value {
        ScalarValue::Int64(Some(count)) => Ok(ScalarValue::UInt64(Some(count as u64))),
        _ => Err(ExecError::UnexpectedCount),
    }
}

impl ApproxDistinctBitmapWrapper {
    /// The type of the values.
    pub closed spec fn kind(self) -> SmallInt {
        self.inner.kind()
    }

    /// The slots of the values seen.
    pub closed spec fn seen(self) -> Seq<bool> {
        self.inner.seen()
    }

    /// Each value of the type has a slot.
    pub open spec fn wf(self) -> bool {
        self.seen().len() == self.kind().slots()
    }

    /// No values seen.
    pub fn new(kind: SmallInt) -> (result: ApproxDistinctBitmapWrapper)
        ensures
            result.wf(),
            result.kind() == kind,
            forall|i: int| 0 <= i < kind.slots() ==> !(#[trigger] result.seen()[i]),
    {
        ApproxDistinctBitmapWrapper { inner: DistinctCounter::new(kind) }
    }

    /// Counts the values of a column.
    pub fn update_batch(&mut self, column: &ColumnValues) -> (result: Result<(), ExecError>)
        requires
            old(self).wf(),
        ensures
            final(self).wf(),
            final(self).kind() == old(self).kind(),
            match result {
                Ok(()) => old(self).kind().counts(*column) && final(self).seen()
                    == distinct_counter::counted(old(self).seen(), column.rows()),
                Err(error) => !old(self).kind().counts(*column) && error is UnexpectedColumn
                    && final(self).seen() == old(self).seen(),
            },
    {
        self.inner.update_batch(column)
    }

    /// Counts the values of lists, up to the first that is of another type.
    pub fn merge_batch(&mut self, lists: &Vec<Option<ColumnValues>>) -> (result: Result<
        (),
        ExecError,
    >)
        requires
            old(self).wf(),
        ensures
            final(self).wf(),
            final(self).kind() == old(self).kind(),
            final(self).seen() == distinct_counter::counted_lists(
                old(self).seen(),
                lists@.take(distinct_counter::lists_of_type(old(self).kind(), lists@)),
            ),
            match result {
                Ok(()) => distinct_counter::lists_of_type(old(self).kind(), lists@) == lists@.len(),
                Err(error) => distinct_counter::lists_of_type(old(self).kind(), lists@)
                    < lists@.len() && error is UnexpectedColumn,
            },
    {
        self.inner.merge_batch(lists)
    }

    /// The number of values seen.
    pub fn evaluate(&self) -> (result: Result<ScalarValue, ExecError>)
        requires
            self.wf(),
        ensures
            result is Ok,
            result->Ok_0 is UInt64,
            result->Ok_0->UInt64_0 is Some,
            result->Ok_0->UInt64_0->0 == arrays::set_positions(self.seen()).len(),
    {
        let count: usize = self.inner.count();
        count_as_unsigned(ScalarValue::Int64(Some(count as i64)))
    }

    /// The values seen.
    pub fn state(&self) -> (result: ScalarValue)
        requires
            self.wf(),
        ensures
            result is List,
            ({
                let values = distinct_counter::listed(self.seen(), self.kind().is_signed());
                &&& result->List_0@.len() == values.len()
                &&& forall|k: int|
                    0 <= k < values.len() ==> (#[trigger] result->List_0@[k]) == values[k]
            }),
    {
        ScalarValue::List(self.inner.values())
    }

    /// The bytes that the counter was found to occupy.
    pub closed spec fn retains(self, bytes: usize) -> bool {
        self.inner.retains(bytes)
    }

    /// The bytes that the counter occupies, at least one for each slot.
    pub fn size(&self) -> (result: usize)
        ensures
            self.retains(result),
            result >= self.seen().len(),
    {
        self.inner.size()
    }
}

/// Counts numbers by their hashes.
#[derive(Debug)]
pub struct NumericHLLAccumulator {
    hll: HyperLogLog,
    native: Native,
}

impl NumericHLLAccumulator {
    /// The type of the numbers.
    pub closed spec fn native(self) -> Native {
        self.native
    }

    /// The registers.
    pub closed spec fn registers(self) -> Seq<u8> {
        self.hll@
    }

    /// There are as many registers as there must be.
    pub open spec fn wf(self) -> bool {
        self.registers().len() == NUM_REGISTERS
    }

    /// Every register holds a rank or nothing.
    pub open spec fn holds_ranks(self) -> bool {
        hold_ranks(self.registers())
    }

    /// No values.
    pub fn new(native: Native) -> (result: NumericHLLAccumulator)
        ensures
            result.wf(),
            result.holds_ranks(),
            result.native() == native,
            result.registers() == hyperloglog::no_values(),
    {
        NumericHLLAccumulator { hll: HyperLogLog::new(), native }
    }

    /// Adds the values of a column that are not null.
    pub fn update_batch(&mut self, column: &ColumnValues) -> (result: Result<(), ExecError>)
        requires
            old(self).wf(),
        ensures
            final(self).wf(),
            final(self).native() == old(self).native(),
            old(self).holds_ranks() ==> final(self).holds_ranks(),
            match result {
                Ok(()) => old(self).native().counts(*column) && absorbed(
                    old(self).registers(),
                    final(self).registers(),
                    *column,
                    column.rows(),
                ),
                Err(error) => !(old(self).native().counts(*column)) && error is UnexpectedColumn
                    && final(self).registers() == old(self).registers(),
            },
    {
        let ghost before = self.registers();
        match (self.native, column) {
            (Native::Int32, ColumnValues::Int32(values)) => {
                extend(&mut self.hll, values);
                proof {
                    lemma_absorbed_values::<i32>(before, self.registers(), *column, column.rows());
                }
            },
            (Native::Int64, ColumnValues::Int64(values)) => {
                extend(&mut self.hll, values);
                proof {
                    lemma_absorbed_values::<i64>(before, self.registers(), *column, column.rows());
                }
            },
            (Native::UInt32, ColumnValues::UInt32(values)) => {
                extend(&mut self.hll, values);
                proof {
                    lemma_absorbed_values::<u32>(before, self.registers(), *column, column.rows());
                }
            },
            (Native::UInt64, ColumnValues::UInt64(values)) => {
                extend(&mut self.hll, values);
                proof {
                    lemma_absorbed_values::<u64>(before, self.registers(), *column, column.rows());
                }
            },
            _ => {
                return Err(ExecError::UnexpectedColumn);
            },
        }
        Ok(())
    }

    /// Merges states of other accumulators, up to the first that does not hold
    /// registers.
    pub fn merge_batch(&mut self, states: &Vec<Option<Vec<u8>>>) -> (result: Result<(), ExecError>)
        requires
            old(self).wf(),
        ensures
            final(self).wf(),
            final(self).native() == old(self).native(),
            old(self).holds_ranks() && states_hold_ranks(state_bytes(states@))
                ==> final(self).holds_ranks(),
            merge_outcome(
                old(self).registers(),
                state_bytes(states@),
                final(self).registers(),
                result,
            ),
    {
        merge_states(&mut self.hll, states)
    }

    /// The registers.
    pub fn state(&self) -> (result: ScalarValue)
        ensures
            result is Binary,
            result->Binary_0 is Some,
            result->Binary_0->0@ == self.registers(),
    {
        registers_to_scalar(&self.hll)
    }

    /// The count that `estimate` gives for the histogram of the registers.
    pub fn evaluate<E>(&self, estimate: E) -> (result: ScalarValue) where
        E: FnOnce(&Vec<u32>) -> u64,

        requires
            self.wf(),
            self.holds_ranks(),
            forall|counts: &Vec<u32>| call_requires(estimate, (counts,)),
        ensures
            estimates(self.registers(), estimate, result),
    {
        estimated(&self.hll, estimate)
    }

    /// The bytes that the registers occupy, whatever they hold.
    pub fn size(&self) -> (result: usize)
        ensures
            result == NUM_REGISTERS,
    {
        NUM_REGISTERS
    }
}

/// Counts strings by their hashes.
#[derive(Debug)]
pub struct StringHLLAccumulator {
    hll: HyperLogLog,
}

impl StringHLLAccumulator {
    /// The registers.
    pub closed spec fn registers(self) -> Seq<u8> {
        self.hll@
    }

    /// There are as many registers as there must be.
    pub open spec fn wf(self) -> bool {
        self.registers().len() == NUM_REGISTERS
    }

    /// Every register holds a rank or nothing.
    pub open spec fn holds_ranks(self) -> bool {
        hold_ranks(self.registers())
    }

    /// No values.
    pub fn new() -> (result: StringHLLAccumulator)
        ensures
            result.wf(),
            result.holds_ranks(),
            result.registers() == hyperloglog::no_values(),
    {
        StringHLLAccumulator { hll: HyperLogLog::new() }
    }

    /// Adds the values of a column that are not null.
    pub fn update_batch(&mut self, column: &ColumnValues) -> (result: Result<(), ExecError>)
        requires
            old(self).wf(),
        ensures
            final(self).wf(),
            old(self).holds_ranks() ==> final(self).holds_ranks(),
            match result {
                Ok(()) => column is Utf8 && absorbed(
                    old(self).registers(),
                    final(self).registers(),
                    *column,
                    column.rows(),
                ),
                Err(error) => !(column is Utf8) && error is UnexpectedColumn
                    && final(self).registers() == old(self).registers(),
            },
    {
        let ghost before = self.registers();
        match column {
            ColumnValues::Utf8(values) => {
                extend(&mut self.hll, values);
                proof {
                    lemma_absorbed_values::<String>(before, self.registers(), *column, column.rows());
                }
            },
            _ => {
                return Err(ExecError::UnexpectedColumn);
            },
        }
        Ok(())
    }

    /// Merges states of other accumulators, up to the first that does not hold
    /// registers.
    pub fn merge_batch(&mut self, states: &Vec<Option<Vec<u8>>>) -> (result: Result<(), ExecError>)
        requires
            old(self).wf(),
        ensures
            final(self).wf(),
            old(self).holds_ranks() && states_hold_ranks(state_bytes(states@))
                ==> final(self).holds_ranks(),
            merge_outcome(
                old(self).registers(),
                state_bytes(states@),
                final(self).registers(),
                result,
            ),
    {
        merge_states(&mut self.hll, states)
    }

    /// The registers.
    pub fn state(&self) -> (result: ScalarValue)
        ensures
            result is Binary,
            result->Binary_0 is Some,
            result->Binary_0->0@ == self.registers(),
    {
        registers_to_scalar(&self.hll)
    }

    /// The count that `estimate` gives for the histogram of the registers.
    pub fn evaluate<E>(&self, estimate: E) -> (result: ScalarValue) where
        E: FnOnce(&Vec<u32>) -> u64,

        requires
            self.wf(),
            self.holds_ranks(),
            forall|counts: &Vec<u32>| call_requires(estimate, (counts,)),
        ensures
            estimates(self.registers(), estimate, result),
    {
        estimated(&self.hll, estimate)
    }

    /// The bytes that the registers occupy, whatever they hold.
    pub fn size(&self) -> (result: usize)
        ensures
            result == NUM_REGISTERS,
    {
        NUM_REGISTERS
    }
}

/// Counts strings of a view column by their hashes.
#[derive(Debug)]
pub struct StringViewHLLAccumulator {
    hll: HyperLogLog,
}

impl StringViewHLLAccumulator {
    /// The registers.
    pub closed spec fn registers(self) -> Seq<u8> {
        self.hll@
    }

    /// There are as many registers as there must be.
    pub open spec fn wf(self) -> bool {
        self.registers().len() == NUM_REGISTERS
    }

    /// Every register holds a rank or nothing.
    pub open spec fn holds_ranks(self) -> bool {
        hold_ranks(self.registers())
    }

    /// No values.
    pub fn new() -> (result: StringViewHLLAccumulator)
        ensures
            result.wf(),
            result.holds_ranks(),
            result.registers() == hyperloglog::no_values(),
    {
        StringViewHLLAccumulator { hll: HyperLogLog::new() }
    }

    /// Adds the values of a column that are not null.
    pub fn update_batch(&mut self, column: &ColumnValues) -> (result: Result<(), ExecError>)
        requires
            old(self).wf(),
        ensures
            final(self).wf(),
            old(self).holds_ranks() ==> final(self).holds_ranks(),
            match result {
                Ok(()) => column is Views && absorbed(
                    old(self).registers(),
                    final(self).registers(),
                    *column,
                    column.rows(),
                ),
                Err(error) => !(column is Views) && error is UnexpectedColumn
                    && final(self).registers() == old(self).registers(),
            },
    {
        let ghost before = self.registers();
        match column {
            ColumnValues::Views(values) => {
                extend(&mut self.hll, values);
                proof {
                    lemma_absorbed_values::<String>(before, self.registers(), *column, column.rows());
                }
            },
            _ => {
                return Err(ExecError::UnexpectedColumn);
            },
        }
        Ok(())
    }

    /// Merges states of other accumulators, up to the first that does not hold
    /// registers.
    pub fn merge_batch(&mut self, states: &Vec<Option<Vec<u8>>>) -> (result: Result<(), ExecError>)
        requires
            old(self).wf(),
        ensures
            final(self).wf(),
            old(self).holds_ranks() && states_hold_ranks(state_bytes(states@))
                ==> final(self).holds_ranks(),
            merge_outcome(
                old(self).registers(),
                state_bytes(states@),
                final(self).registers(),
                result,
            ),
    {
        merge_states(&mut self.hll, states)
    }

    /// The registers.
    pub fn state(&self) -> (result: ScalarValue)
        ensures
            result is Binary,
            result->Binary_0 is Some,
            result->Binary_0->0@ == self.registers(),
    {
        registers_to_scalar(&self.hll)
    }

    /// The count that `estimate` gives for the histogram of the registers.
    pub fn evaluate<E>(&self, estimate: E) -> (result: ScalarValue) where
        E: FnOnce(&Vec<u32>) -> u64,

        requires
            self.wf(),
            self.holds_ranks(),
            forall|counts: &Vec<u32>| call_requires(estimate, (counts,)),
        ensures
            estimates(self.registers(), estimate, result),
    {
        estimated(&self.hll, estimate)
    }

    /// The bytes that the registers occupy, whatever they hold.
    pub fn size(&self) -> (result: usize)
        ensures
            result == NUM_REGISTERS,
    {
        NUM_REGISTERS
    }
}

/// Counts byte strings by their hashes.
#[derive(Debug)]
pub struct BinaryHLLAccumulator {
    hll: HyperLogLog,
}

impl BinaryHLLAccumulator {
    /// The registers.
    pub closed spec fn registers(self) -> Seq<u8> {
        self.hll@
    }

    /// There are as many registers as there must be.
    pub open spec fn wf(self) -> bool {
        self.registers().len() == NUM_REGISTERS
    }

    /// Every register holds a rank or nothing.
    pub open spec fn holds_ranks(self) -> bool {
        hold_ranks(self.registers())
    }

    /// No values.
    pub fn new() -> (result: BinaryHLLAccumulator)
        ensures
            result.wf(),
            result.holds_ranks(),
            result.registers() == hyperloglog::no_values(),
    {
        BinaryHLLAccumulator { hll: HyperLogLog::new() }
    }

    /// Adds the values of a column that are not null.
    pub fn update_batch(&mut self, column: &ColumnValues) -> (result: Result<(), ExecError>)
        requires
            old(self).wf(),
        ensures
            final(self).wf(),
            old(self).holds_ranks() ==> final(self).holds_ranks(),
            match result {
                Ok(()) => column is Binary && absorbed(
                    old(self).registers(),
                    final(self).registers(),
                    *column,
                    column.rows(),
                ),
                Err(error) => !(column is Binary) && error is UnexpectedColumn
                    && final(self).registers() == old(self).registers(),
            },
    {
        let ghost before = self.registers();
        match column {
            ColumnValues::Binary(values) => {
                extend(&mut self.hll, values);
                proof {
                    lemma_absorbed_values::<Vec<u8>>(before, self.registers(), *column, column.rows());
                }
            },
            _ => {
                return Err(ExecError::UnexpectedColumn);
            },
        }
        Ok(())
    }

    /// Merges states of other accumulators, up to the first that does not hold
    /// registers.
    pub fn merge_batch(&mut self, states: &Vec<Option<Vec<u8>>>) -> (result: Result<(), ExecError>)
        requires
            old(self).wf(),
        ensures
            final(self).wf(),
            old(self).holds_ranks() && states_hold_ranks(state_bytes(states@))
                ==> final(self).holds_ranks(),
            merge_outcome(
                old(self).registers(),
                state_bytes(states@),
                final(self).registers(),
                result,
            ),
    {
        merge_states(&mut self.hll, states)
    }

    /// The registers.
    pub fn state(&self) -> (result: ScalarValue)
        ensures
            result is Binary,
            result->Binary_0 is Some,
            result->Binary_0->0@ == self.registers(),
    {
        registers_to_scalar(&self.hll)
    }

    /// The count that `estimate` gives for the histogram of the registers.
    pub fn evaluate<E>(&self, estimate: E) -> (result: ScalarValue) where
        E: FnOnce(&Vec<u32>) -> u64,

        requires
            self.wf(),
            self.holds_ranks(),
            forall|counts: &Vec<u32>| call_requires(estimate, (counts,)),
        ensures
            estimates(self.registers(), estimate, result),
    {
        estimated(&self.hll, estimate)
    }

    /// The bytes that the registers occupy, whatever they hold.
    pub fn size(&self) -> (result: usize)
        ensures
            result == NUM_REGISTERS,
    {
        NUM_REGISTERS
    }
}

/// How the distinct values of a column are counted.
#[derive(Clone, Copy, Debug, PartialEq, Eq, Structural)]
pub enum AccumulatorKind {
    /// Small integers, exactly.
    Small(SmallInt),
    /// Numbers, by their hashes.
    Numeric(Native),
    /// Strings, by their hashes.
    Text,
    /// Strings of a view column, by their hashes.
    View,
    /// Byte strings, by their hashes.
    Bytes,
    /// Nulls, which do not count.
    Nothing,
}

/// How distinct values of a type that is no dictionary are counted; nothing for the
/// types that are not supported.
pub open spec fn plain_kind(data_type: DataType) -> Option<AccumulatorKind> {
    match data_type {
        DataType::UInt8 => Some(AccumulatorKind::Small(SmallInt::UInt8)),
        DataType::Int8 => Some(AccumulatorKind::Small(SmallInt::Int8)),
        DataType::UInt16 => Some(AccumulatorKind::Small(SmallInt::UInt16)),
        DataType::Int16 => Some(AccumulatorKind::Small(SmallInt::Int16)),
        DataType::UInt32 => Some(AccumulatorKind::Numeric(Native::UInt32)),
        DataType::UInt64 => Some(AccumulatorKind::Numeric(Native::UInt64)),
        DataType::Int32 => Some(AccumulatorKind::Numeric(Native::Int32)),
        DataType::Int64 => Some(AccumulatorKind::Numeric(Native::Int64)),
        DataType::Date32 => Some(AccumulatorKind::Numeric(Native::Int32)),
        DataType::Date64 => Some(AccumulatorKind::Numeric(Native::Int64)),
        DataType::Time32(TimeUnit::Second) => Some(AccumulatorKind::Numeric(Native::Int32)),
        DataType::Time32(TimeUnit::Millisecond) => Some(AccumulatorKind::Numeric(Native::Int32)),
        DataType::Time64(TimeUnit::Microsecond) => Some(AccumulatorKind::Numeric(Native::Int64)),
        DataType::Time64(TimeUnit::Nanosecond) => Some(AccumulatorKind::Numeric(Native::Int64)),
        DataType::Timestamp(_, _) => Some(AccumulatorKind::Numeric(Native::Int64)),
        DataType::Utf8 => Some(AccumulatorKind::Text),
        DataType::LargeUtf8 => Some(AccumulatorKind::Text),
        DataType::Utf8View => Some(AccumulatorKind::View),
        DataType::Binary => Some(AccumulatorKind::Bytes),
        DataType::LargeBinary => Some(AccumulatorKind::Bytes),
        DataType::Null => Some(AccumulatorKind::Nothing),
        _ => None,
    }
}

/// The type of the values of a dictionary, at the innermost; other types are their own.
pub open spec fn innermost_type(data_type: DataType) -> DataType
    decreases data_type,
{
    match data_type {
        DataType::Dictionary(_, value) => innermost_type(*value),
        other => other,
    }
}

/// The type of the values of a dictionary, at the innermost; other types are their own.
pub fn dictionary_value_type(data_type: &DataType) -> (result: &DataType)
    ensures
        *result == innermost_type(*data_type),
        *result !is Dictionary,
    decreases *data_type,
{
    match data_type {
        DataType::Dictionary(_, inner) => dictionary_value_type(inner),
        other => other,
    }
}

/// Whether the values of the type are counted exactly.
pub fn is_fixed_domain_type(data_type: &DataType) -> (result: bool)
    ensures
        result == (plain_kind(*data_type) matches Some(AccumulatorKind::Small(_))),
{
    matches!(
        data_type,
        DataType::UInt8 | DataType::Int8 | DataType::UInt16 | DataType::Int16
    )
}

/// Whether values of a type, or of its dictionary values, are counted.
pub open spec fn supported(data_type: DataType) -> bool {
    plain_kind(innermost_type(data_type)) is Some
}

/// Whether values of a type, or of its dictionary values, are counted.
pub fn is_supported_type(data_type: &DataType) -> (result: bool)
    ensures
        result == supported(*data_type),
{
    let value_type = dictionary_value_type(data_type);
    matches!(value_type, DataType::Null) || is_fixed_domain_type(value_type) || counts_hashes(
        value_type,
    )
}

/// Whether values of a type are counted by their hashes.
fn counts_hashes(data_type: &DataType) -> (result: bool)
    ensures
        result == (plain_kind(*data_type) matches Some(kind) && !(kind is Small) && !(kind is Nothing)),
{
    matches!(
        data_type,
        DataType::UInt32
            | DataType::UInt64
            | DataType::Int32
            | DataType::Int64
            | DataType::Date32
            | DataType::Date64
            | DataType::Time32(TimeUnit::Second)
            | DataType::Time32(TimeUnit::Millisecond)
            | DataType::Time64(TimeUnit::Microsecond)
            | DataType::Time64(TimeUnit::Nanosecond)
            | DataType::Timestamp(TimeUnit::Second, _)
            | DataType::Timestamp(TimeUnit::Millisecond, _)
            | DataType::Timestamp(TimeUnit::Microsecond, _)
            | DataType::Timestamp(TimeUnit::Nanosecond, _)
            | DataType::Utf8
            | DataType::LargeUtf8
            | DataType::Utf8View
            | DataType::Binary
            | DataType::LargeBinary
    )
}

/// Whether groups of a type are counted by hashes: types counted by their hashes, and
/// every dictionary whose values are counted at all.
pub fn is_hll_groups_type(data_type: &DataType) -> (result: bool)
    ensures
        result == if *data_type is Dictionary {
            supported(*data_type)
        } else {
            plain_kind(*data_type) matches Some(kind) && !(kind is Small) && !(kind is Nothing)
        },
{
    if matches!(data_type, DataType::Dictionary(_, _)) {
        return is_supported_type(data_type);
    }
    counts_hashes(data_type)
}

/// What an accumulator has seen.
pub enum Seen {
    /// The slots of the small integers seen.
    Slots(Seq<bool>),
    /// The registers of the hashes seen.
    Registers(Seq<u8>),
    /// Nothing that counts.
    Nothing,
}

/// Whether an accumulator of the kind takes the column.
pub open spec fn takes(kind: AccumulatorKind, column: ColumnValues) -> bool {
    match kind {
        AccumulatorKind::Small(small) => small.counts(column),
        AccumulatorKind::Numeric(native) => native.counts(column),
        AccumulatorKind::Text => column is Utf8,
        AccumulatorKind::View => column is Views,
        AccumulatorKind::Bytes => column is Binary,
        AccumulatorKind::Nothing => true,
    }
}

/// Whether a dictionary accumulator of the kind takes values as the column holds them:
/// those that a plain one takes, strings in either form, and nulls.
pub open spec fn takes_values(kind: AccumulatorKind, column: ColumnValues) -> bool {
    ||| takes(kind, column)
    ||| column is AllNull
    ||| kind is Text && column is Views
    ||| kind is View && column is Utf8
}

/// What was seen after rows, of values as `column` holds them.
pub open spec fn seen_more(
    before: Seen,
    column: ColumnValues,
    rows: Seq<Option<Cell>>,
    after: Seen,
) -> bool {
    match (before, after) {
        (Seen::Slots(old_slots), Seen::Slots(slots)) => slots == distinct_counter::counted(
            old_slots,
            rows,
        ),
        (Seen::Registers(old_registers), Seen::Registers(registers)) => absorbed(
            old_registers,
            registers,
            column,
            rows,
        ),
        (Seen::Nothing, Seen::Nothing) => true,
        _ => false,
    }
}

/// Nothing was seen yet.
pub open spec fn nothing_seen(kind: AccumulatorKind, seen: Seen) -> bool {
    match kind {
        AccumulatorKind::Small(small) => seen is Slots && seen->Slots_0.len() == small.slots()
            && forall|i: int| 0 <= i < small.slots() ==> !(#[trigger] seen->Slots_0[i]),
        AccumulatorKind::Nothing => seen is Nothing,
        _ => seen is Registers && seen->Registers_0 == hyperloglog::no_values(),
    }
}

/// An accumulator for a column that is no dictionary.
#[derive(Debug)]
pub enum PlainAccumulator {
    Bitmap(ApproxDistinctBitmapWrapper),
    Numeric(NumericHLLAccumulator),
    Text(StringHLLAccumulator),
    View(StringViewHLLAccumulator),
    Bytes(BinaryHLLAccumulator),
    /// Counts nothing.
    Noop,
}

impl PlainAccumulator {
    /// How it counts.
    pub open spec fn kind(self) -> AccumulatorKind {
        match self {
            PlainAccumulator::Bitmap(inner) => AccumulatorKind::Small(inner.kind()),
            PlainAccumulator::Numeric(inner) => AccumulatorKind::Numeric(inner.native()),
            PlainAccumulator::Text(_) => AccumulatorKind::Text,
            PlainAccumulator::View(_) => AccumulatorKind::View,
            PlainAccumulator::Bytes(_) => AccumulatorKind::Bytes,
            PlainAccumulator::Noop => AccumulatorKind::Nothing,
        }
    }

    /// What it has seen.
    pub open spec fn seen(self) -> Seen {
        match self {
            PlainAccumulator::Bitmap(inner) => Seen::Slots(inner.seen()),
            PlainAccumulator::Numeric(inner) => Seen::Registers(inner.registers()),
            PlainAccumulator::Text(inner) => Seen::Registers(inner.registers()),
            PlainAccumulator::View(inner) => Seen::Registers(inner.registers()),
            PlainAccumulator::Bytes(inner) => Seen::Registers(inner.registers()),
            PlainAccumulator::Noop => Seen::Nothing,
        }
    }

    /// The parts are well-formed.
    pub open spec fn wf(self) -> bool {
        match self {
            PlainAccumulator::Bitmap(inner) => inner.wf(),
            PlainAccumulator::Numeric(inner) => inner.wf(),
            PlainAccumulator::Text(inner) => inner.wf(),
            PlainAccumulator::View(inner) => inner.wf(),
            PlainAccumulator::Bytes(inner) => inner.wf(),
            PlainAccumulator::Noop => true,
        }
    }

    /// Registers, where there are any, hold ranks or nothing.
    pub open spec fn holds_ranks(self) -> bool {
        match self {
            PlainAccumulator::Bitmap(_) => true,
            PlainAccumulator::Numeric(inner) => inner.holds_ranks(),
            PlainAccumulator::Text(inner) => inner.holds_ranks(),
            PlainAccumulator::View(inner) => inner.holds_ranks(),
            PlainAccumulator::Bytes(inner) => inner.holds_ranks(),
            PlainAccumulator::Noop => true,
        }
    }

    /// Counts the values of a column.
    pub fn update_batch(&mut self, column: &ColumnValues) -> (result: Result<(), ExecError>)
        requires
            old(self).wf(),
        ensures
            final(self).wf(),
            final(self).kind() == old(self).kind(),
            old(self).holds_ranks() ==> final(self).holds_ranks(),
            match result {
                Ok(()) => takes(old(self).kind(), *column) && seen_more(
                    old(self).seen(),
                    *column,
                    column.rows(),
                    final(self).seen(),
                ),
                Err(error) => !takes(old(self).kind(), *column) && error is UnexpectedColumn
                    && final(self).seen() == old(self).seen(),
            },
    {
        match self {
            PlainAccumulator::Bitmap(inner) => inner.update_batch(column),
            PlainAccumulator::Numeric(inner) => inner.update_batch(column),
            PlainAccumulator::Text(inner) => inner.update_batch(column),
            PlainAccumulator::View(inner) => inner.update_batch(column),
            PlainAccumulator::Bytes(inner) => inner.update_batch(column),
            PlainAccumulator::Noop => Ok(()),
        }
    }

    /// Merges states of other accumulators.
    pub fn merge_batch(&mut self, states: &StateColumn) -> (result: Result<(), ExecError>)
        requires
            old(self).wf(),
        ensures
            final(self).wf(),
            final(self).kind() == old(self).kind(),
            old(self).holds_ranks() && states.holds_ranks() ==> final(self).holds_ranks(),
            seen_merged(old(self).kind(), old(self).seen(), *states, final(self).seen(), result),
    {
        match (self, states) {
            (PlainAccumulator::Bitmap(inner), StateColumn::Lists(lists)) => inner.merge_batch(lists),
            (PlainAccumulator::Numeric(inner), StateColumn::Registers(registers)) =>
                inner.merge_batch(registers),
            (PlainAccumulator::Text(inner), StateColumn::Registers(registers)) => inner.merge_batch(
                registers,
            ),
            (PlainAccumulator::View(inner), StateColumn::Registers(registers)) => inner.merge_batch(
                registers,
            ),
            (PlainAccumulator::Bytes(inner), StateColumn::Registers(registers)) =>
                inner.merge_batch(registers),
            (PlainAccumulator::Noop, _) => Ok(()),
            _ => Err(ExecError::UnexpectedColumn),
        }
    }

    /// The count: exact for small integers, else what `estimate` gives for the
    /// histogram of the registers.
    pub fn evaluate<E>(&self, estimate: E) -> (result: Result<ScalarValue, ExecError>) where
        E: FnOnce(&Vec<u32>) -> u64,

        requires
            self.wf(),
            self.holds_ranks(),
            forall|counts: &Vec<u32>| call_requires(estimate, (counts,)),
        ensures
            result is Ok,
            evaluates(self.seen(), estimate, result->Ok_0),
    {
        match self {
            PlainAccumulator::Bitmap(inner) => inner.evaluate(),
            PlainAccumulator::Numeric(inner) => Ok(inner.evaluate(estimate)),
            PlainAccumulator::Text(inner) => Ok(inner.evaluate(estimate)),
            PlainAccumulator::View(inner) => Ok(inner.evaluate(estimate)),
            PlainAccumulator::Bytes(inner) => Ok(inner.evaluate(estimate)),
            PlainAccumulator::Noop => Ok(ScalarValue::UInt64(Some(0))),
        }
    }

    /// The state that other accumulators merge.
    pub fn state(&self) -> (result: Vec<ScalarValue>)
        requires
            self.wf(),
        ensures
            result@.len() == 1,
            is_state_of(self.kind(), self.seen(), result@[0]),
    {
        let value = match self {
            PlainAccumulator::Bitmap(inner) => inner.state(),
            PlainAccumulator::Numeric(inner) => inner.state(),
            PlainAccumulator::Text(inner) => inner.state(),
            PlainAccumulator::View(inner) => inner.state(),
            PlainAccumulator::Bytes(inner) => inner.state(),
            PlainAccumulator::Noop => ScalarValue::UInt64(Some(0)),
        };
        let mut state: Vec<ScalarValue> = Vec::new();
        state.push(value);
        state
    }

    /// The bytes that the accumulator was found to occupy.
    pub open spec fn retains(self, bytes: usize) -> bool {
        match self {
            PlainAccumulator::Bitmap(inner) => inner.retains(bytes),
            PlainAccumulator::Noop => bytes == 0,
            _ => bytes == NUM_REGISTERS,
        }
    }

    /// The bytes that the accumulator occupies, at least one for each slot or register.
    pub fn size(&self) -> (result: usize)
        requires
            self.wf(),
        ensures
            self.retains(result),
            self.seen() matches Seen::Slots(slots) ==> result >= slots.len(),
    {
        match self {
            PlainAccumulator::Bitmap(inner) => inner.size(),
            PlainAccumulator::Numeric(inner) => inner.size(),
            PlainAccumulator::Text(inner) => inner.size(),
            PlainAccumulator::View(inner) => inner.size(),
            PlainAccumulator::Bytes(inner) => inner.size(),
            PlainAccumulator::Noop => 0,
        }
    }
}

/// What was seen after states were merged, and the result of it.
pub open spec fn seen_merged(
    kind: AccumulatorKind,
    before: Seen,
    states: StateColumn,
    after: Seen,
    result: Result<(), ExecError>,
) -> bool {
    match (kind, states) {
        (AccumulatorKind::Small(small), StateColumn::Lists(lists)) => {
            let good = distinct_counter::lists_of_type(small, lists@);
            &&& after is Slots
            &&& before is Slots
            &&& after->Slots_0 == distinct_counter::counted_lists(
                before->Slots_0,
                lists@.take(good),
            )
            &&& match result {
                Ok(()) => good == lists@.len(),
                Err(error) => good < lists@.len() && error is UnexpectedColumn,
            }
        },
        (AccumulatorKind::Nothing, _) => after == before && result is Ok,
        (AccumulatorKind::Small(_), _) => after == before && result is Err
            && result->Err_0 is UnexpectedColumn,
        (_, StateColumn::Registers(registers)) => after is Registers && before is Registers
            && merge_outcome(
            before->Registers_0,
            state_bytes(registers@),
            after->Registers_0,
            result,
        ),
        _ => after == before && result is Err && result->Err_0 is UnexpectedColumn,
    }
}

/// The count of what was seen.
pub open spec fn evaluates<E: FnOnce(&Vec<u32>) -> u64>(
    seen: Seen,
    estimate: E,
    value: ScalarValue,
) -> bool {
    match seen {
        Seen::Slots(slots) => value is UInt64 && value->UInt64_0 is Some && value->UInt64_0->0
            == arrays::set_positions(slots).len(),
        Seen::Registers(registers) => estimates(registers, estimate, value),
        Seen::Nothing => value == ScalarValue::UInt64(Some(0)),
    }
}

/// The state of what was seen: the values of small integers, registers, or a zero.
pub open spec fn is_state_of(kind: AccumulatorKind, seen: Seen, value: ScalarValue) -> bool {
    match seen {
        Seen::Slots(slots) => {
            let signed = kind matches AccumulatorKind::Small(small) && small.is_signed();
            let values = distinct_counter::listed(slots, signed);
            &&& value is List
            &&& value->List_0@.len() == values.len()
            &&& forall|k: int| 0 <= k < values.len() ==> (#[trigger] value->List_0@[k]) == values[k]
        },
        Seen::Registers(registers) => value is Binary && value->Binary_0 is Some
            && value->Binary_0->0@ == registers,
        Seen::Nothing => value == ScalarValue::UInt64(Some(0)),
    }
}

/// An accumulator for small integers; an error for other types.
pub fn get_small_int_approx_accumulator(data_type: &DataType) -> (result: Result<
    PlainAccumulator,
    ExecError,
>)
    ensures
        match result {
            Ok(accumulator) => accumulator.wf() && accumulator.holds_ranks()
                && accumulator.kind() is Small && plain_kind(*data_type) == Some(
                accumulator.kind(),
            ) && nothing_seen(accumulator.kind(), accumulator.seen()),
            Err(error) => !(plain_kind(*data_type) matches Some(AccumulatorKind::Small(_)))
                && error == ExecError::UnsupportedSmallInt { data_type: *data_type },
        },
{
    let kind: SmallInt = match data_type {
        DataType::UInt8 => SmallInt::UInt8,
        DataType::Int8 => SmallInt::Int8,
        DataType::UInt16 => SmallInt::UInt16,
        DataType::Int16 => SmallInt::Int16,
        other => {
            return Err(ExecError::UnsupportedSmallInt { data_type: other.duplicate() });
        },
    };
    Ok(PlainAccumulator::Bitmap(ApproxDistinctBitmapWrapper::new(kind)))
}

/// What is made for a type that is no dictionary: an accumulator that has seen nothing,
/// or an error where values of the type are not counted.
pub open spec fn plain_outcome(
    data_type: DataType,
    result: Result<PlainAccumulator, ExecError>,
) -> bool {
    match result {
        Ok(accumulator) => accumulator.wf() && accumulator.holds_ranks() && plain_kind(data_type)
            == Some(accumulator.kind()) && nothing_seen(accumulator.kind(), accumulator.seen()),
        Err(error) => plain_kind(data_type) is None && error == ExecError::NotImplemented {
            data_type,
        },
    }
}

/// What is made for any type: an accumulator of the values, in that of a dictionary
/// where the type is one, or an error.
pub open spec fn outcome(data_type: DataType, result: Result<Accumulator, ExecError>) -> bool {
    match result {
        Ok(accumulator) => supported(data_type) && accumulator is Dictionary
            == data_type is Dictionary && accumulator.inner().wf()
            && accumulator.inner().holds_ranks() && plain_kind(innermost_type(data_type)) == Some(
            accumulator.inner().kind(),
        ) && nothing_seen(accumulator.inner().kind(), accumulator.inner().seen()) && (
        accumulator matches Accumulator::Dictionary(dictionary) ==> dictionary.value_type
            == innermost_type(data_type)),
        Err(error) => !supported(data_type) && error == ExecError::NotImplemented { data_type },
    }
}

/// An accumulator for a type that is no dictionary.
pub fn make_approx_distinct_accumulator(data_type: &DataType) -> (result: Result<
    PlainAccumulator,
    ExecError,
>)
    ensures
        plain_outcome(*data_type, result),
{
    let native: Native = match data_type {
        DataType::UInt8 | DataType::Int8 | DataType::UInt16 | DataType::Int16 => {
            return get_small_int_approx_accumulator(data_type);
        },
        DataType::UInt32 => Native::UInt32,
        DataType::UInt64 => Native::UInt64,
        DataType::Int32 => Native::Int32,
        DataType::Int64 => Native::Int64,
        DataType::Date32 => Native::Int32,
        DataType::Date64 => Native::Int64,
        DataType::Time32(TimeUnit::Second) => Native::Int32,
        DataType::Time32(TimeUnit::Millisecond) => Native::Int32,
        DataType::Time64(TimeUnit::Microsecond) => Native::Int64,
        DataType::Time64(TimeUnit::Nanosecond) => Native::Int64,
        DataType::Timestamp(_, _) => Native::Int64,
        DataType::Utf8 | DataType::LargeUtf8 => {
            return Ok(PlainAccumulator::Text(StringHLLAccumulator::new()));
        },
        DataType::Utf8View => {
            return Ok(PlainAccumulator::View(StringViewHLLAccumulator::new()));
        },
        DataType::Binary | DataType::LargeBinary => {
            return Ok(PlainAccumulator::Bytes(BinaryHLLAccumulator::new()));
        },
        DataType::Null => {
            return Ok(PlainAccumulator::Noop);
        },
        other => {
            return Err(ExecError::NotImplemented { data_type: other.duplicate() });
        },
    };
    Ok(PlainAccumulator::Numeric(NumericHLLAccumulator::new(native)))
}

/// Counts the values of a dictionary column.
#[derive(Debug)]
pub struct DictionaryAccumulator {
    /// The accumulator of the values.
    pub inner: PlainAccumulator,
    /// The type of the values.
    pub value_type: DataType,
}

/// Strings in the form that the accumulator takes; other values as they are.
fn in_form(plain: ColumnValues, accumulator: &PlainAccumulator) -> (result: ColumnValues)
    ensures
        result.rows() == plain.rows(),
        plain !is AllNull ==> takes(accumulator.kind(), result) == takes_values(
            accumulator.kind(),
            plain,
        ),
        forall|state: RandomState, rows: Seq<Option<Cell>>, hashes: Seq<u64>| #[trigger]
            result.row_hashes(state, rows, hashes) == plain.row_hashes(state, rows, hashes),
{
    match (accumulator, plain) {
        (PlainAccumulator::Text(_), ColumnValues::Views(values)) => ColumnValues::Utf8(values),
        (PlainAccumulator::View(_), ColumnValues::Utf8(values)) => ColumnValues::Views(values),
        (_, plain) => plain,
    }
}

/// Nulls change nothing.
proof fn lemma_nulls_change_nothing(
    seen: Seen,
    column: ColumnValues,
    rows: Seq<Option<Cell>>,
    state: RandomState,
)
    requires
        column is AllNull,
        hyperloglog::is_hll_state(state),
        forall|i: int| 0 <= i < rows.len() ==> #[trigger] rows[i] is None,
    ensures
        seen_more(seen, column, rows, seen),
{
    match seen {
        Seen::Slots(slots) => {
            assert(slots =~= distinct_counter::counted(slots, rows));
        },
        Seen::Registers(registers) => {
            let hashes: Seq<u64> = Seq::empty();
            assert(column.row_hashes(state, rows, hashes));
        },
        Seen::Nothing => {},
    }
}

/// What was seen of columns whose rows have the same hashes is the same.
proof fn lemma_seen_in_form(
    before: Seen,
    column: ColumnValues,
    other: ColumnValues,
    rows: Seq<Option<Cell>>,
    after: Seen,
)
    requires
        seen_more(before, column, rows, after),
        forall|state: RandomState, rows: Seq<Option<Cell>>, hashes: Seq<u64>| #[trigger]
            column.row_hashes(state, rows, hashes) == other.row_hashes(state, rows, hashes),
    ensures
        seen_more(before, other, rows, after),
{
    if let (Seen::Registers(old_registers), Seen::Registers(registers)) = (before, after) {
        let (state, hashes) = choose|state: RandomState, hashes: Seq<u64>|
            hyperloglog::is_hll_state(state) && #[trigger] column.row_hashes(state, rows, hashes)
                && registers == hyperloglog::added_all(old_registers, hashes);
        assert(other.row_hashes(state, rows, hashes));
    }
}

impl DictionaryAccumulator {
    /// Counts the values that the rows of a column stand for.
    pub fn update_batch(&mut self, column: &ColumnValues) -> (result: Result<(), ExecError>)
        requires
            old(self).inner.wf(),
            column.wf(),
        ensures
            final(self).inner.wf(),
            final(self).inner.kind() == old(self).inner.kind(),
            final(self).value_type == old(self).value_type,
            old(self).inner.holds_ranks() ==> final(self).inner.holds_ranks(),
            match result {
                Ok(()) => takes_values(old(self).inner.kind(), column.innermost()) && seen_more(
                    old(self).inner.seen(),
                    column.innermost(),
                    column.rows(),
                    final(self).inner.seen(),
                ),
                Err(error) => !takes_values(old(self).inner.kind(), column.innermost())
                    && error is UnexpectedColumn && final(self).inner.seen()
                    == old(self).inner.seen(),
            },
    {
        let decoded = column.decoded();
        if matches!(decoded, ColumnValues::AllNull(_)) {
            let state = hll_hash_state();
            proof {
                assert(column.rows() == decoded.rows());
                lemma_nulls_change_nothing(
                    self.inner.seen(),
                    column.innermost(),
                    column.rows(),
                    state,
                );
            }
            return Ok(());
        }
        let ghost values = decoded;
        let plain = in_form(decoded, &self.inner);
        let result = self.inner.update_batch(&plain);
        proof {
            if result is Ok {
                lemma_seen_in_form(
                    old(self).inner.seen(),
                    plain,
                    values,
                    column.rows(),
                    self.inner.seen(),
                );
                law_dictionaries_count_as_decoded(
                    old(self).inner.seen(),
                    values,
                    column.innermost(),
                    column.rows(),
                    self.inner.seen(),
                );
            }
        }
        result
    }
}

/// An accumulator.
#[derive(Debug)]
pub enum Accumulator {
    /// For a column that is no dictionary.
    Plain(PlainAccumulator),
    /// For a dictionary column.
    Dictionary(DictionaryAccumulator),
}

impl Accumulator {
    /// The accumulator of the values.
    pub open spec fn inner(self) -> PlainAccumulator {
        match self {
            Accumulator::Plain(inner) => inner,
            Accumulator::Dictionary(dictionary) => dictionary.inner,
        }
    }

    /// Counts the values of a column.
    pub fn update_batch(&mut self, column: &ColumnValues) -> (result: Result<(), ExecError>)
        requires
            old(self).inner().wf(),
            column.wf(),
        ensures
            final(self).inner().wf(),
            final(self).inner().kind() == old(self).inner().kind(),
            *final(self) is Dictionary == *old(self) is Dictionary,
            old(self).inner().holds_ranks() ==> final(self).inner().holds_ranks(),
            ({
                let values = if *old(self) is Dictionary {
                    column.innermost()
                } else {
                    *column
                };
                let taken = if *old(self) is Dictionary {
                    takes_values(old(self).inner().kind(), values)
                } else {
                    takes(old(self).inner().kind(), values)
                };
                match result {
                    Ok(()) => taken && seen_more(
                        old(self).inner().seen(),
                        values,
                        column.rows(),
                        final(self).inner().seen(),
                    ),
                    Err(error) => !taken
                        && error is UnexpectedColumn && final(self).inner().seen()
                        == old(self).inner().seen(),
                }
            }),
    {
        match self {
            Accumulator::Plain(inner) => inner.update_batch(column),
            Accumulator::Dictionary(dictionary) => dictionary.update_batch(column),
        }
    }

    /// Merges states of other accumulators.
    pub fn merge_batch(&mut self, states: &StateColumn) -> (result: Result<(), ExecError>)
        requires
            old(self).inner().wf(),
        ensures
            final(self).inner().wf(),
            final(self).inner().kind() == old(self).inner().kind(),
            *final(self) is Dictionary == *old(self) is Dictionary,
            old(self).inner().holds_ranks() && states.holds_ranks() ==> final(self).inner().holds_ranks(),
            seen_merged(
                old(self).inner().kind(),
                old(self).inner().seen(),
                *states,
                final(self).inner().seen(),
                result,
            ),
    {
        match self {
            Accumulator::Plain(inner) => inner.merge_batch(states),
            Accumulator::Dictionary(dictionary) => dictionary.inner.merge_batch(states),
        }
    }

    /// The count: exact for small integers, else what `estimate` gives for the
    /// histogram of the registers.
    pub fn evaluate<E>(&self, estimate: E) -> (result: Result<ScalarValue, ExecError>) where
        E: FnOnce(&Vec<u32>) -> u64,

        requires
            self.inner().wf(),
            self.inner().holds_ranks(),
            forall|counts: &Vec<u32>| call_requires(estimate, (counts,)),
        ensures
            result is Ok,
            evaluates(self.inner().seen(), estimate, result->Ok_0),
    {
        match self {
            Accumulator::Plain(inner) => inner.evaluate(estimate),
            Accumulator::Dictionary(dictionary) => dictionary.inner.evaluate(estimate),
        }
    }

    /// The state that other accumulators merge.
    pub fn state(&self) -> (result: Vec<ScalarValue>)
        requires
            self.inner().wf(),
        ensures
            result@.len() == 1,
            is_state_of(self.inner().kind(), self.inner().seen(), result@[0]),
    {
        match self {
            Accumulator::Plain(inner) => inner.state(),
            Accumulator::Dictionary(dictionary) => dictionary.inner.state(),
        }
    }

    /// The bytes that the accumulator occupies, at least one for each slot or register.
    pub fn size(&self) -> (result: usize)
        requires
            self.inner().wf(),
        ensures
            self.inner().retains(result),
            self.inner().seen() matches Seen::Slots(slots) ==> result >= slots.len(),
    {
        match self {
            Accumulator::Plain(inner) => inner.size(),
            Accumulator::Dictionary(dictionary) => dictionary.inner.size(),
        }
    }
}

/// The name of a state field: that of the aggregate, and that of the state in
/// brackets.
pub open spec fn state_name(name: Seq<char>, state: Seq<char>) -> Seq<char> {
    name + "["@ + state + "]"@
}

/// The name of a state field.
pub fn format_state_name(name: &str, state: &str) -> (result: String)
    ensures
        result@ == state_name(name@, state@),
{
    let mut result: String = name.to_owned();
    result.append("[");
    result.append(state);
    result.append("]");
    result
}

/// The state of a counter of small integers: one list of them that is not null.
pub open spec fn is_small_int_state(field: Field, name: Seq<char>, data_type: DataType) -> bool {
    &&& field.name@ == state_name(name, "approx_distinct"@)
    &&& !field.nullable
    &&& field.metadata@.len() == 0
    &&& field.data_type is List
    &&& field.data_type->List_0.name@ == "item"@
    &&& field.data_type->List_0.data_type == data_type
    &&& field.data_type->List_0.nullable
    &&& field.data_type->List_0.metadata@.len() == 0
}

/// The state of registers: their bytes, not null.
pub open spec fn is_register_state(field: Field, name: Seq<char>) -> bool {
    &&& field.name@ == state_name(name, "hll_registers"@)
    &&& !field.nullable
    &&& field.metadata@.len() == 0
    &&& field.data_type == DataType::Binary
}

/// The state of a column of nulls: a null.
pub open spec fn is_null_state(field: Field, name: Seq<char>) -> bool {
    &&& field.name@ == state_name(name, "approx_distinct"@)
    &&& field.nullable
    &&& field.metadata@.len() == 0
    &&& field.data_type == DataType::Null
}

/// The state field of an aggregate named `name` over a column of type `data_type`.
pub open spec fn is_state_field(field: Field, name: Seq<char>, data_type: DataType) -> bool {
    let value_type = if data_type is Dictionary && supported(data_type) {
        innermost_type(data_type)
    } else {
        data_type
    };
    if data_type == DataType::Null {
        is_null_state(field, name)
    } else if plain_kind(value_type) matches Some(AccumulatorKind::Small(_)) {
        is_small_int_state(field, name, value_type)
    } else {
        is_register_state(field, name)
    }
}

/// The state field of a counter of small integers.
pub fn get_small_int_state_field(name: &str, data_type: &DataType) -> (result: Vec<Field>)
    ensures
        result@.len() == 1,
        is_small_int_state(result@[0], name@, *data_type),
{
    let item = Field {
        name: "item".to_owned(),
        data_type: data_type.duplicate(),
        nullable: true,
        metadata: Arc::new(Vec::new()),
    };
    let field = Field {
        name: format_state_name(name, "approx_distinct"),
        data_type: DataType::List(Arc::new(item)),
        nullable: false,
        metadata: Arc::new(Vec::new()),
    };
    let mut fields: Vec<Field> = Vec::new();
    fields.push(field);
    fields
}

/// The approximate number of distinct input values.
#[derive(Debug, PartialEq, Eq, Hash)]
pub struct ApproxDistinct {
    signature: Signature,
}

impl Default for ApproxDistinct {
    fn default() -> (result: ApproxDistinct)
        ensures
            result.sig() == (Signature {
                type_signature: TypeSignature::Any(1),
                volatility: Volatility::Immutable,
            }),
    {
        ApproxDistinct::new()
    }
}

impl ApproxDistinct {
    /// The signature of the function.
    pub closed spec fn sig(self) -> Signature {
        self.signature
    }

    /// The function, which takes one argument of any type and is immutable.
    pub fn new() -> (result: ApproxDistinct)
        ensures
            result.sig() == (Signature {
                type_signature: TypeSignature::Any(1),
                volatility: Volatility::Immutable,
            }),
    {
        ApproxDistinct {
            signature: Signature {
                type_signature: TypeSignature::Any(1),
                volatility: Volatility::Immutable,
            },
        }
    }

    /// The name of the function.
    pub fn name(&self) -> (result: &'static str)
        ensures
            result@ == "approx_distinct"@,
    {
        "approx_distinct"
    }

    /// The signature of the function.
    pub fn signature(&self) -> (result: &Signature)
        ensures
            *result == self.sig(),
    {
        &self.signature
    }

    /// The type of the result, whatever the argument.
    pub fn return_type(&self, _arg_types: &[DataType]) -> (result: Result<DataType, ExecError>)
        ensures
            result == Ok::<DataType, ExecError>(DataType::UInt64),
    {
        Ok(DataType::UInt64)
    }

    /// The fields of the state of an aggregate named `name` over a column of type
    /// `data_type`.
    pub fn state_fields(&self, name: &str, data_type: &DataType) -> (result: Result<
        Vec<Field>,
        ExecError,
    >)
        ensures
            result is Ok,
            result->Ok_0@.len() == 1,
            is_state_field(result->Ok_0@[0], name@, *data_type),
    {
        let field = match data_type {
            DataType::Null => Field {
                name: format_state_name(name, self.name()),
                data_type: DataType::Null,
                nullable: true,
                metadata: Arc::new(Vec::new()),
            },
            DataType::UInt8 | DataType::Int8 | DataType::UInt16 | DataType::Int16 => {
                return Ok(get_small_int_state_field(name, data_type));
            },
            _ => {
                if matches!(data_type, DataType::Dictionary(_, _)) && is_supported_type(data_type) {
                    let value_type = dictionary_value_type(data_type);
                    if is_fixed_domain_type(value_type) {
                        return Ok(get_small_int_state_field(name, value_type));
                    }
                }
                Field {
                    name: format_state_name(name, "hll_registers"),
                    data_type: DataType::Binary,
                    nullable: false,
                    metadata: Arc::new(Vec::new()),
                }
            },
        };
        let mut fields: Vec<Field> = Vec::new();
        fields.push(field);
        Ok(fields)
    }

    /// An accumulator for a column of type `data_type`.
    pub fn accumulator(&self, data_type: &DataType) -> (result: Result<Accumulator, ExecError>)
        ensures
            outcome(*data_type, result),
    {
        if matches!(data_type, DataType::Dictionary(_, _)) {
            if !is_supported_type(data_type) {
                return Err(ExecError::NotImplemented { data_type: data_type.duplicate() });
            }
            let value_type = dictionary_value_type(data_type).duplicate();
            return match make_approx_distinct_accumulator(&value_type) {
                Ok(inner) => Ok(
                    Accumulator::Dictionary(DictionaryAccumulator { inner, value_type }),
                ),
                Err(error) => Err(error),
            };
        }
        match make_approx_distinct_accumulator(data_type) {
            Ok(inner) => Ok(Accumulator::Plain(inner)),
            Err(error) => Err(error),
        }
    }
}

/// Whether what was seen is of the kind that the accumulator sees.
pub open spec fn sees(kind: AccumulatorKind, seen: Seen) -> bool {
    match kind {
        AccumulatorKind::Small(small) => seen is Slots && seen->Slots_0.len() == small.slots(),
        AccumulatorKind::Nothing => seen is Nothing,
        _ => seen is Registers && seen->Registers_0.len() == NUM_REGISTERS,
    }
}

/// A state is of the type of its field, unless the values are nulls.
pub proof fn law_state_fits_its_field(
    name: Seq<char>,
    data_type: DataType,
    field: Field,
    kind: AccumulatorKind,
    seen: Seen,
    value: ScalarValue,
)
    requires
        innermost_type(data_type) != DataType::Null,
        plain_kind(innermost_type(data_type)) == Some(kind),
        is_state_field(field, name, data_type),
        sees(kind, seen),
        is_state_of(kind, seen, value),
    ensures
        value is Binary <==> field.data_type == DataType::Binary,
        value is List <==> field.data_type is List,
        value is Binary || value is List,
{
}

/// The state of an accumulator, merged into one that saw nothing, gives the same
/// registers, and merged into the accumulator itself changes nothing.
pub proof fn law_registers_survive_their_state(registers: Seq<u8>)
    requires
        registers.len() == NUM_REGISTERS,
    ensures
        good_states(seq![Some(registers)]) == 1,
        hyperloglog::merged_all(
            hyperloglog::no_values(),
            present_states(seq![Some(registers)]),
        ) == registers,
        hyperloglog::merged_all(registers, present_states(seq![Some(registers)])) == registers,
{
    let states = seq![Some(registers)];
    let present = present_states(states);
    assert(states.drop_last() =~= Seq::empty());
    assert(present.drop_last() =~= Seq::empty());
    assert(present.last() == registers);
    assert(good_states(states.drop_last()) == 0);
    hyperloglog::law_merge_is_a_join(registers, hyperloglog::no_values(), registers);
    assert(hyperloglog::merged_all(registers, present.drop_last()) == registers);
    assert(hyperloglog::merged_all(hyperloglog::no_values(), present.drop_last())
        == hyperloglog::no_values());
}

proof fn lemma_seen_in_kind(
    before: Seen,
    column: ColumnValues,
    other: ColumnValues,
    rows: Seq<Option<Cell>>,
    after: Seen,
)
    requires
        seen_more(before, column, rows, after),
        column.same_kind(other),
    ensures
        seen_more(before, other, rows, after),
{
    if let (Seen::Registers(old_registers), Seen::Registers(registers)) = (before, after) {
        let (state, hashes) = choose|state: RandomState, hashes: Seq<u64>|
            hyperloglog::is_hll_state(state) && #[trigger] column.row_hashes(state, rows, hashes)
                && registers == hyperloglog::added_all(old_registers, hashes);
        assert(other.row_hashes(state, rows, hashes));
    }
}

/// A dictionary accumulator sees in a dictionary column what a plain one sees in the
/// decoded column: rows are hashed alike in all columns of one kind.
pub proof fn law_dictionaries_count_as_decoded(
    before: Seen,
    decoded: ColumnValues,
    innermost: ColumnValues,
    rows: Seq<Option<Cell>>,
    after: Seen,
)
    requires
        decoded.same_kind(innermost),
    ensures
        seen_more(before, decoded, rows, after) <==> seen_more(before, innermost, rows, after),
{
    if seen_more(before, decoded, rows, after) {
        lemma_seen_in_kind(before, decoded, innermost, rows, after);
    }
    if seen_more(before, innermost, rows, after) {
        lemma_seen_in_kind(before, innermost, decoded, rows, after);
    }
}

/// For a type that is no dictionary both ways to make an accumulator make the same one,
/// or give the same error.
pub proof fn law_accumulators_are_made_alike(
    data_type: DataType,
    plain: Result<PlainAccumulator, ExecError>,
    any: Result<Accumulator, ExecError>,
)
    requires
        data_type !is Dictionary,
        plain_outcome(data_type, plain),
        outcome(data_type, any),
    ensures
        match (plain, any) {
            (Ok(inner), Ok(accumulator)) => accumulator is Plain && accumulator.inner().kind()
                == inner.kind() && accumulator.inner().seen() == inner.seen(),
            (Err(left), Err(right)) => left == right,
            _ => false,
        },
{
    assert(innermost_type(data_type) == data_type);
    if let (Ok(inner), Ok(accumulator)) = (plain, any) {
        if let (Seen::Slots(left), Seen::Slots(right)) = (inner.seen(), accumulator.inner().seen()) {
            assert(left =~= right);
        }
    }
}

/// An accumulator that has seen nothing counts zero, where the estimate of empty registers
/// is zero.
pub proof fn law_nothing_seen_counts_zero<E: FnOnce(&Vec<u32>) -> u64>(
    kind: AccumulatorKind,
    seen: Seen,
    estimate: E,
    value: ScalarValue,
)
    requires
        nothing_seen(kind, seen),
        evaluates(seen, estimate, value),
        forall|counts: Vec<u32>, count: u64|
            is_histogram(counts@, hyperloglog::no_values()) && #[trigger] call_ensures(
                estimate,
                (&counts,),
                count,
            ) ==> count == 0,
    ensures
        value == ScalarValue::UInt64(Some(0)),
{
    if let Seen::Slots(slots) = seen {
        arrays::lemma_none_or_all_set(slots);
    }
}

/// The hashes of the rows that are not null, where each cell has one hash.
pub open spec fn hashed_rows(rows: Seq<Option<Cell>>, hash_of: spec_fn(Cell) -> u64) -> Seq<u64>
    decreases rows.len(),
{
    if rows.len() == 0 {
        Seq::empty()
    } else if rows.last() is Some {
        hashed_rows(rows.drop_last(), hash_of).push(hash_of(rows.last()->0))
    } else {
        hashed_rows(rows.drop_last(), hash_of)
    }
}

/// The number is a hash of the cell, as an accumulator of the kind hashes it.
pub open spec fn cell_hashes(kind: AccumulatorKind, state: RandomState, cell: Cell, hash: u64) -> bool {
    match kind {
        AccumulatorKind::Numeric(Native::Int32) => i32::cell_hash(state, cell, hash),
        AccumulatorKind::Numeric(Native::Int64) => i64::cell_hash(state, cell, hash),
        AccumulatorKind::Numeric(Native::UInt32) => u32::cell_hash(state, cell, hash),
        AccumulatorKind::Numeric(Native::UInt64) => u64::cell_hash(state, cell, hash),
        AccumulatorKind::Text => String::cell_hash(state, cell, hash),
        AccumulatorKind::View => String::cell_hash(state, cell, hash),
        AccumulatorKind::Bytes => Vec::<u8>::cell_hash(state, cell, hash),
        AccumulatorKind::Small(_) => false,
        AccumulatorKind::Nothing => false,
    }
}

/// Every hasher of the shared seeds gives equal values the same number.
pub open spec fn hashes_alike(kind: AccumulatorKind, hash_of: spec_fn(Cell) -> u64) -> bool {
    forall|state: RandomState, cell: Cell, hash: u64|
        hyperloglog::is_hll_state(state) && #[trigger] cell_hashes(kind, state, cell, hash) ==> hash
            == hash_of(cell)
}

/// The column whose values an accumulator sees: a dictionary accumulator those that a
/// dictionary encodes.
pub open spec fn seen_values(dictionary: bool, column: ColumnValues) -> ColumnValues {
    if dictionary {
        column.innermost()
    } else {
        column
    }
}

/// Whether an accumulator of the kind, a dictionary accumulator or a plain one, takes the
/// column.
pub open spec fn takes_column(kind: AccumulatorKind, dictionary: bool, column: ColumnValues) -> bool {
    if dictionary {
        takes_values(kind, column.innermost())
    } else {
        takes(kind, column)
    }
}

/// What an accumulator of the kind has seen after columns, starting with nothing.
pub open spec fn seen_after(
    kind: AccumulatorKind,
    dictionary: bool,
    columns: Seq<ColumnValues>,
    seen: Seen,
) -> bool
    decreases columns.len(),
{
    if columns.len() == 0 {
        nothing_seen(kind, seen)
    } else {
        exists|before: Seen|
            seen_after(kind, dictionary, columns.drop_last(), before) && takes_column(
                kind,
                dictionary,
                columns.last(),
            ) && #[trigger] seen_more(
                before,
                seen_values(dictionary, columns.last()),
                columns.last().rows(),
                seen,
            )
    }
}

proof fn lemma_hashes_of_rows<T: CellValue>(
    state: RandomState,
    rows: Seq<Option<Cell>>,
    hashes: Seq<u64>,
    hash_of: spec_fn(Cell) -> u64,
)
    requires
        forall|cell: Cell, hash: u64| #[trigger] T::cell_hash(state, cell, hash) ==> hash == hash_of(cell),
        column_values::row_hashes::<T>(state, rows, hashes),
    ensures
        hashes == hashed_rows(rows, hash_of),
    decreases rows.len(),
{
    if rows.len() == 0 {
        assert(hashes =~= Seq::empty());
    } else if rows.last() is Some {
        lemma_hashes_of_rows::<T>(state, rows.drop_last(), hashes.drop_last(), hash_of);
        assert(hashes =~= hashes.drop_last().push(hashes.last()));
    } else {
        lemma_hashes_of_rows::<T>(state, rows.drop_last(), hashes, hash_of);
    }
}

proof fn lemma_no_hashes(rows: Seq<Option<Cell>>, hash_of: spec_fn(Cell) -> u64)
    requires
        forall|i: int| 0 <= i < rows.len() ==> #[trigger] rows[i] is None,
    ensures
        hashed_rows(rows, hash_of) == Seq::<u64>::empty(),
    decreases rows.len(),
{
    if rows.len() > 0 {
        assert(rows[rows.len() - 1] is None);
        lemma_no_hashes(rows.drop_last(), hash_of);
    }
}

proof fn lemma_hashes_of_column(
    kind: AccumulatorKind,
    column: ColumnValues,
    state: RandomState,
    rows: Seq<Option<Cell>>,
    hashes: Seq<u64>,
    hash_of: spec_fn(Cell) -> u64,
)
    requires
        !(kind is Small) && !(kind is Nothing),
        takes_values(kind, column),
        column is AllNull ==> forall|i: int| 0 <= i < rows.len() ==> #[trigger] rows[i] is None,
        hashes_alike(kind, hash_of),
        hyperloglog::is_hll_state(state),
        column.row_hashes(state, rows, hashes),
    ensures
        hashes == hashed_rows(rows, hash_of),
{
    assert forall|cell: Cell, hash: u64| #[trigger]
        cell_hashes(kind, state, cell, hash) implies hash == hash_of(cell) by {}
    if column is AllNull {
        lemma_no_hashes(rows, hash_of);
        assert(hashes =~= Seq::empty());
    } else {
        match kind {
            AccumulatorKind::Numeric(Native::Int32) => {
                assert forall|cell: Cell, hash: u64| #[trigger]
                    i32::cell_hash(state, cell, hash) implies hash == hash_of(cell) by {
                    assert(cell_hashes(kind, state, cell, hash));
                }
                lemma_hashes_of_rows::<i32>(state, rows, hashes, hash_of);
            },
            AccumulatorKind::Numeric(Native::Int64) => {
                assert forall|cell: Cell, hash: u64| #[trigger]
                    i64::cell_hash(state, cell, hash) implies hash == hash_of(cell) by {
                    assert(cell_hashes(kind, state, cell, hash));
                }
                lemma_hashes_of_rows::<i64>(state, rows, hashes, hash_of);
            },
            AccumulatorKind::Numeric(Native::UInt32) => {
                assert forall|cell: Cell, hash: u64| #[trigger]
                    u32::cell_hash(state, cell, hash) implies hash == hash_of(cell) by {
                    assert(cell_hashes(kind, state, cell, hash));
                }
                lemma_hashes_of_rows::<u32>(state, rows, hashes, hash_of);
            },
            AccumulatorKind::Numeric(Native::UInt64) => {
                assert forall|cell: Cell, hash: u64| #[trigger]
                    u64::cell_hash(state, cell, hash) implies hash == hash_of(cell) by {
                    assert(cell_hashes(kind, state, cell, hash));
                }
                lemma_hashes_of_rows::<u64>(state, rows, hashes, hash_of);
            },
            AccumulatorKind::Bytes => {
                assert forall|cell: Cell, hash: u64| #[trigger]
                    Vec::<u8>::cell_hash(state, cell, hash) implies hash == hash_of(cell) by {
                    assert(cell_hashes(kind, state, cell, hash));
                }
                lemma_hashes_of_rows::<Vec<u8>>(state, rows, hashes, hash_of);
            },
            _ => {
                assert forall|cell: Cell, hash: u64| #[trigger]
                    String::cell_hash(state, cell, hash) implies hash == hash_of(cell) by {
                    assert(cell_hashes(kind, state, cell, hash));
                }
                lemma_hashes_of_rows::<String>(state, rows, hashes, hash_of);
            },
        }
    }
}

/// The rows of a column whose values are nulls are null.
proof fn lemma_null_values(column: ColumnValues)
    requires
        column.wf(),
        column.innermost() is AllNull,
    ensures
        forall|i: int| 0 <= i < column.rows().len() ==> #[trigger] column.rows()[i] is None,
    decreases column,
{
    if let ColumnValues::Dictionary(keys, values) = column {
        lemma_null_values(*values);
        assert forall|i: int| 0 <= i < column.rows().len() implies #[trigger] column.rows()[i] is None by {
            if keys@[i] is Some {
                assert(keys@[i]->0 < values.rows().len());
                assert(values.rows()[keys@[i]->0 as int] is None);
            }
        }
    }
}

proof fn lemma_absorbed_registers(
    kind: AccumulatorKind,
    before: Seq<u8>,
    column: ColumnValues,
    dictionary: bool,
    after: Seq<u8>,
    hash_of: spec_fn(Cell) -> u64,
)
    requires
        !(kind is Small) && !(kind is Nothing),
        before.len() == NUM_REGISTERS,
        hashes_alike(kind, hash_of),
        column.wf(),
        takes_column(kind, dictionary, column),
        absorbed(before, after, seen_values(dictionary, column), column.rows()),
    ensures
        after == hyperloglog::added_all(before, hashed_rows(column.rows(), hash_of)),
        after.len() == NUM_REGISTERS,
{
    let values = seen_values(dictionary, column);
    let rows = column.rows();
    let (state, hashes) = choose|state: RandomState, hashes: Seq<u64>|
        hyperloglog::is_hll_state(state) && #[trigger] values.row_hashes(state, rows, hashes)
            && after == hyperloglog::added_all(before, hashes);
    if values is AllNull {
        lemma_null_values(column);
    }
    lemma_hashes_of_column(kind, values, state, rows, hashes, hash_of);
    hyperloglog::lemma_added_all_len(before, hashes);
}

/// Both columns are well-formed and have the same rows.
pub open spec fn alike(left: ColumnValues, right: ColumnValues) -> bool {
    left.wf() && right.wf() && left.rows() == right.rows()
}

/// The columns are well-formed and have the same rows, one by one.
pub open spec fn same_rows(left: Seq<ColumnValues>, right: Seq<ColumnValues>) -> bool {
    &&& left.len() == right.len()
    &&& forall|i: int| 0 <= i < left.len() ==> alike(#[trigger] left[i], right[i])
}

/// The values hold the same.
pub open spec fn same_scalar(left: ScalarValue, right: ScalarValue) -> bool {
    match (left, right) {
        (ScalarValue::UInt64(left), ScalarValue::UInt64(right)) => left == right,
        (ScalarValue::Int64(left), ScalarValue::Int64(right)) => left == right,
        (ScalarValue::Binary(Some(left)), ScalarValue::Binary(Some(right))) => left@ == right@,
        (ScalarValue::Binary(None), ScalarValue::Binary(None)) => true,
        (ScalarValue::List(left), ScalarValue::List(right)) => left@ == right@,
        _ => false,
    }
}

/// Whether an estimate gives the same count for the same histogram.
pub open spec fn estimates_alike<E: FnOnce(&Vec<u32>) -> u64>(estimate: E) -> bool {
    forall|left: Vec<u32>, right: Vec<u32>, left_count: u64, right_count: u64|
        left@ == right@ && #[trigger] call_ensures(estimate, (&left,), left_count)
            && #[trigger] call_ensures(estimate, (&right,), right_count) ==> left_count
            == right_count
}

proof fn lemma_same_results<E: FnOnce(&Vec<u32>) -> u64>(
    kind: AccumulatorKind,
    seen: Seen,
    estimate: E,
    left_state: ScalarValue,
    left_count: ScalarValue,
    right_state: ScalarValue,
    right_count: ScalarValue,
)
    requires
        estimates_alike(estimate),
        is_state_of(kind, seen, left_state),
        is_state_of(kind, seen, right_state),
        evaluates(seen, estimate, left_count),
        evaluates(seen, estimate, right_count),
    ensures
        same_scalar(left_state, right_state),
        left_count == right_count,
{
    match seen {
        Seen::Slots(_) => {
            assert(left_state->List_0@ =~= right_state->List_0@);
        },
        Seen::Registers(registers) => {
            let (left, left_number) = choose|counts: Vec<u32>, count: u64|
                is_histogram(counts@, registers) && #[trigger] call_ensures(
                    estimate,
                    (&counts,),
                    count,
                ) && left_count == ScalarValue::UInt64(Some(count));
            let (right, right_number) = choose|counts: Vec<u32>, count: u64|
                is_histogram(counts@, registers) && #[trigger] call_ensures(
                    estimate,
                    (&counts,),
                    count,
                ) && right_count == ScalarValue::UInt64(Some(count));
            assert forall|i: int| 0 <= i < left@.len() implies left@[i] == right@[i] by {
                assert(left@[i] == hyperloglog::holding(registers, i, NUM_REGISTERS as int));
                assert(right@[i] == hyperloglog::holding(registers, i, NUM_REGISTERS as int));
            }
            assert(left@ =~= right@);
        },
        Seen::Nothing => {},
    }
}

/// Two accumulators that are made for one type give the same state and the same count after
/// the same columns, where hashers of the same seeds agree on equal values.
pub proof fn law_equal_columns_give_equal_results<E: FnOnce(&Vec<u32>) -> u64>(
    kind: AccumulatorKind,
    dictionary: bool,
    columns: Seq<ColumnValues>,
    left: Seen,
    right: Seen,
    estimate: E,
    left_state: ScalarValue,
    left_count: ScalarValue,
    right_state: ScalarValue,
    right_count: ScalarValue,
    hash_of: spec_fn(Cell) -> u64,
)
    requires
        hashes_alike(kind, hash_of),
        estimates_alike(estimate),
        forall|i: int| 0 <= i < columns.len() ==> (#[trigger] columns[i]).wf(),
        seen_after(kind, dictionary, columns, left),
        seen_after(kind, dictionary, columns, right),
        is_state_of(kind, left, left_state),
        is_state_of(kind, right, right_state),
        evaluates(left, estimate, left_count),
        evaluates(right, estimate, right_count),
    ensures
        same_scalar(left_state, right_state),
        left_count == right_count,
{
    law_counts_depend_on_the_set_of_values(
        kind,
        dictionary,
        columns,
        left,
        kind,
        dictionary,
        columns,
        right,
        hash_of,
    );
    lemma_same_results(kind, left, estimate, left_state, left_count, right_state, right_count);
}

/// A dictionary accumulator gives the same state and the same count for columns as a plain
/// one of the same values gives for the rows that they stand for, where hashers of the same
/// seeds agree on equal values. Values that no row refers to do not count, and a value that
/// is in the dictionary twice counts once.
pub proof fn law_dictionaries_give_the_results_of_their_rows<E: FnOnce(&Vec<u32>) -> u64>(
    kind: AccumulatorKind,
    columns: Seq<ColumnValues>,
    decoded: Seq<ColumnValues>,
    seen: Seen,
    decoded_seen: Seen,
    estimate: E,
    state: ScalarValue,
    count: ScalarValue,
    decoded_state: ScalarValue,
    decoded_count: ScalarValue,
    hash_of: spec_fn(Cell) -> u64,
)
    requires
        hashes_alike(kind, hash_of),
        estimates_alike(estimate),
        same_rows(columns, decoded),
        seen_after(kind, true, columns, seen),
        seen_after(kind, false, decoded, decoded_seen),
        is_state_of(kind, seen, state),
        is_state_of(kind, decoded_seen, decoded_state),
        evaluates(seen, estimate, count),
        evaluates(decoded_seen, estimate, decoded_count),
    ensures
        same_scalar(state, decoded_state),
        count == decoded_count,
{
    assert forall|i: int| 0 <= i < columns.len() implies (#[trigger] columns[i]).wf() && decoded[i].wf()
        && columns[i].rows() == decoded[i].rows() by {
        assert(alike(columns[i], decoded[i]));
    }
    assert(batch_rows(columns) =~= batch_rows(decoded));
    assert forall|i: int| 0 <= i < decoded.len() implies (#[trigger] decoded[i]).wf() by {
        assert(alike(columns[i], decoded[i]));
    }
    law_counts_depend_on_the_set_of_values(
        kind,
        true,
        columns,
        seen,
        kind,
        false,
        decoded,
        decoded_seen,
        hash_of,
    );
    lemma_same_results(kind, seen, estimate, state, count, decoded_state, decoded_count);
}

/// The hashes of batches, one after the other.
pub open spec fn hashed_batches(
    batches: Seq<Seq<Option<Cell>>>,
    hash_of: spec_fn(Cell) -> u64,
) -> Seq<u64>
    decreases batches.len(),
{
    if batches.len() == 0 {
        Seq::empty()
    } else {
        hashed_batches(batches.drop_last(), hash_of) + hashed_rows(batches.last(), hash_of)
    }
}

/// The cell is in one of the batches.
pub open spec fn appears(batches: Seq<Seq<Option<Cell>>>, cell: Cell) -> bool {
    exists|b: int, i: int|
        0 <= b < batches.len() && 0 <= i < batches[b].len() && #[trigger] batches[b][i] == Some(cell)
}

proof fn lemma_hash_of_row(rows: Seq<Option<Cell>>, hash_of: spec_fn(Cell) -> u64, hash: u64)
    ensures
        hashed_rows(rows, hash_of).contains(hash) <==> exists|i: int|
            0 <= i < rows.len() && #[trigger] rows[i] is Some && hash_of(rows[i]->0) == hash,
    decreases rows.len(),
{
    if rows.len() > 0 {
        let fewer = rows.drop_last();
        let all = hashed_rows(rows, hash_of);
        let some = hashed_rows(fewer, hash_of);
        lemma_hash_of_row(fewer, hash_of, hash);
        assert(rows[rows.len() - 1] == rows.last());
        if all.contains(hash) {
            let k = choose|k: int| 0 <= k < all.len() && all[k] == hash;
            if k < some.len() {
                assert(some[k] == hash);
                let i = choose|i: int|
                    0 <= i < fewer.len() && #[trigger] fewer[i] is Some && hash_of(fewer[i]->0)
                        == hash;
                assert(rows[i] == fewer[i]);
            } else {
                assert(rows[rows.len() - 1] is Some);
            }
        }
        if exists|i: int|
            0 <= i < rows.len() && #[trigger] rows[i] is Some && hash_of(rows[i]->0) == hash {
            let i = choose|i: int|
                0 <= i < rows.len() && #[trigger] rows[i] is Some && hash_of(rows[i]->0) == hash;
            if i < fewer.len() {
                assert(fewer[i] == rows[i]);
                let k = choose|k: int| 0 <= k < some.len() && some[k] == hash;
                assert(all[k] == hash);
            } else {
                assert(all[some.len() as int] == hash);
            }
        }
    }
}

proof fn lemma_hash_in_batches(
    batches: Seq<Seq<Option<Cell>>>,
    hash_of: spec_fn(Cell) -> u64,
    hash: u64,
)
    ensures
        hashed_batches(batches, hash_of).contains(hash) <==> exists|cell: Cell| #[trigger]
            appears(batches, cell) && hash_of(cell) == hash,
    decreases batches.len(),
{
    if batches.len() > 0 {
        let fewer = batches.drop_last();
        let rows = batches.last();
        let all = hashed_batches(batches, hash_of);
        let some = hashed_batches(fewer, hash_of);
        let last = hashed_rows(rows, hash_of);
        lemma_hash_in_batches(fewer, hash_of, hash);
        lemma_hash_of_row(rows, hash_of, hash);
        assert(batches[batches.len() - 1] == rows);
        if all.contains(hash) {
            let k = choose|k: int| 0 <= k < all.len() && all[k] == hash;
            if k < some.len() {
                assert(some[k] == hash);
                let cell = choose|cell: Cell| #[trigger]
                    appears(fewer, cell) && hash_of(cell) == hash;
                let (b, i) = choose|b: int, i: int|
                    0 <= b < fewer.len() && 0 <= i < fewer[b].len() && #[trigger] fewer[b][i]
                        == Some(cell);
                assert(batches[b][i] == Some(cell));
                assert(appears(batches, cell));
            } else {
                assert(last[k - some.len()] == hash);
                let i = choose|i: int|
                    0 <= i < rows.len() && #[trigger] rows[i] is Some && hash_of(rows[i]->0) == hash;
                assert(batches[batches.len() - 1][i] == Some(rows[i]->0));
                assert(appears(batches, rows[i]->0));
            }
        }
        if exists|cell: Cell| #[trigger] appears(batches, cell) && hash_of(cell) == hash {
            let cell = choose|cell: Cell| #[trigger]
                appears(batches, cell) && hash_of(cell) == hash;
            let (b, i) = choose|b: int, i: int|
                0 <= b < batches.len() && 0 <= i < batches[b].len() && #[trigger] batches[b][i]
                    == Some(cell);
            if b < fewer.len() {
                assert(fewer[b][i] == Some(cell));
                assert(appears(fewer, cell));
                let k = choose|k: int| 0 <= k < some.len() && some[k] == hash;
                assert(all[k] == hash);
            } else {
                assert(rows[i] is Some && hash_of(rows[i]->0) == hash);
                let k = choose|k: int| 0 <= k < last.len() && last[k] == hash;
                assert(all[some.len() + k] == hash);
            }
        }
    } else {
        assert forall|cell: Cell| !(#[trigger] appears(batches, cell)) by {}
    }
}

/// The rows of columns, one after the other.
pub open spec fn batch_rows(columns: Seq<ColumnValues>) -> Seq<Seq<Option<Cell>>> {
    Seq::new(columns.len(), |i: int| columns[i].rows())
}

/// Whether the value of a slot is in one of the batches.
spec fn slot_seen(batches: Seq<Seq<Option<Cell>>>, slot: int, slots: int) -> bool {
    exists|b: int|
        0 <= b < batches.len() && distinct_counter::occurs(#[trigger] batches[b], slot, slots)
}

/// What an accumulator of the kind has seen where it has seen the batches.
spec fn shows(
    kind: AccumulatorKind,
    batches: Seq<Seq<Option<Cell>>>,
    seen: Seen,
    hash_of: spec_fn(Cell) -> u64,
) -> bool {
    &&& sees(kind, seen)
    &&& match seen {
        Seen::Slots(slots) => forall|slot: int|
            0 <= slot < slots.len() ==> #[trigger] slots[slot] == slot_seen(
                batches,
                slot,
                slots.len() as int,
            ),
        Seen::Registers(registers) => registers == hyperloglog::added_all(
            hyperloglog::no_values(),
            hashed_batches(batches, hash_of),
        ),
        Seen::Nothing => true,
    }
}

proof fn lemma_seen_after(
    kind: AccumulatorKind,
    dictionary: bool,
    columns: Seq<ColumnValues>,
    seen: Seen,
    hash_of: spec_fn(Cell) -> u64,
)
    requires
        hashes_alike(kind, hash_of),
        forall|i: int| 0 <= i < columns.len() ==> (#[trigger] columns[i]).wf(),
        seen_after(kind, dictionary, columns, seen),
    ensures
        shows(kind, batch_rows(columns), seen, hash_of),
    decreases columns.len(),
{
    let batches = batch_rows(columns);
    if columns.len() > 0 {
        let fewer = columns.drop_last();
        let column = columns.last();
        let before = choose|before: Seen|
            seen_after(kind, dictionary, fewer, before) && takes_column(kind, dictionary, column)
                && #[trigger] seen_more(
                before,
                seen_values(dictionary, column),
                column.rows(),
                seen,
            );
        assert(columns[columns.len() - 1].wf());
        assert forall|i: int| 0 <= i < fewer.len() implies (#[trigger] fewer[i]).wf() by {
            assert(columns[i].wf());
        }
        lemma_seen_after(kind, dictionary, fewer, before, hash_of);
        assert(batches.drop_last() =~= batch_rows(fewer));
        assert(batches.last() == column.rows());
        lemma_next_seen(kind, batches, before, column, dictionary, seen, hash_of);
    }
}

/// One more batch is seen.
proof fn lemma_next_seen(
    kind: AccumulatorKind,
    batches: Seq<Seq<Option<Cell>>>,
    before: Seen,
    column: ColumnValues,
    dictionary: bool,
    seen: Seen,
    hash_of: spec_fn(Cell) -> u64,
)
    requires
        hashes_alike(kind, hash_of),
        batches.len() > 0,
        batches.last() == column.rows(),
        shows(kind, batches.drop_last(), before, hash_of),
        column.wf(),
        takes_column(kind, dictionary, column),
        seen_more(before, seen_values(dictionary, column), column.rows(), seen),
    ensures
        shows(kind, batches, seen, hash_of),
{
    let fewer = batches.drop_last();
    match (before, seen) {
        (Seen::Slots(old_slots), Seen::Slots(slots)) => {
            let count = slots.len() as int;
            assert forall|slot: int| 0 <= slot < count implies #[trigger] slots[slot] == slot_seen(
                batches,
                slot,
                count,
            ) by {
                assert(old_slots[slot] == slot_seen(fewer, slot, count));
                assert(batches[batches.len() - 1] == column.rows());
                if slot_seen(fewer, slot, count) {
                    let b = choose|b: int|
                        0 <= b < fewer.len() && distinct_counter::occurs(
                            #[trigger] fewer[b],
                            slot,
                            count,
                        );
                    assert(batches[b] == fewer[b]);
                }
                if slot_seen(batches, slot, count) {
                    let b = choose|b: int|
                        0 <= b < batches.len() && distinct_counter::occurs(
                            #[trigger] batches[b],
                            slot,
                            count,
                        );
                    if b < fewer.len() {
                        assert(fewer[b] == batches[b]);
                    }
                }
            }
        },
        (Seen::Registers(old_registers), Seen::Registers(registers)) => {
            lemma_absorbed_registers(kind, old_registers, column, dictionary, registers, hash_of);
            hyperloglog::lemma_added_in_parts(
                hyperloglog::no_values(),
                hashed_batches(fewer, hash_of),
                hashed_rows(column.rows(), hash_of),
            );
        },
        _ => {},
    }
}

/// Both kinds count strings.
pub open spec fn count_strings(left: AccumulatorKind, right: AccumulatorKind) -> bool {
    (left is Text || left is View) && (right is Text || right is View)
}

/// What accumulators have seen depends on the set of the values alone: order, repeats,
/// nulls, batches, dictionaries and the form of strings do not matter, where hashers of the
/// same seeds agree on equal values.
pub proof fn law_counts_depend_on_the_set_of_values(
    left_kind: AccumulatorKind,
    left_dictionary: bool,
    left: Seq<ColumnValues>,
    left_seen: Seen,
    right_kind: AccumulatorKind,
    right_dictionary: bool,
    right: Seq<ColumnValues>,
    right_seen: Seen,
    hash_of: spec_fn(Cell) -> u64,
)
    requires
        left_kind == right_kind || count_strings(left_kind, right_kind),
        hashes_alike(left_kind, hash_of),
        hashes_alike(right_kind, hash_of),
        forall|i: int| 0 <= i < left.len() ==> (#[trigger] left[i]).wf(),
        forall|i: int| 0 <= i < right.len() ==> (#[trigger] right[i]).wf(),
        seen_after(left_kind, left_dictionary, left, left_seen),
        seen_after(right_kind, right_dictionary, right, right_seen),
        forall|cell: Cell| #[trigger]
            appears(batch_rows(left), cell) <==> #[trigger] appears(batch_rows(right), cell),
    ensures
        left_seen == right_seen,
{
    let left_batches = batch_rows(left);
    let right_batches = batch_rows(right);
    lemma_seen_after(left_kind, left_dictionary, left, left_seen, hash_of);
    lemma_seen_after(right_kind, right_dictionary, right, right_seen, hash_of);
    match (left_seen, right_seen) {
        (Seen::Slots(slots), Seen::Slots(others)) => {
            let count = slots.len() as int;
            assert forall|slot: int| 0 <= slot < count implies slots[slot] == others[slot] by {
                lemma_slot_in_batches(left_batches, slot, count);
                lemma_slot_in_batches(right_batches, slot, count);
                assert(slots[slot] == slot_seen(left_batches, slot, count));
                assert(others[slot] == slot_seen(right_batches, slot, count));
                if slots[slot] {
                    let cell = choose|cell: Cell| #[trigger]
                        appears(left_batches, cell) && cell is Number && distinct_counter::slot_of(
                            cell->Number_0,
                            count,
                        ) == slot;
                    assert(appears(right_batches, cell));
                }
                if others[slot] {
                    let cell = choose|cell: Cell| #[trigger]
                        appears(right_batches, cell) && cell is Number && distinct_counter::slot_of(
                            cell->Number_0,
                            count,
                        ) == slot;
                    assert(appears(left_batches, cell));
                }
            }
            assert(slots =~= others);
        },
        (Seen::Registers(_), Seen::Registers(_)) => {
            let left_hashes = hashed_batches(left_batches, hash_of);
            let right_hashes = hashed_batches(right_batches, hash_of);
            assert forall|hash: u64| #[trigger] left_hashes.contains(hash)
                <==> #[trigger] right_hashes.contains(hash) by {
                lemma_hash_in_batches(left_batches, hash_of, hash);
                lemma_hash_in_batches(right_batches, hash_of, hash);
                if left_hashes.contains(hash) {
                    let cell = choose|cell: Cell| #[trigger]
                        appears(left_batches, cell) && hash_of(cell) == hash;
                    assert(appears(right_batches, cell));
                }
                if right_hashes.contains(hash) {
                    let cell = choose|cell: Cell| #[trigger]
                        appears(right_batches, cell) && hash_of(cell) == hash;
                    assert(appears(left_batches, cell));
                }
            }
            hyperloglog::law_registers_depend_on_the_set(
                hyperloglog::no_values(),
                left_hashes,
                right_hashes,
            );
        },
        _ => {},
    }
}

/// A slot is seen where its value appears.
proof fn lemma_slot_in_batches(batches: Seq<Seq<Option<Cell>>>, slot: int, slots: int)
    ensures
        slot_seen(batches, slot, slots) <==> exists|cell: Cell| #[trigger]
            appears(batches, cell) && cell is Number && distinct_counter::slot_of(
                cell->Number_0,
                slots,
            ) == slot,
{
    if slot_seen(batches, slot, slots) {
        let b = choose|b: int|
            0 <= b < batches.len() && distinct_counter::occurs(#[trigger] batches[b], slot, slots);
        let r = choose|r: int|
            0 <= r < batches[b].len() && #[trigger] batches[b][r] is Some && batches[b][r]->0 is Number
                && distinct_counter::slot_of(batches[b][r]->0->Number_0, slots) == slot;
        assert(batches[b][r] == Some(batches[b][r]->0));
        assert(appears(batches, batches[b][r]->0));
    }
    if exists|cell: Cell| #[trigger]
        appears(batches, cell) && cell is Number && distinct_counter::slot_of(
            cell->Number_0,
            slots,
        ) == slot {
        let cell = choose|cell: Cell| #[trigger]
            appears(batches, cell) && cell is Number && distinct_counter::slot_of(
                cell->Number_0,
                slots,
            ) == slot;
        let (b, i) = choose|b: int, i: int|
            0 <= b < batches.len() && 0 <= i < batches[b].len() && #[trigger] batches[b][i] == Some(
                cell,
            );
        assert(batches[b][i] is Some);
        assert(distinct_counter::occurs(batches[b], slot, slots));
    }
}

/// Accumulators of these kinds keep registers.
pub open spec fn keeps_registers(kind: AccumulatorKind) -> bool {
    kind is Numeric || kind is Text || kind is View || kind is Bytes
}

/// Each register holds the largest rank of what it held and of the hashes with its number
/// in their lowest 14 bits.
pub open spec fn holds_largest_ranks(before: Seq<u8>, hashes: Seq<u64>, after: Seq<u8>) -> bool {
    &&& after.len() == 16384
    &&& forall|register: int, rank: int|
        0 <= register < 16384 && 1 <= rank <= 51 ==> (#[trigger] reaches(after, register, rank)
            <==> reaches(before, register, rank) || exists|i: int|
            0 <= i < hashes.len() && (#[trigger] hashes[i]) % 16384 == register
                && hyperloglog::zeros_from(hashes[i], 14, rank - 1))
}

/// The register holds at least the rank.
pub open spec fn reaches(registers: Seq<u8>, register: int, rank: int) -> bool {
    registers[register] >= rank
}

/// After a column each register holds the largest rank of what it held and of the hashes of
/// the column's values: every value that is not null goes into the register that its hash
/// numbers, and nothing else does.
pub proof fn law_every_value_goes_into_its_register(
    kind: AccumulatorKind,
    before: Seen,
    column: ColumnValues,
    after: Seen,
)
    requires
        sees(kind, before),
        sees(kind, after),
        keeps_registers(kind),
        seen_more(before, column, column.rows(), after),
    ensures
        exists|state: RandomState, hashes: Seq<u64>|
            hyperloglog::is_hll_state(state) && #[trigger] column_values::hashes_values(
                column,
                state,
                hashes,
            ) && holds_largest_ranks(before->Registers_0, hashes, after->Registers_0),
{
    let old_registers = before->Registers_0;
    let registers = after->Registers_0;
    let (state, hashes) = choose|state: RandomState, hashes: Seq<u64>|
        hyperloglog::is_hll_state(state) && #[trigger] column.row_hashes(
            state,
            column.rows(),
            hashes,
        ) && registers == hyperloglog::added_all(old_registers, hashes);
    column_values::law_every_value_is_hashed(column, state, hashes);
    assert forall|register: int, rank: int| 0 <= register < 16384 && 1 <= rank <= 51 implies (
    #[trigger] reaches(registers, register, rank) <==> reaches(old_registers, register, rank)
        || exists|i: int|
        0 <= i < hashes.len() && (#[trigger] hashes[i]) % 16384 == register
            && hyperloglog::zeros_from(hashes[i], 14, rank - 1)) by {
        hyperloglog::law_registers_hold_the_largest_rank(old_registers, hashes, register, rank);
    }
}

/// A state is a byte string with a byte for each register.
pub open spec fn has_registers(state: Option<Vec<u8>>) -> bool {
    state matches Some(bytes) && bytes@.len() == 16384
}

proof fn lemma_good_prefix(states: Seq<Option<Seq<u8>>>)
    ensures
        0 <= good_states(states) <= states.len(),
        forall|k: int| 0 <= k < good_states(states) ==> is_state(#[trigger] states[k]),
        good_states(states) < states.len() ==> !is_state(states[good_states(states)]),
    decreases states.len(),
{
    if states.len() > 0 {
        let fewer = states.drop_last();
        lemma_good_prefix(fewer);
        assert forall|k: int| 0 <= k < good_states(states) implies is_state(#[trigger] states[k]) by {
            if k < fewer.len() {
                assert(fewer[k] == states[k]);
            }
        }
    }
}

/// Merging a batch of states merges each of them, whatever their number: a register then
/// holds the largest rank of what it held and of what the states have there. It goes up to
/// the first state that does not have a byte for each register, and succeeds where there is
/// none.
pub proof fn law_every_state_of_a_batch_is_merged(
    kind: AccumulatorKind,
    before: Seen,
    states: StateColumn,
    after: Seen,
    result: Result<(), ExecError>,
    count: int,
    register: int,
)
    requires
        keeps_registers(kind),
        sees(kind, before),
        states is Registers,
        seen_merged(kind, before, states, after, result),
        0 <= count <= states->Registers_0@.len(),
        forall|k: int| 0 <= k < count ==> has_registers(#[trigger] states->Registers_0@[k]),
        count < states->Registers_0@.len() ==> !has_registers(states->Registers_0@[count]),
        0 <= register < 16384,
    ensures
        result is Ok <==> count == states->Registers_0@.len(),
        result matches Err(error) ==> if states->Registers_0@[count] is None {
            error is MissingRegisters
        } else {
            error is InvalidRegisters
        },
        after is Registers,
        after->Registers_0.len() == 16384,
        after->Registers_0[register] >= before->Registers_0[register],
        forall|k: int|
            0 <= k < count ==> after->Registers_0[register] >= (
            #[trigger] states->Registers_0@[k])->0@[register],
        after->Registers_0[register] == before->Registers_0[register] || exists|k: int|
            0 <= k < count && after->Registers_0[register] == (
            #[trigger] states->Registers_0@[k])->0@[register],
{
    let all = states->Registers_0@;
    let bytes = state_bytes(all);
    let good = good_states(bytes);
    lemma_good_prefix(bytes);
    assert forall|k: int| 0 <= k < all.len() implies is_state(bytes[k]) == has_registers(
        #[trigger] all[k],
    ) by {}
    assert(good == count) by {
        if good < count {
            assert(has_registers(all[good]));
        } else if count < good {
            assert(is_state(bytes[count]));
            assert(has_registers(all[count]));
        }
    }
    let present = present_states(bytes.take(good));
    assert forall|k: int| 0 <= k < present.len() implies (#[trigger] present[k]).len() == 16384
        && present[k] == all[k]->0@ by {
        assert(has_registers(all[k]));
    }
    hyperloglog::law_merged_states_give_the_largest_ranks(
        before->Registers_0,
        present,
        register,
    );
    let registers = after->Registers_0;
    assert forall|k: int| 0 <= k < count implies registers[register] >= (
    #[trigger] all[k])->0@[register] by {
        assert(present[k] == all[k]->0@);
    }
    if registers[register] != before->Registers_0[register] {
        let k = choose|k: int|
            0 <= k < present.len() && registers[register] == (#[trigger] present[k])[register];
        assert(present[k] == all[k]->0@);
    }
}

/// The states of accumulators that saw parts of the values, merged in one batch into an
/// accumulator that saw nothing, give the registers of all values together.
pub proof fn law_a_batch_of_states_gives_all_values(
    kind: AccumulatorKind,
    before: Seen,
    states: StateColumn,
    after: Seen,
    result: Result<(), ExecError>,
    parts: Seq<Seq<u64>>,
)
    requires
        keeps_registers(kind),
        nothing_seen(kind, before),
        states is Registers,
        seen_merged(kind, before, states, after, result),
        states->Registers_0@.len() == parts.len(),
        forall|k: int|
            0 <= k < parts.len() ==> ((#[trigger] states->Registers_0@[k]) matches Some(bytes)
                && bytes@ == hyperloglog::added_all(hyperloglog::no_values(), parts[k])),
    ensures
        result is Ok,
        after == Seen::Registers(
            hyperloglog::added_all(hyperloglog::no_values(), hyperloglog::joined(parts)),
        ),
{
    let all = states->Registers_0@;
    let bytes = state_bytes(all);
    let good = good_states(bytes);
    lemma_good_prefix(bytes);
    if good < all.len() {
        assert(all[good] is Some);
        hyperloglog::lemma_added_all_len(hyperloglog::no_values(), parts[good]);
        assert(is_state(bytes[good]));
    }
    assert(bytes.take(good) =~= bytes);
    let present = present_states(bytes);
    assert forall|k: int| 0 <= k < parts.len() implies #[trigger] present[k]
        == hyperloglog::added_all(hyperloglog::no_values(), parts[k]) by {
        assert(all[k] is Some);
    }
    hyperloglog::law_states_of_parts_make_the_whole(parts, present);
}

/// An accumulator of small integers that saw nothing counts, after a column, the different
/// values in the rows that are not null, and its state lists each of them once.
pub proof fn law_small_integers_are_counted_exactly<E: FnOnce(&Vec<u32>) -> u64>(
    small: SmallInt,
    before: Seen,
    column: ColumnValues,
    after: Seen,
    estimate: E,
    count: ScalarValue,
    state: ScalarValue,
)
    requires
        nothing_seen(AccumulatorKind::Small(small), before),
        takes(AccumulatorKind::Small(small), column),
        seen_more(before, column, column.rows(), after),
        evaluates(after, estimate, count),
        is_state_of(AccumulatorKind::Small(small), after, state),
    ensures
        Set::new(|number: int| distinct_counter::has_number(column, number)).finite(),
        count matches ScalarValue::UInt64(Some(value)) && value == Set::new(
            |number: int| distinct_counter::has_number(column, number),
        ).len(),
        state matches ScalarValue::List(values) && values@.no_duplicates() && forall|number: int|
            (exists|k: int| 0 <= k < values@.len() && #[trigger] values@[k] == number)
                <==> #[trigger] distinct_counter::has_number(column, number),
{
    let old_slots = before->Slots_0;
    let slots = after->Slots_0;
    distinct_counter::law_a_column_counts_its_different_values(small, old_slots, column);
    distinct_counter::law_listed_values_are_counted_once(small, slots);
    distinct_counter::law_listed_values_are_counted_once(small, old_slots);
    let listed = distinct_counter::listed(slots, small.is_signed());
    if let ScalarValue::List(values) = state {
        assert forall|i: int, j: int| 0 <= i < j < values@.len() implies values@[i] != values@[j] by {
            assert(listed[i] != listed[j]);
        }
        assert forall|number: int|
            (exists|k: int| 0 <= k < values@.len() && #[trigger] values@[k] == number)
                <==> #[trigger] distinct_counter::has_number(column, number) by {
            distinct_counter::law_listed_values_are_those_of_the_rows(
                small,
                old_slots,
                column,
                number,
            );
            if exists|k: int| 0 <= k < values@.len() && #[trigger] values@[k] == number {
                let k = choose|k: int| 0 <= k < values@.len() && #[trigger] values@[k] == number;
                assert(listed[k] == number);
                assert(listed.contains(number));
            }
            if distinct_counter::has_number(column, number) {
                let k = choose|k: int| 0 <= k < listed.len() && listed[k] == number;
                assert(values@[k] == number);
            }
        }
    }
}

/// Which columns hold the values of a type that is counted; nothing for the types that are
/// not.
pub open spec fn holds_type(data_type: DataType, column: ColumnValues) -> Option<bool> {
    match data_type {
        DataType::UInt8 => Some(column is UInt8),
        DataType::Int8 => Some(column is Int8),
        DataType::UInt16 => Some(column is UInt16),
        DataType::Int16 => Some(column is Int16),
        DataType::UInt32 => Some(column is UInt32),
        DataType::UInt64 => Some(column is UInt64),
        DataType::Int32 | DataType::Date32 => Some(column is Int32),
        DataType::Time32(TimeUnit::Second) | DataType::Time32(TimeUnit::Millisecond) => Some(
            column is Int32,
        ),
        DataType::Int64 | DataType::Date64 | DataType::Timestamp(_, _) => Some(column is Int64),
        DataType::Time64(TimeUnit::Microsecond) | DataType::Time64(TimeUnit::Nanosecond) => Some(
            column is Int64,
        ),
        DataType::Utf8 | DataType::LargeUtf8 => Some(column is Utf8),
        DataType::Utf8View => Some(column is Views),
        DataType::Binary | DataType::LargeBinary => Some(column is Binary),
        DataType::Null => Some(true),
        _ => None,
    }
}

/// The types that are counted are the integers, dates, times, timestamps, strings, byte
/// strings and nulls. An accumulator for one of them takes the columns that hold its values,
/// counts exactly where the type has no more than 16 bits, and nothing where it has nulls
/// only.
pub proof fn law_types_take_the_columns_of_their_values(data_type: DataType, column: ColumnValues)
    requires
        data_type !is Dictionary,
    ensures
        plain_kind(data_type) is Some <==> holds_type(data_type, column) is Some,
        plain_kind(data_type) matches Some(kind) ==> holds_type(data_type, column) == Some(
            takes(kind, column),
        ) && (kind is Small <==> data_type is UInt8 || data_type is Int8 || data_type is UInt16
            || data_type is Int16) && (kind is Nothing <==> data_type is Null),
{
}

/// A dictionary is counted where its values are, and as they are.
pub proof fn law_dictionaries_are_counted_as_their_values(key: DataType, value: DataType)
    ensures
        ({
            let data_type = DataType::Dictionary(Box::new(key), Box::new(value));
            &&& supported(data_type) == supported(value)
            &&& innermost_type(data_type) == innermost_type(value)
            &&& innermost_type(value) !is Dictionary
            &&& value !is Dictionary ==> innermost_type(value) == value && (supported(value)
                <==> plain_kind(value) is Some)
        }),
    decreases value,
{
    if let DataType::Dictionary(inner_key, inner) = value {
        law_dictionaries_are_counted_as_their_values(*inner_key, *inner);
    }
}

/// A dictionary accumulator takes the values that a plain one takes, strings in either form
/// and nulls, and no others.
pub proof fn law_dictionary_values_are_taken_in_their_forms(
    kind: AccumulatorKind,
    column: ColumnValues,
)
    ensures
        takes_values(kind, column) <==> takes(kind, column) || column is AllNull || ((kind is Text
            || kind is View) && (column is Utf8 || column is Views)),
{
}

/// An accumulator that was just made has seen nothing: no small integer, and no rank in any
/// register.
pub proof fn law_new_accumulators_have_seen_nothing(kind: AccumulatorKind, seen: Seen)
    requires
        nothing_seen(kind, seen),
    ensures
        match kind {
            AccumulatorKind::Small(small) => seen is Slots && distinct_counter::listed(
                seen->Slots_0,
                small.is_signed(),
            ).len() == 0,
            AccumulatorKind::Nothing => seen is Nothing,
            _ => seen is Registers && seen->Registers_0.len() == 16384 && forall|register: int|
                0 <= register < 16384 ==> #[trigger] seen->Registers_0[register] == 0,
        },
{
    if let AccumulatorKind::Small(small) = kind {
        distinct_counter::law_listed_values_are_counted_once(small, seen->Slots_0);
    }
}

/// The count by hashes is what the estimate gives for the number of registers that hold each
/// rank from none to 51, and nothing seen of a column of nulls counts zero.
pub proof fn law_estimates_are_of_the_histogram<E: FnOnce(&Vec<u32>) -> u64>(
    seen: Seen,
    estimate: E,
    value: ScalarValue,
)
    requires
        evaluates(seen, estimate, value),
        seen matches Seen::Registers(registers) ==> registers.len() == 16384,
    ensures
        seen matches Seen::Registers(registers) ==> exists|counts: Vec<u32>, count: u64| #[trigger]
            call_ensures(estimate, (&counts,), count) && value == ScalarValue::UInt64(Some(count))
                && counts@.len() == 52 && forall|rank: u8|
                rank <= 51 ==> #[trigger] registers.to_multiset().count(rank)
                    == counts@[rank as int],
        seen is Nothing ==> value == ScalarValue::UInt64(Some(0)),
{
    if let Seen::Registers(registers) = seen {
        let (counts, count) = choose|counts: Vec<u32>, count: u64|
            is_histogram(counts@, registers) && #[trigger] call_ensures(
                estimate,
                (&counts,),
                count,
            ) && value == ScalarValue::UInt64(Some(count));
        assert(registers.take(16384) =~= registers);
        assert forall|rank: u8| rank <= 51 implies #[trigger] registers.to_multiset().count(rank)
            == counts@[rank as int] by {
            hyperloglog::law_histogram_counts_the_registers(registers, rank, 16384);
            assert(counts@[rank as int] == hyperloglog::holding(registers, rank as int, 16384));
        }
    }
}

/// The state of registers is their bytes, and that of nothing a zero.
pub proof fn law_states_hold_what_was_seen(kind: AccumulatorKind, seen: Seen, value: ScalarValue)
    requires
        is_state_of(kind, seen, value),
    ensures
        seen matches Seen::Registers(registers) ==> (value matches ScalarValue::Binary(Some(bytes))
            && bytes@ == registers),
        seen is Nothing ==> value == ScalarValue::UInt64(Some(0)),
{
}

/// The name of a state field is that of the aggregate, followed by that of the state in
/// square brackets.
pub proof fn law_state_names_end_in_brackets(name: Seq<char>, state: Seq<char>)
    ensures
        state_name(name, state).len() == name.len() + state.len() + 2,
        state_name(name, state).take(name.len() as int) == name,
        state_name(name, state)[name.len() as int] == '[',
        state_name(name, state).skip(name.len() + 1int).drop_last() == state,
        state_name(name, state).last() == ']',
{
    reveal_strlit("[");
    reveal_strlit("]");
    let all = state_name(name, state);
    assert(all.take(name.len() as int) =~= name);
    assert(all.skip(name.len() + 1int).drop_last() =~= state);
}

/// The one field of the state is, for a column of nulls, a nullable null; for small integers
/// a list of them, not null itself, with nullable items; and for all others, a dictionary
/// that is not supported among them, the bytes of registers, not null.
pub proof fn law_state_fields_fit_the_type(field: Field, name: Seq<char>, data_type: DataType)
    requires
        is_state_field(field, name, data_type),
        data_type !is Dictionary,
    ensures
        field.metadata@.len() == 0,
        match data_type {
            DataType::Null => {
                &&& field.data_type == DataType::Null
                &&& field.nullable
                &&& field.name@ == state_name(name, "approx_distinct"@)
            },
            DataType::UInt8 | DataType::Int8 | DataType::UInt16 | DataType::Int16 => {
                &&& !field.nullable
                &&& field.name@ == state_name(name, "approx_distinct"@)
                &&& field.data_type matches DataType::List(item)
                &&& item.data_type == data_type
                &&& item.nullable
                &&& item.name@ == "item"@
            },
            _ => {
                &&& !field.nullable
                &&& field.name@ == state_name(name, "hll_registers"@)
                &&& field.data_type == DataType::Binary
            },
        },
{
}

/// The state field of a dictionary of small integers is that of its values, and that of
/// every other dictionary the bytes of registers.
pub proof fn law_state_fields_of_dictionaries(field: Field, name: Seq<char>, data_type: DataType)
    requires
        is_state_field(field, name, data_type),
        data_type is Dictionary,
    ensures
        match innermost_type(data_type) {
            DataType::UInt8 | DataType::Int8 | DataType::UInt16 | DataType::Int16 =>
                is_state_field(field, name, innermost_type(data_type)),
            _ => is_state_field(field, name, DataType::Utf8),
        },
{
    if let DataType::Dictionary(key, value) = data_type {
        law_dictionaries_are_counted_as_their_values(*key, *value);
    }
}

/// An accumulator is made exactly for the types that are counted, and has seen nothing; a
/// dictionary accumulator for a dictionary. It takes the columns that hold the type's values.
/// The error for any other type names it.
pub proof fn law_accumulators_are_made_for_counted_types(
    data_type: DataType,
    result: Result<Accumulator, ExecError>,
    column: ColumnValues,
)
    requires
        outcome(data_type, result),
    ensures
        match result {
            Ok(accumulator) => {
                &&& holds_type(innermost_type(data_type), column) == Some(
                    takes(accumulator.inner().kind(), column),
                )
                &&& nothing_seen(accumulator.inner().kind(), accumulator.inner().seen())
                &&& accumulator is Dictionary <==> data_type is Dictionary
            },
            Err(error) => {
                &&& holds_type(innermost_type(data_type), column) is None
                &&& error == ExecError::NotImplemented { data_type }
            },
        },
{
    match data_type {
        DataType::Dictionary(key, value) => {
            law_dictionaries_are_counted_as_their_values(*key, *value);
        },
        _ => {},
    }
    law_types_take_the_columns_of_their_values(innermost_type(data_type), column);
}

/// Merging lists of small integers lists what was listed and what is in the lists that are
/// not null, in whichever of them; lists of another type are an error, and so are states of
/// another form, which change nothing.
pub proof fn law_lists_of_values_are_merged(
    small: SmallInt,
    before: Seen,
    states: StateColumn,
    after: Seen,
    result: Result<(), ExecError>,
    number: int,
)
    requires
        sees(AccumulatorKind::Small(small), before),
        seen_merged(AccumulatorKind::Small(small), before, states, after, result),
    ensures
        match states {
            StateColumn::Lists(lists) => {
                let all = forall|k: int|
                    0 <= k < lists@.len() ==> ((#[trigger] lists@[k]) matches Some(list)
                        ==> small.counts(list));
                &&& result is Ok <==> all
                &&& result matches Err(error) ==> error is UnexpectedColumn
                &&& all ==> (distinct_counter::listed(after->Slots_0, small.is_signed()).contains(
                    number,
                ) <==> distinct_counter::listed(before->Slots_0, small.is_signed()).contains(number)
                    || exists|k: int|
                    0 <= k < lists@.len() && ((#[trigger] lists@[k]) matches Some(list)
                        && distinct_counter::has_number(list, number)))
            },
            _ => after == before && result is Err && result->Err_0 is UnexpectedColumn,
        },
{
    if let StateColumn::Lists(lists) = states {
        let good = distinct_counter::lists_of_type(small, lists@);
        distinct_counter::law_lists_are_counted_up_to_another_type(small, lists@);
        if forall|k: int|
            0 <= k < lists@.len() ==> ((#[trigger] lists@[k]) matches Some(list) ==> small.counts(
                list,
            )) {
            if good < lists@.len() {
                assert(lists@[good] is Some);
            }
            assert(lists@.take(good) =~= lists@);
            distinct_counter::law_listed_values_are_those_of_the_lists(
                small,
                before->Slots_0,
                lists@,
                number,
            );
        }
    }
}

/// A column of nulls takes any state and stays empty, and registers are not merged with
/// anything but registers.
pub proof fn law_other_states_change_nothing(
    kind: AccumulatorKind,
    before: Seen,
    states: StateColumn,
    after: Seen,
    result: Result<(), ExecError>,
)
    requires
        seen_merged(kind, before, states, after, result),
        kind is Nothing || (keeps_registers(kind) && states !is Registers),
    ensures
        after == before,
        kind is Nothing ==> result is Ok,
        keeps_registers(kind) ==> result is Err && result->Err_0 is UnexpectedColumn,
{
}

/// What a state says of registers before and after a column: each byte is the largest rank
/// of what it was and of the hashes of the column's values with its number in their lowest
/// 14 bits. Every value that is not null is hashed, and nothing else is.
pub proof fn law_states_show_every_value(
    accumulator: &mut Accumulator,
    column: &ColumnValues,
    result: Result<(), ExecError>,
    before: Vec<ScalarValue>,
    after: Vec<ScalarValue>,
)
    requires
        *old(accumulator) is Plain,
        old(accumulator).inner().wf(),
        column.wf(),
        call_ensures(Accumulator::state, (&*old(accumulator),), before),
        call_ensures(Accumulator::update_batch, (accumulator, column), result),
        call_ensures(Accumulator::state, (&*final(accumulator),), after),
        before@[0] is Binary,
        result is Ok,
    ensures
        before@.len() == 1 && after@.len() == 1,
        match (before@[0], after@[0]) {
            (ScalarValue::Binary(Some(old_bytes)), ScalarValue::Binary(Some(bytes))) =>
                exists|state: RandomState, hashes: Seq<u64>|
                    hyperloglog::is_hll_state(state) && #[trigger] column_values::hashes_values(
                        *column,
                        state,
                        hashes,
                    ) && holds_largest_ranks(old_bytes@, hashes, bytes@),
            _ => false,
        },
{
    let kind = old(accumulator).inner().kind();
    assert(keeps_registers(kind));
    law_every_value_goes_into_its_register(
        kind,
        old(accumulator).inner().seen(),
        *column,
        final(accumulator).inner().seen(),
    );
}

/// What a state says of registers before and after states were merged: each byte is the
/// largest of what it was and of what each of the merged states has there, however many
/// there are.
pub proof fn law_states_show_every_merged_state(
    accumulator: &mut Accumulator,
    states: &StateColumn,
    result: Result<(), ExecError>,
    before: Vec<ScalarValue>,
    after: Vec<ScalarValue>,
    register: int,
)
    requires
        old(accumulator).inner().wf(),
        call_ensures(Accumulator::state, (&*old(accumulator),), before),
        call_ensures(Accumulator::merge_batch, (accumulator, states), result),
        call_ensures(Accumulator::state, (&*final(accumulator),), after),
        before@[0] is Binary,
        *states is Registers,
        forall|k: int|
            0 <= k < states->Registers_0@.len() ==> has_registers(
                #[trigger] states->Registers_0@[k],
            ),
        0 <= register < 16384,
    ensures
        result is Ok,
        after@.len() == 1,
        match (before@[0], after@[0]) {
            (ScalarValue::Binary(Some(old_bytes)), ScalarValue::Binary(Some(bytes))) => {
                let merged = states->Registers_0@;
                &&& old_bytes@.len() == 16384
                &&& bytes@.len() == 16384
                &&& bytes@[register] >= old_bytes@[register]
                &&& forall|k: int|
                    0 <= k < merged.len() ==> bytes@[register] >= (
                    #[trigger] merged[k])->0@[register]
                &&& bytes@[register] == old_bytes@[register] || exists|k: int|
                    0 <= k < merged.len() && bytes@[register] == (
                    #[trigger] merged[k])->0@[register]
            },
            _ => false,
        },
{
    let kind = old(accumulator).inner().kind();
    assert(keeps_registers(kind));
    law_every_state_of_a_batch_is_merged(
        kind,
        old(accumulator).inner().seen(),
        *states,
        final(accumulator).inner().seen(),
        result,
        states->Registers_0@.len() as int,
        register,
    );
}

/// The first state that does not have a byte for each register is an error, and the states
/// before it are merged. States of another form change nothing.
pub proof fn law_bad_states_are_refused(
    accumulator: &mut Accumulator,
    states: &StateColumn,
    result: Result<(), ExecError>,
    before: Vec<ScalarValue>,
    after: Vec<ScalarValue>,
)
    requires
        old(accumulator).inner().wf(),
        call_ensures(Accumulator::state, (&*old(accumulator),), before),
        call_ensures(Accumulator::merge_batch, (accumulator, states), result),
        call_ensures(Accumulator::state, (&*final(accumulator),), after),
        before@[0] is Binary,
    ensures
        *states matches StateColumn::Registers(all) ==> (result is Ok <==> forall|k: int|
            0 <= k < all@.len() ==> has_registers(#[trigger] all@[k])),
        *states !is Registers ==> result is Err && result->Err_0 is UnexpectedColumn
            && before@[0]->Binary_0->0@ == after@[0]->Binary_0->0@,
{
    let kind = old(accumulator).inner().kind();
    assert(keeps_registers(kind));
    if let StateColumn::Registers(all) = *states {
        let bytes = state_bytes(all@);
        lemma_good_prefix(bytes);
        assert forall|k: int| 0 <= k < all@.len() implies is_state(bytes[k]) == has_registers(
            #[trigger] all@[k],
        ) by {}
        if good_states(bytes) < all@.len() {
            assert(!has_registers(all@[good_states(bytes)]));
        }
    }
}

/// The count of registers is what the estimate gives for a histogram of the bytes of the
/// state: how many of them are each rank from none to 51.
pub proof fn law_counts_are_of_the_state<E: FnOnce(&Vec<u32>) -> u64>(
    accumulator: &Accumulator,
    estimate: E,
    count: Result<ScalarValue, ExecError>,
    state: Vec<ScalarValue>,
)
    requires
        accumulator.inner().wf(),
        accumulator.inner().holds_ranks(),
        forall|counts: &Vec<u32>| call_requires(estimate, (counts,)),
        call_ensures(Accumulator::evaluate::<E>, (accumulator, estimate), count),
        call_ensures(Accumulator::state, (accumulator,), state),
    ensures
        count is Ok,
        state@.len() == 1,
        state@[0] matches ScalarValue::Binary(Some(bytes)) ==> exists|
            counts: Vec<u32>,
            number: u64,
        | #[trigger]
            call_ensures(estimate, (&counts,), number) && count->Ok_0 == ScalarValue::UInt64(
                Some(number),
            ) && counts@.len() == 52 && forall|rank: u8|
                rank <= 51 ==> #[trigger] bytes@.to_multiset().count(rank) == counts@[rank as int],
        state@[0] matches ScalarValue::List(values) ==> count->Ok_0 matches ScalarValue::UInt64(
            Some(number),
        ) && number == values@.len(),
        state@[0] is UInt64 ==> state@[0] == ScalarValue::UInt64(Some(0)) && count->Ok_0
            == ScalarValue::UInt64(Some(0)),
{
    law_estimates_are_of_the_histogram(accumulator.inner().seen(), estimate, count->Ok_0);
    if let Seen::Slots(slots) = accumulator.inner().seen() {
        if let AccumulatorKind::Small(small) = accumulator.inner().kind() {
            distinct_counter::law_listed_values_are_counted_once(small, slots);
        }
    }
}

/// The small integer type that is meant by a type.
pub open spec fn small_type(data_type: DataType) -> Option<SmallInt> {
    match data_type {
        DataType::UInt8 => Some(SmallInt::UInt8),
        DataType::Int8 => Some(SmallInt::Int8),
        DataType::UInt16 => Some(SmallInt::UInt16),
        DataType::Int16 => Some(SmallInt::Int16),
        _ => None,
    }
}

/// An accumulator that is made for a type of small integers counts, after a column of the
/// type, the different values in the rows that are not null, and its state lists them.
pub proof fn law_fresh_accumulators_count_small_integers<E: FnOnce(&Vec<u32>) -> u64>(
    aggregate: &ApproxDistinct,
    data_type: &DataType,
    made: Result<Accumulator, ExecError>,
    accumulator: &mut Accumulator,
    column: &ColumnValues,
    result: Result<(), ExecError>,
    estimate: E,
    count: Result<ScalarValue, ExecError>,
    state: Vec<ScalarValue>,
)
    requires
        small_type(*data_type) is Some,
        call_ensures(ApproxDistinct::accumulator, (aggregate, data_type), made),
        made is Ok ==> *old(accumulator) == made->Ok_0,
        column.wf(),
        call_ensures(Accumulator::update_batch, (accumulator, column), result),
        forall|counts: &Vec<u32>| call_requires(estimate, (counts,)),
        call_ensures(Accumulator::evaluate::<E>, (&*final(accumulator), estimate), count),
        call_ensures(Accumulator::state, (&*final(accumulator),), state),
    ensures
        made is Ok,
        result is Ok <==> distinct_counter::is_of(small_type(*data_type)->0, *column),
        result is Ok ==> {
            let numbers = Set::new(|number: int| distinct_counter::has_number(*column, number));
            &&& numbers.finite()
            &&& count matches Ok(ScalarValue::UInt64(Some(value))) && value == numbers.len()
            &&& state@.len() == 1
            &&& state@[0] matches ScalarValue::List(values) && values@.no_duplicates() && forall|
                number: int,
            |
                (exists|k: int| 0 <= k < values@.len() && #[trigger] values@[k] == number)
                    <==> #[trigger] distinct_counter::has_number(*column, number)
        },
{
    let small = small_type(*data_type)->0;
    law_accumulators_are_made_for_counted_types(*data_type, made, *column);
    assert(innermost_type(*data_type) == *data_type);
    assert(old(accumulator).inner().kind() == AccumulatorKind::Small(small));
    if result is Ok {
        law_small_integers_are_counted_exactly(
            small,
            old(accumulator).inner().seen(),
            *column,
            final(accumulator).inner().seen(),
            estimate,
            count->Ok_0,
            state@[0],
        );
    }
}

/// An accumulator is made exactly for the types that are supported: those whose values are
/// counted, and dictionaries of them. What is made has seen nothing, and a type that is
/// refused is named.
pub proof fn law_accumulators_are_made_for_supported_types(
    aggregate: &ApproxDistinct,
    data_type: &DataType,
    value_type: &DataType,
    column: ColumnValues,
    made: Result<Accumulator, ExecError>,
    supported: bool,
    fixed: bool,
    by_hashes: bool,
    state: Vec<ScalarValue>,
)
    requires
        call_ensures(dictionary_value_type, (data_type,), value_type),
        call_ensures(ApproxDistinct::accumulator, (aggregate, data_type), made),
        call_ensures(is_supported_type, (data_type,), supported),
        call_ensures(is_fixed_domain_type, (data_type,), fixed),
        call_ensures(is_hll_groups_type, (data_type,), by_hashes),
        made is Ok ==> call_ensures(Accumulator::state, (&made->Ok_0,), state),
    ensures
        *value_type !is Dictionary,
        *data_type !is Dictionary ==> *value_type == *data_type,
        supported <==> holds_type(*value_type, column) is Some,
        made is Ok <==> supported,
        made is Err ==> made->Err_0 == (ExecError::NotImplemented { data_type: *data_type }),
        fixed <==> small_type(*data_type) is Some,
        by_hashes <==> supported && (*data_type is Dictionary || (small_type(*data_type) is None
            && *data_type !is Null)),
        made is Ok ==> match state@[0] {
            ScalarValue::Binary(Some(bytes)) => bytes@.len() == 16384 && forall|register: int|
                0 <= register < 16384 ==> #[trigger] bytes@[register] == 0,
            ScalarValue::List(values) => values@.len() == 0,
            other => other == ScalarValue::UInt64(Some(0)),
        },
{
    law_accumulators_are_made_for_counted_types(*data_type, made, column);
    if let DataType::Dictionary(key, value) = *data_type {
        law_dictionaries_are_counted_as_their_values(*key, *value);
    }
    law_types_take_the_columns_of_their_values(*value_type, column);
    if let Ok(accumulator) = made {
        law_new_accumulators_have_seen_nothing(
            accumulator.inner().kind(),
            accumulator.inner().seen(),
        );
    }
}

/// The values behind a dictionary type are those of its value type, through any number of
/// dictionaries.
pub proof fn law_value_types_are_innermost(
    key: DataType,
    value: DataType,
    outer: &DataType,
    inner: &DataType,
)
    requires
        call_ensures(
            dictionary_value_type,
            (&DataType::Dictionary(Box::new(key), Box::new(value)),),
            outer,
        ),
        call_ensures(dictionary_value_type, (&value,), inner),
    ensures
        *outer == *inner,
        value !is Dictionary ==> *outer == value,
{
    law_dictionaries_are_counted_as_their_values(key, value);
}

/// Registers that went into a scalar come out of it. A scalar that is no byte string, or a
/// null one, has none, and a byte string of another length is refused.
pub proof fn law_registers_go_through_scalars(
    hll: &HyperLogLog,
    bytes: Vec<u8>,
    value: ScalarValue,
    back: Result<HyperLogLog, ExecError>,
    other: &ScalarValue,
    read: Result<HyperLogLog, ExecError>,
)
    requires
        hll.wf(),
        call_ensures(HyperLogLog::to_vec, (hll,), bytes),
        call_ensures(registers_to_scalar, (hll,), value),
        call_ensures(registers_from_scalar, (&value,), back),
        call_ensures(registers_from_scalar, (other,), read),
    ensures
        value matches ScalarValue::Binary(Some(held)) && held@ == bytes@,
        back matches Ok(again) && again@ == hll@,
        read is Ok <==> (*other matches ScalarValue::Binary(Some(held)) && held@.len() == 16384),
        read is Err && (*other is Binary && other->Binary_0 is Some)
            ==> read->Err_0 is InvalidRegisters,
        read is Err && !(*other is Binary && other->Binary_0 is Some)
            ==> read->Err_0 is MissingRegisters,
{
}

/// A count that is not negative keeps its number as an unsigned one, and what is no count is
/// refused.
pub proof fn law_counts_become_unsigned(
    value: ScalarValue,
    result: Result<ScalarValue, ExecError>,
)
    requires
        call_ensures(count_as_unsigned, (value,), result),
    ensures
        result is Ok <==> (value is Int64 && value->Int64_0 is Some),
        value is Int64 && value->Int64_0 is Some && value->Int64_0->0 >= 0 ==> (
        result->Ok_0 matches ScalarValue::UInt64(Some(count)) && count == value->Int64_0->0),
        result is Err ==> result->Err_0 is UnexpectedCount,
{
}

/// The one state field is named after the aggregate, with the name of the state in brackets,
/// and is of the type in which the state of the counted values comes.
pub proof fn law_state_fields_are_named_and_typed(
    aggregate: &ApproxDistinct,
    name: &str,
    data_type: &DataType,
    fields: Result<Vec<Field>, ExecError>,
    exact_name: String,
    register_name: String,
)
    requires
        *data_type !is Dictionary,
        call_ensures(ApproxDistinct::state_fields, (aggregate, name, data_type), fields),
        call_ensures(format_state_name, (name, "approx_distinct"), exact_name),
        call_ensures(format_state_name, (name, "hll_registers"), register_name),
    ensures
        fields is Ok && fields->Ok_0@.len() == 1,
        exact_name@ == name@ + "["@ + "approx_distinct"@ + "]"@,
        register_name@ == name@ + "["@ + "hll_registers"@ + "]"@,
        ({
            let field = fields->Ok_0@[0];
            if *data_type is Null {
                field.name@ == exact_name@ && field.data_type is Null && field.nullable
            } else if small_type(*data_type) is Some {
                field.name@ == exact_name@ && !field.nullable && (
                field.data_type matches DataType::List(item) && item.data_type == *data_type
                    && item.nullable && item.name@ == "item"@)
            } else {
                field.name@ == register_name@ && !field.nullable && field.data_type is Binary
            }
        }),
{
    law_state_fields_fit_the_type(fields->Ok_0@[0], name@, *data_type);
}

/// The aggregate has one argument of any type, gives an unsigned count whatever the type,
/// and gives the same for the same input.
pub proof fn law_aggregate_takes_one_argument(
    aggregate: ApproxDistinct,
    name: &'static str,
    signature: &Signature,
    types: &[DataType],
    result: Result<DataType, ExecError>,
)
    requires
        call_ensures(ApproxDistinct::new, (), aggregate),
        call_ensures(ApproxDistinct::name, (&aggregate,), name),
        call_ensures(ApproxDistinct::signature, (&aggregate,), signature),
        call_ensures(ApproxDistinct::return_type, (&aggregate, types), result),
    ensures
        name@ == "approx_distinct"@,
        signature.type_signature == TypeSignature::Any(1),
        signature.volatility is Immutable,
        result == Ok::<DataType, ExecError>(DataType::UInt64),
{
}

/// A dictionary accumulator sees the rows that a dictionary column stands for. Where it
/// keeps registers, each byte of its state is the largest rank of what it was and of the
/// hashes of the values in the decoded column; where it lists small integers, it lists what
/// it listed and the values in the decoded column. Values that no row refers to are not
/// seen.
pub proof fn law_dictionary_states_show_the_rows(
    accumulator: &mut Accumulator,
    column: &ColumnValues,
    plain: ColumnValues,
    result: Result<(), ExecError>,
    before: Vec<ScalarValue>,
    after: Vec<ScalarValue>,
    number: int,
)
    requires
        *old(accumulator) is Dictionary,
        old(accumulator).inner().wf(),
        column.wf(),
        call_ensures(ColumnValues::decoded, (column,), plain),
        call_ensures(Accumulator::state, (&*old(accumulator),), before),
        call_ensures(Accumulator::update_batch, (accumulator, column), result),
        call_ensures(Accumulator::state, (&*final(accumulator),), after),
        result is Ok,
    ensures
        before@.len() == 1 && after@.len() == 1,
        match (before@[0], after@[0]) {
            (ScalarValue::Binary(Some(old_bytes)), ScalarValue::Binary(Some(bytes))) =>
                exists|state: RandomState, hashes: Seq<u64>|
                    hyperloglog::is_hll_state(state) && #[trigger] column_values::hashes_values(
                        plain,
                        state,
                        hashes,
                    ) && holds_largest_ranks(old_bytes@, hashes, bytes@),
            (ScalarValue::List(old_values), ScalarValue::List(values)) => (exists|k: int|
                0 <= k < values@.len() && #[trigger] values@[k] == number) <==> (exists|k: int|
                0 <= k < old_values@.len() && #[trigger] old_values@[k] == number)
                || distinct_counter::has_number(plain, number),
            (ScalarValue::UInt64(Some(old_count)), ScalarValue::UInt64(Some(count))) => old_count
                == 0 && count == 0,
            _ => false,
        },
{
    let kind = old(accumulator).inner().kind();
    let old_seen = old(accumulator).inner().seen();
    let seen = final(accumulator).inner().seen();
    law_dictionaries_count_as_decoded(old_seen, plain, column.innermost(), column.rows(), seen);
    match kind {
        AccumulatorKind::Small(small) => {
            let signed = small.is_signed();
            let old_slots = old_seen->Slots_0;
            let slots = seen->Slots_0;
            if plain is AllNull {
                distinct_counter::law_rows_add_their_numbers(small, old_slots, plain.rows(), number);
                if plain.rows().contains(Some(Cell::Number(number))) {
                    let r = choose|r: int|
                        0 <= r < plain.rows().len() && plain.rows()[r] == Some(
                            Cell::Number(number),
                        );
                    assert(plain.rows()[r] is None);
                }
            } else {
                distinct_counter::law_listed_values_are_those_of_the_rows(
                    small,
                    old_slots,
                    plain,
                    number,
                );
            }
            lemma_listed_in_state(kind, old_seen, before@[0], number);
            lemma_listed_in_state(kind, seen, after@[0], number);
        },
        AccumulatorKind::Nothing => {},
        _ => {
            law_every_value_goes_into_its_register(kind, old_seen, plain, seen);
        },
    }
}

proof fn lemma_listed_in_state(
    kind: AccumulatorKind,
    seen: Seen,
    state: ScalarValue,
    number: int,
)
    requires
        kind is Small,
        seen is Slots,
        is_state_of(kind, seen, state),
    ensures
        state is List,
        (exists|k: int| 0 <= k < state->List_0@.len() && #[trigger] state->List_0@[k] == number)
            <==> distinct_counter::listed(seen->Slots_0, kind->Small_0.is_signed()).contains(
            number,
        ),
{
    let values = state->List_0@;
    let listed = distinct_counter::listed(seen->Slots_0, kind->Small_0.is_signed());
    if exists|k: int| 0 <= k < values.len() && #[trigger] values[k] == number {
        let k = choose|k: int| 0 <= k < values.len() && #[trigger] values[k] == number;
        assert(listed[k] == number);
    }
    if listed.contains(number) {
        let k = choose|k: int| 0 <= k < listed.len() && listed[k] == number;
        assert(values[k] == number);
    }
}

/// A plain accumulator of small integers lists, after any column that it takes, what it
/// listed and the values in the rows; merged lists add the values in any of them.
pub proof fn law_lists_show_every_small_integer(
    accumulator: &mut Accumulator,
    column: &ColumnValues,
    result: Result<(), ExecError>,
    before: Vec<ScalarValue>,
    after: Vec<ScalarValue>,
    merging: &mut Accumulator,
    lists: Vec<Option<ColumnValues>>,
    merged: Result<(), ExecError>,
    last: Vec<ScalarValue>,
    number: int,
)
    requires
        *old(accumulator) is Plain,
        old(accumulator).inner().wf(),
        column.wf(),
        call_ensures(Accumulator::state, (&*old(accumulator),), before),
        before@[0] is List,
        call_ensures(Accumulator::update_batch, (accumulator, column), result),
        result is Ok,
        call_ensures(Accumulator::state, (&*final(accumulator),), after),
        *old(merging) == *final(accumulator),
        call_ensures(Accumulator::merge_batch, (merging, &StateColumn::Lists(lists)), merged),
        merged is Ok,
        call_ensures(Accumulator::state, (&*final(merging),), last),
    ensures
        match (before@[0], after@[0], last@[0]) {
            (
                ScalarValue::List(old_values),
                ScalarValue::List(values),
                ScalarValue::List(last_values),
            ) => {
                &&& (exists|k: int| 0 <= k < values@.len() && #[trigger] values@[k] == number) <==> (
                exists|k: int| 0 <= k < old_values@.len() && #[trigger] old_values@[k] == number)
                    || distinct_counter::has_number(*column, number)
                &&& (exists|k: int|
                    0 <= k < last_values@.len() && #[trigger] last_values@[k] == number) <==> (exists|
                    k: int,
                | 0 <= k < values@.len() && #[trigger] values@[k] == number) || exists|k: int|
                    0 <= k < lists@.len() && ((#[trigger] lists@[k]) matches Some(list)
                        && distinct_counter::has_number(list, number))
            },
            _ => false,
        },
{
    let kind = old(accumulator).inner().kind();
    let old_seen = old(accumulator).inner().seen();
    let seen = final(accumulator).inner().seen();
    let last_seen = final(merging).inner().seen();
    assert(kind is Small);
    let small = kind->Small_0;
    distinct_counter::law_listed_values_are_those_of_the_rows(
        small,
        old_seen->Slots_0,
        *column,
        number,
    );
    law_lists_of_values_are_merged(
        small,
        seen,
        StateColumn::Lists(lists),
        last_seen,
        merged,
        number,
    );
    lemma_listed_in_state(kind, old_seen, before@[0], number);
    lemma_listed_in_state(kind, seen, after@[0], number);
    lemma_listed_in_state(kind, last_seen, last@[0], number);
}

/// A column is taken exactly where it holds values of the type that the accumulator was made
/// for; any other is an error and leaves the state as it was.
pub proof fn law_columns_of_other_types_are_refused(
    aggregate: &ApproxDistinct,
    data_type: &DataType,
    made: Accumulator,
    accumulator: &mut Accumulator,
    column: &ColumnValues,
    result: Result<(), ExecError>,
)
    requires
        *data_type !is Dictionary,
        call_ensures(ApproxDistinct::accumulator, (aggregate, data_type), Ok(made)),
        *old(accumulator) == made,
        column.wf(),
        call_ensures(Accumulator::update_batch, (accumulator, column), result),
    ensures
        holds_type(*data_type, *column) == Some(result is Ok),
        result is Err ==> result->Err_0 is UnexpectedColumn && final(accumulator).inner().seen()
            == made.inner().seen(),
{
    law_accumulators_are_made_for_counted_types(*data_type, Ok(made), *column);
    assert(innermost_type(*data_type) == *data_type);
}

/// Small integer accumulators are made for small integer types alone, with the same state
/// field as the aggregate has for them; and both ways to make an accumulator agree.
pub proof fn law_both_makers_agree(
    aggregate: &ApproxDistinct,
    data_type: &DataType,
    small: Result<PlainAccumulator, ExecError>,
    plain: Result<PlainAccumulator, ExecError>,
    any: Result<Accumulator, ExecError>,
)
    requires
        *data_type !is Dictionary,
        call_ensures(get_small_int_approx_accumulator, (data_type,), small),
        call_ensures(make_approx_distinct_accumulator, (data_type,), plain),
        call_ensures(ApproxDistinct::accumulator, (aggregate, data_type), any),
    ensures
        small is Ok <==> small_type(*data_type) is Some,
        small is Err ==> small->Err_0 == (ExecError::UnsupportedSmallInt { data_type: *data_type }),
        small is Ok ==> plain is Ok && small->Ok_0.kind() == plain->Ok_0.kind(),
        plain is Ok <==> any is Ok,
        plain is Ok ==> any->Ok_0 is Plain && any->Ok_0.inner().kind() == plain->Ok_0.kind()
            && any->Ok_0.inner().seen() == plain->Ok_0.seen(),
{
    law_accumulators_are_made_alike(*data_type, plain, any);
}

/// The field of a counter of small integers is the one that the aggregate has for the type.
pub proof fn law_small_integer_fields_are_alike(
    aggregate: &ApproxDistinct,
    name: &str,
    data_type: &DataType,
    small: Vec<Field>,
    fields: Result<Vec<Field>, ExecError>,
)
    requires
        small_type(*data_type) is Some,
        call_ensures(get_small_int_state_field, (name, data_type), small),
        call_ensures(ApproxDistinct::state_fields, (aggregate, name, data_type), fields),
    ensures
        small@.len() == 1,
        fields is Ok && fields->Ok_0@.len() == 1,
        small@[0].name@ == fields->Ok_0@[0].name@,
        small@[0].nullable == fields->Ok_0@[0].nullable,
        match (small@[0].data_type, fields->Ok_0@[0].data_type) {
            (DataType::List(left), DataType::List(right)) => left.data_type == *data_type
                && right.data_type == *data_type && left.nullable && right.nullable && left.name@
                == right.name@,
            _ => false,
        },
{
    law_state_fields_fit_the_type(fields->Ok_0@[0], name@, *data_type);
}

/// An accumulator with registers occupies a byte for each of them, and one of small integers
/// at least one for each number of the type.
pub proof fn law_sizes_cover_what_is_kept(
    accumulator: &Accumulator,
    size: usize,
    state: Vec<ScalarValue>,
)
    requires
        accumulator.inner().wf(),
        call_ensures(Accumulator::size, (accumulator,), size),
        call_ensures(Accumulator::state, (accumulator,), state),
    ensures
        state@[0] is Binary ==> size == 16384,
        accumulator.inner().kind() matches AccumulatorKind::Small(small) ==> size >= match small {
            SmallInt::UInt8 | SmallInt::Int8 => 256int,
            SmallInt::UInt16 | SmallInt::Int16 => 65536int,
        },
{
}

} // verus!
