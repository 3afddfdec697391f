//! Compacts repeated dictionary values once on a materialized build side.
use crate::arith;
use crate::arrays;
use crate::arrays::{
    array_kind, array_len, array_null_count, dictionary_encode, ArrayKind,
};
use crate::data_type::DataType;
use crate::error::ExecError;
use arrow::array::ArrayData;
use vstd::prelude::*;

verus! {

/// Bytes of one entry of the table that finds repeated values.
pub const ENTRY_BYTES: usize = 16;

/// Entries that this table has at the least.
pub const LEAST_ENTRIES: usize = 1024;

/// A dictionary-encoded column: each row's key is the position of its value.
#[derive(Debug)]
pub struct DictionaryPayload<A> {
    /// The array that the column is.
    pub array: A,
    /// The bytes that the array occupies.
    pub memory_size: usize,
    /// The type of the keys.
    pub key_type: DataType,
    /// The key of each row, and nothing for a null row.
    pub keys: Vec<Option<usize>>,
    /// The values.
    pub values: ArrayData,
}

/// Every key is the position of a value.
pub open spec fn keys_fit(keys: Seq<Option<usize>>, values: Seq<Option<Seq<u8>>>) -> bool {
    forall|i: int| 0 <= i < keys.len() && #[trigger] keys[i] is Some ==> keys[i]->0 < values.len()
}

/// The rows that keys of values stand for.
pub open spec fn decoded(keys: Seq<Option<usize>>, values: Seq<Option<Seq<u8>>>) -> Seq<
    Option<Seq<u8>>,
> {
    Seq::new(
        keys.len(),
        |i: int|
            match keys[i] {
                Some(key) => values[key as int],
                None => None,
            },
    )
}

impl<A> DictionaryPayload<A> {
    /// The values of the column.
    pub open spec fn value_rows(self) -> Seq<Option<Seq<u8>>> {
        arrays::array_rows(self.values)
    }

    /// Every key is the position of a value.
    pub open spec fn wf(self) -> bool {
        keys_fit(self.keys@, self.value_rows())
    }

    /// The rows that the column stands for.
    pub open spec fn rows(self) -> Seq<Option<Seq<u8>>> {
        decoded(self.keys@, self.value_rows())
    }
}

/// The largest key of a type, or -1 where the type has no keys.
pub open spec fn largest_key(key_type: DataType) -> int {
    match key_type {
        DataType::Int8 => 0x7f,
        DataType::Int16 => 0x7fff,
        DataType::Int32 => 0x7fff_ffff,
        DataType::Int64 => 0x7fff_ffff_ffff_ffff,
        DataType::UInt8 => 0xff,
        DataType::UInt16 => 0xffff,
        DataType::UInt32 => 0xffff_ffff,
        DataType::UInt64 => 0xffff_ffff_ffff_ffff,
        _ => -1,
    }
}

/// Whether `key` is a key of the type.
pub fn fits_key(key_type: &DataType, key: usize) -> (result: bool)
    ensures
        result == (key <= largest_key(*key_type)),
{
    match key_type {
        DataType::Int8 => key <= 0x7f,
        DataType::Int16 => key <= 0x7fff,
        DataType::Int32 => key <= 0x7fff_ffff,
        DataType::Int64 => key as u64 <= 0x7fff_ffff_ffff_ffff,
        DataType::UInt8 => key <= 0xff,
        DataType::UInt16 => key <= 0xffff,
        DataType::UInt32 => key as u64 <= 0xffff_ffff,
        DataType::UInt64 => true,
        _ => false,
    }
}

/// The memory of a hash table with room for `elements`, beside `fixed_size` bytes:
/// an eighth of its buckets stays empty, and each has an entry and a control byte.
pub open spec fn table_bytes(elements: int, fixed_size: int) -> int {
    let buckets = arith::power_of_two_at_least(elements * 8 / 7);
    ENTRY_BYTES * buckets + buckets + fixed_size
}

/// The memory of a hash table with room for `elements`, beside `fixed_size` bytes,
/// or nothing where a step of the computation does not fit the type.
pub fn estimate_memory_size(elements: usize, fixed_size: usize) -> (result: Option<usize>)
    ensures
        match result {
            Some(bytes) => bytes == table_bytes(elements as int, fixed_size as int) && elements * 8
                <= usize::MAX,
            None => elements * 8 > usize::MAX || table_bytes(elements as int, fixed_size as int)
                > usize::MAX,
        },
{
    proof {
        arith::lemma_power_of_two_at_least(elements * 8 / 7);
    }
    let overestimate: usize = match elements.checked_mul(8) {
        Some(overestimate) => overestimate,
        None => {
            return None;
        },
    };
    let buckets: usize = match arith::checked_power_of_two_at_least(overestimate / 7) {
        Some(buckets) => buckets,
        None => {
            return None;
        },
    };
    match buckets.checked_mul(ENTRY_BYTES) {
        Some(entries) => match entries.checked_add(buckets) {
            Some(table) => table.checked_add(fixed_size),
            None => None,
        },
        None => None,
    }
}

/// Memory that is shared with others up to a limit.
#[derive(Clone, Copy, Debug, PartialEq, Eq, Structural)]
pub struct MemoryBudget {
    /// The bytes there are.
    pub limit: usize,
    /// The bytes in use.
    pub used: usize,
}

impl MemoryBudget {
    /// Whether `bytes` more are there.
    pub open spec fn has_room(self, bytes: int) -> bool {
        self.used + bytes <= self.limit
    }

    /// Takes `bytes` more, if they are there.
    pub fn try_grow(&mut self, bytes: usize) -> (result: bool)
        ensures
            result == old(self).has_room(bytes as int),
            *final(self) == (if result {
                MemoryBudget { limit: old(self).limit, used: (old(self).used + bytes) as usize }
            } else {
                *old(self)
            }),
    {
        match self.used.checked_add(bytes) {
            Some(used) => {
                if used <= self.limit {
                    self.used = used;
                    true
                } else {
                    false
                }
            },
            None => false,
        }
    }

    /// Gives `bytes` back.
    pub fn shrink(&mut self, bytes: usize)
        requires
            bytes <= old(self).used,
        ensures
            *final(self) == (MemoryBudget {
                limit: old(self).limit,
                used: (old(self).used - bytes) as usize,
            }),
    {
        self.used = self.used - bytes;
    }
}

/// What compaction asks of the memory that it shares with others.
#[derive(Clone, Copy, Debug, PartialEq, Eq, Structural)]
pub enum MemoryRequest {
    /// Bytes to work with.
    Scratch(usize),
    /// The bytes to work with are no longer needed.
    Release(usize),
    /// Bytes that the build side occupies from now on.
    Build(usize),
}

impl MemoryBudget {
    /// Whether a request is granted: bytes where they are there, and giving back always.
    pub open spec fn grants(self, request: MemoryRequest) -> bool {
        match request {
            MemoryRequest::Scratch(bytes) => self.has_room(bytes as int),
            MemoryRequest::Release(_) => true,
            MemoryRequest::Build(bytes) => self.has_room(bytes as int),
        }
    }

    /// Answers a request: whoever comes first gets what is there.
    pub fn answer(&mut self, request: MemoryRequest) -> (result: bool)
        requires
            request matches MemoryRequest::Release(bytes) ==> bytes <= old(self).used,
        ensures
            result == old(self).grants(request),
            final(self).limit == old(self).limit,
            final(self).used == old(self).used + (match request {
                MemoryRequest::Scratch(bytes) => if result {
                    bytes as int
                } else {
                    0
                },
                MemoryRequest::Release(bytes) => -bytes,
                MemoryRequest::Build(bytes) => if result {
                    bytes as int
                } else {
                    0
                },
            }),
    {
        match request {
            MemoryRequest::Scratch(bytes) => self.try_grow(bytes),
            MemoryRequest::Release(bytes) => {
                self.shrink(bytes);
                true
            },
            MemoryRequest::Build(bytes) => self.try_grow(bytes),
        }
    }
}

/// What compaction did.
#[derive(Clone, Copy, Debug, PartialEq, Eq, Structural)]
pub struct CompactionMetrics {
    /// Bytes that compacted columns occupy beyond what the columns did before.
    pub build_mem_used: usize,
    /// Values that were dropped because they were repeated.
    pub build_dictionary_values_deduplicated: usize,
}

/// Whether a column is left as it is, whatever memory there is: it has no rows,
/// fewer than two values, values that are not bytes or that are null, or more
/// values than its keys can number.
pub open spec fn left_alone<A>(dictionary: DictionaryPayload<A>) -> bool {
    let values = arrays::array_rows(dictionary.values);
    ||| dictionary.keys@.len() == 0
    ||| values.len() < 2
    ||| !arrays::holds_bytes(dictionary.values)
    ||| exists|i: int| 0 <= i < values.len() && #[trigger] values[i] is None
    ||| values.len() - 1 > largest_key(dictionary.key_type)
}

/// The memory that compaction needs for a column of `memory_size` bytes with
/// `values` values: a copy of everything, and the table that finds repeated values.
pub open spec fn scratch_need(memory_size: int, values: int) -> int {
    table_bytes(
        if values >= LEAST_ENTRIES {
            values
        } else {
            LEAST_ENTRIES as int
        },
        2 * memory_size,
    )
}

/// The memory that compaction needs, or a step of computing it, does not fit the type.
pub open spec fn too_large(memory_size: usize, values: int) -> bool {
    ||| 2 * memory_size > usize::MAX
    ||| values * 8 > usize::MAX
    ||| scratch_need(memory_size as int, values) > usize::MAX
}

/// The memory that compaction needs while it works, or an error where the number
/// does not fit the type.
pub fn scratch_bytes(memory_size: usize, values: usize) -> (result: Result<usize, ExecError>)
    ensures
        match result {
            Ok(bytes) => bytes == scratch_need(memory_size as int, values as int) && !too_large(
                memory_size,
                values as int,
            ),
            Err(error) => error is CompactionSize && too_large(memory_size, values as int),
        },
{
    let bytes: usize = match memory_size.checked_mul(2) {
        Some(bytes) => bytes,
        None => {
            return Err(ExecError::CompactionSize);
        },
    };
    let entries: usize = if values >= LEAST_ENTRIES {
        values
    } else {
        LEAST_ENTRIES
    };
    match estimate_memory_size(entries, bytes) {
        Some(bytes) => Ok(bytes),
        None => Err(ExecError::CompactionSize),
    }
}

/// The keys after the values were numbered anew.
pub open spec fn renumbered(keys: Seq<Option<usize>>, numbers: Seq<usize>) -> Seq<Option<usize>> {
    Seq::new(
        keys.len(),
        |i: int|
            match keys[i] {
                Some(key) => Some(numbers[key as int]),
                None => None,
            },
    )
}

/// How many values are repeats of others.
pub open spec fn repeats<A>(dictionary: DictionaryPayload<A>) -> int {
    dictionary.value_rows().len() - arrays::distinct_rows(dictionary.value_rows()).len()
}

/// Keys of values of which none is repeated.
#[derive(Debug)]
pub struct Deduplicated {
    /// The key of each row, and nothing for a null row.
    pub keys: Vec<Option<usize>>,
    /// The values.
    pub values: ArrayData,
}

/// The keys give the same rows over the different values, and the values are of the same
/// type.
pub open spec fn compacts<A>(dictionary: DictionaryPayload<A>, compacted: Deduplicated) -> bool {
    let values = arrays::array_rows(compacted.values);
    &&& keys_fit(compacted.keys@, values)
    &&& values == arrays::distinct_rows(dictionary.value_rows())
    &&& arrays::kind_of(compacted.values) == arrays::kind_of(dictionary.values)
    &&& decoded(compacted.keys@, values) == dictionary.rows()
    &&& compacted.keys@.len() == dictionary.keys@.len()
    &&& forall|i: int|
        0 <= i < dictionary.keys@.len() ==> (#[trigger] compacted.keys@[i] is None
            <==> dictionary.keys@[i] is None)
}

/// Whether the column is left as it is.
fn is_left_alone<A>(dictionary: &DictionaryPayload<A>) -> (result: bool)
    ensures
        result == left_alone(*dictionary),
{
    let ghost values = arrays::array_rows(dictionary.values);
    let ghost nulls = arrays::null_rows(values);
    let count: usize = array_len(&dictionary.values);
    proof {
        arrays::lemma_none_or_all_set(nulls);
        if arrays::set_positions(nulls).len() == 0 {
            assert forall|i: int| 0 <= i < values.len() implies !(#[trigger] values[i] is None) by {
                assert(!nulls[i]);
            }
        } else {
            assert(exists|i: int| 0 <= i < nulls.len() && #[trigger] nulls[i]);
            let i = choose|i: int| 0 <= i < nulls.len() && #[trigger] nulls[i];
            assert(values[i] is None);
        }
    }
    let kind = array_kind(&dictionary.values);
    let bytes: bool = kind == ArrayKind::Binary || kind == ArrayKind::Utf8;
    dictionary.keys.len() == 0 || count < 2 || !bytes
        || array_null_count(&dictionary.values) != 0 || !fits_key(&dictionary.key_type, count - 1)
}

/// The keys and values of the column without repeated values; nothing where no value is
/// repeated.
pub fn deduplicate<A>(dictionary: &DictionaryPayload<A>) -> (result: Result<
    Option<Deduplicated>,
    ExecError,
>)
    requires
        dictionary.wf(),
        !left_alone(*dictionary),
    ensures
        match result {
            Ok(None) => repeats(*dictionary) == 0,
            Ok(Some(compacted)) => repeats(*dictionary) > 0 && compacts(*dictionary, compacted),
            Err(_) => false,
        },
{
    let ghost values = arrays::array_rows(dictionary.values);
    proof {
        lemma_distinct_rows(values);
        arrays::lemma_none_or_all_set(arrays::null_rows(values));
    }
    let (numbers, distinct) = match dictionary_encode(&dictionary.values) {
        Ok(encoded) => encoded,
        Err(error) => {
            return Err(ExecError::Arrow(error));
        },
    };
    if array_len(&distinct) == array_len(&dictionary.values) {
        return Ok(None);
    }
    let mut keys: Vec<Option<usize>> = Vec::new();
    let mut i: usize = 0;
    while i < dictionary.keys.len()
        invariant
            i <= dictionary.keys@.len(),
            dictionary.wf(),
            values == arrays::array_rows(dictionary.values),
            numbers@.len() == values.len(),
            keys@ == renumbered(dictionary.keys@.take(i as int), numbers@),
        decreases dictionary.keys@.len() - i,
    {
        assert(dictionary.keys@[i as int] is Some ==> dictionary.keys@[i as int]->0 < values.len());
        let key: Option<usize> = match dictionary.keys[i] {
            Some(key) => Some(numbers[key]),
            None => None,
        };
        keys.push(key);
        i = i + 1;
        proof {
            assert(keys@ =~= renumbered(dictionary.keys@.take(i as int), numbers@));
        }
    }
    let compacted = Deduplicated { keys, values: distinct };
    proof {
        let distinct_values = arrays::array_rows(distinct);
        assert(dictionary.keys@.take(i as int) =~= dictionary.keys@);
        assert forall|i: int|
            0 <= i < compacted.keys@.len() && #[trigger] compacted.keys@[i] is Some implies compacted.keys@[i]->0
            < distinct_values.len() by {
            assert(dictionary.keys@[i] is Some);
        }
        assert forall|i: int| 0 <= i < dictionary.keys@.len() implies decoded(
            compacted.keys@,
            distinct_values,
        )[i] == #[trigger] dictionary.rows()[i] by {
            if dictionary.keys@[i] is Some {
                assert(dictionary.keys@[i]->0 < values.len());
            }
        }
        assert(decoded(compacted.keys@, distinct_values) =~= dictionary.rows());
    }
    Ok(Some(compacted))
}

proof fn lemma_distinct_rows(rows: Seq<Option<Seq<u8>>>)
    ensures
        arrays::distinct_rows(rows).len() <= rows.len(),
    decreases rows.len(),
{
    if rows.len() > 0 {
        lemma_distinct_rows(rows.drop_last());
    }
}

/// The memory that compaction of a column needs while it works, or nothing where the
/// column is left alone.
pub fn begin<A>(dictionary: &DictionaryPayload<A>) -> (result: Result<Option<usize>, ExecError>)
    ensures
        ({
            let values = dictionary.value_rows().len() as int;
            match result {
                Ok(Some(scratch)) => {
                    &&& !left_alone(*dictionary)
                    &&& !too_large(dictionary.memory_size, values)
                    &&& scratch == scratch_need(dictionary.memory_size as int, values)
                },
                Ok(None) => left_alone(*dictionary),
                Err(error) => {
                    &&& error is CompactionSize
                    &&& !left_alone(*dictionary)
                    &&& too_large(dictionary.memory_size, values)
                },
            }
        }),
{
    if is_left_alone(dictionary) {
        return Ok(None);
    }
    match scratch_bytes(dictionary.memory_size, array_len(&dictionary.values)) {
        Ok(scratch) => Ok(Some(scratch)),
        Err(error) => Err(error),
    }
}

/// The bytes that a compacted column occupies beyond what the column did.
pub open spec fn growth(memory_size: usize, compacted_size: usize) -> int {
    if compacted_size >= memory_size {
        compacted_size - memory_size
    } else {
        0
    }
}

/// Counts the `extra` bytes that a compacted column occupies and the `dropped` values.
pub fn settle(metrics: &mut CompactionMetrics, extra: usize, dropped: usize)
    ensures
        settled(*old(metrics), extra as int, dropped as int, *final(metrics)),
{
    proof {
        lemma_wrapped(metrics.build_mem_used, extra);
        lemma_wrapped(metrics.build_dictionary_values_deduplicated, dropped);
    }
    metrics.build_mem_used = metrics.build_mem_used.wrapping_add(extra);
    metrics.build_dictionary_values_deduplicated =
    metrics.build_dictionary_values_deduplicated.wrapping_add(dropped);
}

/// The metrics count `extra` more bytes and the `dropped` values.
pub open spec fn settled(
    metrics: CompactionMetrics,
    extra: int,
    dropped: int,
    new_metrics: CompactionMetrics,
) -> bool {
    &&& new_metrics.build_mem_used == wrapped(metrics.build_mem_used + extra)
    &&& new_metrics.build_dictionary_values_deduplicated == wrapped(
        metrics.build_dictionary_values_deduplicated + dropped,
    )
}

/// A count as the metrics hold it: it starts again from zero where the type ends.
pub open spec fn wrapped(count: int) -> int {
    count % (usize::MAX + 1)
}

proof fn lemma_wrapped(count: usize, more: usize)
    ensures
        count.wrapping_add(more) == wrapped(count + more),
{
    let modulus = usize::MAX + 1;
    if count + more < modulus {
        vstd::arithmetic::div_mod::lemma_small_mod((count + more) as nat, modulus as nat);
    } else {
        let rest = count + more - modulus;
        vstd::arithmetic::div_mod::lemma_mod_add_multiples_vanish(rest, modulus);
        vstd::arithmetic::div_mod::lemma_small_mod(rest as nat, modulus as nat);
    }
}

proof fn lemma_wrapped_twice(count: int, more: int)
    ensures
        wrapped(wrapped(count) + more) == wrapped(count + more),
{
    vstd::arithmetic::div_mod::lemma_add_mod_noop_right(more, count, usize::MAX + 1);
}

/// The array was made of the keys and values, and found to occupy as many bytes.
pub open spec fn built<A, B>(
    build: B,
    dictionary: DictionaryPayload<A>,
    compacted: Deduplicated,
    output: DictionaryPayload<A>,
) -> bool where B: Fn(&DataType, &Deduplicated) -> Result<(A, usize), ExecError> {
    &&& call_ensures(
        build,
        (&dictionary.key_type, &compacted),
        Ok((output.array, output.memory_size)),
    )
    &&& output.key_type == dictionary.key_type
    &&& output.keys@ == compacted.keys@
    &&& output.values == compacted.values
}

/// A compacted form of the column was made, and memory for what it occupies beyond what
/// the column did was asked for and `granted` or not.
pub open spec fn made<A, B, M>(
    build: B,
    memory: M,
    dictionary: DictionaryPayload<A>,
    output: DictionaryPayload<A>,
    granted: bool,
) -> bool where
    B: Fn(&DataType, &Deduplicated) -> Result<(A, usize), ExecError>,
    M: Fn(MemoryRequest) -> bool,
 {
    exists|compacted: Deduplicated, extra: usize|
        {
            &&& compacts(dictionary, compacted)
            &&& #[trigger] built(build, dictionary, compacted, output)
            &&& extra == growth(dictionary.memory_size, output.memory_size)
            &&& #[trigger] call_ensures(memory, (MemoryRequest::Build(extra),), granted)
        }
}

/// Memory to work with was asked for, and `granted` or not.
pub open spec fn scratch_asked<A, M>(
    memory: M,
    dictionary: DictionaryPayload<A>,
    granted: bool,
) -> bool where M: Fn(MemoryRequest) -> bool {
    let values = dictionary.value_rows().len() as int;
    let need = scratch_need(dictionary.memory_size as int, values);
    !too_large(dictionary.memory_size, values) && call_ensures(
        memory,
        (MemoryRequest::Scratch(need as usize),),
        granted,
    )
}

/// The memory to work with was given back.
pub open spec fn scratch_released<A, M>(memory: M, dictionary: DictionaryPayload<A>) -> bool where
    M: Fn(MemoryRequest) -> bool,
 {
    let values = dictionary.value_rows().len() as int;
    let need = scratch_need(dictionary.memory_size as int, values);
    let request = MemoryRequest::Release(need as usize);
    call_ensures(memory, (request,), true) || call_ensures(memory, (request,), false)
}

/// What compaction of one column returns, and what it does to the metrics.
pub open spec fn compaction<A, B, M>(
    build: B,
    memory: M,
    dictionary: DictionaryPayload<A>,
    metrics: CompactionMetrics,
    new_metrics: CompactionMetrics,
    result: Result<Option<DictionaryPayload<A>>, ExecError>,
) -> bool where
    B: Fn(&DataType, &Deduplicated) -> Result<(A, usize), ExecError>,
    M: Fn(MemoryRequest) -> bool,
 {
    match result {
        Ok(None) => {
            &&& new_metrics == metrics
            &&& {
                ||| left_alone(dictionary)
                ||| scratch_asked(memory, dictionary, false)
                ||| {
                    &&& scratch_asked(memory, dictionary, true)
                    &&& scratch_released(memory, dictionary)
                    &&& repeats(dictionary) == 0 || exists|output: DictionaryPayload<A>| #[trigger]
                        made(build, memory, dictionary, output, false)
                }
            }
        },
        Ok(Some(output)) => {
            &&& !left_alone(dictionary)
            &&& scratch_asked(memory, dictionary, true)
            &&& scratch_released(memory, dictionary)
            &&& repeats(dictionary) > 0
            &&& made(build, memory, dictionary, output, true)
            &&& settled(
                metrics,
                growth(dictionary.memory_size, output.memory_size),
                repeats(dictionary),
                new_metrics,
            )
        },
        Err(error) => {
            &&& new_metrics == metrics
            &&& !left_alone(dictionary)
            &&& {
                ||| error is CompactionSize && too_large(
                    dictionary.memory_size,
                    dictionary.value_rows().len() as int,
                )
                ||| {
                    &&& scratch_asked(memory, dictionary, true)
                    &&& scratch_released(memory, dictionary)
                    &&& repeats(dictionary) > 0
                    &&& exists|compacted: Deduplicated| #[trigger]
                        compacts(dictionary, compacted) && call_ensures(
                            build,
                            (&dictionary.key_type, &compacted),
                            Err(error),
                        )
                }
            }
        },
    }
}

/// A copy of the column in which no value is repeated, made by `build`, which returns an
/// array of the keys and values and the bytes that it occupies. Nothing where the column is
/// left alone, where no value is repeated, or where `memory` does not grant what is asked
/// of it: compaction is optional.
pub fn compact_dictionary<A, B, M>(
    dictionary: &DictionaryPayload<A>,
    build: &B,
    memory: &M,
    metrics: &mut CompactionMetrics,
) -> (result: Result<Option<DictionaryPayload<A>>, ExecError>) where
    B: Fn(&DataType, &Deduplicated) -> Result<(A, usize), ExecError>,
    M: Fn(MemoryRequest) -> bool,

    requires
        dictionary.wf(),
        forall|key_type: &DataType, compacted: &Deduplicated|
            call_requires(*build, (key_type, compacted)),
        forall|request: MemoryRequest| call_requires(*memory, (request,)),
    ensures
        left_alone(*dictionary) ==> (result matches Ok(None)),
        compaction(*build, *memory, *dictionary, *old(metrics), *final(metrics), result),
{
    let scratch: usize = match begin(dictionary) {
        Ok(Some(scratch)) => scratch,
        Ok(None) => {
            return Ok(None);
        },
        Err(error) => {
            return Err(error);
        },
    };
    if !memory(MemoryRequest::Scratch(scratch)) {
        assert(scratch_asked(*memory, *dictionary, false));
        return Ok(None);
    }
    assert(scratch_asked(*memory, *dictionary, true));
    let result = compact_granted(dictionary, build, memory, metrics);
    let answer = memory(MemoryRequest::Release(scratch));
    assert(call_ensures(*memory, (MemoryRequest::Release(scratch),), answer));
    assert(scratch_released(*memory, *dictionary));
    result
}

/// Compaction of a column with the memory to work with.
fn compact_granted<A, B, M>(
    dictionary: &DictionaryPayload<A>,
    build: &B,
    memory: &M,
    metrics: &mut CompactionMetrics,
) -> (result: Result<Option<DictionaryPayload<A>>, ExecError>) where
    B: Fn(&DataType, &Deduplicated) -> Result<(A, usize), ExecError>,
    M: Fn(MemoryRequest) -> bool,

    requires
        dictionary.wf(),
        !left_alone(*dictionary),
        forall|key_type: &DataType, compacted: &Deduplicated|
            call_requires(*build, (key_type, compacted)),
        forall|request: MemoryRequest| call_requires(*memory, (request,)),
    ensures
        match result {
            Ok(None) => *final(metrics) == *old(metrics) && (repeats(*dictionary) == 0 || exists|
                output: DictionaryPayload<A>,
            | #[trigger]
                made(*build, *memory, *dictionary, output, false)),
            Ok(Some(output)) => repeats(*dictionary) > 0 && made(
                *build,
                *memory,
                *dictionary,
                output,
                true,
            ) && settled(
                *old(metrics),
                growth(dictionary.memory_size, output.memory_size),
                repeats(*dictionary),
                *final(metrics),
            ),
            Err(error) => *final(metrics) == *old(metrics) && repeats(*dictionary) > 0 && exists|
                compacted: Deduplicated,
            | #[trigger]
                compacts(*dictionary, compacted) && call_ensures(
                    *build,
                    (&dictionary.key_type, &compacted),
                    Err(error),
                ),
        },
{
    let compacted = match deduplicate(dictionary) {
        Ok(Some(compacted)) => compacted,
        Ok(None) => {
            return Ok(None);
        },
        Err(error) => {
            return Err(error);
        },
    };
    let ghost parts = compacted;
    let (array, memory_size) = match build(&dictionary.key_type, &compacted) {
        Ok(made) => made,
        Err(error) => {
            assert(compacts(*dictionary, parts));
            return Err(error);
        },
    };
    let dropped: usize = array_len(&dictionary.values) - array_len(&compacted.values);
    let output = DictionaryPayload {
        array,
        memory_size,
        key_type: dictionary.key_type.duplicate(),
        keys: compacted.keys,
        values: compacted.values,
    };
    let extra: usize = memory_size.saturating_sub(dictionary.memory_size);
    let granted: bool = memory(MemoryRequest::Build(extra));
    proof {
        assert(built(*build, *dictionary, parts, output));
        assert(call_ensures(*memory, (MemoryRequest::Build(extra),), granted));
        assert(made(*build, *memory, *dictionary, output, granted));
    }
    if !granted {
        return Ok(None);
    }
    settle(metrics, extra, dropped);
    Ok(Some(output))
}

/// A column of a build side.
#[derive(Debug)]
pub enum PayloadColumn<A> {
    /// A dictionary-encoded column.
    Dictionary(DictionaryPayload<A>),
    /// A column of another type.
    Plain(A),
}

impl<A> PayloadColumn<A> {
    /// A dictionary's keys are positions of its values.
    pub open spec fn wf(self) -> bool {
        self matches PayloadColumn::Dictionary(dictionary) ==> dictionary.wf()
    }
}

/// A column after compaction, and what compaction does to the metrics: nothing where the
/// column is no dictionary.
pub open spec fn column_step<A, B, M>(
    build: B,
    memory: M,
    column: PayloadColumn<A>,
    output: PayloadColumn<A>,
    metrics: CompactionMetrics,
    new_metrics: CompactionMetrics,
) -> bool where
    B: Fn(&DataType, &Deduplicated) -> Result<(A, usize), ExecError>,
    M: Fn(MemoryRequest) -> bool,
 {
    match column {
        PayloadColumn::Dictionary(dictionary) => {
            ||| output == column && compaction(
                build,
                memory,
                dictionary,
                metrics,
                new_metrics,
                Ok(None),
            )
            ||| output is Dictionary && compaction(
                build,
                memory,
                dictionary,
                metrics,
                new_metrics,
                Ok(Some(output->Dictionary_0)),
            )
        },
        PayloadColumn::Plain(_) => output == column && new_metrics == metrics,
    }
}

/// The columns are compacted one after the other, with the metrics that the one before
/// leaves.
pub open spec fn column_steps<A, B, M>(
    build: B,
    memory: M,
    columns: Seq<PayloadColumn<A>>,
    output: Seq<PayloadColumn<A>>,
    counts: Seq<CompactionMetrics>,
) -> bool where
    B: Fn(&DataType, &Deduplicated) -> Result<(A, usize), ExecError>,
    M: Fn(MemoryRequest) -> bool,
 {
    &&& output.len() == columns.len()
    &&& counts.len() == columns.len() + 1
    &&& forall|i: int|
        0 <= i < columns.len() ==> column_step(
            build,
            memory,
            columns[i],
            #[trigger] output[i],
            counts[i],
            counts[i + 1],
        )
}

/// What compaction of columns leaves, starting with `metrics`.
pub open spec fn compacted_columns<A, B, M>(
    build: B,
    memory: M,
    columns: Seq<PayloadColumn<A>>,
    output: Seq<PayloadColumn<A>>,
    metrics: CompactionMetrics,
    new_metrics: CompactionMetrics,
) -> bool where
    B: Fn(&DataType, &Deduplicated) -> Result<(A, usize), ExecError>,
    M: Fn(MemoryRequest) -> bool,
 {
    exists|counts: Seq<CompactionMetrics>|
        {
            &&& #[trigger] column_steps(build, memory, columns, output, counts)
            &&& counts[0] == metrics
            &&& counts.last() == new_metrics
        }
}

/// Whether a column stays as it is, whatever memory there is.
pub open spec fn stays<A>(column: PayloadColumn<A>) -> bool {
    column matches PayloadColumn::Dictionary(dictionary) ==> left_alone(dictionary)
}

/// The number of dictionary values of a column.
pub open spec fn value_count<A>(column: PayloadColumn<A>) -> int {
    match column {
        PayloadColumn::Dictionary(dictionary) => dictionary.value_rows().len() as int,
        PayloadColumn::Plain(_) => 0,
    }
}

/// The number of dictionary values of all columns.
pub open spec fn value_total<A>(columns: Seq<PayloadColumn<A>>) -> int
    decreases columns.len(),
{
    if columns.len() == 0 {
        0
    } else {
        value_total(columns.drop_last()) + value_count(columns.last())
    }
}

/// The bytes that a column occupies after compaction beyond what it did before.
pub open spec fn column_growth<A>(column: PayloadColumn<A>, output: PayloadColumn<A>) -> int {
    match (column, output) {
        (PayloadColumn::Dictionary(dictionary), PayloadColumn::Dictionary(compacted)) => growth(
            dictionary.memory_size,
            compacted.memory_size,
        ),
        _ => 0,
    }
}

/// The bytes that all columns occupy after compaction beyond what they did before.
pub open spec fn growth_total<A>(
    columns: Seq<PayloadColumn<A>>,
    output: Seq<PayloadColumn<A>>,
) -> int
    decreases columns.len(),
{
    if columns.len() == 0 {
        0
    } else {
        growth_total(columns.drop_last(), output.drop_last()) + column_growth(
            columns.last(),
            output.last(),
        )
    }
}

proof fn lemma_step<A, B, M>(
    build: B,
    memory: M,
    column: PayloadColumn<A>,
    output: PayloadColumn<A>,
    metrics: CompactionMetrics,
    new_metrics: CompactionMetrics,
) where
    B: Fn(&DataType, &Deduplicated) -> Result<(A, usize), ExecError>,
    M: Fn(MemoryRequest) -> bool,

    requires
        column_step(build, memory, column, output, metrics, new_metrics),
    ensures
        settled(
            metrics,
            column_growth(column, output),
            value_count(column) - value_count(output),
            new_metrics,
        ),
        value_count(output) <= value_count(column),
        output != column ==> value_count(output) < value_count(column),
        value_count(output) == value_count(column) ==> output == column && new_metrics == metrics,
{
    lemma_wrapped_nothing(metrics);
    if let PayloadColumn::Dictionary(dictionary) = column {
        lemma_distinct_rows(dictionary.value_rows());
    }
}

proof fn lemma_wrapped_nothing(metrics: CompactionMetrics)
    ensures
        settled(metrics, 0, 0, metrics),
{
    vstd::arithmetic::div_mod::lemma_small_mod(
        metrics.build_mem_used as nat,
        (usize::MAX + 1) as nat,
    );
    vstd::arithmetic::div_mod::lemma_small_mod(
        metrics.build_dictionary_values_deduplicated as nat,
        (usize::MAX + 1) as nat,
    );
}

/// Compacts every dictionary of the columns that has repeated values, as far as `memory`
/// grants it. The columns, and whether any of them changed.
pub fn compact_dictionary_payloads<A, B, M>(
    columns: Vec<PayloadColumn<A>>,
    build: &B,
    memory: &M,
    metrics: &mut CompactionMetrics,
) -> (result: Result<(Vec<PayloadColumn<A>>, bool), ExecError>) where
    B: Fn(&DataType, &Deduplicated) -> Result<(A, usize), ExecError>,
    M: Fn(MemoryRequest) -> bool,

    requires
        forall|i: int| 0 <= i < columns@.len() ==> (#[trigger] columns@[i]).wf(),
        forall|key_type: &DataType, compacted: &Deduplicated|
            call_requires(*build, (key_type, compacted)),
        forall|request: MemoryRequest| call_requires(*memory, (request,)),
    ensures
        (forall|i: int| 0 <= i < columns@.len() ==> stays(#[trigger] columns@[i])) ==> result is Ok
            && result->Ok_0.0@ == columns@ && *final(metrics) == *old(metrics),
        match result {
            Ok((output, changed)) => {
                &&& compacted_columns(
                    *build,
                    *memory,
                    columns@,
                    output@,
                    *old(metrics),
                    *final(metrics),
                )
                &&& changed == (output@ != columns@)
                &&& changed == (value_total(output@) < value_total(columns@))
                &&& !changed ==> *final(metrics) == *old(metrics)
                &&& settled(
                    *old(metrics),
                    growth_total(columns@, output@),
                    value_total(columns@) - value_total(output@),
                    *final(metrics),
                )
            },
            Err(error) => exists|at: int, before: Seq<PayloadColumn<A>>|
                {
                    &&& 0 <= at < columns@.len()
                    &&& #[trigger] compacted_columns(
                        *build,
                        *memory,
                        columns@.take(at),
                        before,
                        *old(metrics),
                        *final(metrics),
                    )
                    &&& columns@[at] is Dictionary
                    &&& compaction(
                        *build,
                        *memory,
                        columns@[at]->Dictionary_0,
                        *final(metrics),
                        *final(metrics),
                        Err(error),
                    )
                },
        },
{
    let ghost before = columns@;
    let ghost metrics0 = *metrics;
    let ghost mut counts: Seq<CompactionMetrics> = seq![*metrics];
    let mut output: Vec<PayloadColumn<A>> = columns;
    let mut changed: bool = false;
    let mut i: usize = 0;
    proof {
        assert(before.take(0) =~= Seq::empty());
        assert(output@.take(0) =~= Seq::empty());
        lemma_wrapped_nothing(*metrics);
    }
    while i < output.len()
        invariant
            i <= output@.len(),
            before == columns@,
            output@.len() == before.len(),
            forall|k: int| 0 <= k < before.len() ==> (#[trigger] before[k]).wf(),
            forall|k: int| i <= k < before.len() ==> #[trigger] output@[k] == before[k],
            forall|key_type: &DataType, compacted: &Deduplicated|
                call_requires(*build, (key_type, compacted)),
            forall|request: MemoryRequest| call_requires(*memory, (request,)),
            metrics0 == *old(metrics),
            column_steps(
                *build,
                *memory,
                before.take(i as int),
                output@.take(i as int),
                counts,
            ),
            counts[0] == metrics0,
            counts.last() == *metrics,
            settled(
                metrics0,
                growth_total(before.take(i as int), output@.take(i as int)),
                value_total(before.take(i as int)) - value_total(output@.take(i as int)),
                *metrics,
            ),
            value_total(output@.take(i as int)) <= value_total(before.take(i as int)),
            changed == (value_total(output@.take(i as int)) < value_total(before.take(i as int))),
            changed == (output@.take(i as int) != before.take(i as int)),
            !changed ==> *metrics == metrics0,
            (forall|k: int| 0 <= k < before.len() ==> stays(#[trigger] before[k])) ==> !changed,
        decreases output@.len() - i,
    {
        let ghost metrics1 = *metrics;
        let ghost output1 = output@;
        assert(output@[i as int] == before[i as int] && before[i as int].wf());
        let compacted: Option<DictionaryPayload<A>> = match &output[i] {
            PayloadColumn::Dictionary(dictionary) => match compact_dictionary(
                dictionary,
                build,
                memory,
                metrics,
            ) {
                Ok(compacted) => compacted,
                Err(error) => {
                    proof {
                        assert(!stays(before[i as int]));
                        assert(compaction(
                            *build,
                            *memory,
                            before[i as int]->Dictionary_0,
                            *metrics,
                            *metrics,
                            Err(error),
                        ));
                        assert(column_steps(
                            *build,
                            *memory,
                            before.take(i as int),
                            output@.take(i as int),
                            counts,
                        ));
                        assert(compacted_columns(
                            *build,
                            *memory,
                            before.take(i as int),
                            output@.take(i as int),
                            metrics0,
                            *metrics,
                        ));
                    }
                    return Err(error);
                },
            },
            PayloadColumn::Plain(_) => None,
        };
        if let Some(compacted) = compacted {
            output[i] = PayloadColumn::Dictionary(compacted);
            changed = true;
        }
        proof {
            let column = before[i as int];
            let now = output@[i as int];
            assert(column_step(*build, *memory, column, now, metrics1, *metrics));
            lemma_step(*build, *memory, column, now, metrics1, *metrics);
            lemma_wrapped_twice(
                metrics0.build_mem_used + growth_total(
                    before.take(i as int),
                    output1.take(i as int),
                ),
                column_growth(column, now),
            );
            lemma_wrapped_twice(
                metrics0.build_dictionary_values_deduplicated + (value_total(before.take(i as int))
                    - value_total(output1.take(i as int))),
                value_count(column) - value_count(now),
            );
            let longer = before.take(i + 1);
            let done = output@.take(i + 1);
            assert(longer.drop_last() =~= before.take(i as int));
            assert(done.drop_last() =~= output1.take(i as int));
            counts = counts.push(*metrics);
            assert forall|k: int| 0 <= k < longer.len() implies column_step(
                *build,
                *memory,
                longer[k],
                #[trigger] done[k],
                counts[k],
                counts[k + 1],
            ) by {
                if k < i {
                    assert(output1.take(i as int)[k] == done[k]);
                    assert(before.take(i as int)[k] == longer[k]);
                }
            }
            if done == longer {
                assert(done.drop_last() == longer.drop_last());
                assert(done.last() == longer.last());
            } else if output1.take(i as int) == before.take(i as int) && now == column {
                assert(done =~= longer);
            }
        }
        i = i + 1;
    }
    proof {
        assert(before.take(i as int) =~= before);
        assert(output@.take(i as int) =~= output@);
        assert(column_steps(*build, *memory, before, output@, counts));
    }
    Ok((output, changed))
}

/// Compaction changes no row and no type: a column stays the one that it was, or becomes a
/// dictionary with the same rows, the same type of keys and values of the same type.
pub proof fn law_compaction_keeps_rows<A, B, M>(
    build: B,
    memory: M,
    columns: Seq<PayloadColumn<A>>,
    output: Seq<PayloadColumn<A>>,
    metrics: CompactionMetrics,
    new_metrics: CompactionMetrics,
    i: int,
) where
    B: Fn(&DataType, &Deduplicated) -> Result<(A, usize), ExecError>,
    M: Fn(MemoryRequest) -> bool,

    requires
        compacted_columns(build, memory, columns, output, metrics, new_metrics),
        0 <= i < columns.len(),
    ensures
        output.len() == columns.len(),
        output[i] == columns[i] || match (columns[i], output[i]) {
            (PayloadColumn::Dictionary(dictionary), PayloadColumn::Dictionary(compacted)) => {
                &&& compacted.rows() == dictionary.rows()
                &&& compacted.key_type == dictionary.key_type
                &&& arrays::kind_of(compacted.values) == arrays::kind_of(dictionary.values)
            },
            _ => false,
        },
{
    let counts = choose|counts: Seq<CompactionMetrics>|
        {
            &&& #[trigger] column_steps(build, memory, columns, output, counts)
            &&& counts[0] == metrics
            &&& counts.last() == new_metrics
        };
    assert(column_step(build, memory, columns[i], output[i], counts[i], counts[i + 1]));
}

/// Where no memory is granted, no column is compacted.
pub proof fn law_no_memory_no_compaction<A, B, M>(
    build: B,
    memory: M,
    dictionary: DictionaryPayload<A>,
    metrics: CompactionMetrics,
    new_metrics: CompactionMetrics,
    result: Result<Option<DictionaryPayload<A>>, ExecError>,
) where
    B: Fn(&DataType, &Deduplicated) -> Result<(A, usize), ExecError>,
    M: Fn(MemoryRequest) -> bool,

    requires
        forall|bytes: usize|
            !(#[trigger] call_ensures(memory, (MemoryRequest::Scratch(bytes),), true)),
        compaction(build, memory, dictionary, metrics, new_metrics, result),
    ensures
        !(result matches Ok(Some(_))),
        new_metrics == metrics,
{
}

/// Memory that is used up grants no bytes.
pub proof fn law_full_memory_grants_nothing(budget: MemoryBudget, bytes: usize)
    requires
        budget.used >= budget.limit,
        bytes > 0,
    ensures
        !budget.grants(MemoryRequest::Scratch(bytes)),
        !budget.grants(MemoryRequest::Build(bytes)),
{
}

/// Compaction keeps every value once and no other.
pub proof fn law_values_are_kept_once(rows: Seq<Option<Seq<u8>>>)
    ensures
        arrays::distinct_rows(rows).no_duplicates(),
        forall|value: Option<Seq<u8>>| #[trigger]
            arrays::distinct_rows(rows).contains(value) <==> rows.contains(value),
    decreases rows.len(),
{
    if rows.len() > 0 {
        let shorter = rows.drop_last();
        let last = rows.last();
        let before = arrays::distinct_rows(shorter);
        law_values_are_kept_once(shorter);
        assert forall|value: Option<Seq<u8>>| #[trigger]
            arrays::distinct_rows(rows).contains(value) <==> rows.contains(value) by {
            if rows.contains(value) {
                let i = choose|i: int| 0 <= i < rows.len() && rows[i] == value;
                if i < shorter.len() {
                    assert(shorter[i] == value);
                    assert(shorter.contains(value));
                    assert(before.contains(value));
                    let k = choose|k: int| 0 <= k < before.len() && before[k] == value;
                    assert(arrays::distinct_rows(rows)[k] == value);
                } else if !before.contains(last) {
                    assert(arrays::distinct_rows(rows)[before.len() as int] == value);
                } else {
                    assert(arrays::distinct_rows(rows) == before);
                }
            }
            if arrays::distinct_rows(rows).contains(value) {
                let k = choose|k: int|
                    0 <= k < arrays::distinct_rows(rows).len() && arrays::distinct_rows(rows)[k]
                        == value;
                if k < before.len() {
                    assert(before[k] == value);
                    assert(before.contains(value));
                    assert(shorter.contains(value));
                    let i = choose|i: int| 0 <= i < shorter.len() && shorter[i] == value;
                    assert(rows[i] == value);
                } else {
                    assert(rows[rows.len() - 1] == value);
                }
            }
        }
    }
}

/// Compacting a second time changes nothing: no value of a compacted column is a
/// repeat.
pub proof fn law_compaction_is_idempotent(rows: Seq<Option<Seq<u8>>>)
    ensures
        arrays::distinct_rows(arrays::distinct_rows(rows)) == arrays::distinct_rows(rows),
{
    law_values_are_kept_once(rows);
    lemma_distinct_of_distinct(arrays::distinct_rows(rows));
}

proof fn lemma_distinct_of_distinct(rows: Seq<Option<Seq<u8>>>)
    requires
        rows.no_duplicates(),
    ensures
        arrays::distinct_rows(rows) == rows,
    decreases rows.len(),
{
    if rows.len() > 0 {
        let shorter = rows.drop_last();
        assert(shorter.no_duplicates());
        lemma_distinct_of_distinct(shorter);
        assert(!shorter.contains(rows.last()));
        assert(shorter.push(rows.last()) =~= rows);
    }
}

/// Every row keeps its value: a row that is null stays null, and any other refers to the
/// same bytes as before. The values are those of before, each once, of the same type; and
/// the array was built of these keys and values, for the same type of keys.
pub proof fn law_compacted_rows_have_their_values<A, B, M>(
    build: B,
    memory: M,
    dictionary: DictionaryPayload<A>,
    metrics: CompactionMetrics,
    new_metrics: CompactionMetrics,
    output: DictionaryPayload<A>,
    row: int,
) where
    B: Fn(&DataType, &Deduplicated) -> Result<(A, usize), ExecError>,
    M: Fn(MemoryRequest) -> bool,

    requires
        compaction(build, memory, dictionary, metrics, new_metrics, Ok(Some(output))),
        0 <= row < dictionary.keys@.len(),
    ensures
        ({
            let values = arrays::array_rows(dictionary.values);
            let kept = arrays::array_rows(output.values);
            &&& output.keys@.len() == dictionary.keys@.len()
            &&& match (dictionary.keys@[row], output.keys@[row]) {
                (Some(key), Some(new_key)) => new_key < kept.len() && kept[new_key as int]
                    == values[key as int],
                (None, None) => true,
                _ => false,
            }
            &&& kept.no_duplicates()
            &&& forall|value: Option<Seq<u8>>| #[trigger]
                kept.contains(value) <==> values.contains(value)
            &&& kept.len() < values.len()
            &&& arrays::kind_of(output.values) == arrays::kind_of(dictionary.values)
            &&& output.key_type == dictionary.key_type
            &&& exists|compacted: Deduplicated| #[trigger]
                call_ensures(
                    build,
                    (&dictionary.key_type, &compacted),
                    Ok((output.array, output.memory_size)),
                ) && compacted.keys@ == output.keys@ && compacted.values == output.values
        }),
{
    let values = arrays::array_rows(dictionary.values);
    law_values_are_kept_once(values);
    lemma_distinct_rows(values);
    let (compacted, extra) = choose|compacted: Deduplicated, extra: usize|
        {
            &&& compacts(dictionary, compacted)
            &&& #[trigger] built(build, dictionary, compacted, output)
            &&& extra == growth(dictionary.memory_size, output.memory_size)
            &&& #[trigger] call_ensures(memory, (MemoryRequest::Build(extra),), true)
        };
    assert(built(build, dictionary, compacted, output));
    let kept = arrays::array_rows(output.values);
    assert(decoded(compacted.keys@, kept)[row] == dictionary.rows()[row]);
    assert(compacted.keys@[row] is None <==> dictionary.keys@[row] is None);
    if compacted.keys@[row] is Some {
        assert(compacted.keys@[row]->0 < kept.len());
    }
}

/// In each column every row keeps its value, whether or not the column was compacted.
pub proof fn law_columns_keep_their_values<A, B, M>(
    build: B,
    memory: M,
    columns: Seq<PayloadColumn<A>>,
    output: Seq<PayloadColumn<A>>,
    metrics: CompactionMetrics,
    new_metrics: CompactionMetrics,
    i: int,
    row: int,
) where
    B: Fn(&DataType, &Deduplicated) -> Result<(A, usize), ExecError>,
    M: Fn(MemoryRequest) -> bool,

    requires
        compacted_columns(build, memory, columns, output, metrics, new_metrics),
        0 <= i < columns.len(),
        columns[i] matches PayloadColumn::Dictionary(dictionary) ==> 0 <= row
            < dictionary.keys@.len(),
    ensures
        output.len() == columns.len(),
        output[i] == columns[i] || match (columns[i], output[i]) {
            (PayloadColumn::Dictionary(dictionary), PayloadColumn::Dictionary(compacted)) => {
                &&& compacted.keys@.len() == dictionary.keys@.len()
                &&& match (dictionary.keys@[row], compacted.keys@[row]) {
                    (Some(key), Some(new_key)) => arrays::array_rows(
                        compacted.values,
                    )[new_key as int] == arrays::array_rows(dictionary.values)[key as int],
                    (None, None) => true,
                    _ => false,
                }
            },
            _ => false,
        },
{
    let counts = choose|counts: Seq<CompactionMetrics>|
        {
            &&& #[trigger] column_steps(build, memory, columns, output, counts)
            &&& counts[0] == metrics
            &&& counts.last() == new_metrics
        };
    assert(column_step(build, memory, columns[i], output[i], counts[i], counts[i + 1]));
    if output[i] != columns[i] {
        law_compacted_rows_have_their_values(
            build,
            memory,
            columns[i]->Dictionary_0,
            counts[i],
            counts[i + 1],
            output[i]->Dictionary_0,
            row,
        );
    }
}

/// A column is left as it is exactly where it has no rows or fewer than two values, where
/// its values are no byte strings or strings or one of them is null, and where its keys
/// cannot number the values.
pub proof fn law_columns_left_alone<A>(dictionary: DictionaryPayload<A>)
    ensures
        ({
            let values = arrays::array_rows(dictionary.values);
            left_alone(dictionary) <==> {
                ||| dictionary.keys@.len() == 0
                ||| values.len() < 2
                ||| arrays::kind_of(dictionary.values) != arrays::ArrayKind::Binary
                    && arrays::kind_of(dictionary.values) != arrays::ArrayKind::Utf8
                ||| values.contains(None)
                ||| values.len() > match dictionary.key_type {
                    DataType::Int8 => i8::MAX + 1,
                    DataType::Int16 => i16::MAX + 1,
                    DataType::Int32 => i32::MAX + 1,
                    DataType::Int64 => i64::MAX + 1,
                    DataType::UInt8 => u8::MAX + 1,
                    DataType::UInt16 => u16::MAX + 1,
                    DataType::UInt32 => u32::MAX + 1,
                    DataType::UInt64 => u64::MAX + 1,
                    _ => 0,
                }
            }
        }),
{
    let values = arrays::array_rows(dictionary.values);
    if values.contains(None) {
        let i = choose|i: int| 0 <= i < values.len() && values[i] is None;
        assert(values[i] is None);
    }
}

/// The repeats are the values beyond the different ones: there are none exactly where no two
/// values are equal.
pub proof fn law_repeats_are_values_beyond_the_different_ones<A>(dictionary: DictionaryPayload<A>)
    ensures
        ({
            let values = arrays::array_rows(dictionary.values);
            &&& repeats(dictionary) == values.len() - values.to_set().len()
            &&& repeats(dictionary) == 0 <==> values.no_duplicates()
        }),
{
    let values = arrays::array_rows(dictionary.values);
    let different = arrays::distinct_rows(values);
    law_values_are_kept_once(values);
    assert(different.to_set() =~= values.to_set()) by {
        assert forall|value: Option<Seq<u8>>| different.to_set().contains(value)
            <==> values.to_set().contains(value) by {
            assert(different.contains(value) <==> values.contains(value));
        }
    }
    different.unique_seq_to_set();
    if values.no_duplicates() {
        lemma_distinct_of_distinct(values);
    }
    if repeats(dictionary) == 0 {
        values.lemma_no_dup_set_cardinality();
    }
}

/// Where nothing refuses, a column with two equal values is compacted: memory is granted
/// whenever it is asked for, arrays can be built, and the bytes needed fit the type.
pub proof fn law_repeats_are_dropped_where_nothing_refuses<A, B, M>(
    build: B,
    memory: M,
    dictionary: DictionaryPayload<A>,
    metrics: CompactionMetrics,
    new_metrics: CompactionMetrics,
    result: Result<Option<DictionaryPayload<A>>, ExecError>,
    i: int,
    j: int,
) where
    B: Fn(&DataType, &Deduplicated) -> Result<(A, usize), ExecError>,
    M: Fn(MemoryRequest) -> bool,

    requires
        compaction(build, memory, dictionary, metrics, new_metrics, result),
        !left_alone(dictionary),
        !too_large(dictionary.memory_size, arrays::array_rows(dictionary.values).len() as int),
        0 <= i < j < arrays::array_rows(dictionary.values).len(),
        arrays::array_rows(dictionary.values)[i] == arrays::array_rows(dictionary.values)[j],
        forall|request: MemoryRequest| !(#[trigger] call_ensures(memory, (request,), false)),
        forall|compacted: Deduplicated, error: ExecError|
            !(#[trigger] call_ensures(build, (&dictionary.key_type, &compacted), Err(error))),
    ensures
        result matches Ok(Some(_)),
{
    law_repeats_are_values_beyond_the_different_ones(dictionary);
    match result {
        Ok(None) => {
            if !scratch_asked(memory, dictionary, false) {
                let output = choose|output: DictionaryPayload<A>| #[trigger]
                    made(build, memory, dictionary, output, false);
                let (compacted, extra) = choose|compacted: Deduplicated, extra: usize|
                    {
                        &&& compacts(dictionary, compacted)
                        &&& #[trigger] built(build, dictionary, compacted, output)
                        &&& extra == growth(dictionary.memory_size, output.memory_size)
                        &&& #[trigger] call_ensures(
                            memory,
                            (MemoryRequest::Build(extra),),
                            false,
                        )
                    };
                assert(call_ensures(memory, (MemoryRequest::Build(extra),), false));
            }
        },
        Err(error) => {
            if !(error is CompactionSize && too_large(
                dictionary.memory_size,
                dictionary.value_rows().len() as int,
            )) {
                let compacted = choose|compacted: Deduplicated| #[trigger]
                    compacts(dictionary, compacted) && call_ensures(
                        build,
                        (&dictionary.key_type, &compacted),
                        Err(error),
                    );
                assert(call_ensures(build, (&dictionary.key_type, &compacted), Err(error)));
            }
        },
        Ok(Some(_)) => {},
    }
}

/// The memory to work with is that of two copies of the column and of a table with 17 bytes
/// for each bucket. The buckets are the least power of two of which seven eighths hold the
/// values, or 1024 entries where those are more.
pub proof fn law_scratch_is_two_copies_and_a_table(memory_size: usize, values: int)
    requires
        values >= 0,
    ensures
        ({
            let entries = if values >= 1024 {
                values
            } else {
                1024
            };
            let need = scratch_need(memory_size as int, values);
            &&& exists|k: nat| need == 2 * memory_size + 17 * #[trigger] vstd::arithmetic::power2::pow2(
                k,
            ) && entries * 8 / 7 <= vstd::arithmetic::power2::pow2(k) < 2 * (entries * 8 / 7)
            &&& too_large(memory_size, values) <==> 2 * memory_size > usize::MAX || values * 8
                > usize::MAX || need > usize::MAX
        }),
{
    let entries = if values >= 1024 {
        values
    } else {
        1024
    };
    let buckets = arith::power_of_two_at_least(entries * 8 / 7);
    arith::law_rounding_up_gives_the_next_power_of_two(entries * 8 / 7);
    let k = choose|k: nat| buckets == #[trigger] vstd::arithmetic::power2::pow2(k);
    assert(scratch_need(memory_size as int, values) == 2 * memory_size + 17
        * vstd::arithmetic::power2::pow2(k));
}

/// The metrics of a compacted column count the values that are gone and the bytes by which
/// the column grew, none where it shrank; those of any other column count nothing.
pub proof fn law_metrics_count_what_is_gone<A, B, M>(
    build: B,
    memory: M,
    dictionary: DictionaryPayload<A>,
    metrics: CompactionMetrics,
    new_metrics: CompactionMetrics,
    result: Result<Option<DictionaryPayload<A>>, ExecError>,
) where
    B: Fn(&DataType, &Deduplicated) -> Result<(A, usize), ExecError>,
    M: Fn(MemoryRequest) -> bool,

    requires
        compaction(build, memory, dictionary, metrics, new_metrics, result),
        metrics.build_dictionary_values_deduplicated + arrays::array_rows(dictionary.values).len()
            <= usize::MAX,
        result matches Ok(Some(output)) ==> metrics.build_mem_used + output.memory_size
            <= usize::MAX,
    ensures
        match result {
            Ok(Some(output)) => {
                &&& new_metrics.build_dictionary_values_deduplicated
                    == metrics.build_dictionary_values_deduplicated + (arrays::array_rows(
                    dictionary.values,
                ).len() - arrays::array_rows(output.values).len())
                &&& new_metrics.build_mem_used == metrics.build_mem_used + (
                if output.memory_size >= dictionary.memory_size {
                    output.memory_size - dictionary.memory_size
                } else {
                    0
                })
            },
            _ => new_metrics == metrics,
        },
{
    if let Ok(Some(output)) = result {
        lemma_distinct_rows(dictionary.value_rows());
        let extra = growth(dictionary.memory_size, output.memory_size);
        vstd::arithmetic::div_mod::lemma_small_mod(
            (metrics.build_mem_used + extra) as nat,
            (usize::MAX + 1) as nat,
        );
        vstd::arithmetic::div_mod::lemma_small_mod(
            (metrics.build_dictionary_values_deduplicated + repeats(dictionary)) as nat,
            (usize::MAX + 1) as nat,
        );
    }
}

/// Bytes are granted exactly where what is in use and they together stay within the limit,
/// and giving back is always granted.
pub proof fn law_memory_is_granted_within_the_limit(budget: MemoryBudget, bytes: usize)
    ensures
        budget.grants(MemoryRequest::Scratch(bytes)) <==> budget.used + bytes <= budget.limit,
        budget.grants(MemoryRequest::Build(bytes)) <==> budget.used + bytes <= budget.limit,
        budget.grants(MemoryRequest::Release(bytes)),
{
}

/// What is asked of the memory is what the column needs: the bytes to work with first, the
/// same bytes given back, and for a column that is replaced the bytes by which it grew.
pub proof fn law_requests_are_what_the_column_needs<A, B, M>(
    build: B,
    memory: M,
    dictionary: DictionaryPayload<A>,
    metrics: CompactionMetrics,
    new_metrics: CompactionMetrics,
    output: DictionaryPayload<A>,
) where
    B: Fn(&DataType, &Deduplicated) -> Result<(A, usize), ExecError>,
    M: Fn(MemoryRequest) -> bool,

    requires
        compaction(build, memory, dictionary, metrics, new_metrics, Ok(Some(output))),
    ensures
        ({
            let need = scratch_need(
                dictionary.memory_size as int,
                arrays::array_rows(dictionary.values).len() as int,
            );
            &&& need <= usize::MAX
            &&& call_ensures(memory, (MemoryRequest::Scratch(need as usize),), true)
            &&& call_ensures(memory, (MemoryRequest::Release(need as usize),), true)
                || call_ensures(memory, (MemoryRequest::Release(need as usize),), false)
            &&& call_ensures(
                memory,
                (MemoryRequest::Build(
                    (if output.memory_size >= dictionary.memory_size {
                        output.memory_size - dictionary.memory_size
                    } else {
                        0
                    }) as usize,
                ),),
                true,
            )
        }),
{
}

/// Values are kept in the order in which they come first: before the first row with a kept
/// value there are only values that are kept before it.
pub proof fn law_values_keep_their_order(rows: Seq<Option<Seq<u8>>>, k: int)
    requires
        0 <= k < arrays::distinct_rows(rows).len(),
    ensures
        exists|i: int|
            0 <= i < rows.len() && #[trigger] rows[i] == arrays::distinct_rows(rows)[k]
                && forall|j: int|
                0 <= j < i ==> arrays::distinct_rows(rows).take(k).contains(#[trigger] rows[j]),
    decreases rows.len(),
{
    let kept = arrays::distinct_rows(rows);
    if rows.len() > 0 {
        let shorter = rows.drop_last();
        let before = arrays::distinct_rows(shorter);
        law_values_are_kept_once(shorter);
        if k < before.len() {
            law_values_keep_their_order(shorter, k);
            let i = choose|i: int|
                0 <= i < shorter.len() && #[trigger] shorter[i] == before[k] && forall|j: int|
                    0 <= j < i ==> before.take(k).contains(#[trigger] shorter[j]);
            assert(rows[i] == kept[k]);
            assert(kept.take(k) =~= before.take(k));
            assert forall|j: int| 0 <= j < i implies kept.take(k).contains(#[trigger] rows[j]) by {
                assert(before.take(k).contains(shorter[j]));
            }
        } else {
            let i = rows.len() - 1;
            assert(rows[i] == kept[k]);
            assert(kept.take(k) =~= before);
            assert forall|j: int| 0 <= j < i implies kept.take(k).contains(#[trigger] rows[j]) by {
                assert(shorter.contains(shorter[j]));
                assert(before.contains(shorter[j]));
            }
        }
    }
}

/// Deduplicating keeps the value of each row and each value once, and gives nothing exactly
/// where no value is repeated.
pub proof fn law_deduplicated_rows_have_their_values<A>(
    dictionary: &DictionaryPayload<A>,
    result: Result<Option<Deduplicated>, ExecError>,
    row: int,
)
    requires
        dictionary.wf(),
        !left_alone(*dictionary),
        call_ensures(deduplicate::<A>, (dictionary,), result),
        0 <= row < dictionary.keys@.len(),
    ensures
        result is Ok,
        ({
            let values = arrays::array_rows(dictionary.values);
            match result->Ok_0 {
                None => values.no_duplicates(),
                Some(compacted) => {
                    let kept = arrays::array_rows(compacted.values);
                    &&& !values.no_duplicates()
                    &&& kept.no_duplicates()
                    &&& forall|value: Option<Seq<u8>>| #[trigger]
                        kept.contains(value) <==> values.contains(value)
                    &&& compacted.keys@.len() == dictionary.keys@.len()
                    &&& match (dictionary.keys@[row], compacted.keys@[row]) {
                        (Some(key), Some(new_key)) => new_key < kept.len() && kept[new_key as int]
                            == values[key as int],
                        (None, None) => true,
                        _ => false,
                    }
                },
            }
        }),
{
    let values = arrays::array_rows(dictionary.values);
    law_repeats_are_values_beyond_the_different_ones(*dictionary);
    law_values_are_kept_once(values);
    if let Ok(Some(compacted)) = result {
        let kept = arrays::array_rows(compacted.values);
        assert(decoded(compacted.keys@, kept)[row] == dictionary.rows()[row]);
        assert(compacted.keys@[row] is None <==> dictionary.keys@[row] is None);
        if compacted.keys@[row] is Some {
            assert(compacted.keys@[row]->0 < kept.len());
        }
    }
}

/// Compacting a column keeps the value of each row, drops exactly the repeats and counts
/// them. A column with nothing to compact gives nothing and leaves the metrics.
pub proof fn law_compacting_keeps_each_row<A, B, M>(
    dictionary: &DictionaryPayload<A>,
    build: &B,
    memory: &M,
    metrics: &mut CompactionMetrics,
    result: Result<Option<DictionaryPayload<A>>, ExecError>,
    row: int,
) where
    B: Fn(&DataType, &Deduplicated) -> Result<(A, usize), ExecError>,
    M: Fn(MemoryRequest) -> bool,

    requires
        dictionary.wf(),
        forall|key_type: &DataType, compacted: &Deduplicated|
            call_requires(*build, (key_type, compacted)),
        forall|request: MemoryRequest| call_requires(*memory, (request,)),
        call_ensures(
            compact_dictionary::<A, B, M>,
            (dictionary, build, memory, metrics),
            result,
        ),
        0 <= row < dictionary.keys@.len(),
        old(metrics).build_dictionary_values_deduplicated + arrays::array_rows(
            dictionary.values,
        ).len() <= usize::MAX,
    ensures
        ({
            let values = arrays::array_rows(dictionary.values);
            match result {
                Ok(Some(output)) => {
                    let kept = arrays::array_rows(output.values);
                    &&& output.keys@.len() == dictionary.keys@.len()
                    &&& match (dictionary.keys@[row], output.keys@[row]) {
                        (Some(key), Some(new_key)) => new_key < kept.len() && kept[new_key as int]
                            == values[key as int],
                        (None, None) => true,
                        _ => false,
                    }
                    &&& kept.no_duplicates()
                    &&& forall|value: Option<Seq<u8>>| #[trigger]
                        kept.contains(value) <==> values.contains(value)
                    &&& output.key_type == dictionary.key_type
                    &&& final(metrics).build_dictionary_values_deduplicated == old(metrics).build_dictionary_values_deduplicated + (values.len() - kept.len())
                },
                _ => *final(metrics) == *old(metrics),
            }
        }),
        arrays::array_rows(dictionary.values).no_duplicates() ==> !(result matches Ok(Some(_))),
        arrays::array_rows(dictionary.values).len() < 2 ==> (result matches Ok(None)),
        arrays::array_rows(dictionary.values).contains(None) ==> (result matches Ok(None)),
{
    law_columns_left_alone(*dictionary);
    law_repeats_are_values_beyond_the_different_ones(*dictionary);
    if let Ok(Some(output)) = result {
        law_compacted_rows_have_their_values(
            *build,
            *memory,
            *dictionary,
            *old(metrics),
            *final(metrics),
            output,
            row,
        );
        lemma_distinct_rows(dictionary.value_rows());
        vstd::arithmetic::div_mod::lemma_small_mod(
            (old(metrics).build_dictionary_values_deduplicated + repeats(*dictionary)) as nat,
            (usize::MAX + 1) as nat,
        );
    }
}

/// Compacting columns keeps their number and order and the value of each row of each of
/// them. They are told to have changed exactly where one of them is not what it was.
pub proof fn law_compacting_columns_keeps_each_row<A, B, M>(
    columns: Vec<PayloadColumn<A>>,
    build: &B,
    memory: &M,
    metrics: &mut CompactionMetrics,
    output: Vec<PayloadColumn<A>>,
    changed: bool,
    i: int,
    row: int,
) where
    B: Fn(&DataType, &Deduplicated) -> Result<(A, usize), ExecError>,
    M: Fn(MemoryRequest) -> bool,

    requires
        forall|k: int| 0 <= k < columns@.len() ==> (#[trigger] columns@[k]).wf(),
        forall|key_type: &DataType, compacted: &Deduplicated|
            call_requires(*build, (key_type, compacted)),
        forall|request: MemoryRequest| call_requires(*memory, (request,)),
        call_ensures(
            compact_dictionary_payloads::<A, B, M>,
            (columns, build, memory, metrics),
            Ok((output, changed)),
        ),
        0 <= i < columns@.len(),
        columns@[i] matches PayloadColumn::Dictionary(dictionary) ==> 0 <= row
            < dictionary.keys@.len(),
    ensures
        output@.len() == columns@.len(),
        output@[i] == columns@[i] || match (columns@[i], output@[i]) {
            (PayloadColumn::Dictionary(dictionary), PayloadColumn::Dictionary(compacted)) => {
                &&& compacted.keys@.len() == dictionary.keys@.len()
                &&& match (dictionary.keys@[row], compacted.keys@[row]) {
                    (Some(key), Some(new_key)) => arrays::array_rows(
                        compacted.values,
                    )[new_key as int] == arrays::array_rows(dictionary.values)[key as int],
                    (None, None) => true,
                    _ => false,
                }
            },
            _ => false,
        },
        changed <==> exists|k: int|
            0 <= k < columns@.len() && #[trigger] output@[k] != columns@[k],
        !changed ==> output@ == columns@ && *final(metrics) == *old(metrics),
{
    law_columns_keep_their_values(
        *build,
        *memory,
        columns@,
        output@,
        *old(metrics),
        *final(metrics),
        i,
        row,
    );
    if forall|k: int| 0 <= k < columns@.len() ==> #[trigger] output@[k] == columns@[k] {
        assert(output@ =~= columns@);
    }
}

/// Memory is granted where what is in use and what is asked for stay within the limit, and
/// what is in use then grows by it. What is not granted changes nothing, and what is given
/// back is in use no more.
pub proof fn law_memory_in_use_is_what_was_granted(
    grown: &mut MemoryBudget,
    bytes: usize,
    granted: bool,
    shrunk: &mut MemoryBudget,
    asked: &mut MemoryBudget,
    request: MemoryRequest,
    answered: bool,
)
    requires
        call_ensures(MemoryBudget::try_grow, (grown, bytes), granted),
        granted ==> *old(shrunk) == *final(grown),
        granted ==> call_ensures(MemoryBudget::shrink, (shrunk, bytes), ()),
        request matches MemoryRequest::Release(given) ==> given <= old(asked).used,
        call_ensures(MemoryBudget::answer, (asked, request), answered),
    ensures
        granted <==> old(grown).used + bytes <= old(grown).limit,
        final(grown).limit == old(grown).limit,
        final(grown).used == old(grown).used + if granted {
            bytes as int
        } else {
            0
        },
        granted ==> final(shrunk).used == old(grown).used && final(shrunk).limit
            == old(grown).limit,
        final(asked).limit == old(asked).limit,
        match request {
            MemoryRequest::Scratch(more) | MemoryRequest::Build(more) => (answered <==> old(asked).used + more <= old(asked).limit) && final(asked).used == old(asked).used + (
            if answered {
                more as int
            } else {
                0
            }),
            MemoryRequest::Release(less) => answered && final(asked).used == old(asked).used
                - less,
        },
{
}

/// A key is one of its type where it is at most the greatest number of the type, and the
/// bytes to work with are those of two copies and of the table, where they can be counted.
pub proof fn law_keys_and_bytes_fit_their_types<A>(
    key_type: &DataType,
    key: usize,
    fits: bool,
    memory_size: usize,
    values: usize,
    scratch: Result<usize, ExecError>,
    dictionary: &DictionaryPayload<A>,
    start: Result<Option<usize>, ExecError>,
    own: Result<usize, ExecError>,
)
    requires
        call_ensures(fits_key, (key_type, key), fits),
        call_ensures(scratch_bytes, (memory_size, values), scratch),
        call_ensures(begin::<A>, (dictionary,), start),
        arrays::array_rows(dictionary.values).len() <= usize::MAX,
        call_ensures(
            scratch_bytes,
            (dictionary.memory_size, arrays::array_rows(dictionary.values).len() as usize),
            own,
        ),
    ensures
        fits <==> match *key_type {
            DataType::Int8 => key <= i8::MAX,
            DataType::Int16 => key <= i16::MAX,
            DataType::Int32 => key <= i32::MAX,
            DataType::Int64 => key <= i64::MAX,
            DataType::UInt8 => key <= u8::MAX,
            DataType::UInt16 => key <= u16::MAX,
            DataType::UInt32 => key <= u32::MAX,
            DataType::UInt64 => true,
            _ => false,
        },
        scratch matches Ok(bytes) ==> exists|k: nat|
            bytes == 2 * memory_size + 17 * #[trigger] vstd::arithmetic::power2::pow2(k) && ({
                let entries = if values >= 1024 {
                    values as int
                } else {
                    1024
                };
                entries * 8 / 7 <= vstd::arithmetic::power2::pow2(k) < 2 * (entries * 8 / 7)
            }),
        scratch is Err ==> scratch->Err_0 is CompactionSize,
        start matches Ok(Some(bytes)) ==> own == Ok::<usize, ExecError>(bytes),
        start is Err ==> own is Err && start->Err_0 is CompactionSize,
{
    law_scratch_is_two_copies_and_a_table(memory_size, values as int);
}

/// The metrics of several columns add up.
pub proof fn law_settled_metrics_add_up(
    metrics: &mut CompactionMetrics,
    extra: usize,
    dropped: usize,
)
    requires
        call_ensures(settle, (metrics, extra, dropped), ()),
    ensures
        old(metrics).build_mem_used + extra <= usize::MAX ==> final(metrics).build_mem_used == old(metrics).build_mem_used + extra,
        old(metrics).build_dictionary_values_deduplicated + dropped <= usize::MAX ==> final(metrics).build_dictionary_values_deduplicated == old(metrics).build_dictionary_values_deduplicated
            + dropped,
{
    if old(metrics).build_mem_used + extra <= usize::MAX {
        vstd::arithmetic::div_mod::lemma_small_mod(
            (old(metrics).build_mem_used + extra) as nat,
            (usize::MAX + 1) as nat,
        );
    }
    if old(metrics).build_dictionary_values_deduplicated + dropped <= usize::MAX {
        vstd::arithmetic::div_mod::lemma_small_mod(
            (old(metrics).build_dictionary_values_deduplicated + dropped) as nat,
            (usize::MAX + 1) as nat,
        );
    }
}

/// A table with room for elements has 17 bytes for each bucket, and the buckets are the least
/// power of two of which seven eighths hold the elements.
pub proof fn law_tables_have_room_for_their_elements(
    elements: usize,
    fixed_size: usize,
    result: Option<usize>,
)
    requires
        elements > 0,
        call_ensures(estimate_memory_size, (elements, fixed_size), result),
    ensures
        result matches Some(bytes) ==> exists|k: nat|
            bytes == fixed_size + 17 * #[trigger] vstd::arithmetic::power2::pow2(k) && elements * 8
                / 7 <= vstd::arithmetic::power2::pow2(k) && (vstd::arithmetic::power2::pow2(k) == 1
                || vstd::arithmetic::power2::pow2(k) < 2 * (elements * 8 / 7)),
        result is None ==> fixed_size + 40 * elements > usize::MAX,
{
    let overestimate = elements * 8 / 7;
    let buckets = arith::power_of_two_at_least(overestimate);
    arith::law_rounding_up_gives_the_next_power_of_two(overestimate);
    let k = choose|k: nat| buckets == #[trigger] vstd::arithmetic::power2::pow2(k);
    assert(table_bytes(elements as int, fixed_size as int) == fixed_size + 17
        * vstd::arithmetic::power2::pow2(k));
}

} // verus!
