//! Numbers for dictionary values: equal values share a number, whatever keys
//! refer to them.
use crate::arith;
use crate::domain::ENTRY_BYTES;
use crate::group_keys::DictionaryValues;
use crate::hashing::with_seeds;
use crate::shared::{capacity, reserved, same_allocation, share};
use crate::value_ids;
use crate::value_ids::ValueIdMap;
use std::sync::Arc;
use vstd::prelude::*;

verus! {

/// The number of a value; zero is null.
pub open spec fn tag_of(ids: Map<Seq<u8>, u32>, value: Option<Seq<u8>>) -> int {
    match value {
        Some(bytes) => ids[bytes] as int,
        None => 0,
    }
}

/// The value has a number.
pub open spec fn is_numbered(ids: Map<Seq<u8>, u32>, value: Option<Seq<u8>>) -> bool {
    match value {
        Some(bytes) => ids.contains_key(bytes),
        None => true,
    }
}

/// The values are numbered from one without gaps.
pub open spec fn numbered_from_one(ids: Map<Seq<u8>, u32>) -> bool {
    &&& ids.dom().finite()
    &&& ids.dom().len() < usize::MAX
    &&& forall|bytes: Seq<u8>| #[trigger]
        ids.contains_key(bytes) ==> 1 <= ids[bytes] <= ids.dom().len()
    &&& forall|left: Seq<u8>, right: Seq<u8>|
        #![trigger ids[left], ids[right]]
        ids.contains_key(left) && ids.contains_key(right) && ids[left] == ids[right] ==> left
            == right
}

/// `later` keeps every number of `earlier`.
pub open spec fn extends(later: Map<Seq<u8>, u32>, earlier: Map<Seq<u8>, u32>) -> bool {
    forall|bytes: Seq<u8>| #[trigger]
        earlier.contains_key(bytes) ==> later.contains_key(bytes) && later[bytes] == earlier[bytes]
}

/// `cached` holds the numbers of `items`.
pub open spec fn numbers_items(
    ids: Map<Seq<u8>, u32>,
    items: Seq<Option<Seq<u8>>>,
    cached: Seq<u32>,
) -> bool {
    &&& cached.len() == items.len()
    &&& forall|i: int|
        0 <= i < items.len() ==> is_numbered(ids, #[trigger] items[i]) && cached[i] == tag_of(
            ids,
            items[i],
        )
}

/// The numbers after the items were numbered in their order: a value that has no number
/// gets the next one.
pub open spec fn numbered(ids: Map<Seq<u8>, u32>, items: Seq<Option<Seq<u8>>>) -> Map<Seq<u8>, u32>
    decreases items.len(),
{
    if items.len() == 0 {
        ids
    } else {
        let earlier = numbered(ids, items.drop_last());
        match items.last() {
            Some(bytes) => if earlier.contains_key(bytes) {
                earlier
            } else {
                earlier.insert(bytes, (earlier.dom().len() + 1) as u32)
            },
            None => earlier,
        }
    }
}

/// There is no number for another value.
pub open spec fn numbers_are_used_up(ids: Map<Seq<u8>, u32>) -> bool {
    let next = ids.dom().len() + 1;
    next > u32::MAX || next >= usize::MAX
}

/// Memory for `count` numbers was asked for and not given.
pub closed spec fn numbers_lack_memory(count: usize) -> bool {
    exists|before: Vec<u32>, after: Vec<u32>| #[trigger]
        call_ensures(reserved::<u32>, (before, count), (after, false))
}

/// A copy of the value was found to have room for `room` bytes.
pub closed spec fn copy_has_room(value: Seq<u8>, room: usize) -> bool {
    exists|copy: Vec<u8>| copy@ == value && #[trigger] call_ensures(capacity::<u8>, (&copy,), room)
}

/// The bytes that a dictionary occupies by itself: its values and one number for
/// each.
pub open spec fn admission_bytes(values: DictionaryValues) -> int {
    values.memory_size() + values.rows().len() * ENTRY_BYTES
}

/// Whether a dictionary may be numbered at all within `limit` bytes.
pub open spec fn admitted(values: DictionaryValues, limit: usize) -> bool {
    values.rows().len() * ENTRY_BYTES <= usize::MAX && (admission_bytes(values) <= limit || (limit
        == usize::MAX && admission_bytes(values) > usize::MAX))
}

/// The numbers handed out so far, and those of the dictionary seen last.
#[derive(Debug)]
pub struct DictionaryIds {
    values: ValueIdMap,
    payload_bytes: usize,
    cached_values: Option<Arc<DictionaryValues>>,
    cached_ids: Vec<u32>,
}

/// The sum of the retained bytes, at most `usize::MAX`.
pub fn retained_bytes(
    map_bytes: usize,
    payload_bytes: usize,
    id_capacity: usize,
    value_bytes: usize,
) -> (result: usize)
    ensures
        result == arith::capped(map_bytes + payload_bytes + id_capacity * ENTRY_BYTES + value_bytes),
{
    let id_bytes: usize = match id_capacity.checked_mul(ENTRY_BYTES) {
        Some(bytes) => bytes,
        None => usize::MAX,
    };
    map_bytes.saturating_add(payload_bytes).saturating_add(id_bytes).saturating_add(value_bytes)
}

/// Whether a dictionary may be numbered at all within `limit` bytes.
pub fn admits(values: &DictionaryValues, limit: usize) -> (result: bool)
    ensures
        result == admitted(*values, limit),
{
    match values.len().checked_mul(ENTRY_BYTES) {
        Some(mapping_bytes) => values.size().saturating_add(mapping_bytes) <= limit,
        None => false,
    }
}

impl DictionaryIds {
    /// The numbers handed out so far.
    pub closed spec fn ids(self) -> Map<Seq<u8>, u32> {
        value_ids::value_ids(self.values)
    }

    /// The values of the dictionary whose numbers are cached.
    pub closed spec fn cached(self) -> Option<Seq<Option<Seq<u8>>>> {
        match self.cached_values {
            Some(values) => Some(values.rows()),
            None => None,
        }
    }

    /// The dictionary was found not to be the cached one, neither by its handle nor by
    /// its memory.
    pub closed spec fn misses(self, values: Arc<DictionaryValues>) -> bool {
        self.cached_values matches Some(cached) ==> call_ensures(
            same_allocation::<DictionaryValues>,
            (&cached, &values),
            false,
        ) && cached.is_apart(&*values)
    }

    /// Bytes of the copies of the numbered values.
    pub closed spec fn payload(self) -> int {
        self.payload_bytes as int
    }

    /// Bytes that were found to be retained, at most `usize::MAX`: those of the map, of
    /// the copies of values, of the cached numbers and of the cached dictionary.
    pub closed spec fn retains(self, bytes: usize) -> bool {
        exists|map_bytes: usize, room: usize| #[trigger]
            call_ensures(value_ids::allocation_size, (&self.values,), map_bytes)
                && #[trigger] call_ensures(capacity::<u32>, (&self.cached_ids,), room) && bytes
                == arith::capped(
                map_bytes + self.payload_bytes + room * ENTRY_BYTES + match self.cached_values {
                    Some(values) => values.memory_size() as int,
                    None => 0,
                },
            )
    }

    /// The numbers of the cached dictionary's values.
    pub closed spec fn cached_numbers(self) -> Seq<u32> {
        self.cached_ids@
    }

    /// Values are numbered from one without gaps.
    pub open spec fn wf(self) -> bool {
        numbered_from_one(self.ids())
    }

    /// What is cached are the numbers of the cached dictionary.
    pub open spec fn cache_wf(self) -> bool {
        match self.cached() {
            Some(values) => numbers_items(self.ids(), values, self.cached_numbers()),
            None => true,
        }
    }

    /// No values, nothing cached.
    pub fn new() -> (result: Self)
        ensures
            result.wf(),
            result.cache_wf(),
            result.ids() == Map::<Seq<u8>, u32>::empty(),
            result.cached() is None,
            result.cached_numbers() == Seq::<u32>::empty(),
            result.payload() == 0,
    {
        DictionaryIds {
            values: value_ids::empty_map(with_seeds(0x15, 0x31, 0x9a, 0x6f)),
            payload_bytes: 0,
            cached_values: None,
            cached_ids: Vec::new(),
        }
    }

    /// Numbers the values of a dictionary, within `limit` bytes.
    ///
    /// A dictionary that is cached already, in this wrapper or in another one of the same
    /// memory, needs no work. Otherwise it is declined where [`admits`] says so, where
    /// there is no memory for its numbers, where `u32` has no number left, and as soon as
    /// the bytes retained exceed the limit; the values up to there have their numbers
    /// then. A dictionary without values needs no memory.
    pub fn prepare(&mut self, values: &Arc<DictionaryValues>, limit: usize) -> (result: bool)
        requires
            old(self).wf(),
            old(self).cache_wf(),
        ensures
            final(self).wf(),
            extends(final(self).ids(), old(self).ids()),
            result ==> final(self).cached() == Some(values.rows()) && final(self).cache_wf(),
            prepared(*old(self), *values, limit, *final(self), result),
    {
        let cached: bool = match &self.cached_values {
            Some(cached) => same_allocation(cached, values) || cached.shares_memory(values),
            None => false,
        };
        if cached {
            return true;
        }
        assert(self.misses(*values));
        if !admits(values, limit) {
            return false;
        }
        self.cached_values = Some(share(values));
        self.cached_ids.clear();
        let ghost before = old(self).ids();
        let ghost items = values.rows();
        let count: usize = values.len();
        assert(items.take(0) =~= Seq::<Option<Seq<u8>>>::empty());
        if count > 0 {
            let mut numbers: Vec<u32> = Vec::new();
            std::mem::swap(&mut numbers, &mut self.cached_ids);
            let ghost unreserved = numbers;
            let (numbers, enough): (Vec<u32>, bool) = reserved(numbers, count);
            proof {
                if !enough {
                    assert(call_ensures(reserved::<u32>, (unreserved, count), (numbers, false)));
                    assert(numbers_lack_memory(count));
                }
            }
            self.cached_ids = numbers;
            if !enough {
                return false;
            }
        }
        let mut row: usize = 0;
        while row < count
            invariant
                self.wf(),
                items == values.rows(),
                count == items.len(),
                row <= count,
                self.cached() == Some(items),
                extends(self.ids(), before),
                before == old(self).ids(),
                self.ids() == numbered(before, items.take(row as int)),
                numbers_items(self.ids(), items.take(row as int), self.cached_ids@),
                old(self).misses(*values),
                admitted(**values, limit),
                row > 0 ==> exists|bytes: usize| #[trigger] self.retains(bytes) && bytes <= limit,
            decreases count - row,
        {
            assert(items.take(row + 1).drop_last() =~= items.take(row as int));
            let id: u32 = match values.item(row) {
                None => 0,
                Some(bytes) => match self.number_value(bytes) {
                    Some(id) => id,
                    None => {
                        return false;
                    },
                },
            };
            self.cached_ids.push(id);
            proof {
                assert forall|i: int| 0 <= i < row + 1 implies is_numbered(
                    self.ids(),
                    #[trigger] items.take(row + 1)[i],
                ) && self.cached_ids@[i] == tag_of(self.ids(), items.take(row + 1)[i]) by {
                    if i < row {
                        assert(items.take(row as int)[i] == items.take(row + 1)[i]);
                    }
                }
            }
            let size: usize = self.size();
            if size > limit {
                assert(self.retains(size));
                return false;
            }
            assert(self.retains(size));
            row = row + 1;
        }
        assert(items.take(row as int) =~= items);
        true
    }

    /// The number of a value: the one that it has, else the next one, where one is
    /// left.
    pub fn number_value(&mut self, bytes: &Vec<u8>) -> (result: Option<u32>)
        requires
            old(self).wf(),
        ensures
            final(self).wf(),
            final(self).cached() == old(self).cached(),
            final(self).cached_numbers() == old(self).cached_numbers(),
            extends(final(self).ids(), old(self).ids()),
            ({
                let next = old(self).ids().dom().len() + 1;
                if old(self).ids().contains_key(bytes@) {
                    result == Some(old(self).ids()[bytes@]) && final(self).ids() == old(self).ids()
                        && final(self).payload() == old(self).payload()
                } else if next <= u32::MAX && next < usize::MAX {
                    result == Some(next as u32) && final(self).ids() == old(self).ids().insert(
                        bytes@,
                        next as u32,
                    ) && exists|room: usize| #[trigger]
                        copy_has_room(bytes@, room) && final(self).payload() == arith::capped(
                            old(self).payload() + room,
                        )
                } else {
                    result is None && final(self).ids() == old(self).ids()
                        && final(self).payload() == old(self).payload()
                }
            }),
    {
        if let Some(id) = value_ids::get(&self.values, bytes) {
            return Some(id);
        }
        let next: usize = value_ids::len(&self.values) + 1;
        if next == usize::MAX {
            return None;
        }
        let id: u32 = match u32::try_from(next) {
            Ok(id) => id,
            Err(_) => {
                return None;
            },
        };
        let owned: Vec<u8> = bytes.clone();
        assert(owned@ =~= bytes@);
        let room: usize = capacity(&owned);
        assert(call_ensures(capacity::<u8>, (&owned,), room));
        assert(copy_has_room(bytes@, room));
        self.payload_bytes = self.payload_bytes.saturating_add(room);
        value_ids::insert(&mut self.values, owned, id);
        proof {
            lemma_next_number(old(self).ids(), bytes@, id);
        }
        Some(id)
    }

    /// The number of a value of the cached dictionary.
    pub fn cached_id(&self, key: usize) -> (result: u32)
        requires
            key < self.cached_numbers().len(),
        ensures
            result == self.cached_numbers()[key as int],
    {
        self.cached_ids[key]
    }

    /// The dictionary whose numbers are cached.
    pub fn cached_values(&self) -> (result: Option<&Arc<DictionaryValues>>)
        ensures
            match self.cached() {
                Some(values) => result is Some && (**(result->0)).rows() == values,
                None => result is None,
            },
    {
        self.cached_values.as_ref()
    }

    /// The number of cached numbers.
    pub fn cached_len(&self) -> (result: usize)
        ensures
            result == self.cached_numbers().len(),
    {
        self.cached_ids.len()
    }

    /// Numbers in use, the one of null included.
    pub fn len(&self) -> (result: usize)
        requires
            self.wf(),
        ensures
            result == self.ids().dom().len() + 1,
    {
        value_ids::len(&self.values) + 1
    }

    /// Bytes retained, by [`retained_bytes`]. How much the map and the vectors have
    /// allocated is not determined by what they hold.
    pub fn size(&self) -> (result: usize)
        ensures
            self.retains(result),
    {
        let value_bytes: usize = match &self.cached_values {
            Some(values) => values.size(),
            None => 0,
        };
        let map_bytes: usize = value_ids::allocation_size(&self.values);
        let room: usize = capacity(&self.cached_ids);
        proof {
            assert(call_ensures(value_ids::allocation_size, (&self.values,), map_bytes));
            assert(call_ensures(capacity::<u32>, (&self.cached_ids,), room));
        }
        retained_bytes(map_bytes, self.payload_bytes, room, value_bytes)
    }
}

/// What [`DictionaryIds::prepare`] leaves, and what it returns.
pub open spec fn prepared(
    before: DictionaryIds,
    values: Arc<DictionaryValues>,
    limit: usize,
    after: DictionaryIds,
    result: bool,
) -> bool {
    let items = values.rows();
    let count = after.cached_numbers().len() as int;
    ||| result && before.cached() == Some(items) && after == before
    ||| !result && before.misses(values) && !admitted(*values, limit) && after == before
    ||| {
        &&& before.misses(values)
        &&& admitted(*values, limit)
        &&& after.cached() == Some(items)
        &&& count <= items.len()
        &&& after.ids() == numbered(before.ids(), items.take(count))
        &&& numbers_items(after.ids(), items.take(count), after.cached_numbers())
        &&& result ==> count == items.len()
        &&& result && count > 0 ==> exists|bytes: usize| #[trigger]
            after.retains(bytes) && bytes <= limit
        &&& !result ==> items.len() > 0
        &&& !result && count == 0 ==> numbers_lack_memory(items.len() as usize)
            || numbers_are_used_up(after.ids())
        &&& !result && count > 0 ==> numbers_are_used_up(after.ids()) || exists|bytes: usize|
         #[trigger]
            after.retains(bytes) && bytes > limit
    }
}

proof fn lemma_next_number(ids: Map<Seq<u8>, u32>, bytes: Seq<u8>, id: u32)
    requires
        numbered_from_one(ids),
        !ids.contains_key(bytes),
        id == ids.dom().len() + 1,
        id < usize::MAX,
    ensures
        numbered_from_one(ids.insert(bytes, id)),
        extends(ids.insert(bytes, id), ids),
{
    let more = ids.insert(bytes, id);
    assert(more.dom() =~= ids.dom().insert(bytes));
    assert(more.dom().len() == ids.dom().len() + 1);
    assert forall|key: Seq<u8>| #[trigger] more.contains_key(key) implies 1 <= more[key]
        <= more.dom().len() by {
        if key != bytes {
            assert(ids.contains_key(key));
        }
    }
    assert forall|left: Seq<u8>, right: Seq<u8>|
        #![trigger more[left], more[right]]
        more.contains_key(left) && more.contains_key(right) && more[left]
            == more[right] implies left == right by {
        if left != bytes {
            assert(ids.contains_key(left));
        }
        if right != bytes {
            assert(ids.contains_key(right));
        }
    }
}

/// Equal values share a number and different values do not, whatever the positions at which
/// the dictionary has them; zero is the number of null.
pub proof fn law_equal_values_share_a_number(
    ids: Map<Seq<u8>, u32>,
    items: Seq<Option<Seq<u8>>>,
    cached: Seq<u32>,
    i: int,
    j: int,
)
    requires
        numbered_from_one(ids),
        numbers_items(ids, items, cached),
        0 <= i < items.len(),
        0 <= j < items.len(),
    ensures
        cached.len() == items.len(),
        cached[i] == cached[j] <==> items[i] == items[j],
        cached[i] == 0 <==> items[i] is None,
        cached[i] <= ids.dom().len(),
{
    assert(is_numbered(ids, items[i]) && is_numbered(ids, items[j]));
    if let (Some(left), Some(right)) = (items[i], items[j]) {
        assert(ids.contains_key(left) && ids.contains_key(right));
        assert(ids[left] == ids[right] ==> left == right);
    }
}

/// Numbering the values of a dictionary keeps the numbers that there are, and gives one to
/// every value that has none and to nothing else.
pub proof fn law_numbering_covers_the_values(
    ids: Map<Seq<u8>, u32>,
    items: Seq<Option<Seq<u8>>>,
    bytes: Seq<u8>,
)
    requires
        numbered_from_one(ids),
        ids.dom().len() + items.len() < u32::MAX,
    ensures
        numbered_from_one(numbered(ids, items)),
        ids.contains_key(bytes) ==> numbered(ids, items).contains_key(bytes) && numbered(
            ids,
            items,
        )[bytes] == ids[bytes],
        numbered(ids, items).contains_key(bytes) <==> ids.contains_key(bytes) || items.contains(
            Some(bytes),
        ),
        numbered(ids, items).dom().len() <= ids.dom().len() + items.len(),
    decreases items.len(),
{
    if items.len() > 0 {
        let fewer = items.drop_last();
        let earlier = numbered(ids, fewer);
        law_numbering_covers_the_values(ids, fewer, bytes);
        assert(items[items.len() - 1] == items.last());
        if let Some(last) = items.last() {
            if !earlier.contains_key(last) {
                lemma_next_number(earlier, last, (earlier.dom().len() + 1) as u32);
                assert(numbered(ids, items).dom() =~= earlier.dom().insert(last));
            }
        }
        if items.contains(Some(bytes)) {
            let i = choose|i: int| 0 <= i < items.len() && items[i] == Some(bytes);
            if i < fewer.len() {
                assert(fewer[i] == Some(bytes));
                assert(fewer.contains(Some(bytes)));
            }
        }
        if fewer.contains(Some(bytes)) {
            let i = choose|i: int| 0 <= i < fewer.len() && fewer[i] == Some(bytes);
            assert(items[i] == Some(bytes));
        }
    }
}

/// A dictionary is admitted by its bytes: those that its values occupy, and four for the
/// number of each.
pub proof fn law_dictionaries_are_admitted_by_their_bytes(values: DictionaryValues, limit: usize)
    requires
        limit < usize::MAX,
    ensures
        admitted(values, limit) <==> values.memory_size() + 4 * values.rows().len() <= limit,
{
}

/// A value keeps the number that it got, whatever is numbered in between, and different
/// values get different numbers. A new value gets the number after those in use.
pub proof fn law_values_keep_their_numbers(
    first: &mut DictionaryIds,
    bytes: &Vec<u8>,
    number: Option<u32>,
    in_use: usize,
    after: usize,
    second: &mut DictionaryIds,
    other: &Vec<u8>,
    other_number: Option<u32>,
    third: &mut DictionaryIds,
    again: Option<u32>,
)
    requires
        old(first).wf(),
        call_ensures(DictionaryIds::len, (&*old(first),), in_use),
        call_ensures(DictionaryIds::number_value, (first, bytes), number),
        call_ensures(DictionaryIds::len, (&*final(first),), after),
        *old(second) == *final(first),
        call_ensures(DictionaryIds::number_value, (second, other), other_number),
        *old(third) == *final(second),
        call_ensures(DictionaryIds::number_value, (third, bytes), again),
        number is Some,
        other_number is Some,
    ensures
        1 <= number->0 <= in_use,
        again == number,
        number == other_number <==> bytes@ == other@,
        after == if number->0 == in_use {
            in_use + 1
        } else {
            in_use as int
        },
{
    let ids = final(second).ids();
    assert(ids.contains_key(bytes@) && ids.contains_key(other@));
    assert(ids[bytes@] == number->0 && ids[other@] == other_number->0);
    if old(first).ids().contains_key(bytes@) {
        assert(old(first).ids()[bytes@] <= old(first).ids().dom().len());
    }
}

/// The cached numbers of a dictionary that was prepared tell its values apart: they are the
/// same exactly where the values are, and zero for null.
pub proof fn law_prepared_values_are_told_apart(
    ids: &mut DictionaryIds,
    values: &Arc<DictionaryValues>,
    limit: usize,
    i: usize,
    j: usize,
    left: u32,
    right: u32,
    count: usize,
)
    requires
        old(ids).wf(),
        old(ids).cache_wf(),
        call_ensures(DictionaryIds::prepare, (ids, values, limit), true),
        call_ensures(DictionaryIds::cached_len, (&*final(ids),), count),
        i < values.rows().len(),
        j < values.rows().len(),
        call_ensures(DictionaryIds::cached_id, (&*final(ids), i), left),
        call_ensures(DictionaryIds::cached_id, (&*final(ids), j), right),
    ensures
        count == values.rows().len(),
        left == right <==> values.rows()[i as int] == values.rows()[j as int],
        left == 0 <==> values.rows()[i as int] is None,
{
    law_equal_values_share_a_number(
        final(ids).ids(),
        values.rows(),
        final(ids).cached_numbers(),
        i as int,
        j as int,
    );
}

/// A dictionary whose bytes and whose numbers, of four bytes each, exceed the limit is
/// declined, unless it is the one that was prepared last. What is retained is the sum of its
/// parts, as far as it can be counted.
pub proof fn law_large_dictionaries_are_declined(
    ids: &mut DictionaryIds,
    values: &Arc<DictionaryValues>,
    limit: usize,
    prepared: bool,
    admitted: bool,
    bytes: usize,
    count: usize,
    cached: Option<&Arc<DictionaryValues>>,
)
    requires
        old(ids).wf(),
        old(ids).cache_wf(),
        limit < usize::MAX,
        call_ensures(DictionaryValues::size, (&**values,), bytes),
        call_ensures(DictionaryValues::len, (&**values,), count),
        call_ensures(admits, (&**values, limit), admitted),
        call_ensures(DictionaryIds::cached_values, (&*old(ids),), cached),
        call_ensures(DictionaryIds::prepare, (ids, values, limit), prepared),
    ensures
        admitted <==> bytes + 4 * count <= limit,
        bytes + 4 * count > limit && prepared ==> cached is Some && (**(cached->0)).rows()
            == values.rows(),
        bytes + 4 * count > limit ==> *final(ids) == *old(ids),
        forall|earlier: Seq<u8>| #[trigger]
            old(ids).ids().contains_key(earlier) ==> final(ids).ids().contains_key(earlier)
                && final(ids).ids()[earlier] == old(ids).ids()[earlier],
{
}

/// The bytes retained are the sum of the parts, four for each number, and the greatest
/// number there is where the sum is greater.
pub proof fn law_retained_bytes_are_the_sum(
    map_bytes: usize,
    payload_bytes: usize,
    id_capacity: usize,
    value_bytes: usize,
    result: usize,
)
    requires
        call_ensures(
            retained_bytes,
            (map_bytes, payload_bytes, id_capacity, value_bytes),
            result,
        ),
    ensures
        ({
            let sum = map_bytes + payload_bytes + 4 * id_capacity + value_bytes;
            result == if sum <= usize::MAX {
                sum
            } else {
                usize::MAX as int
            }
        }),
{
}

/// A dictionary is declined for a reason: its bytes and those of its numbers exceed the
/// limit, there is no memory for its numbers, there are no numbers left, or what is retained
/// was found to exceed the limit.
pub proof fn law_dictionaries_are_declined_for_a_reason(
    before: DictionaryIds,
    values: Arc<DictionaryValues>,
    limit: usize,
    after: DictionaryIds,
)
    requires
        limit < usize::MAX,
        prepared(before, values, limit, after, false),
    ensures
        ({
            ||| values.memory_size() + 4 * values.rows().len() > limit
            ||| numbers_lack_memory(values.rows().len() as usize)
            ||| after.ids().dom().len() >= u32::MAX
            ||| after.ids().dom().len() + 1 >= usize::MAX
            ||| exists|bytes: usize| #[trigger] after.retains(bytes) && bytes > limit
        }),
        values.rows().len() > 0 || values.memory_size() > limit,
{
}

/// New values are numbered in their order: a value that comes first at a position gets the
/// number after all that the values before it left in use.
pub proof fn law_numbers_follow_the_values(
    ids: Map<Seq<u8>, u32>,
    items: Seq<Option<Seq<u8>>>,
    i: int,
)
    requires
        numbered_from_one(ids),
        ids.dom().len() + items.len() < u32::MAX,
        0 <= i < items.len(),
        items[i] is Some,
        !ids.contains_key(items[i]->0),
        !items.take(i).contains(items[i]),
    ensures
        numbered(ids, items).contains_key(items[i]->0),
        numbered(ids, items)[items[i]->0] == numbered(ids, items.take(i)).dom().len() + 1,
    decreases items.len(),
{
    let bytes = items[i]->0;
    let fewer = items.drop_last();
    law_numbering_covers_the_values(ids, fewer, bytes);
    if i == items.len() - 1 {
        assert(items.take(i) =~= fewer);
    } else {
        assert(fewer.take(i) =~= items.take(i));
        law_numbers_follow_the_values(ids, fewer, i);
    }
}

/// The bytes retained are at least four for each cached number, as far as they can be
/// counted.
pub proof fn law_sizes_cover_the_numbers(ids: &DictionaryIds, size: usize, count: usize)
    requires
        call_ensures(DictionaryIds::size, (ids,), size),
        call_ensures(DictionaryIds::cached_len, (ids,), count),
    ensures
        size < usize::MAX ==> size >= 4 * count,
{
    let (map_bytes, room) = choose|map_bytes: usize, room: usize| #[trigger]
        call_ensures(value_ids::allocation_size, (&ids.values,), map_bytes) && #[trigger]
            call_ensures(capacity::<u32>, (&ids.cached_ids,), room) && size == arith::capped(
            map_bytes + ids.payload_bytes + room * ENTRY_BYTES + match ids.cached_values {
                Some(values) => values.memory_size() as int,
                None => 0,
            },
        );
    assert(room >= ids.cached_ids@.len());
}

/// Fresh numbers have that of null in use and no other, and nothing is cached.
pub proof fn law_fresh_numbers_are_for_null(
    ids: DictionaryIds,
    in_use: usize,
    cached: Option<&Arc<DictionaryValues>>,
    count: usize,
)
    requires
        call_ensures(DictionaryIds::new, (), ids),
        call_ensures(DictionaryIds::len, (&ids,), in_use),
        call_ensures(DictionaryIds::cached_values, (&ids,), cached),
        call_ensures(DictionaryIds::cached_len, (&ids,), count),
    ensures
        ids.wf() && ids.cache_wf(),
        in_use == 1,
        cached is None,
        count == 0,
{
}

} // verus!
