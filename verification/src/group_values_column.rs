//! Exact grouping of any integer and dictionary keys by hashing.
use crate::arith;
use crate::group_keys;
use crate::group_keys::{DictionaryColumn, EmitTo, GroupKey, IntegerColumn};
use crate::shared::{capacity, map_capacity};
use std::collections::HashMap;
use vstd::prelude::*;

verus! {

broadcast use vstd::std_specs::hash::group_hash_axioms;

/// Bytes of one entry of the table that finds lists of groups.
pub const PLACE_BYTES: usize = 17;

/// Bytes of one list of groups besides the numbers in it.
pub const LIST_BYTES: usize = 24;

/// Bytes of one group number.
pub const INDEX_BYTES: usize = 8;

/// Groups in the order of their numbers, found through lists of group numbers
/// that are hashed by the integer.
#[derive(Debug)]
pub struct GroupValuesColumn {
    keys: Vec<GroupKey>,
    /// The place of each integer's list.
    places: HashMap<i64, usize>,
    /// The groups without an integer, then those of each integer.
    lists: Vec<Vec<usize>>,
}

/// Bytes that the numbers in the lists were found to hold on to.
spec fn lists_retain(lists: Seq<Vec<usize>>, total: int) -> bool
    decreases lists.len(),
{
    if lists.len() == 0 {
        total == 0
    } else {
        exists|room: usize| #[trigger]
            call_ensures(capacity::<usize>, (&lists.last(),), room) && lists_retain(
                lists.drop_last(),
                total - room * INDEX_BYTES,
            )
    }
}

impl GroupValuesColumn {
    /// The group keys by number.
    pub closed spec fn groups(self) -> Seq<group_keys::KeyRow> {
        group_keys::key_rows(self.keys@)
    }

    spec fn chain(self, integer: Option<i64>) -> Seq<usize> {
        match integer {
            Some(value) => if self.places@.contains_key(value) {
                self.lists@[self.places@[value] as int]@
            } else {
                Seq::empty()
            },
            None => self.lists@[0]@,
        }
    }

    /// The first list is that of the groups without an integer, and every integer that has a
    /// place has a list of its own.
    spec fn places_wf(self) -> bool {
        &&& self.lists@.len() > 0
        &&& forall|value: i64| #[trigger]
            self.places@.contains_key(value) ==> 0 < self.places@[value] < self.lists@.len()
        &&& forall|left: i64, right: i64| #[trigger]
            self.places@.contains_key(left) && #[trigger] self.places@.contains_key(right) && left
                != right ==> self.places@[left] != self.places@[right]
    }

    /// No key occurs twice, and each group is in the list of its integer.
    pub closed spec fn wf(self) -> bool {
        &&& self.places_wf()
        &&& self.groups().no_duplicates()
        &&& forall|integer: Option<i64>, i: int|
            0 <= i < self.chain(integer).len() ==> {
                let group = #[trigger] self.chain(integer)[i];
                group < self.keys@.len() && self.keys@[group as int].integer == integer
            }
        &&& forall|group: usize|
            group < self.keys@.len() ==> #[trigger] self.chain(
                self.keys@[group as int].integer,
            ).contains(group)
    }

    /// No key has two groups.
    pub proof fn lemma_no_key_twice(self)
        requires
            self.wf(),
        ensures
            self.groups().no_duplicates(),
    {
    }

    /// No groups.
    pub fn new() -> (result: Self)
        ensures
            result.wf(),
            result.groups() == Seq::<group_keys::KeyRow>::empty(),
    {
        let mut lists: Vec<Vec<usize>> = Vec::new();
        lists.push(Vec::new());
        let result = GroupValuesColumn { keys: Vec::new(), places: HashMap::new(), lists };
        assert(result.groups() =~= Seq::<group_keys::KeyRow>::empty());
        result
    }

    /// The given groups, numbered as they come.
    pub fn from_distinct(keys: Vec<GroupKey>) -> (result: Self)
        requires
            group_keys::key_rows(keys@).no_duplicates(),
        ensures
            result.wf(),
            result.groups() == group_keys::key_rows(keys@),
    {
        let mut result = Self::new();
        let ghost all = group_keys::key_rows(keys@);
        let ghost count = all.len();
        let mut reversed: Vec<GroupKey> = group_keys::reversed(keys);
        while reversed.len() > 0
            invariant
                all.len() == count,
                all.no_duplicates(),
                result.wf(),
                result.groups().len() + reversed@.len() == count,
                result.groups() == all.take(result.groups().len() as int),
                forall|i: int|
                    0 <= i < reversed@.len() ==> (#[trigger] reversed@[i])@ == all[count - 1 - i],
            decreases reversed@.len(),
        {
            let ghost before = result.groups();
            match reversed.pop() {
                Some(key) => {
                    assert(key@ == all[before.len() as int]);
                    result.append(key);
                    assert(result.groups() =~= all.take(result.groups().len() as int));
                },
                None => {},
            }
        }
        assert(result.groups() =~= all);
        result
    }

    /// The number of a key's group, where it has one.
    fn find(&self, integer: Option<i64>, value: Option<&Vec<u8>>) -> (result: Option<usize>)
        requires
            self.wf(),
        ensures
            ({
                let row = (
                    integer,
                    match value {
                        Some(bytes) => Some(bytes@),
                        None => None,
                    },
                );
                match result {
                    Some(group) => group < self.groups().len() && self.groups()[group as int]
                        == row,
                    None => !self.groups().contains(row),
                }
            }),
    {
        let ghost row = (
            integer,
            match value {
                Some(bytes) => Some(bytes@),
                None => None,
            },
        );
        let chain: &Vec<usize> = match integer {
            Some(integer) => match self.places.get(&integer) {
                Some(place) => &self.lists[*place],
                None => {
                    proof {
                        self.lemma_not_grouped(row);
                    }
                    return None;
                },
            },
            None => &self.lists[0],
        };
        assert(chain@ == self.chain(integer));
        let mut i: usize = 0;
        while i < chain.len()
            invariant
                self.wf(),
                i <= chain@.len(),
                chain@ == self.chain(integer),
                row == (
                    integer,
                    match value {
                        Some(bytes) => Some(bytes@),
                        None => None,
                    },
                ),
                forall|j: int| 0 <= j < i ==> self.groups()[#[trigger] chain@[j] as int] != row,
            decreases chain@.len() - i,
        {
            let group: usize = chain[i];
            assert(self.chain(integer)[i as int] == group);
            if self.keys[group].has_value(value) {
                return Some(group);
            }
            i = i + 1;
        }
        proof {
            self.lemma_not_grouped(row);
        }
        None
    }

    proof fn lemma_not_grouped(self, row: group_keys::KeyRow)
        requires
            self.wf(),
            forall|j: int|
                0 <= j < self.chain(row.0).len() ==> self.groups()[#[trigger] self.chain(
                    row.0,
                )[j] as int] != row,
        ensures
            !self.groups().contains(row),
    {
        if self.groups().contains(row) {
            let g = choose|g: int| 0 <= g < self.groups().len() && self.groups()[g] == row;
            assert(self.keys@.len() == self.keys.len());
            let group = g as usize;
            assert(self.keys@[g].integer == row.0);
            assert(self.chain(self.keys@[group as int].integer).contains(group));
            let j = choose|j: int|
                0 <= j < self.chain(row.0).len() && self.chain(row.0)[j] == group;
            assert(self.groups()[self.chain(row.0)[j] as int] == row);
        }
    }

    /// Adds a group that is not there yet.
    fn append(&mut self, key: GroupKey)
        requires
            old(self).wf(),
            !old(self).groups().contains(key@),
        ensures
            final(self).wf(),
            final(self).groups() == old(self).groups().push(key@),
    {
        let group: usize = self.keys.len();
        let integer: Option<i64> = key.integer;
        let place: usize = match integer {
            Some(value) => match self.places.get(&value) {
                Some(place) => *place,
                None => {
                    let place: usize = self.lists.len();
                    self.lists.push(Vec::new());
                    self.places.insert(value, place);
                    place
                },
            },
            None => 0,
        };
        self.lists[place].push(group);
        let ghost row = key@;
        self.keys.push(key);
        proof {
            let before = *old(self);
            assert(self.groups() =~= before.groups().push(row));
            assert(self.chain(integer) == before.chain(integer).push(group));
            assert forall|other: Option<i64>| other != integer implies #[trigger] self.chain(other)
                == before.chain(other) by {}
            assert forall|other: Option<i64>, i: int|
                0 <= i < self.chain(other).len() implies {
                let found = #[trigger] self.chain(other)[i];
                found < self.keys@.len() && self.keys@[found as int].integer == other
            } by {
                if other == integer && i == before.chain(integer).len() {
                } else {
                    assert(self.chain(other)[i] == before.chain(other)[i]);
                }
            }
            assert forall|g: usize| g < self.keys@.len() implies #[trigger] self.chain(
                self.keys@[g as int].integer,
            ).contains(g) by {
                if g == group {
                    let i = before.chain(integer).len() as int;
                    assert(self.chain(integer)[i] == g);
                } else {
                    let own = before.keys@[g as int].integer;
                    assert(before.chain(own).contains(g));
                    let i = choose|i: int|
                        0 <= i < before.chain(own).len() && before.chain(own)[i] == g;
                    assert(self.chain(own)[i] == g);
                }
            }
            assert forall|i: int, j: int|
                0 <= i < self.groups().len() && 0 <= j < self.groups().len() && i
                    != j implies self.groups()[i] != self.groups()[j] by {
                if i < before.groups().len() && j < before.groups().len() {
                    assert(before.groups()[i] != before.groups()[j]);
                } else if i < before.groups().len() {
                    assert(before.groups().contains(before.groups()[i]));
                } else if j < before.groups().len() {
                    assert(before.groups().contains(before.groups()[j]));
                }
            }
        }
    }

    /// Numbers every row of a batch, adding groups for keys that are new.
    pub fn intern(
        &mut self,
        integers: &IntegerColumn,
        dictionary: &DictionaryColumn,
        groups: &mut Vec<usize>,
    )
        requires
            old(self).wf(),
            integers.wf(),
            dictionary.wf(),
            integers.values@.len() == dictionary.keys@.len(),
        ensures
            final(self).wf(),
            final(self).groups() == group_keys::interned(
                old(self).groups(),
                group_keys::batch_rows(*integers, *dictionary),
            ),
            group_keys::numbers(
                final(self).groups(),
                group_keys::batch_rows(*integers, *dictionary),
                final(groups)@,
            ),
    {
        groups.clear();
        let ghost rows = group_keys::batch_rows(*integers, *dictionary);
        let ghost start = self.groups();
        assert(rows.take(0) =~= Seq::<group_keys::KeyRow>::empty());
        let mut row: usize = 0;
        while row < integers.values.len()
            invariant
                self.wf(),
                integers.wf(),
                dictionary.wf(),
                integers.values@.len() == dictionary.keys@.len(),
                rows == group_keys::batch_rows(*integers, *dictionary),
                row <= rows.len(),
                self.groups() == group_keys::interned(start, rows.take(row as int)),
                group_keys::numbers(self.groups(), rows.take(row as int), groups@),
            decreases rows.len() - row,
        {
            let integer: Option<i64> = if integers.nulls[row] {
                None
            } else {
                Some(integers.values[row])
            };
            let value: Option<&Vec<u8>> = dictionary.value_at(row);
            let ghost done = rows.take(row as int);
            let ghost before = self.groups();
            assert(rows.take(row + 1).drop_last() =~= done);
            let group: usize = match self.find(integer, value) {
                Some(group) => group,
                None => {
                    let group: usize = self.keys.len();
                    self.append(GroupKey::of(integer, value));
                    group
                },
            };
            groups.push(group);
            proof {
                if self.groups() == before {
                    assert(before.contains(rows[row as int])) by {
                        assert(before[group as int] == rows[row as int]);
                    }
                }
                assert forall|i: int| 0 <= i < groups@.len() implies (#[trigger] groups@[i])
                    < self.groups().len() && self.groups()[groups@[i] as int] == rows.take(
                    row + 1,
                )[i] by {
                    if i < row {
                        assert(done[i] == rows[i]);
                        assert(before[groups@[i] as int] == done[i]);
                    }
                }
            }
            row = row + 1;
        }
        assert(rows.take(rows.len() as int) =~= rows);
    }

    /// The number of groups.
    pub fn len(&self) -> (result: usize)
        ensures
            result == self.groups().len(),
    {
        self.keys.len()
    }

    /// Takes out groups. The groups that stay are numbered anew from zero, in
    /// their order.
    pub fn emit(&mut self, emit_to: EmitTo) -> (result: Vec<GroupKey>)
        requires
            old(self).wf(),
            emit_to matches EmitTo::First(count) ==> count <= old(self).groups().len(),
        ensures
            final(self).wf(),
            match emit_to {
                EmitTo::All => {
                    &&& group_keys::key_rows(result@) == old(self).groups()
                    &&& final(self).groups() == Seq::<group_keys::KeyRow>::empty()
                },
                EmitTo::First(count) => {
                    &&& group_keys::key_rows(result@) == old(self).groups().take(count as int)
                    &&& final(self).groups() == old(self).groups().skip(count as int)
                },
            },
    {
        let count: usize = match emit_to {
            EmitTo::All => self.keys.len(),
            EmitTo::First(count) => count,
        };
        let mut emitted: Vec<GroupKey> = Vec::new();
        std::mem::swap(&mut emitted, &mut self.keys);
        let kept: Vec<GroupKey> = emitted.split_off(count);
        proof {
            let all = old(self).groups();
            assert(group_keys::key_rows(emitted@) =~= all.take(count as int));
            assert(group_keys::key_rows(kept@) =~= all.skip(count as int));
            if count == all.len() {
                assert(all.take(count as int) =~= all);
                assert(all.skip(count as int) =~= Seq::<group_keys::KeyRow>::empty());
            }
        }
        *self = Self::from_distinct(kept);
        emitted
    }

    /// Bytes that were found to be retained, at most `usize::MAX`: those of the keys, of the
    /// table that finds lists, and of the lists of group numbers.
    pub closed spec fn retains(self, bytes: usize) -> bool {
        exists|keys: usize, places: usize, lists: usize, numbers: int|
            {
                &&& #[trigger] group_keys::keys_retain(self.keys, keys)
                &&& #[trigger] call_ensures(map_capacity::<i64, usize>, (&self.places,), places)
                &&& #[trigger] call_ensures(capacity::<Vec<usize>>, (&self.lists,), lists)
                &&& #[trigger] lists_retain(self.lists@, numbers)
                &&& bytes == arith::capped(
                    keys + places * PLACE_BYTES + lists * LIST_BYTES + numbers,
                )
            }
    }

    /// Bytes retained, at most `usize::MAX`. What the allocator gave beyond the contents is
    /// included.
    pub fn size(&self) -> (result: usize)
        ensures
            self.retains(result),
    {
        let keys: usize = group_keys::keys_size(&self.keys);
        let places: usize = map_capacity(&self.places);
        let lists: usize = capacity(&self.lists);
        let mut result: usize = keys.saturating_add(arith::element_bytes(places, PLACE_BYTES)).saturating_add(
            arith::element_bytes(lists, LIST_BYTES),
        );
        let ghost fixed = keys + places * PLACE_BYTES + lists * LIST_BYTES;
        let ghost mut numbers: int = 0;
        let mut i: usize = 0;
        while i < self.lists.len()
            invariant
                i <= self.lists@.len(),
                numbers >= 0,
                fixed >= 0,
                lists_retain(self.lists@.take(i as int), numbers),
                result == arith::capped(fixed + numbers),
            decreases self.lists@.len() - i,
        {
            let room: usize = capacity(&self.lists[i]);
            result = result.saturating_add(arith::element_bytes(room, INDEX_BYTES));
            proof {
                let longer = self.lists@.take(i + 1);
                assert(longer.drop_last() =~= self.lists@.take(i as int));
                assert(call_ensures(capacity::<usize>, (&longer.last(),), room));
                let total = numbers + room * INDEX_BYTES;
                assert(lists_retain(longer.drop_last(), total - room * INDEX_BYTES));
                numbers = total;
            }
            i = i + 1;
        }
        proof {
            assert(self.lists@.take(i as int) =~= self.lists@);
            assert(call_ensures(map_capacity::<i64, usize>, (&self.places,), places));
            assert(call_ensures(capacity::<Vec<usize>>, (&self.lists,), lists));
        }
        result
    }

    /// Forgets every group.
    pub fn clear(&mut self)
        ensures
            final(self).wf(),
            final(self).groups() == Seq::<group_keys::KeyRow>::empty(),
    {
        *self = Self::new();
    }
}

/// Rows of a batch get the same number exactly where they have the same key, and the keys
/// that are emitted have, at the number of a row, the integer and all bytes of that row.
pub proof fn law_numbered_rows_are_emitted(
    hashed: &mut GroupValuesColumn,
    integers: &IntegerColumn,
    dictionary: &DictionaryColumn,
    ids: &mut Vec<usize>,
    all: &mut GroupValuesColumn,
    keys: Vec<GroupKey>,
    row: int,
    other: int,
)
    requires
        old(hashed).wf(),
        integers.wf(),
        dictionary.wf(),
        integers.values@.len() == dictionary.keys@.len(),
        call_ensures(GroupValuesColumn::intern, (hashed, integers, dictionary, ids), ()),
        *old(all) == *final(hashed),
        call_ensures(GroupValuesColumn::emit, (all, EmitTo::All), keys),
        0 <= row < integers.values@.len(),
        0 <= other < integers.values@.len(),
    ensures
        final(ids)@.len() == integers.values@.len(),
        final(ids)@[row] < keys@.len(),
        ({
            let key = keys@[final(ids)@[row] as int];
            &&& key.integer == if integers.nulls@[row] {
                None
            } else {
                Some(integers.values@[row])
            }
            &&& match (key.value, dictionary.keys@[row]) {
                (Some(bytes), Some(at)) => dictionary.values.rows()[at as int] == Some(bytes@),
                (None, Some(at)) => dictionary.values.rows()[at as int] is None,
                (None, None) => true,
                (Some(_), None) => false,
            }
        }),
        final(ids)@[row] == final(ids)@[other] <==> group_keys::same_key(
            *integers,
            *dictionary,
            row,
            other,
        ),
{
    let rows = group_keys::batch_rows(*integers, *dictionary);
    let groups = final(hashed).groups();
    final(hashed).lemma_no_key_twice();
    group_keys::law_keys_are_read_from_the_columns(*integers, *dictionary, row);
    group_keys::law_keys_are_read_from_the_columns(*integers, *dictionary, other);
    group_keys::law_numbers_lead_to_the_keys(groups, rows, final(ids)@, row);
    group_keys::law_equal_keys_share_a_group(groups, rows, final(ids)@, row, other);
    assert(group_keys::key_rows(keys@)[final(ids)@[row] as int] == rows[row]);
}

/// The first groups come out first, and those that stay come out afterwards in their order.
/// A cleared grouping has no groups.
pub proof fn law_groups_are_emitted_in_order(
    whole: &mut GroupValuesColumn,
    every: Vec<GroupKey>,
    part: &mut GroupValuesColumn,
    count: usize,
    first: Vec<GroupKey>,
    rest: &mut GroupValuesColumn,
    last: Vec<GroupKey>,
    cleared: &mut GroupValuesColumn,
    before: usize,
    after: usize,
)
    requires
        old(whole).wf(),
        *old(part) == *old(whole),
        *old(cleared) == *old(whole),
        call_ensures(GroupValuesColumn::len, (&*old(whole),), before),
        count <= before,
        call_ensures(GroupValuesColumn::emit, (whole, EmitTo::All), every),
        call_ensures(GroupValuesColumn::emit, (part, EmitTo::First(count)), first),
        *old(rest) == *final(part),
        call_ensures(GroupValuesColumn::emit, (rest, EmitTo::All), last),
        call_ensures(GroupValuesColumn::clear, (cleared,), ()),
        call_ensures(GroupValuesColumn::len, (&*final(cleared),), after),
    ensures
        every@.len() == before,
        first@.len() == count,
        last@.len() == before - count,
        forall|g: int|
            0 <= g < before ==> (#[trigger] every@[g])@ == if g < count {
                first@[g]@
            } else {
                last@[g - count]@
            },
        after == 0,
{
    let groups = old(whole).groups();
    assert(group_keys::key_rows(every@).len() == groups.len());
    assert(group_keys::key_rows(first@) == groups.take(count as int));
    assert(group_keys::key_rows(first@).len() == count);
    assert(group_keys::key_rows(last@) == groups.skip(count as int));
    assert(group_keys::key_rows(last@).len() == groups.len() - count);
    assert forall|g: int| 0 <= g < before implies (#[trigger] every@[g])@ == if g < count {
        first@[g]@
    } else {
        last@[g - count]@
    } by {
        assert(group_keys::key_rows(every@)[g] == every@[g]@);
        if g < count {
            assert(group_keys::key_rows(first@)[g] == first@[g]@);
        } else {
            assert(group_keys::key_rows(last@)[g - count] == last@[g - count]@);
        }
    }
}

impl GroupValuesColumn {
    /// Groups hold on to 40 bytes for each key and to the bytes of its value at least.
    pub(crate) proof fn lemma_retains(self, size: usize)
        requires
            self.wf(),
            self.retains(size),
        ensures
            size < usize::MAX ==> size >= 40 * self.groups().len() + group_keys::value_bytes(
                self.groups(),
            ) + 24,
    {
        let (keys, places, lists, numbers) = choose|
            keys: usize,
            places: usize,
            lists: usize,
            numbers: int,
        |
            {
                &&& #[trigger] group_keys::keys_retain(self.keys, keys)
                &&& #[trigger] call_ensures(map_capacity::<i64, usize>, (&self.places,), places)
                &&& #[trigger] call_ensures(capacity::<Vec<usize>>, (&self.lists,), lists)
                &&& #[trigger] lists_retain(self.lists@, numbers)
                &&& size == arith::capped(
                    keys + places * PLACE_BYTES + lists * LIST_BYTES + numbers,
                )
            };
        group_keys::lemma_keys_retain(self.keys, keys);
        lemma_lists_retain(self.lists@, numbers);
        assert(lists >= self.lists@.len());
        assert(places * PLACE_BYTES >= 0);
    }
}

/// Hashed groups hold on to 40 bytes for each key and to the bytes of its value at least, as
/// far as they can be counted.
pub proof fn law_sizes_cover_the_hashed_groups(hashed: &GroupValuesColumn, size: usize)
    requires
        hashed.wf(),
        call_ensures(GroupValuesColumn::size, (hashed,), size),
    ensures
        size < usize::MAX ==> size >= 40 * hashed.groups().len() + group_keys::value_bytes(
            hashed.groups(),
        ) + 24,
{
    hashed.lemma_retains(size);
}

proof fn lemma_lists_retain(lists: Seq<Vec<usize>>, total: int)
    requires
        lists_retain(lists, total),
    ensures
        total >= 0,
    decreases lists.len(),
{
    if lists.len() > 0 {
        let room = choose|room: usize| #[trigger]
            call_ensures(capacity::<usize>, (&lists.last(),), room) && lists_retain(
                lists.drop_last(),
                total - room * INDEX_BYTES,
            );
        lemma_lists_retain(lists.drop_last(), total - room * INDEX_BYTES);
    }
}

/// Groups that are made of keys have the numbers in which the keys come, and are emitted as
/// they came; fresh groups are none.
pub proof fn law_given_keys_are_emitted(
    fresh: GroupValuesColumn,
    none: usize,
    keys: Vec<GroupKey>,
    made: GroupValuesColumn,
    all: &mut GroupValuesColumn,
    emitted: Vec<GroupKey>,
)
    requires
        call_ensures(GroupValuesColumn::new, (), fresh),
        call_ensures(GroupValuesColumn::len, (&fresh,), none),
        group_keys::key_rows(keys@).no_duplicates(),
        call_ensures(GroupValuesColumn::from_distinct, (keys,), made),
        *old(all) == made,
        call_ensures(GroupValuesColumn::emit, (all, EmitTo::All), emitted),
    ensures
        none == 0,
        emitted@.len() == keys@.len(),
        forall|g: int| 0 <= g < keys@.len() ==> (#[trigger] emitted@[g])@ == keys@[g]@,
{
    assert(group_keys::key_rows(emitted@).len() == group_keys::key_rows(keys@).len());
    assert forall|g: int| 0 <= g < keys@.len() implies (#[trigger] emitted@[g])@ == keys@[g]@ by {
        assert(group_keys::key_rows(emitted@)[g] == group_keys::key_rows(keys@)[g]);
    }
}

} // verus!
