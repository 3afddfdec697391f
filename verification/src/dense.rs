//! Direct-address grouping for a small observed domain of integers by
//! dictionary values.
//!
//! Admission depends only on the input. Sparse or changing domains move to
//! hashing, and every group keeps its number.
use crate::arith;
use crate::data_type::{DataType, Schema};
use crate::dictionary_ids;
use crate::dictionary_ids::DictionaryIds;
use crate::domain;
use crate::domain::{IntegerDomain, ENTRY_BYTES};
use crate::error::ExecError;
use crate::group_keys;
use crate::group_keys::{
    DictionaryColumn, EmitTo, EmittedColumn, GroupColumn, GroupKey, IntegerColumn,
};
use crate::group_values_column::GroupValuesColumn;
use crate::routing;
use crate::routing::EMPTY;
use crate::shared::{capacity, reserved, shrink_to};
use vstd::prelude::*;

verus! {

/// Bytes that a routing table and a dictionary may each occupy.
pub const MAX_ROUTING_BYTES: usize = 8388608;

/// Bytes of one row number or ordinal.
pub const INDEX_BYTES: usize = 8;

/// A 64-bit integer column.
pub open spec fn is_integer_type(data_type: DataType) -> bool {
    data_type is Int64 || data_type is Timestamp
}

/// A dictionary of byte strings with 32-bit keys.
pub open spec fn is_dictionary_type(data_type: DataType) -> bool {
    match data_type {
        DataType::Dictionary(key, value) => *key is Int32 && (*value is Binary || *value is Utf8),
        _ => false,
    }
}

/// One integer and one dictionary column, in either order.
pub open spec fn is_supported(schema: Schema) -> bool {
    &&& schema.fields@.len() == 2
    &&& {
        ||| is_integer_type(schema.fields@[0].data_type) && is_dictionary_type(
            schema.fields@[1].data_type,
        )
        ||| is_integer_type(schema.fields@[1].data_type) && is_dictionary_type(
            schema.fields@[0].data_type,
        )
    }
}

/// Groups that are addressed directly, or hashed once that does not pay.
#[derive(Debug)]
pub struct GroupValuesDense {
    integer_index: usize,
    dictionary_index: usize,
    keys: Vec<GroupKey>,
    domain: Option<IntegerDomain>,
    dictionary: DictionaryIds,
    table: Vec<u32>,
    tag_width: usize,
    ordinals: Vec<usize>,
    new_groups: Vec<usize>,
    fallback: Option<GroupValuesColumn>,
    limit: usize,
}

fn is_integer(data_type: &DataType) -> (result: bool)
    ensures
        result == is_integer_type(*data_type),
{
    match data_type {
        DataType::Int64 => true,
        DataType::Timestamp(_, _) => true,
        _ => false,
    }
}

fn is_dictionary(data_type: &DataType) -> (result: bool)
    ensures
        result == is_dictionary_type(*data_type),
{
    match data_type {
        DataType::Dictionary(key, value) => match **key {
            DataType::Int32 => match **value {
                DataType::Binary => true,
                DataType::Utf8 => true,
                _ => false,
            },
            _ => false,
        },
        _ => false,
    }
}

impl GroupValuesDense {
    /// Where the integer column is.
    pub closed spec fn integer_place(self) -> int {
        self.integer_index as int
    }

    /// The domain that integers are addressed by.
    pub closed spec fn observed_domain(self) -> Option<IntegerDomain> {
        self.domain
    }

    /// Bytes that the routing table and the dictionary may each occupy.
    pub closed spec fn byte_limit(self) -> int {
        self.limit as int
    }

    /// Entries of the routing table.
    pub closed spec fn table_entries(self) -> int {
        self.table@.len() as int
    }

    /// The numbers of the dictionary values that are addressed.
    pub closed spec fn value_numbers(self) -> DictionaryIds {
        self.dictionary
    }

    /// Groups are hashed.
    pub closed spec fn is_hashed(self) -> bool {
        self.fallback is Some
    }

    /// The group keys by number.
    pub closed spec fn groups(self) -> Seq<group_keys::KeyRow> {
        match self.fallback {
            Some(fallback) => fallback.groups(),
            None => group_keys::key_rows(self.keys@),
        }
    }

    spec fn is_routed(self) -> bool {
        match self.domain {
            Some(domain) => {
                &&& domain.wf()
                &&& self.tag_width >= 1
                &&& self.table@.len() < EMPTY
                &&& routing::routes(
                    self.table@,
                    group_keys::key_rows(self.keys@),
                    domain,
                    self.dictionary.ids(),
                    self.tag_width as int,
                )
            },
            None => self.keys@.len() == 0,
        }
    }

    /// No key has two groups, and each group is found from its key.
    pub closed spec fn wf(self) -> bool {
        &&& self.integer_index < 2
        &&& self.dictionary_index == 1 - self.integer_index
        &&& match self.fallback {
            Some(fallback) => fallback.wf(),
            None => {
                &&& self.dictionary.wf()
                &&& self.dictionary.cache_wf()
                &&& group_keys::key_rows(self.keys@).no_duplicates()
                &&& self.is_routed()
            },
        }
    }

    /// No key has two groups, whatever was done before.
    pub proof fn law_no_key_has_two_groups(self)
        requires
            self.wf(),
        ensures
            self.groups().no_duplicates(),
    {
        if let Some(fallback) = self.fallback {
            fallback.lemma_no_key_twice();
        }
    }

    /// The integers are the first column or the second.
    pub proof fn lemma_integer_place(self)
        requires
            self.wf(),
        ensures
            self.integer_place() == 0 || self.integer_place() == 1,
    {
    }

    /// The keys of a batch are read from its columns, in whichever order they come: the
    /// integers with their null flags, and the values that the dictionary keys refer to.
    pub proof fn law_batches_are_read_from_their_columns(self, columns: Seq<GroupColumn>, row: int)
        requires
            self.wf(),
            columns.len() == 2,
            columns[0].rows() == columns[1].rows(),
            self.accepts(columns),
            0 <= row < columns[0].rows(),
        ensures
            self.batch(columns).len() == columns[0].rows(),
            match (columns[0], columns[1]) {
                (GroupColumn::Integer(integers), GroupColumn::Dictionary(dictionary)) => {
                    &&& self.integer_place() == 0
                    &&& key_is(self.batch(columns)[row], integers, dictionary, row)
                },
                (GroupColumn::Dictionary(dictionary), GroupColumn::Integer(integers)) => {
                    &&& self.integer_place() == 1
                    &&& key_is(self.batch(columns)[row], integers, dictionary, row)
                },
                _ => false,
            },
    {
    }

    /// Whether direct addressing supports the columns.
    pub fn supports_schema(schema: &Schema) -> (result: bool)
        ensures
            result == is_supported(*schema),
    {
        if schema.fields.len() != 2 {
            return false;
        }
        let first: &DataType = &schema.fields[0].data_type;
        let second: &DataType = &schema.fields[1].data_type;
        (is_integer(first) && is_dictionary(second)) || (is_integer(second) && is_dictionary(first))
    }

    /// No groups yet, for columns of the given schema.
    pub fn try_new(schema: &Schema) -> (result: Result<Self, ExecError>)
        ensures
            match result {
                Ok(groups) => {
                    &&& is_supported(*schema)
                    &&& groups.wf()
                    &&& groups.groups() == Seq::<group_keys::KeyRow>::empty()
                    &&& groups.integer_place() == (if is_integer_type(schema.fields@[0].data_type) {
                        0int
                    } else {
                        1int
                    })
                    &&& groups.observed_domain() is None
                    &&& !groups.is_hashed()
                    &&& groups.byte_limit() == MAX_ROUTING_BYTES
                },
                Err(error) => !is_supported(*schema) && error is UnsupportedGroupSchema,
            },
    {
        if !Self::supports_schema(schema) {
            return Err(ExecError::UnsupportedGroupSchema);
        }
        let integer_index: usize = match schema.fields[0].data_type {
            DataType::Dictionary(_, _) => 1,
            _ => 0,
        };
        let result = GroupValuesDense {
            integer_index,
            dictionary_index: 1 - integer_index,
            keys: Vec::new(),
            domain: None,
            dictionary: DictionaryIds::new(),
            table: Vec::new(),
            tag_width: 0,
            ordinals: Vec::new(),
            new_groups: Vec::new(),
            fallback: None,
            limit: MAX_ROUTING_BYTES,
        };
        assert(result.groups() =~= Seq::<group_keys::KeyRow>::empty());
        Ok(result)
    }

    /// What moving to hashing relies on: the groups, whatever addresses them.
    spec fn is_stored(self) -> bool {
        &&& self.integer_index < 2
        &&& self.dictionary_index == 1 - self.integer_index
        &&& match self.fallback {
            Some(fallback) => fallback.wf(),
            None => group_keys::key_rows(self.keys@).no_duplicates(),
        }
    }

    /// Moves the groups to hashing, each with its number.
    fn migrate(&mut self)
        requires
            old(self).is_stored(),
        ensures
            final(self).wf(),
            final(self).is_hashed(),
            final(self).groups() == old(self).groups(),
            final(self).integer_place() == old(self).integer_place(),
            final(self).byte_limit() == old(self).byte_limit(),
    {
        if self.fallback.is_some() {
            return;
        }
        let mut keys: Vec<GroupKey> = Vec::new();
        std::mem::swap(&mut keys, &mut self.keys);
        self.table = Vec::new();
        self.dictionary = DictionaryIds::new();
        self.domain = None;
        self.ordinals = Vec::new();
        self.new_groups = Vec::new();
        self.fallback = Some(GroupValuesColumn::from_distinct(keys));
    }

    /// Replaces the routing table by one for `domain` and the values numbered by
    /// now, with every group at the entry of its key.
    ///
    /// This fails where the table would outgrow the limit or the entries' type.
    fn resize_table(&mut self, domain: IntegerDomain) -> (result: bool)
        requires
            old(self).fallback is None,
            old(self).dictionary.wf(),
            old(self).is_routed(),
            domain.wf(),
            match old(self).domain {
                Some(current) => domain.covers(current),
                None => true,
            },
        ensures
            final(self).integer_index == old(self).integer_index,
            final(self).dictionary_index == old(self).dictionary_index,
            final(self).keys == old(self).keys,
            final(self).dictionary == old(self).dictionary,
            final(self).ordinals == old(self).ordinals,
            final(self).new_groups == old(self).new_groups,
            final(self).fallback is None,
            final(self).limit == old(self).limit,
            !result ==> *final(self) == *old(self),
            ({
                let tag_width = arith::power_of_two_at_least(
                    (old(self).dictionary.ids().dom().len() + 1) as int,
                );
                let cells = routing::cells(domain, tag_width);
                &&& result == ((old(self).domain == Some(domain) && old(self).tag_width
                    == tag_width) || (cells <= old(self).limit / ENTRY_BYTES && cells < EMPTY))
                &&& result ==> final(self).domain == Some(domain) && final(self).tag_width
                    == tag_width && final(self).is_routed() && final(self).table@.len() == cells
                &&& result ==> final(self).table@.len() <= old(self).limit / ENTRY_BYTES
                    || final(self).table == old(self).table
            }),
    {
        let ghost ids = self.dictionary.ids();
        let ghost exact = arith::power_of_two_at_least((ids.dom().len() + 1) as int);
        proof {
            arith::lemma_power_of_two_at_least((ids.dom().len() + 1) as int);
            lemma_cells_bound(domain.width as int, exact);
        }
        let tag_width: usize = match arith::checked_power_of_two_at_least(self.dictionary.len()) {
            Some(tag_width) => tag_width,
            None => {
                return false;
            },
        };
        if let Some(current) = self.domain {
            if current == domain && self.tag_width == tag_width {
                return true;
            }
        }
        let rows: usize = match domain.width.checked_add(1) {
            Some(rows) => rows,
            None => {
                return false;
            },
        };
        let cells: usize = match rows.checked_mul(tag_width) {
            Some(cells) => cells,
            None => {
                return false;
            },
        };
        if cells > self.limit / ENTRY_BYTES || cells >= EMPTY as usize {
            return false;
        }
        let mut table: Vec<u32> = vec![EMPTY;cells];
        let ghost keys = group_keys::key_rows(self.keys@);
        if let Some(current) = self.domain {
            let ghost old_width = self.tag_width as int;
            let ghost old_table = self.table@;
            let mut place: usize = 0;
            while place < self.table.len()
                invariant
                    place <= self.table@.len(),
                    *self == *old(self),
                    self.domain == Some(current),
                    self.is_routed(),
                    domain.wf(),
                    domain.covers(current),
                    ids == self.dictionary.ids(),
                    dictionary_ids::numbered_from_one(ids),
                    keys == group_keys::key_rows(self.keys@),
                    tag_width >= ids.dom().len() + 1,
                    table@.len() == cells,
                    cells == routing::cells(domain, tag_width as int),
                    old_width == self.tag_width,
                    old_table == self.table@,
                    forall|g: int|
                        0 <= g < keys.len() && routing::slot(current, ids, old_width, keys[g])
                            < place ==> table@[routing::slot(
                            domain,
                            ids,
                            tag_width as int,
                            #[trigger] keys[g],
                        )] == g,
                    forall|s: int|
                        0 <= s < table@.len() && #[trigger] table@[s] != EMPTY ==> table@[s]
                            < keys.len() && routing::slot(
                            domain,
                            ids,
                            tag_width as int,
                            keys[table@[s] as int],
                        ) == s,
                decreases self.table@.len() - place,
            {
                let group: u32 = self.table[place];
                if group != EMPTY {
                    let ghost key = keys[group as int];
                    proof {
                        lemma_readdressed(current, domain, ids, old_width, tag_width as int, key);
                    }
                    let old_ordinal: usize = place / self.tag_width;
                    let tag: usize = place % self.tag_width;
                    let ordinal: usize = if old_ordinal == 0 {
                        0
                    } else {
                        proof {
                            lemma_step(current, old_ordinal as int);
                        }
                        let steps: i64 = match i64::try_from(old_ordinal - 1) {
                            Ok(steps) => steps,
                            Err(_) => {
                                return false;
                            },
                        };
                        let distance: i64 = match steps.checked_mul(current.stride) {
                            Some(distance) => distance,
                            None => {
                                return false;
                            },
                        };
                        let value: i64 = match current.base.checked_add(distance) {
                            Some(value) => value,
                            None => {
                                return false;
                            },
                        };
                        match domain.ordinal(value) {
                            Some(ordinal) => ordinal,
                            None => {
                                return false;
                            },
                        }
                    };
                    let ghost before = table@;
                    proof {
                        lemma_product(ordinal as int, tag_width as int, domain.width as int);
                    }
                    table[ordinal * tag_width + tag] = group;
                    proof {
                        assert forall|g: int|
                            0 <= g < keys.len() && routing::slot(current, ids, old_width, keys[g])
                                < place + 1 implies table@[routing::slot(
                            domain,
                            ids,
                            tag_width as int,
                            #[trigger] keys[g],
                        )] == g by {
                            lemma_readdressed(
                                current,
                                domain,
                                ids,
                                old_width,
                                tag_width as int,
                                keys[g],
                            );
                            assert(old_table[routing::slot(current, ids, old_width, keys[g])] == g);
                            if g != group {
                                routing::law_routing_is_injective(
                                    domain,
                                    ids,
                                    tag_width as int,
                                    keys[g],
                                    key,
                                );
                                routing::law_routing_is_injective(
                                    current,
                                    ids,
                                    old_width,
                                    keys[g],
                                    key,
                                );
                            }
                        }
                    }
                } else {
                    assert forall|g: int|
                        0 <= g < keys.len() && routing::slot(current, ids, old_width, keys[g])
                            < place + 1 implies table@[routing::slot(
                        domain,
                        ids,
                        tag_width as int,
                        #[trigger] keys[g],
                    )] == g by {
                        assert(old_table[routing::slot(current, ids, old_width, keys[g])] == g);
                        routing::lemma_groups_fit(old_table, keys, current, ids, old_width);
                    }
                }
                place = place + 1;
            }
            proof {
                assert forall|g: int| 0 <= g < keys.len() implies routing::is_addressed(
                    domain,
                    ids,
                    tag_width as int,
                    #[trigger] keys[g],
                ) && table@[routing::slot(domain, ids, tag_width as int, keys[g])] == g by {
                    lemma_readdressed(
                        current,
                        domain,
                        ids,
                        old_width,
                        tag_width as int,
                        keys[g],
                    );
                }
            }
        }
        self.table = table;
        self.domain = Some(domain);
        self.tag_width = tag_width;
        true
    }

    /// Finds the table rows of all integers, where `domain` has every one of them
    /// and their memory can be had. It stops at the first integer that `domain` does
    /// not have, and at once where there is no memory.
    fn map_ordinals(&mut self, domain: IntegerDomain, values: &[i64], nulls: &[bool]) -> (result:
        bool)
        requires
            domain.wf(),
            values@.len() == nulls@.len(),
        ensures
            final(self).integer_index == old(self).integer_index,
            final(self).dictionary_index == old(self).dictionary_index,
            final(self).keys == old(self).keys,
            final(self).domain == old(self).domain,
            final(self).dictionary == old(self).dictionary,
            final(self).table == old(self).table,
            final(self).tag_width == old(self).tag_width,
            final(self).fallback == old(self).fallback,
            final(self).limit == old(self).limit,
            final(self).new_groups == old(self).new_groups,
            result ==> addresses(domain, values@, nulls@, final(self).ordinals@),
            addresses_prefix(domain, values@, nulls@, final(self).ordinals@),
            result == (final(self).ordinals@.len() == values@.len()),
            !result ==> is_missing(domain, values@, nulls@, final(self).ordinals@.len() as int) || (
            final(self).ordinals@.len() == 0 && indices_lack_memory(values@.len() as usize)),
    {
        self.ordinals.clear();
        if values.len() > 0 {
            if !reserve(&mut self.ordinals, values.len()) {
                return false;
            }
        }
        fill_ordinals(domain, values, nulls, &mut self.ordinals)
    }

    /// Numbers the rows through the table, which has an entry for each of them.
    fn assign_groups(
        &mut self,
        integers: &IntegerColumn,
        dictionary: &DictionaryColumn,
        groups: &mut Vec<usize>,
    )
        requires
            old(self).wf(),
            old(self).fallback is None,
            integers.wf(),
            dictionary.wf(),
            integers.values@.len() == dictionary.keys@.len(),
            old(self).domain is Some,
            addresses(
                (old(self).domain)->0,
                integers.values@,
                integers.nulls@,
                old(self).ordinals@,
            ),
            old(self).dictionary.cached() == Some(dictionary.values.rows()),
            old(self).tag_width >= old(self).dictionary.ids().dom().len() + 1,
            old(groups)@.len() == 0,
        ensures
            final(self).wf(),
            final(self).fallback is None,
            final(self).integer_index == old(self).integer_index,
            final(self).domain == old(self).domain,
            final(self).limit == old(self).limit,
            final(self).table@.len() == old(self).table@.len(),
            final(self).groups() == group_keys::interned(
                old(self).groups(),
                group_keys::batch_rows(*integers, *dictionary),
            ),
            group_keys::numbers(
                final(self).groups(),
                group_keys::batch_rows(*integers, *dictionary),
                final(groups)@,
            ),
    {
        let ghost domain = (self.domain)->0;
        let ghost ids = self.dictionary.ids();
        let ghost width = self.tag_width as int;
        let ghost rows = group_keys::batch_rows(*integers, *dictionary);
        let ghost start = group_keys::key_rows(self.keys@);
        let ghost mut known: Seq<group_keys::KeyRow> = start;
        let old_len: usize = self.keys.len();
        self.new_groups.clear();
        assert(rows.take(0) =~= Seq::<group_keys::KeyRow>::empty());
        let mut row: usize = 0;
        while row < self.ordinals.len()
            invariant
                integers.wf(),
                dictionary.wf(),
                integers.values@.len() == dictionary.keys@.len(),
                self.integer_index == old(self).integer_index,
                self.dictionary_index == old(self).dictionary_index,
                self.keys == old(self).keys,
                self.domain == Some(domain),
                self.domain == old(self).domain,
                self.dictionary == old(self).dictionary,
                self.tag_width == old(self).tag_width,
                self.ordinals == old(self).ordinals,
                self.fallback is None,
                self.limit == old(self).limit,
                self.dictionary.wf(),
                self.dictionary.cache_wf(),
                self.dictionary.cached() == Some(dictionary.values.rows()),
                ids == self.dictionary.ids(),
                width == self.tag_width,
                width >= ids.dom().len() + 1,
                domain.wf(),
                addresses(domain, integers.values@, integers.nulls@, self.ordinals@),
                rows == group_keys::batch_rows(*integers, *dictionary),
                row <= rows.len(),
                start == group_keys::key_rows(self.keys@),
                start.no_duplicates(),
                old_len == start.len(),
                self.table@.len() < EMPTY,
                self.table@.len() == old(self).table@.len(),
                routing::routes(self.table@, known, domain, ids, width),
                known == group_keys::interned(start, rows.take(row as int)),
                known.no_duplicates(),
                group_keys::numbers(known, rows.take(row as int), groups@),
                known.len() == start.len() + self.new_groups@.len(),
                known.take(start.len() as int) == start,
                forall|i: int|
                    0 <= i < self.new_groups@.len() ==> (#[trigger] self.new_groups@[i])
                        < rows.len() && rows[self.new_groups@[i] as int] == known[start.len() + i],
            decreases rows.len() - row,
        {
            let ordinal: usize = self.ordinals[row];
            let tag: usize = match dictionary.keys[row] {
                Some(key) => self.dictionary.cached_id(key) as usize,
                None => 0,
            };
            let ghost key = rows[row as int];
            let ghost done = rows.take(row as int);
            proof {
                assert(rows.take(row + 1).drop_last() =~= done);
                if let Some(at) = dictionary.keys@[row as int] {
                    assert(dictionary_ids::is_numbered(
                        ids,
                        dictionary.values.rows()[at as int],
                    ));
                }
                if let Some(bytes) = key.1 {
                    assert(ids.contains_key(bytes));
                }
                assert(routing::is_addressed(domain, ids, width, key));
                routing::lemma_slot(domain, ids, width, key);
                lemma_product(ordinal as int, width, domain.width as int);
                routing::lemma_groups_fit(self.table@, known, domain, ids, width);
            }
            let place: usize = ordinal * self.tag_width + tag;
            assert(place == routing::slot(domain, ids, width, key));
            let entry: u32 = self.table[place];
            let group: u32 = if entry == EMPTY {
                let group: u32 = (old_len + self.new_groups.len()) as u32;
                proof {
                    routing::lemma_routes_push(self.table@, known, domain, ids, width, key);
                }
                self.table[place] = group;
                self.new_groups.push(row);
                proof {
                    let before = known;
                    known = known.push(key);
                    assert(known.take(start.len() as int) =~= before.take(start.len() as int));
                }
                group
            } else {
                proof {
                    routing::lemma_routes_lookup(self.table@, known, domain, ids, width, key);
                    assert(known.contains(key));
                }
                entry
            };
            groups.push(group as usize);
            proof {
                assert forall|i: int| 0 <= i < groups@.len() implies (#[trigger] groups@[i])
                    < known.len() && known[groups@[i] as int] == rows.take(row + 1)[i] by {
                    if i < row {
                        assert(done[i] == rows[i]);
                    }
                }
            }
            row = row + 1;
        }
        assert(rows.take(rows.len() as int) =~= rows);
        let mut next: usize = 0;
        while next < self.new_groups.len()
            invariant
                integers.wf(),
                dictionary.wf(),
                integers.values@.len() == dictionary.keys@.len(),
                next <= self.new_groups@.len(),
                self.integer_index == old(self).integer_index,
                self.dictionary_index == old(self).dictionary_index,
                self.domain == Some(domain),
                self.domain == old(self).domain,
                self.dictionary == old(self).dictionary,
                self.tag_width == old(self).tag_width,
                self.fallback is None,
                self.limit == old(self).limit,
                ids == self.dictionary.ids(),
                width == self.tag_width,
                self.table@.len() < EMPTY,
                self.table@.len() == old(self).table@.len(),
                routing::routes(self.table@, known, domain, ids, width),
                rows == group_keys::batch_rows(*integers, *dictionary),
                known.len() == start.len() + self.new_groups@.len(),
                group_keys::key_rows(self.keys@) == known.take(start.len() + next),
                forall|i: int|
                    0 <= i < self.new_groups@.len() ==> (#[trigger] self.new_groups@[i])
                        < rows.len() && rows[self.new_groups@[i] as int] == known[start.len() + i],
            decreases self.new_groups@.len() - next,
        {
            let row: usize = self.new_groups[next];
            let integer: Option<i64> = if integers.nulls[row] {
                None
            } else {
                Some(integers.values[row])
            };
            let ghost before = self.keys@;
            self.keys.push(GroupKey::of(integer, dictionary.value_at(row)));
            proof {
                assert(self.keys@[before.len() as int]@ == rows[row as int]);
                assert(group_keys::key_rows(before).len() == before.len());
                assert(group_keys::key_rows(self.keys@) =~= known.take(start.len() + next + 1)) by {
                    assert forall|g: int| 0 <= g < self.keys@.len() implies #[trigger] self.keys@[g]@
                        == known[g] by {
                        if g < before.len() {
                            assert(group_keys::key_rows(before)[g] == known[g]);
                        }
                    }
                }
            }
            next = next + 1;
        }
        assert(known.take(known.len() as int) =~= known);
    }

    /// Whether `columns` are what this grouping was made for.
    pub open spec fn accepts(self, columns: Seq<GroupColumn>) -> bool {
        columns.len() == 2 && columns[0].rows() == columns[1].rows() ==> {
            &&& columns[self.integer_place()] is Integer
            &&& columns[1 - self.integer_place()] is Dictionary
            &&& columns[0].wf()
            &&& columns[1].wf()
        }
    }

    /// The integer column.
    pub open spec fn integers(self, columns: Seq<GroupColumn>) -> IntegerColumn {
        columns[self.integer_place()]->Integer_0
    }

    /// The dictionary column.
    pub open spec fn dictionaries(self, columns: Seq<GroupColumn>) -> DictionaryColumn {
        columns[1 - self.integer_place()]->Dictionary_0
    }

    /// The keys of a batch.
    pub open spec fn batch(self, columns: Seq<GroupColumn>) -> Seq<group_keys::KeyRow> {
        group_keys::batch_rows(self.integers(columns), self.dictionaries(columns))
    }

    /// The domain that a batch asks for.
    pub open spec fn next_domain(self, columns: Seq<GroupColumn>) -> Option<IntegerDomain> {
        IntegerDomain::observed(
            domain::present(self.integers(columns).values@, self.integers(columns).nulls@),
            self.observed_domain(),
        )
    }

    /// A batch that direct addressing must decline: it shows no lattice, or it is
    /// the first one and its table would outgrow the limit.
    pub open spec fn must_decline(self, columns: Seq<GroupColumn>) -> bool {
        let integers = self.integers(columns);
        let tags = self.dictionaries(columns).values.rows().len() as int;
        match self.next_domain(columns) {
            Some(next) => self.observed_domain() is None && domain::product_exceeds(
                next.width as int,
                tags,
                self.byte_limit(),
            ),
            None => true,
        }
    }

    /// The dictionary of a batch is declined: it was not to be numbered within the limit.
    pub open spec fn declines_dictionary(self, columns: Seq<GroupColumn>) -> bool {
        exists|after: DictionaryIds| #[trigger]
            dictionary_ids::prepared(
                self.value_numbers(),
                self.dictionaries(columns).values,
                self.byte_limit() as usize,
                after,
                false,
            )
    }

    /// The table for the domain of a batch and for the values that are numbered by then
    /// outgrows the limit or the entries' type.
    pub open spec fn outgrows_table(self, columns: Seq<GroupColumn>) -> bool {
        &&& self.next_domain(columns) matches Some(next)
        &&& exists|after: DictionaryIds|
            #[trigger] dictionary_ids::prepared(
                self.value_numbers(),
                self.dictionaries(columns).values,
                self.byte_limit() as usize,
                after,
                true,
            ) && {
                let cells = routing::cells(
                    next,
                    arith::power_of_two_at_least((after.ids().dom().len() + 1) as int),
                );
                cells > self.byte_limit() / (ENTRY_BYTES as int) || cells >= EMPTY
            }
    }

    fn fallback_intern(
        &mut self,
        integers: &IntegerColumn,
        dictionary: &DictionaryColumn,
        groups: &mut Vec<usize>,
    )
        requires
            old(self).is_stored(),
            integers.wf(),
            dictionary.wf(),
            integers.values@.len() == dictionary.keys@.len(),
        ensures
            final(self).wf(),
            final(self).is_hashed(),
            final(self).integer_place() == old(self).integer_place(),
            final(self).byte_limit() == old(self).byte_limit(),
            final(self).groups() == group_keys::interned(
                old(self).groups(),
                group_keys::batch_rows(*integers, *dictionary),
            ),
            group_keys::numbers(
                final(self).groups(),
                group_keys::batch_rows(*integers, *dictionary),
                final(groups)@,
            ),
    {
        self.migrate();
        if let Some(fallback) = &mut self.fallback {
            fallback.intern(integers, dictionary, groups);
        }
    }

    /// Numbers every row of a batch, adding groups for keys that are new.
    ///
    /// The numbers do not depend on how groups are addressed. Memory decides where
    /// that is not settled by the batch: a dictionary that outgrows the limit moves
    /// the groups to hashing, and numbers that cannot be allocated are an error
    /// that leaves the groups as they were.
    pub fn intern(&mut self, columns: &[GroupColumn], groups: &mut Vec<usize>) -> (result: Result<
        (),
        ExecError,
    >)
        requires
            old(self).wf(),
            old(self).accepts(columns@),
        ensures
            final(self).wf(),
            final(self).integer_place() == old(self).integer_place(),
            final(self).byte_limit() == old(self).byte_limit(),
            old(self).is_hashed() ==> final(self).is_hashed(),
            match result {
                Ok(_) => {
                    let rows = old(self).batch(columns@);
                    &&& columns@.len() == 2 && columns@[0].rows() == columns@[1].rows()
                    &&& final(self).groups() == group_keys::interned(old(self).groups(), rows)
                    &&& group_keys::numbers(final(self).groups(), rows, final(groups)@)
                    &&& rows.len() == 0 ==> final(self).is_hashed() == old(self).is_hashed()
                        && final(self).observed_domain() == old(self).observed_domain()
                    &&& rows.len() > 0 && !old(self).is_hashed() && old(self).must_decline(columns@)
                        ==> final(self).is_hashed()
                    &&& !old(self).is_hashed() && final(self).is_hashed() ==> {
                        ||| old(self).must_decline(columns@)
                        ||| old(self).declines_dictionary(columns@)
                        ||| old(self).outgrows_table(columns@)
                        ||| indices_lack_memory(rows.len() as usize)
                    }
                    &&& rows.len() > 0 && !final(self).is_hashed() ==> final(self).observed_domain()
                        == old(self).next_domain(columns@)
                    &&& rows.len() > 0 && !final(self).is_hashed() ==> final(self).table_entries()
                        * ENTRY_BYTES <= old(self).byte_limit() || final(self).table_entries()
                        == old(self).table_entries()
                },
                Err(ExecError::MismatchedGroupColumns) => {
                    &&& !(columns@.len() == 2 && columns@[0].rows() == columns@[1].rows())
                    &&& *final(self) == *old(self)
                    &&& *final(groups) == *old(groups)
                },
                Err(ExecError::GroupReservation { rows }) => {
                    &&& columns@.len() == 2 && columns@[0].rows() == columns@[1].rows()
                    &&& rows == old(self).batch(columns@).len()
                    &&& rows > 0
                    &&& !final(self).is_hashed()
                    &&& !old(self).must_decline(columns@)
                    &&& indices_lack_memory(rows)
                    &&& final(self).groups() == old(self).groups()
                    &&& final(groups)@.len() == 0
                },
                Err(_) => false,
            },
    {
        if columns.len() != 2 || columns[0].len() != columns[1].len() {
            return Err(ExecError::MismatchedGroupColumns);
        }
        let (integers, dictionary): (&IntegerColumn, &DictionaryColumn) = match (
            &columns[self.integer_index],
            &columns[self.dictionary_index],
        ) {
            (GroupColumn::Integer(integers), GroupColumn::Dictionary(dictionary)) => (
                integers,
                dictionary,
            ),
            _ => {
                return Err(ExecError::MismatchedGroupColumns);
            },
        };
        if let Some(fallback) = &mut self.fallback {
            fallback.intern(integers, dictionary, groups);
            return Ok(());
        }
        groups.clear();
        let ghost rows = group_keys::batch_rows(*integers, *dictionary);
        let ghost values = domain::present(integers.values@, integers.nulls@);
        let count: usize = integers.values.len();
        if count == 0 {
            assert(rows.len() == 0);
            return Ok(());
        }
        let first: bool = self.domain.is_none();
        if first && domain::sample_exceeds_limit(
            integers.values.as_slice(),
            integers.nulls.as_slice(),
            dictionary.values.len(),
            self.limit,
        ) {
            proof {
                domain::law_sampling_only_rejects(
                    integers.values@,
                    integers.nulls@,
                    dictionary.values.rows().len() as int,
                    self.limit as int,
                );
            }
            self.fallback_intern(integers, dictionary, groups);
            return Ok(());
        }
        let mapped: bool = match self.domain {
            Some(domain) => self.map_ordinals(
                domain,
                integers.values.as_slice(),
                integers.nulls.as_slice(),
            ),
            None => false,
        };
        let found: Option<IntegerDomain> = if mapped {
            self.domain
        } else {
            IntegerDomain::observe(
                integers.values.as_slice(),
                integers.nulls.as_slice(),
                self.domain,
            )
        };
        proof {
            lemma_present_rows(integers.values@, integers.nulls@);
            if mapped {
                let domain = (self.domain)->0;
                lemma_addressed_present(
                    domain,
                    integers.values@,
                    integers.nulls@,
                    self.ordinals@,
                );
                domain::law_observed_domain_is_stable(values, domain);
            }
        }
        assert(found == IntegerDomain::observed(values, old(self).domain));
        let domain: IntegerDomain = match found {
            Some(domain) => domain,
            None => {
                self.fallback_intern(integers, dictionary, groups);
                return Ok(());
            },
        };
        proof {
            domain::law_observed_domain_covers(values, old(self).domain);
        }
        if first && product_exceeds_limit(domain.width, dictionary.values.len(), self.limit) {
            self.fallback_intern(integers, dictionary, groups);
            return Ok(());
        }
        let ghost numbers = self.dictionary;
        let ghost ids = self.dictionary.ids();
        assert(numbers == old(self).value_numbers());
        assert(old(self).byte_limit() as usize == self.limit);
        assert(old(self).dictionaries(columns@) == *dictionary);
        if !self.dictionary.prepare(&dictionary.values, self.limit) {
            assert(dictionary_ids::prepared(
                old(self).value_numbers(),
                old(self).dictionaries(columns@).values,
                old(self).byte_limit() as usize,
                self.dictionary,
                false,
            ));
            self.fallback_intern(integers, dictionary, groups);
            return Ok(());
        }
        proof {
            if let Some(current) = self.domain {
                routing::lemma_routes_extend(
                    self.table@,
                    group_keys::key_rows(self.keys@),
                    current,
                    ids,
                    self.dictionary.ids(),
                    self.tag_width as int,
                );
            }
        }
        let ghost after = self.dictionary;
        assert(dictionary_ids::prepared(
            old(self).value_numbers(),
            old(self).dictionaries(columns@).values,
            old(self).byte_limit() as usize,
            after,
            true,
        ));
        if !self.resize_table(domain) {
            assert(old(self).outgrows_table(columns@));
            self.fallback_intern(integers, dictionary, groups);
            return Ok(());
        }
        proof {
            arith::lemma_power_of_two_at_least((self.dictionary.ids().dom().len() + 1) as int);
        }
        if !mapped {
            if !self.map_ordinals(
                domain,
                integers.values.as_slice(),
                integers.nulls.as_slice(),
            ) {
                proof {
                    let row = self.ordinals@.len() as int;
                    if is_missing(domain, integers.values@, integers.nulls@, row) {
                        lemma_row_is_present(integers.values@, integers.nulls@, row);
                    }
                }
                self.fallback_intern(integers, dictionary, groups);
                return Ok(());
            }
        }
        if !reserve(groups, count) {
            return Err(ExecError::GroupReservation { rows: count });
        }
        self.assign_groups(integers, dictionary, groups);
        Ok(())
    }

    /// The number of groups.
    pub fn len(&self) -> (result: usize)
        ensures
            result == self.groups().len(),
    {
        match &self.fallback {
            Some(fallback) => fallback.len(),
            None => self.keys.len(),
        }
    }

    /// Whether there is no group.
    pub fn is_empty(&self) -> (result: bool)
        ensures
            result == (self.groups().len() == 0),
    {
        self.len() == 0
    }

    /// Whether groups are hashed.
    pub fn uses_fallback(&self) -> (result: bool)
        ensures
            result == self.is_hashed(),
    {
        self.fallback.is_some()
    }

    /// The domain that integers are addressed by.
    pub fn domain(&self) -> (result: Option<IntegerDomain>)
        ensures
            result == self.observed_domain(),
    {
        self.domain
    }

    /// The number of entries of the routing table.
    pub fn table_len(&self) -> (result: usize)
        ensures
            result == self.table_entries(),
    {
        self.table.len()
    }

    /// Bytes that the routing table was found to have allocated, at most `usize::MAX`.
    pub closed spec fn table_retains(self, bytes: usize) -> bool {
        exists|room: usize| #[trigger]
            call_ensures(capacity::<u32>, (&self.table,), room) && bytes == arith::capped(
                room * ENTRY_BYTES,
            )
    }

    /// Bytes that the routing table has allocated, at least those of its entries.
    pub fn table_size(&self) -> (result: usize)
        ensures
            self.table_retains(result),
            result >= arith::capped(self.table_entries() * ENTRY_BYTES),
    {
        let room: usize = capacity(&self.table);
        assert(call_ensures(capacity::<u32>, (&self.table,), room));
        arith::element_bytes(room, ENTRY_BYTES)
    }

    /// The numbers of the dictionary values that are addressed.
    pub fn dictionary(&self) -> (result: &DictionaryIds)
        ensures
            *result == self.value_numbers(),
    {
        &self.dictionary
    }

    /// Sets the bytes that the routing table and the dictionary may each occupy
    /// from the next batch on.
    pub fn set_limit(&mut self, limit: usize)
        requires
            old(self).wf(),
        ensures
            final(self).wf(),
            final(self).byte_limit() == limit,
            final(self).groups() == old(self).groups(),
            final(self).integer_place() == old(self).integer_place(),
            final(self).observed_domain() == old(self).observed_domain(),
            final(self).is_hashed() == old(self).is_hashed(),
    {
        self.limit = limit;
    }

    /// Takes out groups as columns in the order of the schema.
    ///
    /// Groups that stay are numbered anew from zero, in their order, and hashed.
    pub fn emit(&mut self, emit_to: EmitTo) -> (result: Vec<EmittedColumn>)
        requires
            old(self).wf(),
            emit_to matches EmitTo::First(count) ==> count <= old(self).groups().len(),
        ensures
            final(self).wf(),
            final(self).integer_place() == old(self).integer_place(),
            final(self).byte_limit() == old(self).byte_limit(),
            match emit_to {
                EmitTo::All => {
                    &&& group_keys::emits(
                        result@,
                        old(self).integer_place(),
                        old(self).groups(),
                    )
                    &&& final(self).groups() == Seq::<group_keys::KeyRow>::empty()
                    &&& final(self).is_hashed() == old(self).is_hashed()
                    &&& !final(self).is_hashed() ==> final(self).observed_domain() is None
                },
                EmitTo::First(count) => {
                    &&& group_keys::emits(
                        result@,
                        old(self).integer_place(),
                        old(self).groups().take(count as int),
                    )
                    &&& final(self).groups() == old(self).groups().skip(count as int)
                    &&& final(self).is_hashed()
                },
            },
    {
        if let EmitTo::First(_) = emit_to {
            self.migrate();
        }
        let integer_index: usize = self.integer_index;
        if let Some(fallback) = &mut self.fallback {
            let keys: Vec<GroupKey> = fallback.emit(emit_to);
            return group_keys::emit_columns(keys, integer_index);
        }
        let mut keys: Vec<GroupKey> = Vec::new();
        std::mem::swap(&mut keys, &mut self.keys);
        self.forget_routes();
        assert(self.groups() =~= Seq::<group_keys::KeyRow>::empty());
        group_keys::emit_columns(keys, integer_index)
    }

    /// Starts direct addressing anew; the keys are gone already.
    fn forget_routes(&mut self)
        requires
            old(self).is_stored(),
            old(self).fallback is None,
            old(self).keys@.len() == 0,
        ensures
            final(self).wf(),
            final(self).fallback is None,
            final(self).keys == old(self).keys,
            final(self).domain is None,
            final(self).integer_index == old(self).integer_index,
            final(self).limit == old(self).limit,
    {
        self.table = Vec::new();
        self.dictionary = DictionaryIds::new();
        self.domain = None;
        self.tag_width = 0;
    }

    /// Forgets every group and keeps scratch memory for `num_rows` rows.
    pub fn clear_shrink(&mut self, num_rows: usize)
        requires
            old(self).wf(),
        ensures
            final(self).wf(),
            final(self).integer_place() == old(self).integer_place(),
            final(self).byte_limit() == old(self).byte_limit(),
            final(self).groups() == Seq::<group_keys::KeyRow>::empty(),
            final(self).is_hashed() == old(self).is_hashed(),
            !final(self).is_hashed() ==> final(self).observed_domain() is None,
    {
        if let Some(fallback) = &mut self.fallback {
            fallback.clear();
        } else {
            self.keys = Vec::new();
            self.forget_routes();
            assert(self.groups() =~= Seq::<group_keys::KeyRow>::empty());
        }
        self.ordinals.clear();
        shrink_to(&mut self.ordinals, num_rows);
        self.new_groups.clear();
        shrink_to(&mut self.new_groups, num_rows);
    }

    /// Bytes that were found to be retained, at most `usize::MAX`: those of the keys, of
    /// the routing table, of the numbered values and of scratch memory, or those of
    /// hashed groups.
    pub closed spec fn retains(self, bytes: usize) -> bool {
        match self.fallback {
            Some(fallback) => fallback.retains(bytes),
            None => exists|keys: usize, table: usize, numbers: usize, ordinals: usize, added: usize|
                {
                    &&& #[trigger] group_keys::keys_retain(self.keys, keys)
                    &&& #[trigger] call_ensures(capacity::<u32>, (&self.table,), table)
                    &&& #[trigger] self.dictionary.retains(numbers)
                    &&& #[trigger] call_ensures(capacity::<usize>, (&self.ordinals,), ordinals)
                    &&& #[trigger] call_ensures(capacity::<usize>, (&self.new_groups,), added)
                    &&& bytes == arith::capped(
                        keys + table * ENTRY_BYTES + numbers + ordinals * INDEX_BYTES + added
                            * INDEX_BYTES,
                    )
                },
        }
    }

    /// Bytes retained. What the allocator gave beyond the contents is included.
    pub fn size(&self) -> (result: usize)
        requires
            self.wf(),
        ensures
            self.retains(result),
    {
        match &self.fallback {
            Some(fallback) => fallback.size(),
            None => {
                let keys: usize = group_keys::keys_size(&self.keys);
                let table: usize = capacity(&self.table);
                let numbers: usize = self.dictionary.size();
                let ordinals: usize = capacity(&self.ordinals);
                let added: usize = capacity(&self.new_groups);
                proof {
                    assert(call_ensures(capacity::<u32>, (&self.table,), table));
                    assert(call_ensures(capacity::<usize>, (&self.ordinals,), ordinals));
                    assert(call_ensures(capacity::<usize>, (&self.new_groups,), added));
                }
                keys.saturating_add(arith::element_bytes(table, ENTRY_BYTES)).saturating_add(
                    numbers,
                ).saturating_add(arith::element_bytes(ordinals, INDEX_BYTES)).saturating_add(
                    arith::element_bytes(added, INDEX_BYTES),
                )
            },
        }
    }
}

proof fn lemma_cells_bound(width: int, tag_width: int)
    requires
        width >= 1,
        tag_width >= 1,
    ensures
        (width + 1) * tag_width >= width + 1,
        (width + 1) * tag_width >= tag_width,
{
    assert((width + 1) * tag_width >= width + 1 && (width + 1) * tag_width >= tag_width)
        by (nonlinear_arith)
        requires
            width >= 1,
            tag_width >= 1,
    ;
}

proof fn lemma_product(ordinal: int, tag_width: int, width: int)
    requires
        0 <= ordinal <= width,
        tag_width >= 1,
    ensures
        0 <= ordinal * tag_width <= width * tag_width,
        width * tag_width + tag_width == (width + 1) * tag_width,
{
    assert(0 <= ordinal * tag_width <= width * tag_width && width * tag_width + tag_width == (width
        + 1) * tag_width) by (nonlinear_arith)
        requires
            0 <= ordinal <= width,
            tag_width >= 1,
    ;
}

/// Steps within a lattice stay within `i64`.
proof fn lemma_step(domain: IntegerDomain, ordinal: int)
    requires
        domain.wf(),
        1 <= ordinal <= domain.width,
    ensures
        0 <= ordinal - 1 <= (ordinal - 1) * domain.stride <= i64::MAX,
        i64::MIN <= domain.base + (ordinal - 1) * domain.stride <= i64::MAX,
{
    assert(ordinal - 1 <= (ordinal - 1) * domain.stride <= (domain.width - 1) * domain.stride)
        by (nonlinear_arith)
        requires
            1 <= ordinal <= domain.width,
            domain.stride >= 1,
    ;
}

/// A key that one table has an entry for has one in every table whose domain
/// covers the first one's and that is wide enough for all numbered values.
proof fn lemma_readdressed(
    from: IntegerDomain,
    to: IntegerDomain,
    ids: Map<Seq<u8>, u32>,
    from_width: int,
    to_width: int,
    key: group_keys::KeyRow,
)
    requires
        from.wf(),
        to.wf(),
        to.covers(from),
        dictionary_ids::numbered_from_one(ids),
        from_width >= 1,
        to_width >= ids.dom().len() + 1,
        routing::is_addressed(from, ids, from_width, key),
    ensures
        routing::is_addressed(to, ids, to_width, key),
        0 <= routing::slot(from, ids, from_width, key) < routing::cells(from, from_width),
        0 <= routing::slot(to, ids, to_width, key) < routing::cells(to, to_width),
        routing::slot(from, ids, from_width, key) / from_width == routing::ordinal_of(from, key.0),
        routing::slot(from, ids, from_width, key) % from_width == dictionary_ids::tag_of(
            ids,
            key.1,
        ),
        0 <= routing::ordinal_of(from, key.0) <= from.width,
        0 <= routing::ordinal_of(to, key.0) <= to.width,
        key.0 is None <==> routing::ordinal_of(from, key.0) == 0,
        key.0 matches Some(value) ==> value == from.base + (routing::ordinal_of(from, key.0) - 1)
            * from.stride && to.contains(value as int),
{
    if let Some(bytes) = key.1 {
        assert(ids.contains_key(bytes));
    }
    routing::lemma_slot(from, ids, from_width, key);
    routing::lemma_slot(to, ids, to_width, key);
}

/// `ordinals` holds the table row of every integer.
pub open spec fn addresses(
    domain: IntegerDomain,
    values: Seq<i64>,
    nulls: Seq<bool>,
    ordinals: Seq<usize>,
) -> bool {
    &&& ordinals.len() == values.len()
    &&& forall|i: int|
        0 <= i < values.len() ==> if nulls[i] {
            #[trigger] ordinals[i] == 0
        } else {
            domain.contains(values[i] as int) && ordinals[i] == domain.position(values[i] as int)
        }
}

/// Memory for `count` row numbers or ordinals was asked for and not given.
pub closed spec fn indices_lack_memory(count: usize) -> bool {
    exists|before: Vec<usize>, after: Vec<usize>| #[trigger]
        call_ensures(reserved::<usize>, (before, count), (after, false))
}

/// Whether there is memory for `count` more indices.
fn reserve(indices: &mut Vec<usize>, count: usize) -> (result: bool)
    ensures
        final(indices)@ == old(indices)@,
        !result ==> indices_lack_memory(count),
{
    let mut taken: Vec<usize> = Vec::new();
    std::mem::swap(&mut taken, indices);
    let ghost before = taken;
    let (kept, enough): (Vec<usize>, bool) = reserved(taken, count);
    proof {
        if !enough {
            assert(call_ensures(reserved::<usize>, (before, count), (kept, false)));
        }
    }
    *indices = kept;
    enough
}

/// `ordinals` are the table rows of the first integers.
pub open spec fn addresses_prefix(
    domain: IntegerDomain,
    values: Seq<i64>,
    nulls: Seq<bool>,
    ordinals: Seq<usize>,
) -> bool {
    &&& ordinals.len() <= values.len()
    &&& addresses(
        domain,
        values.take(ordinals.len() as int),
        nulls.take(ordinals.len() as int),
        ordinals,
    )
}

/// Row `row` holds an integer that `domain` does not have.
pub open spec fn is_missing(
    domain: IntegerDomain,
    values: Seq<i64>,
    nulls: Seq<bool>,
    row: int,
) -> bool {
    0 <= row < values.len() && !nulls[row] && !domain.contains(values[row] as int)
}

/// Appends the table row of every integer, where `domain` has every one of them; else
/// of those before the first that it does not have.
pub fn fill_ordinals(
    domain: IntegerDomain,
    values: &[i64],
    nulls: &[bool],
    ordinals: &mut Vec<usize>,
) -> (result: bool)
    requires
        domain.wf(),
        values@.len() == nulls@.len(),
        old(ordinals)@.len() == 0,
    ensures
        result == (forall|i: int|
            0 <= i < values@.len() && !nulls@[i] ==> domain.contains(#[trigger] values@[i] as int)),
        result ==> addresses(domain, values@, nulls@, final(ordinals)@),
        addresses_prefix(domain, values@, nulls@, final(ordinals)@),
        result == (final(ordinals)@.len() == values@.len()),
        !result ==> is_missing(domain, values@, nulls@, final(ordinals)@.len() as int),
{
    let mut row: usize = 0;
    while row < values.len()
        invariant
            domain.wf(),
            values@.len() == nulls@.len(),
            row <= values@.len(),
            ordinals@.len() == row,
            forall|i: int|
                0 <= i < row && !nulls@[i] ==> domain.contains(#[trigger] values@[i] as int),
            forall|i: int|
                0 <= i < row ==> if nulls@[i] {
                    #[trigger] ordinals@[i] == 0
                } else {
                    ordinals@[i] == domain.position(values@[i] as int)
                },
        decreases values@.len() - row,
    {
        let ordinal: usize = if nulls[row] {
            0
        } else {
            match domain.ordinal(values[row]) {
                Some(ordinal) => ordinal,
                None => {
                    assert(!domain.contains(values@[row as int] as int));
                    return false;
                },
            }
        };
        ordinals.push(ordinal);
        row = row + 1;
    }
    true
}

/// Whether the table of a domain and a dictionary outgrows `limit` bytes.
pub fn product_exceeds_limit(width: usize, dictionary_len: usize, limit: usize) -> (result: bool)
    requires
        width >= 1,
    ensures
        result == domain::product_exceeds(width as int, dictionary_len as int, limit as int),
{
    proof {
        lemma_cells_bound(width as int, dictionary_len + 1);
        assert((width + 1) * (dictionary_len + 1) >= 2 * (dictionary_len + 1)) by (nonlinear_arith)
            requires
                width >= 1,
                dictionary_len >= 0,
        ;
    }
    let rows: usize = match width.checked_add(1) {
        Some(rows) => rows,
        None => {
            return true;
        },
    };
    let tags: usize = match dictionary_len.checked_add(1) {
        Some(tags) => tags,
        None => {
            return true;
        },
    };
    match rows.checked_mul(tags) {
        Some(cells) => cells > limit / ENTRY_BYTES,
        None => true,
    }
}

/// The present values are values of the column.
proof fn lemma_present_rows(values: Seq<i64>, nulls: Seq<bool>)
    requires
        values.len() <= nulls.len(),
    ensures
        forall|i: int|
            0 <= i < domain::present(values, nulls).len() ==> i64::MIN <= #[trigger] domain::present(
                values,
                nulls,
            )[i] <= i64::MAX,
        forall|i: int|
            0 <= i < domain::present(values, nulls).len() ==> exists|row: int|
                0 <= row < values.len() && !nulls[row] && #[trigger] values[row]
                    == #[trigger] domain::present(values, nulls)[i],
    decreases values.len(),
{
    if values.len() > 0 {
        let fewer = values.drop_last();
        lemma_present_rows(fewer, nulls);
        let all = domain::present(values, nulls);
        let before = domain::present(fewer, nulls);
        assert forall|i: int| 0 <= i < all.len() implies exists|row: int|
            0 <= row < values.len() && !nulls[row] && #[trigger] values[row]
                == #[trigger] all[i] by {
            if i < before.len() {
                assert(before[i] == all[i]);
                let row = choose|row: int|
                    0 <= row < fewer.len() && !nulls[row] && #[trigger] fewer[row] == before[i];
                assert(values[row] == all[i]);
            } else {
                assert(values[values.len() - 1] == all[i]);
            }
        }
    }
}

proof fn lemma_row_is_present(values: Seq<i64>, nulls: Seq<bool>, row: int)
    requires
        values.len() <= nulls.len(),
        0 <= row < values.len(),
        !nulls[row],
    ensures
        domain::present(values, nulls).contains(values[row] as int),
    decreases values.len(),
{
    let all = domain::present(values, nulls);
    let before = domain::present(values.drop_last(), nulls);
    if row == values.len() - 1 {
        assert(all[before.len() as int] == values[row]);
    } else {
        lemma_row_is_present(values.drop_last(), nulls, row);
        let i = choose|i: int| 0 <= i < before.len() && before[i] == values[row];
        assert(all[i] == before[i]);
    }
}

proof fn lemma_addressed_present(
    domain: IntegerDomain,
    values: Seq<i64>,
    nulls: Seq<bool>,
    ordinals: Seq<usize>,
)
    requires
        values.len() == nulls.len(),
        addresses(domain, values, nulls, ordinals),
    ensures
        forall|i: int|
            0 <= i < domain::present(values, nulls).len() ==> domain.contains(
                #[trigger] domain::present(values, nulls)[i],
            ),
{
    lemma_present_rows(values, nulls);
    let all = domain::present(values, nulls);
    assert forall|i: int| 0 <= i < all.len() implies domain.contains(#[trigger] all[i]) by {
        let row = choose|row: int|
            0 <= row < values.len() && !nulls[row] && #[trigger] values[row] == all[i];
        let at = ordinals[row];
    }
}

/// The key has the integer and the bytes that the columns have in the row.
pub open spec fn key_is(
    key: group_keys::KeyRow,
    integers: IntegerColumn,
    dictionary: DictionaryColumn,
    row: int,
) -> bool {
    &&& if integers.nulls@[row] {
        key.0 is None
    } else {
        key.0 == Some(integers.values@[row])
    }
    &&& match dictionary.keys@[row] {
        Some(position) => key.1 == dictionary.values.rows()[position as int],
        None => key.1 is None,
    }
}

/// Direct addressing is for two columns, of which one has 64-bit integers or timestamps and
/// the other is a dictionary of byte strings or strings with 32-bit keys, in either order.
pub proof fn law_supported_schemas_have_an_integer_and_a_dictionary(schema: Schema)
    ensures
        is_supported(schema) <==> {
            &&& schema.fields@.len() == 2
            &&& match (schema.fields@[0].data_type, schema.fields@[1].data_type) {
                (
                    DataType::Int64 | DataType::Timestamp(_, _),
                    DataType::Dictionary(key, value),
                ) => *key == DataType::Int32 && (*value == DataType::Binary || *value
                    == DataType::Utf8),
                (
                    DataType::Dictionary(key, value),
                    DataType::Int64 | DataType::Timestamp(_, _),
                ) => *key == DataType::Int32 && (*value == DataType::Binary || *value
                    == DataType::Utf8),
                _ => false,
            }
        },
        is_supported(schema) ==> (is_integer_type(schema.fields@[0].data_type) <==> (
        schema.fields@[0].data_type == DataType::Int64 || schema.fields@[0].data_type is Timestamp)),
{
}

/// A table has four bytes for each pair of a point or null and a value or null, and exceeds
/// the limit where these are more.
pub proof fn law_tables_exceed_their_limit_in_bytes(
    width: usize,
    dictionary_len: usize,
    limit: usize,
    result: bool,
)
    requires
        width >= 1,
        call_ensures(product_exceeds_limit, (width, dictionary_len, limit), result),
    ensures
        result <==> 4 * ((width + 1) * (dictionary_len + 1)) > limit,
{
    domain::law_tables_are_measured_in_bytes(width as int, dictionary_len as int, limit as int);
}

/// Ordinals lead back to the rows: zero for null, and else the point that many strides above
/// the base less one. They stop at the first integer that is no point of the domain.
pub proof fn law_ordinals_lead_back_to_the_rows(
    domain: IntegerDomain,
    values: &[i64],
    nulls: &[bool],
    ordinals: &mut Vec<usize>,
    result: bool,
    row: int,
)
    requires
        domain.wf(),
        values@.len() == nulls@.len(),
        old(ordinals)@.len() == 0,
        call_ensures(fill_ordinals, (domain, values, nulls, ordinals), result),
        0 <= row < final(ordinals)@.len(),
    ensures
        result <==> final(ordinals)@.len() == values@.len(),
        row < values@.len(),
        nulls@[row] <==> final(ordinals)@[row] == 0,
        !nulls@[row] ==> final(ordinals)@[row] <= domain.width && values@[row] == domain.base + (
        final(ordinals)@[row] - 1) * domain.stride,
        !result ==> {
            let missing = final(ordinals)@.len() as int;
            missing < values@.len() && !nulls@[missing] && forall|k: int|
                0 <= k < domain.width ==> values@[missing] != #[trigger] (domain.base + k
                    * domain.stride)
        },
{
    let count = final(ordinals)@.len() as int;
    assert(values@.take(count)[row] == values@[row] && nulls@.take(count)[row] == nulls@[row]);
    let at = final(ordinals)@[row];
    if !nulls@[row] {
        domain::lemma_position(domain, values@[row] as int);
    }
    if !result {
        assert forall|k: int| 0 <= k < domain.width implies values@[count] != #[trigger] (
        domain.base + k * domain.stride) by {
            domain::law_points_are_strides_above_the_base(domain, values@[count] as int, k);
            if values@[count] == domain.base + k * domain.stride {
                assert(domain.contains(values@[count] as int));
            }
        }
    }
}

/// The emitted columns have in row `group` what the columns of a batch have in row `row`.
pub open spec fn is_emitted(
    keys: Seq<Option<i64>>,
    values: Seq<Option<Vec<u8>>>,
    group: int,
    integers: IntegerColumn,
    dictionary: DictionaryColumn,
    row: int,
) -> bool {
    &&& 0 <= group < keys.len()
    &&& keys.len() == values.len()
    &&& keys[group] == if integers.nulls@[row] {
        None
    } else {
        Some(integers.values@[row])
    }
    &&& match (values[group], dictionary.keys@[row]) {
        (Some(bytes), Some(at)) => dictionary.values.rows()[at as int] == Some(bytes@),
        (None, Some(at)) => dictionary.values.rows()[at as int] is None,
        (None, None) => true,
        (Some(_), None) => false,
    }
}

/// What was interned is emitted: at the number that a row got, the columns hold the integer
/// and all bytes of the row, in the order of the columns of the batch. Rows get the same
/// number exactly where they have the same key.
pub proof fn law_interned_rows_are_emitted(
    groups: &mut GroupValuesDense,
    columns: &[GroupColumn],
    ids: &mut Vec<usize>,
    result: Result<(), ExecError>,
    emitting: &mut GroupValuesDense,
    emitted: Vec<EmittedColumn>,
    row: int,
    other: int,
)
    requires
        old(groups).wf(),
        old(groups).accepts(columns@),
        call_ensures(GroupValuesDense::intern, (groups, columns, ids), result),
        result is Ok,
        *old(emitting) == *final(groups),
        call_ensures(GroupValuesDense::emit, (emitting, EmitTo::All), emitted),
        0 <= row < columns@[0].rows(),
        0 <= other < columns@[0].rows(),
    ensures
        columns@.len() == 2,
        emitted@.len() == 2,
        final(ids)@.len() == columns@[0].rows(),
        match (columns@[0], columns@[1], emitted@[0], emitted@[1]) {
            (
                GroupColumn::Integer(integers),
                GroupColumn::Dictionary(dictionary),
                EmittedColumn::Integer(keys),
                EmittedColumn::Dictionary(values),
            ) => {
                &&& is_emitted(keys@, values@, final(ids)@[row] as int, integers, dictionary, row)
                &&& final(ids)@[row] == final(ids)@[other] <==> group_keys::same_key(
                    integers,
                    dictionary,
                    row,
                    other,
                )
            },
            (
                GroupColumn::Dictionary(dictionary),
                GroupColumn::Integer(integers),
                EmittedColumn::Dictionary(values),
                EmittedColumn::Integer(keys),
            ) => {
                &&& is_emitted(keys@, values@, final(ids)@[row] as int, integers, dictionary, row)
                &&& final(ids)@[row] == final(ids)@[other] <==> group_keys::same_key(
                    integers,
                    dictionary,
                    row,
                    other,
                )
            },
            _ => false,
        },
{
    let place = old(groups).integer_place();
    let integers = old(groups).integers(columns@);
    let dictionary = old(groups).dictionaries(columns@);
    let rows = old(groups).batch(columns@);
    let after = final(groups).groups();
    old(groups).lemma_integer_place();
    final(groups).law_no_key_has_two_groups();
    group_keys::law_emitted_rows_are_the_interned_rows(
        old(groups).groups(),
        integers,
        dictionary,
        final(ids)@,
        emitted@,
        place,
        row,
    );
    group_keys::law_keys_are_read_from_the_columns(integers, dictionary, row);
    group_keys::law_keys_are_read_from_the_columns(integers, dictionary, other);
    group_keys::law_equal_keys_share_a_group(after, rows, final(ids)@, row, other);
}

/// The first groups are emitted first, and those that stay are emitted afterwards in their
/// order: together they are what emitting all at once gives.
pub proof fn law_parts_are_emitted_in_order(
    whole: &mut GroupValuesDense,
    every: Vec<EmittedColumn>,
    part: &mut GroupValuesDense,
    count: usize,
    first: Vec<EmittedColumn>,
    rest: &mut GroupValuesDense,
    last: Vec<EmittedColumn>,
    before: usize,
    between: usize,
    after: usize,
)
    requires
        old(whole).wf(),
        *old(part) == *old(whole),
        call_ensures(GroupValuesDense::len, (&*old(whole),), before),
        count <= before,
        call_ensures(GroupValuesDense::emit, (whole, EmitTo::All), every),
        call_ensures(GroupValuesDense::emit, (part, EmitTo::First(count)), first),
        call_ensures(GroupValuesDense::len, (&*final(part),), between),
        *old(rest) == *final(part),
        call_ensures(GroupValuesDense::emit, (rest, EmitTo::All), last),
        call_ensures(GroupValuesDense::len, (&*final(rest),), after),
    ensures
        between == before - count,
        after == 0,
        every@.len() == 2 && first@.len() == 2 && last@.len() == 2,
        ({
            let place = old(whole).integer_place();
            match (
                every@[place],
                every@[1 - place],
                first@[place],
                first@[1 - place],
                last@[place],
                last@[1 - place],
            ) {
                (
                    EmittedColumn::Integer(all_keys),
                    EmittedColumn::Dictionary(all_values),
                    EmittedColumn::Integer(first_keys),
                    EmittedColumn::Dictionary(first_values),
                    EmittedColumn::Integer(last_keys),
                    EmittedColumn::Dictionary(last_values),
                ) => {
                    &&& first_keys@.len() == count
                    &&& all_keys@.len() == before
                    &&& group_keys::rows_of(all_keys@, all_values@) == group_keys::rows_of(
                        first_keys@,
                        first_values@,
                    ) + group_keys::rows_of(last_keys@, last_values@)
                },
                _ => false,
            }
        }),
{
    let place = old(whole).integer_place();
    let groups = old(whole).groups();
    old(whole).lemma_integer_place();
    group_keys::law_emitted_columns_are_the_groups(every@, place, groups);
    group_keys::law_emitted_columns_are_the_groups(first@, place, groups.take(count as int));
    group_keys::law_emitted_columns_are_the_groups(last@, place, groups.skip(count as int));
    assert(groups =~= groups.take(count as int) + groups.skip(count as int));
}

/// A fresh grouping has no groups and is not hashed, is made for exactly the supported
/// schemas, and expects the columns in their order.
pub proof fn law_fresh_groupings_are_empty(
    schema: &Schema,
    supported: bool,
    result: Result<GroupValuesDense, ExecError>,
    count: usize,
    empty: bool,
    hashed: bool,
    domain: Option<IntegerDomain>,
)
    requires
        call_ensures(GroupValuesDense::supports_schema, (schema,), supported),
        call_ensures(GroupValuesDense::try_new, (schema,), result),
        result is Ok ==> call_ensures(GroupValuesDense::len, (&result->Ok_0,), count),
        result is Ok ==> call_ensures(GroupValuesDense::is_empty, (&result->Ok_0,), empty),
        result is Ok ==> call_ensures(GroupValuesDense::uses_fallback, (&result->Ok_0,), hashed),
        result is Ok ==> call_ensures(GroupValuesDense::domain, (&result->Ok_0,), domain),
    ensures
        supported <==> schema.fields@.len() == 2 && match (
            schema.fields@[0].data_type,
            schema.fields@[1].data_type,
        ) {
            (
                DataType::Int64 | DataType::Timestamp(_, _),
                DataType::Dictionary(key, value),
            ) => *key == DataType::Int32 && (*value == DataType::Binary || *value
                == DataType::Utf8),
            (
                DataType::Dictionary(key, value),
                DataType::Int64 | DataType::Timestamp(_, _),
            ) => *key == DataType::Int32 && (*value == DataType::Binary || *value
                == DataType::Utf8),
            _ => false,
        },
        result is Ok <==> supported,
        result is Err ==> result->Err_0 is UnsupportedGroupSchema,
        result is Ok ==> count == 0 && empty && !hashed && domain is None,
        result matches Ok(groups) ==> (groups.integer_place() == 1 <==> schema.fields@[0].data_type
            is Dictionary),
        result matches Ok(groups) ==> groups.byte_limit() == 8388608,
{
    law_supported_schemas_have_an_integer_and_a_dictionary(*schema);
}

/// How groups are addressed follows from the batch. Groups are hashed once the integers of a
/// batch show no lattice, or once the table of the first lattice and the dictionary would
/// exceed the limit; as long as they are not, the domain is the one observed.
pub proof fn law_addressing_follows_from_the_batch(
    groups: &mut GroupValuesDense,
    columns: &[GroupColumn],
    ids: &mut Vec<usize>,
    result: Result<(), ExecError>,
    values: &[i64],
    nulls: &[bool],
    before: Option<IntegerDomain>,
    observed: Option<IntegerDomain>,
    tags: usize,
    after: Option<IntegerDomain>,
    hashed_before: bool,
    hashed: bool,
)
    requires
        old(groups).wf(),
        old(groups).accepts(columns@),
        call_ensures(GroupValuesDense::intern, (groups, columns, ids), result),
        result is Ok,
        values@.len() > 0,
        values@.len() == nulls@.len(),
        values@ == old(groups).integers(columns@).values@,
        nulls@ == old(groups).integers(columns@).nulls@,
        tags == old(groups).dictionaries(columns@).values.rows().len(),
        call_ensures(GroupValuesDense::domain, (&*old(groups),), before),
        call_ensures(IntegerDomain::observe, (values, nulls, before), observed),
        call_ensures(GroupValuesDense::uses_fallback, (&*old(groups),), hashed_before),
        call_ensures(GroupValuesDense::uses_fallback, (&*final(groups),), hashed),
        call_ensures(GroupValuesDense::domain, (&*final(groups),), after),
    ensures
        hashed_before ==> hashed,
        observed is None ==> hashed,
        before is None && observed is Some && 4 * ((observed->0.width + 1) * (tags + 1))
            > old(groups).byte_limit() ==> hashed,
        !hashed ==> after == observed,
{
    if let Some(next) = observed {
        domain::law_tables_are_measured_in_bytes(
            next.width as int,
            tags as int,
            old(groups).byte_limit(),
        );
    }
    assert(old(groups).batch(columns@).len() == values@.len());
}

/// Clearing forgets all groups, and a limit leaves the groups as they are.
pub proof fn law_cleared_groupings_are_empty(
    cleared: &mut GroupValuesDense,
    rows: usize,
    count: usize,
    hashed_before: bool,
    hashed: bool,
    limited: &mut GroupValuesDense,
    limit: usize,
    before: usize,
    after: usize,
)
    requires
        old(cleared).wf(),
        call_ensures(GroupValuesDense::uses_fallback, (&*old(cleared),), hashed_before),
        call_ensures(GroupValuesDense::clear_shrink, (cleared, rows), ()),
        call_ensures(GroupValuesDense::len, (&*final(cleared),), count),
        call_ensures(GroupValuesDense::uses_fallback, (&*final(cleared),), hashed),
        old(limited).wf(),
        call_ensures(GroupValuesDense::len, (&*old(limited),), before),
        call_ensures(GroupValuesDense::set_limit, (limited, limit), ()),
        call_ensures(GroupValuesDense::len, (&*final(limited),), after),
    ensures
        count == 0,
        hashed == hashed_before,
        after == before,
        final(limited).byte_limit() == limit,
{
}

/// The bytes retained are at least 40 for each group, those of its value, and while groups
/// are addressed directly four for each entry of the table, as far as they can be counted.
pub proof fn law_sizes_cover_the_groups(
    groups: &GroupValuesDense,
    size: usize,
    hashed: bool,
    entries: usize,
    table: usize,
)
    requires
        groups.wf(),
        call_ensures(GroupValuesDense::size, (groups,), size),
        call_ensures(GroupValuesDense::uses_fallback, (groups,), hashed),
        call_ensures(GroupValuesDense::table_len, (groups,), entries),
        call_ensures(GroupValuesDense::table_size, (groups,), table),
    ensures
        size < usize::MAX ==> size >= 40 * groups.groups().len() + group_keys::value_bytes(
            groups.groups(),
        ),
        size < usize::MAX && !hashed ==> size >= 40 * groups.groups().len()
            + group_keys::value_bytes(groups.groups()) + 4 * entries,
        table < usize::MAX ==> table >= 4 * entries,
{
    if let Some(fallback) = groups.fallback {
        assert(fallback.retains(size));
        fallback.lemma_retains(size);
    } else {
        let (keys, room, numbers, ordinals, added) = choose|
            keys: usize,
            room: usize,
            numbers: usize,
            ordinals: usize,
            added: usize,
        |
            {
                &&& #[trigger] group_keys::keys_retain(groups.keys, keys)
                &&& #[trigger] call_ensures(capacity::<u32>, (&groups.table,), room)
                &&& #[trigger] groups.dictionary.retains(numbers)
                &&& #[trigger] call_ensures(capacity::<usize>, (&groups.ordinals,), ordinals)
                &&& #[trigger] call_ensures(capacity::<usize>, (&groups.new_groups,), added)
                &&& size == arith::capped(
                    keys + room * ENTRY_BYTES + numbers + ordinals * INDEX_BYTES + added
                        * INDEX_BYTES,
                )
            };
        group_keys::lemma_keys_retain(groups.keys, keys);
        assert(room >= groups.table@.len());
    }
}

/// Groups that were addressed directly are hashed only for a reason. Where the integers of a
/// batch have a lattice, and where the table of a first one fits the limit, the reason is
/// that the dictionary was declined, that the table for the values numbered by then, their
/// number and that of null rounded up to a power of two, exceeds the limit or the entries'
/// type, or that memory was not given.
pub proof fn law_groups_are_hashed_for_a_reason(
    groups: &mut GroupValuesDense,
    columns: &[GroupColumn],
    ids: &mut Vec<usize>,
    result: Result<(), ExecError>,
    values: &[i64],
    nulls: &[bool],
    before: Option<IntegerDomain>,
    observed: IntegerDomain,
    tags: usize,
)
    requires
        old(groups).wf(),
        old(groups).accepts(columns@),
        call_ensures(GroupValuesDense::intern, (groups, columns, ids), result),
        result is Ok,
        values@.len() == nulls@.len(),
        values@ == old(groups).integers(columns@).values@,
        nulls@ == old(groups).integers(columns@).nulls@,
        tags == old(groups).dictionaries(columns@).values.rows().len(),
        call_ensures(GroupValuesDense::domain, (&*old(groups),), before),
        call_ensures(IntegerDomain::observe, (values, nulls, before), Some(observed)),
        before is Some || 4 * ((observed.width + 1) * (tags + 1)) <= old(groups).byte_limit(),
        call_ensures(GroupValuesDense::uses_fallback, (&*old(groups),), false),
        call_ensures(GroupValuesDense::uses_fallback, (&*final(groups),), true),
    ensures
        ({
            let dictionary = old(groups).dictionaries(columns@).values;
            let limit = old(groups).byte_limit();
            ||| indices_lack_memory(values@.len() as usize)
            ||| exists|after: DictionaryIds| #[trigger]
                dictionary_ids::prepared(
                    old(groups).value_numbers(),
                    dictionary,
                    limit as usize,
                    after,
                    false,
                )
            ||| exists|after: DictionaryIds, k: nat|
                {
                    let numbers = after.ids().dom().len() + 1;
                    let tag_width = #[trigger] vstd::arithmetic::power2::pow2(k);
                    &&& #[trigger] dictionary_ids::prepared(
                        old(groups).value_numbers(),
                        dictionary,
                        limit as usize,
                        after,
                        true,
                    )
                    &&& numbers <= tag_width < 2 * numbers
                    &&& 4 * ((observed.width + 1) * tag_width) > limit || (observed.width + 1)
                        * tag_width >= u32::MAX
                }
        }),
{
    domain::law_tables_are_measured_in_bytes(
        observed.width as int,
        tags as int,
        old(groups).byte_limit(),
    );
    assert(!old(groups).must_decline(columns@));
    assert(old(groups).batch(columns@).len() == values@.len());
    if old(groups).outgrows_table(columns@) && !old(groups).declines_dictionary(columns@)
        && !indices_lack_memory(values@.len() as usize) {
        let after = choose|after: DictionaryIds|
            #[trigger] dictionary_ids::prepared(
                old(groups).value_numbers(),
                old(groups).dictionaries(columns@).values,
                old(groups).byte_limit() as usize,
                after,
                true,
            ) && {
                let cells = routing::cells(
                    observed,
                    arith::power_of_two_at_least((after.ids().dom().len() + 1) as int),
                );
                cells > old(groups).byte_limit() / (ENTRY_BYTES as int) || cells >= EMPTY
            };
        let numbers = (after.ids().dom().len() + 1) as int;
        arith::law_rounding_up_gives_the_next_power_of_two(numbers);
        let k = choose|k: nat|
            arith::power_of_two_at_least(numbers) == #[trigger] vstd::arithmetic::power2::pow2(k);
        assert(dictionary_ids::prepared(
            old(groups).value_numbers(),
            old(groups).dictionaries(columns@).values,
            old(groups).byte_limit() as usize,
            after,
            true,
        ));
        assert(vstd::arithmetic::power2::pow2(k) == arith::power_of_two_at_least(numbers));
    }
}

} // verus!
