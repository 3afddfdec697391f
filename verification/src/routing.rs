//! Routing tables: direct addresses for group keys.
use crate::dictionary_ids;
use crate::domain::IntegerDomain;
use crate::group_keys;
use vstd::prelude::*;

verus! {

/// Marks a table entry without a group.
pub const EMPTY: u32 = 0xffff_ffff;

/// The table row of an integer; zero is null.
pub open spec fn ordinal_of(domain: IntegerDomain, integer: Option<i64>) -> int {
    match integer {
        Some(value) => domain.position(value as int),
        None => 0,
    }
}

/// The table has an entry for the key.
pub open spec fn is_addressed(
    domain: IntegerDomain,
    ids: Map<Seq<u8>, u32>,
    tag_width: int,
    key: group_keys::KeyRow,
) -> bool {
    &&& match key.0 {
        Some(value) => domain.contains(value as int),
        None => true,
    }
    &&& dictionary_ids::is_numbered(ids, key.1)
    &&& dictionary_ids::tag_of(ids, key.1) < tag_width
}

/// The table entry of a key.
pub open spec fn slot(
    domain: IntegerDomain,
    ids: Map<Seq<u8>, u32>,
    tag_width: int,
    key: group_keys::KeyRow,
) -> int {
    ordinal_of(domain, key.0) * tag_width + dictionary_ids::tag_of(ids, key.1)
}

/// The number of table entries.
pub open spec fn cells(domain: IntegerDomain, tag_width: int) -> int {
    (domain.width + 1) * tag_width
}

/// Each group is at the entry of its key, and no other entry holds a group.
pub open spec fn routes(
    table: Seq<u32>,
    keys: Seq<group_keys::KeyRow>,
    domain: IntegerDomain,
    ids: Map<Seq<u8>, u32>,
    tag_width: int,
) -> bool {
    &&& table.len() == cells(domain, tag_width)
    &&& forall|g: int|
        0 <= g < keys.len() ==> is_addressed(domain, ids, tag_width, #[trigger] keys[g])
            && table[slot(domain, ids, tag_width, keys[g])] == g
    &&& forall|s: int|
        0 <= s < table.len() && #[trigger] table[s] != EMPTY ==> table[s] < keys.len() && slot(
            domain,
            ids,
            tag_width,
            keys[table[s] as int],
        ) == s
}

/// The entry of an addressed key lies in the table, and its quotient and
/// remainder by the tag width are the key's ordinal and tag.
pub proof fn lemma_slot(
    domain: IntegerDomain,
    ids: Map<Seq<u8>, u32>,
    tag_width: int,
    key: group_keys::KeyRow,
)
    requires
        domain.wf(),
        tag_width >= 1,
        is_addressed(domain, ids, tag_width, key),
    ensures
        0 <= slot(domain, ids, tag_width, key) < cells(domain, tag_width),
        slot(domain, ids, tag_width, key) / tag_width == ordinal_of(domain, key.0),
        slot(domain, ids, tag_width, key) % tag_width == dictionary_ids::tag_of(ids, key.1),
        0 <= ordinal_of(domain, key.0) <= domain.width,
        key.0 is None <==> ordinal_of(domain, key.0) == 0,
        key.0 matches Some(value) ==> value == domain.base + (ordinal_of(domain, key.0) - 1)
            * domain.stride,
{
    let ordinal = ordinal_of(domain, key.0);
    let tag = dictionary_ids::tag_of(ids, key.1);
    if let Some(value) = key.0 {
        crate::domain::lemma_position(domain, value as int);
    }
    assert(ordinal * tag_width + tag < (domain.width + 1) * tag_width && ordinal * tag_width >= 0)
        by (nonlinear_arith)
        requires
            0 <= ordinal <= domain.width,
            0 <= tag < tag_width,
    ;
    vstd::arithmetic::div_mod::lemma_fundamental_div_mod_converse(
        ordinal * tag_width + tag,
        tag_width,
        ordinal,
        tag,
    );
}

/// Distinct keys have distinct entries.
pub proof fn law_routing_is_injective(
    domain: IntegerDomain,
    ids: Map<Seq<u8>, u32>,
    tag_width: int,
    left: group_keys::KeyRow,
    right: group_keys::KeyRow,
)
    requires
        domain.wf(),
        tag_width >= 1,
        dictionary_ids::numbered_from_one(ids),
        is_addressed(domain, ids, tag_width, left),
        is_addressed(domain, ids, tag_width, right),
    ensures
        slot(domain, ids, tag_width, left) == slot(domain, ids, tag_width, right) <==> left
            == right,
{
    lemma_slot(domain, ids, tag_width, left);
    lemma_slot(domain, ids, tag_width, right);
    if slot(domain, ids, tag_width, left) == slot(domain, ids, tag_width, right) {
        assert(left.0 == right.0);
        match (left.1, right.1) {
            (Some(a), Some(b)) => {
                assert(ids[a] == ids[b]);
            },
            (Some(a), None) => {
                assert(ids.contains_key(a));
            },
            (None, Some(b)) => {
                assert(ids.contains_key(b));
            },
            (None, None) => {},
        }
        assert(left == right);
    }
}

/// A table routes at most as many groups as it has entries.
pub proof fn lemma_groups_fit(
    table: Seq<u32>,
    keys: Seq<group_keys::KeyRow>,
    domain: IntegerDomain,
    ids: Map<Seq<u8>, u32>,
    tag_width: int,
)
    requires
        domain.wf(),
        tag_width >= 1,
        routes(table, keys, domain, ids, tag_width),
    ensures
        keys.len() <= table.len(),
{
    let slots = Seq::new(keys.len(), |g: int| slot(domain, ids, tag_width, keys[g]));
    assert forall|i: int, j: int|
        0 <= i < slots.len() && 0 <= j < slots.len() && i != j implies slots[i] != slots[j] by {
        assert(table[slot(domain, ids, tag_width, keys[i])] == i);
        assert(table[slot(domain, ids, tag_width, keys[j])] == j);
    }
    slots.unique_seq_to_set();
    let all = vstd::set_lib::set_int_range(0, table.len() as int);
    vstd::set_lib::lemma_int_range(0, table.len() as int);
    assert(slots.to_set().subset_of(all)) by {
        assert forall|s: int| slots.to_set().contains(s) implies all.contains(s) by {
            let g = choose|g: int| 0 <= g < slots.len() && slots[g] == s;
            lemma_slot(domain, ids, tag_width, keys[g]);
        }
    }
    vstd::set_lib::lemma_len_subset(slots.to_set(), all);
}

/// More numbered values leave the routes as they are.
pub proof fn lemma_routes_extend(
    table: Seq<u32>,
    keys: Seq<group_keys::KeyRow>,
    domain: IntegerDomain,
    ids: Map<Seq<u8>, u32>,
    more: Map<Seq<u8>, u32>,
    tag_width: int,
)
    requires
        routes(table, keys, domain, ids, tag_width),
        dictionary_ids::extends(more, ids),
    ensures
        routes(table, keys, domain, more, tag_width),
{
    assert forall|g: int| 0 <= g < keys.len() implies is_addressed(
        domain,
        more,
        tag_width,
        #[trigger] keys[g],
    ) && slot(domain, more, tag_width, keys[g]) == slot(domain, ids, tag_width, keys[g]) by {
        assert(is_addressed(domain, ids, tag_width, keys[g]));
        if let Some(bytes) = keys[g].1 {
            assert(ids.contains_key(bytes));
        }
    }
}

/// Putting a new group at the entry of its key, which was empty, extends the
/// routes by that group.
pub proof fn lemma_routes_push(
    table: Seq<u32>,
    keys: Seq<group_keys::KeyRow>,
    domain: IntegerDomain,
    ids: Map<Seq<u8>, u32>,
    tag_width: int,
    key: group_keys::KeyRow,
)
    requires
        domain.wf(),
        tag_width >= 1,
        dictionary_ids::numbered_from_one(ids),
        routes(table, keys, domain, ids, tag_width),
        is_addressed(domain, ids, tag_width, key),
        table[slot(domain, ids, tag_width, key)] == EMPTY,
        keys.len() < EMPTY,
    ensures
        !keys.contains(key),
        routes(
            table.update(slot(domain, ids, tag_width, key), keys.len() as u32),
            keys.push(key),
            domain,
            ids,
            tag_width,
        ),
{
    let place = slot(domain, ids, tag_width, key);
    lemma_slot(domain, ids, tag_width, key);
    assert forall|g: int| 0 <= g < keys.len() implies #[trigger] keys[g] != key by {
        assert(table[slot(domain, ids, tag_width, keys[g])] == g);
    }
    let after = table.update(place, keys.len() as u32);
    let more = keys.push(key);
    assert forall|g: int| 0 <= g < more.len() implies is_addressed(
        domain,
        ids,
        tag_width,
        #[trigger] more[g],
    ) && after[slot(domain, ids, tag_width, more[g])] == g by {
        if g < keys.len() {
            assert(more[g] == keys[g]);
            law_routing_is_injective(domain, ids, tag_width, keys[g], key);
            lemma_slot(domain, ids, tag_width, keys[g]);
        }
    }
    assert forall|s: int| 0 <= s < after.len() && #[trigger] after[s] != EMPTY implies after[s]
        < more.len() && slot(domain, ids, tag_width, more[after[s] as int]) == s by {
        if s != place {
            assert(after[s] == table[s]);
            assert(more[table[s] as int] == keys[table[s] as int]);
        }
    }
}

/// An entry that is not empty holds the group of the key that addresses it.
pub proof fn lemma_routes_lookup(
    table: Seq<u32>,
    keys: Seq<group_keys::KeyRow>,
    domain: IntegerDomain,
    ids: Map<Seq<u8>, u32>,
    tag_width: int,
    key: group_keys::KeyRow,
)
    requires
        domain.wf(),
        tag_width >= 1,
        dictionary_ids::numbered_from_one(ids),
        routes(table, keys, domain, ids, tag_width),
        is_addressed(domain, ids, tag_width, key),
        table[slot(domain, ids, tag_width, key)] != EMPTY,
    ensures
        ({
            let group = table[slot(domain, ids, tag_width, key)];
            group < keys.len() && keys[group as int] == key
        }),
{
    lemma_slot(domain, ids, tag_width, key);
    let group = table[slot(domain, ids, tag_width, key)] as int;
    assert(is_addressed(domain, ids, tag_width, keys[group]));
    law_routing_is_injective(domain, ids, tag_width, keys[group], key);
}

} // verus!
