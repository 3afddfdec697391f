//! HyperLogLog registers: the state from which the number of distinct values is
//! estimated.
use crate::error::ExecError;
use crate::hashing;
use crate::hashing::seeded;
use ahash::RandomState;
use vstd::prelude::*;

verus! {

/// The bits of a hash that choose the register.
pub const HLL_P: usize = 14;

/// The bits of a hash that give the rank.
pub const HLL_Q: usize = 50;

/// The number of registers.
pub const NUM_REGISTERS: usize = 16384;

/// The largest rank of a hash.
pub const MAX_RANK: u8 = 51;

/// The hasher of the values, with the same seeds for all registers that are merged.
pub fn hll_hash_state() -> (result: RandomState)
    ensures
        is_hll_state(result),
{
    seeded(0x885f6cab121d01a3, 0x71e4379f2976ad8f, 0xbf30173dd28a8816, 0x0eaea5d736d733a4)
}

/// A hasher of the seeds that all registers share.
pub open spec fn is_hll_state(state: RandomState) -> bool {
    hashing::has_seeds(
        state,
        0x885f6cab121d01a3,
        0x71e4379f2976ad8f,
        0xbf30173dd28a8816,
        0x0eaea5d736d733a4,
    )
}

/// The larger of two ranks.
pub open spec fn larger(a: u8, b: u8) -> u8 {
    if a >= b {
        a
    } else {
        b
    }
}

/// The register of a hash: its lowest bits.
pub open spec fn register_of(hash: u64) -> int {
    hash as int % NUM_REGISTERS as int
}

/// The rank of a hash: one more than the zeros below the lowest set bit among the
/// bits that do not choose the register.
pub open spec fn rank_of(hash: u64) -> int {
    vstd::std_specs::bits::u64_trailing_zeros((hash >> 14) | (1u64 << 50)) + 1
}

/// The registers after a hash was added.
pub open spec fn added(registers: Seq<u8>, hash: u64) -> Seq<u8> {
    registers.update(
        register_of(hash),
        larger(registers[register_of(hash)], rank_of(hash) as u8),
    )
}

/// The registers after hashes were added one after the other.
pub open spec fn added_all(registers: Seq<u8>, hashes: Seq<u64>) -> Seq<u8>
    decreases hashes.len(),
{
    if hashes.len() == 0 {
        registers
    } else {
        added(added_all(registers, hashes.drop_last()), hashes.last())
    }
}

/// The registers of two sets of values together.
pub open spec fn merged(left: Seq<u8>, right: Seq<u8>) -> Seq<u8> {
    Seq::new(left.len(), |i: int| larger(left[i], right[i]))
}

/// The registers after states were merged one after the other.
pub open spec fn merged_all(registers: Seq<u8>, states: Seq<Seq<u8>>) -> Seq<u8>
    decreases states.len(),
{
    if states.len() == 0 {
        registers
    } else {
        merged(merged_all(registers, states.drop_last()), states.last())
    }
}

/// The registers of no values.
pub open spec fn no_values() -> Seq<u8> {
    Seq::new(NUM_REGISTERS as nat, |i: int| 0u8)
}

/// The number of registers among the first `end` that hold `rank`.
pub open spec fn holding(registers: Seq<u8>, rank: int, end: int) -> int
    decreases end,
{
    if end <= 0 {
        0
    } else if registers[end - 1] == rank {
        holding(registers, rank, end - 1) + 1
    } else {
        holding(registers, rank, end - 1)
    }
}

/// Registers that hold the largest rank seen for each part of the hashes.
#[derive(Debug)]
pub struct HyperLogLog {
    registers: Vec<u8>,
}

impl View for HyperLogLog {
    type V = Seq<u8>;

    closed spec fn view(&self) -> Seq<u8> {
        self.registers@
    }
}

impl HyperLogLog {
    /// There are as many registers as there must be.
    pub open spec fn wf(self) -> bool {
        self@.len() == NUM_REGISTERS
    }

    /// Every register holds a rank or nothing.
    pub open spec fn holds_ranks(self) -> bool {
        forall|i: int| 0 <= i < self@.len() ==> (#[trigger] self@[i]) <= MAX_RANK
    }

    /// The registers of no values.
    pub fn new() -> (result: HyperLogLog)
        ensures
            result.wf(),
            result.holds_ranks(),
            result@ == no_values(),
    {
        let registers: Vec<u8> = vec![0u8; 16384];
        let result = HyperLogLog { registers };
        proof {
            assert(result@ =~= no_values());
        }
        result
    }

    /// The given registers.
    pub fn new_with_registers(registers: Vec<u8>) -> (result: HyperLogLog)
        requires
            registers@.len() == NUM_REGISTERS,
        ensures
            result.wf(),
            result@ == registers@,
    {
        HyperLogLog { registers }
    }

    /// Adds a value by its hash.
    pub fn add_hashed(&mut self, hash: u64)
        requires
            old(self).wf(),
        ensures
            final(self).wf(),
            final(self)@ == added(old(self)@, hash),
            old(self).holds_ranks() ==> final(self).holds_ranks(),
            final(self)@[(hash % 16384) as int] >= 1,
            forall|register: int|
                0 <= register < 16384 && register != hash % 16384 ==> #[trigger] final(self)@[register]
                    == old(self)@[register],
    {
        proof {
            lemma_rank(hash);
            assert(hash & 16383 == hash % 16384) by (bit_vector);
            assert(hash & 16383 < 16384) by (bit_vector);
        }
        let index: usize = (hash & 16383) as usize;
        let rank: u8 = (((hash >> 14) | (1u64 << 50)).trailing_zeros() + 1) as u8;
        if self.registers[index] < rank {
            self.registers[index] = rank;
        } else {
            proof {
                assert(self@ =~= added(self@, hash));
            }
        }
    }

    /// Adds the values of other registers.
    pub fn merge(&mut self, other: &HyperLogLog)
        requires
            old(self).wf(),
            other.wf(),
        ensures
            final(self).wf(),
            final(self)@ == merged(old(self)@, other@),
            old(self).holds_ranks() && other.holds_ranks() ==> final(self).holds_ranks(),
            forall|register: int|
                0 <= register < 16384 ==> #[trigger] final(self)@[register] == (if old(
                    self,
                )@[register] >= other@[register] {
                    old(self)@[register]
                } else {
                    other@[register]
                }),
    {
        let ghost before = self@;
        let mut i: usize = 0;
        while i < NUM_REGISTERS
            invariant
                i <= NUM_REGISTERS,
                self.wf(),
                other.wf(),
                before.len() == NUM_REGISTERS,
                forall|k: int|
                    0 <= k < i ==> (#[trigger] self@[k]) == larger(before[k], other@[k]),
                forall|k: int| i <= k < NUM_REGISTERS ==> (#[trigger] self@[k]) == before[k],
            decreases NUM_REGISTERS - i,
        {
            if self.registers[i] < other.registers[i] {
                self.registers[i] = other.registers[i];
            }
            i = i + 1;
        }
        proof {
            assert(self@ =~= merged(before, other@));
        }
    }

    /// The registers as bytes.
    pub fn to_vec(&self) -> (result: Vec<u8>)
        ensures
            result@ == self@,
    {
        self.registers.clone()
    }

    /// Registers from their bytes, of which there must be one for each.
    pub fn try_from_bytes(bytes: &Vec<u8>) -> (result: Result<HyperLogLog, ExecError>)
        ensures
            match result {
                Ok(hll) => bytes@.len() == NUM_REGISTERS && hll.wf() && hll@ == bytes@,
                Err(error) => bytes@.len() != NUM_REGISTERS && error is InvalidRegisters,
            },
    {
        if bytes.len() == NUM_REGISTERS {
            Ok(HyperLogLog::new_with_registers(bytes.clone()))
        } else {
            Err(ExecError::InvalidRegisters)
        }
    }

    /// How many registers hold each rank, from none to the largest.
    pub fn get_histogram(&self) -> (result: Vec<u32>)
        requires
            self.wf(),
            self.holds_ranks(),
        ensures
            result@.len() == MAX_RANK + 1,
            forall|rank: int|
                0 <= rank <= MAX_RANK ==> (#[trigger] result@[rank]) == holding(
                    self@,
                    rank,
                    NUM_REGISTERS as int,
                ),
    {
        let mut histogram: Vec<u32> = vec![0u32; 52];
        let mut i: usize = 0;
        while i < NUM_REGISTERS
            invariant
                i <= NUM_REGISTERS,
                self.wf(),
                self.holds_ranks(),
                histogram@.len() == 52,
                forall|rank: int|
                    0 <= rank <= MAX_RANK ==> (#[trigger] histogram@[rank]) == holding(
                        self@,
                        rank,
                        i as int,
                    ),
                forall|rank: int|
                    0 <= rank <= MAX_RANK ==> (#[trigger] histogram@[rank]) <= i,
            decreases NUM_REGISTERS - i,
        {
            let rank: usize = self.registers[i] as usize;
            assert(self@[i as int] <= MAX_RANK);
            histogram[rank] = histogram[rank] + 1;
            i = i + 1;
        }
        histogram
    }
}

proof fn lemma_rank(hash: u64)
    ensures
        1 <= rank_of(hash) <= MAX_RANK,
        0 <= register_of(hash) < NUM_REGISTERS,
{
    let bits = (hash >> 14) | (1u64 << 50);
    let zeros = vstd::std_specs::bits::u64_trailing_zeros(bits);
    vstd::std_specs::bits::axiom_u64_trailing_zeros(bits);
    assert((((hash >> 14) | (1u64 << 50)) >> 50u64) & 1u64 == 1u64) by (bit_vector);
    if zeros > 50 {
        assert((bits >> 50u64) & 1u64 == 0u64);
    }
}

/// Merging is commutative, associative and idempotent, and the registers of no values
/// change nothing.
pub proof fn law_merge_is_a_join(a: Seq<u8>, b: Seq<u8>, c: Seq<u8>)
    requires
        a.len() == NUM_REGISTERS,
        b.len() == NUM_REGISTERS,
        c.len() == NUM_REGISTERS,
    ensures
        merged(a, b) == merged(b, a),
        merged(merged(a, b), c) == merged(a, merged(b, c)),
        merged(a, a) == a,
        merged(a, no_values()) == a,
{
    assert(merged(a, b) =~= merged(b, a));
    assert(merged(merged(a, b), c) =~= merged(a, merged(b, c)));
    assert(merged(a, a) =~= a);
    assert(merged(a, no_values()) =~= a);
}

/// The order in which two values are added does not matter, and a value counts once.
pub proof fn law_values_count_once_in_any_order(registers: Seq<u8>, g: u64, h: u64)
    requires
        registers.len() == NUM_REGISTERS,
    ensures
        added(added(registers, g), h) == added(added(registers, h), g),
        added(added(registers, h), h) == added(registers, h),
{
    lemma_rank(g);
    lemma_rank(h);
    assert(added(added(registers, g), h) =~= added(added(registers, h), g));
    assert(added(added(registers, h), h) =~= added(registers, h));
}

pub(crate) proof fn lemma_added_all_len(registers: Seq<u8>, hashes: Seq<u64>)
    requires
        registers.len() == NUM_REGISTERS,
    ensures
        added_all(registers, hashes).len() == registers.len(),
    decreases hashes.len(),
{
    if hashes.len() > 0 {
        lemma_added_all_len(registers, hashes.drop_last());
        lemma_rank(hashes.last());
    }
}

/// Adding to one side of a merge is adding to the merge.
proof fn lemma_add_then_merge(left: Seq<u8>, right: Seq<u8>, hash: u64)
    requires
        left.len() == NUM_REGISTERS,
        right.len() == NUM_REGISTERS,
    ensures
        merged(left, added(right, hash)) == added(merged(left, right), hash),
{
    lemma_rank(hash);
    assert(merged(left, added(right, hash)) =~= added(merged(left, right), hash));
}

/// Registers of two parts of the values, merged, are those of all values.
pub proof fn law_merged_parts_are_the_whole(first: Seq<u64>, second: Seq<u64>)
    ensures
        merged(added_all(no_values(), first), added_all(no_values(), second)) == added_all(
            no_values(),
            first + second,
        ),
    decreases second.len(),
{
    let left = added_all(no_values(), first);
    lemma_added_all_len(no_values(), first);
    if second.len() == 0 {
        assert(first + second =~= first);
        assert(merged(left, no_values()) =~= left);
    } else {
        let rest = second.drop_last();
        law_merged_parts_are_the_whole(first, rest);
        lemma_added_all_len(no_values(), rest);
        lemma_add_then_merge(left, added_all(no_values(), rest), second.last());
        assert((first + second).drop_last() =~= first + rest);
        assert((first + second).last() == second.last());
    }
}

/// Adding hashes in two parts is adding them all.
pub(crate) proof fn lemma_added_in_parts(registers: Seq<u8>, first: Seq<u64>, second: Seq<u64>)
    ensures
        added_all(added_all(registers, first), second) == added_all(registers, first + second),
    decreases second.len(),
{
    if second.len() == 0 {
        assert(first + second =~= first);
    } else {
        lemma_added_in_parts(registers, first, second.drop_last());
        assert((first + second).drop_last() =~= first + second.drop_last());
    }
}

/// A register holds at least `rank` exactly where it did before or where a hash of it
/// has that rank.
proof fn lemma_register_reaches(registers: Seq<u8>, hashes: Seq<u64>, register: int, rank: int)
    requires
        registers.len() == NUM_REGISTERS,
        0 <= register < NUM_REGISTERS,
    ensures
        added_all(registers, hashes)[register] >= rank <==> registers[register] >= rank || exists|i: int|
            0 <= i < hashes.len() && register_of(#[trigger] hashes[i]) == register && rank_of(
                hashes[i],
            ) >= rank,
    decreases hashes.len(),
{
    if hashes.len() > 0 {
        let fewer = hashes.drop_last();
        lemma_register_reaches(registers, fewer, register, rank);
        lemma_added_all_len(registers, fewer);
        lemma_rank(hashes.last());
        if added_all(registers, fewer)[register] >= rank && registers[register] < rank {
            let i = choose|i: int|
                0 <= i < fewer.len() && register_of(#[trigger] fewer[i]) == register && rank_of(
                    fewer[i],
                ) >= rank;
            assert(hashes[i] == fewer[i]);
        }
        if exists|i: int|
            0 <= i < hashes.len() && register_of(#[trigger] hashes[i]) == register && rank_of(
                hashes[i],
            ) >= rank {
            let i = choose|i: int|
                0 <= i < hashes.len() && register_of(#[trigger] hashes[i]) == register && rank_of(
                    hashes[i],
                ) >= rank;
            if i < fewer.len() {
                assert(fewer[i] == hashes[i]);
            }
        }
        assert(hashes[hashes.len() - 1] == hashes.last());
    }
}

proof fn lemma_reaches_as_much(registers: Seq<u8>, left: Seq<u64>, right: Seq<u64>, register: int)
    requires
        registers.len() == NUM_REGISTERS,
        0 <= register < NUM_REGISTERS,
        forall|hash: u64| left.contains(hash) ==> #[trigger] right.contains(hash),
    ensures
        added_all(registers, left)[register] <= added_all(registers, right)[register],
{
    let rank = added_all(registers, left)[register] as int;
    lemma_register_reaches(registers, left, register, rank);
    lemma_register_reaches(registers, right, register, rank);
    if registers[register] < rank {
        let i = choose|i: int|
            0 <= i < left.len() && register_of(#[trigger] left[i]) == register && rank_of(left[i])
                >= rank;
        assert(left.contains(left[i]));
        assert(right.contains(left[i]));
        let j = choose|j: int| 0 <= j < right.len() && right[j] == left[i];
        assert(register_of(right[j]) == register);
    }
}

/// Registers depend on the set of the hashes alone, not on their order or on how often
/// each was added.
pub proof fn law_registers_depend_on_the_set(registers: Seq<u8>, left: Seq<u64>, right: Seq<u64>)
    requires
        registers.len() == NUM_REGISTERS,
        forall|hash: u64| #[trigger] left.contains(hash) <==> #[trigger] right.contains(hash),
    ensures
        added_all(registers, left) == added_all(registers, right),
{
    lemma_added_all_len(registers, left);
    lemma_added_all_len(registers, right);
    assert forall|register: int| 0 <= register < NUM_REGISTERS implies added_all(
        registers,
        left,
    )[register] == added_all(registers, right)[register] by {
        lemma_reaches_as_much(registers, left, right, register);
        lemma_reaches_as_much(registers, right, left, register);
    }
    assert(added_all(registers, left) =~= added_all(registers, right));
}

/// The `count` bits of a hash from bit `from` on are zero.
pub open spec fn zeros_from(hash: u64, from: int, count: int) -> bool {
    forall|bit: u64| from <= bit < from + count ==> #[trigger] (hash >> bit) & 1u64 == 0u64
}

/// Below the bit of its rank a hash has zeros, and that bit is set unless the hash ends
/// before.
proof fn lemma_rank_bits(hash: u64)
    ensures
        1 <= rank_of(hash) <= 51,
        zeros_from(hash, 14, rank_of(hash) - 1),
        rank_of(hash) < 51 ==> (hash >> ((13 + rank_of(hash)) as u64)) & 1u64 == 1u64,
{
    let bits = (hash >> 14) | (1u64 << 50);
    let zeros = vstd::std_specs::bits::u64_trailing_zeros(bits);
    vstd::std_specs::bits::axiom_u64_trailing_zeros(bits);
    lemma_rank(hash);
    assert forall|bit: u64| 14 <= bit < 14 + zeros implies #[trigger] (hash >> bit) & 1u64
        == 0u64 by {
        let low = (bit - 14) as u64;
        assert(bit < 64 && bit >= 14 && low + 14 == bit && bits == (hash >> 14) | (1u64 << 50)
            && (bits >> low) & 1u64 == 0u64 ==> (hash >> bit) & 1u64 == 0u64) by (bit_vector);
        assert((bits >> low) & 1u64 == 0u64);
    }
    if zeros < 50 {
        let low = zeros as u64;
        let bit = (14 + zeros) as u64;
        assert(low < 50 && bit == low + 14 && bits == (hash >> 14) | (1u64 << 50) && (bits
            >> low) & 1u64 == 1u64 ==> (hash >> bit) & 1u64 == 1u64) by (bit_vector);
    }
}

/// A hash is of rank `rank` or more exactly where as many zeros as that less one follow
/// the bits of the register.
proof fn lemma_rank_reaches(hash: u64, rank: int)
    requires
        1 <= rank <= 51,
    ensures
        rank_of(hash) >= rank <==> zeros_from(hash, 14, rank - 1),
{
    lemma_rank_bits(hash);
    if rank_of(hash) < rank && zeros_from(hash, 14, rank - 1) {
        let bit = (13 + rank_of(hash)) as u64;
        assert((hash >> bit) & 1u64 == 0u64);
    }
}

/// The lowest 14 bits of a hash number the one register that the hash may change. An
/// empty register is changed: each of the registers has hashes that it counts, and hashes
/// that differ in these bits change different registers.
pub proof fn law_lowest_bits_number_the_register(registers: Seq<u8>, hash: u64)
    requires
        registers.len() == 16384,
    ensures
        added(registers, hash).len() == 16384,
        forall|register: int|
            0 <= register < 16384 && register != hash % 16384 ==> #[trigger] added(
                registers,
                hash,
            )[register] == registers[register],
        added(registers, hash)[(hash % 16384) as int] >= registers[(hash % 16384) as int],
        added(registers, hash)[(hash % 16384) as int] >= 1,
{
    lemma_rank(hash);
}

/// What a hash leaves in an empty register is one more than the number of zeros that follow
/// the bits of the register, up to 51 where the hash ends.
pub proof fn law_empty_register_takes_the_rank(registers: Seq<u8>, hash: u64)
    requires
        registers.len() == 16384,
        registers[(hash % 16384) as int] == 0,
    ensures
        ({
            let rank = added(registers, hash)[(hash % 16384) as int] as int;
            &&& 1 <= rank <= 51
            &&& forall|bit: u64| 14 <= bit < 13 + rank ==> #[trigger] (hash >> bit) & 1u64 == 0u64
            &&& rank < 51 ==> (hash >> ((13 + rank) as u64)) & 1u64 == 1u64
        }),
{
    lemma_rank_bits(hash);
}

/// A register keeps the largest rank of all hashes with its number: it holds `rank` or more
/// exactly where it did before, or where one of the hashes has its number in the lowest 14
/// bits and at least `rank` less one zeros above them.
pub proof fn law_registers_hold_the_largest_rank(
    registers: Seq<u8>,
    hashes: Seq<u64>,
    register: int,
    rank: int,
)
    requires
        registers.len() == 16384,
        0 <= register < 16384,
        1 <= rank <= 51,
    ensures
        added_all(registers, hashes).len() == 16384,
        added_all(registers, hashes)[register] >= rank <==> registers[register] >= rank || exists|i: int|
            0 <= i < hashes.len() && (#[trigger] hashes[i]) % 16384 == register && zeros_from(
                hashes[i],
                14,
                rank - 1,
            ),
{
    lemma_added_all_len(registers, hashes);
    lemma_register_reaches(registers, hashes, register, rank);
    if exists|i: int|
        0 <= i < hashes.len() && register_of(#[trigger] hashes[i]) == register && rank_of(hashes[i])
            >= rank {
        let i = choose|i: int|
            0 <= i < hashes.len() && register_of(#[trigger] hashes[i]) == register && rank_of(
                hashes[i],
            ) >= rank;
        lemma_rank_reaches(hashes[i], rank);
        assert(hashes[i] % 16384 == register);
    }
    if exists|i: int|
        0 <= i < hashes.len() && (#[trigger] hashes[i]) % 16384 == register && zeros_from(
            hashes[i],
            14,
            rank - 1,
        ) {
        let i = choose|i: int|
            0 <= i < hashes.len() && (#[trigger] hashes[i]) % 16384 == register && zeros_from(
                hashes[i],
                14,
                rank - 1,
            );
        lemma_rank_reaches(hashes[i], rank);
        assert(register_of(hashes[i]) == register);
    }
}

/// The registers of no values are empty.
pub proof fn law_no_values_no_ranks()
    ensures
        no_values().len() == 16384,
        forall|register: int| 0 <= register < 16384 ==> #[trigger] no_values()[register] == 0,
{
}

/// Merged registers hold the larger rank of the two, register by register.
pub proof fn law_merging_keeps_the_larger_rank(left: Seq<u8>, right: Seq<u8>, register: int)
    requires
        0 <= register < left.len(),
        left.len() == right.len(),
    ensures
        merged(left, right).len() == left.len(),
        merged(left, right)[register] >= left[register],
        merged(left, right)[register] >= right[register],
        merged(left, right)[register] == left[register] || merged(left, right)[register]
            == right[register],
{
}

/// Whatever the number of states that are merged, each register then holds the largest rank
/// of what it held before and of what each of the states holds there: no state is left out.
pub proof fn law_merged_states_give_the_largest_ranks(
    registers: Seq<u8>,
    states: Seq<Seq<u8>>,
    register: int,
)
    requires
        0 <= register < registers.len(),
        forall|k: int| 0 <= k < states.len() ==> (#[trigger] states[k]).len() == registers.len(),
    ensures
        merged_all(registers, states).len() == registers.len(),
        merged_all(registers, states)[register] >= registers[register],
        forall|k: int|
            0 <= k < states.len() ==> merged_all(registers, states)[register] >= (
            #[trigger] states[k])[register],
        merged_all(registers, states)[register] == registers[register] || exists|k: int|
            0 <= k < states.len() && merged_all(registers, states)[register] == (
            #[trigger] states[k])[register],
    decreases states.len(),
{
    if states.len() > 0 {
        let fewer = states.drop_last();
        assert forall|k: int| 0 <= k < fewer.len() implies (#[trigger] fewer[k]).len()
            == registers.len() by {
            assert(states[k] == fewer[k]);
        }
        law_merged_states_give_the_largest_ranks(registers, fewer, register);
        let before = merged_all(registers, fewer);
        assert(states.last() == states[states.len() - 1]);
        assert forall|k: int| 0 <= k < states.len() implies merged_all(registers, states)[register]
            >= (#[trigger] states[k])[register] by {
            if k < fewer.len() {
                assert(states[k] == fewer[k]);
            }
        }
        if before[register] != registers[register] {
            let k = choose|k: int|
                0 <= k < fewer.len() && before[register] == (#[trigger] fewer[k])[register];
            assert(states[k] == fewer[k]);
        }
    }
}

/// The parts of the values, one after the other.
pub open spec fn joined(parts: Seq<Seq<u64>>) -> Seq<u64>
    decreases parts.len(),
{
    if parts.len() == 0 {
        Seq::empty()
    } else {
        joined(parts.drop_last()) + parts.last()
    }
}

/// The states of parts of the values, merged together into registers of no values, give the
/// registers of all values, however many parts there are.
pub proof fn law_states_of_parts_make_the_whole(parts: Seq<Seq<u64>>, states: Seq<Seq<u8>>)
    requires
        states.len() == parts.len(),
        forall|k: int|
            0 <= k < parts.len() ==> #[trigger] states[k] == added_all(no_values(), parts[k]),
    ensures
        merged_all(no_values(), states) == added_all(no_values(), joined(parts)),
    decreases parts.len(),
{
    if parts.len() > 0 {
        let fewer = states.drop_last();
        assert forall|k: int| 0 <= k < fewer.len() implies #[trigger] fewer[k] == added_all(
            no_values(),
            parts.drop_last()[k],
        ) by {
            assert(states[k] == fewer[k]);
        }
        law_states_of_parts_make_the_whole(parts.drop_last(), fewer);
        assert(states[states.len() - 1] == added_all(no_values(), parts.last()));
        law_merged_parts_are_the_whole(joined(parts.drop_last()), parts.last());
    }
}

/// The histogram counts each register once, at the rank that it holds.
pub proof fn law_histogram_counts_the_registers(registers: Seq<u8>, rank: u8, end: int)
    requires
        0 <= end <= registers.len(),
    ensures
        holding(registers, rank as int, end) == registers.take(end).to_multiset().count(rank),
    decreases end,
{
    broadcast use vstd::seq_lib::group_to_multiset_ensures, vstd::multiset::group_multiset_axioms;

    if end > 0 {
        law_histogram_counts_the_registers(registers, rank, end - 1);
        let fewer = registers.take(end - 1);
        assert(registers.take(end) =~= fewer.push(registers[end - 1]));
    } else {
        assert(registers.take(0) =~= Seq::<u8>::empty());
    }
}

/// Adding a hash changes one byte of the registers, the one that the lowest 14 bits of the
/// hash number. It becomes the larger of what it was and of one more than the number of
/// zeros above these bits.
pub proof fn law_added_hash_shows_in_one_byte(
    hll: &mut HyperLogLog,
    hash: u64,
    before: Vec<u8>,
    after: Vec<u8>,
)
    requires
        before@.len() == 16384,
        call_ensures(HyperLogLog::to_vec, (&*old(hll),), before),
        call_ensures(HyperLogLog::add_hashed, (hll, hash), ()),
        call_ensures(HyperLogLog::to_vec, (&*final(hll),), after),
    ensures
        after@.len() == 16384,
        forall|register: int|
            0 <= register < 16384 && register != hash % 16384 ==> #[trigger] after@[register]
                == before@[register],
        ({
            let old_rank = before@[(hash % 16384) as int];
            let new_rank = after@[(hash % 16384) as int];
            &&& new_rank >= old_rank
            &&& new_rank == old_rank || (new_rank <= 51 && zeros_from(hash, 14, new_rank - 1))
            &&& forall|rank: int|
                1 <= rank <= 51 && #[trigger] zeros_from(hash, 14, rank - 1) ==> new_rank >= rank
        }),
{
    lemma_rank_bits(hash);
    let register = (hash % 16384) as int;
    assert(after@ == added(before@, hash));
    assert forall|rank: int|
        1 <= rank <= 51 && #[trigger] zeros_from(hash, 14, rank - 1) implies after@[register]
        >= rank by {
        lemma_rank_reaches(hash, rank);
    }
}

/// Fresh registers are empty, and merging gives each byte the larger of the two.
pub proof fn law_merged_bytes_are_the_larger(
    fresh: HyperLogLog,
    empty: Vec<u8>,
    hll: &mut HyperLogLog,
    other: &HyperLogLog,
    left: Vec<u8>,
    right: Vec<u8>,
    after: Vec<u8>,
)
    requires
        call_ensures(HyperLogLog::new, (), fresh),
        call_ensures(HyperLogLog::to_vec, (&fresh,), empty),
        left@.len() == 16384,
        right@.len() == 16384,
        call_ensures(HyperLogLog::to_vec, (&*old(hll),), left),
        call_ensures(HyperLogLog::to_vec, (other,), right),
        call_ensures(HyperLogLog::merge, (hll, other), ()),
        call_ensures(HyperLogLog::to_vec, (&*final(hll),), after),
    ensures
        empty@.len() == 16384,
        forall|register: int| 0 <= register < 16384 ==> #[trigger] empty@[register] == 0,
        after@.len() == 16384,
        forall|register: int|
            0 <= register < 16384 ==> #[trigger] after@[register] >= left@[register]
                && after@[register] >= right@[register] && (after@[register] == left@[register]
                || after@[register] == right@[register]),
{
    assert(after@ == merged(left@, right@));
}

/// Registers that were read from bytes give these bytes back. As many bytes as there are
/// registers are read, and no other number of them.
pub proof fn law_bytes_are_read_back(
    bytes: Vec<u8>,
    result: Result<HyperLogLog, ExecError>,
    again: Vec<u8>,
)
    requires
        call_ensures(HyperLogLog::try_from_bytes, (&bytes,), result),
        result is Ok ==> call_ensures(HyperLogLog::to_vec, (&result->Ok_0,), again),
    ensures
        result is Ok <==> bytes@.len() == 16384,
        result is Ok ==> again@ == bytes@,
        result is Err ==> result->Err_0 is InvalidRegisters,
{
}

/// The histogram has a place for each rank from none to 51, and holds there how many of the
/// bytes are that rank.
pub proof fn law_histogram_is_of_the_bytes(hll: HyperLogLog, bytes: Vec<u8>, histogram: Vec<u32>)
    requires
        call_ensures(HyperLogLog::to_vec, (&hll,), bytes),
        bytes@.len() == 16384,
        forall|i: int| 0 <= i < 16384 ==> #[trigger] bytes@[i] <= 51,
        call_ensures(HyperLogLog::get_histogram, (&hll,), histogram),
    ensures
        histogram@.len() == 52,
        forall|rank: u8|
            rank <= 51 ==> histogram@[rank as int] == #[trigger] bytes@.to_multiset().count(rank),
{
    assert forall|rank: u8| rank <= 51 implies histogram@[rank as int]
        == #[trigger] bytes@.to_multiset().count(rank) by {
        law_histogram_counts_the_registers(bytes@, rank, 16384);
        assert(bytes@.take(16384) =~= bytes@);
    }
}

/// All registers take their hashes from hashers of the same seeds, so that those of
/// different parts of the values can be merged.
pub proof fn law_hashers_have_the_same_seeds(state: RandomState)
    requires
        call_ensures(hll_hash_state, (), state),
    ensures
        hashing::has_seeds(
            state,
            0x885f6cab121d01a3,
            0x71e4379f2976ad8f,
            0xbf30173dd28a8816,
            0x0eaea5d736d733a4,
        ),
{
}

/// Registers that are made of bytes give these bytes back.
pub proof fn law_given_registers_are_kept(bytes: Vec<u8>, hll: HyperLogLog, again: Vec<u8>)
    requires
        bytes@.len() == 16384,
        call_ensures(HyperLogLog::new_with_registers, (bytes,), hll),
        call_ensures(HyperLogLog::to_vec, (&hll,), again),
    ensures
        again@ == bytes@,
{
}

} // verus!
