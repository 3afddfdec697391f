//! Which rows of a column under construction are null.
use crate::arrays;
use crate::shared::capacity;
use vstd::prelude::*;

verus! {

/// Null flags of rows, built row by row.
#[derive(Debug)]
pub struct MaybeNullBufferBuilder {
    nulls: Vec<bool>,
    null_count: usize,
}

/// Whether any flag is set.
pub open spec fn any(flags: Seq<bool>) -> bool {
    exists|i: int| 0 <= i < flags.len() && #[trigger] flags[i]
}

/// The opposite flags.
pub open spec fn opposite(flags: Seq<bool>) -> Seq<bool> {
    Seq::new(flags.len(), |i: int| !flags[i])
}

/// The validity of rows with the given null flags; nothing where none is null.
pub open spec fn validity(nulls: Seq<bool>) -> Option<Seq<bool>> {
    if any(nulls) {
        Some(opposite(nulls))
    } else {
        None
    }
}

impl View for MaybeNullBufferBuilder {
    type V = Seq<bool>;

    closed spec fn view(&self) -> Seq<bool> {
        self.nulls@
    }
}

impl MaybeNullBufferBuilder {
    /// The count is that of the set flags.
    pub closed spec fn wf(self) -> bool {
        self.null_count == arrays::set_positions(self.nulls@).len()
    }

    /// No rows.
    pub fn new() -> (result: MaybeNullBufferBuilder)
        ensures
            result.wf(),
            result@ == Seq::<bool>::empty(),
    {
        MaybeNullBufferBuilder { nulls: Vec::new(), null_count: 0 }
    }

    /// The number of rows.
    pub fn len(&self) -> (result: usize)
        ensures
            result == self@.len(),
    {
        self.nulls.len()
    }

    /// Whether row `row` is null.
    pub fn is_null(&self, row: usize) -> (result: bool)
        requires
            row < self@.len(),
        ensures
            result == self@[row as int],
    {
        self.nulls[row]
    }

    /// Whether any row is null.
    pub fn might_have_nulls(&self) -> (result: bool)
        requires
            self.wf(),
        ensures
            result == any(self@),
    {
        proof {
            arrays::lemma_none_or_all_set(self.nulls@);
        }
        self.null_count > 0
    }

    /// Adds a row.
    pub fn append(&mut self, is_null: bool)
        requires
            old(self).wf(),
        ensures
            final(self).wf(),
            final(self)@ == old(self)@.push(is_null),
    {
        self.nulls.push(is_null);
        proof {
            assert(self.nulls@.drop_last() =~= old(self).nulls@);
            arrays::lemma_set_positions(self.nulls@);
            assert(self.nulls@.len() == self.nulls.len());
        }
        if is_null {
            self.null_count = self.null_count + 1;
        }
    }

    fn recount(nulls: &Vec<bool>) -> (result: usize)
        ensures
            result == arrays::set_positions(nulls@).len(),
    {
        let mut count: usize = 0;
        let mut i: usize = 0;
        proof {
            assert(nulls@.take(0) =~= Seq::empty());
        }
        while i < nulls.len()
            invariant
                i <= nulls@.len(),
                nulls@.len() == nulls.len(),
                count == arrays::set_positions(nulls@.take(i as int)).len(),
            decreases nulls@.len() - i,
        {
            proof {
                assert(nulls@.take(i + 1).drop_last() =~= nulls@.take(i as int));
                arrays::lemma_set_positions(nulls@.take(i as int));
            }
            if nulls[i] {
                count = count + 1;
            }
            i = i + 1;
        }
        proof {
            assert(nulls@.take(i as int) =~= nulls@);
        }
        count
    }

    /// The validity of the rows: which are not null, or nothing where none is.
    pub fn build(self) -> (result: Option<Vec<bool>>)
        requires
            self.wf(),
        ensures
            arrays::flags(result) == validity(self@),
    {
        if self.might_have_nulls() {
            let mut valid: Vec<bool> = Vec::new();
            let mut i: usize = 0;
            while i < self.nulls.len()
                invariant
                    i <= self.nulls@.len(),
                    valid@ == opposite(self.nulls@.take(i as int)),
                decreases self.nulls@.len() - i,
            {
                valid.push(!self.nulls[i]);
                i = i + 1;
                proof {
                    assert(valid@ =~= opposite(self.nulls@.take(i as int)));
                }
            }
            proof {
                assert(self.nulls@.take(i as int) =~= self.nulls@);
            }
            Some(valid)
        } else {
            None
        }
    }

    /// Removes the first `n` rows and returns their validity.
    pub fn take_n(&mut self, n: usize) -> (result: Option<Vec<bool>>)
        requires
            old(self).wf(),
            n <= old(self)@.len(),
        ensures
            final(self).wf(),
            final(self)@ == old(self)@.skip(n as int),
            arrays::flags(result) == validity(old(self)@.take(n as int)),
    {
        let ghost before = self.nulls@;
        let mut taken = self.nulls.split_off(n);
        std::mem::swap(&mut taken, &mut self.nulls);
        proof {
            assert(self.nulls@ =~= before.skip(n as int));
            assert(taken@ =~= before.take(n as int));
        }
        self.null_count = MaybeNullBufferBuilder::recount(&self.nulls);
        let null_count: usize = MaybeNullBufferBuilder::recount(&taken);
        let first = MaybeNullBufferBuilder { nulls: taken, null_count };
        first.build()
    }

    /// The bytes that were found to be allocated for the flags.
    pub closed spec fn retains(self, bytes: usize) -> bool {
        call_ensures(capacity::<bool>, (&self.nulls,), bytes)
    }

    /// The bytes allocated for the flags, at least one for each row.
    pub fn allocated_size(&self) -> (result: usize)
        ensures
            self.retains(result),
            result >= self@.len(),
    {
        capacity(&self.nulls)
    }
}

/// The validity of rows is the opposite of their null flags, and is left out exactly where no
/// row is null.
pub proof fn law_validity_is_the_opposite_of_null(nulls: Seq<bool>)
    ensures
        validity(nulls) is None <==> forall|i: int|
            0 <= i < nulls.len() ==> !(#[trigger] nulls[i]),
        validity(nulls) matches Some(valid) ==> valid.len() == nulls.len() && forall|i: int|
            0 <= i < nulls.len() ==> #[trigger] valid[i] != nulls[i],
{
}

/// A row that was appended is null exactly where it was appended as null, and the rows
/// before it stay as they were. Any row is null where one that was appended is.
pub proof fn law_appended_nulls_are_found(
    fresh: MaybeNullBufferBuilder,
    none: bool,
    builder: &mut MaybeNullBufferBuilder,
    is_null: bool,
    count: usize,
    more: usize,
    row: usize,
    before: bool,
    after: bool,
    any_before: bool,
    any_after: bool,
)
    requires
        call_ensures(MaybeNullBufferBuilder::new, (), fresh),
        call_ensures(MaybeNullBufferBuilder::might_have_nulls, (&fresh,), none),
        old(builder).wf(),
        call_ensures(MaybeNullBufferBuilder::len, (&*old(builder),), count),
        call_ensures(MaybeNullBufferBuilder::might_have_nulls, (&*old(builder),), any_before),
        call_ensures(MaybeNullBufferBuilder::append, (builder, is_null), ()),
        call_ensures(MaybeNullBufferBuilder::len, (&*final(builder),), more),
        call_ensures(MaybeNullBufferBuilder::might_have_nulls, (&*final(builder),), any_after),
        row <= count,
        row < count ==> call_ensures(
            MaybeNullBufferBuilder::is_null,
            (&*old(builder), row),
            before,
        ),
        call_ensures(MaybeNullBufferBuilder::is_null, (&*final(builder), row), after),
    ensures
        !none,
        more == count + 1,
        after == if row < count {
            before
        } else {
            is_null
        },
        any_after == (any_before || is_null),
{
    let was = old(builder)@;
    let is = final(builder)@;
    if any(was) {
        let i = choose|i: int| 0 <= i < was.len() && #[trigger] was[i];
        assert(is[i]);
    }
    if is_null {
        assert(is[was.len() as int]);
    }
    if any(is) {
        let i = choose|i: int| 0 <= i < is.len() && #[trigger] is[i];
        if i < was.len() {
            assert(was[i]);
        }
    }
}

/// The validity that is built tells of each row whether it is not null, and is there where
/// any row is null. The rows that are taken are the first, and those that stay follow them.
pub proof fn law_built_validity_tells_the_rows(
    builder: &mut MaybeNullBufferBuilder,
    n: usize,
    count: usize,
    rest: usize,
    whole: Option<Vec<bool>>,
    taken: Option<Vec<bool>>,
    row: usize,
    is_null: bool,
    stays_null: bool,
)
    requires
        old(builder).wf(),
        call_ensures(MaybeNullBufferBuilder::len, (&*old(builder),), count),
        n <= count,
        row < count,
        call_ensures(MaybeNullBufferBuilder::build, (*old(builder),), whole),
        call_ensures(MaybeNullBufferBuilder::is_null, (&*old(builder), row), is_null),
        call_ensures(MaybeNullBufferBuilder::take_n, (builder, n), taken),
        call_ensures(MaybeNullBufferBuilder::len, (&*final(builder),), rest),
        n <= row ==> call_ensures(
            MaybeNullBufferBuilder::is_null,
            (&*final(builder), (row - n) as usize),
            stays_null,
        ),
    ensures
        rest == count - n,
        whole matches Some(valid) ==> valid@.len() == count && valid@[row as int] == !is_null,
        whole is None ==> !is_null,
        row < n ==> (taken matches Some(valid) ==> valid@.len() == n && valid@[row as int]
            == !is_null),
        row < n ==> (taken is None ==> !is_null),
        n <= row ==> stays_null == is_null,
{
    let was = old(builder)@;
    law_validity_is_the_opposite_of_null(was);
    law_validity_is_the_opposite_of_null(was.take(n as int));
    if row < n {
        assert(was.take(n as int)[row as int] == is_null);
    }
}

} // verus!
