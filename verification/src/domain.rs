//! Arithmetic lattices that integer group keys are addressed by.
use crate::arith;
use vstd::prelude::*;

verus! {

/// Bytes of one routing-table entry.
pub const ENTRY_BYTES: usize = 4;

/// The lattice `base, base + stride, ..` of `width` integers.
#[derive(Clone, Copy, Debug, PartialEq, Eq, Structural)]
pub struct IntegerDomain {
    pub base: i64,
    pub stride: i64,
    pub width: usize,
}

/// The values at the rows that are not null, in row order.
pub open spec fn present(values: Seq<i64>, nulls: Seq<bool>) -> Seq<int>
    decreases values.len(),
{
    if values.len() == 0 {
        Seq::empty()
    } else {
        let before = present(values.drop_last(), nulls);
        if nulls[values.len() - 1] {
            before
        } else {
            before.push(values.last() as int)
        }
    }
}

/// The least of `start` and the members of `s`.
pub open spec fn least(start: Option<int>, s: Seq<int>) -> Option<int>
    decreases s.len(),
{
    if s.len() == 0 {
        start
    } else {
        match least(start, s.drop_last()) {
            Some(m) if m <= s.last() => Some(m),
            _ => Some(s.last()),
        }
    }
}

/// The greatest of `start` and the members of `s`.
pub open spec fn greatest(start: Option<int>, s: Seq<int>) -> Option<int>
    decreases s.len(),
{
    if s.len() == 0 {
        start
    } else {
        match greatest(start, s.drop_last()) {
            Some(m) if m >= s.last() => Some(m),
            _ => Some(s.last()),
        }
    }
}

/// The greatest common divisor of `start` and the distances of the members of
/// `s` from `origin`.
pub open spec fn common_stride(start: int, s: Seq<int>, origin: int) -> int
    decreases s.len(),
{
    if s.len() == 0 {
        start
    } else {
        arith::euclid(common_stride(start, s.drop_last(), origin), s.last() - origin)
    }
}

impl IntegerDomain {
    /// The greatest lattice point.
    pub open spec fn last_point(self) -> int {
        self.base + (self.width - 1) * self.stride
    }

    /// A positive stride, a power-of-two width, and lattice points whose values
    /// and distances fit `i64`.
    pub open spec fn wf(self) -> bool {
        &&& self.stride > 0
        &&& self.width >= 1
        &&& arith::is_power_of_two(self.width as int)
        &&& (self.width - 1) * self.stride <= i64::MAX
        &&& self.last_point() <= i64::MAX
    }

    /// `value` is a lattice point.
    pub open spec fn contains(self, value: int) -> bool {
        &&& self.base <= value <= self.last_point()
        &&& (value - self.base) % (self.stride as int) == 0
    }

    /// Every lattice point of `other` is one of this domain.
    pub open spec fn covers(self, other: IntegerDomain) -> bool {
        forall|value: int| #[trigger] other.contains(value) ==> self.contains(value)
    }

    /// One-based position of a lattice point; zero is left for the null group.
    pub open spec fn position(self, value: int) -> int {
        (value - self.base) / (self.stride as int) + 1
    }

    /// The lattice that the present values and the points of `old` ask for.
    ///
    /// The stride is the greatest common divisor of all distances, the width the
    /// next power of two, and the room that this leaves lies in the direction in
    /// which the old domain was outgrown. There is none without two distinct
    /// points, nor where a distance or a point leaves `i64`.
    pub open spec fn observed(values: Seq<int>, old: Option<IntegerDomain>) -> Option<
        IntegerDomain,
    > {
        let low = match old {
            Some(old) => Some(old.base as int),
            None => None,
        };
        let high = match old {
            Some(old) => Some(old.last_point()),
            None => None,
        };
        match (least(low, values), greatest(high, values)) {
            (Some(min), Some(max)) => Self::lattice(
                min,
                max,
                Self::observed_stride(values, old, min),
                old,
            ),
            _ => None,
        }
    }

    /// The greatest common divisor of the distances from `min` of the values and
    /// of the old lattice.
    pub open spec fn observed_stride(
        values: Seq<int>,
        old: Option<IntegerDomain>,
        min: int,
    ) -> int {
        let start = match old {
            Some(old) => arith::euclid(old.stride as int, old.base - min),
            None => 0,
        };
        common_stride(start, values, min)
    }

    /// The lattice with this stride that spans `min` to `max`, rounded up to a
    /// power-of-two width.
    pub open spec fn lattice(
        min: int,
        max: int,
        stride: int,
        old: Option<IntegerDomain>,
    ) -> Option<IntegerDomain> {
        if stride == 0 || max - min > i64::MAX {
            None
        } else {
            let width = arith::power_of_two_at_least((max - min) / stride + 1);
            let distance = (width - 1) * stride;
            let grows_down = match old {
                Some(old) => min < old.base,
                None => false,
            };
            let base = if grows_down { max - distance } else { min };
            if width > usize::MAX || distance > i64::MAX || base < i64::MIN || base + distance
                > i64::MAX {
                None
            } else {
                Some(
                    IntegerDomain { base: base as i64, stride: stride as i64, width: width as usize },
                )
            }
        }
    }

    /// Observes the rows of a batch that are not null, together with the domain
    /// that is in use already.
    pub fn observe(values: &[i64], nulls: &[bool], old: Option<IntegerDomain>) -> (result: Option<
        IntegerDomain,
    >)
        requires
            values@.len() == nulls@.len(),
            match old {
                Some(old) => old.wf(),
                None => true,
            },
        ensures
            result == Self::observed(present(values@, nulls@), old),
    {
        let ghost all = present(values@, nulls@);
        let ghost low = match old {
            Some(old) => Some(old.base as int),
            None => None,
        };
        let ghost high = match old {
            Some(old) => Some(old.last_point()),
            None => None,
        };
        let mut min: Option<i64> = match old {
            Some(domain) => Some(domain.base),
            None => None,
        };
        proof {
            if let Some(domain) = old {
                lemma_extent(domain);
            }
        }
        let mut max: Option<i64> = match old {
            Some(domain) => Some(domain.last()?),
            None => None,
        };
        let mut row: usize = 0;
        while row < values.len()
            invariant
                row <= values@.len(),
                values@.len() == nulls@.len(),
                as_int(min) == least(low, present(values@.take(row as int), nulls@)),
                as_int(max) == greatest(high, present(values@.take(row as int), nulls@)),
            decreases values@.len() - row,
        {
            assert(values@.take(row + 1).drop_last() =~= values@.take(row as int));
            let ghost before = present(values@.take(row as int), nulls@);
            if !nulls[row] {
                let value: i64 = values[row];
                assert(before.push(value as int).drop_last() =~= before);
                min = match min {
                    Some(m) if m <= value => Some(m),
                    _ => Some(value),
                };
                max = match max {
                    Some(m) if m >= value => Some(m),
                    _ => Some(value),
                };
            }
            row = row + 1;
        }
        assert(values@.take(values@.len() as int) =~= values@);
        let min: i64 = min?;
        let max: i64 = max?;
        proof {
            lemma_extremes(low, high, all);
        }
        let mut stride: i64 = 0;
        if let Some(old) = old {
            let distance: i64 = match old.base.checked_sub(min) {
                Some(distance) => distance,
                None => {
                    return None;
                },
            };
            stride = arith::gcd(old.stride, distance);
            proof {
                arith::law_gcd_is_greatest_common_divisor(old.stride as int, distance as int);
            }
        }
        let ghost start = stride as int;
        let mut row: usize = 0;
        while row < values.len()
            invariant
                row <= values@.len(),
                values@.len() == nulls@.len(),
                all == present(values@, nulls@),
                stride == common_stride(start, present(values@.take(row as int), nulls@), min as int),
                stride >= 0,
                Self::observed(all, old) == Self::lattice(
                    min as int,
                    max as int,
                    common_stride(start, all, min as int),
                    old,
                ),
                forall|i: int| 0 <= i < all.len() ==> min <= #[trigger] all[i] <= max,
            decreases values@.len() - row,
        {
            assert(values@.take(row + 1).drop_last() =~= values@.take(row as int));
            let ghost before = present(values@.take(row as int), nulls@);
            if !nulls[row] {
                let value: i64 = values[row];
                proof {
                    assert(before.push(value as int).drop_last() =~= before);
                    lemma_present_member(values@, nulls@, row as int);
                }
                let distance: i64 = match value.checked_sub(min) {
                    Some(distance) => distance,
                    None => {
                        return None;
                    },
                };
                proof {
                    arith::law_gcd_is_greatest_common_divisor(stride as int, distance as int);
                }
                stride = arith::gcd(stride, distance);
            }
            row = row + 1;
        }
        assert(values@.take(values@.len() as int) =~= values@);
        if stride == 0 {
            return None;
        }
        let span: i64 = max.checked_sub(min)?;
        proof {
            lemma_width(span as int, stride as int);
        }
        let steps: usize = match usize::try_from(span / stride) {
            Ok(steps) => steps,
            Err(_) => {
                return None;
            },
        };
        let points: usize = steps.checked_add(1)?;
        let width: usize = arith::checked_power_of_two_at_least(points)?;
        let ghost exact = (width - 1) * stride;
        assert(exact >= width - 1) by (nonlinear_arith)
            requires
                exact == (width - 1) * stride,
                stride >= 1,
                width >= 1,
        ;
        let intervals: i64 = match i64::try_from(width - 1) {
            Ok(intervals) => intervals,
            Err(_) => {
                return None;
            },
        };
        let distance: i64 = intervals.checked_mul(stride)?;
        let grows_down: bool = match old {
            Some(old) => min < old.base,
            None => false,
        };
        let base: i64 = if grows_down {
            max.checked_sub(distance)?
        } else {
            min
        };
        let _end: i64 = base.checked_add(distance)?;
        Some(IntegerDomain { base, stride, width })
    }

    /// The greatest lattice point, or `None` where it cannot be computed in `i64`.
    pub fn last(self) -> (result: Option<i64>)
        ensures
            result == (if self.width >= 1 && self.width - 1 <= i64::MAX && i64::MIN <= (self.width
                - 1) * self.stride <= i64::MAX && i64::MIN <= self.last_point() <= i64::MAX {
                Some(self.last_point() as i64)
            } else {
                None
            }),
    {
        let steps: i64 = match i64::try_from(self.width.checked_sub(1)?) {
            Ok(steps) => steps,
            Err(_) => return None,
        };
        self.base.checked_add(steps.checked_mul(self.stride)?)
    }

    /// The one-based position of `value`, or `None` where it is no lattice point or so far
    /// from the base that the distance does not fit the type.
    pub fn ordinal(self, value: i64) -> (result: Option<usize>)
        requires
            self.stride > 0,
        ensures
            result == (if self.contains(value as int) && value - self.base <= i64::MAX {
                Some(self.position(value as int) as usize)
            } else {
                None
            }),
            self.contains(value as int) ==> 1 <= self.position(value as int) <= self.width,
    {
        proof {
            if value >= self.base {
                lemma_position(self, value as int);
            }
        }
        let difference: i64 = match value.checked_sub(self.base) {
            Some(difference) => difference,
            None => {
                return None;
            },
        };
        if difference < 0 || difference % self.stride != 0 {
            return None;
        }
        let ordinal: usize = match usize::try_from(difference / self.stride) {
            Ok(ordinal) => ordinal,
            Err(_) => {
                return None;
            },
        };
        if ordinal < self.width {
            Some(ordinal + 1)
        } else {
            None
        }
    }
}

/// Rows that a rejecting sample looks at.
pub const SAMPLES: usize = 64;

/// The row of the given sample among `len` rows: evenly spaced, first and last
/// row included.
pub open spec fn sample_row(len: int, sample: int) -> int {
    sample * ((len - 1) / (SAMPLES - 1)) + sample * ((len - 1) % (SAMPLES - 1)) / (SAMPLES - 1)
}

/// The values at the first `count` sample rows that are not null.
pub open spec fn sampled(values: Seq<i64>, nulls: Seq<bool>, count: int) -> Seq<int>
    decreases count,
{
    if count <= 0 {
        Seq::empty()
    } else {
        let before = sampled(values, nulls, count - 1);
        let row = sample_row(values.len() as int, count - 1);
        if nulls[row] {
            before
        } else {
            before.push(values[row] as int)
        }
    }
}

/// Whether a routing table of one null row and `points` integers by one null tag
/// and `dictionary_len` tags outgrows `limit` bytes.
pub open spec fn product_exceeds(points: int, dictionary_len: int, limit: int) -> bool {
    (points + 1) * (dictionary_len + 1) > limit / (ENTRY_BYTES as int)
}

/// Whether the sample alone shows that the table of a first batch is too large.
pub open spec fn sample_exceeds(
    values: Seq<i64>,
    nulls: Seq<bool>,
    dictionary_len: int,
    limit: int,
) -> bool {
    let sample = sampled(values, nulls, SAMPLES as int);
    &&& values.len() > SAMPLES
    &&& match (least(None, sample), greatest(None, sample)) {
        (Some(min), Some(max)) => min < max && (max - min > i64::MAX || product_exceeds(
            (max - min) / common_stride(0, sample, min) + 1,
            dictionary_len,
            limit,
        )),
        _ => false,
    }
}

/// Decides from a sample of the rows that no routing table can fit `limit`.
///
/// A batch of at most [`SAMPLES`] rows and a sample without two distinct values
/// decide nothing.
pub fn sample_exceeds_limit(
    values: &[i64],
    nulls: &[bool],
    dictionary_len: usize,
    limit: usize,
) -> (result: bool)
    requires
        values@.len() == nulls@.len(),
    ensures
        result == sample_exceeds(values@, nulls@, dictionary_len as int, limit as int),
{
    if values.len() <= SAMPLES {
        return false;
    }
    let step: usize = (values.len() - 1) / (SAMPLES - 1);
    let remainder: usize = (values.len() - 1) % (SAMPLES - 1);
    let ghost sample_all = sampled(values@, nulls@, SAMPLES as int);
    let mut min: Option<i64> = None;
    let mut max: Option<i64> = None;
    let mut sample: usize = 0;
    while sample < SAMPLES
        invariant
            sample <= SAMPLES,
            SAMPLES < values@.len() <= usize::MAX,
            values@.len() == nulls@.len(),
            step == (values@.len() - 1) / (SAMPLES - 1),
            remainder == (values@.len() - 1) % (SAMPLES - 1),
            as_int(min) == least(None, sampled(values@, nulls@, sample as int)),
            as_int(max) == greatest(None, sampled(values@, nulls@, sample as int)),
        decreases SAMPLES - sample,
    {
        proof {
            lemma_sample_row(values@.len() as int, sample as int, step as int, remainder as int);
        }
        let row: usize = sample * step + sample * remainder / (SAMPLES - 1);
        let ghost before = sampled(values@, nulls@, sample as int);
        if !nulls[row] {
            let value: i64 = values[row];
            assert(before.push(value as int).drop_last() =~= before);
            min = match min {
                Some(m) if m <= value => Some(m),
                _ => Some(value),
            };
            max = match max {
                Some(m) if m >= value => Some(m),
                _ => Some(value),
            };
        }
        sample = sample + 1;
    }
    proof {
        lemma_extremes(None, None, sample_all);
    }
    let (min, max): (i64, i64) = match (min, max) {
        (Some(min), Some(max)) => (min, max),
        _ => {
            return false;
        },
    };
    if min >= max {
        return false;
    }
    let span: i64 = match max.checked_sub(min) {
        Some(span) => span,
        None => {
            return true;
        },
    };
    let mut stride: i64 = 0;
    let mut sample: usize = 0;
    while sample < SAMPLES
        invariant
            sample <= SAMPLES,
            SAMPLES < values@.len() <= usize::MAX,
            values@.len() == nulls@.len(),
            step == (values@.len() - 1) / (SAMPLES - 1),
            remainder == (values@.len() - 1) % (SAMPLES - 1),
            sample_all == sampled(values@, nulls@, SAMPLES as int),
            stride == common_stride(0, sampled(values@, nulls@, sample as int), min as int),
            stride >= 0,
            span == max - min,
            forall|i: int| 0 <= i < sample_all.len() ==> min <= #[trigger] sample_all[i] <= max,
        decreases SAMPLES - sample,
    {
        proof {
            lemma_sample_row(values@.len() as int, sample as int, step as int, remainder as int);
        }
        let row: usize = sample * step + sample * remainder / (SAMPLES - 1);
        let ghost before = sampled(values@, nulls@, sample as int);
        if !nulls[row] {
            let value: i64 = values[row];
            proof {
                assert(before.push(value as int).drop_last() =~= before);
                lemma_sampled_prefix(values@, nulls@, sample + 1, SAMPLES as int);
                assert(sampled(values@, nulls@, sample + 1)[before.len() as int] == value);
            }
            let distance: i64 = value - min;
            proof {
                arith::law_gcd_is_greatest_common_divisor(stride as int, distance as int);
            }
            stride = arith::gcd(stride, distance);
        }
        sample = sample + 1;
    }
    proof {
        lemma_extremes_attained(None, None, sample_all);
        lemma_common_stride(0, sample_all, min as int);
        lemma_width(span as int, stride as int);
        let exact = span as int / stride as int;
        assert((exact + 2) * (dictionary_len + 1) >= exact + 2) by (nonlinear_arith)
            requires
                exact >= 0,
                dictionary_len >= 0,
        ;
        assert((exact + 2) * (dictionary_len + 1) >= dictionary_len + 1) by (nonlinear_arith)
            requires
                exact >= 0,
                dictionary_len >= 0,
        ;
    }
    let steps: usize = match usize::try_from(span / stride) {
        Ok(steps) => steps,
        Err(_) => {
            return true;
        },
    };
    let points: usize = match steps.checked_add(2) {
        Some(points) => points,
        None => {
            return true;
        },
    };
    let tags: usize = match dictionary_len.checked_add(1) {
        Some(tags) => tags,
        None => {
            return true;
        },
    };
    match points.checked_mul(tags) {
        Some(cells) => cells > limit / ENTRY_BYTES,
        None => true,
    }
}

proof fn lemma_sample_row(len: int, sample: int, step: int, remainder: int)
    requires
        0 <= sample < SAMPLES,
        SAMPLES < len,
        step == (len - 1) / (SAMPLES - 1),
        remainder == (len - 1) % (SAMPLES - 1),
    ensures
        0 <= sample_row(len, sample) < len,
        sample_row(len, sample) == sample * step + sample * remainder / (SAMPLES - 1),
        0 <= sample * step < len,
        0 <= sample * remainder < 4096,
        0 <= sample * remainder / (SAMPLES - 1) < len,
{
    vstd::arithmetic::div_mod::lemma_fundamental_div_mod(len - 1, 63);
    vstd::arithmetic::div_mod::lemma_mod_bound(len - 1, 63);
    assert(0 <= sample * step <= 63 * step) by (nonlinear_arith)
        requires
            0 <= sample <= 63,
            step >= 0,
    ;
    assert(0 <= sample * remainder <= 63 * remainder) by (nonlinear_arith)
        requires
            0 <= sample <= 63,
            remainder >= 0,
    ;
    let scaled = sample * remainder;
    assert(0 <= scaled / 63 <= remainder);
}

/// Later samples only extend the sampled values.
proof fn lemma_sampled_prefix(values: Seq<i64>, nulls: Seq<bool>, short: int, long: int)
    requires
        0 <= short <= long,
    ensures
        sampled(values, nulls, short).len() <= sampled(values, nulls, long).len(),
        forall|i: int|
            0 <= i < sampled(values, nulls, short).len() ==> sampled(values, nulls, long)[i]
                == #[trigger] sampled(values, nulls, short)[i],
    decreases long - short,
{
    if short < long {
        lemma_sampled_prefix(values, nulls, short, long - 1);
    }
}

/// The extremes are the start or a member.
proof fn lemma_extremes_attained(low: Option<int>, high: Option<int>, s: Seq<int>)
    ensures
        least(low, s) is Some ==> least(low, s) == low || s.contains(least(low, s)->0),
        greatest(high, s) is Some ==> greatest(high, s) == high || s.contains(greatest(high, s)->0),
    decreases s.len(),
{
    if s.len() > 0 {
        let before = s.drop_last();
        lemma_extremes_attained(low, high, before);
        assert(s[s.len() - 1] == s.last());
        if before.contains(least(low, s)->0) {
            let i = choose|i: int| 0 <= i < before.len() && before[i] == least(low, s)->0;
            assert(s[i] == least(low, s)->0);
        }
        if before.contains(greatest(high, s)->0) {
            let i = choose|i: int| 0 <= i < before.len() && before[i] == greatest(high, s)->0;
            assert(s[i] == greatest(high, s)->0);
        }
    }
}

/// The common stride is the greatest common divisor of the start and all
/// distances.
proof fn lemma_common_stride(start: int, s: Seq<int>, origin: int)
    requires
        start >= 0,
        forall|i: int| 0 <= i < s.len() ==> origin <= #[trigger] s[i],
    ensures
        common_stride(start, s, origin) >= 0,
        arith::divides(common_stride(start, s, origin), start),
        forall|i: int|
            0 <= i < s.len() ==> arith::divides(
                common_stride(start, s, origin),
                #[trigger] s[i] - origin,
            ),
        forall|d: int|
            arith::divides(d, start) && (forall|i: int|
                0 <= i < s.len() ==> arith::divides(d, #[trigger] s[i] - origin))
                ==> #[trigger] arith::divides(d, common_stride(start, s, origin)),
        common_stride(start, s, origin) == 0 <==> start == 0 && forall|i: int|
            0 <= i < s.len() ==> #[trigger] s[i] == origin,
    decreases s.len(),
{
    if s.len() == 0 {
        assert(start == start * 1);
    } else {
        let before = s.drop_last();
        assert(forall|i: int| 0 <= i < before.len() ==> before[i] == #[trigger] s[i]);
        lemma_common_stride(start, before, origin);
        let inner = common_stride(start, before, origin);
        let outer = common_stride(start, s, origin);
        arith::law_gcd_is_greatest_common_divisor(inner, s.last() - origin);
        arith::lemma_divides_transitive(outer, inner, start);
        assert forall|i: int| 0 <= i < s.len() implies arith::divides(
            outer,
            #[trigger] s[i] - origin,
        ) by {
            if i < before.len() {
                assert(before[i] == s[i]);
                arith::lemma_divides_transitive(outer, inner, s[i] - origin);
            }
        }
        assert forall|d: int|
            arith::divides(d, start) && (forall|i: int|
                0 <= i < s.len() ==> arith::divides(d, #[trigger] s[i] - origin)) implies 
                #[trigger] arith::divides(d, outer) by {
            assert(forall|i: int|
                0 <= i < before.len() ==> arith::divides(d, #[trigger] before[i] - origin));
            assert(arith::divides(d, s[s.len() - 1] - origin));
        }
        assert(s.last() == s[s.len() - 1]);
        if outer == 0 {
            assert forall|i: int| 0 <= i < s.len() implies #[trigger] s[i] == origin by {
                if i < before.len() {
                    assert(before[i] == origin);
                }
            }
        }
    }
}

pub open spec fn as_int(value: Option<i64>) -> Option<int> {
    match value {
        Some(value) => Some(value as int),
        None => None,
    }
}

/// The extremes bound every member and the start.
proof fn lemma_extremes(low: Option<int>, high: Option<int>, s: Seq<int>)
    ensures
        match least(low, s) {
            Some(min) => {
                &&& forall|i: int| 0 <= i < s.len() ==> min <= #[trigger] s[i]
                &&& low is Some ==> min <= low->0
            },
            None => low is None && s.len() == 0,
        },
        match greatest(high, s) {
            Some(max) => {
                &&& forall|i: int| 0 <= i < s.len() ==> #[trigger] s[i] <= max
                &&& high is Some ==> high->0 <= max
            },
            None => high is None && s.len() == 0,
        },
    decreases s.len(),
{
    if s.len() > 0 {
        lemma_extremes(low, high, s.drop_last());
        assert forall|i: int| 0 <= i < s.len() implies least(low, s)->0 <= #[trigger] s[i]
            <= greatest(high, s)->0 by {
            if i < s.len() - 1 {
                assert(s.drop_last()[i] == s[i]);
            }
        }
    }
}

/// A value that is not null is among the present ones.
proof fn lemma_present_member(values: Seq<i64>, nulls: Seq<bool>, row: int)
    requires
        0 <= row < values.len(),
        values.len() <= nulls.len(),
        !nulls[row],
    ensures
        present(values, nulls).contains(values[row] as int),
    decreases values.len(),
{
    let before = present(values.drop_last(), nulls);
    if row == values.len() - 1 {
        assert(present(values, nulls)[before.len() as int] == values[row]);
    } else {
        lemma_present_member(values.drop_last(), nulls, row);
        let i = choose|i: int| 0 <= i < before.len() && before[i] == values[row];
        assert(present(values, nulls)[i] == values[row]);
    }
}

proof fn lemma_width(span: int, stride: int)
    requires
        span >= 0,
        stride > 0,
    ensures
        span / stride >= 0,
        span / stride <= span,
        arith::power_of_two_at_least(span / stride + 1) >= span / stride + 1,
        arith::power_of_two_at_least(span / stride + 1) >= 1,
{
    vstd::arithmetic::div_mod::lemma_div_nonincreasing(span, stride);
    vstd::arithmetic::div_mod::lemma_div_pos_is_pos(span, stride);
    arith::lemma_power_of_two_at_least(span / stride + 1);
}

/// The lattice extends upward by at least one unit per step.
proof fn lemma_extent(domain: IntegerDomain)
    requires
        domain.wf(),
    ensures
        0 <= domain.width - 1 <= (domain.width - 1) * domain.stride,
{
    assert(domain.width - 1 <= (domain.width - 1) * domain.stride) by (nonlinear_arith)
        requires
            domain.width >= 1,
            domain.stride >= 1,
    ;
}

/// Where the distance from the base is a multiple of the stride, being at most
/// the last point is having a quotient below the width.
pub proof fn lemma_position(domain: IntegerDomain, value: int)
    requires
        domain.stride > 0,
        value >= domain.base,
    ensures
        (value - domain.base) % (domain.stride as int) == 0 ==> {
            let quotient = (value - domain.base) / (domain.stride as int);
            &&& quotient * domain.stride == value - domain.base
            &&& (quotient < domain.width <==> value <= domain.last_point())
            &&& quotient >= 0
        },
{
    let stride = domain.stride as int;
    let quotient = (value - domain.base) / stride;
    vstd::arithmetic::div_mod::lemma_fundamental_div_mod(value - domain.base, stride);
    if (value - domain.base) % stride == 0 {
        assert(quotient * stride == stride * quotient) by (nonlinear_arith);
        assert(quotient >= 0) by (nonlinear_arith)
            requires
                stride > 0,
                quotient * stride >= 0,
        ;
        if quotient < domain.width {
            assert(quotient * stride <= (domain.width - 1) * stride) by (nonlinear_arith)
                requires
                    stride > 0,
                    quotient <= domain.width - 1,
            ;
        } else {
            assert(quotient * stride >= (domain.width - 1) * stride + stride) by (nonlinear_arith)
                requires
                    stride > 0,
                    quotient >= domain.width,
            ;
        }
    }
}

/// An observed lattice is well formed, holds every observed value, and covers
/// the domain that it replaces.
pub proof fn law_observed_domain_covers(values: Seq<int>, old: Option<IntegerDomain>)
    requires
        match old {
            Some(old) => old.wf(),
            None => true,
        },
        forall|i: int| 0 <= i < values.len() ==> i64::MIN <= #[trigger] values[i] <= i64::MAX,
        IntegerDomain::observed(values, old) is Some,
    ensures
        ({
            let domain = IntegerDomain::observed(values, old)->0;
            &&& domain.wf()
            &&& forall|i: int| 0 <= i < values.len() ==> domain.contains(#[trigger] values[i])
            &&& match old {
                Some(old) => domain.covers(old),
                None => true,
            }
        }),
{
    let domain = IntegerDomain::observed(values, old)->0;
    let low = match old {
        Some(old) => Some(old.base as int),
        None => None,
    };
    let high = match old {
        Some(old) => Some(old.last_point()),
        None => None,
    };
    let min = least(low, values)->0;
    let max = greatest(high, values)->0;
    lemma_extremes(low, high, values);
    lemma_extremes_attained(low, high, values);
    if let Some(old) = old {
        lemma_extent(old);
        arith::law_gcd_is_greatest_common_divisor(old.stride as int, old.base - min);
    }
    let start = match old {
        Some(old) => arith::euclid(old.stride as int, old.base - min),
        None => 0,
    };
    lemma_common_stride(start, values, min);
    let stride = IntegerDomain::observed_stride(values, old, min);
    // Every point is a whole number of strides from the least one.
    assert forall|value: int|
        values.contains(value) || (old is Some && (old->0).contains(value)) implies {
        &&& #[trigger] arith::divides(stride, value - min)
        &&& min <= value <= max
    } by {
        if values.contains(value) {
            let i = choose|i: int| 0 <= i < values.len() && values[i] == value;
            assert(arith::divides(stride, values[i] - min));
        } else {
            let old = old->0;
            arith::lemma_divides_transitive(stride, start, old.base - min);
            arith::lemma_divides_transitive(stride, start, old.stride as int);
            lemma_position(old, value);
            let quotient = (value - old.base) / (old.stride as int);
            arith::lemma_divides_combination(
                stride,
                old.base - min,
                old.stride as int,
                quotient,
            );
            assert(old.stride * quotient == quotient * old.stride) by (nonlinear_arith);
        }
    }
    if let Some(old) = old {
        assert(old.contains(old.base as int));
        vstd::arithmetic::div_mod::lemma_mod_multiples_basic(old.width - 1, old.stride as int);
        assert(old.contains(old.last_point()));
    }
    assert(arith::divides(stride, max - min));
    assert(min <= max);
    lemma_width(max - min, stride);
    arith::lemma_divides_is_zero_rem(stride, max - min);
    let steps = (max - min) / stride;
    vstd::arithmetic::div_mod::lemma_fundamental_div_mod(max - min, stride);
    assert(steps * stride == stride * steps) by (nonlinear_arith);
    let width = domain.width as int;
    let distance = (width - 1) * stride;
    assert(distance >= steps * stride) by (nonlinear_arith)
        requires
            width - 1 >= steps,
            stride > 0,
            distance == (width - 1) * stride,
    ;
    arith::lemma_power_of_two_at_least(steps + 1);
    assert(stride <= i64::MAX) by {
        // A multiple of the stride other than zero lies within the span or the old stride.
        if max > min {
            assert(stride <= max - min) by (nonlinear_arith)
                requires
                    max - min == stride * steps,
                    max > min,
                    stride > 0,
            ;
        } else {
            let old = old->0;
            arith::lemma_divides_transitive(stride, start, old.stride as int);
            let k = choose|k: int| old.stride == #[trigger] (stride * k);
            assert(stride <= old.stride) by (nonlinear_arith)
                requires
                    old.stride == stride * k,
                    old.stride > 0,
                    stride > 0,
            ;
        }
    }
    assert(domain.stride == stride);
    assert(domain.wf());
    assert(arith::divides(stride, distance)) by {
        assert(distance == stride * (width - 1)) by (nonlinear_arith)
            requires
                distance == (width - 1) * stride,
        ;
    }
    assert forall|value: int|
        values.contains(value) || (old is Some && (old->0).contains(value)) implies 
            #[trigger] domain.contains(value) by {
        assert(arith::divides(stride, value - min));
        if domain.base != min {
            arith::lemma_divides_combination(stride, value - min, max - min, -1);
            arith::lemma_divides_combination(stride, value - max, distance, 1);
            assert(domain.base == max - distance);
            assert(value - domain.base == (value - max) + distance * 1);
        }
        arith::lemma_divides_is_zero_rem(stride, value - domain.base);
    }
    assert forall|i: int| 0 <= i < values.len() implies domain.contains(#[trigger] values[i]) by {
        assert(values.contains(values[i]));
    }
}

/// Observing nothing but points of the domain in use keeps that domain.
pub proof fn law_observed_domain_is_stable(values: Seq<int>, old: IntegerDomain)
    requires
        old.wf(),
        forall|i: int| 0 <= i < values.len() ==> old.contains(#[trigger] values[i]),
    ensures
        IntegerDomain::observed(values, Some(old)) == Some(old),
{
    let low = Some(old.base as int);
    let high = Some(old.last_point());
    lemma_extremes(low, high, values);
    lemma_extremes_attained(low, high, values);
    let min = least(low, values)->0;
    let max = greatest(high, values)->0;
    assert(min == old.base && max == old.last_point());
    lemma_stride_kept(old.stride as int, values, old.base as int);
    vstd::arithmetic::div_mod::lemma_div_multiples_vanish(old.width - 1, old.stride as int);
    assert((old.width - 1) * old.stride == old.stride * (old.width - 1)) by (nonlinear_arith);
}

proof fn lemma_stride_kept(stride: int, s: Seq<int>, origin: int)
    requires
        stride > 0,
        forall|i: int|
            0 <= i < s.len() ==> origin <= #[trigger] s[i] && (s[i] - origin) % stride == 0,
    ensures
        common_stride(stride, s, origin) == stride,
    decreases s.len(),
{
    if s.len() > 0 {
        let before = s.drop_last();
        assert(forall|i: int| 0 <= i < before.len() ==> before[i] == #[trigger] s[i]);
        lemma_stride_kept(stride, before, origin);
        let distance = s.last() - origin;
        arith::law_gcd_is_greatest_common_divisor(stride, distance);
        arith::lemma_divides_is_zero_rem(stride, distance);
        assert(stride == stride * 1);
        let found = arith::euclid(stride, distance);
        assert(arith::divides(stride, found));
        let up = choose|k: int| found == #[trigger] (stride * k);
        let down = choose|k: int| stride == #[trigger] (found * k);
        assert(found == stride) by (nonlinear_arith)
            requires
                found == stride * up,
                stride == found * down,
                stride > 0,
                found >= 0,
        ;
    }
}

/// Sampling only rejects: where the sample shows that the table is too large,
/// either no lattice is observed in the full batch or the table of the observed
/// lattice is too large as well.
pub proof fn law_sampling_only_rejects(
    values: Seq<i64>,
    nulls: Seq<bool>,
    dictionary_len: int,
    limit: int,
)
    requires
        values.len() == nulls.len(),
        dictionary_len >= 0,
        sample_exceeds(values, nulls, dictionary_len, limit),
    ensures
        match IntegerDomain::observed(present(values, nulls), None) {
            Some(domain) => product_exceeds(domain.width as int, dictionary_len, limit),
            None => true,
        },
{
    let all = present(values, nulls);
    let sample = sampled(values, nulls, SAMPLES as int);
    lemma_sampled_present(values, nulls, SAMPLES as int);
    lemma_extremes(None, None, all);
    lemma_extremes(None, None, sample);
    lemma_extremes_attained(None, None, all);
    lemma_extremes_attained(None, None, sample);
    if IntegerDomain::observed(all, None) is Some {
        let domain = IntegerDomain::observed(all, None)->0;
        let min = least(None, all)->0;
        let max = greatest(None, all)->0;
        let low = least(None, sample)->0;
        let high = greatest(None, sample)->0;
        assert(all.contains(low) && all.contains(high));
        assert(min <= low && high <= max);
        let fine = common_stride(0, all, min);
        let coarse = common_stride(0, sample, low);
        lemma_common_stride(0, all, min);
        lemma_common_stride(0, sample, low);
        assert(fine > 0);
        // The stride of the whole batch divides every distance within the sample.
        assert forall|i: int| 0 <= i < sample.len() implies arith::divides(
            fine,
            #[trigger] sample[i] - low,
        ) by {
            assert(sample.contains(sample[i]));
            let j = choose|j: int| 0 <= j < all.len() && all[j] == sample[i];
            let k = choose|k: int| 0 <= k < all.len() && all[k] == low;
            assert(arith::divides(fine, all[j] - min) && arith::divides(fine, all[k] - min));
            arith::lemma_divides_combination(fine, all[j] - min, all[k] - min, -1);
        }
        assert(0 == fine * 0);
        assert(arith::divides(fine, coarse));
        assert(coarse > 0) by {
            let k = choose|k: int| 0 <= k < sample.len() && sample[k] == high;
            assert(sample[k] != low);
        }
        let factor = choose|k: int| coarse == #[trigger] (fine * k);
        assert(fine <= coarse) by (nonlinear_arith)
            requires
                coarse == fine * factor,
                coarse > 0,
                fine > 0,
        ;
        lemma_width(max - min, fine);
        vstd::arithmetic::div_mod::lemma_div_is_ordered(high - low, max - min, coarse);
        vstd::arithmetic::div_mod::lemma_div_is_ordered_by_denominator(max - min, fine, coarse);
        let small = (high - low) / coarse + 2;
        assert(small <= domain.width + 1);
        assert(small * (dictionary_len + 1) <= (domain.width + 1) * (dictionary_len + 1))
            by (nonlinear_arith)
            requires
                small <= domain.width + 1,
                dictionary_len >= 0,
        ;
    }
}

proof fn lemma_sampled_present(values: Seq<i64>, nulls: Seq<bool>, count: int)
    requires
        values.len() == nulls.len(),
        SAMPLES < values.len(),
        count <= SAMPLES,
    ensures
        forall|v: int|
            #[trigger] sampled(values, nulls, count).contains(v) ==> present(
                values,
                nulls,
            ).contains(v),
    decreases count,
{
    if count > 0 {
        lemma_sampled_present(values, nulls, count - 1);
        let len = values.len() as int;
        let row = sample_row(len, count - 1);
        lemma_sample_row(
            len,
            count - 1,
            (len - 1) / (SAMPLES - 1),
            (len - 1) % (SAMPLES - 1),
        );
        let before = sampled(values, nulls, count - 1);
        if !nulls[row] {
            lemma_present_member(values, nulls, row);
            assert forall|v: int| #[trigger]
                sampled(values, nulls, count).contains(v) implies present(values, nulls).contains(
                v,
            ) by {
                let i = choose|i: int|
                    0 <= i < sampled(values, nulls, count).len() && sampled(
                        values,
                        nulls,
                        count,
                    )[i] == v;
                if i < before.len() {
                    assert(before[i] == v);
                    assert(before.contains(v));
                }
            }
        }
    }
}

/// The points of a lattice are those that are a whole number of strides, below the width,
/// above the base, and each has the place of that number.
pub proof fn law_points_are_strides_above_the_base(domain: IntegerDomain, value: int, steps: int)
    requires
        domain.stride > 0,
    ensures
        domain.contains(value) <==> exists|k: int|
            0 <= k < domain.width && value == #[trigger] (domain.base + k * domain.stride),
        domain.position(domain.base + steps * domain.stride) == steps + 1,
{
    let stride = domain.stride as int;
    if domain.contains(value) {
        lemma_position(domain, value);
        let k = (value - domain.base) / stride;
        assert(value == domain.base + k * domain.stride);
    }
    if exists|k: int|
        0 <= k < domain.width && value == #[trigger] (domain.base + k * domain.stride) {
        let k = choose|k: int|
            0 <= k < domain.width && value == #[trigger] (domain.base + k * domain.stride);
        vstd::arithmetic::div_mod::lemma_mod_multiples_basic(k, stride);
        assert(0 <= k * stride <= (domain.width - 1) * stride) by (nonlinear_arith)
            requires
                0 <= k <= domain.width - 1,
                stride > 0,
        ;
    }
    vstd::arithmetic::div_mod::lemma_div_multiples_vanish(steps, stride);
    assert(stride * steps == steps * stride) by (nonlinear_arith);
}

/// The present values are those in the rows that are not null.
pub proof fn law_present_values_are_those_of_the_rows(
    values: Seq<i64>,
    nulls: Seq<bool>,
    value: int,
)
    requires
        values.len() <= nulls.len(),
    ensures
        present(values, nulls).contains(value) <==> exists|row: int|
            0 <= row < values.len() && !nulls[row] && #[trigger] values[row] == value,
    decreases values.len(),
{
    if exists|row: int| 0 <= row < values.len() && !nulls[row] && #[trigger] values[row] == value {
        let row = choose|row: int|
            0 <= row < values.len() && !nulls[row] && #[trigger] values[row] == value;
        lemma_present_member(values, nulls, row);
    }
    if values.len() > 0 {
        let fewer = values.drop_last();
        law_present_values_are_those_of_the_rows(fewer, nulls, value);
        let all = present(values, nulls);
        let before = present(fewer, nulls);
        if all.contains(value) {
            let i = choose|i: int| 0 <= i < all.len() && all[i] == value;
            if i < before.len() {
                assert(before[i] == value);
                let row = choose|row: int|
                    0 <= row < fewer.len() && !nulls[row] && #[trigger] fewer[row] == value;
                assert(values[row] == value);
            } else {
                assert(values[values.len() - 1] == value);
            }
        }
    }
}

/// The lattice of a first batch is no finer and no longer than its values ask for: every
/// number that divides all distances between them divides the stride, the base is the least
/// value, and the lattice is less than twice as long as the values reach.
pub proof fn law_first_lattice_is_tight(values: Seq<int>, d: int)
    requires
        forall|i: int| 0 <= i < values.len() ==> i64::MIN <= #[trigger] values[i] <= i64::MAX,
        IntegerDomain::observed(values, None) is Some,
        d > 0,
        forall|i: int, j: int|
            0 <= i < values.len() && 0 <= j < values.len() ==> (#[trigger] values[i]
                - #[trigger] values[j]) % d == 0,
    ensures
        ({
            let domain = IntegerDomain::observed(values, None)->0;
            &&& (domain.stride as int) % d == 0
            &&& values.contains(domain.base as int)
            &&& exists|i: int|
                0 <= i < values.len() && domain.width * domain.stride < 2 * (#[trigger] values[i]
                    - domain.base) + 2 * domain.stride
        }),
{
    let domain = IntegerDomain::observed(values, None)->0;
    let min = least(None, values)->0;
    let max = greatest(None, values)->0;
    lemma_extremes(None, None, values);
    lemma_extremes_attained(None, None, values);
    lemma_common_stride(0, values, min);
    let stride = common_stride(0, values, min);
    law_observed_domain_covers(values, None);
    let low = choose|i: int| 0 <= i < values.len() && values[i] == min;
    let high = choose|i: int| 0 <= i < values.len() && values[i] == max;
    assert(domain.stride == stride) by {
        lemma_first_stride(values);
    }
    assert forall|i: int| 0 <= i < values.len() implies arith::divides(d, #[trigger] values[i] - min) by {
        assert((values[i] - values[low]) % d == 0);
        arith::lemma_divides_is_zero_rem(d, values[i] - min);
    }
    assert(0 == d * 0);
    assert(arith::divides(d, stride));
    arith::lemma_divides_is_zero_rem(d, stride);
    let steps = (max - min) / stride;
    lemma_width(max - min, stride);
    arith::law_rounding_up_gives_the_next_power_of_two(steps + 1);
    vstd::arithmetic::div_mod::lemma_fundamental_div_mod(max - min, stride);
    let width = domain.width as int;
    assert(width * stride < 2 * (values[high] - domain.base) + 2 * stride) by {
        let rest = (max - min) % stride;
        assert(max - min == stride * steps + rest && rest >= 0);
        if width == 1 {
            assert(width * stride == stride) by (nonlinear_arith)
                requires
                    width == 1,
            ;
        } else {
            assert(width * stride <= (2 * steps + 1) * stride) by (nonlinear_arith)
                requires
                    width <= 2 * steps + 1,
                    stride > 0,
            ;
            assert((2 * steps + 1) * stride == 2 * (stride * steps) + stride) by (nonlinear_arith);
        }
    }
}

/// The stride of a first lattice fits the type.
proof fn lemma_first_stride(values: Seq<int>)
    requires
        forall|i: int| 0 <= i < values.len() ==> i64::MIN <= #[trigger] values[i] <= i64::MAX,
        IntegerDomain::observed(values, None) is Some,
    ensures
        common_stride(0, values, least(None, values)->0) == (IntegerDomain::observed(
            values,
            None,
        )->0).stride,
{
    let min = least(None, values)->0;
    let max = greatest(None, values)->0;
    lemma_extremes(None, None, values);
    lemma_extremes_attained(None, None, values);
    lemma_common_stride(0, values, min);
    let stride = common_stride(0, values, min);
    let k = choose|i: int| 0 <= i < values.len() && values[i] != min;
    assert(exists|i: int| 0 <= i < values.len() && values[i] != min);
    let distance = values[k] - min;
    assert(arith::divides(stride, distance));
    let factor = choose|x: int| distance == #[trigger] (stride * x);
    assert(stride <= distance) by (nonlinear_arith)
        requires
            distance == stride * factor,
            distance > 0,
            stride > 0,
    ;
}

/// Values that are not all the same and lie close to each other have a lattice.
pub proof fn law_close_values_have_a_lattice(values: Seq<int>, low: int, high: int, i: int, j: int)
    requires
        0 <= i < values.len(),
        0 <= j < values.len(),
        values[i] != values[j],
        forall|k: int| 0 <= k < values.len() ==> low <= #[trigger] values[k] <= high,
        i64::MIN <= low,
        high + 4 * (high - low) <= i64::MAX,
        4 * (high - low) + 4 <= usize::MAX,
        4 * (high - low) <= i64::MAX,
    ensures
        IntegerDomain::observed(values, None) is Some,
{
    let min = least(None, values)->0;
    let max = greatest(None, values)->0;
    lemma_extremes(None, None, values);
    lemma_extremes_attained(None, None, values);
    lemma_common_stride(0, values, min);
    let stride = common_stride(0, values, min);
    assert(stride != 0) by {
        assert(values[i] != min || values[j] != min);
    }
    assert(low <= min <= max <= high);
    let steps = (max - min) / stride;
    lemma_width(max - min, stride);
    arith::law_rounding_up_gives_the_next_power_of_two(steps + 1);
    vstd::arithmetic::div_mod::lemma_fundamental_div_mod(max - min, stride);
    let width = arith::power_of_two_at_least(steps + 1);
    assert((width - 1) * stride <= 2 * (max - min)) by {
        assert((width - 1) * stride <= (2 * steps) * stride) by (nonlinear_arith)
            requires
                width - 1 <= 2 * steps,
                stride > 0,
        ;
        assert((2 * steps) * stride == 2 * (stride * steps)) by (nonlinear_arith);
    }
    assert((width - 1) * stride >= 0) by (nonlinear_arith)
        requires
            width >= 1,
            stride > 0,
    ;
}

/// A table outgrows a limit exactly where its bytes do: four for each pair of an integer or
/// null and a value or null.
pub proof fn law_tables_are_measured_in_bytes(points: int, dictionary_len: int, limit: int)
    requires
        points >= 0,
        dictionary_len >= 0,
        limit >= 0,
    ensures
        product_exceeds(points, dictionary_len, limit) <==> 4 * ((points + 1) * (dictionary_len
            + 1)) > limit,
{
}

/// The samples of a batch are in row order, with the first row and the last among them.
pub proof fn law_samples_span_the_rows(len: int, sample: int)
    requires
        len > 64,
        0 <= sample < 64,
    ensures
        sample_row(len, 0) == 0,
        sample_row(len, 63) == len - 1,
        0 <= sample_row(len, sample) < len,
        sample < 63 ==> sample_row(len, sample) < sample_row(len, sample + 1),
{
    let step = (len - 1) / 63;
    let remainder = (len - 1) % 63;
    lemma_sample_row(len, sample, step, remainder);
    vstd::arithmetic::div_mod::lemma_fundamental_div_mod(len - 1, 63);
    assert(0 * step == 0 && 0 * remainder == 0) by (nonlinear_arith);
    assert(63 * remainder / 63 == remainder);
    assert((sample + 1) * step == sample * step + step) by (nonlinear_arith);
    assert((sample + 1) * remainder == sample * remainder + remainder) by (nonlinear_arith);
    assert(step >= 1);
    assert((sample + 1) * remainder / 63 >= sample * remainder / 63);
}

/// A lattice that grows is no finer than the values and the lattice before ask for: every
/// number that divides the stride before and all distances from the base before divides the
/// stride. It keeps its base where no value lies below, and else ends at the greatest point.
pub proof fn law_grown_lattice_is_tight(values: Seq<int>, old: IntegerDomain, d: int)
    requires
        old.wf(),
        forall|i: int| 0 <= i < values.len() ==> i64::MIN <= #[trigger] values[i] <= i64::MAX,
        IntegerDomain::observed(values, Some(old)) is Some,
        d > 0,
        (old.stride as int) % d == 0,
        forall|i: int| 0 <= i < values.len() ==> (#[trigger] values[i] - old.base) % d == 0,
    ensures
        ({
            let domain = IntegerDomain::observed(values, Some(old))->0;
            &&& (domain.stride as int) % d == 0
            &&& (forall|i: int| 0 <= i < values.len() ==> old.base <= #[trigger] values[i])
                ==> domain.base == old.base
            &&& (exists|i: int| 0 <= i < values.len() && #[trigger] values[i] < old.base) ==> {
                let last = domain.base + (domain.width - 1) * domain.stride;
                &&& last == old.base + (old.width - 1) * old.stride || values.contains(last)
                &&& last >= old.base + (old.width - 1) * old.stride
                &&& forall|i: int| 0 <= i < values.len() ==> #[trigger] values[i] <= last
            }
        }),
{
    let domain = IntegerDomain::observed(values, Some(old))->0;
    let low = Some(old.base as int);
    let high = Some(old.last_point());
    let min = least(low, values)->0;
    let max = greatest(high, values)->0;
    lemma_extremes(low, high, values);
    lemma_extremes_attained(low, high, values);
    let start = arith::euclid(old.stride as int, old.base - min);
    arith::law_gcd_is_greatest_common_divisor(old.stride as int, old.base - min);
    lemma_common_stride(start, values, min);
    law_observed_domain_covers(values, Some(old));
    let stride = common_stride(start, values, min);
    lemma_extent(old);
    assert(arith::divides(d, old.base - min)) by {
        if min != old.base {
            let k = choose|k: int| 0 <= k < values.len() && values[k] == min;
            assert((values[k] - old.base) % d == 0);
            arith::lemma_divides_is_zero_rem(d, values[k] - old.base);
            assert(0 == d * 0);
            arith::lemma_divides_combination(d, 0, values[k] - old.base, -1);
        } else {
            assert(0 == d * 0);
        }
    }
    arith::lemma_divides_is_zero_rem(d, old.stride as int);
    assert(arith::divides(d, start));
    assert forall|i: int| 0 <= i < values.len() implies arith::divides(d, #[trigger] values[i] - min) by {
        assert((values[i] - old.base) % d == 0);
        arith::lemma_divides_is_zero_rem(d, values[i] - old.base);
        arith::lemma_divides_combination(d, values[i] - old.base, old.base - min, 1);
    }
    assert(arith::divides(d, stride));
    assert(stride <= i64::MAX) by {
        arith::lemma_divides_transitive(stride, start, old.stride as int);
        let k = choose|k: int| old.stride == #[trigger] (stride * k);
        assert(stride <= old.stride) by (nonlinear_arith)
            requires
                old.stride == stride * k,
                old.stride > 0,
                stride > 0,
        ;
    }
    assert(domain.stride == stride);
    arith::lemma_divides_is_zero_rem(d, stride);
    if exists|i: int| 0 <= i < values.len() && #[trigger] values[i] < old.base {
        let i = choose|i: int| 0 <= i < values.len() && #[trigger] values[i] < old.base;
        assert(min <= values[i]);
        let width = arith::power_of_two_at_least((max - min) / stride + 1);
        lemma_width(max - min, stride);
        let distance = (width - 1) * stride;
        assert(distance >= 0) by (nonlinear_arith)
            requires
                distance == (width - 1) * stride,
                width >= 1,
                stride > 0,
        ;
        assert(IntegerDomain::observed(values, Some(old)) == IntegerDomain::lattice(
            min,
            max,
            stride,
            Some(old),
        ));
        assert(domain.width == width && domain.base == max - distance);
    }
}

/// Every row of a batch that is not null has a place in the domain that was observed: the
/// place counts the strides from the base, from one on, and no value between or beyond the
/// points has a place. Values of the domain before keep theirs to be found.
pub proof fn law_observed_rows_have_places(
    values: &[i64],
    nulls: &[bool],
    old: Option<IntegerDomain>,
    domain: IntegerDomain,
    row: int,
    place: Option<usize>,
    other: i64,
    other_place: Option<usize>,
    last: Option<i64>,
)
    requires
        values@.len() == nulls@.len(),
        old matches Some(old) ==> old.wf(),
        call_ensures(IntegerDomain::observe, (values, nulls, old), Some(domain)),
        0 <= row < values@.len(),
        !nulls@[row],
        call_ensures(IntegerDomain::ordinal, (domain, values@[row]), place),
        call_ensures(IntegerDomain::ordinal, (domain, other), other_place),
        call_ensures(IntegerDomain::last, (domain,), last),
    ensures
        domain.stride > 0,
        place is Some,
        1 <= place->0 <= domain.width,
        values@[row] == domain.base + (place->0 - 1) * domain.stride,
        other_place matches Some(found) ==> 1 <= found <= domain.width && other == domain.base + (
        found - 1) * domain.stride,
        other_place is None ==> forall|k: int|
            0 <= k < domain.width ==> other != #[trigger] (domain.base + k * domain.stride),
        last == Some((domain.base + (domain.width - 1) * domain.stride) as i64),
        old matches Some(old) ==> forall|value: int| #[trigger]
            old.contains(value) ==> domain.contains(value),
{
    let all = present(values@, nulls@);
    assert forall|i: int| 0 <= i < all.len() implies i64::MIN <= #[trigger] all[i] <= i64::MAX by {
        law_present_values_are_those_of_the_rows(values@, nulls@, all[i]);
        assert(all.contains(all[i]));
    }
    law_observed_domain_covers(all, old);
    law_present_values_are_those_of_the_rows(values@, nulls@, values@[row] as int);
    let i = choose|i: int| 0 <= i < all.len() && all[i] == values@[row];
    assert(domain.contains(all[i]));
    lemma_position(domain, values@[row] as int);
    lemma_extent(domain);
    if other_place is Some {
        lemma_position(domain, other as int);
    } else {
        assert forall|k: int| 0 <= k < domain.width implies other != #[trigger] (domain.base + k
            * domain.stride) by {
            law_points_are_strides_above_the_base(domain, other as int, k);
            if other == domain.base + k * domain.stride {
                assert(domain.contains(other as int));
            }
        }
    }
}

/// A batch that the sample rejects is one that observing all its rows rejects too: either
/// there is no domain, or the table of the domain and the dictionary exceeds the limit.
pub proof fn law_rejected_samples_are_rejected_batches(
    values: &[i64],
    nulls: &[bool],
    dictionary_len: usize,
    limit: usize,
    found: Option<IntegerDomain>,
)
    requires
        values@.len() == nulls@.len(),
        call_ensures(sample_exceeds_limit, (values, nulls, dictionary_len, limit), true),
        call_ensures(IntegerDomain::observe, (values, nulls, None), found),
    ensures
        values@.len() > 64,
        found matches Some(domain) ==> 4 * ((domain.width + 1) * (dictionary_len + 1)) > limit,
{
    law_sampling_only_rejects(values@, nulls@, dictionary_len as int, limit as int);
    if let Some(domain) = found {
        law_tables_are_measured_in_bytes(domain.width as int, dictionary_len as int, limit as int);
    }
}

/// A point that a lattice is asked for: one of the values, or an end of the lattice before.
pub open spec fn is_asked(values: Seq<int>, old: Option<IntegerDomain>, point: int) -> bool {
    ||| values.contains(point)
    ||| old matches Some(old) && (point == old.base || point == old.base + (old.width - 1)
        * old.stride)
}

/// The width of a lattice is a power of two, and less than twice the strides between two of
/// the points that it is asked for, both included.
pub proof fn law_lattices_are_as_wide_as_needed(values: Seq<int>, old: Option<IntegerDomain>)
    requires
        old matches Some(old) ==> old.wf(),
        forall|i: int| 0 <= i < values.len() ==> i64::MIN <= #[trigger] values[i] <= i64::MAX,
        IntegerDomain::observed(values, old) is Some,
    ensures
        ({
            let domain = IntegerDomain::observed(values, old)->0;
            &&& exists|k: nat| domain.width == #[trigger] vstd::arithmetic::power2::pow2(k)
            &&& exists|low: int, high: int| #[trigger]
                is_asked(values, old, low) && #[trigger] is_asked(values, old, high) && domain.width
                    * domain.stride < 2 * (high - low) + 2 * domain.stride
        }),
{
    let domain = IntegerDomain::observed(values, old)->0;
    let low = match old {
        Some(old) => Some(old.base as int),
        None => None,
    };
    let high = match old {
        Some(old) => Some(old.last_point()),
        None => None,
    };
    let min = least(low, values)->0;
    let max = greatest(high, values)->0;
    lemma_extremes(low, high, values);
    lemma_extremes_attained(low, high, values);
    law_observed_domain_covers(values, old);
    assert(is_asked(values, old, min) && is_asked(values, old, max));
    let stride = IntegerDomain::observed_stride(values, old, min);
    lemma_observed_stride(values, old);
    if let Some(old) = old {
        lemma_extent(old);
    }
    assert(min <= max);
    let steps = (max - min) / stride;
    lemma_width(max - min, stride);
    arith::law_rounding_up_gives_the_next_power_of_two(steps + 1);
    vstd::arithmetic::div_mod::lemma_fundamental_div_mod(max - min, stride);
    let width = arith::power_of_two_at_least(steps + 1);
    assert(domain.width == width && domain.stride == stride);
    assert(width * stride < 2 * (max - min) + 2 * stride) by {
        if width == 1 {
            assert(1 * stride == stride);
        } else {
            assert(width * stride <= (2 * steps + 1) * stride) by (nonlinear_arith)
                requires
                    width <= 2 * steps + 1,
                    stride > 0,
            ;
            assert((2 * steps + 1) * stride == 2 * (stride * steps) + stride) by (nonlinear_arith);
        }
    }
}

/// The stride of an observed lattice is the common stride of what it is asked for.
proof fn lemma_observed_stride(values: Seq<int>, old: Option<IntegerDomain>)
    requires
        old matches Some(old) ==> old.wf(),
        forall|i: int| 0 <= i < values.len() ==> i64::MIN <= #[trigger] values[i] <= i64::MAX,
        IntegerDomain::observed(values, old) is Some,
    ensures
        ({
            let low = match old {
                Some(old) => Some(old.base as int),
                None => None,
            };
            let stride = IntegerDomain::observed_stride(values, old, least(low, values)->0);
            stride > 0 && stride == IntegerDomain::observed(values, old)->0.stride
        }),
{
    match old {
        None => {
            let min = least(None, values)->0;
            lemma_extremes(None, None, values);
            lemma_common_stride(0, values, min);
            lemma_first_stride(values);
        },
        Some(old) => {
            let low = Some(old.base as int);
            let high = Some(old.last_point());
            let min = least(low, values)->0;
            lemma_extremes(low, high, values);
            let start = arith::euclid(old.stride as int, old.base - min);
            arith::law_gcd_is_greatest_common_divisor(old.stride as int, old.base - min);
            lemma_common_stride(start, values, min);
            let stride = common_stride(start, values, min);
            assert(stride <= i64::MAX) by {
                arith::lemma_divides_transitive(stride, start, old.stride as int);
                let k = choose|k: int| old.stride == #[trigger] (stride * k);
                assert(stride <= old.stride) by (nonlinear_arith)
                    requires
                        old.stride == stride * k,
                        old.stride > 0,
                        stride > 0,
                ;
            }
        },
    }
}

/// A lattice grows to take in values that lie close enough for its points to stay within the
/// type, on either side of it.
pub proof fn law_close_values_grow_the_lattice(
    values: Seq<int>,
    old: IntegerDomain,
    low: int,
    high: int,
)
    requires
        old.wf(),
        low <= old.base,
        old.base + (old.width - 1) * old.stride <= high,
        forall|k: int| 0 <= k < values.len() ==> low <= #[trigger] values[k] <= high,
        i64::MIN <= low - 4 * (high - low),
        high + 4 * (high - low) <= i64::MAX,
        4 * (high - low) + 4 <= usize::MAX,
        4 * (high - low) <= i64::MAX,
    ensures
        IntegerDomain::observed(values, Some(old)) is Some,
{
    let least_point = Some(old.base as int);
    let last_point = Some(old.last_point());
    let min = least(least_point, values)->0;
    let max = greatest(last_point, values)->0;
    lemma_extremes(least_point, last_point, values);
    lemma_extremes_attained(least_point, last_point, values);
    lemma_extent(old);
    let start = arith::euclid(old.stride as int, old.base - min);
    arith::law_gcd_is_greatest_common_divisor(old.stride as int, old.base - min);
    lemma_common_stride(start, values, min);
    let stride = common_stride(start, values, min);
    assert(low <= min <= max <= high);
    let steps = (max - min) / stride;
    lemma_width(max - min, stride);
    arith::law_rounding_up_gives_the_next_power_of_two(steps + 1);
    vstd::arithmetic::div_mod::lemma_fundamental_div_mod(max - min, stride);
    let width = arith::power_of_two_at_least(steps + 1);
    assert((width - 1) * stride <= 2 * (max - min)) by {
        assert((width - 1) * stride <= (2 * steps) * stride) by (nonlinear_arith)
            requires
                width - 1 <= 2 * steps,
                stride > 0,
        ;
        assert((2 * steps) * stride == 2 * (stride * steps)) by (nonlinear_arith);
    }
    assert((width - 1) * stride >= 0) by (nonlinear_arith)
        requires
            width >= 1,
            stride > 0,
    ;
}

/// The samples of a batch stand evenly among its rows, 63 steps from the first to the last.
pub proof fn law_samples_stand_evenly(len: int, sample: int)
    requires
        len > 64,
        0 <= sample < 64,
    ensures
        sample_row(len, sample) == sample * (len - 1) / 63,
{
    let step = (len - 1) / 63;
    let remainder = (len - 1) % 63;
    vstd::arithmetic::div_mod::lemma_fundamental_div_mod(len - 1, 63);
    assert(sample * (len - 1) == 63 * (sample * step) + sample * remainder) by (nonlinear_arith)
        requires
            len - 1 == 63 * step + remainder,
    ;
    vstd::arithmetic::div_mod::lemma_hoist_over_denominator(
        sample * remainder,
        sample * step,
        63,
    );
    assert(sample_row(len, sample) == sample * step + sample * remainder / 63);
}

/// A value that a sample of the batch looks at: it is in one of 64 rows that stand evenly
/// among all, and is not null.
pub open spec fn is_sampled(values: Seq<i64>, nulls: Seq<bool>, value: int) -> bool {
    exists|sample: int|
        0 <= sample < 64 && !nulls[#[trigger] (sample * (values.len() - 1) / 63)]
            && values[sample * (values.len() - 1) / 63] == value
}

proof fn lemma_is_sampled(values: Seq<i64>, nulls: Seq<bool>, count: int, value: int)
    requires
        values.len() == nulls.len(),
        values.len() > 64,
        0 <= count <= 64,
    ensures
        sampled(values, nulls, count).contains(value) <==> exists|sample: int|
            0 <= sample < count && !nulls[#[trigger] (sample * (values.len() - 1) / 63)]
                && values[sample * (values.len() - 1) / 63] == value,
    decreases count,
{
    let len = values.len() as int;
    if count > 0 {
        let before = sampled(values, nulls, count - 1);
        let all = sampled(values, nulls, count);
        lemma_is_sampled(values, nulls, count - 1, value);
        law_samples_stand_evenly(len, count - 1);
        let row = (count - 1) * (len - 1) / 63;
        if before.contains(value) {
            let i = choose|i: int| 0 <= i < before.len() && before[i] == value;
            assert(all[i] == value);
        }
        if !nulls[row] && values[row] == value {
            assert(all[before.len() as int] == value);
        }
        if all.contains(value) {
            let i = choose|i: int| 0 <= i < all.len() && all[i] == value;
            if i < before.len() {
                assert(before[i] == value);
            } else {
                assert(!nulls[row] && values[row] == value);
            }
        }
        if exists|sample: int|
            0 <= sample < count && !nulls[#[trigger] (sample * (len - 1) / 63)] && values[sample * (
            len - 1) / 63] == value {
            let sample = choose|sample: int|
                0 <= sample < count && !nulls[#[trigger] (sample * (len - 1) / 63)]
                    && values[sample * (len - 1) / 63] == value;
            if sample < count - 1 {
                assert(!nulls[sample * (len - 1) / 63]);
            }
        }
    }
}

/// A sample rejects a batch by the least and the greatest value that it looks at. They must
/// differ, and either lie further apart than the type tells, or so far that even the
/// coarsest lattice through the sample has a table beyond the limit: for every number that
/// divides all distances within the sample, the table is too large.
pub proof fn law_samples_reject_by_their_extremes(
    values: &[i64],
    nulls: &[bool],
    dictionary_len: usize,
    limit: usize,
    result: bool,
    min: int,
    max: int,
)
    requires
        values@.len() == nulls@.len(),
        values@.len() > 64,
        call_ensures(sample_exceeds_limit, (values, nulls, dictionary_len, limit), result),
        is_sampled(values@, nulls@, min),
        is_sampled(values@, nulls@, max),
        forall|value: int| #[trigger] is_sampled(values@, nulls@, value) ==> min <= value <= max,
    ensures
        min == max ==> !result,
        max - min > i64::MAX ==> result,
        result && max - min <= i64::MAX ==> forall|d: int|
            d > 0 && (forall|value: int| #[trigger]
                is_sampled(values@, nulls@, value) ==> (value - min) % d == 0)
                ==> #[trigger] exceeds_with(min, max, d, dictionary_len as int, limit as int),
        !result && min < max ==> exists|d: int|
            d > 0 && (forall|value: int| #[trigger]
                is_sampled(values@, nulls@, value) ==> (value - min) % d == 0) && !(
            #[trigger] exceeds_with(min, max, d, dictionary_len as int, limit as int)),
{
    let sample = sampled(values@, nulls@, 64);
    assert forall|value: int| #[trigger] is_sampled(values@, nulls@, value) == sample.contains(
        value,
    ) by {
        lemma_is_sampled(values@, nulls@, 64, value);
    }
    lemma_extremes(None, None, sample);
    lemma_extremes_attained(None, None, sample);
    let lowest = least(None, sample)->0;
    let greatest_value = greatest(None, sample)->0;
    assert(is_sampled(values@, nulls@, min) && is_sampled(values@, nulls@, max));
    assert(sample.contains(min) && sample.contains(max));
    assert(lowest == min) by {
        let i = choose|i: int| 0 <= i < sample.len() && sample[i] == min;
        assert(lowest <= sample[i]);
        assert(is_sampled(values@, nulls@, lowest));
    }
    assert(greatest_value == max) by {
        let i = choose|i: int| 0 <= i < sample.len() && sample[i] == max;
        assert(sample[i] <= greatest_value);
        assert(is_sampled(values@, nulls@, greatest_value));
    }
    lemma_common_stride(0, sample, min);
    let stride = common_stride(0, sample, min);
    if min < max {
        let top = choose|i: int| 0 <= i < sample.len() && sample[i] == max;
        assert(stride > 0);
        assert(arith::divides(stride, sample[top] - min));
        let points = (max - min) / stride + 1;
        vstd::arithmetic::div_mod::lemma_div_pos_is_pos(max - min, stride);
        law_tables_are_measured_in_bytes(points, dictionary_len as int, limit as int);
        assert(exceeds_with(min, max, stride, dictionary_len as int, limit as int)
            == product_exceeds(points, dictionary_len as int, limit as int));
        assert forall|value: int| #[trigger] is_sampled(values@, nulls@, value) implies (value
            - min) % stride == 0 by {
            let i = choose|i: int| 0 <= i < sample.len() && sample[i] == value;
            assert(arith::divides(stride, sample[i] - min));
            arith::lemma_divides_is_zero_rem(stride, value - min);
        }
        if result && max - min <= i64::MAX {
            assert forall|d: int|
                d > 0 && (forall|value: int| #[trigger]
                    is_sampled(values@, nulls@, value) ==> (value - min) % d
                        == 0) implies #[trigger] exceeds_with(
                min,
                max,
                d,
                dictionary_len as int,
                limit as int,
            ) by {
                assert forall|i: int| 0 <= i < sample.len() implies arith::divides(
                    d,
                    #[trigger] sample[i] - min,
                ) by {
                    assert(sample.contains(sample[i]));
                    assert(is_sampled(values@, nulls@, sample[i]));
                    arith::lemma_divides_is_zero_rem(d, sample[i] - min);
                }
                assert(0 == d * 0);
                assert(arith::divides(d, 0));
                assert(arith::divides(d, stride));
                let k = choose|k: int| stride == #[trigger] (d * k);
                assert(d <= stride) by (nonlinear_arith)
                    requires
                        stride == d * k,
                        stride > 0,
                        d > 0,
                ;
                vstd::arithmetic::div_mod::lemma_div_is_ordered_by_denominator(
                    max - min,
                    d,
                    stride,
                );
                let more = (max - min) / d + 1;
                assert((more + 1) * (dictionary_len + 1) >= (points + 1) * (dictionary_len + 1))
                    by (nonlinear_arith)
                    requires
                        more >= points,
                        dictionary_len >= 0,
                ;
            }
        }
    }
}

/// The table of the points from `min` to `max` at distances of `stride`, with a row for null,
/// and of the values of a dictionary and null has more bytes than the limit.
pub open spec fn exceeds_with(
    min: int,
    max: int,
    stride: int,
    dictionary_len: int,
    limit: int,
) -> bool {
    4 * (((max - min) / stride + 2) * (dictionary_len + 1)) > limit
}

} // verus!
