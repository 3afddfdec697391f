//! Integer arithmetic shared by the grouping code: Euclid's algorithm on `i64`
//! and rounding up to a power of two.
use vstd::prelude::*;

verus! {

/// A number of bytes as far as the type holds it.
pub open spec fn capped(bytes: int) -> int {
    if bytes > usize::MAX {
        usize::MAX as int
    } else {
        bytes
    }
}

/// Bytes of `count` elements, at most `usize::MAX`.
pub fn element_bytes(count: usize, bytes: usize) -> (result: usize)
    ensures
        result == capped(count * bytes),
{
    match count.checked_mul(bytes) {
        Some(total) => total,
        None => usize::MAX,
    }
}

/// Remainder of a division that truncates toward zero: the result has the sign
/// of `left` (or is zero) and is smaller than `right` in absolute value.
pub open spec fn truncated_rem(left: int, right: int) -> int {
    let l = if left < 0 { -left } else { left };
    let r = if right < 0 { -right } else { right };
    if left < 0 { -(l % r) } else { l % r }
}

/// The value Euclid's algorithm ends with when started on `left` and `right`.
pub open spec fn euclid(left: int, right: int) -> int
    decreases (if right < 0 { -right } else { right }),
{
    if right == 0 {
        left
    } else {
        euclid(right, truncated_rem(left, right))
    }
}

/// `d` divides `n`.
pub open spec fn divides(d: int, n: int) -> bool {
    exists|k: int| n == #[trigger] (d * k)
}

/// Whether a machine division inside Euclid's algorithm overflows: only
/// `i64::MIN` by `-1` does.
pub open spec fn euclid_overflows(left: int, right: int) -> bool {
    (left == i64::MIN && right == -1) || (left == -1 && right == i64::MIN)
}

/// Euclid's algorithm. On operands that are not negative this is their greatest
/// common divisor, with zero as the neutral element.
pub fn gcd(left: i64, right: i64) -> (result: i64)
    requires
        !euclid_overflows(left as int, right as int),
    ensures
        result == euclid(left as int, right as int),
{
    let mut left: i64 = left;
    let mut right: i64 = right;
    let ghost goal = euclid(left as int, right as int);
    while right != 0
        invariant
            euclid(left as int, right as int) == goal,
            !euclid_overflows(left as int, right as int),
        decreases (if right < 0 { -right } else { right as int }),
    {
        let rem: i64 = match left.checked_rem(right) {
            Some(rem) => rem,
            None => 0,
        };
        proof {
            lemma_truncated_rem(left as int, right as int);
        }
        assert(rem == truncated_rem(left as int, right as int));
        left = right;
        right = rem;
    }
    left
}

proof fn lemma_truncated_rem(left: int, right: int)
    requires
        right != 0,
    ensures
        right > 0 ==> -right < truncated_rem(left, right) < right,
        right < 0 ==> right < truncated_rem(left, right) < -right,
        left >= 0 && right > 0 ==> truncated_rem(left, right) == left % right,
        truncated_rem(left, right) == -1 && right == i64::MIN && i64::MIN <= left <= i64::MAX
            ==> left == -1,
{
    let l = if left < 0 { -left } else { left };
    let r = if right < 0 { -right } else { right };
    assert(0 <= l % r < r);
    if l < r {
        assert(l % r == l) by {
            vstd::arithmetic::div_mod::lemma_small_mod(l as nat, r as nat);
        }
    } else if r == -(i64::MIN as int) && l == r {
        assert(l % r == 0) by {
            vstd::arithmetic::div_mod::lemma_mod_self_0(r);
        }
    }
}

/// A divisor of two numbers divides every combination `a + b * k`.
pub proof fn lemma_divides_combination(d: int, a: int, b: int, k: int)
    requires
        divides(d, a),
        divides(d, b),
    ensures
        divides(d, a + b * k),
{
    let x = choose|x: int| a == #[trigger] (d * x);
    let y = choose|y: int| b == #[trigger] (d * y);
    assert(a + b * k == d * (x + y * k)) by (nonlinear_arith)
        requires
            a == d * x,
            b == d * y,
    ;
}

/// For a positive divisor, divisibility is a zero remainder.
pub proof fn lemma_divides_is_zero_rem(d: int, n: int)
    requires
        d > 0,
    ensures
        divides(d, n) <==> n % d == 0,
{
    vstd::arithmetic::div_mod::lemma_fundamental_div_mod(n, d);
    if n % d == 0 {
        assert(n == d * (n / d));
    }
    if divides(d, n) {
        let k = choose|k: int| n == #[trigger] (d * k);
        vstd::arithmetic::div_mod::lemma_mod_multiples_basic(k, d);
        assert(d * k == k * d) by (nonlinear_arith);
    }
}

/// Divisibility is transitive.
pub proof fn lemma_divides_transitive(a: int, b: int, c: int)
    requires
        divides(a, b),
        divides(b, c),
    ensures
        divides(a, c),
{
    let x = choose|x: int| b == #[trigger] (a * x);
    let y = choose|y: int| c == #[trigger] (b * y);
    assert(c == a * (x * y)) by (nonlinear_arith)
        requires
            b == a * x,
            c == b * y,
    ;
}

/// Euclid's algorithm computes the greatest common divisor: the result divides
/// both operands, every common divisor divides it, and it is zero only for two
/// zeros.
pub proof fn law_gcd_is_greatest_common_divisor(left: int, right: int)
    requires
        left >= 0,
        right >= 0,
    ensures
        euclid(left, right) >= 0,
        divides(euclid(left, right), left),
        divides(euclid(left, right), right),
        forall|d: int|
            divides(d, left) && divides(d, right) ==> #[trigger] divides(d, euclid(left, right)),
        euclid(left, right) == 0 <==> left == 0 && right == 0,
    decreases right,
{
    if right == 0 {
        assert(left == left * 1);
        assert(right == left * 0);
    } else {
        lemma_truncated_rem(left, right);
        let rem = truncated_rem(left, right);
        law_gcd_is_greatest_common_divisor(right, rem);
        let quotient = left / right;
        assert(left == right * quotient + left % right) by {
            vstd::arithmetic::div_mod::lemma_fundamental_div_mod(left, right);
        }
        lemma_divides_combination(euclid(right, rem), rem, right, quotient);
        assert forall|d: int| divides(d, left) && divides(d, right) implies #[trigger] divides(
            d,
            euclid(left, right),
        ) by {
            lemma_divides_combination(d, left, right, -quotient);
            assert(left + right * (-quotient) == rem) by (nonlinear_arith)
                requires
                    left == right * quotient + rem,
            ;
        }
    }
}

/// Doubles `p` until it reaches at least `n`.
pub open spec fn doubled_up_to(p: int, n: int) -> int
    decreases 2 * n - p,
{
    if p >= n || p <= 0 {
        p
    } else {
        doubled_up_to(2 * p, n)
    }
}

/// The smallest power of two that is not below `n`.
pub open spec fn power_of_two_at_least(n: int) -> int {
    doubled_up_to(1, n)
}

/// `n` is a power of two.
pub open spec fn is_power_of_two(n: int) -> bool {
    n == power_of_two_at_least(n)
}

proof fn lemma_doubled_up_to(p: int, n: int)
    requires
        p > 0,
    ensures
        doubled_up_to(p, n) >= p,
        doubled_up_to(p, n) >= n,
    decreases 2 * n - p,
{
    if p < n {
        lemma_doubled_up_to(2 * p, n);
    }
}

proof fn lemma_doubled_again(p: int, n: int, m: int)
    requires
        p > 0,
        n <= m <= doubled_up_to(p, n),
    ensures
        doubled_up_to(p, m) == doubled_up_to(p, n),
    decreases 2 * n - p,
{
    if p < n {
        lemma_doubled_again(2 * p, n, m);
    }
}

/// Rounding up to a power of two gives a power of two that is not below the
/// argument, and leaves a power of two alone.
pub proof fn lemma_power_of_two_at_least(n: int)
    ensures
        power_of_two_at_least(n) >= n,
        power_of_two_at_least(n) >= 1,
        is_power_of_two(power_of_two_at_least(n)),
{
    lemma_doubled_up_to(1, n);
    lemma_doubled_again(1, n, doubled_up_to(1, n));
}

/// The smallest power of two that is not below `n`, or `None` where it does not
/// fit the type.
pub fn checked_power_of_two_at_least(n: usize) -> (result: Option<usize>)
    ensures
        match result {
            Some(p) => p == power_of_two_at_least(n as int),
            None => power_of_two_at_least(n as int) > usize::MAX,
        },
{
    let mut p: usize = 1;
    while p < n
        invariant
            p >= 1,
            doubled_up_to(p as int, n as int) == power_of_two_at_least(n as int),
        decreases 2 * n - p,
    {
        if p > usize::MAX / 2 {
            proof {
                lemma_doubled_up_to(2 * p, n as int);
            }
            return None;
        }
        p = 2 * p;
    }
    Some(p)
}

/// Row `row` of `rows` rows of `size` cells lies within them.
pub proof fn lemma_row_fits(row: int, rows: int, size: int)
    requires
        0 <= row < rows,
        0 <= size,
    ensures
        0 <= row * size,
        row * size + size <= rows * size,
        (row + 1) * size == row * size + size,
{
    assert(row * size + size <= rows * size && 0 <= row * size && (row + 1) * size == row * size
        + size) by (nonlinear_arith)
        requires
            0 <= row < rows,
            0 <= size,
    ;
}

/// A number of bytes is kept as it is where the type holds it, and is the largest of the
/// type elsewhere.
pub proof fn law_bytes_are_kept_as_far_as_they_fit(bytes: int)
    ensures
        bytes <= usize::MAX ==> capped(bytes) == bytes,
        bytes >= usize::MAX ==> capped(bytes) == usize::MAX,
{
}

/// Doubling from a power of two on gives powers of two, the first that is not below `n`.
proof fn lemma_doubled_is_a_power(k: nat, n: int)
    ensures
        exists|j: nat| j >= k && doubled_up_to(vstd::arithmetic::power2::pow2(k) as int, n)
            == #[trigger] vstd::arithmetic::power2::pow2(j),
        doubled_up_to(vstd::arithmetic::power2::pow2(k) as int, n)
            == vstd::arithmetic::power2::pow2(k) || doubled_up_to(
            vstd::arithmetic::power2::pow2(k) as int,
            n,
        ) < 2 * n,
    decreases 2 * n - vstd::arithmetic::power2::pow2(k),
{
    let p = vstd::arithmetic::power2::pow2(k) as int;
    vstd::arithmetic::power2::lemma_pow2_pos(k);
    if p < n {
        vstd::arithmetic::power2::lemma_pow2_unfold(k + 1);
        lemma_doubled_is_a_power(k + 1, n);
        let j = choose|j: nat| j >= k + 1 && doubled_up_to(2 * p, n)
            == #[trigger] vstd::arithmetic::power2::pow2(j);
        assert(j >= k && doubled_up_to(p, n) == vstd::arithmetic::power2::pow2(j));
    }
}

/// Rounding up gives the smallest power of two that is not below the number.
pub proof fn law_rounding_up_gives_the_next_power_of_two(n: int)
    ensures
        exists|k: nat| power_of_two_at_least(n) == #[trigger] vstd::arithmetic::power2::pow2(k),
        power_of_two_at_least(n) >= n,
        power_of_two_at_least(n) == 1 || power_of_two_at_least(n) < 2 * n,
{
    vstd::arithmetic::power2::lemma2_to64();
    lemma_doubled_is_a_power(0, n);
    lemma_power_of_two_at_least(n);
}

/// Divisibility by a number other than zero is a quotient without remainder.
pub proof fn law_divisors_leave_no_remainder(d: int, n: int)
    requires
        d > 0,
    ensures
        divides(d, n) <==> n % d == 0,
{
    lemma_divides_is_zero_rem(d, n);
}

/// The greatest common divisor of two numbers divides both, and every number that divides
/// both divides it.
pub proof fn law_gcd_divides_both(left: i64, right: i64, result: i64, d: int)
    requires
        left >= 0,
        right >= 0,
        left > 0 || right > 0,
        !euclid_overflows(left as int, right as int),
        call_ensures(gcd, (left, right), result),
        d > 0,
    ensures
        result > 0,
        (left as int) % (result as int) == 0,
        (right as int) % (result as int) == 0,
        (left as int) % d == 0 && (right as int) % d == 0 <==> (result as int) % d == 0,
{
    law_gcd_is_greatest_common_divisor(left as int, right as int);
    let found = result as int;
    lemma_divides_is_zero_rem(found, left as int);
    lemma_divides_is_zero_rem(found, right as int);
    lemma_divides_is_zero_rem(d, left as int);
    lemma_divides_is_zero_rem(d, right as int);
    lemma_divides_is_zero_rem(d, found);
    if found % d == 0 {
        let k = choose|k: int| found == #[trigger] (d * k);
        let l = choose|l: int| left == #[trigger] (found * l);
        let r = choose|r: int| right == #[trigger] (found * r);
        assert(left == d * (k * l)) by (nonlinear_arith)
            requires
                found == d * k,
                left == found * l,
        ;
        assert(right == d * (k * r)) by (nonlinear_arith)
            requires
                found == d * k,
                right == found * r,
        ;
        assert(divides(d, left as int));
        assert(divides(d, right as int));
    }
}

/// Rounding up gives the least power of two that is not below the number, or nothing where
/// the type does not hold it; and the bytes of elements are their product, as far as the
/// type holds it.
pub proof fn law_rounding_and_products_fit_the_type(
    n: usize,
    rounded: Option<usize>,
    count: usize,
    bytes: usize,
    total: usize,
)
    requires
        call_ensures(checked_power_of_two_at_least, (n,), rounded),
        call_ensures(element_bytes, (count, bytes), total),
    ensures
        rounded matches Some(power) ==> power >= n && (power == 1 || power < 2 * n) && exists|k: nat|
            power == #[trigger] vstd::arithmetic::power2::pow2(k),
        rounded is None ==> 2 * n > usize::MAX,
        count * bytes <= usize::MAX ==> total == count * bytes,
        count * bytes > usize::MAX ==> total == usize::MAX,
{
    law_rounding_up_gives_the_next_power_of_two(n as int);
}

} // verus!
