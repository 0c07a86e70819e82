//! Integer-precision variance tracking for cross-border corridor rates.
//!
//! All arithmetic multiplies before it divides and checks every step for
//! overflow.
use vstd::prelude::*;

use vstd::arithmetic::div_mod::{
    lemma_div_basics_4,
    lemma_div_basics_5,
    lemma_div_by_multiple,
    lemma_div_is_ordered_by_denominator,
    lemma_fundamental_div_mod,
    lemma_mod_pos_bound,
};

use crate::error::ContractError;

verus! {

/// Whether `x` fits in an `i128`.
pub open spec fn fits_i128(x: int) -> bool {
    i128::MIN <= x <= i128::MAX
}

/// The mathematical sum of `s`.
pub open spec fn seq_sum(s: Seq<i128>) -> int
    decreases s.len(),
{
    if s.len() == 0 {
        0
    } else {
        seq_sum(s.drop_last()) + s.last()
    }
}

/// The sum of a concatenation is the sum of its parts.
pub proof fn lemma_seq_sum_concat(a: Seq<i128>, b: Seq<i128>)
    ensures
        seq_sum(a + b) == seq_sum(a) + seq_sum(b),
    decreases b.len(),
{
    if b.len() == 0 {
        assert(a + b =~= a);
    } else {
        lemma_seq_sum_concat(a, b.drop_last());
        assert((a + b).drop_last() =~= a + b.drop_last());
        assert((a + b).last() == b.last());
    }
}

/// The sum of a single value is that value.
pub proof fn lemma_seq_sum_single(x: i128)
    ensures
        seq_sum(seq![x]) == x,
{
    assert(seq![x].drop_last() =~= Seq::<i128>::empty());
    assert(seq_sum(Seq::<i128>::empty()) == 0);
    assert(seq![x].last() == x);
}

/// Every running total of `s`, taken from the front, fits in an `i128`.
pub open spec fn running_sums_fit(s: Seq<i128>) -> bool {
    forall|k: int| 0 <= k <= s.len() ==> #[trigger] fits_i128(seq_sum(s.take(k)))
}

proof fn lemma_take_extend(s: Seq<i128>, k: int)
    requires
        0 <= k < s.len(),
    ensures
        s.take(k + 1).drop_last() == s.take(k),
        s.take(k + 1).last() == s[k],
{
    assert(s.take(k + 1).drop_last() =~= s.take(k));
}

proof fn lemma_total_fits(s: Seq<i128>)
    requires
        running_sums_fit(s),
    ensures
        fits_i128(seq_sum(s)),
{
    assert(s.take(s.len() as int) =~= s);
    assert(fits_i128(seq_sum(s.take(s.len() as int))));
}

/// Compute the checked sum of a slice of `i128` values.
///
/// Returns `ContractError::Overflow` if any intermediate addition
/// exceeds the `i128` range.
pub fn compute_sum(values: &[i128]) -> (r: Result<i128, ContractError>)
    ensures
        running_sums_fit(values@) ==> r == Ok::<i128, ContractError>(seq_sum(values@) as i128),
        !running_sums_fit(values@) ==> r == Err::<i128, ContractError>(ContractError::Overflow),
{
    let mut acc: i128 = 0;
    let mut i: usize = 0;
    assert(values@.take(0) =~= Seq::<i128>::empty());
    while i < values.len()
        invariant
            i <= values@.len(),
            acc == seq_sum(values@.take(i as int)),
            forall|k: int| 0 <= k <= i ==> #[trigger] fits_i128(seq_sum(values@.take(k))),
        decreases values@.len() - i,
    {
        proof {
            lemma_take_extend(values@, i as int);
        }
        match acc.checked_add(values[i]) {
            Some(next) => {
                acc = next;
                i = i + 1;
                assert(forall|k: int| 0 <= k <= i ==> #[trigger] fits_i128(seq_sum(values@.take(k)))) by {
                    assert(fits_i128(seq_sum(values@.take(i as int))));
                }
            },
            None => {
                assert(!fits_i128(seq_sum(values@.take(i + 1))));
                return Err(ContractError::Overflow);
            },
        }
    }
    assert(values@.take(values@.len() as int) =~= values@);
    Ok(acc)
}


/// Rust's integer division, which rounds toward zero.
pub open spec fn div_toward_zero(x: int, d: int) -> int {
    if x >= 0 {
        if d > 0 { x / d } else { -(x / -d) }
    } else {
        if d > 0 { -((-x) / d) } else { (-x) / (-d) }
    }
}

/// Division rounds toward zero: the quotient times the divisor falls short
/// of the dividend by less than the divisor, and the remainder it leaves
/// takes the sign of the dividend.
pub proof fn lemma_div_toward_zero_remainder(x: int, d: int)
    requires
        d != 0,
    ensures
        abs_int(x - div_toward_zero(x, d) * d) < abs_int(d),
        x >= 0 ==> x - div_toward_zero(x, d) * d >= 0,
        x < 0 ==> x - div_toward_zero(x, d) * d <= 0,
{
    let n = abs_int(x);
    let m = abs_int(d);
    let q = div_toward_zero(x, d);
    lemma_fundamental_div_mod(n, m);
    lemma_mod_pos_bound(n, m);
    let big = n / m;
    if d > 0 {
        assert(big * d == m * big) by (nonlinear_arith)
            requires
                d == m,
        ;
        assert((-big) * d == -(m * big)) by (nonlinear_arith)
            requires
                d == m,
        ;
    } else {
        assert(big * d == -(m * big)) by (nonlinear_arith)
            requires
                d == -m,
        ;
        assert((-big) * d == m * big) by (nonlinear_arith)
            requires
                d == -m,
        ;
    }
}

/// The quotient of an `i128` by a nonzero divisor fits in an `i128`,
/// except for `i128::MIN / -1`.
pub proof fn lemma_div_toward_zero_fits(x: int, d: int)
    requires
        fits_i128(x),
        d != 0,
        !(x == i128::MIN && d == -1),
    ensures
        fits_i128(div_toward_zero(x, d)),
{
    let n = abs_int(x);
    let m = abs_int(d);
    lemma_div_basics_4(n, m);
    lemma_div_basics_5(n, m);
    if m >= 2 {
        lemma_div_is_ordered_by_denominator(n, 2, m);
        assert(n / 2 <= i128::MAX) by {
            lemma_div_basics_5(n, 2);
            lemma_div_is_ordered_by_denominator(n, 2, 2);
        }
    }
}

/// Compute the integer arithmetic mean of a slice of `i128` values, rounded
/// toward zero.
///
/// Returns `0` for an empty slice and `ContractError::Overflow` when the sum
/// overflows.
pub fn compute_mean(values: &[i128]) -> (r: Result<i128, ContractError>)
    ensures
        values@.len() == 0 ==> r == Ok::<i128, ContractError>(0),
        values@.len() > 0 && running_sums_fit(values@) ==> r == Ok::<i128, ContractError>(
            div_toward_zero(seq_sum(values@), values@.len() as int) as i128,
        ),
        values@.len() > 0 && !running_sums_fit(values@) ==> r == Err::<i128, ContractError>(
            ContractError::Overflow,
        ),
{
    let n = values.len();
    if n == 0 {
        return Ok(0);
    }
    let sum = compute_sum(values)?;
    proof {
        lemma_total_fits(values@);
    }
    let q = sum / n as i128;
    assert(q == div_toward_zero(sum as int, n as int));
    Ok(q)
}


/// The squared deviation of `v` from `mean`.
pub open spec fn sq_dev(v: i128, mean: i128) -> int {
    (v - mean) * (v - mean)
}

/// The sum of the squared deviations of `s` from `mean`.
pub open spec fn sq_dev_sum(s: Seq<i128>, mean: i128) -> int
    decreases s.len(),
{
    if s.len() == 0 {
        0
    } else {
        sq_dev_sum(s.drop_last(), mean) + sq_dev(s.last(), mean)
    }
}

/// Every deviation of `s` from `mean`, its square, and every running total of
/// the squares taken from the front, fits in an `i128`.
pub open spec fn sq_dev_steps_fit(s: Seq<i128>, mean: i128) -> bool {
    &&& forall|k: int| 0 <= k < s.len() ==> #[trigger] fits_i128(s[k] - mean)
    &&& forall|k: int| 0 <= k < s.len() ==> #[trigger] fits_i128(sq_dev(s[k], mean))
    &&& forall|k: int| 0 <= k <= s.len() ==> #[trigger] fits_i128(sq_dev_sum(s.take(k), mean))
}

proof fn lemma_sq_dev_total_fits(s: Seq<i128>, mean: i128)
    requires
        sq_dev_steps_fit(s, mean),
    ensures
        fits_i128(sq_dev_sum(s, mean)),
{
    assert(s.take(s.len() as int) =~= s);
    assert(fits_i128(sq_dev_sum(s.take(s.len() as int), mean)));
}

/// Compute the sum of squared deviations from a pre-computed mean.
///
/// Each deviation `(value - mean)` is squared before any scaling or
/// division; every deviation, every square and every running total is
/// checked for overflow.
pub fn compute_sum_squared_deviations(values: &[i128], mean: i128) -> (r: Result<
    i128,
    ContractError,
>)
    ensures
        r matches Ok(v) ==> v >= 0,
        sq_dev_steps_fit(values@, mean) ==> r == Ok::<i128, ContractError>(
            sq_dev_sum(values@, mean) as i128,
        ),
        !sq_dev_steps_fit(values@, mean) ==> r == Err::<i128, ContractError>(
            ContractError::Overflow,
        ),
{
    let mut acc: i128 = 0;
    let mut i: usize = 0;
    assert(values@.take(0) =~= Seq::<i128>::empty());
    while i < values.len()
        invariant
            i <= values@.len(),
            acc == sq_dev_sum(values@.take(i as int), mean),
            forall|k: int| 0 <= k < i ==> #[trigger] fits_i128(values@[k] - mean),
            forall|k: int| 0 <= k < i ==> #[trigger] fits_i128(sq_dev(values@[k], mean)),
            forall|k: int|
                0 <= k <= i ==> #[trigger] fits_i128(sq_dev_sum(values@.take(k), mean)),
        decreases values@.len() - i,
    {
        assert(values@.take(i + 1).drop_last() =~= values@.take(i as int));
        let dev = match values[i].checked_sub(mean) {
            Some(d) => d,
            None => {
                assert(!fits_i128(values@[i as int] - mean));
                return Err(ContractError::Overflow);
            },
        };
        let sq = match dev.checked_mul(dev) {
            Some(sq) => sq,
            None => {
                assert(!fits_i128(sq_dev(values@[i as int], mean)));
                return Err(ContractError::Overflow);
            },
        };
        match acc.checked_add(sq) {
            Some(next) => {
                acc = next;
                i = i + 1;
                assert(fits_i128(sq_dev_sum(values@.take(i as int), mean)));
            },
            None => {
                assert(!fits_i128(sq_dev_sum(values@.take(i + 1), mean)));
                return Err(ContractError::Overflow);
            },
        }
    }
    assert(values@.take(values@.len() as int) =~= values@);
    proof {
        lemma_sq_dev_sum_nonnegative(values@.take(values@.len() as int), mean);
    }
    Ok(acc)
}

/// The mean of `s` as `compute_mean` computes it: the sum divided by the
/// count, rounded toward zero.
pub open spec fn truncated_mean(s: Seq<i128>) -> i128 {
    div_toward_zero(seq_sum(s), s.len() as int) as i128
}

/// Compute the **population** variance of a sample set:
/// `sum((value - mean)²) / n`, rounded toward zero.
///
/// Squared deviations are accumulated in full precision (multiplication
/// first, division last). Returns `0` for slices with fewer than 2 elements.
pub fn compute_population_variance(values: &[i128]) -> (r: Result<i128, ContractError>)
    ensures
        r matches Ok(v) ==> v >= 0,
        values@.len() <= 1 ==> r == Ok::<i128, ContractError>(0),
        values@.len() >= 2 && !running_sums_fit(values@) ==> r == Err::<i128, ContractError>(
            ContractError::Overflow,
        ),
        values@.len() >= 2 && running_sums_fit(values@) && !sq_dev_steps_fit(
            values@,
            truncated_mean(values@),
        ) ==> r == Err::<i128, ContractError>(ContractError::Overflow),
        values@.len() >= 2 && running_sums_fit(values@) && sq_dev_steps_fit(
            values@,
            truncated_mean(values@),
        ) ==> r == Ok::<i128, ContractError>(
            div_toward_zero(
                sq_dev_sum(values@, truncated_mean(values@)),
                values@.len() as int,
            ) as i128,
        ),
{
    let n = values.len();
    if n <= 1 {
        return Ok(0);
    }
    let mean = compute_mean(values)?;
    let sum_sq = compute_sum_squared_deviations(values, mean)?;
    proof {
        lemma_sq_dev_total_fits(values@, mean);
        lemma_variance_nonnegative(values@, mean, n as int);
    }
    Ok(sum_sq / n as i128)
}

/// Compute the **sample** (unbiased) variance of a sample set:
/// `sum((value - mean)²) / (n - 1)`, rounded toward zero.
///
/// Squared deviations are accumulated in full precision (multiplication
/// first, division last). Returns `0` for slices with fewer than 2 elements.
pub fn compute_sample_variance(values: &[i128]) -> (r: Result<i128, ContractError>)
    ensures
        r matches Ok(v) ==> v >= 0,
        values@.len() <= 1 ==> r == Ok::<i128, ContractError>(0),
        values@.len() >= 2 && !running_sums_fit(values@) ==> r == Err::<i128, ContractError>(
            ContractError::Overflow,
        ),
        values@.len() >= 2 && running_sums_fit(values@) && !sq_dev_steps_fit(
            values@,
            truncated_mean(values@),
        ) ==> r == Err::<i128, ContractError>(ContractError::Overflow),
        values@.len() >= 2 && running_sums_fit(values@) && sq_dev_steps_fit(
            values@,
            truncated_mean(values@),
        ) ==> r == Ok::<i128, ContractError>(
            div_toward_zero(
                sq_dev_sum(values@, truncated_mean(values@)),
                values@.len() - 1,
            ) as i128,
        ),
{
    let n = values.len();
    if n <= 1 {
        return Ok(0);
    }
    let mean = compute_mean(values)?;
    let sum_sq = compute_sum_squared_deviations(values, mean)?;
    proof {
        lemma_sq_dev_total_fits(values@, mean);
        lemma_variance_nonnegative(values@, mean, n - 1);
    }
    Ok(sum_sq / (n - 1) as i128)
}

/// The absolute value of `x`.
pub open spec fn abs_int(x: int) -> int {
    if x < 0 {
        -x
    } else {
        x
    }
}

/// Basis points in one whole unit.
pub const BPS_SCALE: i128 = 10_000;

/// The numerator of the spread: the distance between the rates, times
/// `BPS_SCALE`.
pub open spec fn spread_numerator(rate_a: i128, rate_b: i128) -> int {
    abs_int(rate_a - rate_b) * BPS_SCALE
}

/// Compute the spread between two rates in basis points:
/// `|rate_a - rate_b| * 10_000 / rate_a`, rounded toward zero.
///
/// Returns `ContractError::DivisionByZero` if the base rate (`rate_a`) is
/// zero, and `ContractError::Overflow` whenever the difference, its absolute
/// value or the numerator leaves the `i128` range; a difference out of range
/// always makes the numerator overflow, so that error comes at once.
pub fn calculate_spread_bps(rate_a: i128, rate_b: i128) -> (r: Result<i128, ContractError>)
    ensures
        rate_a == 0 ==> r == Err::<i128, ContractError>(ContractError::DivisionByZero),
        rate_a != 0 && !fits_i128(spread_numerator(rate_a, rate_b)) ==> r == Err::<
            i128,
            ContractError,
        >(ContractError::Overflow),
        rate_a != 0 && fits_i128(spread_numerator(rate_a, rate_b)) ==> r == Ok::<
            i128,
            ContractError,
        >(div_toward_zero(spread_numerator(rate_a, rate_b), rate_a as int) as i128),
{
    if rate_a == 0 {
        return Err(ContractError::DivisionByZero);
    }
    let diff = match rate_a.checked_sub(rate_b) {
        Some(d) => d,
        None => return Err(ContractError::Overflow),
    };
    if diff == i128::MIN {
        return Err(ContractError::Overflow);
    }
    let delta: i128 = if diff < 0 {
        -diff
    } else {
        diff
    };
    let numerator = match delta.checked_mul(BPS_SCALE) {
        Some(n) => n,
        None => return Err(ContractError::Overflow),
    };
    assert(numerator as int == spread_numerator(rate_a, rate_b));
    proof {
        lemma_div_toward_zero_fits(numerator as int, rate_a as int);
    }
    Ok(numerator.checked_div(rate_a).unwrap())
}

/// Multiplies two numbers and scales the result down by a fixed-point
/// factor: `a * b / scale_factor`, rounded toward zero.
///
/// Returns `ContractError::DivisionByZero` when `scale_factor` is zero and
/// `ContractError::Overflow` when the product, or the quotient
/// (`i128::MIN / -1`), leaves the `i128` range.
pub fn multiply_and_scale_down(a: i128, b: i128, scale_factor: i128) -> (r: Result<
    i128,
    ContractError,
>)
    ensures
        scale_factor == 0 ==> r == Err::<i128, ContractError>(ContractError::DivisionByZero),
        scale_factor != 0 && !(fits_i128(a * b) && fits_i128(
            div_toward_zero(a * b, scale_factor as int),
        )) ==> r == Err::<i128, ContractError>(ContractError::Overflow),
        scale_factor != 0 && fits_i128(a * b) && fits_i128(
            div_toward_zero(a * b, scale_factor as int),
        ) ==> r == Ok::<i128, ContractError>(
            div_toward_zero(a * b, scale_factor as int) as i128,
        ),
{
    if scale_factor == 0 {
        return Err(ContractError::DivisionByZero);
    }
    let product = match a.checked_mul(b) {
        Some(p) => p,
        None => return Err(ContractError::Overflow),
    };
    match product.checked_div(scale_factor) {
        Some(q) => Ok(q),
        None => Err(ContractError::Overflow),
    }
}

/// Squared deviations never sum to a negative number.
pub proof fn lemma_sq_dev_sum_nonnegative(s: Seq<i128>, mean: i128)
    ensures
        sq_dev_sum(s, mean) >= 0,
    decreases s.len(),
{
    if s.len() > 0 {
        lemma_sq_dev_sum_nonnegative(s.drop_last(), mean);
        let d = s.last() - mean;
        assert(d * d >= 0) by (nonlinear_arith);
    }
}

/// The sample variance is at least the population variance: both divide
/// the same nonnegative sum, by `n - 1` and by `n`.
pub proof fn lemma_sample_variance_at_least_population(s: Seq<i128>)
    requires
        s.len() >= 2,
    ensures
        div_toward_zero(sq_dev_sum(s, truncated_mean(s)), s.len() - 1) >= div_toward_zero(
            sq_dev_sum(s, truncated_mean(s)),
            s.len() as int,
        ),
{
    let q = sq_dev_sum(s, truncated_mean(s));
    lemma_sq_dev_sum_nonnegative(s, truncated_mean(s));
    lemma_div_is_ordered_by_denominator(q, s.len() - 1, s.len() as int);
}

/// A variance is never negative: dividing a nonnegative sum of squared
/// deviations by a positive count rounds to a nonnegative quotient.
pub proof fn lemma_variance_nonnegative(s: Seq<i128>, mean: i128, count: int)
    requires
        count > 0,
    ensures
        div_toward_zero(sq_dev_sum(s, mean), count) >= 0,
{
    lemma_sq_dev_sum_nonnegative(s, mean);
    lemma_div_basics_4(sq_dev_sum(s, mean), count);
}

/// The sum of `n` copies of `c` is `n * c`.
proof fn lemma_sum_of_constant(s: Seq<i128>, c: i128)
    requires
        forall|k: int| 0 <= k < s.len() ==> s[k] == c,
    ensures
        seq_sum(s) == s.len() * c,
        sq_dev_sum(s, c) == 0,
    decreases s.len(),
{
    if s.len() > 0 {
        lemma_sum_of_constant(s.drop_last(), c);
        assert(s.last() == s[s.len() - 1]);
        assert((s.len() - 1) * c + c == s.len() * c) by (nonlinear_arith);
    }
}

/// Identical submissions have their common value as mean and no spread
/// around it, so both variances of them are zero wherever their sum fits.
pub proof fn lemma_identical_values_have_zero_variance(s: Seq<i128>, c: i128)
    requires
        s.len() >= 2,
        forall|k: int| 0 <= k < s.len() ==> s[k] == c,
        running_sums_fit(s),
    ensures
        truncated_mean(s) == c,
        sq_dev_steps_fit(s, c),
        sq_dev_sum(s, c) == 0,
{
    lemma_sum_of_constant(s, c);
    let n = s.len() as int;
    assert(div_toward_zero(n * c, n) == c) by {
        lemma_div_toward_zero_cancels(c as int, n);
        assert(c * n == n * c) by (nonlinear_arith);
    }
    assert forall|k: int| 0 <= k < s.len() implies #[trigger] fits_i128(sq_dev(s[k], c)) by {
        assert(sq_dev(s[k], c) == 0);
    }
    assert forall|k: int| 0 <= k < s.len() implies #[trigger] fits_i128(s[k] - c) by {
        assert(s[k] - c == 0);
    }
    assert forall|k: int| 0 <= k <= s.len() implies #[trigger] fits_i128(sq_dev_sum(s.take(k), c)) by {
        lemma_sum_of_constant(s.take(k), c);
    }
}

/// Rounding toward zero undoes a multiplication by the same nonzero factor.
pub proof fn lemma_div_toward_zero_cancels(a: int, d: int)
    requires
        d != 0,
    ensures
        div_toward_zero(a * d, d) == a,
{
    let x = a * d;
    if a >= 0 && d > 0 {
        lemma_div_by_multiple(a, d);
    } else if a >= 0 && d < 0 {
        assert(x <= 0) by (nonlinear_arith)
            requires
                a >= 0,
                d < 0,
                x == a * d,
        ;
        assert(-x == a * (-d)) by (nonlinear_arith)
            requires
                x == a * d,
        ;
        lemma_div_by_multiple(a, -d);
        if x == 0 {
            assert(a == 0) by (nonlinear_arith)
                requires
                    x == a * d,
                    x == 0,
                    d < 0,
            ;
        }
    } else if a < 0 && d > 0 {
        assert(x < 0) by (nonlinear_arith)
            requires
                a < 0,
                d > 0,
                x == a * d,
        ;
        assert(-x == (-a) * d) by (nonlinear_arith)
            requires
                x == a * d,
        ;
        lemma_div_by_multiple(-a, d);
    } else {
        assert(x > 0) by (nonlinear_arith)
            requires
                a < 0,
                d < 0,
                x == a * d,
        ;
        assert(x == (-a) * (-d)) by (nonlinear_arith)
            requires
                x == a * d,
        ;
        lemma_div_by_multiple(-a, -d);
        assert(-x == a * (-d)) by (nonlinear_arith)
            requires
                x == a * d,
        ;
    }
}

/// Scaling a fixed-point value up by `scale` and back down with
/// `multiply_and_scale_down` returns the value unchanged.
pub proof fn lemma_scale_down_inverts_scale_up(a: i128, scale: i128)
    requires
        scale != 0,
    ensures
        div_toward_zero(a * scale, scale as int) == a,
{
    lemma_div_toward_zero_cancels(a as int, scale as int);
}

/// Two equal rates have a spread of zero basis points.
pub proof fn lemma_spread_of_equal_rates(rate: i128)
    requires
        rate != 0,
    ensures
        fits_i128(spread_numerator(rate, rate)),
        div_toward_zero(spread_numerator(rate, rate), rate as int) == 0,
{
}

} // verus!
