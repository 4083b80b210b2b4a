//! The chance of seeing a given number of distinct elements, as mathematics.

use crate::combinatorics::arrangements;
use crate::combinatorics::draws_showing;
use crate::combinatorics::factorial;
use crate::combinatorics::lemma_arrangements_factorial;
use crate::combinatorics::lemma_draws_showing_bound;
use crate::combinatorics::lemma_factorial_positive;
use crate::combinatorics::lemma_stirling2_one_group;
use crate::combinatorics::stirling2;
use crate::pop_prob_error::PopProbError;
use vstd::arithmetic::div_mod::lemma_basic_div;
use vstd::arithmetic::div_mod::lemma_div_multiples_vanish_quotient;
use vstd::arithmetic::power::lemma_pow_positive;
use vstd::arithmetic::power::pow;
use vstd::prelude::*;

verus! {

/// The fixed-point value that stands for certainty: a likelihood is a
/// whole number of parts, `SCALE` of which make one.
pub const SCALE: u32 = 4294967295;

/// Whether the three counts describe a possible observation.
pub open spec fn valid(size: nat, sample: nat, unique: nat) -> bool {
    1 <= unique <= size && unique <= sample
}

/// The error that names what is wrong with counts that are not valid.
pub open spec fn rejection(size: u32, sample: u32, unique: u32) -> PopProbError {
    if unique > size {
        PopProbError::UniqueGreaterThanSize((unique, size))
    } else if unique > sample {
        PopProbError::UniqueGreaterThanSample((unique, sample))
    } else {
        PopProbError::UniqueZero
    }
}

/// The number of sequences of `sample` draws from `size` elements that show
/// exactly `unique` of them, times the orderings of the elements not shown.
pub open spec fn favourable(size: nat, sample: nat, unique: nat) -> nat {
    stirling2(sample, unique) * factorial(size)
}

/// The number of all sequences of `sample` draws from `size` elements,
/// times the orderings of the elements not shown.
pub open spec fn possible(size: nat, sample: nat, unique: nat) -> nat {
    (pow(size as int, sample) * factorial((size - unique) as nat)) as nat
}

/// The probability that `sample` draws with replacement from `size`
/// elements show exactly `unique` distinct ones, in parts of `SCALE`,
/// rounded down.
pub open spec fn likelihood(size: nat, sample: nat, unique: nat) -> nat {
    (favourable(size, sample, unique) * SCALE / (possible(size, sample, unique) as int)) as nat
}

/// A probability never exceeds one: of all sequences of draws, those that
/// show exactly `unique` elements are a part.
pub proof fn lemma_likelihood_at_most_one(size: nat, sample: nat, unique: nat)
    requires
        1 <= unique <= size,
    ensures
        possible(size, sample, unique) > 0,
        favourable(size, sample, unique) <= possible(size, sample, unique),
        likelihood(size, sample, unique) <= SCALE,
{
    let rest = factorial((size - unique) as nat);
    let all = pow(size as int, sample);
    let shown = draws_showing(size, sample, unique);
    lemma_pow_positive(size as int, sample);
    lemma_factorial_positive((size - unique) as nat);
    lemma_arrangements_factorial(size, unique);
    lemma_draws_showing_bound(size, sample, unique);
    assert(all * rest > 0) by (nonlinear_arith)
        requires
            all > 0,
            rest > 0,
    ;
    let s = stirling2(sample, unique);
    let a = arrangements(size, unique);
    assert(s * factorial(size) == shown * rest) by (nonlinear_arith)
        requires
            a * rest == factorial(size),
            shown == s * a,
    ;
    assert(shown * rest <= all * rest) by (nonlinear_arith)
        requires
            shown <= all,
            rest > 0,
    ;
    let f = favourable(size, sample, unique);
    let p = possible(size, sample, unique);
    assert(f * SCALE / (p as int) <= SCALE) by (nonlinear_arith)
        requires
            0 <= f <= p,
            p > 0,
    ;
    assert(f * SCALE / (p as int) >= 0) by (nonlinear_arith)
        requires
            0 <= f,
            p > 0,
    ;
}

/// A larger base gives no smaller a power.
pub proof fn lemma_pow_grows_with_base(smaller: nat, larger: nat, e: nat)
    requires
        smaller <= larger,
    ensures
        0 <= pow(smaller as int, e) <= pow(larger as int, e),
    decreases e,
{
    reveal(pow);
    if e > 0 {
        lemma_pow_grows_with_base(smaller, larger, (e - 1) as nat);
        let a = pow(smaller as int, (e - 1) as nat);
        let b = pow(larger as int, (e - 1) as nat);
        assert(0 <= smaller * a <= larger * b) by (nonlinear_arith)
            requires
                0 <= a <= b,
                0 <= smaller <= larger,
        ;
    }
}

/// All draws show the same element with the probability that each draw
/// after the first repeats the first: one in `size` for each of them.
pub proof fn lemma_likelihood_of_one_shown(size: nat, sample: nat)
    requires
        size >= 1,
        sample >= 1,
    ensures
        pow(size as int, (sample - 1) as nat) > 0,
        likelihood(size, sample, 1) == (SCALE as int) / pow(size as int, (sample - 1) as nat),
{
    reveal(pow);
    let rest = factorial((size - 1) as nat);
    let d = pow(size as int, (sample - 1) as nat);
    let c = size * rest;
    lemma_stirling2_one_group(sample);
    lemma_factorial_positive((size - 1) as nat);
    lemma_pow_positive(size as int, (sample - 1) as nat);
    assert(factorial(size) == size * rest);
    assert(pow(size as int, sample) == size * d);
    assert(c > 0) by (nonlinear_arith)
        requires
            c == size * rest,
            size >= 1,
            rest >= 1,
    ;
    assert(favourable(size, sample, 1) * SCALE == c * SCALE) by (nonlinear_arith)
        requires
            favourable(size, sample, 1) == 1 * (size * rest),
            c == size * rest,
    ;
    assert((size * d) * rest == c * d) by (nonlinear_arith)
        requires
            c == size * rest,
    ;
    lemma_div_multiples_vanish_quotient(c as int, SCALE as int, d);
}

/// Where one element in `size` is already too rare to count, one shown
/// element has no likelihood at `size` or any larger size.
pub proof fn lemma_one_shown_without_weight(size: nat, larger: nat, sample: nat)
    requires
        1 <= size <= larger,
        sample >= 1,
        pow(size as int, (sample - 1) as nat) > SCALE,
    ensures
        likelihood(larger, sample, 1) == 0,
{
    lemma_likelihood_of_one_shown(larger, sample);
    lemma_pow_grows_with_base(size, larger, (sample - 1) as nat);
    lemma_basic_div(SCALE as int, pow(larger as int, (sample - 1) as nat));
}

} // verus!
