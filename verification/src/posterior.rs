//! The probability of one population size among its neighbours, as
//! mathematics.

use crate::likelihood::lemma_one_shown_without_weight;
use crate::likelihood::likelihood;
use crate::likelihood::SCALE;
use crate::likelihood::rejection;
use crate::likelihood::valid;
use crate::pop_prob_error::PopProbError;
use vstd::arithmetic::power::pow;
use vstd::prelude::*;

verus! {

/// The window stops growing once the likelihood added last is less than one
/// part in `THRESHOLD` of the total.
pub const THRESHOLD: u64 = 10000;

/// A probability as an exact quotient of two whole numbers.
#[derive(Debug, Clone, Copy, PartialEq, Eq)]
pub struct Fraction {
    pub numerator: u64,
    pub denominator: u64,
}

/// The likelihood of `size`, which is nothing below `unique`: a population
/// cannot be smaller than the number of distinct elements seen.
pub open spec fn mass(sample: nat, unique: nat, size: int) -> nat {
    if unique <= size {
        likelihood(size as nat, sample, unique)
    } else {
        0
    }
}

/// The total likelihood of a window of sizes once it has stopped growing.
/// The window has taken in every size strictly between `low` and `high`,
/// `total` is the sum of their likelihoods and `latest` the one added last.
/// While `latest` is not less than one part in `threshold` of `total`, the
/// window takes in the likelier of `low` and `high`, and `high` on a tie.
/// A window without any weight therefore keeps growing. It fails when it
/// would have to grow beyond the largest 32-bit size.
pub open spec fn window(
    sample: nat,
    unique: nat,
    threshold: nat,
    total: nat,
    latest: nat,
    low: int,
    high: int,
) -> Result<nat, PopProbError>
    decreases low + 1 + 0x1_0000_0000 - high,
    when low >= -1 && high <= u32::MAX
{
    if latest * threshold >= total {
        if mass(sample, unique, low) > mass(sample, unique, high) {
            window(
                sample,
                unique,
                threshold,
                total + mass(sample, unique, low),
                mass(sample, unique, low),
                low - 1,
                high,
            )
        } else if high == u32::MAX {
            Err(PopProbError::Generic)
        } else {
            window(
                sample,
                unique,
                threshold,
                total + mass(sample, unique, high),
                mass(sample, unique, high),
                low,
                high + 1,
            )
        }
    } else {
        Ok(total)
    }
}

/// What the sizes from `lo` to `hi` weigh together.
pub open spec fn run_sum(sample: nat, unique: nat, lo: int, hi: int) -> nat
    decreases hi - lo + 1,
{
    if hi < lo {
        0
    } else {
        run_sum(sample, unique, lo, hi - 1) + mass(sample, unique, hi)
    }
}

/// Whether a window around `size` can have come to rest on the sizes from
/// `lo` to `hi` with `total`: no size of the run lies below `unique`,
/// `total` is what the run weighs, and the size at one end of it weighs
/// less than one part in `threshold` of `total`.
pub open spec fn settled_run(
    sample: nat,
    unique: nat,
    threshold: nat,
    size: int,
    lo: int,
    hi: int,
    total: nat,
) -> bool {
    &&& unique <= lo <= size <= hi <= u32::MAX
    &&& total == run_sum(sample, unique, lo, hi)
    &&& (mass(sample, unique, lo) * threshold < total || mass(sample, unique, hi) * threshold
        < total)
}

/// The probability that the population has exactly `size` elements, given
/// `sample` draws that showed `unique` distinct ones and no preference
/// among the sizes near `size`: the likelihood of `size` and the total
/// likelihood of the window around it.
pub open spec fn posterior(sample: u32, unique: u32, size: u32) -> Result<(nat, nat), PopProbError> {
    let own = likelihood(size as nat, sample as nat, unique as nat);
    if !valid(size as nat, sample as nat, unique as nat) {
        Err(rejection(size, sample, unique))
    } else if size == u32::MAX {
        Err(PopProbError::Generic)
    } else {
        match window(sample as nat, unique as nat, THRESHOLD as nat, own, own, size - 1, size + 1) {
            Ok(total) => Ok((own, total)),
            Err(e) => Err(e),
        }
    }
}

/// A window never loses what it has taken in.
pub proof fn lemma_window_keeps_total(
    sample: nat,
    unique: nat,
    threshold: nat,
    total: nat,
    latest: nat,
    low: int,
    high: int,
)
    requires
        low >= -1,
        high <= u32::MAX,
    ensures
        match window(sample, unique, threshold, total, latest, low, high) {
            Ok(end) => total <= end,
            Err(_) => true,
        },
    decreases low + 1 + 0x1_0000_0000 - high,
{
    if latest * threshold >= total {
        let below = mass(sample, unique, low);
        let above = mass(sample, unique, high);
        if below > above {
            lemma_window_keeps_total(
                sample,
                unique,
                threshold,
                total + below,
                below,
                low - 1,
                high,
            );
        } else if high < u32::MAX {
            lemma_window_keeps_total(
                sample,
                unique,
                threshold,
                total + above,
                above,
                low,
                high + 1,
            );
        }
    }
}

/// A run that takes in the size below it weighs that much more.
pub proof fn lemma_run_sum_grows_below(sample: nat, unique: nat, lo: int, hi: int)
    requires
        lo <= hi + 1,
    ensures
        run_sum(sample, unique, lo - 1, hi) == mass(sample, unique, lo - 1) + run_sum(
            sample,
            unique,
            lo,
            hi,
        ),
    decreases hi - lo + 1,
{
    if lo <= hi {
        lemma_run_sum_grows_below(sample, unique, lo, hi - 1);
    } else {
        assert(run_sum(sample, unique, lo - 1, hi - 1) == 0);
    }
}

/// A run weighs no more than a run that contains it.
pub proof fn lemma_run_sum_wider(sample: nat, unique: nat, lo: int, hi: int, below: int, above: int)
    requires
        below <= lo,
        hi <= above,
        lo <= hi + 1,
    ensures
        run_sum(sample, unique, lo, hi) <= run_sum(sample, unique, below, above),
    decreases (lo - below) + (above - hi),
{
    if hi < above {
        lemma_run_sum_wider(sample, unique, lo, hi, below, above - 1);
    } else if below < lo {
        lemma_run_sum_wider(sample, unique, lo, hi, below + 1, above);
        lemma_run_sum_grows_below(sample, unique, below + 1, above);
    }
}

/// Where a window comes to an end, its total is what a run of sizes around
/// `size` weighs, none of them below `unique`, and the size at one end of
/// the run weighs less than one part in `threshold` of that total.
pub proof fn lemma_window_settles_on_run(
    sample: nat,
    unique: nat,
    threshold: nat,
    size: int,
    total: nat,
    latest: nat,
    low: int,
    high: int,
)
    requires
        -1 <= low < size < high <= u32::MAX,
        unique <= low + 1,
        total == run_sum(sample, unique, low + 1, high - 1),
        latest == mass(sample, unique, low + 1) || latest == mass(sample, unique, high - 1),
    ensures
        match window(sample, unique, threshold, total, latest, low, high) {
            Ok(end) => exists|lo: int, hi: int| #[trigger]
                settled_run(sample, unique, threshold, size, lo, hi, end),
            Err(_) => true,
        },
    decreases low + 1 + 0x1_0000_0000 - high,
{
    let below = mass(sample, unique, low);
    let above = mass(sample, unique, high);
    let end = window(sample, unique, threshold, total, latest, low, high);
    if latest * threshold >= total {
        if below > above {
            lemma_run_sum_grows_below(sample, unique, low + 1, high - 1);
            lemma_window_settles_on_run(
                sample,
                unique,
                threshold,
                size,
                total + below,
                below,
                low - 1,
                high,
            );
            assert(end == window(sample, unique, threshold, total + below, below, low - 1, high));
        } else if high < u32::MAX {
            assert(run_sum(sample, unique, low + 1, high) == total + above);
            lemma_window_settles_on_run(
                sample,
                unique,
                threshold,
                size,
                total + above,
                above,
                low,
                high + 1,
            );
            assert(end == window(sample, unique, threshold, total + above, above, low, high + 1));
        }
    } else {
        assert(end == Ok::<nat, PopProbError>(total));
        assert(settled_run(sample, unique, threshold, size, low + 1, high - 1, end->Ok_0));
    }
}

/// A window that holds no weight and finds none above it never comes to
/// rest: it grows until no size is left, and fails.
pub proof fn lemma_window_without_weight(
    sample: nat,
    unique: nat,
    threshold: nat,
    low: int,
    high: int,
)
    requires
        -1 <= low,
        high <= u32::MAX,
        mass(sample, unique, low) == 0,
        forall|s: int| high <= s <= u32::MAX ==> #[trigger] mass(sample, unique, s) == 0,
    ensures
        window(sample, unique, threshold, 0, 0, low, high) == Err::<nat, PopProbError>(
            PopProbError::Generic,
        ),
    decreases u32::MAX - high,
{
    assert(mass(sample, unique, high) == 0);
    assert(0 * threshold >= 0) by (nonlinear_arith);
    if high < u32::MAX {
        lemma_window_without_weight(sample, unique, threshold, low, high + 1);
    }
}

/// Where neither `size`, nor the size below it, nor any size above it
/// weighs anything, no probability can be given for `size`.
pub proof fn lemma_posterior_without_weight(sample: u32, unique: u32, size: u32)
    requires
        valid(size as nat, sample as nat, unique as nat),
        forall|s: int|
            size - 1 <= s <= u32::MAX ==> #[trigger] mass(sample as nat, unique as nat, s) == 0,
    ensures
        posterior(sample, unique, size) == Err::<(nat, nat), PopProbError>(PopProbError::Generic),
{
    assert(mass(sample as nat, unique as nat, size as int) == 0);
    if size < u32::MAX {
        lemma_window_without_weight(
            sample as nat,
            unique as nat,
            THRESHOLD as nat,
            size - 1,
            size + 1,
        );
    }
}

/// One shown element in many draws: where one element in `size - 1` is
/// already too rare to count, no probability can be given for `size`.
pub proof fn lemma_posterior_of_one_shown_without_weight(sample: u32, size: u32)
    requires
        sample >= 1,
        size >= 2,
        pow(size - 1, (sample - 1) as nat) > SCALE,
    ensures
        posterior(sample, 1, size) == Err::<(nat, nat), PopProbError>(PopProbError::Generic),
{
    assert forall|s: int| size - 1 <= s <= u32::MAX implies #[trigger] mass(
        sample as nat,
        1,
        s,
    ) == 0 by {
        lemma_one_shown_without_weight((size - 1) as nat, s as nat, sample as nat);
    }
    lemma_posterior_without_weight(sample, 1, size);
}

/// The window around a size never weighs more than all sizes up to any
/// bound beyond it. Dividing by the window's total instead of the total of
/// all sizes therefore never gives the smaller probability.
pub proof fn lemma_settled_run_at_most_all(
    sample: nat,
    unique: nat,
    threshold: nat,
    size: int,
    lo: int,
    hi: int,
    total: nat,
    bound: int,
)
    requires
        settled_run(sample, unique, threshold, size, lo, hi, total),
        hi <= bound,
    ensures
        total <= run_sum(sample, unique, unique as int, bound),
{
    lemma_run_sum_wider(sample, unique, lo, hi, unique as int, bound);
}

/// A stricter stopping rule only lets the window grow further: where the
/// window of the larger threshold comes to an end, so does that of the
/// smaller one, and with no greater a total. The probability of the size
/// in the middle can therefore only be refined downwards.
pub proof fn lemma_window_grows_with_threshold(
    sample: nat,
    unique: nat,
    smaller: nat,
    larger: nat,
    total: nat,
    latest: nat,
    low: int,
    high: int,
)
    requires
        smaller <= larger,
        low >= -1,
        high <= u32::MAX,
    ensures
        match window(sample, unique, larger, total, latest, low, high) {
            Ok(wide) => match window(sample, unique, smaller, total, latest, low, high) {
                Ok(narrow) => narrow <= wide,
                Err(_) => false,
            },
            Err(_) => true,
        },
    decreases low + 1 + 0x1_0000_0000 - high,
{
    let below = mass(sample, unique, low);
    let above = mass(sample, unique, high);
    if latest * smaller >= total {
        assert(latest * larger >= total) by (nonlinear_arith)
            requires
                latest * smaller >= total,
                smaller <= larger,
        ;
        if below > above {
            lemma_window_grows_with_threshold(
                sample,
                unique,
                smaller,
                larger,
                total + below,
                below,
                low - 1,
                high,
            );
        } else if high < u32::MAX {
            lemma_window_grows_with_threshold(
                sample,
                unique,
                smaller,
                larger,
                total + above,
                above,
                low,
                high + 1,
            );
        }
    } else {
        lemma_window_keeps_total(sample, unique, larger, total, latest, low, high);
    }
}

} // verus!
