//! The search for the most likely population size, as mathematics.

use crate::likelihood::likelihood;
use crate::likelihood::rejection;
use crate::likelihood::valid;
use crate::pop_prob_error::PopProbError;
use vstd::prelude::*;

verus! {

/// The size that bisection settles on inside the bracket from `lower` to
/// `upper`, where `pivot` lies between the two. Each step halves the wider
/// side of the bracket and keeps the part around the larger likelihood; a
/// tie keeps the pivot where it is further from the new point. The search
/// ends when the upper end is next to the pivot.
pub open spec fn peak(sample: nat, unique: nat, lower: nat, pivot: nat, upper: nat) -> nat
    decreases upper - lower,
    when lower < pivot < upper
{
    if upper == pivot + 1 {
        pivot
    } else if upper - pivot > pivot - lower {
        let middle = (pivot + upper) / 2;
        if likelihood(middle, sample, unique) < likelihood(pivot, sample, unique) {
            peak(sample, unique, lower, pivot, middle)
        } else {
            peak(sample, unique, pivot, middle, upper)
        }
    } else {
        let middle = (lower + pivot) / 2;
        if likelihood(pivot, sample, unique) < likelihood(middle, sample, unique) {
            peak(sample, unique, lower, middle, pivot)
        } else {
            peak(sample, unique, middle, pivot, upper)
        }
    }
}

/// Whether `n` is one of 1, 2, 4, 8 and so on.
pub open spec fn is_power_of_two(n: nat) -> bool
    decreases n,
{
    n == 1 || (n >= 2 && n % 2 == 0 && is_power_of_two(n / 2))
}

/// The size that lies `offset - 1` above `unique`.
pub open spec fn candidate(unique: nat, offset: nat) -> nat {
    (unique + offset - 1) as nat
}

/// The outcome of the scan from the candidate at `offset` on. The offset
/// doubles from candidate to candidate. The scan stops at the first
/// candidate that is less likely than the one before it: the two candidates
/// before it and that one bracket the peak, or, where only one came before
/// it, that one is the answer. It fails when a candidate no longer fits in
/// 32 bits.
pub open spec fn scan(sample: nat, unique: nat, offset: nat) -> Result<nat, PopProbError>
    decreases 0x2_0000_0000 - offset,
    when offset >= 1
{
    let size = candidate(unique, offset);
    let before = candidate(unique, offset / 2);
    if size > u32::MAX {
        Err(PopProbError::Generic)
    } else if offset >= 2 && likelihood(size, sample, unique) < likelihood(before, sample, unique) {
        if offset >= 4 {
            Ok(peak(sample, unique, candidate(unique, offset / 4), before, size))
        } else {
            Ok(before)
        }
    } else {
        scan(sample, unique, 2 * offset)
    }
}

/// The most likely population size for `sample` draws that showed `unique`
/// distinct elements, as the scan and the bisection find it.
pub open spec fn most_likely_size(sample: u32, unique: u32) -> Result<nat, PopProbError> {
    if valid(unique as nat, sample as nat, unique as nat) {
        scan(sample as nat, unique as nat, 1)
    } else {
        Err(rejection(unique, sample, unique))
    }
}

} // verus!
