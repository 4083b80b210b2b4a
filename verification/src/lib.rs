//! Population-size estimation from a sample drawn with replacement.

pub mod biguint;
pub mod combinatorics;
pub mod fac;
pub mod likelihood;
pub mod pop_prob_error;
pub mod posterior;
pub mod search;
pub mod snsk;

use crate::fac::Fac;
use crate::likelihood::lemma_likelihood_at_most_one;
use crate::likelihood::likelihood;
use crate::likelihood::rejection;
use crate::likelihood::valid;
use crate::likelihood::SCALE;
use crate::pop_prob_error::PopProbError;
use crate::posterior::lemma_settled_run_at_most_all;
use crate::posterior::lemma_window_settles_on_run;
use crate::posterior::mass;
use crate::posterior::posterior;
use crate::posterior::run_sum;
use crate::posterior::settled_run;
use crate::posterior::window;
use crate::posterior::Fraction;
use crate::posterior::THRESHOLD;
use crate::search::candidate;
use crate::search::is_power_of_two;
use crate::search::most_likely_size;
use crate::search::peak;
use crate::search::scan;
use crate::snsk::Snsk;
use vstd::prelude::*;

verus! {

/// Accepts the three counts where they describe a possible observation,
/// and names what is wrong with them where they do not.
fn check(size: u32, sample: u32, unique: u32) -> (r: Result<(), PopProbError>)
    ensures
        match r {
            Ok(_) => valid(size as nat, sample as nat, unique as nat),
            Err(e) => !valid(size as nat, sample as nat, unique as nat) && e == rejection(
                size,
                sample,
                unique,
            ),
        },
{
    if unique > size {
        return Err(PopProbError::UniqueGreaterThanSize((unique, size)));
    }
    if unique > sample {
        return Err(PopProbError::UniqueGreaterThanSample((unique, sample)));
    }
    if unique == 0 {
        return Err(PopProbError::UniqueZero);
    }
    Ok(())
}

/// Answers questions about a population from which `sample` elements were
/// drawn with replacement, `unique` of them distinct. It keeps the
/// factorials and Stirling numbers that it has computed.
pub struct Calculator {
    fac: Fac,
    snsk: Snsk,
}

impl Calculator {
    /// Both tables are well formed.
    pub closed spec fn wf(&self) -> bool {
        self.fac.wf() && self.snsk.wf()
    }

    /// The factorials kept so far.
    pub closed spec fn factorials(&self) -> Map<u32, nat> {
        self.fac@
    }

    /// The Stirling numbers kept so far.
    pub closed spec fn stirlings(&self) -> Map<(u32, u32), nat> {
        self.snsk@
    }

    /// Whether this calculator still holds everything that `earlier` held.
    pub open spec fn extends(&self, earlier: &Calculator) -> bool {
        &&& earlier.factorials().submap_of(self.factorials())
        &&& earlier.stirlings().submap_of(self.stirlings())
    }

    /// What held before is still held after two rounds of growth.
    proof fn lemma_extends_twice(&self, middle: &Calculator, first: &Calculator)
        requires
            self.extends(middle),
            middle.extends(first),
        ensures
            self.extends(first),
    {
        assert forall|n: u32| #[trigger]
            first.factorials().contains_key(n) implies self.factorials().contains_key(n)
            && self.factorials()[n] == first.factorials()[n] by {
            assert(middle.factorials().contains_key(n));
        }
        assert forall|p: (u32, u32)| #[trigger]
            first.stirlings().contains_key(p) implies self.stirlings().contains_key(p)
            && self.stirlings()[p] == first.stirlings()[p] by {
            assert(middle.stirlings().contains_key(p));
        }
    }

    /// A calculator that has computed nothing yet.
    pub fn new() -> (r: Self)
        ensures
            r.wf(),
            r.factorials() == Map::<u32, nat>::empty().insert(0, 1),
            r.stirlings() == Map::<(u32, u32), nat>::empty().insert((0u32, 0u32), 1).insert(
                (1u32, 0u32),
                0,
            ),
    {
        Self { fac: Fac::new(), snsk: Snsk::new() }
    }

    /// The most likely population size if `sample` elements are drawn with
    /// replacement and `unique` of them are distinct: the size that a scan
    /// over ever larger candidates and a bisection settle on. The size found
    /// is at least `unique`, more likely than the size just above it and at
    /// least as likely as the size just below it. The search fails where no
    /// candidate that fits in 32 bits is less likely than the one before it.
    pub fn pop(&mut self, sample: u32, unique: u32) -> (r: Result<u32, PopProbError>)
        requires
            old(self).wf(),
        ensures
            final(self).wf(),
            final(self).extends(old(self)),
            match r {
                Ok(size) => most_likely_size(sample, unique) == Ok::<nat, PopProbError>(
                    size as nat,
                ),
                Err(e) => most_likely_size(sample, unique) == Err::<nat, PopProbError>(e),
            },
            !valid(unique as nat, sample as nat, unique as nat) ==> r == Err::<u32, PopProbError>(
                rejection(unique, sample, unique),
            ),
            valid(unique as nat, sample as nat, unique as nat) ==> r is Ok || r == Err::<
                u32,
                PopProbError,
            >(PopProbError::Generic),
            match r {
                Ok(size) => {
                    &&& unique <= size < u32::MAX
                    &&& likelihood((size + 1) as nat, sample as nat, unique as nat) < likelihood(
                        size as nat,
                        sample as nat,
                        unique as nat,
                    )
                    &&& size > unique ==> likelihood(
                        (size - 1) as nat,
                        sample as nat,
                        unique as nat,
                    ) <= likelihood(size as nat, sample as nat, unique as nat)
                },
                Err(_) => true,
            },
    {
        let mut prev_prev: Option<(u32, u32)> = None;
        let mut prev: Option<(u32, u32)> = None;
        let mut offset: u64 = 1;
        while unique as u64 + offset - 1 <= u32::MAX as u64
            invariant
                self.wf(),
                self.extends(old(self)),
                1 <= offset <= 0x2_0000_0000,
                is_power_of_two(offset as nat),
                offset >= 2 ==> valid(unique as nat, sample as nat, unique as nat),
                valid(unique as nat, sample as nat, unique as nat) ==> most_likely_size(
                    sample,
                    unique,
                ) == scan(sample as nat, unique as nat, offset as nat),
                offset >= 2 <==> prev is Some,
                offset >= 4 <==> prev_prev is Some,
                match prev {
                    Some(p) => p.0 == candidate(unique as nat, (offset / 2) as nat) && p.1
                        == likelihood(p.0 as nat, sample as nat, unique as nat),
                    None => true,
                },
                match prev_prev {
                    Some(pp) => pp.0 == candidate(unique as nat, (offset / 4) as nat) && pp.1
                        == likelihood(pp.0 as nat, sample as nat, unique as nat) && match prev {
                        Some(p) => pp.1 <= p.1,
                        None => false,
                    },
                    None => true,
                },
            decreases 0x2_0000_0000 - offset,
        {
            let size: u32 = (unique as u64 + offset - 1) as u32;
            let ghost before = *self;
            let found = self.prob_unique(size, sample, unique);
            proof {
                self.lemma_extends_twice(&before, old(self));
            }
            let v = (size, found?);
            if let Some(p) = prev {
                if v.1 < p.1 {
                    return if let Some(pp) = prev_prev {
                        let ghost before = *self;
                        proof {
                            let half = (offset / 2) as nat;
                            assert(is_power_of_two(half));
                            assert(is_power_of_two(half / 2));
                            assert(offset / 4 == half / 2);
                        }
                        let r = self.find_peak(sample, unique, pp, p, v);
                        proof {
                            self.lemma_extends_twice(&before, old(self));
                        }
                        r
                    } else {
                        Ok(p.0)
                    };
                }
            }
            prev_prev = prev;
            prev = Some(v);
            offset = offset * 2;
            assert(is_power_of_two(offset as nat));
        }
        Err(PopProbError::Generic)
    }

    /// Narrows the bracket from `lbound` to `ubound` around `pivot` down to
    /// the size that bisection settles on. Each point is a size with its
    /// likelihood.
    fn find_peak(
        &mut self,
        sample: u32,
        unique: u32,
        lbound: (u32, u32),
        pivot: (u32, u32),
        ubound: (u32, u32),
    ) -> (r: Result<u32, PopProbError>)
        requires
            old(self).wf(),
            1 <= unique <= sample,
            unique <= lbound.0 < pivot.0 < ubound.0,
            lbound.1 == likelihood(lbound.0 as nat, sample as nat, unique as nat),
            pivot.1 == likelihood(pivot.0 as nat, sample as nat, unique as nat),
            ubound.1 == likelihood(ubound.0 as nat, sample as nat, unique as nat),
            lbound.1 <= pivot.1,
            ubound.1 < pivot.1,
            is_power_of_two((pivot.0 - lbound.0) as nat),
            ubound.0 - pivot.0 == pivot.0 - lbound.0 || ubound.0 - pivot.0 == 2 * (pivot.0
                - lbound.0),
        ensures
            final(self).wf(),
            final(self).extends(old(self)),
            r == Ok::<u32, PopProbError>(
                peak(
                    sample as nat,
                    unique as nat,
                    lbound.0 as nat,
                    pivot.0 as nat,
                    ubound.0 as nat,
                ) as u32,
            ),
            match r {
                Ok(size) => lbound.0 < size < ubound.0 && size == peak(
                    sample as nat,
                    unique as nat,
                    lbound.0 as nat,
                    pivot.0 as nat,
                    ubound.0 as nat,
                ) && likelihood((size + 1) as nat, sample as nat, unique as nat) < likelihood(
                    size as nat,
                    sample as nat,
                    unique as nat,
                ) && likelihood((size - 1) as nat, sample as nat, unique as nat) <= likelihood(
                    size as nat,
                    sample as nat,
                    unique as nat,
                ) && pivot.1 <= likelihood(size as nat, sample as nat, unique as nat),
                Err(_) => false,
            },
        decreases ubound.0 - lbound.0,
    {
        if ubound.0 == pivot.0 + 1 {
            return Ok(pivot.0);
        }
        let (lbound, pivot, ubound) = if ubound.0 - pivot.0 > pivot.0 - lbound.0 {
            let x: u32 = pivot.0 + (ubound.0 - pivot.0) / 2;
            let v = (x, self.prob_unique(x, sample, unique)?);
            assert(x == (pivot.0 + ubound.0) / 2);
            if v.1 < pivot.1 {
                (lbound, pivot, v)
            } else {
                (pivot, v, ubound)
            }
        } else {
            let x: u32 = lbound.0 + (pivot.0 - lbound.0) / 2;
            let v = (x, self.prob_unique(x, sample, unique)?);
            assert(x == (lbound.0 + pivot.0) / 2);
            if pivot.1 < v.1 {
                (lbound, v, pivot)
            } else {
                (v, pivot, ubound)
            }
        };
        let ghost before = *self;
        let r = self.find_peak(sample, unique, lbound, pivot, ubound);
        proof {
            self.lemma_extends_twice(&before, old(self));
        }
        r
    }

    /// The probability that the population has exactly `size` elements if
    /// `sample` elements are drawn with replacement and `unique` of them
    /// are distinct, among the sizes near `size` that carry weight: the
    /// likelihood of `size` over the total likelihood of a window of sizes
    /// around it. Sizes below `unique` weigh nothing. The window grows
    /// until the size taken in last weighs less than one part in
    /// `THRESHOLD` of the total, so the total is never nothing. Fails where
    /// the window would have to grow beyond the largest 32-bit size, as it
    /// does where neither `size` nor any size above it weighs anything.
    pub fn prob_pop(&mut self, sample: u32, unique: u32, size: u32) -> (r: Result<
        Fraction,
        PopProbError,
    >)
        requires
            old(self).wf(),
        ensures
            final(self).wf(),
            final(self).extends(old(self)),
            match r {
                Ok(f) => posterior(sample, unique, size) == Ok::<(nat, nat), PopProbError>(
                    (f.numerator as nat, f.denominator as nat),
                ),
                Err(e) => posterior(sample, unique, size) == Err::<(nat, nat), PopProbError>(e),
            },
            !valid(size as nat, sample as nat, unique as nat) ==> r == Err::<
                Fraction,
                PopProbError,
            >(rejection(size, sample, unique)),
            valid(size as nat, sample as nat, unique as nat) ==> r is Ok || r == Err::<
                Fraction,
                PopProbError,
            >(PopProbError::Generic),
            match r {
                Ok(f) => {
                    &&& f.numerator == likelihood(size as nat, sample as nat, unique as nat)
                    &&& f.numerator <= f.denominator
                    &&& f.denominator > 0
                    &&& exists|lo: int, hi: int| #[trigger]
                        settled_run(
                            sample as nat,
                            unique as nat,
                            THRESHOLD as nat,
                            size as int,
                            lo,
                            hi,
                            f.denominator as nat,
                        )
                    &&& forall|bound: int|
                        u32::MAX <= bound ==> f.denominator <= #[trigger] run_sum(
                            sample as nat,
                            unique as nat,
                            unique as int,
                            bound,
                        )
                },
                Err(_) => true,
            },
    {
        check(size, sample, unique)?;
        if size == u32::MAX {
            return Err(PopProbError::Generic);
        }
        let numerator = self.prob_unique(size, sample, unique)?;
        let mut denominator: u64 = numerator as u64;
        let mut latest_prob = numerator;
        let mut low_size: u32 = size - 1;
        let ghost before = *self;
        let mut low_prob: u32 = if low_size < unique {
            0
        } else {
            self.prob_unique(low_size, sample, unique)?
        };
        proof {
            self.lemma_extends_twice(&before, old(self));
        }
        let mut high_size: u32 = size + 1;
        let ghost before = *self;
        let mut high_prob = self.prob_unique(high_size, sample, unique)?;
        proof {
            self.lemma_extends_twice(&before, old(self));
        }
        proof {
            let own = numerator as nat;
            assert(run_sum(sample as nat, unique as nat, size as int, size - 1) == 0);
            assert(run_sum(sample as nat, unique as nat, size as int, size as int) == own);
            lemma_window_settles_on_run(
                sample as nat,
                unique as nat,
                THRESHOLD as nat,
                size as int,
                own,
                own,
                size - 1,
                size + 1,
            );
        }
        while latest_prob as u64 * THRESHOLD >= denominator
            invariant
                self.wf(),
                self.extends(old(self)),
                1 <= unique <= sample,
                unique <= size < u32::MAX,
                numerator == likelihood(size as nat, sample as nat, unique as nat),
                unique <= high_size,
                numerator <= denominator <= 10001 * SCALE,
                low_prob == mass(sample as nat, unique as nat, low_size as int),
                high_prob == mass(sample as nat, unique as nat, high_size as int),
                window(
                    sample as nat,
                    unique as nat,
                    THRESHOLD as nat,
                    numerator as nat,
                    numerator as nat,
                    size - 1,
                    size + 1,
                ) == window(
                    sample as nat,
                    unique as nat,
                    THRESHOLD as nat,
                    denominator as nat,
                    latest_prob as nat,
                    low_size as int,
                    high_size as int,
                ),
            decreases low_size + 0x1_0000_0000 - high_size,
        {
            let ghost before = *self;
            if low_prob > high_prob {
                latest_prob = low_prob;
                denominator += low_prob as u64;
                low_size -= 1;
                low_prob = if low_size < unique {
                    0
                } else {
                    self.prob_unique(low_size, sample, unique)?
                };
            } else {
                if high_size == u32::MAX {
                    assert(window(
                        sample as nat,
                        unique as nat,
                        THRESHOLD as nat,
                        denominator as nat,
                        latest_prob as nat,
                        low_size as int,
                        high_size as int,
                    ) == Err::<nat, PopProbError>(PopProbError::Generic));
                    return Err(PopProbError::Generic);
                }
                latest_prob = high_prob;
                denominator += high_prob as u64;
                high_size += 1;
                high_prob = self.prob_unique(high_size, sample, unique)?;
            }
            proof {
                self.lemma_extends_twice(&before, old(self));
            }
        }
        proof {
            let (lo, hi) = choose|lo: int, hi: int| #[trigger]
                settled_run(
                    sample as nat,
                    unique as nat,
                    THRESHOLD as nat,
                    size as int,
                    lo,
                    hi,
                    denominator as nat,
                );
            assert forall|bound: int| u32::MAX <= bound implies denominator <= #[trigger] run_sum(
                sample as nat,
                unique as nat,
                unique as int,
                bound,
            ) by {
                lemma_settled_run_at_most_all(
                    sample as nat,
                    unique as nat,
                    THRESHOLD as nat,
                    size as int,
                    lo,
                    hi,
                    denominator as nat,
                    bound,
                );
            }
        }
        Ok(Fraction { numerator: numerator as u64, denominator })
    }

    /// The probability, in parts of `SCALE` and rounded down, that exactly
    /// `unique` distinct elements show when `sample` elements are drawn
    /// with replacement from a population of `size` elements.
    pub fn prob_unique(&mut self, size: u32, sample: u32, unique: u32) -> (r: Result<
        u32,
        PopProbError,
    >)
        requires
            old(self).wf(),
        ensures
            final(self).wf(),
            final(self).extends(old(self)),
            match r {
                Ok(p) => valid(size as nat, sample as nat, unique as nat) && p == likelihood(
                    size as nat,
                    sample as nat,
                    unique as nat,
                ),
                Err(e) => !valid(size as nat, sample as nat, unique as nat) && e == rejection(
                    size,
                    sample,
                    unique,
                ),
            },
    {
        check(size, sample, unique)?;
        let numerator = {
            let snsk = self.snsk.calc(sample, unique)?;
            let fac = self.fac.fac(size);
            crate::biguint::mul(snsk, fac)
        };
        let denominator = {
            let pow = crate::biguint::pow(&crate::biguint::from_u32(size), sample);
            let fac = self.fac.fac(size - unique);
            crate::biguint::mul(&pow, fac)
        };
        proof {
            lemma_likelihood_at_most_one(size as nat, sample as nat, unique as nat);
        }
        let scaled = crate::biguint::div(&crate::biguint::mul_u32(&numerator, SCALE), &denominator);
        let parts = crate::biguint::to_u64(&scaled).unwrap();
        Ok(parts as u32)
    }
}

} // verus!
