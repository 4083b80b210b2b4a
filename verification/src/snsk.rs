//! A growing table of Stirling numbers of the second kind.

use crate::biguint::value_of;
use crate::combinatorics::lemma_stirling2_one_group;
use crate::combinatorics::lemma_stirling2_singletons;
use crate::combinatorics::stirling2;
use crate::pop_prob_error::PopProbError;
use num_bigint::BigUint;
use std::collections::HashMap;
use vstd::prelude::*;

verus! {

broadcast use vstd::std_specs::hash::group_hash_axioms;

/// The integer under which the table keeps the pair `(n, k)`.
pub closed spec fn slot(n: u32, k: u32) -> u64 {
    (n * 0x1_0000_0000 + k) as u64
}

fn slot_of(n: u32, k: u32) -> (r: u64)
    ensures
        r == slot(n, k),
{
    (n as u64) * 0x1_0000_0000 + (k as u64)
}

/// Whether `(m, j)` lies strictly inside the triangle and the recurrence
/// reaches it on the way down from `(n, k)`.
pub open spec fn needed(n: u32, k: u32, m: u32, j: u32) -> bool {
    &&& 1 < j < m
    &&& j <= k
    &&& m - j <= n - k
}

/// The needed pairs that come before `(row, column)`, row by row.
pub open spec fn reached(n: u32, k: u32, row: int, column: int, m: u32, j: u32) -> bool {
    needed(n, k, m, j) && (m < row || (m == row && j < column))
}

/// The table `cache` with a Stirling number filled in at every pair that it
/// lacks and that the recurrence needs for `(n, k)`, up to `(row, column)`.
pub open spec fn filled(cache: Map<(u32, u32), nat>, n: u32, k: u32, row: int, column: int) -> Map<
    (u32, u32),
    nat,
> {
    Map::new(
        |p: (u32, u32)| cache.contains_key(p) || reached(n, k, row, column, p.0, p.1),
        |p: (u32, u32)|
            if cache.contains_key(p) {
                cache[p]
            } else {
                stirling2(p.0 as nat, p.1 as nat)
            },
    )
}

/// Stirling numbers computed so far, each kept for the lifetime of the table.
pub struct Snsk {
    map: HashMap<u64, BigUint>,
}

impl View for Snsk {
    type V = Map<(u32, u32), nat>;

    /// The pairs `(n, k)` stored so far, each with the value held for it.
    closed spec fn view(&self) -> Map<(u32, u32), nat> {
        Map::new(
            |p: (u32, u32)| self.map@.contains_key(slot(p.0, p.1)),
            |p: (u32, u32)| value_of(self.map@[slot(p.0, p.1)]),
        )
    }
}

impl Snsk {
    /// The two constants are present, and every entry lies in the triangle
    /// and holds the Stirling number of its pair.
    pub open spec fn wf(&self) -> bool {
        &&& self@.contains_key((0u32, 0u32))
        &&& self@.contains_key((1u32, 0u32))
        &&& forall|n: u32, k: u32| #[trigger]
            self@.contains_key((n, k)) ==> k <= n && self@[(n, k)] == stirling2(n as nat, k as nat)
    }

    /// Whether `(n, k)` can be answered without computing anything: it lies
    /// on the border of the triangle or is stored.
    pub open spec fn known(&self, n: u32, k: u32) -> bool {
        k == 0 || k == 1 || k == n || self@.contains_key((n, k))
    }

    /// What the table holds after a query for `(n, k)`.
    pub open spec fn after_calc(&self, n: u32, k: u32) -> Map<(u32, u32), nat> {
        if k > n || self.known(n, k) {
            self@
        } else {
            filled(self@, n, k, n + 1, 0)
        }
    }

    /// A table that holds the constants one and zero, under `(0, 0)` and
    /// `(1, 0)`, and nothing else.
    pub fn new() -> (r: Self)
        ensures
            r.wf(),
            r@ == Map::<(u32, u32), nat>::empty().insert((0u32, 0u32), 1).insert((1u32, 0u32), 0),
    {
        let mut map: HashMap<u64, BigUint> = HashMap::new();
        map.insert(slot_of(0, 0), crate::biguint::one());
        map.insert(slot_of(1, 0), crate::biguint::zero());
        let r = Self { map };
        proof {
            assert(r@ =~= Map::<(u32, u32), nat>::empty().insert((0u32, 0u32), 1).insert(
                (1u32, 0u32),
                0,
            ));
            assert(stirling2(0, 0) == 1);
            assert(stirling2(1, 0) == 0);
        }
        r
    }

    /// The Stirling number of the second kind for `n` items and `k` groups,
    /// refused where `k` exceeds `n`. A repeated query changes nothing.
    pub fn calc(&mut self, n: u32, k: u32) -> (r: Result<&BigUint, PopProbError>)
        requires
            old(self).wf(),
        ensures
            final(self).wf(),
            match r {
                Ok(v) => k <= n && value_of(*v) == stirling2(n as nat, k as nat),
                Err(e) => k > n && e == PopProbError::SnskKGreaterThanN((k, n)),
            },
            final(self)@ == old(self).after_calc(n, k),
            old(self)@.submap_of(final(self)@),
            k > n || old(self).known(n, k) ==> final(self)@ == old(self)@,
    {
        if k > n {
            Err(PopProbError::SnskKGreaterThanN((k, n)))
        } else {
            self.store(n, k);
            let found = self.get(n, k);
            Ok(found.unwrap())
        }
    }

    /// Fills in, row by row, every pair that the recurrence needs for
    /// `(n, k)` and that the table lacks.
    fn store(&mut self, n: u32, k: u32)
        requires
            old(self).wf(),
            k <= n,
        ensures
            final(self).wf(),
            final(self).known(n, k),
            final(self)@ == old(self).after_calc(n, k),
            old(self)@.submap_of(final(self)@),
    {
        if self.get(n, k).is_none() {
            let slack: u32 = n - k;
            let mut m: u32 = 2;
            assert(self@ =~= filled(old(self)@, n, k, m + 1, 0));
            while m < n
                invariant
                    self.wf(),
                    old(self).wf(),
                    1 < k < n,
                    slack == n - k,
                    2 <= m <= n,
                    self@ == filled(old(self)@, n, k, m + 1, 0),
                decreases n - m,
            {
                m = m + 1;
                let low: u32 = if m - 2 > slack {
                    m - slack
                } else {
                    2
                };
                let high: u32 = if k < m - 1 {
                    k
                } else {
                    m - 1
                };
                let mut j: u32 = low;
                assert(self@ =~= filled(old(self)@, n, k, m as int, j as int));
                while j <= high
                    invariant
                        self.wf(),
                        old(self).wf(),
                        1 < k < n,
                        slack == n - k,
                        2 < m <= n,
                        low == if m - 2 > slack {
                            (m - slack) as u32
                        } else {
                            2u32
                        },
                        high == if k < m - 1 {
                            k
                        } else {
                            (m - 1) as u32
                        },
                        low <= j,
                        j <= high + 1 || low > high,
                        self@ == filled(old(self)@, n, k, m as int, j as int),
                    decreases high + 1 - j,
                {
                    let key = slot_of(m, j);
                    let ghost before = self@;
                    assert(needed(n, k, m, j));
                    if !self.map.contains_key(&key) {
                        proof {
                            if j - 1 > 1 {
                                assert(reached(n, k, m as int, j as int, (m - 1) as u32, (j - 1) as u32));
                                assert(self@.contains_key(((m - 1) as u32, (j - 1) as u32)));
                            }
                            if j < m - 1 {
                                assert(reached(n, k, m as int, j as int, (m - 1) as u32, j));
                                assert(self@.contains_key(((m - 1) as u32, j)));
                            }
                        }
                        let left = self.get(m - 1, j - 1).unwrap();
                        let right = self.get(m - 1, j).unwrap();
                        let value = crate::biguint::add(left, &crate::biguint::mul_u32(right, j));
                        assert(value_of(value) == stirling2(m as nat, j as nat)) by {
                            assert(value_of(*right) * j == j * stirling2((m - 1) as nat, j as nat))
                                by (nonlinear_arith)
                                requires
                                    value_of(*right) == stirling2((m - 1) as nat, j as nat),
                            ;
                        }
                        self.map.insert(key, value);
                        assert(self@ =~= before.insert((m, j), stirling2(m as nat, j as nat)));
                    } else {
                        assert(before.contains_key((m, j)));
                        assert(!reached(n, k, m as int, j as int, m, j));
                    }
                    assert(self@.contains_key((m, j)));
                    assert(self@ =~= filled(old(self)@, n, k, m as int, j + 1));
                    j = j + 1;
                }
                assert(self@ =~= filled(old(self)@, n, k, m + 1, 0));
            }
            assert(self@.contains_key((n, k))) by {
                assert(reached(n, k, n + 1, 0, n, k));
            }
        }
    }

    /// The value for `(n, k)` where it lies on the border of the triangle or
    /// is stored.
    fn get(&self, n: u32, k: u32) -> (r: Option<&BigUint>)
        requires
            self.wf(),
            k <= n,
        ensures
            match r {
                Some(v) => self.known(n, k) && value_of(*v) == stirling2(n as nat, k as nat),
                None => !self.known(n, k),
            },
    {
        if k == 1 || k == n {
            proof {
                assert(self@.contains_key((0u32, 0u32)));
                assert(stirling2(0, 0) == 1);
                if k == n {
                    lemma_stirling2_singletons(n as nat);
                } else {
                    lemma_stirling2_one_group(n as nat);
                }
            }
            self.map.get(&slot_of(0, 0))
        } else if k == 0 {
            proof {
                assert(self@.contains_key((1u32, 0u32)));
                assert(stirling2(1, 0) == 0);
            }
            self.map.get(&slot_of(1, 0))
        } else {
            let r = self.map.get(&slot_of(n, k));
            proof {
                if r.is_some() {
                    assert(self@.contains_key((n, k)));
                }
            }
            r
        }
    }
}

} // verus!
