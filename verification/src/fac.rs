//! A growing table of factorials.

use crate::biguint::value_of;
use crate::combinatorics::factorial;
use num_bigint::BigUint;
use std::collections::HashMap;
use vstd::prelude::*;

verus! {

broadcast use vstd::std_specs::hash::group_hash_axioms;

/// Factorials computed so far, each kept for the lifetime of the table.
pub struct Fac {
    map: HashMap<u32, BigUint>,
}

impl View for Fac {
    type V = Map<u32, nat>;

    /// The arguments answered so far, each with the value held for it.
    closed spec fn view(&self) -> Map<u32, nat> {
        Map::new(|n: u32| self.map@.contains_key(n), |n: u32| value_of(self.map@[n]))
    }
}

impl Fac {
    /// Zero is always present, and every entry holds the factorial of its key.
    pub open spec fn wf(&self) -> bool {
        &&& self@.contains_key(0)
        &&& forall|n: u32| #[trigger] self@.contains_key(n) ==> self@[n] == factorial(n as nat)
    }

    /// A table that holds the factorial of zero and nothing else.
    pub fn new() -> (r: Self)
        ensures
            r.wf(),
            r@ == Map::<u32, nat>::empty().insert(0, 1),
    {
        let mut map: HashMap<u32, BigUint> = HashMap::new();
        map.insert(0, crate::biguint::one());
        let r = Self { map };
        assert(r@ =~= Map::<u32, nat>::empty().insert(0, 1));
        r
    }

    /// The factorial of `n`. Where the table lacks it, it is multiplied up
    /// from the largest entry below `n` and kept; a repeated query changes
    /// nothing.
    pub fn fac(&mut self, n: u32) -> (r: &BigUint)
        requires
            old(self).wf(),
        ensures
            final(self).wf(),
            value_of(*r) == factorial(n as nat),
            final(self)@ == old(self)@.insert(n, factorial(n as nat)),
            old(self)@.contains_key(n) ==> final(self)@ == old(self)@,
    {
        if !self.map.contains_key(&n) {
            let mut fac = crate::biguint::from_u32(n);
            let mut m: u32 = n - 1;
            while !self.map.contains_key(&m)
                invariant
                    self.wf(),
                    m < n,
                    value_of(fac) * factorial(m as nat) == factorial(n as nat),
                decreases m,
            {
                proof {
                    assert(self@.contains_key(0));
                    let f = value_of(fac);
                    let rest = factorial((m - 1) as nat);
                    assert(f * (m * rest) == (f * m) * rest) by (nonlinear_arith);
                }
                fac = crate::biguint::mul_u32(&fac, m);
                m -= 1;
            }
            let cached = self.map.get(&m).unwrap();
            proof {
                assert(self@.contains_key(m));
                assert(value_of(*cached) == self@[m]);
            }
            fac = crate::biguint::mul(&fac, cached);
            self.map.insert(n, fac);
        }
        proof {
            assert(self@.contains_key(n));
            assert(self@ =~= old(self)@.insert(n, factorial(n as nat)));
        }
        self.map.get(&n).unwrap()
    }
}

} // verus!
