//! The counting functions that the estimator is built on, as mathematics.

use vstd::arithmetic::power::lemma_pow_positive;
use vstd::arithmetic::power::pow;
use vstd::prelude::*;

verus! {

/// `n!`, the number of orderings of `n` items.
pub open spec fn factorial(n: nat) -> nat
    decreases n,
{
    if n == 0 {
        1
    } else {
        n * factorial((n - 1) as nat)
    }
}

/// The Stirling number of the second kind: the number of ways to split `n`
/// labelled items into `k` non-empty unlabelled groups. The last item either
/// forms a group of its own or joins one of the `k` groups of the others.
pub open spec fn stirling2(n: nat, k: nat) -> nat
    decreases n,
{
    if n == 0 {
        if k == 0 {
            1
        } else {
            0
        }
    } else if k == 0 {
        0
    } else {
        stirling2((n - 1) as nat, (k - 1) as nat) + k * stirling2((n - 1) as nat, k)
    }
}

/// The number of ways to pick `k` of `x` items in order, for `k <= x`.
pub open spec fn arrangements(x: nat, k: nat) -> nat
    recommends
        k <= x,
    decreases k,
{
    if k == 0 {
        1
    } else {
        arrangements(x, (k - 1) as nat) * ((x - k + 1) as nat)
    }
}

/// The number of sequences of `n` draws from `x` items that show exactly `k`
/// different items.
pub open spec fn draws_showing(x: nat, n: nat, k: nat) -> nat {
    stirling2(n, k) * arrangements(x, k)
}

/// The number of sequences of `n` draws from `x` items that show at most `k`
/// different items.
pub open spec fn draws_showing_up_to(x: nat, n: nat, k: nat) -> nat
    decreases k,
{
    if k == 0 {
        draws_showing(x, n, 0)
    } else {
        draws_showing_up_to(x, n, (k - 1) as nat) + draws_showing(x, n, k)
    }
}

/// The factorial starts at one and grows by the factor `n` at each step.
pub proof fn lemma_factorial_step(n: nat)
    ensures
        factorial(0) == 1,
        n >= 1 ==> factorial(n) == n * factorial((n - 1) as nat),
{
}

/// A factorial is never zero.
pub proof fn lemma_factorial_positive(n: nat)
    ensures
        factorial(n) >= 1,
    decreases n,
{
    if n > 0 {
        lemma_factorial_positive((n - 1) as nat);
        let rest = factorial((n - 1) as nat);
        assert(n * rest >= 1) by (nonlinear_arith)
            requires
                n >= 1,
                rest >= 1,
        ;
    }
}

/// Items cannot be split into more non-empty groups than there are items.
pub proof fn lemma_stirling2_too_many_groups(n: nat, k: nat)
    requires
        k > n,
    ensures
        stirling2(n, k) == 0,
    decreases n,
{
    if n > 0 {
        lemma_stirling2_too_many_groups((n - 1) as nat, (k - 1) as nat);
        lemma_stirling2_too_many_groups((n - 1) as nat, k);
        assert(k * 0 == 0);
    }
}

/// There is one way to put every item into a group of its own.
pub proof fn lemma_stirling2_singletons(n: nat)
    ensures
        stirling2(n, n) == 1,
    decreases n,
{
    if n > 0 {
        lemma_stirling2_singletons((n - 1) as nat);
        lemma_stirling2_too_many_groups((n - 1) as nat, n);
        assert(n * 0 == 0);
    }
}

/// There is one way to put one item or more into a single group.
pub proof fn lemma_stirling2_one_group(n: nat)
    requires
        n >= 1,
    ensures
        stirling2(n, 1) == 1,
    decreases n,
{
    let m = (n - 1) as nat;
    if n > 1 {
        lemma_stirling2_one_group(m);
        assert(stirling2(m, 0) == 0);
    } else {
        assert(stirling2(0, 0) == 1);
        assert(stirling2(0, 1) == 0);
    }
    assert(stirling2(n, 1) == stirling2(m, 0) + 1 * stirling2(m, 1));
}

/// One item or more cannot be split into no group at all.
pub proof fn lemma_stirling2_no_group(n: nat)
    requires
        n >= 1,
    ensures
        stirling2(n, 0) == 0,
{
}

/// Strictly inside the triangle, a Stirling number is the sum of its two
/// upper neighbours, the right one taken `k` times.
pub proof fn lemma_stirling2_recurrence(n: nat, k: nat)
    requires
        1 < k < n,
    ensures
        stirling2(n, k) == stirling2((n - 1) as nat, (k - 1) as nat) + k * stirling2(
            (n - 1) as nat,
            k,
        ),
{
}

/// Picking `k` items in order and then ordering the rest orders all of them.
pub proof fn lemma_arrangements_factorial(x: nat, k: nat)
    requires
        k <= x,
    ensures
        arrangements(x, k) * factorial((x - k) as nat) == factorial(x),
    decreases k,
{
    if k > 0 {
        lemma_arrangements_factorial(x, (k - 1) as nat);
        let a = arrangements(x, (k - 1) as nat);
        let step = (x - k + 1) as nat;
        let rest = factorial((x - k) as nat);
        assert(factorial(step) == step * rest);
        assert(arrangements(x, k) == a * step);
        assert((a * step) * rest == a * (step * rest)) by (nonlinear_arith);
    } else {
        assert(arrangements(x, 0) == 1);
        assert(1 * factorial(x) == factorial(x));
    }
}

/// Without a draw, no item shows, in exactly one way.
proof fn lemma_no_draws(x: nat, k: nat)
    ensures
        draws_showing_up_to(x, 0, k) == 1,
    decreases k,
{
    if k > 0 {
        lemma_no_draws(x, (k - 1) as nat);
        assert(0 * arrangements(x, k) == 0);
    } else {
        assert(1 * arrangements(x, 0) == 1);
    }
}

/// One more draw either shows a new item, one of those not yet shown, or
/// repeats one of the `k` shown.
proof fn lemma_one_more_draw(x: nat, n: nat, k: nat)
    requires
        1 <= k <= x,
    ensures
        draws_showing(x, n + 1, k) == draws_showing(x, n, (k - 1) as nat) * (x - k + 1) + k
            * draws_showing(x, n, k),
{
    let s_left = stirling2(n, (k - 1) as nat);
    let s_right = stirling2(n, k);
    let a_prev = arrangements(x, (k - 1) as nat);
    let step = (x - k + 1) as nat;
    assert(stirling2(n + 1, k) == s_left + k * s_right);
    assert(arrangements(x, k) == a_prev * step);
    assert((s_left + k * s_right) * (a_prev * step) == (s_left * a_prev) * step + k * (s_right * (
    a_prev * step))) by (nonlinear_arith);
}

/// Sequences of `n + 1` draws that show at most `k` items, counted by what
/// the first `n` draws show.
proof fn lemma_up_to_step(x: nat, n: nat, k: nat)
    requires
        k <= x,
    ensures
        k == 0 ==> draws_showing_up_to(x, n + 1, k) == 0,
        k >= 1 ==> draws_showing_up_to(x, n + 1, k) == x * draws_showing_up_to(
            x,
            n,
            (k - 1) as nat,
        ) + k * draws_showing(x, n, k),
    decreases k,
{
    if k == 0 {
        assert(0 * arrangements(x, 0) == 0);
    } else {
        lemma_up_to_step(x, n, (k - 1) as nat);
        lemma_one_more_draw(x, n, k);
        let g_prev = draws_showing(x, n, (k - 1) as nat);
        let g = draws_showing(x, n, k);
        if k == 1 {
            assert(g_prev * (x - 1 + 1) == x * g_prev) by (nonlinear_arith);
        } else {
            let h = draws_showing_up_to(x, n, (k - 2) as nat);
            assert(draws_showing_up_to(x, n, (k - 1) as nat) == h + g_prev);
            assert(x * h + (k - 1) * g_prev + g_prev * (x - k + 1) + k * g == x * (h + g_prev) + k
                * g) by (nonlinear_arith);
        }
    }
}

/// There are `x` to the `n` sequences of `n` draws from `x` items, so no
/// more than that show at most `k` different ones.
proof fn lemma_up_to_bound(x: nat, n: nat, k: nat)
    requires
        k <= x,
    ensures
        draws_showing_up_to(x, n, k) <= pow(x as int, n),
    decreases n,
{
    reveal(pow);
    if n == 0 {
        lemma_no_draws(x, k);
    } else {
        let m = (n - 1) as nat;
        lemma_up_to_step(x, m, k);
        if k >= 1 {
            lemma_up_to_bound(x, m, k);
            let h_prev = draws_showing_up_to(x, m, (k - 1) as nat);
            let g = draws_showing(x, m, k);
            let p = pow(x as int, m);
            assert(draws_showing_up_to(x, m, k) == h_prev + g);
            assert(x * h_prev + k * g <= x * p) by (nonlinear_arith)
                requires
                    h_prev + g <= p,
                    k <= x,
            ;
        } else {
            if x == 0 {
                assert(pow(0, n) == 0 * pow(0, m));
            } else {
                lemma_pow_positive(x as int, n);
            }
        }
    }
}

/// No more sequences of draws show exactly `k` items than there are
/// sequences.
pub proof fn lemma_draws_showing_bound(x: nat, n: nat, k: nat)
    requires
        k <= x,
    ensures
        draws_showing(x, n, k) <= pow(x as int, n),
{
    lemma_up_to_bound(x, n, k);
}

} // verus!
