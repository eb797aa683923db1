//! Stepping round a fixed list, as ← and → do through the kinds of a body or
//! an auth, wrapping at either end.

use vstd::prelude::*;

verus! {

/// The position `delta` steps from `position` in a list of `n`, wrapping.
pub fn step(position: usize, n: usize, delta: isize) -> (r: usize)
    requires
        0 < n <= 64,
        position < n,
    ensures
        r < n,
        r as int == (position as int + delta as int) % (n as int),
{
    let m = n as isize;
    let shift: isize = if delta >= 0 {
        delta % m
    } else {
        m - 1 - ((-(delta + 1)) % m)
    };
    proof {
        let d = delta as int;
        let mi = m as int;
        if d >= 0 {
            assert(shift as int == d % mi);
        } else {
            let q = (-(d + 1)) % mi;
            assert(0 <= q < mi) by (nonlinear_arith) requires mi > 0, q == (-(d + 1)) % mi;
            assert((mi - 1 - q) % mi == d % mi) by (nonlinear_arith)
                requires
                    mi > 0,
                    d < 0,
                    q == (-(d + 1)) % mi,
            {
                let k = (-(d + 1)) / mi;
                assert(-(d + 1) == k * mi + q);
                assert(d == -(k * mi) - q - 1);
                assert(mi - 1 - q == d + (k + 1) * mi);
                vstd::arithmetic::div_mod::lemma_mod_multiples_vanish(k + 1, d, mi);
            }
        }
    }
    let sum = position as isize + shift;
    proof {
        let d = delta as int;
        let mi = m as int;
        let p = position as int;
        assert(0 <= shift < mi) by (nonlinear_arith)
            requires
                mi > 0,
                shift as int == (if d >= 0 { d % mi } else { mi - 1 - ((-(d + 1)) % mi) }),
        ;
        vstd::arithmetic::div_mod::lemma_add_mod_noop(p, d, mi);
        vstd::arithmetic::div_mod::lemma_add_mod_noop(p, shift as int, mi);
        vstd::arithmetic::div_mod::lemma_small_mod(p as nat, mi as nat);
        vstd::arithmetic::div_mod::lemma_mod_twice(shift as int, mi);
    }
    let r = (sum % m) as usize;
    r
}

/// `target` taken round a list of `n`: its Euclidean remainder.
pub fn wrap(target: i128, n: usize) -> (r: usize)
    requires
        n > 0,
    ensures
        r < n,
        r as int == target as int % n as int,
{
    let m = n as i128;
    let r: i128 = if target >= 0 {
        target % m
    } else {
        m - 1 - ((-(target + 1)) % m)
    };
    proof {
        let d = target as int;
        let mi = m as int;
        if d >= 0 {
            assert(0 <= d % mi < mi) by (nonlinear_arith) requires mi > 0;
        } else {
            let q = (-(d + 1)) % mi;
            assert(0 <= q < mi) by (nonlinear_arith) requires mi > 0, q == (-(d + 1)) % mi;
            assert((mi - 1 - q) == d % mi) by (nonlinear_arith)
                requires
                    mi > 0,
                    d < 0,
                    q == (-(d + 1)) % mi,
                    0 <= q < mi,
            {
                let k = (-(d + 1)) / mi;
                assert(-(d + 1) == k * mi + q);
                assert(mi - 1 - q == d + (k + 1) * mi);
                vstd::arithmetic::div_mod::lemma_mod_multiples_vanish(k + 1, d, mi);
                vstd::arithmetic::div_mod::lemma_small_mod((mi - 1 - q) as nat, mi as nat);
            }
        }
    }
    r as usize
}

/// Stepping `delta` round a list of `n` and then `delta` back lands where it
/// started.
pub proof fn lemma_step_back(p: int, delta: int, n: int)
    requires
        0 <= p < n,
    ensures
        0 <= (p + delta) % n < n,
        ((p + delta) % n - delta) % n == p,
{
    let q = (p + delta) / n;
    vstd::arithmetic::div_mod::lemma_fundamental_div_mod(p + delta, n);
    vstd::arithmetic::div_mod::lemma_mod_bound(p + delta, n);
    assert((p + delta) % n - delta == p + (-q) * n) by (nonlinear_arith)
        requires
            p + delta == n * q + (p + delta) % n;
    vstd::arithmetic::div_mod::lemma_mod_multiples_vanish(-q, p, n);
    vstd::arithmetic::div_mod::lemma_small_mod(p as nat, n as nat);
}

} // verus!
