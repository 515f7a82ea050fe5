//! Mirroring of coordinates at the edges of an image.

use vstd::arithmetic::div_mod::{
    lemma_fundamental_div_mod, lemma_fundamental_div_mod_converse, lemma_mod_bound,
    lemma_mod_multiples_vanish, lemma_small_mod,
};
use vstd::prelude::*;

verus! {

/// The coordinate in `0..n` that `i` mirrors to. The mirror stands on the first
/// and on the last sample, so neither is repeated: `dcb|abcd|cba`.
pub open spec fn mirrored(i: int, n: int) -> int {
    if n == 1 {
        0
    } else {
        let period = 2 * (n - 1);
        if i % period >= n {
            period - i % period
        } else {
            i % period
        }
    }
}

/// A mirrored coordinate lies in the image.
pub proof fn law_mirror_stays_inside(i: int, n: int)
    requires
        1 <= n,
    ensures
        0 <= mirrored(i, n) < n,
{
    if n > 1 {
        lemma_mod_bound(i, 2 * (n - 1));
    }
}

/// Coordinates of the image are left as they are.
pub proof fn law_mirror_keeps_the_image(i: int, n: int)
    requires
        0 <= i < n,
    ensures
        mirrored(i, n) == i,
{
    if n > 1 {
        lemma_small_mod(i as nat, (2 * (n - 1)) as nat);
    }
}

/// The image goes on to the left of its first sample as to the right of it.
pub proof fn law_mirror_at_the_first_sample(i: int, n: int)
    requires
        1 <= n,
    ensures
        mirrored(-i, n) == mirrored(i, n),
{
    if n > 1 {
        let p = 2 * (n - 1);
        lemma_fundamental_div_mod(i, p);
        lemma_mod_bound(i, p);
        let (q, r) = (i / p, i % p);
        if r == 0 {
            assert(-i == (-q) * p + 0) by (nonlinear_arith)
                requires
                    i == p * q + r,
                    r == 0,
            ;
            lemma_fundamental_div_mod_converse(-i, p, -q, 0);
        } else {
            assert(-i == (-q - 1) * p + (p - r)) by (nonlinear_arith)
                requires
                    i == p * q + r,
            ;
            lemma_fundamental_div_mod_converse(-i, p, -q - 1, p - r);
        }
    }
}

/// The image goes on to the right of its last sample as to the left of it.
pub proof fn law_mirror_at_the_last_sample(i: int, n: int)
    requires
        1 <= n,
    ensures
        mirrored(n - 1 + i, n) == mirrored(n - 1 - i, n),
{
    if n > 1 {
        let p = 2 * (n - 1);
        law_mirror_at_the_first_sample(n - 1 + i, n);
        // The two coordinates are one period apart.
        let a = -(n - 1 + i);
        lemma_mod_multiples_vanish(1, a, p);
        assert(p * 1 + a == n - 1 - i);
    }
}

/// The coordinate in `0..n` that `i` mirrors to.
pub fn reflect_101(i: i32, n: i32) -> (r: i32)
    requires
        1 <= n <= 0x4000_0000,
    ensures
        r == mirrored(i as int, n as int),
        0 <= r < n,
{
    if n == 1 {
        return 0;
    }
    proof {
        law_mirror_stays_inside(i as int, n as int);
        lemma_mod_bound(i as int, 2 * (n - 1));
    }
    let period: i32 = 2 * (n - 1);
    let r: i32 = if i >= 0 {
        i % period
    } else {
        let m: i32 = (-(i + 1)) % period;
        proof {
            let p = period as int;
            let q = (-(i + 1)) / p;
            lemma_fundamental_div_mod(-(i + 1), p);
            assert(i == (-q - 1) * p + (p - 1 - m)) by (nonlinear_arith)
                requires
                    -(i + 1) == p * q + m,
            ;
            lemma_fundamental_div_mod_converse(i as int, p, -q - 1, p - 1 - m);
        }
        period - 1 - m
    };
    if r >= n {
        period - r
    } else {
        r
    }
}

} // verus!
