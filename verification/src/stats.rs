//! Integer statistics for the band computation: exact sums, squared
//! deviations, and floor square roots, all with contracts that pin the
//! result down as a function of the input sequence.

use vstd::prelude::*;
use vstd::arithmetic::div_mod::{lemma_fundamental_div_mod, lemma_fundamental_div_mod_converse, lemma_mod_bound};

verus! {

/// Sum of a sequence of fixed-point prices, as an unbounded integer.
pub open spec fn sum_seq(s: Seq<i64>) -> int
    decreases s.len(),
{
    if s.len() == 0 {
        0
    } else {
        sum_seq(s.drop_last()) + s.last() as int
    }
}

/// Sum of the squared deviations `(n * s[i] - total)^2`. With
/// `total == sum_seq(s)` and `n == s.len()`, this equals `n^2 * (n - 1)`
/// times the sample variance of `s`, without any rounding.
pub open spec fn dev_sq_seq(s: Seq<i64>, total: int, n: int) -> int
    decreases s.len(),
{
    if s.len() == 0 {
        0
    } else {
        dev_sq_seq(s.drop_last(), total, n) + (n * s.last() as int - total) * (n * s.last()
            as int - total)
    }
}

/// `r` is the floor of the (real) square root of `x`.
pub open spec fn is_sqrt_floor(r: int, x: int) -> bool {
    0 <= r && r * r <= x && x < (r + 1) * (r + 1)
}

/// The floor square root is unique.
pub proof fn lemma_sqrt_floor_unique(r1: int, r2: int, x: int)
    requires
        is_sqrt_floor(r1, x),
        is_sqrt_floor(r2, x),
    ensures
        r1 == r2,
{
    assert(r1 == r2) by (nonlinear_arith)
        requires
            0 <= r1 && r1 * r1 <= x && x < (r1 + 1) * (r1 + 1),
            0 <= r2 && r2 * r2 <= x && x < (r2 + 1) * (r2 + 1),
    ;
}

/// Every nonnegative integer has a floor square root.
pub proof fn lemma_sqrt_floor_exists(x: int)
    requires
        0 <= x,
    ensures
        exists|r: int| #[trigger] is_sqrt_floor(r, x),
    decreases x,
{
    if x == 0 {
        assert(is_sqrt_floor(0, 0)) by (nonlinear_arith);
    } else {
        lemma_sqrt_floor_exists(x - 1);
        let r = choose|r: int| #[trigger] is_sqrt_floor(r, x - 1);
        if (r + 1) * (r + 1) <= x {
            assert(is_sqrt_floor(r + 1, x)) by (nonlinear_arith)
                requires
                    0 <= r && r * r <= x - 1 && x - 1 < (r + 1) * (r + 1) && (r + 1) * (r + 1)
                        <= x,
            ;
        } else {
            assert(is_sqrt_floor(r, x));
        }
    }
}

/// A sequence whose entries all lie in `[-bound, bound]` has a sum in
/// `[-len * bound, len * bound]`.
pub proof fn lemma_sum_seq_bound(s: Seq<i64>, bound: int)
    requires
        forall|i: int| 0 <= i < s.len() ==> -bound <= (#[trigger] s[i]) as int <= bound,
    ensures
        -(s.len() as int * bound) <= sum_seq(s) <= s.len() as int * bound,
    decreases s.len(),
{
    if s.len() == 0 {
    } else {
        let t = s.drop_last();
        assert(forall|i: int| 0 <= i < t.len() ==> -bound <= (#[trigger] t[i]) as int <= bound);
        lemma_sum_seq_bound(t, bound);
        assert(s.len() as int * bound == t.len() as int * bound + bound) by (nonlinear_arith)
            requires
                s.len() == t.len() + 1,
        ;
    }
}

/// A sequence of equal entries sums to `len * c`.
pub proof fn lemma_sum_seq_const(s: Seq<i64>, c: int)
    requires
        forall|i: int| 0 <= i < s.len() ==> (#[trigger] s[i]) as int == c,
    ensures
        sum_seq(s) == s.len() as int * c,
    decreases s.len(),
{
    if s.len() == 0 {
    } else {
        let t = s.drop_last();
        lemma_sum_seq_const(t, c);
        assert(s.len() as int * c == t.len() as int * c + c) by (nonlinear_arith)
            requires
                s.len() == t.len() + 1,
        ;
    }
}

/// The squared-deviation sum is never negative.
pub proof fn lemma_dev_sq_seq_nonneg(s: Seq<i64>, total: int, n: int)
    ensures
        0 <= dev_sq_seq(s, total, n),
    decreases s.len(),
{
    if s.len() == 0 {
    } else {
        lemma_dev_sq_seq_nonneg(s.drop_last(), total, n);
        let d = n * s.last() as int - total;
        assert(0 <= d * d) by (nonlinear_arith);
    }
}

/// A window of equal entries has no deviation from its own total.
pub proof fn lemma_dev_sq_seq_const(s: Seq<i64>, c: int, total: int, n: int)
    requires
        forall|i: int| 0 <= i < s.len() ==> (#[trigger] s[i]) as int == c,
        total == n * c,
    ensures
        dev_sq_seq(s, total, n) == 0,
    decreases s.len(),
{
    if s.len() == 0 {
    } else {
        let t = s.drop_last();
        lemma_dev_sq_seq_const(t, c, total, n);
        assert(n * s.last() as int - total == 0);
    }
}

/// Floor square root by binary search.
pub fn isqrt(x: u128) -> (r: u64)
    requires
        x < 0x1000000000000000000000000000000,
    ensures
        is_sqrt_floor(r as int, x as int),
{
    let mut lo: u64 = 0;
    let mut hi: u64 = 0x1000000000000000;
    proof {
        assert((hi as int) * (hi as int) == 0x1000000000000000000000000000000) by (nonlinear_arith)
            requires
                hi == 0x1000000000000000,
        ;
    }
    while lo + 1 < hi
        invariant
            lo < hi,
            hi <= 0x1000000000000000,
            (lo as int) * (lo as int) <= x as int,
            (x as int) < (hi as int) * (hi as int),
        decreases hi - lo,
    {
        let mid: u64 = lo + (hi - lo) / 2;
        proof {
            assert((mid as int) * (mid as int) < 0x1000000000000000000000000000000)
                by (nonlinear_arith)
                requires
                    mid < 0x1000000000000000,
            ;
        }
        let sq: u128 = (mid as u128) * (mid as u128);
        if sq <= x {
            lo = mid;
        } else {
            hi = mid;
        }
    }
    lo
}

/// Floor division of `a` by a positive `b` (rounding toward negative
/// infinity, matching mathematical integer division).
pub fn floor_div_i128(a: i128, b: i128) -> (q: i128)
    requires
        0 < b,
        i128::MIN < a,
    ensures
        q == a as int / b as int,
{
    if a >= 0 {
        let au: u128 = a as u128;
        let bu: u128 = b as u128;
        let qu: u128 = au / bu;
        let ru: u128 = au % bu;
        proof {
            lemma_fundamental_div_mod(au as int, bu as int);
            lemma_mod_bound(au as int, bu as int);
            assert(a as int == qu as int * b as int + ru as int) by (nonlinear_arith)
                requires
                    au as int == bu as int * (au as int / bu as int) + au as int % bu as int,
                    qu as int == au as int / bu as int,
                    ru as int == au as int % bu as int,
                    au == a,
                    bu == b,
            ;
            lemma_fundamental_div_mod_converse(a as int, b as int, qu as int, ru as int);
        }
        qu as i128
    } else {
        let au: u128 = (-a) as u128;
        let bu: u128 = b as u128;
        let qu: u128 = au / bu;
        let ru: u128 = au % bu;
        proof {
            lemma_fundamental_div_mod(au as int, bu as int);
            lemma_mod_bound(au as int, bu as int);
            assert(au as int == qu as int * bu as int + ru as int) by (nonlinear_arith)
                requires
                    au as int == bu as int * (au as int / bu as int) + au as int % bu as int,
                    qu as int == au as int / bu as int,
                    ru as int == au as int % bu as int,
            ;
        }
        if ru == 0 {
            proof {
                assert(a as int == (-(qu as int)) * b as int + 0) by (nonlinear_arith)
                    requires
                        au as int == qu as int * bu as int + ru as int,
                        ru == 0,
                        au as int == -(a as int),
                        bu == b,
                ;
                lemma_fundamental_div_mod_converse(a as int, b as int, -(qu as int), 0);
            }
            -(qu as i128)
        } else {
            proof {
                assert(a as int == (-(qu as int) - 1) * b as int + (b as int - ru as int))
                    by (nonlinear_arith)
                    requires
                        au as int == qu as int * bu as int + ru as int,
                        au as int == -(a as int),
                        bu == b,
                ;
                lemma_fundamental_div_mod_converse(
                    a as int,
                    b as int,
                    -(qu as int) - 1,
                    b as int - ru as int,
                );
            }
            -(qu as i128) - 1
        }
    }
}

} // verus!
