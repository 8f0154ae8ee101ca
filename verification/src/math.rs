use vstd::prelude::*;

verus! {

/// The number of ownership units in the pool.
pub const TOTAL_SHARES: i128 = 10000;

/// The highest commission rate that can be set, in basis points.
pub const MAX_COMMISSION_BPS: i128 = 5000;

/// What `parts` ten-thousandths of `amount` come to, rounded down.
pub open spec fn portion(amount: int, parts: int) -> int {
    (amount * parts) / 10000
}

/// A portion of an amount is not negative and not more than the amount.
pub proof fn lemma_portion_bounds(amount: int, parts: int)
    requires
        0 <= amount,
        0 <= parts <= 10000,
    ensures
        0 <= portion(amount, parts) <= amount,
        10000 * portion(amount, parts) <= amount * parts,
        amount * parts < 10000 * portion(amount, parts) + 10000,
{
    assert(0 <= amount * parts <= amount * 10000) by (nonlinear_arith)
        requires
            0 <= amount,
            0 <= parts <= 10000,
    ;
    let p = amount * parts;
    assert(0 <= p / 10000 <= amount && 10000 * (p / 10000) <= p < 10000 * (p / 10000) + 10000)
        by (nonlinear_arith)
        requires
            0 <= p <= amount * 10000,
    ;
}

/// `parts` ten-thousandths of `amount`, rounded down, computed without
/// leaving the integer type on the way.
pub fn mul_div(amount: i128, parts: i128) -> (r: i128)
    requires
        0 <= amount,
        0 <= parts <= 10000,
    ensures
        r == portion(amount as int, parts as int),
        0 <= r <= amount,
{
    let whole: i128 = amount / 10000;
    let rest: i128 = amount % 10000;
    proof {
        let a = amount as int;
        let p = parts as int;
        let q = a / 10000;
        let s = a % 10000;
        assert(a == 10000 * q + s && 0 <= s < 10000 && 0 <= q <= a) by (nonlinear_arith)
            requires
                0 <= a,
                q == a / 10000,
                s == a % 10000,
        ;
        assert(0 <= q * p <= a && 0 <= s * p <= 100000000) by (nonlinear_arith)
            requires
                0 <= q,
                10000 * q <= a,
                0 <= s < 10000,
                0 <= p <= 10000,
        ;
        assert((a * p) / 10000 == q * p + (s * p) / 10000) by (nonlinear_arith)
            requires
                a == 10000 * q + s,
        ;
        lemma_portion_bounds(a, p);
    }
    whole * parts + (rest * parts) / 10000
}

} // verus!
