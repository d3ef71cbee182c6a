use vstd::arithmetic::div_mod::{lemma_fundamental_div_mod, lemma_mod_bound};
use vstd::prelude::*;

verus! {

/// Basis points in one whole: the fee is charged out of this many parts.
pub const FEE_DENOMINATOR: u128 = 10000;

/// `r` is the integer square root of `x`: the largest `r` with `r * r <= x`.
pub open spec fn is_floor_sqrt(x: nat, r: nat) -> bool {
    r * r <= x && x < (r + 1) * (r + 1)
}

/// The integer square root of `x`.
pub open spec fn floor_sqrt(x: nat) -> nat {
    choose|r: nat| is_floor_sqrt(x, r)
}

/// The output a swap pays for `amount_in`, floored:
/// `reserve_out * a / (reserve_in * 10000 + a)` with `a = amount_in * (10000 - fee)`.
/// With nothing on either side of the denominator the output is zero.
pub open spec fn quote(amount_in: nat, reserve_in: nat, reserve_out: nat, fee: nat) -> nat {
    let a = amount_in * (FEE_DENOMINATOR - fee);
    let den = reserve_in * FEE_DENOMINATOR + a;
    if den == 0 {
        0
    } else {
        ((reserve_out * a) / den) as nat
    }
}

/// Floor division brackets its quotient: `q * d <= x < q * d + d`.
pub proof fn lemma_floor_div(x: int, d: int)
    requires
        x >= 0,
        d > 0,
    ensures
        (x / d) * d <= x < (x / d) * d + d,
        x / d >= 0,
{
    lemma_fundamental_div_mod(x, d);
    lemma_mod_bound(x, d);
    assert(d * (x / d) == (x / d) * d) by (nonlinear_arith);
    assert(x / d >= 0) by (nonlinear_arith)
        requires
            x >= 0,
            d > 0,
            x == (x / d) * d + x % d,
            0 <= x % d < d,
    ;
}

/// The integer square root is unique.
pub proof fn lemma_floor_sqrt_unique(x: nat, r: nat, s: nat)
    requires
        is_floor_sqrt(x, r),
        is_floor_sqrt(x, s),
    ensures
        r == s,
{
    if r < s {
        assert((r + 1) * (r + 1) <= s * s) by (nonlinear_arith)
            requires
                r + 1 <= s,
        ;
    } else if s < r {
        assert((s + 1) * (s + 1) <= r * r) by (nonlinear_arith)
            requires
                s + 1 <= r,
        ;
    }
}

/// On a perfect square the integer square root is exact.
pub proof fn lemma_sqrt_of_square(k: nat)
    ensures
        floor_sqrt(k * k) == k,
{
    assert(k * k < (k + 1) * (k + 1)) by (nonlinear_arith);
    assert(is_floor_sqrt(k * k, k));
    lemma_floor_sqrt_unique(k * k, floor_sqrt(k * k), k);
}

/// The floored quote never exceeds the exact real-valued quote, and misses it
/// by less than one unit.
pub proof fn lemma_quote_rounds_down(amount_in: nat, reserve_in: nat, reserve_out: nat, fee: nat)
    requires
        fee <= FEE_DENOMINATOR,
        reserve_in * FEE_DENOMINATOR + amount_in * (FEE_DENOMINATOR - fee) > 0,
    ensures
        ({
            let a = amount_in * (FEE_DENOMINATOR - fee);
            let den = reserve_in * FEE_DENOMINATOR + a;
            let q = quote(amount_in, reserve_in, reserve_out, fee);
            q * den <= reserve_out * a < q * den + den
        }),
{
    let a = amount_in * (FEE_DENOMINATOR - fee);
    let den = reserve_in * FEE_DENOMINATOR + a;
    lemma_floor_div(reserve_out * a, den);
}

/// Integer square root: the largest `r` with `r * r <= x`, found by bisection
/// over `[0, 2^64)`, which takes at most 64 steps.
pub fn integer_sqrt(x: u128) -> (r: u128)
    ensures
        is_floor_sqrt(x as nat, r as nat),
        r == floor_sqrt(x as nat),
        r < 0x1_0000_0000_0000_0000,
{
    let mut lo: u128 = 0;
    let mut hi: u128 = 0x1_0000_0000_0000_0000;
    assert(hi * hi > u128::MAX) by (nonlinear_arith)
        requires
            hi == 0x1_0000_0000_0000_0000u128,
    ;
    while hi - lo > 1
        invariant
            lo < hi <= 0x1_0000_0000_0000_0000,
            lo * lo <= x,
            x < hi * hi,
        decreases hi - lo,
    {
        let mid: u128 = lo + (hi - lo) / 2;
        assert(mid * mid <= u128::MAX) by (nonlinear_arith)
            requires
                mid < 0x1_0000_0000_0000_0000u128,
        ;
        if mid * mid <= x {
            lo = mid;
        } else {
            hi = mid;
        }
    }
    proof {
        assert(is_floor_sqrt(x as nat, lo as nat));
        lemma_floor_sqrt_unique(x as nat, lo as nat, floor_sqrt(x as nat));
    }
    lo
}

/// Prices a swap: the output that `amount_in` buys against the reserves,
/// after the fee, floored in favour of the pool. `None` when an intermediate
/// product leaves the integer range.
pub fn get_amount_out(amount_in: u128, reserve_in: u128, reserve_out: u128, fee: u128) -> (r:
    Option<u128>)
    requires
        fee <= FEE_DENOMINATOR,
    ensures
        ({
            let a = amount_in * (FEE_DENOMINATOR - fee);
            let den = reserve_in * FEE_DENOMINATOR + a;
            r is None <==> (a > u128::MAX || reserve_in * FEE_DENOMINATOR > u128::MAX || den
                > u128::MAX || reserve_out * a > u128::MAX)
        }),
        r matches Some(v) ==> v == quote(amount_in as nat, reserve_in as nat, reserve_out as nat, fee as nat),
{
    let a = match amount_in.checked_mul(FEE_DENOMINATOR - fee) {
        Some(v) => v,
        None => return None,
    };
    let scaled = match reserve_in.checked_mul(FEE_DENOMINATOR) {
        Some(v) => v,
        None => return None,
    };
    let den = match scaled.checked_add(a) {
        Some(v) => v,
        None => return None,
    };
    let num = match reserve_out.checked_mul(a) {
        Some(v) => v,
        None => return None,
    };
    if den == 0 {
        Some(0)
    } else {
        Some(num / den)
    }
}

} // verus!
