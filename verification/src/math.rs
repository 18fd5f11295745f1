use vstd::prelude::*;

verus! {

/// Largest `k >= 0` with `k * k <= n` (0 for negative `n`).
pub open spec fn sqrt_floor(n: int) -> int
    decreases n,
{
    if n <= 0 {
        0
    } else if (sqrt_floor(n - 1) + 1) * (sqrt_floor(n - 1) + 1) <= n {
        sqrt_floor(n - 1) + 1
    } else {
        sqrt_floor(n - 1)
    }
}

/// `sqrt(n)` rounded to the nearest integer (never exactly halfway, since
/// `(k + 1/2)^2` is not an integer).
pub open spec fn sqrt_round(n: int) -> int {
    if n - sqrt_floor(n) * sqrt_floor(n) > sqrt_floor(n) {
        sqrt_floor(n) + 1
    } else {
        sqrt_floor(n)
    }
}

/// `v * num / den` rounded to the nearest integer, halves rounding up.
pub open spec fn scale_round(v: int, num: int, den: int) -> int {
    (2 * v * num + den) / (2 * den)
}

pub proof fn lemma_sqrt_floor_bounds(n: int)
    requires
        n >= 0,
    ensures
        0 <= sqrt_floor(n),
        sqrt_floor(n) * sqrt_floor(n) <= n,
        n < (sqrt_floor(n) + 1) * (sqrt_floor(n) + 1),
    decreases n,
{
    if n > 0 {
        lemma_sqrt_floor_bounds(n - 1);
        let s = sqrt_floor(n - 1);
        if (s + 1) * (s + 1) <= n {
            assert(n < (s + 2) * (s + 2)) by (nonlinear_arith)
                requires
                    n - 1 < (s + 1) * (s + 1),
                    s >= 0,
            ;
        }
    }
}

pub proof fn lemma_sqrt_floor_unique(n: int, k: int)
    requires
        0 <= k,
        k * k <= n,
        n < (k + 1) * (k + 1),
    ensures
        k == sqrt_floor(n),
{
    lemma_sqrt_floor_bounds(n);
    let s = sqrt_floor(n);
    if k < s {
        assert((k + 1) * (k + 1) <= s * s) by (nonlinear_arith)
            requires
                0 <= k,
                k + 1 <= s,
        ;
    }
    if s < k {
        assert((s + 1) * (s + 1) <= k * k) by (nonlinear_arith)
            requires
                0 <= s,
                s + 1 <= k,
        ;
    }
}

/// Binary search for the floor of the square root.
pub fn isqrt(n: u64) -> (r: u64)
    ensures
        r == sqrt_floor(n as int),
{
    let mut lo: u64 = 0;
    let mut hi: u64 = 4294967296;
    proof {
        assert((hi as int) * (hi as int) > n as int) by (nonlinear_arith)
            requires
                hi == 4294967296,
                n <= u64::MAX,
        ;
    }
    while lo < hi
        invariant
            lo <= hi <= 4294967296,
            (lo as int) * (lo as int) <= n as int,
            n < (hi as int + 1) * (hi as int + 1),
        decreases hi - lo,
    {
        let mid: u64 = lo + (hi - lo + 1) / 2;
        proof {
            vstd::arithmetic::mul::lemma_mul_upper_bound(
                mid as int,
                4294967296,
                mid as int,
                4294967296,
            );
        }
        let sq: u128 = (mid as u128) * (mid as u128);
        if sq <= n as u128 {
            lo = mid;
        } else {
            hi = mid - 1;
        }
    }
    proof {
        lemma_sqrt_floor_unique(n as int, lo as int);
    }
    lo
}

/// `sqrt(n)` rounded to the nearest integer.
pub fn isqrt_round(n: u64) -> (r: u64)
    ensures
        r == sqrt_round(n as int),
{
    let s = isqrt(n);
    proof {
        lemma_sqrt_floor_bounds(n as int);
        assert(s < 4294967296) by (nonlinear_arith)
            requires
                (s as int) * (s as int) <= n as int,
                n <= u64::MAX,
                s >= 0,
        ;
        vstd::arithmetic::mul::lemma_mul_upper_bound(s as int, 4294967295, s as int, 4294967295);
    }
    if n - s * s > s {
        s + 1
    } else {
        s
    }
}

pub proof fn lemma_sqrt_round_zero()
    ensures
        sqrt_round(0) == 0,
{
    reveal_with_fuel(sqrt_floor, 1);
}

/// Rounding a scaled value is monotone in the value.
pub proof fn lemma_scale_round_ordered(v1: int, v2: int, num: int, den: int)
    requires
        v1 <= v2,
        num >= 0,
        den >= 1,
    ensures
        scale_round(v1, num, den) <= scale_round(v2, num, den),
{
    assert(2 * v1 * num <= 2 * v2 * num) by (nonlinear_arith)
        requires
            v1 <= v2,
            num >= 0,
    ;
    vstd::arithmetic::div_mod::lemma_div_is_ordered(
        2 * v1 * num + den,
        2 * v2 * num + den,
        2 * den,
    );
}

/// A value within the source range scales to a value within the target range.
pub proof fn lemma_scale_round_range(v: int, num: int, den: int)
    requires
        0 <= v <= den,
        num >= 0,
        den >= 1,
    ensures
        0 <= scale_round(v, num, den) <= num,
{
    assert(0 <= 2 * v * num) by (nonlinear_arith)
        requires
            v >= 0,
            num >= 0,
    ;
    vstd::arithmetic::div_mod::lemma_div_is_ordered(0, 2 * v * num + den, 2 * den);
    assert(scale_round(v, num, den) >= 0) by {
        vstd::arithmetic::div_mod::lemma_div_pos_is_pos(2 * v * num + den, 2 * den);
    }
    assert(2 * v * num + den <= 2 * den * num + den) by (nonlinear_arith)
        requires
            v <= den,
            num >= 0,
    ;
    vstd::arithmetic::div_mod::lemma_div_is_ordered(
        2 * v * num + den,
        2 * den * num + den,
        2 * den,
    );
    assert(2 * den * num + den == num * (2 * den) + den) by (nonlinear_arith);
    assert((2 * den * num + den) / (2 * den) == num) by {
        vstd::arithmetic::div_mod::lemma_fundamental_div_mod_converse(
            num * (2 * den) + den,
            2 * den,
            num,
            den,
        );
    }
}

/// Scaling a value up to a larger range and back returns it to within one
/// unit: the first rounding moves the scaled value by at most half a target
/// unit, which is at most half a source unit on the way back.
pub proof fn lemma_scale_round_trip(v: int, d1: int, d2: int)
    requires
        1 <= d1 <= d2,
        0 <= v <= d1,
    ensures
        scale_round(scale_round(v, d2, d1), d1, d2) <= v + 1,
        scale_round(scale_round(v, d2, d1), d1, d2) >= v - 1,
{
    let w = scale_round(v, d2, d1);
    let u = scale_round(w, d1, d2);
    vstd::arithmetic::div_mod::lemma_fundamental_div_mod(2 * v * d2 + d1, 2 * d1);
    let rem1 = (2 * v * d2 + d1) % (2 * d1);
    vstd::arithmetic::div_mod::lemma_mod_bound(2 * v * d2 + d1, 2 * d1);
    // 2*d1*w <= 2*v*d2 + d1 < 2*d1*(w + 1)
    assert(2 * d1 * w == 2 * v * d2 + d1 - rem1) by (nonlinear_arith)
        requires
            2 * v * d2 + d1 == (2 * d1) * w + rem1,
    ;
    // upper direction: 2*w*d1 + d2 <= 2*v*d2 + d1 + d2 <= (v+1)*(2*d2) + d2
    assert(2 * w * d1 + d2 <= 2 * v * d2 + d1 + d2) by (nonlinear_arith)
        requires
            2 * d1 * w <= 2 * v * d2 + d1,
    ;
    assert(2 * v * d2 + d1 + d2 <= (v + 1) * (2 * d2) + d2) by (nonlinear_arith)
        requires
            d1 <= d2,
            d2 >= 1,
    ;
    vstd::arithmetic::div_mod::lemma_div_is_ordered(
        2 * w * d1 + d2,
        (v + 1) * (2 * d2) + d2,
        2 * d2,
    );
    assert(((v + 1) * (2 * d2) + d2) / (2 * d2) == v + 1) by {
        vstd::arithmetic::div_mod::lemma_fundamental_div_mod_converse(
            (v + 1) * (2 * d2) + d2,
            2 * d2,
            v + 1,
            d2,
        );
    }
    // lower direction: 2*w*d1 + d2 exceeds (v-1)*(2*d2), whose quotient is v-1
    assert(2 * w * d1 + d2 >= (v - 1) * (2 * d2) + 1) by (nonlinear_arith)
        requires
            2 * d1 * w == 2 * v * d2 + d1 - rem1,
            rem1 < 2 * d1,
            d1 <= d2,
            d1 >= 1,
    ;
    vstd::arithmetic::div_mod::lemma_div_is_ordered(
        (v - 1) * (2 * d2) + 1,
        2 * w * d1 + d2,
        2 * d2,
    );
    assert(((v - 1) * (2 * d2) + 1) / (2 * d2) == v - 1) by {
        vstd::arithmetic::div_mod::lemma_fundamental_div_mod_converse(
            (v - 1) * (2 * d2) + 1,
            2 * d2,
            v - 1,
            1,
        );
    }
}

} // verus!
