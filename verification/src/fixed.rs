use vstd::prelude::*;

verus! {

/// Scale of the fixed-point numbers used throughout the library: a value `v`
/// stands for the real number `v / 65536`.
pub const FP_ONE: i64 = 65536;

/// The fixed-point rendering of one half.
pub const FP_HALF: i64 = 32768;

/// Floor division of a non-negative value by a positive divisor.
pub fn div_nn(a: i64, d: i64) -> (r: i64)
    requires
        0 <= a,
        0 < d,
    ensures
        r == a as int / d as int,
{
    proof {
        vstd::arithmetic::div_mod::lemma_div_nonincreasing(a as int, d as int);
        vstd::arithmetic::div_mod::lemma_div_pos_is_pos(a as int, d as int);
    }
    ((a as u64) / (d as u64)) as i64
}

/// Floor remainder of a non-negative value by a positive divisor.
pub fn rem_nn(a: i64, d: i64) -> (r: i64)
    requires
        0 <= a,
        0 < d,
    ensures
        r == a as int % d as int,
        0 <= r < d,
{
    ((a as u64) % (d as u64)) as i64
}

/// Floor division by a positive divisor, for any sign of the dividend.
pub fn div_floor(a: i64, d: i64) -> (r: i64)
    requires
        -9223372036854775807 <= a,
        0 < d,
    ensures
        r == a as int / d as int,
{
    if a >= 0 {
        div_nn(a, d)
    } else {
        let n: i64 = -a;
        let q = div_nn(n, d);
        let m = rem_nn(n, d);
        proof {
            vstd::arithmetic::div_mod::lemma_fundamental_div_mod(n as int, d as int);
            if m == 0 {
                assert(a as int == (-(q as int)) * (d as int) + 0) by (nonlinear_arith)
                    requires
                        a as int == -(n as int),
                        n as int == (d as int) * (q as int) + (m as int),
                        m == 0,
                ;
                vstd::arithmetic::div_mod::lemma_fundamental_div_mod_converse(
                    a as int,
                    d as int,
                    -(q as int),
                    0,
                );
            } else {
                assert(a as int == (-(q as int) - 1) * (d as int) + (d as int - m as int))
                    by (nonlinear_arith)
                    requires
                        a as int == -(n as int),
                        n as int == (d as int) * (q as int) + (m as int),
                ;
                vstd::arithmetic::div_mod::lemma_fundamental_div_mod_converse(
                    a as int,
                    d as int,
                    -(q as int) - 1,
                    d as int - m as int,
                );
            }
        }
        if m == 0 {
            -q
        } else {
            -q - 1
        }
    }
}

/// Floor remainder by a positive divisor, for any sign of the dividend.
pub fn rem_floor(a: i64, d: i64) -> (r: i64)
    requires
        -9223372036854775807 <= a,
        0 < d,
    ensures
        r == a as int % d as int,
        0 <= r < d,
{
    if a >= 0 {
        rem_nn(a, d)
    } else {
        let n: i64 = -a;
        let q = div_nn(n, d);
        let m = rem_nn(n, d);
        proof {
            vstd::arithmetic::div_mod::lemma_fundamental_div_mod(n as int, d as int);
            if m == 0 {
                assert(a as int == (-(q as int)) * (d as int) + 0) by (nonlinear_arith)
                    requires
                        a as int == -(n as int),
                        n as int == (d as int) * (q as int) + (m as int),
                        m == 0,
                ;
                vstd::arithmetic::div_mod::lemma_fundamental_div_mod_converse(
                    a as int,
                    d as int,
                    -(q as int),
                    0,
                );
            } else {
                assert(a as int == (-(q as int) - 1) * (d as int) + (d as int - m as int))
                    by (nonlinear_arith)
                    requires
                        a as int == -(n as int),
                        n as int == (d as int) * (q as int) + (m as int),
                ;
                vstd::arithmetic::div_mod::lemma_fundamental_div_mod_converse(
                    a as int,
                    d as int,
                    -(q as int) - 1,
                    d as int - m as int,
                );
            }
        }
        if m == 0 {
            0
        } else {
            d - m
        }
    }
}

/// Integer square root: the greatest `r` with `r * r <= n`.
pub fn isqrt64(n: u64) -> (r: u64)
    ensures
        r * r <= n < (r + 1) * (r + 1),
{
    let mut lo: u64 = 0;
    let mut hi: u64 = 4294967296;
    while lo + 1 < hi
        invariant
            lo < hi <= 4294967296,
            lo * lo <= n,
            n < hi * hi,
        decreases hi - lo,
    {
        let mid: u64 = lo + (hi - lo) / 2;
        proof {
            assert(mid * mid < 4294967296 * 4294967296) by (nonlinear_arith)
                requires
                    mid < 4294967296,
            ;
        }
        if mid * mid <= n {
            lo = mid;
        } else {
            hi = mid;
        }
    }
    lo
}

} // verus!
