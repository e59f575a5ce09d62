use vstd::prelude::*;
use crate::fixed::{div_floor, div_nn, rem_floor};
use crate::perm::PermTable;

verus! {

/// Spec model of the easing curve `6t^5 - 15t^4 + 10t^3` on fixed-point
/// inputs: for `t` in `[0, 65536]` the result is the curve's value at
/// `t / 65536`, scaled back by 65536 and rounded down.
pub open spec fn sfade(t: int) -> int {
    (t * t * t * (6 * t * t + 10 * 65536 * 65536 - 15 * 65536 * t)) / (65536int * 65536 * 65536
        * 65536)
}

/// Spec model of fixed-point linear interpolation `a + t * (b - a)` with the
/// weight `t` in `[0, 65536]`; the product is rounded toward `a`.
pub open spec fn slerp(a: int, b: int, t: int) -> int {
    if b >= a {
        a + (t * (b - a)) / 65536
    } else {
        a - (t * (a - b)) / 65536
    }
}

/// Spec model of the corner gradient dot product: the low two bits of the
/// hash pick one of the four diagonal directions (1,1), (-1,1), (1,-1),
/// (-1,-1), dotted with the offset vector `(x, y)`.
pub open spec fn sgrad(h: u8, x: int, y: int) -> int {
    if h as int % 4 == 0 {
        x + y
    } else if h as int % 4 == 1 {
        -x + y
    } else if h as int % 4 == 2 {
        x - y
    } else {
        -x - y
    }
}

/// Spec model of one 2D gradient-noise sample at fixed-point coordinates
/// `(x, y)` against the doubled table `s`: grid cell by flooring, eased
/// fractional offsets, double-indexed corner hashes, and bilinear
/// interpolation of the four corner dot products (x first, then y).
pub open spec fn sperlin(x: int, y: int, s: Seq<u8>) -> int {
    let xi = (x / 65536) % 256;
    let yi = (y / 65536) % 256;
    let xf = x % 65536;
    let yf = y % 65536;
    let u = sfade(xf);
    let v = sfade(yf);
    let aa = s[s[xi] as int + yi];
    let ab = s[s[xi] as int + yi + 1];
    let ba = s[s[xi + 1] as int + yi];
    let bb = s[s[xi + 1] as int + yi + 1];
    let x1 = slerp(sgrad(aa, xf, yf), sgrad(ba, xf - 65536, yf), u);
    let x2 = slerp(sgrad(ab, xf, yf - 65536), sgrad(bb, xf - 65536, yf - 65536), u);
    slerp(x1, x2, v)
}

/// The easing curve at fixed-point `t` in `[0, 65536]`.
pub fn fade(t: i64) -> (r: i64)
    requires
        0 <= t <= 65536,
    ensures
        r == sfade(t as int),
        0 <= r <= 65536,
{
    let k: u128 = t as u128;
    proof {
        assert(k * k <= 65536 * 65536 && k * k * k <= 65536 * 65536 * 65536) by (nonlinear_arith)
            requires
                0 <= k <= 65536,
        ;
    }
    let k2: u128 = k * k;
    let k3: u128 = k2 * k;
    proof {
        assert(983040 * k <= 6 * k2 + 42949672960) by (nonlinear_arith)
            requires
                0 <= k <= 65536,
                k2 == k * k,
        ;
    }
    let q: u128 = 6 * k2 + 42949672960 - 983040 * k;
    proof {
        assert(k3 * q <= 281474976710656 * 68719476736) by (nonlinear_arith)
            requires
                0 <= k3 <= 281474976710656,
                0 <= q <= 68719476736,
        ;
    }
    let p: u128 = k3 * q;
    let r128: u128 = p / 18446744073709551616;
    proof {
        assert(p == (t as int) * (t as int) * (t as int) * (6 * (t as int) * (t as int) + 10
            * 65536 * 65536 - 15 * 65536 * (t as int))) by (nonlinear_arith)
            requires
                k == t as int,
                k2 == k * k,
                k3 == k2 * k,
                q == 6 * k2 + 42949672960 - 983040 * k,
                p == k3 * q,
        ;
        assert(p <= 1208925819614629174706176) by (nonlinear_arith)
            requires
                0 <= k <= 65536,
                k2 == k * k,
                k3 == k2 * k,
                q == 6 * k2 + 42949672960 - 983040 * k,
                p == k3 * q,
        ;
        vstd::arithmetic::div_mod::lemma_div_is_ordered(
            p as int,
            1208925819614629174706176,
            18446744073709551616,
        );
        assert(r128 == sfade(t as int));
    }
    r128 as i64
}

/// Fixed-point linear interpolation from `a` toward `b` by weight `t`.
pub fn lerp(a: i64, b: i64, t: i64) -> (r: i64)
    requires
        0 <= t <= 65536,
        -400000 <= a <= 400000,
        -400000 <= b <= 400000,
    ensures
        r == slerp(a as int, b as int, t as int),
        b >= a ==> a <= r <= b,
        b < a ==> b <= r <= a,
{
    if b >= a {
        let d: i64 = b - a;
        proof {
            assert(0 <= t * d <= 65536 * 800000) by (nonlinear_arith)
                requires
                    0 <= t <= 65536,
                    0 <= d <= 800000,
            ;
            assert(t as int * d as int <= 65536 * d as int) by (nonlinear_arith)
                requires
                    0 <= t <= 65536,
                    0 <= d,
            ;
            vstd::arithmetic::div_mod::lemma_multiply_divide_le(
                t as int * d as int,
                65536,
                d as int,
            );
        }
        let step = div_nn(t * d, 65536);
        a + step
    } else {
        let d: i64 = a - b;
        proof {
            assert(0 <= t * d <= 65536 * 800000) by (nonlinear_arith)
                requires
                    0 <= t <= 65536,
                    0 <= d <= 800000,
            ;
            assert(t as int * d as int <= 65536 * d as int) by (nonlinear_arith)
                requires
                    0 <= t <= 65536,
                    0 <= d,
            ;
            vstd::arithmetic::div_mod::lemma_multiply_divide_le(
                t as int * d as int,
                65536,
                d as int,
            );
        }
        let step = div_nn(t * d, 65536);
        a - step
    }
}

/// The corner gradient dot product picked by the hash's low two bits.
pub fn grad(h: u8, x: i64, y: i64) -> (r: i64)
    requires
        -2000000 <= x <= 2000000,
        -2000000 <= y <= 2000000,
    ensures
        r == sgrad(h, x as int, y as int),
{
    let sel: u8 = h % 4;
    if sel == 0 {
        x + y
    } else if sel == 1 {
        -x + y
    } else if sel == 2 {
        x - y
    } else {
        -x - y
    }
}

/// Law: the easing curve is monotonically non-decreasing on [0, 65536].
pub proof fn lemma_fade_monotone(a: int, b: int)
    requires
        0 <= a <= b <= 65536,
    ensures
        sfade(a) <= sfade(b),
{
    assert(a * a * a * (6 * a * a + 10 * 65536 * 65536 - 15 * 65536 * a) <= b * b * b * (6 * b * b
        + 10 * 65536 * 65536 - 15 * 65536 * b)) by (nonlinear_arith)
        requires
            0 <= a <= b <= 65536,
    ;
    vstd::arithmetic::div_mod::lemma_div_is_ordered(
        a * a * a * (6 * a * a + 10 * 65536 * 65536 - 15 * 65536 * a),
        b * b * b * (6 * b * b + 10 * 65536 * 65536 - 15 * 65536 * b),
        65536int * 65536 * 65536 * 65536,
    );
}

/// Law: the easing curve fixes 0, one half, and 1.
pub proof fn lemma_fade_extremes()
    ensures
        sfade(0) == 0,
        sfade(32768) == 32768,
        sfade(65536) == 65536,
{
    let d = 65536int * 65536 * 65536 * 65536;
    assert(sfade(0) == 0) by {
        let num = 0int * 0 * 0 * (6 * 0 * 0 + 10 * 65536 * 65536 - 15 * 65536 * 0);
        assert(num == 0 * d + 0) by (nonlinear_arith)
            requires
                num == 0int * 0 * 0 * (6 * 0 * 0 + 10 * 65536 * 65536 - 15 * 65536 * 0),
        ;
        vstd::arithmetic::div_mod::lemma_fundamental_div_mod_converse(num, d, 0, 0);
    }
    assert(sfade(32768) == 32768) by {
        let num = 32768int * 32768 * 32768 * (6 * 32768 * 32768 + 10 * 65536 * 65536 - 15 * 65536
            * 32768);
        assert(num == 32768 * d + 0) by (nonlinear_arith)
            requires
                d == 65536int * 65536 * 65536 * 65536,
                num == 32768int * 32768 * 32768 * (6 * 32768 * 32768 + 10 * 65536 * 65536 - 15
                    * 65536 * 32768),
        ;
        vstd::arithmetic::div_mod::lemma_fundamental_div_mod_converse(num, d, 32768, 0);
    }
    assert(sfade(65536) == 65536) by {
        let num = 65536int * 65536 * 65536 * (6 * 65536 * 65536 + 10 * 65536 * 65536 - 15 * 65536
            * 65536);
        assert(num == 65536 * d + 0) by (nonlinear_arith)
            requires
                d == 65536int * 65536 * 65536 * 65536,
                num == 65536int * 65536 * 65536 * (6 * 65536 * 65536 + 10 * 65536 * 65536 - 15
                    * 65536 * 65536),
        ;
        vstd::arithmetic::div_mod::lemma_fundamental_div_mod_converse(num, d, 65536, 0);
    }
}

/// The easing curve stays within [0, 65536] on [0, 65536].
pub proof fn lemma_fade_bounds(t: int)
    requires
        0 <= t <= 65536,
    ensures
        0 <= sfade(t) <= 65536,
{
    assert(0 <= t * t * t * (6 * t * t + 10 * 65536 * 65536 - 15 * 65536 * t) <= 65536int * 65536
        * 65536 * 65536 * 65536) by (nonlinear_arith)
        requires
            0 <= t <= 65536,
    ;
    vstd::arithmetic::div_mod::lemma_div_pos_is_pos(
        t * t * t * (6 * t * t + 10 * 65536 * 65536 - 15 * 65536 * t),
        65536int * 65536 * 65536 * 65536,
    );
    vstd::arithmetic::div_mod::lemma_div_is_ordered(
        t * t * t * (6 * t * t + 10 * 65536 * 65536 - 15 * 65536 * t),
        65536int * 65536 * 65536 * 65536 * 65536,
        65536int * 65536 * 65536 * 65536,
    );
}

/// The interpolation, scaled by 65536, stays within one unit of the exact
/// convex combination, and so within the weighted bounds on its endpoints.
proof fn lemma_slerp_weighted(a: int, b: int, t: int, ca: int, cb: int)
    requires
        0 <= t <= 65536,
        -ca <= a <= ca,
        -cb <= b <= cb,
    ensures
        65536 * slerp(a, b, t) <= (65536 - t) * ca + t * cb + 65536,
        -((65536 - t) * ca) - t * cb - 65536 <= 65536 * slerp(a, b, t),
{
    if b >= a {
        let m = t * (b - a);
        vstd::arithmetic::div_mod::lemma_fundamental_div_mod(m, 65536);
        vstd::arithmetic::div_mod::lemma_mod_bound(m, 65536);
        let md = m / 65536;
        let mr = m % 65536;
        assert(slerp(a, b, t) == a + md);
        assert(65536 * (a + md) <= (65536 - t) * ca + t * cb + 65536 && -((65536 - t) * ca) - t
            * cb - 65536 <= 65536 * (a + md)) by (nonlinear_arith)
            requires
                m == t * (b - a),
                m == 65536 * md + mr,
                0 <= mr < 65536,
                0 <= t <= 65536,
                -ca <= a <= ca,
                -cb <= b <= cb,
                b >= a,
        ;
    } else {
        let m = t * (a - b);
        vstd::arithmetic::div_mod::lemma_fundamental_div_mod(m, 65536);
        vstd::arithmetic::div_mod::lemma_mod_bound(m, 65536);
        let md = m / 65536;
        let mr = m % 65536;
        assert(slerp(a, b, t) == a - md);
        assert(65536 * (a - md) <= (65536 - t) * ca + t * cb + 65536 && -((65536 - t) * ca) - t
            * cb - 65536 <= 65536 * (a - md)) by (nonlinear_arith)
            requires
                m == t * (a - b),
                m == 65536 * md + mr,
                0 <= mr < 65536,
                0 <= t <= 65536,
                -ca <= a <= ca,
                -cb <= b <= cb,
                b < a,
        ;
    }
}

/// The key cancellation: when the weight sits on the same side of one half
/// as the offset, the cross combination `(1-u)*x + u*(1-x)` cannot exceed
/// one half (all at scale 65536).
proof fn lemma_h_bound(xv: int, u: int)
    requires
        0 <= xv <= 65536,
        0 <= u <= 65536,
        2 * xv <= 65536 ==> 2 * u <= 65536,
        2 * xv >= 65536 ==> 2 * u >= 65536,
    ensures
        (65536 - u) * xv + u * (65536 - xv) <= 65536 * 32768,
{
    assert(2 * ((65536 - u) * xv + u * (65536 - xv)) == 65536 * 65536 - (65536 - 2 * xv) * (65536
        - 2 * u)) by (nonlinear_arith);
    if 2 * xv <= 65536 {
        vstd::arithmetic::mul::lemma_mul_nonnegative(65536 - 2 * xv, 65536 - 2 * u);
    } else {
        assert((65536 - 2 * xv) * (65536 - 2 * u) == (2 * xv - 65536) * (2 * u - 65536))
            by (nonlinear_arith);
        vstd::arithmetic::mul::lemma_mul_nonnegative(2 * xv - 65536, 2 * u - 65536);
    }
}

/// Law: for any fixed-point coordinates and any 512-entry table, one
/// gradient-noise sample lies within [-65540, 65540], that is within about
/// 1.0001 of zero in real terms — inside the allowed [-1.01, 1.01] band.
pub proof fn lemma_sperlin_bounded(x: int, y: int, s: Seq<u8>)
    requires
        s.len() == 512,
    ensures
        -65540 <= sperlin(x, y, s) <= 65540,
{
    let xf = x % 65536;
    let yf = y % 65536;
    vstd::arithmetic::div_mod::lemma_mod_bound(x, 65536);
    vstd::arithmetic::div_mod::lemma_mod_bound(y, 65536);
    let u = sfade(xf);
    let v = sfade(yf);
    lemma_fade_bounds(xf);
    lemma_fade_bounds(yf);
    lemma_fade_extremes();
    if 2 * xf <= 65536 {
        lemma_fade_monotone(xf, 32768);
    } else {
        lemma_fade_monotone(32768, xf);
    }
    if 2 * yf <= 65536 {
        lemma_fade_monotone(yf, 32768);
    } else {
        lemma_fade_monotone(32768, yf);
    }
    let xi = (x / 65536) % 256;
    let yi = (y / 65536) % 256;
    let aa = s[s[xi] as int + yi];
    let ab = s[s[xi] as int + yi + 1];
    let ba = s[s[xi + 1] as int + yi];
    let bb = s[s[xi + 1] as int + yi + 1];
    let g1 = sgrad(aa, xf, yf);
    let g2 = sgrad(ba, xf - 65536, yf);
    let g3 = sgrad(ab, xf, yf - 65536);
    let g4 = sgrad(bb, xf - 65536, yf - 65536);
    assert(-(xf + yf) <= g1 <= xf + yf);
    assert(-(65536 - xf + yf) <= g2 <= 65536 - xf + yf);
    assert(-(xf + 65536 - yf) <= g3 <= xf + 65536 - yf);
    assert(-(131072 - xf - yf) <= g4 <= 131072 - xf - yf);
    let x1 = slerp(g1, g2, u);
    let x2 = slerp(g3, g4, u);
    lemma_slerp_weighted(g1, g2, u, xf + yf, 65536 - xf + yf);
    lemma_slerp_weighted(g3, g4, u, xf + 65536 - yf, 131072 - xf - yf);
    lemma_h_bound(xf, u);
    assert((65536 - u) * (xf + yf) + u * (65536 - xf + yf) == (65536 - u) * xf + u * (65536 - xf)
        + 65536 * yf) by (nonlinear_arith);
    assert((65536 - u) * (xf + 65536 - yf) + u * (131072 - xf - yf) == (65536 - u) * xf + u * (
    65536 - xf) + 65536 * (65536 - yf)) by (nonlinear_arith);
    assert(65536 * x1 <= 65536 * (32769 + yf));
    assert(-(65536 * (32769 + yf)) <= 65536 * x1);
    assert(65536 * x2 <= 65536 * (32769 + 65536 - yf));
    assert(-(65536 * (32769 + 65536 - yf)) <= 65536 * x2);
    assert(-(32769 + yf) <= x1 <= 32769 + yf);
    assert(-(32769 + 65536 - yf) <= x2 <= 32769 + 65536 - yf);
    lemma_slerp_weighted(x1, x2, v, 32769 + yf, 32769 + 65536 - yf);
    lemma_h_bound(yf, v);
    assert((65536 - v) * (32769 + yf) + v * (32769 + 65536 - yf) == 65536 * 32769 + (65536 - v)
        * yf + v * (65536 - yf)) by (nonlinear_arith);
    assert(65536 * slerp(x1, x2, v) <= 65536 * 65538);
    assert(-(65536 * 65538) <= 65536 * slerp(x1, x2, v));
    assert(sperlin(x, y, s) == slerp(x1, x2, v));
}

/// One gradient-noise sample at any fixed-point coordinates; the grid cell
/// comes from flooring, so negative coordinates wrap the same way as
/// positive ones.
pub fn perlin_noise(x: i64, y: i64, table: &PermTable) -> (r: i64)
    requires
        table.wf(),
        -9223372036854775807 <= x,
        -9223372036854775807 <= y,
    ensures
        r == sperlin(x as int, y as int, table.data@),
        -65540 <= r <= 65540,
{
    let xi = rem_floor(div_floor(x, 65536), 256) as usize;
    let yi = rem_floor(div_floor(y, 65536), 256) as usize;
    let xf = rem_floor(x, 65536);
    let yf = rem_floor(y, 65536);
    let u = fade(xf);
    let v = fade(yf);
    let d = &table.data;
    let aa: u8 = d[d[xi] as usize + yi];
    let ab: u8 = d[d[xi] as usize + yi + 1];
    let ba: u8 = d[d[xi + 1] as usize + yi];
    let bb: u8 = d[d[xi + 1] as usize + yi + 1];
    let g1 = grad(aa, xf, yf);
    let g2 = grad(ba, xf - 65536, yf);
    let g3 = grad(ab, xf, yf - 65536);
    let g4 = grad(bb, xf - 65536, yf - 65536);
    let x1 = lerp(g1, g2, u);
    let x2 = lerp(g3, g4, u);
    let res = lerp(x1, x2, v);
    proof {
        lemma_sperlin_bounded(x as int, y as int, table.data@);
        assert(res == sperlin(x as int, y as int, table.data@));
    }
    res
}

/// Spec: the frequency multiplier of the o-th octave, `2^o`.
pub open spec fn spow2(o: nat) -> int
    decreases o,
{
    if o == 0 {
        1
    } else {
        2 * spow2((o - 1) as nat)
    }
}

/// Spec: the o-th octave amplitude: 65536 decayed `o` times by `p / 65536`.
pub open spec fn samp(o: nat, p: int) -> int
    decreases o,
{
    if o == 0 {
        65536
    } else {
        (samp((o - 1) as nat, p) * p) / 65536
    }
}

/// Spec: the sum of the first `o` octave amplitudes.
pub open spec fn smax(o: nat, p: int) -> int
    decreases o,
{
    if o == 0 {
        0
    } else {
        smax((o - 1) as nat, p) + samp((o - 1) as nat, p)
    }
}

/// Spec: the weighted sum of the first `o` octave samples, at scale 65536^2.
pub open spec fn stotal(x: int, y: int, o: nat, p: int, s: Seq<u8>) -> int
    decreases o,
{
    if o == 0 {
        0
    } else {
        stotal(x, y, (o - 1) as nat, p, s) + sperlin(
            x * spow2((o - 1) as nat),
            y * spow2((o - 1) as nat),
            s,
        ) * samp((o - 1) as nat, p)
    }
}

/// Spec model of fractal composition: the weighted octave samples normalized
/// by the sum of the weights, with one rounding toward zero at the end.
pub open spec fn soctave(x: int, y: int, o: nat, p: int, s: Seq<u8>) -> int {
    let t = stotal(x, y, o, p, s);
    let m = smax(o, p);
    if t >= 0 {
        t / m
    } else {
        -((-t) / m)
    }
}

/// Octave amplitudes stay within [0, 65536] for persistence in (0, 65536).
pub proof fn lemma_samp_bounds(o: nat, p: int)
    requires
        0 < p < 65536,
    ensures
        0 <= samp(o, p) <= 65536,
    decreases o,
{
    if o > 0 {
        lemma_samp_bounds((o - 1) as nat, p);
        vstd::arithmetic::mul::lemma_mul_nonnegative(samp((o - 1) as nat, p), p);
        vstd::arithmetic::div_mod::lemma_div_pos_is_pos(samp((o - 1) as nat, p) * p, 65536);
        vstd::arithmetic::mul::lemma_mul_upper_bound(samp((o - 1) as nat, p), 65536, p, 65536);
        vstd::arithmetic::div_mod::lemma_div_is_ordered(
            samp((o - 1) as nat, p) * p,
            65536int * 65536,
            65536,
        );
    }
}

/// The frequency multiplier is positive.
pub proof fn lemma_spow2_pos(o: nat)
    ensures
        1 <= spow2(o),
    decreases o,
{
    if o > 0 {
        lemma_spow2_pos((o - 1) as nat);
    }
}

/// The frequency multiplier never decreases with the octave index.
pub proof fn lemma_spow2_monotone(a: nat, b: nat)
    requires
        a <= b,
    ensures
        spow2(a) <= spow2(b),
    decreases b,
{
    if a < b {
        lemma_spow2_monotone(a, (b - 1) as nat);
        lemma_spow2_pos((b - 1) as nat);
    }
}

/// The frequency multiplier stays within [1, 65536] for up to 16 octaves.
pub proof fn lemma_spow2_bounds(o: nat)
    requires
        o <= 16,
    ensures
        1 <= spow2(o) <= 65536,
{
    lemma_spow2_pos(o);
    lemma_spow2_monotone(o, 16);
    assert(spow2(16) == 65536) by {
        reveal_with_fuel(spow2, 17);
    }
}

/// Law: the fractal composer is a pure function — any two results that meet
/// its contract for one coordinate, parameter set, and table are identical.
pub proof fn lemma_octave_noise_deterministic(
    r1: i64,
    r2: i64,
    x: i64,
    y: i64,
    octaves: u32,
    persistence: i64,
    s: Seq<u8>,
)
    requires
        r1 == soctave(x as int, y as int, octaves as nat, persistence as int, s),
        r2 == soctave(x as int, y as int, octaves as nat, persistence as int, s),
    ensures
        r1 == r2,
{
}

/// Fractal ("octave") noise: layered gradient noise with doubling frequency
/// and decaying amplitude, normalized by the sum of the weights used.
pub fn octave_noise(x: i64, y: i64, octaves: u32, persistence: i64, table: &PermTable) -> (r: i64)
    requires
        table.wf(),
        -1099511627776 <= x <= 1099511627776,
        -1099511627776 <= y <= 1099511627776,
        1 <= octaves <= 16,
        0 < persistence < 65536,
    ensures
        r == soctave(x as int, y as int, octaves as nat, persistence as int, table.data@),
        -65540 <= r <= 65540,
{
    let mut total: i64 = 0;
    let mut freq: i64 = 1;
    let mut amp: i64 = 65536;
    let mut maxv: i64 = 0;
    let mut o: u32 = 0;
    while o < octaves
        invariant
            o <= octaves <= 16,
            -1099511627776 <= x <= 1099511627776,
            -1099511627776 <= y <= 1099511627776,
            0 < persistence < 65536,
            table.wf(),
            freq == spow2(o as nat),
            amp == samp(o as nat, persistence as int),
            maxv == smax(o as nat, persistence as int),
            total == stotal(x as int, y as int, o as nat, persistence as int, table.data@),
            0 <= amp <= 65536,
            0 <= maxv <= 65536 * o,
            o >= 1 ==> maxv >= 65536,
            -(65540 * maxv) <= total <= 65540 * maxv,
        decreases octaves - o,
    {
        proof {
            lemma_spow2_bounds(o as nat);
            assert(-72057594037927936 <= x as int * (freq as int) <= 72057594037927936
                && -72057594037927936 <= y as int * (freq as int) <= 72057594037927936)
                by (nonlinear_arith)
                requires
                    -1099511627776 <= x <= 1099511627776,
                    -1099511627776 <= y <= 1099511627776,
                    1 <= freq <= 65536,
            ;
        }
        let px = x * freq;
        let py = y * freq;
        let sample = perlin_noise(px, py, table);
        proof {
            vstd::arithmetic::mul::lemma_mul_inequality(sample as int, 65540, amp as int);
            vstd::arithmetic::mul::lemma_mul_inequality(-65540, sample as int, amp as int);
        }
        total = total + sample * amp;
        maxv = maxv + amp;
        proof {
            vstd::arithmetic::mul::lemma_mul_nonnegative(amp as int, persistence as int);
            vstd::arithmetic::mul::lemma_mul_upper_bound(amp as int, 65536, persistence as int, 65536);
            vstd::arithmetic::div_mod::lemma_div_is_ordered(
                amp as int * persistence as int,
                65536int * 65536,
                65536,
            );
        }
        amp = div_nn(amp * persistence, 65536);
        freq = freq * 2;
        o = o + 1;
    }
    proof {
        if total >= 0 {
            vstd::arithmetic::div_mod::lemma_multiply_divide_le(total as int, maxv as int, 65540);
            vstd::arithmetic::div_mod::lemma_div_pos_is_pos(total as int, maxv as int);
        } else {
            vstd::arithmetic::div_mod::lemma_multiply_divide_le(-(total as int), maxv as int, 65540);
            vstd::arithmetic::div_mod::lemma_div_pos_is_pos(-(total as int), maxv as int);
        }
    }
    if total >= 0 {
        div_nn(total, maxv)
    } else {
        -div_nn(-total, maxv)
    }
}

} // verus!
