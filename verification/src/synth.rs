use vstd::prelude::*;
use crate::fixed::{div_nn, isqrt64};
use crate::noise::{octave_noise, soctave};
use crate::perm::PermTable;
use crate::rng::UnitRandom;

verus! {

/// Spec: the seventh power.
pub open spec fn spow7(x: int) -> int {
    x * x * x * x * x * x * x
}

/// Spec: the tenth power.
pub open spec fn spow10(x: int) -> int {
    x * x * x * x * x * x * x * x * x * x
}

/// Spec: squared distance, at scale 65536, from pixel (x, y) to the center
/// of a `size`-pixel square canvas.
pub open spec fn sdist2(x: int, y: int, size: int) -> int {
    let dx = x * 65536 - size * 32768;
    let dy = y * 65536 - size * 32768;
    dx * dx + dy * dy
}

/// Spec: the brightness blend at scale 65536: the radial base `r` modulated
/// by the remapped noise `n`, with influence `0.3 + r/2` — more noise toward
/// the edge — and a single rounding at the end.
pub open spec fn sblend(radial: int, noise01: int) -> int {
    (radial * (2 * 65536 * 65536 - (2 * 19661 + radial) * (65536 - noise01))) / (2int * 65536
        * 65536)
}

/// Spec: remap a noise sample from [-65536, 65536] to [0, 65536], rounding
/// toward zero.
pub open spec fn snoise01(noise: int) -> int {
    if noise + 65536 >= 0 {
        (noise + 65536) / 2
    } else {
        -((-(noise + 65536)) / 2)
    }
}

/// Spec: the signed grain magnitude scaled from one draw: `(g - 0.5) * 0.15`
/// at scale 65536, rounding toward zero.
pub open spec fn sgrain_mag(g: int) -> int {
    if g >= 32768 {
        ((g - 32768) * 3) / 20
    } else {
        -(((32768 - g) * 3) / 20)
    }
}

/// Spec: clamp to [0, 65536].
pub open spec fn sclamp01(v: int) -> int {
    if v < 0 {
        0
    } else if v > 65536 {
        65536
    } else {
        v
    }
}

/// Spec: a clamped fixed-point brightness scaled to a byte.
pub open spec fn sbyte(v: int) -> int {
    (sclamp01(v) * 255) / 65536
}

/// The seventh power of a small non-negative value.
fn pow7_u128(x: u64) -> (r: u128)
    requires
        x <= 5793,
    ensures
        r == spow7(x as int),
{
    let x1: u128 = x as u128;
    proof {
        assert(x1 * x1 <= 33558849 && x1 * x1 * (x1 * x1) <= 33558849 * 33558849 && x1 * x1 * (x1
            * x1) * (x1 * x1) <= 33558849 * 33558849 * 33558849 && x1 * x1 * (x1 * x1) * (x1 * x1)
            * x1 <= 33558849 * 33558849 * 33558849 * 5793) by (nonlinear_arith)
            requires
                0 <= x1 <= 5793,
        ;
    }
    let x2: u128 = x1 * x1;
    let x4: u128 = x2 * x2;
    let x6: u128 = x4 * x2;
    let r: u128 = x6 * x1;
    proof {
        assert(r == spow7(x1 as int)) by (nonlinear_arith)
            requires
                x2 == x1 * x1,
                x4 == x2 * x2,
                x6 == x4 * x2,
                r == x6 * x1,
        ;
    }
    r
}

/// The tenth power of a small non-negative value.
fn pow10_u128(x: u64) -> (r: u128)
    requires
        x <= 6000,
    ensures
        r == spow10(x as int),
{
    let x1: u128 = x as u128;
    proof {
        assert(x1 * x1 <= 36000000 && x1 * x1 * (x1 * x1) <= 36000000 * 36000000 && (x1 * x1 * (x1
            * x1)) * (x1 * x1 * (x1 * x1)) <= 36000000 * 36000000 * (36000000 * 36000000) && (x1
            * x1 * (x1 * x1)) * (x1 * x1 * (x1 * x1)) * (x1 * x1) <= 36000000 * 36000000 * (
        36000000 * 36000000) * 36000000) by (nonlinear_arith)
            requires
                0 <= x1 <= 6000,
        ;
    }
    let x2: u128 = x1 * x1;
    let x4: u128 = x2 * x2;
    let x8: u128 = x4 * x4;
    let r: u128 = x8 * x2;
    proof {
        assert(r == spow10(x1 as int)) by (nonlinear_arith)
            requires
                x2 == x1 * x1,
                x4 == x2 * x2,
                x8 == x4 * x4,
                r == x8 * x2,
        ;
    }
    r
}

/// Seventh powers of non-negative values are ordered.
pub proof fn lemma_spow7_monotone(a: int, b: int)
    requires
        0 <= a <= b,
    ensures
        spow7(a) <= spow7(b),
{
    assert(a * a * a * a * a * a * a <= b * b * b * b * b * b * b) by (nonlinear_arith)
        requires
            0 <= a <= b,
    ;
}

/// Tenth powers of non-negative values are ordered.
pub proof fn lemma_spow10_monotone(a: int, b: int)
    requires
        0 <= a <= b,
    ensures
        spow10(a) <= spow10(b),
{
    assert(a * a * a * a * a * a * a * a * a * a <= b * b * b * b * b * b * b * b * b * b)
        by (nonlinear_arith)
        requires
            0 <= a <= b,
    ;
}

/// The radial power curve `dist^0.7` at scale 65536: computed as the tenth
/// root of the seventh power at the reduced scale 4096, then scaled back.
/// The result is pinned by the tenth-root characterization in the contract.
pub fn radial_curve(dist: i64) -> (r: i64)
    requires
        0 <= dist <= 92683,
    ensures
        r == 16 * (r / 16),
        spow10(r as int / 16) <= spow7(dist as int / 16) * 68719476736 < spow10(r as int / 16 + 1),
        0 <= r <= 83520,
{
    let ds = div_nn(dist, 16);
    let d7 = pow7_u128(ds as u64);
    proof {
        assert(spow7(0) == 0) by (nonlinear_arith);
        lemma_spow7_monotone(0, ds as int);
        lemma_spow7_monotone(ds as int, 5792);
        vstd::arithmetic::mul::lemma_mul_inequality(d7 as int, spow7(5792int), 68719476736);
        assert(spow7(5792int) * 68719476736 < spow10(5221int)) by (nonlinear_arith);
        assert(spow10(5221int) <= 340282366920938463463374607431768211455) by (nonlinear_arith);
        assert(spow10(6000int) > spow10(5221int)) by (nonlinear_arith);
        assert(spow10(0int) == 0) by (nonlinear_arith);
    }
    let target: u128 = d7 * 68719476736;
    let mut lo: u64 = 0;
    let mut hi: u64 = 6000;
    while lo + 1 < hi
        invariant
            lo < hi <= 6000,
            spow10(lo as int) <= target,
            target < spow10(hi as int),
            target <= spow7(5792int) * 68719476736,
        decreases hi - lo,
    {
        let mid: u64 = lo + (hi - lo) / 2;
        let m10 = pow10_u128(mid);
        if m10 <= target {
            lo = mid;
        } else {
            hi = mid;
        }
    }
    proof {
        if lo >= 5221 {
            lemma_spow10_monotone(5221, lo as int);
            assert(false);
        }
        lemma_spow10_monotone(lo as int + 1, hi as int);
    }
    let r: i64 = 16 * (lo as i64);
    proof {
        assert(r as int / 16 == lo as int) by {
            vstd::arithmetic::div_mod::lemma_div_multiples_vanish(lo as int, 16);
        }
    }
    r
}

/// Normalized Euclidean distance, at scale 65536, from pixel (x, y) to the
/// canvas center, divided by the center-to-edge distance. The contract pins
/// the result by the square-root characterization.
pub fn center_distance(x: u32, y: u32, size: u32) -> (d: i64)
    requires
        1 <= size <= 1024,
        x < size,
        y < size,
    ensures
        0 <= d <= 92683,
        exists|s: int|
            0 <= s && #[trigger] (s * s) <= sdist2(x as int, y as int, size as int) && sdist2(
                x as int,
                y as int,
                size as int,
            ) < (s + 1) * (s + 1) && d == (s * 65536) / (size as int * 32768),
{
    let cf: i64 = (size as i64) * 32768;
    let px: i64 = (x as i64) * 65536;
    let py: i64 = (y as i64) * 65536;
    let dx: u64 = if px >= cf {
        (px - cf) as u64
    } else {
        (cf - px) as u64
    };
    let dy: u64 = if py >= cf {
        (py - cf) as u64
    } else {
        (cf - py) as u64
    };
    proof {
        assert(dx * dx <= 33554432 * 33554432 && dy * dy <= 33554432 * 33554432)
            by (nonlinear_arith)
            requires
                0 <= dx <= 33554432,
                0 <= dy <= 33554432,
        ;
        assert(dx as int * (dx as int) + dy as int * (dy as int) == sdist2(
            x as int,
            y as int,
            size as int,
        )) by (nonlinear_arith)
            requires
                dx == if x as int * 65536 >= size as int * 32768 {
                    x as int * 65536 - size as int * 32768
                } else {
                    size as int * 32768 - x as int * 65536
                },
                dy == if y as int * 65536 >= size as int * 32768 {
                    y as int * 65536 - size as int * 32768
                } else {
                    size as int * 32768 - y as int * 65536
                },
        ;
    }
    let s2: u64 = dx * dx + dy * dy;
    let s = isqrt64(s2);
    proof {
        assert(s2 <= 2 * (cf as int) * (cf as int)) by (nonlinear_arith)
            requires
                s2 == dx as int * (dx as int) + dy as int * (dy as int),
                0 <= dx <= cf,
                0 <= dy <= cf,
        ;
        assert(65536 * (s as int) <= 92683 * (cf as int)) by (nonlinear_arith)
            requires
                s as int * (s as int) <= 2 * (cf as int) * (cf as int),
                0 <= s,
                0 < cf,
        ;
        assert(s as int * 65536 <= 92683 * (cf as int));
        vstd::arithmetic::div_mod::lemma_multiply_divide_le(s as int * 65536, cf as int, 92683);
        vstd::arithmetic::div_mod::lemma_div_pos_is_pos(s as int * 65536, cf as int);
        assert(s as int * 65536 <= 140737488355328) by (nonlinear_arith)
            requires
                0 <= s,
                65536 * (s as int) <= 92683 * (cf as int),
                cf <= 33554432,
        ;
    }
    let d = div_nn((s as i64) * 65536, cf);
    proof {
        let si = s as int;
        assert(0 <= si && si * si <= sdist2(x as int, y as int, size as int) && sdist2(
            x as int,
            y as int,
            size as int,
        ) < (si + 1) * (si + 1) && d == (si * 65536) / (size as int * 32768));
    }
    d
}

/// The brightness blend: the radial base modulated by noise, with influence
/// growing toward the edge; exact up to one final truncating division.
pub fn blend_brightness(radial: i64, noise01: i64) -> (r: i64)
    requires
        0 <= radial <= 83520,
        -4 <= noise01 <= 65540,
    ensures
        r == sblend(radial as int, noise01 as int),
        0 <= r <= 90000,
{
    let infl2: i64 = 39322 + radial;
    let dim: i64 = 65536 - noise01;
    proof {
        assert(-491688 <= infl2 * dim && infl2 * dim <= 8589934592 && 0 <= radial * (8589934592
            - infl2 * dim) && radial * (8589934592 - infl2 * dim) <= 90000 * 8589934592)
            by (nonlinear_arith)
            requires
                39322 <= infl2 <= 122842,
                -4 <= dim <= 65540,
                0 <= radial <= 83520,
                infl2 == 39322 + radial,
        ;
    }
    let inner: i64 = 8589934592 - infl2 * dim;
    let num: i64 = radial * inner;
    proof {
        vstd::arithmetic::div_mod::lemma_multiply_divide_le(num as int, 8589934592, 90000);
        vstd::arithmetic::div_mod::lemma_div_pos_is_pos(num as int, 8589934592);
    }
    div_nn(num, 8589934592)
}

/// Law (radial darkness monotonicity): with the noise held at its midpoint
/// and the grain disabled, a larger center distance never yields a smaller
/// blended brightness: the radial curve is monotone in the distance, and
/// the blend is monotone in the radial term over its range.
pub proof fn lemma_radial_brightness_monotone(d1: int, d2: int, root1: int, root2: int)
    requires
        0 <= d1 <= d2 <= 92683,
        0 <= root1,
        0 <= root2,
        spow10(root1) <= spow7(d1 / 16) * 68719476736 < spow10(root1 + 1),
        spow10(root2) <= spow7(d2 / 16) * 68719476736 < spow10(root2 + 1),
        16 * root1 <= 83520,
        16 * root2 <= 83520,
    ensures
        sblend(16 * root1, 32768) <= sblend(16 * root2, 32768),
{
    vstd::arithmetic::div_mod::lemma_div_is_ordered(d1, d2, 16);
    vstd::arithmetic::div_mod::lemma_div_pos_is_pos(d1, 16);
    lemma_spow7_monotone(d1 / 16, d2 / 16);
    vstd::arithmetic::mul::lemma_mul_inequality(spow7(d1 / 16), spow7(d2 / 16), 68719476736);
    if root1 > root2 {
        lemma_spow10_monotone(root2 + 1, root1);
        assert(false);
    }
    let r1 = 16 * root1;
    let r2 = 16 * root2;
    assert(r1 * (2 * 65536 * 65536 - (2 * 19661 + r1) * (65536 - 32768)) <= r2 * (2 * 65536
        * 65536 - (2 * 19661 + r2) * (65536 - 32768))) by (nonlinear_arith)
        requires
            0 <= r1 <= r2 <= 83520,
    ;
    vstd::arithmetic::div_mod::lemma_div_is_ordered(
        r1 * (2 * 65536 * 65536 - (2 * 19661 + r1) * (65536 - 32768)),
        r2 * (2 * 65536 * 65536 - (2 * 19661 + r2) * (65536 - 32768)),
        2int * 65536 * 65536,
    );
}

/// The signed grain magnitude from one draw.
pub fn grain_mag(g: i64) -> (r: i64)
    requires
        0 <= g < 65536,
    ensures
        r == sgrain_mag(g as int),
        -4916 <= r <= 4916,
{
    if g >= 32768 {
        proof {
            vstd::arithmetic::div_mod::lemma_multiply_divide_le((g as int - 32768) * 3, 20, 4916);
            vstd::arithmetic::div_mod::lemma_div_pos_is_pos((g as int - 32768) * 3, 20);
        }
        div_nn((g - 32768) * 3, 20)
    } else {
        proof {
            vstd::arithmetic::div_mod::lemma_multiply_divide_le((32768 - g as int) * 3, 20, 4916);
            vstd::arithmetic::div_mod::lemma_div_pos_is_pos((32768 - g as int) * 3, 20);
        }
        -div_nn((32768 - g) * 3, 20)
    }
}

/// One pixel's gray byte from its blended brightness and grain: the sum is
/// clamped to [0, 65536] and scaled to [0, 255].
pub fn pixel_byte(brightness: i64, grain: i64) -> (b: u8)
    requires
        0 <= brightness <= 90000,
        -4916 <= grain <= 4916,
    ensures
        b as int == sbyte(brightness + grain),
{
    let v: i64 = brightness + grain;
    let c: i64 = if v < 0 {
        0
    } else if v > 65536 {
        65536
    } else {
        v
    };
    proof {
        vstd::arithmetic::div_mod::lemma_multiply_divide_le(c as int * 255, 65536, 255);
        vstd::arithmetic::div_mod::lemma_div_pos_is_pos(c as int * 255, 65536);
    }
    div_nn(c * 255, 65536) as u8
}

/// Spec: `sq` is the floor square root of pixel p's squared center
/// distance on a `size`-pixel canvas (pixel column `p % size`, row
/// `p / size`).
pub open spec fn sdist_witness(sq: int, p: int, size: int) -> bool {
    0 <= sq && sq * sq <= sdist2(p % size, p / size, size) && sdist2(p % size, p / size, size) < (
    sq + 1) * (sq + 1)
}

/// Spec: the normalized fixed-point center distance derived from the square
/// root witness `sq`.
pub open spec fn sdist_val(sq: int, size: int) -> int {
    (sq * 65536) / (size * 32768)
}

/// Spec: `root` is the tenth-root witness of the radial power curve at the
/// fixed-point distance `d`; the radial term is then `16 * root`.
pub open spec fn sroot_witness(root: int, d: int) -> bool {
    0 <= root && spow10(root) <= spow7(d / 16) * 68719476736 && spow7(d / 16) * 68719476736
        < spow10(root + 1)
}

/// Spec: pixel p's gray byte in `buf` equals the brightness formula: the
/// blend of the radial term `16 * root` with the remapped fractal noise at
/// the pixel's mapped coordinate, plus the grain `g`, clamped and scaled to
/// a byte.
pub open spec fn sgray_formula(
    buf: Seq<u8>,
    p: int,
    size: int,
    octaves: nat,
    pers: int,
    tbl: Seq<u8>,
    scale: int,
    off_x: int,
    off_y: int,
    root: int,
    g: int,
) -> bool {
    buf[4 * p] == sbyte(
        sblend(
            16 * root,
            snoise01(
                soctave(
                    (p % size) * scale / size + off_x,
                    (p / size) * scale / size + off_y,
                    octaves,
                    pers,
                    tbl,
                ),
            ),
        ) + g,
    )
}

/// Spec: pixel p's gray byte follows the whole radial/noise/grain
/// brightness chain, for some admissible square-root, tenth-root, and grain
/// witnesses (the grain is zero or one draw's signed magnitude).
pub open spec fn spixel_ok(
    buf: Seq<u8>,
    p: int,
    size: int,
    octaves: nat,
    pers: int,
    tbl: Seq<u8>,
    scale: int,
    off_x: int,
    off_y: int,
) -> bool {
    exists|sq: int, root: int, g: int|
        #![trigger sdist_witness(sq, p, size), sroot_witness(root, sdist_val(sq, size)), sgray_formula(buf, p, size, octaves, pers, tbl, scale, off_x, off_y, root, g)]
        sdist_witness(sq, p, size) && sroot_witness(root, sdist_val(sq, size)) && -4916 <= g
            <= 4916 && sgray_formula(buf, p, size, octaves, pers, tbl, scale, off_x, off_y, root, g)
}

/// Walk every pixel of the square canvas, row-major and top to bottom, and
/// emit RGBA bytes: one gray value from radial darkness blended with
/// fractal noise and random grain, repeated in red, green and blue, with
/// alpha fully opaque.
pub fn synthesize_pixels<R: UnitRandom>(
    rng: &mut R,
    size: u32,
    octaves: u32,
    persistence: i64,
    table: &PermTable,
    scale: i64,
    off_x: i64,
    off_y: i64,
) -> (buf: Vec<u8>)
    requires
        table.wf(),
        1 <= size <= 1024,
        1 <= octaves <= 16,
        0 < persistence < 65536,
        262144 <= scale < 393216,
        0 <= off_x < 65536000,
        0 <= off_y < 65536000,
    ensures
        buf@.len() == 4 * size * size,
        forall|i: int| 0 <= i < buf@.len() && i % 4 == 3 ==> buf@[i] == 255,
        forall|i: int|
            0 <= i && i + 3 < buf@.len() && i % 4 == 0 ==> (#[trigger] buf@[i]) == buf@[i + 1]
                && buf@[i] == buf@[i + 2],
        forall|p: int|
            0 <= p < (size as int) * (size as int) ==> #[trigger] spixel_ok(
                buf@,
                p,
                size as int,
                octaves as nat,
                persistence as int,
                table.data@,
                scale as int,
                off_x as int,
                off_y as int,
            ),
{
    let mut buf: Vec<u8> = Vec::new();
    let mut y: u32 = 0;
    while y < size
        invariant
            y <= size,
            buf@.len() == 4 * size * y,
            table.wf(),
            1 <= size <= 1024,
            1 <= octaves <= 16,
            0 < persistence < 65536,
            262144 <= scale < 393216,
            0 <= off_x < 65536000,
            0 <= off_y < 65536000,
            forall|i: int| 0 <= i < buf@.len() && i % 4 == 3 ==> buf@[i] == 255,
            forall|i: int|
                0 <= i && i + 3 < buf@.len() && i % 4 == 0 ==> (#[trigger] buf@[i]) == buf@[i + 1]
                    && buf@[i] == buf@[i + 2],
            forall|p: int|
                0 <= p < (size as int) * (y as int) ==> #[trigger] spixel_ok(
                    buf@,
                    p,
                    size as int,
                    octaves as nat,
                    persistence as int,
                    table.data@,
                    scale as int,
                    off_x as int,
                    off_y as int,
                ),
        decreases size - y,
    {
        let mut x: u32 = 0;
        while x < size
            invariant
                x <= size,
                y < size,
                buf@.len() == 4 * size * y + 4 * x,
                table.wf(),
                1 <= size <= 1024,
                1 <= octaves <= 16,
                0 < persistence < 65536,
                262144 <= scale < 393216,
                0 <= off_x < 65536000,
                0 <= off_y < 65536000,
                forall|i: int| 0 <= i < buf@.len() && i % 4 == 3 ==> buf@[i] == 255,
                forall|i: int|
                    0 <= i && i + 3 < buf@.len() && i % 4 == 0 ==> (#[trigger] buf@[i]) == buf@[i
                        + 1] && buf@[i] == buf@[i + 2],
                forall|p: int|
                    0 <= p < (size as int) * (y as int) + (x as int) ==> #[trigger] spixel_ok(
                        buf@,
                        p,
                        size as int,
                        octaves as nat,
                        persistence as int,
                        table.data@,
                        scale as int,
                        off_x as int,
                        off_y as int,
                    ),
            decreases size - x,
        {
            let dist = center_distance(x, y, size);
            let radial = radial_curve(dist);
            proof {
                vstd::arithmetic::mul::lemma_mul_nonnegative(x as int, scale as int);
                vstd::arithmetic::mul::lemma_mul_upper_bound(x as int, 1024, scale as int, 393216);
                vstd::arithmetic::mul::lemma_mul_nonnegative(y as int, scale as int);
                vstd::arithmetic::mul::lemma_mul_upper_bound(y as int, 1024, scale as int, 393216);
                vstd::arithmetic::div_mod::lemma_div_nonincreasing(
                    x as int * scale as int,
                    size as int,
                );
                vstd::arithmetic::div_mod::lemma_div_nonincreasing(
                    y as int * scale as int,
                    size as int,
                );
                vstd::arithmetic::div_mod::lemma_div_pos_is_pos(
                    x as int * scale as int,
                    size as int,
                );
                vstd::arithmetic::div_mod::lemma_div_pos_is_pos(
                    y as int * scale as int,
                    size as int,
                );
            }
            let nx = div_nn((x as i64) * scale, size as i64) + off_x;
            let ny = div_nn((y as i64) * scale, size as i64) + off_y;
            let noise = octave_noise(nx, ny, octaves, persistence, table);
            let noise01: i64 = if noise >= -65536 {
                div_nn(noise + 65536, 2)
            } else {
                -div_nn(-(noise + 65536), 2)
            };
            proof {
                if noise >= -65536 {
                    vstd::arithmetic::div_mod::lemma_div_is_ordered(noise as int + 65536, 131076, 2);
                    vstd::arithmetic::div_mod::lemma_div_pos_is_pos(noise as int + 65536, 2);
                } else {
                    vstd::arithmetic::div_mod::lemma_div_is_ordered(-(noise as int + 65536), 4, 2);
                    vstd::arithmetic::div_mod::lemma_div_pos_is_pos(-(noise as int + 65536), 2);
                }
            }
            let bright = blend_brightness(radial, noise01);
            let g1 = rng.next_unit();
            let grain: i64 = if g1 < 6553 {
                let g2 = rng.next_unit();
                grain_mag(g2)
            } else {
                0
            };
            let v = pixel_byte(bright, grain);
            let ghost before = buf@;
            buf.push(v);
            buf.push(v);
            buf.push(v);
            buf.push(255);
            proof {
                let after = buf@;
                assert(after.len() == before.len() + 4);
                assert forall|i: int| 0 <= i < after.len() && i % 4 == 3 implies after[i] == 255 by {
                    if i < before.len() {
                        assert(after[i] == before[i]);
                    } else {
                        assert(before.len() % 4 == 0) by {
                            vstd::arithmetic::div_mod::lemma_mod_adds(
                                4 * size as int * y as int,
                                4 * x as int,
                                4,
                            );
                            vstd::arithmetic::div_mod::lemma_mod_multiples_basic(
                                size as int * y as int,
                                4,
                            );
                            vstd::arithmetic::div_mod::lemma_mod_multiples_basic(x as int, 4);
                            assert(4 * size as int * y as int == 4 * (size as int * y as int))
                                by (nonlinear_arith);
                        }
                        assert(i == before.len() + 3);
                    }
                }
                assert forall|i: int|
                    0 <= i && i + 3 < after.len() && i % 4 == 0 implies (#[trigger] after[i])
                    == after[i + 1] && after[i] == after[i + 2] by {
                    if i + 3 < before.len() {
                        assert(after[i] == before[i] && after[i + 1] == before[i + 1] && after[i
                            + 2] == before[i + 2]);
                    } else {
                        assert(before.len() % 4 == 0) by {
                            vstd::arithmetic::div_mod::lemma_mod_adds(
                                4 * size as int * y as int,
                                4 * x as int,
                                4,
                            );
                            vstd::arithmetic::div_mod::lemma_mod_multiples_basic(
                                size as int * y as int,
                                4,
                            );
                            vstd::arithmetic::div_mod::lemma_mod_multiples_basic(x as int, 4);
                            assert(4 * size as int * y as int == 4 * (size as int * y as int))
                                by (nonlinear_arith);
                        }
                        assert(i == before.len());
                    }
                }
                let cnt: int = (size as int) * (y as int) + (x as int);
                assert(before.len() == 4 * cnt) by (nonlinear_arith)
                    requires
                        before.len() == 4 * (size as int) * (y as int) + 4 * (x as int),
                        cnt == (size as int) * (y as int) + (x as int),
                ;
                assert(cnt == (y as int) * (size as int) + (x as int)) by (nonlinear_arith)
                    requires
                        cnt == (size as int) * (y as int) + (x as int),
                ;
                vstd::arithmetic::div_mod::lemma_fundamental_div_mod_converse(
                    cnt,
                    size as int,
                    y as int,
                    x as int,
                );
                let sq = choose|s: int|
                    0 <= s && #[trigger] (s * s) <= sdist2(x as int, y as int, size as int)
                        && sdist2(x as int, y as int, size as int) < (s + 1) * (s + 1) && dist == (
                    s * 65536) / (size as int * 32768);
                assert(sdist_witness(sq, cnt, size as int));
                assert(sdist_val(sq, size as int) == dist);
                let root: int = radial as int / 16;
                assert(sroot_witness(root, dist as int)) by {
                    vstd::arithmetic::div_mod::lemma_div_pos_is_pos(radial as int, 16);
                }
                assert(noise01 == snoise01(noise as int));
                assert(16 * root == radial);
                assert(sgray_formula(
                    after,
                    cnt,
                    size as int,
                    octaves as nat,
                    persistence as int,
                    table.data@,
                    scale as int,
                    off_x as int,
                    off_y as int,
                    root,
                    grain as int,
                )) by {
                    assert(after[4 * cnt] == v);
                    assert(v as int == sbyte(bright as int + grain as int));
                }
                assert(spixel_ok(
                    after,
                    cnt,
                    size as int,
                    octaves as nat,
                    persistence as int,
                    table.data@,
                    scale as int,
                    off_x as int,
                    off_y as int,
                ));
                assert forall|p: int| 0 <= p < cnt + 1 implies #[trigger] spixel_ok(
                    after,
                    p,
                    size as int,
                    octaves as nat,
                    persistence as int,
                    table.data@,
                    scale as int,
                    off_x as int,
                    off_y as int,
                ) by {
                    if p < cnt {
                        assert(spixel_ok(
                            before,
                            p,
                            size as int,
                            octaves as nat,
                            persistence as int,
                            table.data@,
                            scale as int,
                            off_x as int,
                            off_y as int,
                        ));
                        let (sq2, root2, g2): (int, int, int) = choose|sq2: int, root2: int, g2: int|
                            sdist_witness(sq2, p, size as int) && sroot_witness(
                                root2,
                                sdist_val(sq2, size as int),
                            ) && -4916 <= g2 <= 4916 && sgray_formula(
                                before,
                                p,
                                size as int,
                                octaves as nat,
                                persistence as int,
                                table.data@,
                                scale as int,
                                off_x as int,
                                off_y as int,
                                root2,
                                g2,
                            );
                        assert(after[4 * p] == before[4 * p]);
                        assert(sgray_formula(
                            after,
                            p,
                            size as int,
                            octaves as nat,
                            persistence as int,
                            table.data@,
                            scale as int,
                            off_x as int,
                            off_y as int,
                            root2,
                            g2,
                        ));
                        assert(spixel_ok(
                            after,
                            p,
                            size as int,
                            octaves as nat,
                            persistence as int,
                            table.data@,
                            scale as int,
                            off_x as int,
                            off_y as int,
                        ));
                    }
                }
            }
            x = x + 1;
        }
        proof {
            assert(4 * size as int * y as int + 4 * size as int == 4 * size as int * (y as int
                + 1) && (size as int) * (y as int) + (size as int) == (size as int) * (y as int
                + 1)) by (nonlinear_arith);
        }
        y = y + 1;
    }
    buf
}

} // verus!
