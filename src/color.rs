use vstd::prelude::*;

verus! {

/// A quantized color together with the number of pixels it stands for.
#[derive(Clone, Copy, Debug)]
pub struct Color {
    pub r: i32,
    pub g: i32,
    pub b: i32,
    pub hex: i32,
    pub weight: i64,
}

/// The key that identifies a color: `(r << 16) | (g << 8) | b`.
pub open spec fn hex_of(r: int, g: int, b: int) -> int {
    r * 65536 + g * 256 + b
}

pub open spec fn channel_ok(v: int) -> bool {
    0 <= v <= 255
}

/// Channels are 8-bit values, the key matches them and the weight is not negative.
pub open spec fn color_wf(c: Color) -> bool {
    channel_ok(c.r as int) && channel_ok(c.g as int) && channel_ok(c.b as int)
        && c.hex as int == hex_of(c.r as int, c.g as int, c.b as int) && c.weight >= 0
}

/// The bucket of a sample: `floor((sample - 1) / delta + 1/2) * delta` over the
/// reals, with every result outside `[0, 255]` sent to 255.
pub open spec fn quantized(sample: int, delta: int) -> int {
    let v = ((2 * (sample - 1) + delta) / (2 * delta)) * delta;
    if v < 0 || v > 255 {
        255
    } else {
        v
    }
}

/// Saturation score, with the third term divided and scaled on its own.
pub open spec fn saturation(r: int, g: int, b: int) -> int {
    (r - g) * (r - g) + (r - b) * (r - b) + ((g - b) * (g - b)) / 65535 * 50
}

/// Whether a color looks like a yellowish skin tone.
pub open spec fn skin_like(r: int, g: int, b: int) -> bool {
    let m = (r + b) / 2 - g;
    r > b && r - b < 70 && -10 < m < 10
}

/// The integer square root: the largest `s` with `s * s <= w`.
pub open spec fn is_isqrt(s: int, w: int) -> bool {
    0 <= s && s * s <= w < (s + 1) * (s + 1)
}

/// A bucket value is its own bucket: quantizing a multiple of `delta` that
/// leaves room for one more step below 256 gives it back. With a bucket size
/// of 1 every sample moves down by one, so that size is left out.
pub proof fn lemma_quantize_idempotent(k: int, delta: int)
    requires
        2 <= delta <= 255,
        0 <= k * delta <= 255 - delta,
    ensures
        quantized(k * delta, delta) == k * delta,
{
    let x = 2 * (k * delta - 1) + delta;
    assert(x == k * (2 * delta) + (delta - 2)) by (nonlinear_arith)
        requires
            x == 2 * (k * delta - 1) + delta,
    ;
    vstd::arithmetic::div_mod::lemma_fundamental_div_mod_converse(x, 2 * delta, k, delta - 2);
}

/// Quantizes one channel sample to its bucket.
pub fn round(num: u8, delta: u8) -> (r: i32)
    requires
        delta >= 1,
    ensures
        r as int == quantized(num as int, delta as int),
        channel_ok(r as int),
{
    let n: i32 = 2 * (num as i32 - 1) + delta as i32;
    let d: i32 = 2 * delta as i32;
    let q: i32 = if n < 0 {
        assert(n == -1);
        assert((-1int) / (d as int) == -1) by (nonlinear_arith)
            requires
                d >= 2,
        ;
        -1
    } else {
        assert(n / d <= n) by (nonlinear_arith)
            requires
                n >= 0,
                d >= 2,
        ;
        n / d
    };
    proof {
        assert(q as int == (n as int) / (d as int));
    }
    if q < 0 {
        assert(q * delta < 0) by (nonlinear_arith)
            requires
                q < 0,
                delta >= 1,
        ;
        return 255;
    }
    if q > 255 {
        assert(q * delta > 255) by (nonlinear_arith)
            requires
                q > 255,
                delta >= 1,
        ;
        return 255;
    }
    assert(0 <= q * delta <= 255 * 255) by (nonlinear_arith)
        requires
            0 <= q <= 255,
            1 <= delta <= 255,
    ;
    let v: i32 = q * delta as i32;
    if v > 255 {
        255
    } else {
        v
    }
}

/// The saturation score of a color.
pub fn prefer_saturated(c: &Color) -> (r: i32)
    requires
        color_wf(*c),
    ensures
        r as int == saturation(c.r as int, c.g as int, c.b as int),
        0 <= r <= 2 * 65025,
{
    let rg: i32 = c.r - c.g;
    let rb: i32 = c.r - c.b;
    let gb: i32 = c.g - c.b;
    assert(0 <= rg * rg <= 65025 && 0 <= rb * rb <= 65025 && 0 <= gb * gb <= 65025)
        by (nonlinear_arith)
        requires
            -255 <= rg <= 255,
            -255 <= rb <= 255,
            -255 <= gb <= 255,
    ;
    let third: i32 = (gb * gb) / 65535;
    assert(third == 0);
    rg * rg + rb * rb + third * 50
}

/// The integer square root of a non-negative weight.
pub fn isqrt(w: i64) -> (s: i64)
    requires
        w >= 0,
    ensures
        is_isqrt(s as int, w as int),
{
    let mut lo: u64 = 0;
    let mut hi: u64 = 3037000500;
    assert(hi * hi > i64::MAX) by (nonlinear_arith)
        requires
            hi == 3037000500u64,
    ;
    while hi - lo > 1
        invariant
            lo < hi <= 3037000500,
            lo * lo <= w,
            w < hi * hi,
        decreases hi - lo,
    {
        let mid: u64 = lo + (hi - lo) / 2;
        assert(mid * mid <= 3037000500 * 3037000500) by (nonlinear_arith)
            requires
                mid <= 3037000500,
        ;
        if mid * mid <= w as u64 {
            lo = mid;
        } else {
            hi = mid;
        }
    }
    assert(hi == lo + 1);
    lo as i64
}

} // verus!
