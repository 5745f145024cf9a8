//! Frame numbers and milliseconds, converted through a frame rate held as
//! the exact fraction `num / den` frames per second.
use vstd::prelude::*;

verus! {

/// Integer division rounding toward zero, for a positive divisor.
pub open spec fn div_toward_zero(a: int, b: int) -> int {
    if a >= 0 {
        a / b
    } else {
        -((-a) / b)
    }
}

/// The value saturated to the range of `i64`.
pub open spec fn saturate_i64(v: int) -> int {
    if v < i64::MIN {
        i64::MIN as int
    } else if v > i64::MAX {
        i64::MAX as int
    } else {
        v
    }
}

/// Milliseconds at which a frame starts: `frame * 1000 / fps`, truncated.
pub open spec fn frame_to_ms(frame: int, num: int, den: int) -> int {
    saturate_i64(div_toward_zero(frame * 1000 * den, num))
}

/// The frame shown at a time in milliseconds: `ms / 1000 * fps`, truncated.
pub open spec fn ms_to_frame(ms: int, num: int, den: int) -> int {
    saturate_i64(div_toward_zero(ms * num, 1000 * den))
}

fn i128_div_toward_zero(a: i128, b: i128) -> (r: i128)
    requires
        b > 0,
        a > i128::MIN,
    ensures
        r == div_toward_zero(a as int, b as int),
{
    if a >= 0 {
        a / b
    } else {
        let m: i128 = -a;
        let q: i128 = m / b;
        -q
    }
}

fn i128_saturate(v: i128) -> (r: i64)
    ensures
        r == saturate_i64(v as int),
{
    if v < i64::MIN as i128 {
        i64::MIN
    } else if v > i64::MAX as i128 {
        i64::MAX
    } else {
        v as i64
    }
}

/// Converts a frame number to milliseconds at `num / den` frames per second.
pub fn frame_to_msecs(frame: i64, num: u32, den: u32) -> (r: i64)
    requires
        num > 0,
        den > 0,
    ensures
        r == frame_to_ms(frame as int, num as int, den as int),
{
    let f: i128 = frame as i128;
    let d: i128 = den as i128;
    assert(-0x8000_0000_0000_0000_0000_0000_0000 < f * 1000 * d < 0x8000_0000_0000_0000_0000_0000_0000)
        by (nonlinear_arith)
        requires
            -0x8000_0000_0000_0000 <= f < 0x8000_0000_0000_0000,
            0 < d < 0x1_0000_0000,
    ;
    let p: i128 = f * 1000 * d;
    i128_saturate(i128_div_toward_zero(p, num as i128))
}

/// Converts milliseconds to a frame number at `num / den` frames per second.
pub fn msecs_to_frame(ms: i64, num: u32, den: u32) -> (r: i64)
    requires
        num > 0,
        den > 0,
    ensures
        r == ms_to_frame(ms as int, num as int, den as int),
{
    let m: i128 = ms as i128;
    let n: i128 = num as i128;
    assert(-0x8000_0000_0000_0000_0000_0000_0000 < m * n < 0x8000_0000_0000_0000_0000_0000_0000)
        by (nonlinear_arith)
        requires
            -0x8000_0000_0000_0000 <= m < 0x8000_0000_0000_0000,
            0 < n < 0x1_0000_0000,
    ;
    let p: i128 = m * n;
    i128_saturate(i128_div_toward_zero(p, 1000 * (den as i128)))
}

} // verus!
