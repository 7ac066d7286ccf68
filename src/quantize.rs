use vstd::prelude::*;

verus! {

/// Number of entries of the quantisation table: one per 15-bit key.
pub const LUT_LEN: usize = 32768;

/// `v` clamped to the byte range `[0, 255]`.
pub open spec fn clamp_spec(v: int) -> int {
    if v < 0 {
        0
    } else if v > 255 {
        255
    } else {
        v
    }
}

/// `v / 8`, rounded to the nearest integer with halves away from zero.
pub open spec fn div8_round_spec(v: int) -> int {
    if v >= 0 {
        (v + 4) / 8
    } else {
        -((-v + 4) / 8)
    }
}

/// The table key of a colour: the top five bits of red, green and blue,
/// packed as `R5 G5 B5`.
pub open spec fn lut_key(r: int, g: int, b: int) -> int {
    (r / 8) * 1024 + (g / 8) * 32 + b / 8
}

/// Clamps an accumulated channel value to a byte.
pub fn clamp_u8(v: i16) -> (r: u8)
    ensures
        r as int == clamp_spec(v as int),
{
    if v < 0 {
        0
    } else if v > 255 {
        255
    } else {
        v as u8
    }
}

/// Divides a quantisation error by eight, rounding halves away from zero.
pub fn div8_round(v: i16) -> (r: i16)
    ensures
        r as int == div8_round_spec(v as int),
{
    if v >= 0 {
        ((v as i32 + 4) / 8) as i16
    } else {
        (-((-(v as i32) + 4) / 8)) as i16
    }
}

/// The quantisation-table key of a clamped colour.
pub fn lut_index_5bit(r: u8, g: u8, b: u8) -> (k: usize)
    ensures
        k as int == lut_key(r as int, g as int, b as int),
        k < LUT_LEN,
{
    let r5 = (r >> 3) as usize;
    let g5 = (g >> 3) as usize;
    let b5 = (b >> 3) as usize;
    assert(r5 == r / 8 && g5 == g / 8 && b5 == b / 8) by (bit_vector)
        requires
            r5 == (r >> 3) as usize,
            g5 == (g >> 3) as usize,
            b5 == (b >> 3) as usize,
    ;
    let k = (r5 << 10) | (g5 << 5) | b5;
    assert(k == r5 * 1024 + g5 * 32 + b5) by (bit_vector)
        requires
            r5 < 32 && g5 < 32 && b5 < 32,
            k == (r5 << 10) | (g5 << 5) | b5,
    ;
    k
}

/// The rounded share is the integer nearest to `v / 8`, ties going away
/// from zero: it lies within half a unit of `v / 8`, and negating the error
/// negates the share.
pub proof fn lemma_div8_round_nearest(v: int)
    ensures
        -4 <= v - 8 * div8_round_spec(v) <= 4,
        v - 8 * div8_round_spec(v) == -4 ==> v > 0,
        v - 8 * div8_round_spec(v) == 4 ==> v < 0,
        div8_round_spec(-v) == -div8_round_spec(v),
{
}

} // verus!
