use vstd::prelude::*;
use vstd::arithmetic::div_mod::lemma_fundamental_div_mod;
use crate::quantize::{clamp_spec, div8_round_spec, lut_key};
use crate::stencil::{dir, lemma_flat_index, receives, receives_index};

verus! {

/// Why a dithering call produced no index map.
#[derive(Debug, Clone, Copy, PartialEq, Eq, Structural)]
pub enum DitherError {
    /// The image does not hold `width * height` RGB pixels.
    InvalidImageLength,
    /// The quantisation table does not have one entry per 15-bit key.
    InvalidLutLength,
    /// The palette is empty or not made of whole RGB triples.
    InvalidPaletteLength,
    /// A table entry that was consulted names no colour of the palette.
    LutIndexOutOfBounds,
}

/// The state of a scan: the accumulated channel values and the index map
/// written so far.
pub struct Scan {
    /// Channel values, three per pixel, with the error received so far.
    pub buf: Seq<int>,
    /// One palette index per pixel; zero where no pixel was visited yet.
    pub out: Seq<u8>,
}

/// Column visited at position `i` of row `y`.
pub open spec fn scan_column(w: int, serpentine: bool, y: int, i: int) -> int {
    if dir(serpentine, y) == 1 {
        i
    } else {
        w - 1 - i
    }
}

/// The share of channel `c` of a quantisation error that each receiving
/// pixel gets, where `v` is the accumulated value of that channel and `idx`
/// the chosen palette entry.
pub open spec fn error_share(v: int, palette: Seq<u8>, idx: int, c: int) -> int {
    div8_round_spec(clamp_spec(v) - palette[3 * idx + c] as int)
}

/// Quantises pixel `(x, y)` and diffuses its error; `None` when the table
/// names a colour beyond the palette.
pub open spec fn visit(
    s: Scan,
    w: int,
    h: int,
    lut: Seq<u8>,
    palette: Seq<u8>,
    serpentine: bool,
    x: int,
    y: int,
) -> Option<Scan> {
    let p = y * w + x;
    let key = lut_key(
        clamp_spec(s.buf[3 * p]),
        clamp_spec(s.buf[3 * p + 1]),
        clamp_spec(s.buf[3 * p + 2]),
    );
    let idx = lut[key];
    if idx >= palette.len() / 3 {
        None
    } else {
        Some(
            Scan {
                buf: Seq::new(
                    s.buf.len(),
                    |i: int|
                        if receives_index(w, h, serpentine, x, y, i / 3) {
                            s.buf[i] + error_share(s.buf[3 * p + i % 3], palette, idx as int, i % 3)
                        } else {
                            s.buf[i]
                        },
                ),
                out: s.out.update(p, idx),
            },
        )
    }
}

/// The scan state after the first `t` pixels of the traversal, or `None` if
/// one of them failed.
pub open spec fn scan(
    image: Seq<u8>,
    w: int,
    h: int,
    lut: Seq<u8>,
    palette: Seq<u8>,
    serpentine: bool,
    t: nat,
) -> Option<Scan>
    decreases t,
{
    if t == 0 {
        Some(
            Scan {
                buf: Seq::new(image.len(), |i: int| image[i] as int),
                out: Seq::new((w * h) as nat, |i: int| 0u8),
            },
        )
    } else {
        match scan(image, w, h, lut, palette, serpentine, (t - 1) as nat) {
            Some(s) => {
                let y = (t - 1) / w;
                visit(s, w, h, lut, palette, serpentine, scan_column(w, serpentine, y, (t - 1) % w), y)
            },
            None => None,
        }
    }
}

/// The result of dithering: the validation errors in order, then the index
/// map of the complete traversal, or the failure of one of its pixels.
pub open spec fn dither_spec(
    image: Seq<u8>,
    w: int,
    h: int,
    lut: Seq<u8>,
    palette: Seq<u8>,
    serpentine: bool,
) -> Result<Seq<u8>, DitherError> {
    if image.len() != w * h * 3 {
        Err(DitherError::InvalidImageLength)
    } else if lut.len() != 32768 {
        Err(DitherError::InvalidLutLength)
    } else if palette.len() == 0 || palette.len() % 3 != 0 {
        Err(DitherError::InvalidPaletteLength)
    } else {
        match scan(image, w, h, lut, palette, serpentine, (w * h) as nat) {
            Some(s) => Ok(s.out),
            None => Err(DitherError::LutIndexOutOfBounds),
        }
    }
}

/// Step of the traversal at which pixel `(x, y)` is visited.
pub(crate) open spec fn order(w: int, serpentine: bool, x: int, y: int) -> int {
    y * w + scan_column(w, serpentine, y, x)
}

pub(crate) open spec fn visited_before(w: int, serpentine: bool, x: int, y: int, t: int) -> int {
    if order(w, serpentine, x, y) < t {
        1
    } else {
        0
    }
}

/// How many of the six stencil positions that feed pixel `(px, py)` are
/// visited before step `t`.
pub(crate) open spec fn fed(w: int, serpentine: bool, px: int, py: int, t: int) -> int {
    let d0 = dir(serpentine, py);
    let d1 = dir(serpentine, py - 1);
    visited_before(w, serpentine, px - d0, py, t) + visited_before(
        w,
        serpentine,
        px - 2 * d0,
        py,
        t,
    ) + visited_before(w, serpentine, px + d1, py - 1, t) + visited_before(
        w,
        serpentine,
        px,
        py - 1,
        t,
    ) + visited_before(w, serpentine, px - d1, py - 1, t) + visited_before(
        w,
        serpentine,
        px,
        py - 2,
        t,
    )
}

proof fn lemma_fed_grows(w: int, h: int, serpentine: bool, qx: int, qy: int, px: int, py: int, t: int)
    requires
        order(w, serpentine, qx, qy) == t,
    ensures
        0 <= fed(w, serpentine, px, py, t) <= fed(w, serpentine, px, py, t + 1) <= 6,
        receives(w, h, serpentine, qx, qy, px, py) ==> fed(w, serpentine, px, py, t) + 1 <= fed(
            w,
            serpentine,
            px,
            py,
            t + 1,
        ),
{
}

/// Pixel visited at step `t` of the traversal.
pub(crate) proof fn lemma_step_pixel(w: int, h: int, serpentine: bool, t: int)
    requires
        w > 0,
        0 <= t < w * h,
    ensures
        ({
            let y = t / w;
            let x = scan_column(w, serpentine, y, t % w);
            &&& 0 <= x < w
            &&& 0 <= y < h
            &&& order(w, serpentine, x, y) == t
        }),
{
    lemma_fundamental_div_mod(t, w);
    let y = t / w;
    assert(w * y == y * w) by (nonlinear_arith);
    assert(y < h) by (nonlinear_arith)
        requires
            t == y * w + t % w,
            0 <= t % w,
            t < w * h,
            w > 0,
    ;
    assert(0 <= y) by (nonlinear_arith)
        requires
            t == y * w + t % w,
            t % w < w,
            t >= 0,
            w > 0,
    ;
}

proof fn lemma_share_bound(v: int, palette: Seq<u8>, idx: int, c: int)
    ensures
        -32 <= error_share(v, palette, idx, c) <= 32,
{
}

/// Along the scan, every accumulated value stays within 32 units of the
/// image per stencil position that has already fed it, and every index
/// written names a palette colour.
pub(crate) proof fn lemma_scan_invariant(
    image: Seq<u8>,
    w: int,
    h: int,
    lut: Seq<u8>,
    palette: Seq<u8>,
    serpentine: bool,
    t: nat,
)
    requires
        w > 0,
        h >= 0,
        t <= w * h,
        image.len() == w * h * 3,
        lut.len() == 32768,
        palette.len() > 0,
        palette.len() % 3 == 0,
    ensures
        scan(image, w, h, lut, palette, serpentine, t) matches Some(s) ==> {
            &&& s.buf.len() == image.len()
            &&& s.out.len() == w * h
            &&& forall|i: int|
                0 <= i < s.buf.len() ==> -32 * fed(w, serpentine, (i / 3) % w, (i / 3) / w, t as int)
                    <= #[trigger] s.buf[i] - image[i] <= 32 * fed(
                    w,
                    serpentine,
                    (i / 3) % w,
                    (i / 3) / w,
                    t as int,
                )
            &&& forall|j: int| 0 <= j < s.out.len() ==> #[trigger] s.out[j] < palette.len() / 3
        },
    decreases t,
{
    if t > 0 {
        let t0 = (t - 1) as nat;
        lemma_scan_invariant(image, w, h, lut, palette, serpentine, t0);
        if let Some(s) = scan(image, w, h, lut, palette, serpentine, t0) {
            lemma_step_pixel(w, h, serpentine, t0 as int);
            let y = (t0 as int) / w;
            let x = scan_column(w, serpentine, y, (t0 as int) % w);
            lemma_flat_index(w, h, x, y);
            if let Some(n) = visit(s, w, h, lut, palette, serpentine, x, y) {
                assert(n == scan(image, w, h, lut, palette, serpentine, t).unwrap());
                assert forall|i: int| 0 <= i < n.buf.len() implies -32 * fed(
                    w,
                    serpentine,
                    (i / 3) % w,
                    (i / 3) / w,
                    t as int,
                ) <= #[trigger] n.buf[i] - image[i] <= 32 * fed(
                    w,
                    serpentine,
                    (i / 3) % w,
                    (i / 3) / w,
                    t as int,
                ) by {
                    let p = y * w + x;
                    lemma_fed_grows(w, h, serpentine, x, y, (i / 3) % w, (i / 3) / w, t0 as int);
                    lemma_share_bound(s.buf[3 * p + i % 3], palette, lut[lut_key(
                        clamp_spec(s.buf[3 * p]),
                        clamp_spec(s.buf[3 * p + 1]),
                        clamp_spec(s.buf[3 * p + 2]),
                    )] as int, i % 3);
                }
            }
        }
    }
}

/// Before step `t`, the values about to receive error have room for one
/// more share in an `i16`.
pub(crate) proof fn lemma_room_for_share(
    image: Seq<u8>,
    w: int,
    h: int,
    lut: Seq<u8>,
    palette: Seq<u8>,
    serpentine: bool,
    t: nat,
)
    requires
        w > 0,
        h >= 0,
        t < w * h,
        image.len() == w * h * 3,
        lut.len() == 32768,
        palette.len() > 0,
        palette.len() % 3 == 0,
    ensures
        scan(image, w, h, lut, palette, serpentine, t) matches Some(s) ==> forall|i: int|
            0 <= i < s.buf.len() && receives_index(
                w,
                h,
                serpentine,
                scan_column(w, serpentine, t as int / w, t as int % w),
                t as int / w,
                i / 3,
            ) ==> -160 <= #[trigger] s.buf[i] <= 415,
{
    lemma_scan_invariant(image, w, h, lut, palette, serpentine, t);
    lemma_step_pixel(w, h, serpentine, t as int);
    let y = (t as int) / w;
    let x = scan_column(w, serpentine, y, (t as int) % w);
    if let Some(s) = scan(image, w, h, lut, palette, serpentine, t) {
        assert forall|i: int|
            0 <= i < s.buf.len() && receives_index(w, h, serpentine, x, y, i / 3) implies -160
            <= #[trigger] s.buf[i] <= 415 by {
            lemma_fed_grows(w, h, serpentine, x, y, (i / 3) % w, (i / 3) / w, t as int);
        }
    }
}

/// Once a step fails, the scan stays failed.
pub(crate) proof fn lemma_failure_persists(
    image: Seq<u8>,
    w: int,
    h: int,
    lut: Seq<u8>,
    palette: Seq<u8>,
    serpentine: bool,
    t: nat,
    u: nat,
)
    requires
        t <= u,
        scan(image, w, h, lut, palette, serpentine, t) is None,
    ensures
        scan(image, w, h, lut, palette, serpentine, u) is None,
    decreases u - t,
{
    if t < u {
        lemma_failure_persists(image, w, h, lut, palette, serpentine, t, (u - 1) as nat);
    }
}

} // verus!
