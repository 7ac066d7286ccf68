use vstd::prelude::*;
use crate::model::{
    dither_spec, error_share, lemma_failure_persists, lemma_room_for_share, scan, scan_column,
    visit, DitherError, Scan,
};
use crate::quantize::{clamp_u8, div8_round, lut_index_5bit, LUT_LEN};
use crate::stencil::{
    diffusion_targets, dir, lemma_flat_index, lemma_lists_take_next, lists, receives_index,
};

verus! {

/// The channel values of a working buffer, as integers.
pub open spec fn widen(v: Seq<i16>) -> Seq<int> {
    v.map_values(|c: i16| c as int)
}

/// Quantises pixel `(x, y)`, records its palette index and diffuses its
/// error; `false`, with nothing recorded, when the table names a colour
/// beyond the palette.
fn visit_pixel(
    buf: &mut Vec<i16>,
    out: &mut Vec<u8>,
    w: usize,
    h: usize,
    lut: &[u8],
    palette: &[u8],
    serpentine: bool,
    x: usize,
    y: usize,
) -> (ok: bool)
    requires
        x < w,
        y < h,
        w * h * 3 <= usize::MAX,
        old(buf).len() == w * h * 3,
        old(out).len() == w * h,
        lut.len() == LUT_LEN,
        palette.len() > 0,
        palette.len() % 3 == 0,
        forall|i: int|
            0 <= i < old(buf).len() && receives_index(
                w as int,
                h as int,
                serpentine,
                x as int,
                y as int,
                i / 3,
            ) ==> -160 <= #[trigger] old(buf)[i] <= 415,
    ensures
        final(buf).len() == old(buf).len(),
        final(out).len() == old(out).len(),
        ({
            let s = Scan { buf: widen(old(buf)@), out: old(out)@ };
            match visit(s, w as int, h as int, lut@, palette@, serpentine, x as int, y as int) {
                Some(n) => ok && widen(final(buf)@) == n.buf && final(out)@ == n.out,
                None => !ok,
            }
        }),
{
    let ghost s = Scan { buf: widen(buf@), out: out@ };
    let ghost (wi, hi, xi, yi) = (w as int, h as int, x as int, y as int);
    proof { lemma_flat_index(wi, hi, xi, yi); }
    let p = y * w + x;
    let base = p * 3;
    let r = clamp_u8(buf[base]);
    let g = clamp_u8(buf[base + 1]);
    let b = clamp_u8(buf[base + 2]);
    let idx = lut[lut_index_5bit(r, g, b)];
    if idx as usize >= palette.len() / 3 {
        return false;
    }
    out.set(p, idx);
    let pi = idx as usize * 3;
    let shares: [i16; 3] = [
        div8_round(r as i16 - palette[pi] as i16),
        div8_round(g as i16 - palette[pi + 1] as i16),
        div8_round(b as i16 - palette[pi + 2] as i16),
    ];
    assert(forall|c: int|
        0 <= c < 3 ==> shares[c] as int == error_share(
            s.buf[3 * p + c],
            palette@,
            idx as int,
            c,
        ));
    let targets = diffusion_targets(w, h, serpentine, x, y);
    let ghost start = buf@;
    let mut j: usize = 0;
    while j < targets.len()
        invariant
            j <= targets.len(),
            buf.len() == start.len(),
            start.len() == w * h * 3,
            w * h * 3 <= usize::MAX,
            forall|k: int, l: int| 0 <= k < l < targets.len() ==> targets[k] < targets[l],
            forall|k: int| 0 <= k < targets.len() ==> targets[k] < w * h,
            forall|k: int|
                0 <= k < targets.len() ==> receives_index(wi, hi, serpentine, xi, yi, targets[k] as int),
            forall|i: int|
                0 <= i < start.len() && receives_index(wi, hi, serpentine, xi, yi, i / 3) ==> -160
                    <= #[trigger] start[i] <= 415,
            forall|c: int| 0 <= c < 3 ==> -32 <= #[trigger] shares[c] <= 32,
            forall|i: int|
                0 <= i < start.len() ==> #[trigger] buf[i] == if lists(
                    targets@.take(j as int),
                    i / 3,
                ) {
                    start[i] + shares[i % 3]
                } else {
                    start[i] as int
                },
        decreases targets.len() - j,
    {
        let q = targets[j] * 3;
        let ghost before = buf@;
        assert(!lists(targets@.take(j as int), q as int / 3));
        buf.set(q, buf[q] + shares[0]);
        buf.set(q + 1, buf[q + 1] + shares[1]);
        buf.set(q + 2, buf[q + 2] + shares[2]);
        proof { lemma_lists_take_next(targets@, j as int); }
        j += 1;
    }
    proof {
        assert(targets@.take(targets.len() as int) == targets@);
        let n = visit(s, wi, hi, lut@, palette@, serpentine, xi, yi).unwrap();
        assert forall|i: int| 0 <= i < start.len() implies widen(buf@)[i] == n.buf[i] by {
            if receives_index(wi, hi, serpentine, xi, yi, i / 3) {
                assert(lists(targets@, i / 3));
            }
        }
        assert(widen(buf@) =~= n.buf);
    }
    true
}

/// Dithers an interleaved RGB image of `width * height` pixels onto
/// `palette` (RGB triples) with Atkinson error diffusion, looking each
/// clamped colour up in `lut` by its 15-bit key. Odd rows run right to left
/// when `serpentine` is set. Returns one palette index per pixel, in row-major
/// order.
pub fn dither(
    image: &[u8],
    width: usize,
    height: usize,
    lut: &[u8],
    palette: &[u8],
    serpentine: bool,
) -> (r: Result<Vec<u8>, DitherError>)
    ensures
        match r {
            Ok(v) => dither_spec(image@, width as int, height as int, lut@, palette@, serpentine)
                == Ok::<Seq<u8>, DitherError>(v@),
            Err(e) => dither_spec(image@, width as int, height as int, lut@, palette@, serpentine)
                == Err::<Seq<u8>, DitherError>(e),
        },
{
    let ghost (wi, hi) = (width as int, height as int);
    let n = image.len();
    let pixels = match width.checked_mul(height) {
        Some(n) => n,
        None => {
            assert(wi * hi * 3 >= wi * hi) by (nonlinear_arith)
                requires
                    wi * hi >= 0,
            ;
            return Err(DitherError::InvalidImageLength);
        },
    };
    let len = match pixels.checked_mul(3) {
        Some(n) => n,
        None => {
            return Err(DitherError::InvalidImageLength);
        },
    };
    if image.len() != len {
        return Err(DitherError::InvalidImageLength);
    }
    if lut.len() != LUT_LEN {
        return Err(DitherError::InvalidLutLength);
    }
    if palette.len() == 0 || palette.len() % 3 != 0 {
        return Err(DitherError::InvalidPaletteLength);
    }
    let mut buf: Vec<i16> = Vec::with_capacity(len);
    let mut k: usize = 0;
    while k < len
        invariant
            k <= len,
            len == image.len(),
            buf.len() == k,
            forall|m: int| 0 <= m < k ==> buf[m] == image[m] as i16,
        decreases len - k,
    {
        buf.push(image[k] as i16);
        k += 1;
    }
    let mut out: Vec<u8> = Vec::with_capacity(pixels);
    k = 0;
    while k < pixels
        invariant
            k <= pixels,
            out.len() == k,
            forall|m: int| 0 <= m < k ==> out[m] == 0u8,
        decreases pixels - k,
    {
        out.push(0u8);
        k += 1;
    }
    let ghost total = (wi * hi) as nat;
    assert(widen(buf@) =~= Seq::new(image@.len(), |m: int| image@[m] as int));
    assert(out@ =~= Seq::new(total, |m: int| 0u8));
    if width == 0 {
        assert(total == 0) by (nonlinear_arith)
            requires
                total == wi * hi,
                wi == 0,
        ;
        return Ok(out);
    }
    let mut y: usize = 0;
    while y < height
        invariant
            0 < width,
            y <= height,
            wi == width,
            hi == height,
            total == wi * hi,
            pixels == wi * hi,
            len == pixels * 3,
            image.len() == len,
            lut.len() == LUT_LEN,
            palette.len() > 0,
            palette.len() % 3 == 0,
            buf.len() == len,
            out.len() == pixels,
            scan(image@, wi, hi, lut@, palette@, serpentine, (y * wi) as nat) == Some(
                Scan { buf: widen(buf@), out: out@ },
            ),
        decreases height - y,
    {
        let forward = !(serpentine && y % 2 == 1);
        assert(forward <==> dir(serpentine, y as int) == 1);
        let mut i: usize = 0;
        while i < width
            invariant
                0 < width,
                y < height,
                wi == width,
                hi == height,
                total == wi * hi,
                i <= width,
                pixels == wi * hi,
                len == pixels * 3,
                image.len() == len,
                lut.len() == LUT_LEN,
                palette.len() > 0,
                palette.len() % 3 == 0,
                buf.len() == len,
                out.len() == pixels,
                forward <==> dir(serpentine, y as int) == 1,
                scan(image@, wi, hi, lut@, palette@, serpentine, (y * wi + i) as nat) == Some(
                    Scan { buf: widen(buf@), out: out@ },
                ),
            decreases width - i,
        {
            let x = if forward {
                i
            } else {
                width - 1 - i
            };
            let ghost t = y * wi + i;
            proof {
                lemma_flat_index(wi, hi, i as int, y as int);
                vstd::arithmetic::div_mod::lemma_fundamental_div_mod_converse(
                    t,
                    wi,
                    y as int,
                    i as int,
                );
                lemma_room_for_share(image@, wi, hi, lut@, palette@, serpentine, t as nat);
                assert(x == scan_column(wi, serpentine, t / wi, t % wi));
                assert forall|m: int|
                    0 <= m < buf.len() && receives_index(
                        wi,
                        hi,
                        serpentine,
                        x as int,
                        y as int,
                        m / 3,
                    ) implies -160 <= #[trigger] buf@[m] <= 415 by {
                    let st = scan(image@, wi, hi, lut@, palette@, serpentine, t as nat).unwrap();
                    assert(st.buf[m] == buf@[m] as int);
                }
            }
            if !visit_pixel(&mut buf, &mut out, width, height, lut, palette, serpentine, x, y) {
                proof {
                    lemma_failure_persists(
                        image@,
                        wi,
                        hi,
                        lut@,
                        palette@,
                        serpentine,
                        (t + 1) as nat,
                        total,
                    );
                }
                return Err(DitherError::LutIndexOutOfBounds);
            }
            i += 1;
        }
        assert((y + 1) * wi == y * wi + wi) by (nonlinear_arith);
        y += 1;
    }
    assert(hi * wi == total) by (nonlinear_arith)
        requires
            total == wi * hi,
    ;
    Ok(out)
}

} // verus!
