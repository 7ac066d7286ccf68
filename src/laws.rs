use vstd::prelude::*;
use vstd::arithmetic::div_mod::{lemma_fundamental_div_mod, lemma_fundamental_div_mod_converse};
use crate::model::{
    dither_spec, visit, lemma_failure_persists, lemma_scan_invariant, lemma_step_pixel, order, scan,
    scan_column, DitherError,
};
use crate::quantize::lut_key;
use crate::stencil::{dir, lemma_flat_index};

verus! {

/// Dithering is a function of its inputs: two results obtained for the same
/// image, size, table, palette and scan mode are equal.
pub proof fn lemma_dither_deterministic(
    image: Seq<u8>,
    w: int,
    h: int,
    lut: Seq<u8>,
    palette: Seq<u8>,
    serpentine: bool,
    first: Result<Seq<u8>, DitherError>,
    second: Result<Seq<u8>, DitherError>,
)
    requires
        first == dither_spec(image, w, h, lut, palette, serpentine),
        second == dither_spec(image, w, h, lut, palette, serpentine),
    ensures
        first == second,
{
}

/// A successful index map has one entry per pixel, and each entry names a
/// colour of the palette.
pub proof fn lemma_index_map_shape(
    image: Seq<u8>,
    w: int,
    h: int,
    lut: Seq<u8>,
    palette: Seq<u8>,
    serpentine: bool,
    map: Seq<u8>,
)
    requires
        w >= 0,
        h >= 0,
        dither_spec(image, w, h, lut, palette, serpentine) == Ok::<Seq<u8>, DitherError>(map),
    ensures
        map.len() == w * h,
        forall|j: int| 0 <= j < map.len() ==> map[j] < palette.len() / 3,
{
    if w > 0 {
        assert(h * w >= 0) by (nonlinear_arith)
            requires
                w > 0,
                h >= 0,
        ;
        lemma_scan_invariant(image, w, h, lut, palette, serpentine, (w * h) as nat);
    } else {
        assert(w * h == 0) by (nonlinear_arith)
            requires
                w == 0,
        ;
    }
}

/// The three checks on the inputs, in order: a wrong image length, then a
/// wrong table length, then a palette that is empty or not made of whole
/// triples, each gives its own error.
pub proof fn lemma_validation(
    image: Seq<u8>,
    w: int,
    h: int,
    lut: Seq<u8>,
    palette: Seq<u8>,
    serpentine: bool,
)
    ensures
        image.len() != w * h * 3 ==> dither_spec(image, w, h, lut, palette, serpentine) == Err::<
            Seq<u8>,
            DitherError,
        >(DitherError::InvalidImageLength),
        image.len() == w * h * 3 && lut.len() != 32768 ==> dither_spec(
            image,
            w,
            h,
            lut,
            palette,
            serpentine,
        ) == Err::<Seq<u8>, DitherError>(DitherError::InvalidLutLength),
        image.len() == w * h * 3 && lut.len() == 32768 && (palette.len() == 0 || palette.len() % 3
            != 0) ==> dither_spec(image, w, h, lut, palette, serpentine) == Err::<
            Seq<u8>,
            DitherError,
        >(DitherError::InvalidPaletteLength),
        image.len() == w * h * 3 && lut.len() == 32768 && palette.len() > 0 && palette.len() % 3
            == 0 ==> dither_spec(image, w, h, lut, palette, serpentine) is Ok || dither_spec(
            image,
            w,
            h,
            lut,
            palette,
            serpentine,
        ) == Err::<Seq<u8>, DitherError>(DitherError::LutIndexOutOfBounds),
{
}

/// When the table names the same palette colour for every key, the index
/// map is that colour's index at every pixel, whatever the image.
pub proof fn lemma_constant_table(
    image: Seq<u8>,
    w: int,
    h: int,
    lut: Seq<u8>,
    palette: Seq<u8>,
    serpentine: bool,
    c: u8,
)
    requires
        w >= 0,
        h >= 0,
        image.len() == w * h * 3,
        lut.len() == 32768,
        palette.len() > 0,
        palette.len() % 3 == 0,
        c < palette.len() / 3,
        forall|k: int| 0 <= k < 32768 ==> lut[k] == c,
    ensures
        dither_spec(image, w, h, lut, palette, serpentine) == Ok::<Seq<u8>, DitherError>(
            Seq::new((w * h) as nat, |p: int| c),
        ),
{
    if w == 0 {
        assert(w * h == 0) by (nonlinear_arith)
            requires
                w == 0,
        ;
        assert(scan(image, w, h, lut, palette, serpentine, 0).unwrap().out =~= Seq::new(
            0,
            |p: int| c,
        ));
    } else {
        assert(w * h >= 0) by (nonlinear_arith)
            requires
                w > 0,
                h >= 0,
        ;
        let total = (w * h) as nat;
        lemma_constant_table_scan(image, w, h, lut, palette, serpentine, c, total);
        let s = scan(image, w, h, lut, palette, serpentine, total).unwrap();
        assert forall|p: int| 0 <= p < total implies s.out[p] == c by {
            lemma_fundamental_div_mod(p, w);
            assert(w * (p / w) == (p / w) * w) by (nonlinear_arith);
            assert(0 <= p / w < h) by (nonlinear_arith)
                requires
                    p == (p / w) * w + p % w,
                    0 <= p % w < w,
                    0 <= p < w * h,
            ;
            lemma_flat_index(w, h, scan_column(w, serpentine, p / w, p % w), p / w);
        }
        assert(s.out =~= Seq::new(total, |p: int| c));
    }
}

/// After `t` steps under a constant table, exactly the pixels visited so far
/// hold its colour.
proof fn lemma_constant_table_scan(
    image: Seq<u8>,
    w: int,
    h: int,
    lut: Seq<u8>,
    palette: Seq<u8>,
    serpentine: bool,
    c: u8,
    t: nat,
)
    requires
        w > 0,
        h >= 0,
        t <= w * h,
        image.len() == w * h * 3,
        lut.len() == 32768,
        palette.len() > 0,
        palette.len() % 3 == 0,
        c < palette.len() / 3,
        forall|k: int| 0 <= k < 32768 ==> lut[k] == c,
    ensures
        scan(image, w, h, lut, palette, serpentine, t) matches Some(s) && s.out.len() == w * h
            && forall|p: int|
            0 <= p < w * h ==> #[trigger] s.out[p] == if order(w, serpentine, p % w, p / w) < t {
                c
            } else {
                0u8
            },
    decreases t,
{
    if t > 0 {
        let t0 = (t - 1) as nat;
        lemma_constant_table_scan(image, w, h, lut, palette, serpentine, c, t0);
        let s = scan(image, w, h, lut, palette, serpentine, t0).unwrap();
        lemma_step_pixel(w, h, serpentine, t0 as int);
        let y = (t0 as int) / w;
        let x = scan_column(w, serpentine, y, (t0 as int) % w);
        lemma_flat_index(w, h, x, y);
        let q = y * w + x;
        let n = scan(image, w, h, lut, palette, serpentine, t).unwrap();
        assert(n.out == s.out.update(q, c));
        assert forall|p: int| 0 <= p < w * h implies #[trigger] n.out[p] == if order(
            w,
            serpentine,
            p % w,
            p / w,
        ) < t {
            c
        } else {
            0u8
        } by {
            let (px, py) = (p % w, p / w);
            lemma_fundamental_div_mod(p, w);
            assert(w * py == py * w) by (nonlinear_arith);
            if p != q && order(w, serpentine, px, py) == t0 {
                let col = scan_column(w, serpentine, py, px);
                lemma_fundamental_div_mod_converse(t0 as int, w, py, col);
            }
        }
    } else {
        let s = scan(image, w, h, lut, palette, serpentine, 0).unwrap();
        assert forall|p: int| 0 <= p < w * h implies #[trigger] s.out[p] == 0u8 by {}
    }
}

/// When the table sends the first pixel's colour outside the palette, the
/// call fails and returns no index map.
pub proof fn lemma_first_pixel_out_of_palette(
    image: Seq<u8>,
    w: int,
    h: int,
    lut: Seq<u8>,
    palette: Seq<u8>,
    serpentine: bool,
)
    requires
        w > 0,
        h > 0,
        image.len() == w * h * 3,
        lut.len() == 32768,
        palette.len() > 0,
        palette.len() % 3 == 0,
        lut[lut_key(image[0] as int, image[1] as int, image[2] as int)] >= palette.len() / 3,
    ensures
        dither_spec(image, w, h, lut, palette, serpentine) == Err::<Seq<u8>, DitherError>(
            DitherError::LutIndexOutOfBounds,
        ),
{
    assert(w * h >= 1) by (nonlinear_arith)
        requires
            w > 0,
            h > 0,
    ;
    assert(dir(serpentine, 0) == 1);
    assert(0int / w == 0 && 0int % w == 0);
    assert(0 * w == 0);
    let s = scan(image, w, h, lut, palette, serpentine, 0).unwrap();
    assert(s.buf[0] == image[0] as int && s.buf[1] == image[1] as int && s.buf[2]
        == image[2] as int);
    assert(visit(s, w, h, lut, palette, serpentine, 0, 0) is None);
    assert(scan(image, w, h, lut, palette, serpentine, 1) is None);
    lemma_failure_persists(image, w, h, lut, palette, serpentine, 1, (w * h) as nat);
}

} // verus!
