use vstd::prelude::*;
use vstd::arithmetic::div_mod::lemma_fundamental_div_mod_converse;

verus! {

/// Horizontal scan direction of row `y`: `-1` (right to left) on odd rows
/// of a serpentine scan, `+1` otherwise.
pub open spec fn dir(serpentine: bool, y: int) -> int {
    if serpentine && y % 2 == 1 {
        -1
    } else {
        1
    }
}

/// Pixel `(px, py)` lies on the canvas and receives a share of the error of
/// pixel `(x, y)`: two pixels ahead in the same row, three in the next row
/// (behind, below, ahead) and one two rows below.
pub open spec fn receives(
    w: int,
    h: int,
    serpentine: bool,
    x: int,
    y: int,
    px: int,
    py: int,
) -> bool {
    let d = dir(serpentine, y);
    &&& 0 <= px < w
    &&& 0 <= py < h
    &&& {
        ||| (py == y && (px == x + d || px == x + 2 * d))
        ||| (py == y + 1 && (px == x - d || px == x || px == x + d))
        ||| (py == y + 2 && px == x)
    }
}

/// `p` is the flat index of a pixel that receives a share of the error of
/// pixel `(x, y)`.
pub open spec fn receives_index(
    w: int,
    h: int,
    serpentine: bool,
    x: int,
    y: int,
    p: int,
) -> bool {
    0 <= p && receives(w, h, serpentine, x, y, p % w, p / w)
}

/// Column `x + k * dir`, when it lies in `[0, w)`.
fn offset_column(x: usize, k: usize, forward: bool, w: usize) -> (r: Option<usize>)
    requires
        x < w,
        k <= 2,
    ensures
        ({
            let c = if forward { x + k } else { x - k };
            r == if 0 <= c < w { Some(c as usize) } else { None::<usize> }
        }),
{
    if forward {
        if k < w - x {
            Some(x + k)
        } else {
            None
        }
    } else {
        if k <= x {
            Some(x - k)
        } else {
            None
        }
    }
}

pub(crate) proof fn lemma_flat_index(w: int, h: int, x: int, y: int)
    requires
        0 <= x < w,
        0 <= y < h,
    ensures
        0 <= y * w + x < w * h,
        (y * w + x) % w == x,
        (y * w + x) / w == y,
{
    assert(0 <= y * w + x < w * h) by (nonlinear_arith)
        requires
            0 <= x < w,
            0 <= y < h,
    ;
    lemma_fundamental_div_mod_converse(y * w + x, w, y, x);
}

/// `v` is one of the entries of `s`.
pub open spec fn lists(s: Seq<usize>, v: int) -> bool {
    exists|i: int| 0 <= i < s.len() && s[i] as int == v
}

proof fn lemma_prefix_lists(s: Seq<usize>, t: Seq<usize>, v: int)
    requires
        lists(s, v),
        s.len() <= t.len(),
        forall|i: int| 0 <= i < s.len() ==> t[i] == s[i],
    ensures
        lists(t, v),
{
    let i = choose|i: int| 0 <= i < s.len() && s[i] as int == v;
    assert(t[i] as int == v);
}

/// The entries of the first `j + 1` elements are those of the first `j`
/// and element `j`.
pub(crate) proof fn lemma_lists_take_next(s: Seq<usize>, j: int)
    requires
        0 <= j < s.len(),
    ensures
        forall|v: int| lists(s.take(j + 1), v) <==> (lists(s.take(j), v) || v == s[j] as int),
{
    assert forall|v: int| lists(s.take(j + 1), v) <==> (lists(s.take(j), v) || v == s[j] as int) by {
        if lists(s.take(j + 1), v) {
            let k = choose|k: int| 0 <= k < j + 1 && #[trigger] s.take(j + 1)[k] as int == v;
            if k < j {
                assert(s.take(j)[k] as int == v);
            }
        }
        if v == s[j] as int {
            assert(s.take(j + 1)[j] as int == v);
        }
        if lists(s.take(j), v) {
            let k = choose|k: int| 0 <= k < j && #[trigger] s.take(j)[k] as int == v;
            assert(s.take(j + 1)[k] as int == v);
        }
    }
}

/// Appends `p` to a list whose entries are all below it.
fn push_above(r: &mut Vec<usize>, p: usize)
    requires
        forall|i: int| 0 <= i < old(r).len() ==> old(r)[i] < p,
    ensures
        final(r)@ == old(r)@.push(p),
        lists(final(r)@, p as int),
        forall|v: int| lists(old(r)@, v) ==> lists(final(r)@, v),
{
    let ghost before = r@;
    r.push(p);
    assert(r@[before.len() as int] == p);
    assert forall|v: int| lists(before, v) implies lists(r@, v) by {
        lemma_prefix_lists(before, r@, v);
    }
}

/// The flat indices, in increasing order, of the pixels that receive a share
/// of the error of pixel `(x, y)`.
#[verifier::rlimit(80)]
pub fn diffusion_targets(w: usize, h: usize, serpentine: bool, x: usize, y: usize) -> (r: Vec<usize>)
    requires
        x < w,
        y < h,
        w * h <= usize::MAX,
    ensures
        forall|i: int, j: int| 0 <= i < j < r.len() ==> r[i] < r[j],
        forall|i: int|
            0 <= i < r.len() ==> r[i] < w * h && receives_index(
                w as int,
                h as int,
                serpentine,
                x as int,
                y as int,
                r[i] as int,
            ),
        forall|p: int|
            receives_index(w as int, h as int, serpentine, x as int, y as int, p) ==> lists(r@, p),
{
    let ghost (wi, hi, xi, yi) = (w as int, h as int, x as int, y as int);
    let ghost d = dir(serpentine, yi);
    let forward = !(serpentine && y % 2 == 1);
    assert(forward <==> d == 1);
    let mut r: Vec<usize> = Vec::new();
    // the current row, in increasing column order
    let (first, second) = if forward {
        (offset_column(x, 1, true, w), offset_column(x, 2, true, w))
    } else {
        (offset_column(x, 2, false, w), offset_column(x, 1, false, w))
    };
    if let Some(c) = first {
        proof { lemma_flat_index(wi, hi, c as int, yi); }
        push_above(&mut r, y * w + c);
    }
    if let Some(c) = second {
        proof { lemma_flat_index(wi, hi, c as int, yi); }
        push_above(&mut r, y * w + c);
    }
    let ghost row0 = r@;
    assert(0 <= xi + d < wi ==> lists(row0, yi * wi + xi + d));
    assert(0 <= xi + 2 * d < wi ==> lists(row0, yi * wi + xi + 2 * d));
    assert((yi + 1) * wi == yi * wi + wi) by (nonlinear_arith);
    assert(forall|i: int| 0 <= i < r.len() ==> r[i] < (yi + 1) * wi);
    // the next row: behind, below and ahead, in increasing column order
    if y + 1 < h {
        proof { lemma_flat_index(wi, hi, xi, yi + 1); }
        let row = (y + 1) * w;
        if x > 0 {
            proof { lemma_flat_index(wi, hi, xi - 1, yi + 1); }
            push_above(&mut r, row + x - 1);
        }
        push_above(&mut r, row + x);
        if x + 1 < w {
            proof { lemma_flat_index(wi, hi, xi + 1, yi + 1); }
            push_above(&mut r, row + x + 1);
        }
    }
    let ghost row1 = r@;
    assert(yi + 1 < hi && 0 < xi ==> lists(row1, (yi + 1) * wi + xi - 1));
    assert(yi + 1 < hi ==> lists(row1, (yi + 1) * wi + xi));
    assert(yi + 1 < hi && xi + 1 < wi ==> lists(row1, (yi + 1) * wi + xi + 1));
    assert((yi + 2) * wi == yi * wi + 2 * wi) by (nonlinear_arith);
    assert(forall|i: int| 0 <= i < r.len() ==> r[i] < (yi + 2) * wi);
    // two rows below
    if h - y > 2 {
        proof { lemma_flat_index(wi, hi, xi, yi + 2); }
        push_above(&mut r, (y + 2) * w + x);
    }
    assert(yi + 2 < hi ==> lists(r@, (yi + 2) * wi + xi));
    proof { lemma_targets_covered(wi, hi, serpentine, xi, yi, row0, row1, r@); }
    r
}

/// Every receiving pixel is among the candidates that were collected.
proof fn lemma_targets_covered(
    wi: int,
    hi: int,
    serpentine: bool,
    xi: int,
    yi: int,
    row0: Seq<usize>,
    row1: Seq<usize>,
    r: Seq<usize>,
)
    requires
        0 <= xi < wi,
        0 <= yi < hi,
        forall|v: int| lists(row0, v) ==> lists(r, v),
        forall|v: int| lists(row1, v) ==> lists(r, v),
        ({
            let d = dir(serpentine, yi);
            &&& 0 <= xi + d < wi ==> lists(row0, yi * wi + xi + d)
            &&& 0 <= xi + 2 * d < wi ==> lists(row0, yi * wi + xi + 2 * d)
        }),
        yi + 1 < hi && 0 < xi ==> lists(row1, (yi + 1) * wi + xi - 1),
        yi + 1 < hi ==> lists(row1, (yi + 1) * wi + xi),
        yi + 1 < hi && xi + 1 < wi ==> lists(row1, (yi + 1) * wi + xi + 1),
        yi + 2 < hi ==> lists(r, (yi + 2) * wi + xi),
    ensures
        forall|p: int| receives_index(wi, hi, serpentine, xi, yi, p) ==> lists(r, p),
{
    assert forall|p: int| receives_index(wi, hi, serpentine, xi, yi, p) implies lists(r, p) by {
        let (px, py) = (p % wi, p / wi);
        vstd::arithmetic::div_mod::lemma_fundamental_div_mod(p, wi);
        assert(wi * py == py * wi) by (nonlinear_arith);
        assert(p == py * wi + px);
    }
}

} // verus!
