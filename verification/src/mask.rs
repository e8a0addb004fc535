//! Opacity masks of cutout textures: erosion by a texel radius and the removal of small islands.

use vstd::prelude::*;

verus! {

/// Whether the texel at column `x` and row `y` is opaque; what lies off the texture is not.
pub open spec fn opaque_at(mask: Seq<bool>, w: int, h: int, x: int, y: int) -> bool {
    0 <= x < w && 0 <= y < h && mask[y * w + x]
}

/// Whether every texel within Chebyshev distance `k` of (`x`, `y`) is opaque.
pub open spec fn solid_around(mask: Seq<bool>, w: int, h: int, x: int, y: int, k: int) -> bool {
    forall|a: int, b: int|
        x - k <= a <= x + k && y - k <= b <= y + k ==> #[trigger] opaque_at(mask, w, h, a, b)
}

/// The place of a texel in row-major order.
pub proof fn lemma_texel(w: int, h: int, x: int, y: int)
    requires
        0 <= x < w,
        0 <= y < h,
    ensures
        0 <= y * w + x < w * h,
        (y + 1) * w == y * w + w,
        (y - 1) * w == y * w - w,
        (y + 1) * w <= h * w,
        h * w == w * h,
        (y * w + x) / w == y,
        (y * w + x) % w == x,
{
    assert((y + 1) * w == y * w + w) by (nonlinear_arith);
    assert((y - 1) * w == y * w - w) by (nonlinear_arith);
    assert((y + 1) * w <= h * w) by (nonlinear_arith)
        requires
            y + 1 <= h,
            0 <= w,
    ;
    assert(h * w == w * h) by (nonlinear_arith);
    assert(0 <= y * w) by (nonlinear_arith)
        requires
            0 <= y,
            0 <= w,
    ;
    vstd::arithmetic::div_mod::lemma_fundamental_div_mod_converse(y * w + x, w, y, x);
}

/// A texel's column and row from its place.
pub proof fn lemma_place(w: int, h: int, i: int)
    requires
        0 <= i < w * h,
        0 <= w,
        0 <= h,
    ensures
        0 < w,
        0 <= i % w < w,
        0 <= i / w < h,
        i == (i / w) * w + i % w,
{
    assert(w != 0) by (nonlinear_arith)
        requires
            0 <= i < w * h,
    ;
    vstd::arithmetic::div_mod::lemma_fundamental_div_mod(i, w);
    let y = i / w;
    assert(w * y == y * w) by (nonlinear_arith);
    assert(0 <= i % w < w) by (nonlinear_arith)
        requires
            0 < w,
    ;
    assert(y < h) by (nonlinear_arith)
        requires
            i == w * y + i % w,
            0 <= i % w,
            i < w * h,
            0 < w,
    ;
    assert(0 <= y) by (nonlinear_arith)
        requires
            i == w * y + i % w,
            i % w < w,
            0 <= i,
            0 < w,
    ;
}

/// Whether a texel and its eight neighbours are all opaque.
fn solid_square(mask: &Vec<bool>, w: usize, h: usize, x: usize, y: usize) -> (r: bool)
    requires
        w * h == mask@.len(),
        x < w,
        y < h,
    ensures
        r == solid_around(mask@, w as int, h as int, x as int, y as int, 1),
{
    let ghost m = mask@;
    let ghost (wi, hi, xi, yi) = (w as int, h as int, x as int, y as int);
    proof {
        lemma_texel(wi, hi, xi, yi);
    }
    assert(y * w + x < mask.len());
    assert(y * w <= usize::MAX) by (nonlinear_arith)
        requires
            y * w + x < usize::MAX,
            0 <= x,
    ;
    let i: usize = y * w + x;
    if !mask[i] {
        assert(!opaque_at(m, wi, hi, xi, yi));
        return false;
    }
    if x == 0 {
        assert(!opaque_at(m, wi, hi, xi - 1, yi));
        return false;
    }
    if y == 0 {
        assert(!opaque_at(m, wi, hi, xi, yi - 1));
        return false;
    }
    if x + 1 == w {
        assert(!opaque_at(m, wi, hi, xi + 1, yi));
        return false;
    }
    if y + 1 == h {
        assert(!opaque_at(m, wi, hi, xi, yi + 1));
        return false;
    }
    proof {
        lemma_texel(wi, hi, xi + 1, yi + 1);
        lemma_texel(wi, hi, xi - 1, yi - 1);
        assert(i + w + 1 < mask.len());
    }
    let r = mask[i - 1] && mask[i + 1] && mask[i - w] && mask[i + w] && mask[i - w - 1] && mask[i
        - w + 1] && mask[i + w - 1] && mask[i + w + 1];
    assert(opaque_at(m, wi, hi, xi - 1, yi) == m[i - 1]);
    assert(opaque_at(m, wi, hi, xi + 1, yi) == m[i + 1]);
    assert(opaque_at(m, wi, hi, xi, yi - 1) == m[i - w]);
    assert(opaque_at(m, wi, hi, xi, yi + 1) == m[i + w]);
    assert(opaque_at(m, wi, hi, xi - 1, yi - 1) == m[i - w - 1]);
    assert(opaque_at(m, wi, hi, xi + 1, yi - 1) == m[i - w + 1]);
    assert(opaque_at(m, wi, hi, xi - 1, yi + 1) == m[i + w - 1]);
    assert(opaque_at(m, wi, hi, xi + 1, yi + 1) == m[i + w + 1]);
    assert(opaque_at(m, wi, hi, xi, yi) == m[i as int]);
    if r {
        assert forall|a: int, b: int|
            xi - 1 <= a <= xi + 1 && yi - 1 <= b <= yi + 1 implies #[trigger] opaque_at(
            m,
            wi,
            hi,
            a,
            b,
        ) by {
            assert(a == xi - 1 || a == xi || a == xi + 1);
            assert(b == yi - 1 || b == yi || b == yi + 1);
        }
    }
    r
}

/// A mask eroded by `k` texels: what stays opaque is what has only opaque texels within that
/// Chebyshev distance.
pub open spec fn eroded(mask: Seq<bool>, w: int, h: int, k: int) -> Seq<bool> {
    Seq::new(mask.len(), |i: int| solid_around(mask, w, h, i % w, i / w, k))
}

/// Eroding by one texel more is eroding once more by one texel.
pub proof fn erosion_adds_up(mask: Seq<bool>, w: int, h: int, k: int)
    requires
        0 <= w,
        0 <= h,
        mask.len() == w * h,
        0 <= k,
    ensures
        eroded(eroded(mask, w, h, k), w, h, 1) == eroded(mask, w, h, k + 1),
{
    let once = eroded(mask, w, h, k);
    assert forall|i: int| 0 <= i < mask.len() implies eroded(once, w, h, 1)[i] == eroded(
        mask,
        w,
        h,
        k + 1,
    )[i] by {
        lemma_place(w, h, i);
        let (x, y) = (i % w, i / w);
        if solid_around(once, w, h, x, y, 1) {
            assert forall|a: int, b: int|
                x - k - 1 <= a <= x + k + 1 && y - k - 1 <= b <= y + k
                    + 1 implies #[trigger] opaque_at(mask, w, h, a, b) by {
                let p = if a < x - k {
                    x - 1
                } else if a > x + k {
                    x + 1
                } else {
                    x
                };
                let q = if b < y - k {
                    y - 1
                } else if b > y + k {
                    y + 1
                } else {
                    y
                };
                assert(opaque_at(once, w, h, p, q));
                lemma_texel(w, h, p, q);
                assert(solid_around(mask, w, h, p, q, k));
            }
        }
        if solid_around(mask, w, h, x, y, k + 1) {
            assert forall|p: int, q: int|
                x - 1 <= p <= x + 1 && y - 1 <= q <= y + 1 implies #[trigger] opaque_at(
                once,
                w,
                h,
                p,
                q,
            ) by {
                assert(opaque_at(mask, w, h, p, q));
                lemma_texel(w, h, p, q);
                assert forall|a: int, b: int|
                    p - k <= a <= p + k && q - k <= b <= q + k implies #[trigger] opaque_at(
                    mask,
                    w,
                    h,
                    a,
                    b,
                ) by {}
            }
        }
    }
    assert(eroded(once, w, h, 1) =~= eroded(mask, w, h, k + 1));
}

proof fn lemma_erode_nothing(mask: Seq<bool>, w: int, h: int)
    requires
        0 <= w,
        0 <= h,
        mask.len() == w * h,
    ensures
        eroded(mask, w, h, 0) == mask,
{
    assert forall|i: int| 0 <= i < mask.len() implies eroded(mask, w, h, 0)[i] == mask[i] by {
        lemma_place(w, h, i);
        assert(opaque_at(mask, w, h, i % w, i / w) == mask[i]);
    }
    assert(eroded(mask, w, h, 0) =~= mask);
}

/// Eroding by some texels and then by others is eroding by all of them at once.
pub proof fn erosions_compose(mask: Seq<bool>, w: int, h: int, a: int, b: int)
    requires
        0 <= w,
        0 <= h,
        mask.len() == w * h,
        0 <= a,
        0 <= b,
    ensures
        eroded(eroded(mask, w, h, a), w, h, b) == eroded(mask, w, h, a + b),
    decreases b,
{
    let first = eroded(mask, w, h, a);
    if b == 0 {
        lemma_erode_nothing(first, w, h);
    } else {
        erosion_adds_up(first, w, h, b - 1);
        erosions_compose(mask, w, h, a, b - 1);
        erosion_adds_up(mask, w, h, a + b - 1);
    }
}

/// Erode the opaque mask inward by `erode_px` texels: an opaque texel within that Chebyshev
/// distance of any transparent texel (or the texture border) becomes transparent.
pub fn erode_alpha(mask: &Vec<bool>, w: usize, h: usize, erode_px: u32) -> (r: Vec<bool>)
    requires
        w * h == mask@.len(),
    ensures
        r@ == eroded(mask@, w as int, h as int, erode_px as int),
{
    let ghost (wi, hi) = (w as int, h as int);
    let mut now: Vec<bool> = mask.clone();
    proof {
        assert(now@ =~= mask@);
        lemma_erode_nothing(mask@, wi, hi);
    }
    for round in 0..erode_px
        invariant
            wi == w,
            hi == h,
            w * h == mask@.len(),
            now@ == eroded(mask@, wi, hi, round as int),
    {
        let mut next: Vec<bool> = Vec::new();
        for i in 0..now.len()
            invariant
                wi == w,
                hi == h,
                w * h == now@.len(),
                next@.len() == i,
                forall|j: int| 0 <= j < i ==> next@[j] == eroded(now@, wi, hi, 1)[j],
        {
            proof {
                lemma_place(wi, hi, i as int);
            }
            next.push(solid_square(&now, w, h, i % w, i / w));
        }
        proof {
            erosion_adds_up(mask@, wi, hi, round as int);
            assert(next@ =~= eroded(now@, wi, hi, 1));
        }
        now = next;
    }
    now
}

/// A texel stays opaque exactly where every texel up to `k` columns and `k` rows away is on the
/// texture and opaque; so nothing within `k` texels of the border stays, and eroding by nothing
/// changes nothing.
pub proof fn erosion_keeps_what_is_deep(mask: Seq<bool>, w: int, h: int, k: int, x: int, y: int)
    requires
        0 <= k,
        0 <= x < w,
        0 <= y < h,
        mask.len() == w * h,
    ensures
        eroded(mask, w, h, k).len() == mask.len(),
        eroded(mask, w, h, k)[y * w + x] <==> (k <= x < w - k && k <= y < h - k && forall|
            a: int,
            b: int,
        |
            x - k <= a <= x + k && y - k <= b <= y + k ==> #[trigger] mask[b * w + a]),
        k == 0 ==> eroded(mask, w, h, k)[y * w + x] == mask[y * w + x],
{
    lemma_texel(w, h, x, y);
    let at = y * w + x;
    assert(eroded(mask, w, h, k)[at] == solid_around(mask, w, h, x, y, k));
    let deep = k <= x < w - k && k <= y < h - k && forall|a: int, b: int|
        x - k <= a <= x + k && y - k <= b <= y + k ==> #[trigger] mask[b * w + a];
    if solid_around(mask, w, h, x, y, k) {
        assert(opaque_at(mask, w, h, x - k, y - k));
        assert(opaque_at(mask, w, h, x + k, y + k));
        assert forall|a: int, b: int| x - k <= a <= x + k && y - k <= b <= y + k implies #[trigger] mask[b
            * w + a] by {
            assert(opaque_at(mask, w, h, a, b));
        }
    }
    if deep {
        assert forall|a: int, b: int| x - k <= a <= x + k && y - k <= b <= y + k implies #[trigger] opaque_at(
            mask,
            w,
            h,
            a,
            b,
        ) by {
            assert(mask[b * w + a]);
        }
    }
    if k == 0 {
        if mask[at] {
            assert forall|a: int, b: int| x - k <= a <= x + k && y - k <= b <= y + k implies #[trigger] opaque_at(
                mask,
                w,
                h,
                a,
                b,
            ) by {
                assert(a == x && b == y);
            }
        } else if solid_around(mask, w, h, x, y, 0) {
            assert(opaque_at(mask, w, h, x, y));
        }
    }
}

} // verus!
