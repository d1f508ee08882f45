//! Bilinear resizing of 8-bit planes.
//!
//! It serves as the spatial pre-filter: the Recommendation leaves the pre and
//! post filters to the implementation (§1.4.1.2 — only the geometry of
//! 256×143 per field is imposed).

use vstd::prelude::*;
use vstd::slice::*;

verus! {

/// One in 16.16 fixed point.
pub const ONE: u64 = 65536;

/// The step between two samples of the result, in samples of the source.
pub open spec fn axis_step(src: int, dst: int) -> int {
    (src * ONE) / dst
}

/// Where sample `d` of the result falls in the source, in 16.16 fixed point:
/// the samples are taken at their centres.
pub open spec fn axis_position(d: int, src: int, dst: int) -> int {
    let r = axis_step(src, dst);
    let x = d * r + r / 2 - ONE / 2;
    if x < 0 {
        0
    } else {
        x
    }
}

/// The sample of the source at or before a position.
pub open spec fn lower(position: int) -> int {
    position / (ONE as int)
}

/// The sample of the source behind a position; the last sample stands for
/// what lies beyond it.
pub open spec fn upper(position: int, size: int) -> int {
    if lower(position) + 1 < size {
        lower(position) + 1
    } else {
        size - 1
    }
}

/// The weighted mean of two values, times one.
pub open spec fn blend(a: int, b: int, weight: int) -> int {
    a * (ONE - weight) + b * weight
}

/// Sample (`dx`, `dy`) of the result: the four samples around its position,
/// weighted by their nearness, rounded to the nearest integer.
pub open spec fn bilinear(
    src: Seq<u8>,
    sw: int,
    sh: int,
    dw: int,
    dh: int,
    dx: int,
    dy: int,
) -> u8 {
    let fx = axis_position(dx, sw, dw);
    let fy = axis_position(dy, sh, dh);
    let wx = fx % (ONE as int);
    let wy = fy % (ONE as int);
    let top = blend(
        src[lower(fy) * sw + lower(fx)] as int,
        src[lower(fy) * sw + upper(fx, sw)] as int,
        wx,
    );
    let bottom = blend(
        src[upper(fy, sh) * sw + lower(fx)] as int,
        src[upper(fy, sh) * sw + upper(fx, sw)] as int,
        wx,
    );
    ((blend(top, bottom, wy) + ONE * ONE / 2) / (ONE * ONE)) as u8
}

/// The plane resized from `sw` × `sh` to `dw` × `dh`.
pub open spec fn resized(src: Seq<u8>, sw: int, sh: int, dw: int, dh: int) -> Seq<u8> {
    if sw == dw && sh == dh {
        src
    } else {
        Seq::new((dw * dh) as nat, |i: int| bilinear(src, sw, sh, dw, dh, i % dw, i / dw))
    }
}

/// The resizing can be computed: the source is a whole plane, neither plane is
/// empty, and coordinates and sizes fit their machine words.
pub open spec fn can_resize(src: Seq<u8>, sw: int, sh: int, dw: int, dh: int) -> bool {
    &&& src.len() == sw * sh
    &&& (sw == dw && sh == dh) || {
        &&& 0 < sw && sw * ONE <= u64::MAX
        &&& 0 < sh && sh * ONE <= u64::MAX
        &&& 0 < dw && 0 < dh
        &&& dw * dh <= usize::MAX
    }
}

/// A position falls inside the source.
proof fn lemma_axis(d: int, src: int, dst: int)
    requires
        0 <= d < dst,
        0 < src,
    ensures
        0 <= axis_step(src, dst),
        0 <= axis_position(d, src, dst) < src * ONE,
        0 <= d * axis_step(src, dst) + axis_step(src, dst) / 2 <= src * ONE,
        d * axis_step(src, dst) <= src * ONE,
        0 <= lower(axis_position(d, src, dst)) < src,
        0 <= upper(axis_position(d, src, dst), src) < src,
{
    let r = axis_step(src, dst);
    let total = src * ONE;
    vstd::arithmetic::div_mod::lemma_fundamental_div_mod(total, dst);
    vstd::arithmetic::div_mod::lemma_div_pos_is_pos(total, dst);
    vstd::arithmetic::div_mod::lemma_mod_bound(total, dst);
    assert(dst * r <= total);
    assert(d * r + r <= dst * r) by (nonlinear_arith)
        requires
            0 <= d < dst,
            0 <= r,
    ;
    assert(0 <= d * r) by (nonlinear_arith)
        requires
            0 <= d,
            0 <= r,
    ;
}

proof fn lemma_index(x: int, y: int, w: int, h: int)
    requires
        0 <= x < w,
        0 <= y < h,
    ensures
        0 <= y * w + x < w * h,
        0 <= y * w,
        (y * w + x) / w == y,
        (y * w + x) % w == x,
{
    assert(0 <= y * w + x < w * h) by (nonlinear_arith)
        requires
            0 <= x < w,
            0 <= y < h,
    ;
    assert(0 <= y * w) by (nonlinear_arith)
        requires
            0 < w,
            0 <= y,
    ;
    vstd::arithmetic::div_mod::lemma_fundamental_div_mod_converse(y * w + x, w, y, x);
}

proof fn lemma_blend_range(a: int, b: int, weight: int, top: int)
    requires
        0 <= a <= top,
        0 <= b <= top,
        0 <= weight <= ONE,
    ensures
        0 <= a * (ONE - weight),
        0 <= b * weight,
        0 <= blend(a, b, weight) <= top * ONE,
{
    assert(0 <= a * (ONE - weight) && 0 <= b * weight && a * (ONE - weight) + b * weight <= top
        * ONE) by (nonlinear_arith)
        requires
            0 <= a <= top,
            0 <= b <= top,
            0 <= weight <= ONE,
    ;
}

/// Resizes `src` (sw × sh) to (dw × dh), bilinear.
pub fn resize_plane(src: &[u8], sw: usize, sh: usize, dw: usize, dh: usize) -> (dst: Vec<u8>)
    requires
        can_resize(src@, sw as int, sh as int, dw as int, dh as int),
    ensures
        dst@ == resized(src@, sw as int, sh as int, dw as int, dh as int),
{
    if sw == dw && sh == dh {
        return slice_to_vec(src);
    }
    let mut dst: Vec<u8> = Vec::new();
    // Coordinates in 16.16 fixed point, sampled at the centre of the pixel.
    let xr: u64 = (sw as u64 * ONE) / dw as u64;
    let yr: u64 = (sh as u64 * ONE) / dh as u64;
    let ghost (w, h, v, u) = (sw as int, sh as int, dw as int, dh as int);
    let ghost whole = resized(src@, w, h, v, u);
    let mut dy: usize = 0;
    assert(0 * v == 0);
    while dy < dh
        invariant
            dy <= dh,
            w == sw,
            h == sh,
            v == dw,
            u == dh,
            !(sw == dw && sh == dh),
            can_resize(src@, w, h, v, u),
            xr == axis_step(w, v),
            yr == axis_step(h, u),
            whole == resized(src@, w, h, v, u),
            dst@.len() == dy * v,
            forall|i: int| 0 <= i < dst@.len() ==> #[trigger] dst@[i] == whole[i],
        decreases dh - dy,
    {
        proof {
            lemma_axis(dy as int, h, u);
        }
        let ybase: u64 = dy as u64 * yr + yr / 2;
        let fy: u64 = if ybase < ONE / 2 {
            0
        } else {
            ybase - ONE / 2
        };
        let sy: usize = (fy / ONE) as usize;
        let wy: u64 = fy % ONE;
        let sy1: usize = if sy + 1 < sh {
            sy + 1
        } else {
            sh - 1
        };
        let mut dx: usize = 0;
        while dx < dw
            invariant
                dx <= dw,
                dy < dh,
                w == sw,
                h == sh,
                v == dw,
                u == dh,
                !(sw == dw && sh == dh),
                can_resize(src@, w, h, v, u),
                xr == axis_step(w, v),
                fy == axis_position(dy as int, h, u),
                sy == lower(fy as int),
                sy1 == upper(fy as int, h),
                sy < sh,
                sy1 < sh,
                wy == fy as int % (ONE as int),
                whole == resized(src@, w, h, v, u),
                dst@.len() == dy * v + dx,
                forall|i: int| 0 <= i < dst@.len() ==> #[trigger] dst@[i] == whole[i],
            decreases dw - dx,
        {
            proof {
                lemma_axis(dx as int, w, v);
            }
            let xbase: u64 = dx as u64 * xr + xr / 2;
            let fx: u64 = if xbase < ONE / 2 {
                0
            } else {
                xbase - ONE / 2
            };
            let sx: usize = (fx / ONE) as usize;
            let wx: u64 = fx % ONE;
            let sx1: usize = if sx + 1 < sw {
                sx + 1
            } else {
                sw - 1
            };
            proof {
                assert(src.len() == src@.len());
                lemma_index(sx as int, sy as int, w, h);
                lemma_index(sx1 as int, sy as int, w, h);
                lemma_index(sx as int, sy1 as int, w, h);
                lemma_index(sx1 as int, sy1 as int, w, h);
                lemma_index(dx as int, dy as int, v, u);
            }
            let p00: u64 = src[sy * sw + sx] as u64;
            let p01: u64 = src[sy * sw + sx1] as u64;
            let p10: u64 = src[sy1 * sw + sx] as u64;
            let p11: u64 = src[sy1 * sw + sx1] as u64;
            proof {
                lemma_blend_range(p00 as int, p01 as int, wx as int, 255);
                lemma_blend_range(p10 as int, p11 as int, wx as int, 255);
            }
            let top: u64 = p00 * (ONE - wx) + p01 * wx;
            let bottom: u64 = p10 * (ONE - wx) + p11 * wx;
            proof {
                lemma_blend_range(top as int, bottom as int, wy as int, 255 * ONE);
            }
            let sum: u64 = top * (ONE - wy) + bottom * wy + ONE * ONE / 2;
            let value: u64 = sum / (ONE * ONE);
            dst.push(value as u8);
            proof {
                assert(whole[dy * v + dx] == value as u8);
            }
            dx += 1;
        }
        assert((dy + 1) * v == dy * v + v) by (nonlinear_arith);
        dy += 1;
    }
    assert(dst@ =~= whole) by {
        assert(u * v == v * u) by (nonlinear_arith);
    }
    dst
}

/// Resizing a plane to its own size leaves it as it is.
pub proof fn resizing_to_the_same_size_is_identity(src: Seq<u8>, w: int, h: int)
    ensures
        resized(src, w, h, w, h) == src,
{
}

/// A plane of one value stays a plane of that value.
pub proof fn constant_plane_stays_constant(
    src: Seq<u8>,
    sw: int,
    sh: int,
    dw: int,
    dh: int,
    value: u8,
    i: int,
)
    requires
        can_resize(src, sw, sh, dw, dh),
        forall|k: int| 0 <= k < src.len() ==> #[trigger] src[k] == value,
        0 <= i < resized(src, sw, sh, dw, dh).len(),
    ensures
        resized(src, sw, sh, dw, dh)[i] == value,
{
    if !(sw == dw && sh == dh) {
        let (dx, dy) = (i % dw, i / dw);
        vstd::arithmetic::div_mod::lemma_mod_bound(i, dw);
        vstd::arithmetic::div_mod::lemma_div_pos_is_pos(i, dw);
        assert(dy < dh) by {
            vstd::arithmetic::div_mod::lemma_div_by_multiple_is_strongly_ordered(
                i,
                dw * dh,
                dh,
                dw,
            );
            vstd::arithmetic::div_mod::lemma_div_multiples_vanish(dh, dw);
        }
        lemma_axis(dx, sw, dw);
        lemma_axis(dy, sh, dh);
        let (fx, fy) = (axis_position(dx, sw, dw), axis_position(dy, sh, dh));
        lemma_index(lower(fx), lower(fy), sw, sh);
        lemma_index(upper(fx, sw), lower(fy), sw, sh);
        lemma_index(lower(fx), upper(fy, sh), sw, sh);
        lemma_index(upper(fx, sw), upper(fy, sh), sw, sh);
        let (wx, wy) = (fx % (ONE as int), fy % (ONE as int));
        let p = value as int;
        assert(blend(p, p, wx) == p * ONE) by (nonlinear_arith);
        assert(blend(p * ONE, p * ONE, wy) == p * ONE * ONE) by (nonlinear_arith);
    }
}

/// A row interpolated at a position, times one.
spec fn at_position(src: Seq<u8>, sw: int, row: int, position: int) -> int {
    blend(
        src[row * sw + lower(position)] as int,
        src[row * sw + upper(position, sw)] as int,
        position % (ONE as int),
    )
}

/// In a row that does not fall, the interpolation does not fall either.
proof fn lemma_position_rises(src: Seq<u8>, sw: int, row: int, p: int, q: int)
    requires
        0 <= p <= q < sw * ONE,
        forall|i: int, j: int|
            0 <= i <= j < sw ==> src[#[trigger] (row * sw + i)] <= src[#[trigger] (row * sw + j)],
    ensures
        0 <= at_position(src, sw, row, p) <= at_position(src, sw, row, q) <= 255 * ONE,
{
    let one = ONE as int;
    let (a, b) = (lower(p), lower(q));
    vstd::arithmetic::div_mod::lemma_fundamental_div_mod(p, one);
    vstd::arithmetic::div_mod::lemma_fundamental_div_mod(q, one);
    assert(0 <= a <= b < sw);
    let (pa, pb) = (src[row * sw + a] as int, src[row * sw + upper(p, sw)] as int);
    let (qa, qb) = (src[row * sw + b] as int, src[row * sw + upper(q, sw)] as int);
    let (u, v) = (p % one, q % one);
    assert(pa <= pb && qa <= qb);
    lemma_blend_range(pa, pb, u, 255);
    lemma_blend_range(qa, qb, v, 255);
    if a == b {
        assert(u <= v);
        assert(pa * (one - u) + pb * u <= pa * (one - v) + pb * v) by (nonlinear_arith)
            requires
                pa <= pb,
                u <= v,
        ;
    } else {
        assert(pb <= qa);
        assert(pa * (one - u) + pb * u <= pb * one) by (nonlinear_arith)
            requires
                pa <= pb,
                0 <= u <= one,
        ;
        assert(qa * one <= qa * (one - v) + qb * v) by (nonlinear_arith)
            requires
                qa <= qb,
                0 <= v <= one,
        ;
        assert(pb * one <= qa * one) by (nonlinear_arith)
            requires
                pb <= qa,
                0 < one,
        ;
    }
}

/// Rows that do not fall from left to right do not fall in the resized plane
/// either: gradients stay monotone.
pub proof fn rising_rows_stay_rising(
    src: Seq<u8>,
    sw: int,
    sh: int,
    dw: int,
    dh: int,
    y: int,
    x1: int,
    x2: int,
)
    requires
        can_resize(src, sw, sh, dw, dh),
        forall|row: int, i: int, j: int|
            0 <= row < sh && 0 <= i <= j < sw ==> src[#[trigger] (row * sw + i)]
                <= src[#[trigger] (row * sw + j)],
        0 <= y < dh,
        0 <= x1 <= x2 < dw,
    ensures
        resized(src, sw, sh, dw, dh)[y * dw + x1] <= resized(src, sw, sh, dw, dh)[y * dw + x2],
{
    let one = ONE as int;
    if !(sw == dw && sh == dh) {
        lemma_index(x1, y, dw, dh);
        lemma_index(x2, y, dw, dh);
        lemma_axis(x1, sw, dw);
        lemma_axis(x2, sw, dw);
        lemma_axis(y, sh, dh);
        let (p, q) = (axis_position(x1, sw, dw), axis_position(x2, sw, dw));
        let r = axis_step(sw, dw);
        assert(x1 * r <= x2 * r) by (nonlinear_arith)
            requires
                x1 <= x2,
                0 <= r,
        ;
        assert(p <= q);
        let fy = axis_position(y, sh, dh);
        let wy = fy % one;
        let (low, high) = (lower(fy), upper(fy, sh));
        lemma_position_rises(src, sw, low, p, q);
        lemma_position_rises(src, sw, high, p, q);
        let (t1, t2) = (at_position(src, sw, low, p), at_position(src, sw, low, q));
        let (b1, b2) = (at_position(src, sw, high, p), at_position(src, sw, high, q));
        lemma_blend_range(t1, b1, wy, 255 * one);
        lemma_blend_range(t2, b2, wy, 255 * one);
        assert(blend(t1, b1, wy) <= blend(t2, b2, wy)) by (nonlinear_arith)
            requires
                t1 <= t2,
                b1 <= b2,
                0 <= wy <= one,
                one == ONE,
                blend(t1, b1, wy) == t1 * (ONE - wy) + b1 * wy,
                blend(t2, b2, wy) == t2 * (ONE - wy) + b2 * wy,
        ;
        let half = ONE * ONE / 2;
        let unit = ONE * ONE;
        assert(unit == 4_294_967_296);
        let (v1, v2) = (blend(t1, b1, wy) + half, blend(t2, b2, wy) + half);
        assert(v1 / 4_294_967_296 <= v2 / 4_294_967_296);
        assert(v2 / 4_294_967_296 <= 255);
    }
}

/// Bilinear resizing samples the source at the centres of the pixels of the result:
/// sample (`dx`, `dy`) is the mean of the four samples around
/// ((dx + 1/2)·sw/dw − 1/2, (dy + 1/2)·sh/dh − 1/2), held inside the source, each
/// weighted by its nearness in both directions, rounded to the nearest integer. The
/// coordinates are in 1/65536.
pub proof fn resizing_samples_at_centres(
    src: Seq<u8>,
    sw: int,
    sh: int,
    dw: int,
    dh: int,
    dx: int,
    dy: int,
)
    requires
        can_resize(src, sw, sh, dw, dh),
        !(sw == dw && sh == dh),
        0 <= dx < dw,
        0 <= dy < dh,
    ensures
        ({
            let (step_x, step_y) = ((sw * 65536) / dw, (sh * 65536) / dh);
            let (px, py) = (
                dx * step_x + step_x / 2 - 32768,
                dy * step_y + step_y / 2 - 32768,
            );
            let x = if px < 0 {
                0
            } else {
                px
            };
            let y = if py < 0 {
                0
            } else {
                py
            };
            let (left, top) = (x / 65536, y / 65536);
            let right = if left + 1 < sw {
                left + 1
            } else {
                sw - 1
            };
            let bottom = if top + 1 < sh {
                top + 1
            } else {
                sh - 1
            };
            let (wx, wy) = (x % 65536, y % 65536);
            let total = src[top * sw + left] * ((65536 - wx) * (65536 - wy)) + src[top * sw + right]
                * (wx * (65536 - wy)) + src[bottom * sw + left] * ((65536 - wx) * wy) + src[bottom
                * sw + right] * (wx * wy);
            let v = resized(src, sw, sh, dw, dh)[dy * dw + dx];
            &&& resized(src, sw, sh, dw, dh).len() == dw * dh
            &&& 0 <= left < sw && 0 <= top < sh
            &&& v * 4_294_967_296 - 2_147_483_648 <= total < v * 4_294_967_296 + 2_147_483_648
        }),
{
    let one = ONE as int;
    lemma_index(dx, dy, dw, dh);
    lemma_axis(dx, sw, dw);
    lemma_axis(dy, sh, dh);
    let (fx, fy) = (axis_position(dx, sw, dw), axis_position(dy, sh, dh));
    let (wx, wy) = (fx % one, fy % one);
    let a = src[lower(fy) * sw + lower(fx)] as int;
    let b = src[lower(fy) * sw + upper(fx, sw)] as int;
    let c = src[upper(fy, sh) * sw + lower(fx)] as int;
    let d = src[upper(fy, sh) * sw + upper(fx, sw)] as int;
    let (t, u) = (blend(a, b, wx), blend(c, d, wx));
    lemma_blend_range(a, b, wx, 255);
    lemma_blend_range(c, d, wx, 255);
    lemma_blend_range(t, u, wy, 255 * one);
    let total = a * ((65536 - wx) * (65536 - wy)) + b * (wx * (65536 - wy)) + c * ((65536 - wx)
        * wy) + d * (wx * wy);
    assert(blend(t, u, wy) == total) by (nonlinear_arith)
        requires
            t == a * (65536 - wx) + b * wx,
            u == c * (65536 - wx) + d * wx,
            blend(t, u, wy) == t * (65536 - wy) + u * wy,
            total == a * ((65536 - wx) * (65536 - wy)) + b * (wx * (65536 - wy)) + c * ((65536
                - wx) * wy) + d * (wx * wy),
    ;
    assert(ONE * ONE == 4_294_967_296);
    let v = (total + 2_147_483_648) / 4_294_967_296;
    assert(0 <= v <= 255);
    assert(resized(src, sw, sh, dw, dh)[dy * dw + dx] == v as u8);
}

/// A resized sample lies between the least and the greatest sample of the source.
pub proof fn resizing_stays_in_range(
    src: Seq<u8>,
    sw: int,
    sh: int,
    dw: int,
    dh: int,
    dx: int,
    dy: int,
    low: u8,
    high: u8,
)
    requires
        can_resize(src, sw, sh, dw, dh),
        0 <= dx < dw,
        0 <= dy < dh,
        forall|i: int| 0 <= i < src.len() ==> low <= #[trigger] src[i] <= high,
    ensures
        low <= resized(src, sw, sh, dw, dh)[dy * dw + dx] <= high,
{
    lemma_index(dx, dy, dw, dh);
    if !(sw == dw && sh == dh) {
        let one = ONE as int;
        lemma_axis(dx, sw, dw);
        lemma_axis(dy, sh, dh);
        let (fx, fy) = (axis_position(dx, sw, dw), axis_position(dy, sh, dh));
        let (wx, wy) = (fx % one, fy % one);
        lemma_index(lower(fx), lower(fy), sw, sh);
        lemma_index(upper(fx, sw), lower(fy), sw, sh);
        lemma_index(lower(fx), upper(fy, sh), sw, sh);
        lemma_index(upper(fx, sw), upper(fy, sh), sw, sh);
        let a = src[lower(fy) * sw + lower(fx)] as int;
        let b = src[lower(fy) * sw + upper(fx, sw)] as int;
        let c = src[upper(fy, sh) * sw + lower(fx)] as int;
        let d = src[upper(fy, sh) * sw + upper(fx, sw)] as int;
        let (t, u) = (blend(a, b, wx), blend(c, d, wx));
        lemma_blend_between(a, b, wx, low as int, high as int);
        lemma_blend_between(c, d, wx, low as int, high as int);
        lemma_blend_between(t, u, wy, low * one, high * one);
        assert(one * one == 4_294_967_296);
        assert((low * one) * one == low * 4_294_967_296) by (nonlinear_arith)
            requires
                one * one == 4_294_967_296,
        ;
        assert((high * one) * one == high * 4_294_967_296) by (nonlinear_arith)
            requires
                one * one == 4_294_967_296,
        ;
        assert(ONE * ONE == 4_294_967_296);
    }
}

proof fn lemma_blend_between(a: int, b: int, weight: int, low: int, high: int)
    requires
        low <= a <= high,
        low <= b <= high,
        0 <= weight <= ONE,
    ensures
        low * ONE <= blend(a, b, weight) <= high * ONE,
{
    assert(low * ONE <= a * (ONE - weight) + b * weight <= high * ONE) by (nonlinear_arith)
        requires
            low <= a <= high,
            low <= b <= high,
            0 <= weight <= ONE,
    ;
}

} // verus!
