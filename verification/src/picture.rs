//! What the conversions between frames and fields keep of the picture.

use vstd::prelude::*;
use crate::codec::FieldView;
use crate::scale;
use crate::source;
use crate::y4m::FrameView;

verus! {

/// `r` is `v`, held between `low` and `high`.
pub open spec fn is_held(r: u8, v: u8, low: u8, high: u8) -> bool {
    &&& low <= v <= high ==> r == v
    &&& v < low ==> r == low
    &&& v > high ==> r == high
}

/// A frame of the codec's own size is taken in sample by sample: element `e` of line `i`
/// of field `f` is the luminance of column `e` of row 2·i + f, held between black (16)
/// and white (239). The last element of a line is at blanking level (128).
pub proof fn luminance_is_taken_in(frame: FrameView, mono: bool, f: int, i: int, e: int)
    requires
        source::can_ingest(frame),
        frame.w == 256,
        frame.h == 286,
        0 <= f < 2,
        0 <= i < 143,
        0 <= e < 256,
    ensures
        source::ingested(frame, mono, f).y.len() == 143,
        source::ingested(frame, mono, f).y[i].len() == 256,
        e < 255 ==> is_held(
            source::ingested(frame, mono, f).y[i][e],
            frame.y[(2 * i + f) * 256 + e],
            16,
            239,
        ),
        e == 255 ==> source::ingested(frame, mono, f).y[i][e] == 128,
{
}

/// A frame of any other size is first resized to 256 × 286.
pub proof fn resized_luminance_is_taken_in(frame: FrameView, mono: bool, f: int, i: int, e: int)
    requires
        source::can_ingest(frame),
        0 <= f < 2,
        0 <= i < 143,
        0 <= e < 255,
    ensures
        is_held(
            source::ingested(frame, mono, f).y[i][e],
            scale::resized(frame.y, frame.w, frame.h, 256, 286)[(2 * i + f) * 256 + e],
            16,
            239,
        ),
{
}

/// Chrominance is resized to 52 × 286 and taken in sample by sample, held between 17
/// and 239: the blue difference on the even lines of field 1 and the odd lines of field
/// 2, the red difference on the others. The other component has no effect.
pub proof fn chrominance_is_taken_in(frame: FrameView, f: int, i: int, e: int)
    requires
        source::can_ingest(frame),
        0 <= f < 2,
        0 <= i < 143,
        0 <= e < 52,
    ensures
        source::ingested(frame, false, f).c.len() == 143,
        source::ingested(frame, false, f).c[i].len() == 52,
        (i + f) % 2 == 0 ==> is_held(
            source::ingested(frame, false, f).c[i][e],
            scale::resized(frame.cb, frame.w, frame.h, 52, 286)[(2 * i + f) * 52 + e],
            17,
            239,
        ),
        (i + f) % 2 == 1 ==> is_held(
            source::ingested(frame, false, f).c[i][e],
            scale::resized(frame.cr, frame.w, frame.h, 52, 286)[(2 * i + f) * 52 + e],
            17,
            239,
        ),
{
}

/// A frame of 52 × 286 gives its chrominance sample by sample.
pub proof fn narrow_chrominance_is_taken_in(frame: FrameView, f: int, i: int, e: int)
    requires
        source::can_ingest(frame),
        frame.w == 52,
        frame.h == 286,
        0 <= f < 2,
        0 <= i < 143,
        0 <= e < 52,
    ensures
        (i + f) % 2 == 0 ==> is_held(
            source::ingested(frame, false, f).c[i][e],
            frame.cb[(2 * i + f) * 52 + e],
            17,
            239,
        ),
        (i + f) % 2 == 1 ==> is_held(
            source::ingested(frame, false, f).c[i][e],
            frame.cr[(2 * i + f) * 52 + e],
            17,
            239,
        ),
{
}

/// In monochrome, chrominance is neutral, and luminance is the same as in color.
pub proof fn monochrome_is_neutral(frame: FrameView, f: int, i: int, e: int)
    requires
        source::can_ingest(frame),
        0 <= f < 2,
        0 <= i < 143,
        0 <= e < 52,
    ensures
        source::ingested(frame, true, f).c[i][e] == 128,
        source::ingested(frame, true, f).y == source::ingested(frame, false, f).y,
{
    let plane = source::chroma_plane(frame.cb, frame, true);
    let k = (2 * i + f) * 52 + e;
    assert(0 <= k < plane.len());
    assert(plane[k] == 128);
    assert(source::chroma_plane(frame.cr, frame, true)[k] == 128);
    assert(source::ingested(frame, true, f).y =~= source::ingested(frame, false, f).y);
}

/// The fields are woven: column `e` of row `r` of the picture is element `e` of line
/// r/2 of field 1 on even rows, of field 2 on odd rows. Two black rows follow.
pub proof fn fields_are_woven(fields: Seq<FieldView>, r: int, e: int)
    requires
        fields.len() == 2,
        fields[0].wf(),
        fields[1].wf(),
        0 <= r < 288,
        0 <= e < 256,
    ensures
        source::egressed(fields).w == 256,
        source::egressed(fields).h == 288,
        source::egressed(fields).wf(),
        r < 286 && r % 2 == 0 ==> source::egressed(fields).y[r * 256 + e] == fields[0].y[r / 2][e],
        r < 286 && r % 2 == 1 ==> source::egressed(fields).y[r * 256 + e] == fields[1].y[r / 2][e],
        r >= 286 ==> {
            &&& source::egressed(fields).y[r * 256 + e] == 16
            &&& source::egressed(fields).cb[r * 256 + e] == 128
            &&& source::egressed(fields).cr[r * 256 + e] == 128
        },
{
    assert((r * 256 + e) / 256 == r && (r * 256 + e) % 256 == e);
}

/// The component that a line carries is shown on its row, widened from 52 to 256
/// samples: blue difference on the even lines of field 1 and the odd lines of field 2,
/// red difference on the others.
pub proof fn carried_component_is_shown(fields: Seq<FieldView>, f: int, i: int, e: int)
    requires
        fields.len() == 2,
        fields[0].wf(),
        fields[1].wf(),
        0 <= f < 2,
        0 <= i < 143,
        0 <= e < 256,
    ensures
        (i + f) % 2 == 0 ==> source::egressed(fields).cb[(2 * i + f) * 256 + e] == scale::resized(
            fields[f].c[i],
            52,
            1,
            256,
            1,
        )[e],
        (i + f) % 2 == 1 ==> source::egressed(fields).cr[(2 * i + f) * 256 + e] == scale::resized(
            fields[f].c[i],
            52,
            1,
            256,
            1,
        )[e],
{
    let k = (2 * i + f) * 256 + e;
    assert(k / 256 == 2 * i + f && k % 256 == e);
    assert((2 * i + f) % 2 == f && (2 * i + f) / 2 == i);
}

/// The component that a line does not carry is the mean of the two lines of its field
/// above and below it, which carry it, widened. The first line takes that of the line
/// below it, the last that of the line above it. No other line has an effect.
pub proof fn missing_component_is_interpolated(
    fields: Seq<FieldView>,
    f: int,
    i: int,
    e: int,
    mid: Seq<u8>,
)
    requires
        fields.len() == 2,
        fields[0].wf(),
        fields[1].wf(),
        0 <= f < 2,
        0 <= i < 143,
        0 <= e < 256,
        mid.len() == 52,
        forall|k: int|
            0 <= k < 52 ==> {
                &&& 1 <= i <= 141 ==> 2 * (#[trigger] mid[k]) <= fields[f].c[i - 1][k] + fields[f].c[i
                    + 1][k] <= 2 * mid[k] + 1
                &&& i == 0 ==> mid[k] == fields[f].c[1][k]
                &&& i == 142 ==> mid[k] == fields[f].c[141][k]
            },
    ensures
        (i + f) % 2 == 1 ==> source::egressed(fields).cb[(2 * i + f) * 256 + e] == scale::resized(
            mid,
            52,
            1,
            256,
            1,
        )[e],
        (i + f) % 2 == 0 ==> source::egressed(fields).cr[(2 * i + f) * 256 + e] == scale::resized(
            mid,
            52,
            1,
            256,
            1,
        )[e],
{
    let k = (2 * i + f) * 256 + e;
    assert(k / 256 == 2 * i + f && k % 256 == e);
    assert((2 * i + f) % 2 == f && (2 * i + f) / 2 == i);
    let got = source::missing_component(fields[f].c, i);
    assert forall|j: int| 0 <= j < 52 implies got[j] == mid[j] by {
        let m = mid[j];
    }
    assert(got =~= mid);
}

/// Where the lines above and below hold one value, that is the missing component of the
/// whole row, whatever the other lines hold.
pub proof fn missing_component_follows_its_neighbours(
    fields: Seq<FieldView>,
    f: int,
    i: int,
    e: int,
    v: u8,
)
    requires
        fields.len() == 2,
        fields[0].wf(),
        fields[1].wf(),
        0 <= f < 2,
        1 <= i <= 141,
        0 <= e < 256,
        forall|k: int| 0 <= k < 52 ==> #[trigger] fields[f].c[i - 1][k] == v,
        forall|k: int| 0 <= k < 52 ==> #[trigger] fields[f].c[i + 1][k] == v,
    ensures
        (i + f) % 2 == 1 ==> source::egressed(fields).cb[(2 * i + f) * 256 + e] == v,
        (i + f) % 2 == 0 ==> source::egressed(fields).cr[(2 * i + f) * 256 + e] == v,
{
    let mid = Seq::new(52, |k: int| v);
    assert forall|k: int| 0 <= k < 52 implies 2 * (#[trigger] mid[k]) <= fields[f].c[i - 1][k]
        + fields[f].c[i + 1][k] <= 2 * mid[k] + 1 by {
        assert(fields[f].c[i - 1][k] == v);
        assert(fields[f].c[i + 1][k] == v);
    }
    missing_component_is_interpolated(fields, f, i, e, mid);
    scale::constant_plane_stays_constant(mid, 52, 1, 256, 1, v, e);
}

/// Upscaling by `n` repeats every sample `n` times in both directions: the sample at
/// (x, y) becomes the block from (n·x, n·y) to (n·x + n − 1, n·y + n − 1).
pub proof fn upscaling_repeats_samples(
    frame: FrameView,
    n: int,
    x: int,
    y: int,
    dx: int,
    dy: int,
)
    requires
        frame.wf(),
        1 <= n,
        0 <= x < frame.w,
        0 <= y < frame.h,
        0 <= dx < n,
        0 <= dy < n,
    ensures
        ({
            let big = source::upscaled(frame, n);
            let at = (y * n + dy) * (frame.w * n) + (x * n + dx);
            &&& big.w == frame.w * n
            &&& big.h == frame.h * n
            &&& big.y.len() == big.w * big.h
            &&& 0 <= at < big.y.len()
            &&& big.y[at] == frame.y[y * frame.w + x]
            &&& big.cb[at] == frame.cb[y * frame.w + x]
            &&& big.cr[at] == frame.cr[y * frame.w + x]
        }),
{
    let (w, h) = (frame.w, frame.h);
    let (bx, by) = (x * n + dx, y * n + dy);
    assert(0 <= bx < w * n) by (nonlinear_arith)
        requires
            0 <= x < w,
            0 <= dx < n,
            bx == x * n + dx,
    ;
    assert(0 <= by < h * n) by (nonlinear_arith)
        requires
            0 <= y < h,
            0 <= dy < n,
            by == y * n + dy,
    ;
    source::lemma_repeat_index(bx, by, w, h, n);
    vstd::arithmetic::div_mod::lemma_fundamental_div_mod_converse(bx, n, x, dx);
    vstd::arithmetic::div_mod::lemma_fundamental_div_mod_converse(by, n, y, dy);
    assert(x * n == n * x && y * n == n * y) by (nonlinear_arith);
    if n == 1 {
        assert(dx == 0 && dy == 0);
        assert(bx == x && by == y) by (nonlinear_arith)
            requires
                n == 1,
                dx == 0,
                dy == 0,
                bx == x * n + dx,
                by == y * n + dy,
        ;
        assert(w * n == w && h * n == h) by (nonlinear_arith)
            requires
                n == 1,
        ;
    }
}

/// The pixel aspect ratio makes the 256 samples and 286 lines of the image cover a screen
/// of 4:3, in lowest terms; an image that is not upscaled stays as it is.
pub proof fn image_covers_a_4_by_3_screen(frame: FrameView, n: int)
    requires
        n <= 1,
    ensures
        3 * (256 * source::PAR.0) == 4 * (286 * source::PAR.1),
        source::PAR.0 == 143,
        source::upscaled(frame, n) == frame,
{
}

} // verus!
