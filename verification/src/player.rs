//! What the player shows: frames in RGB, in passes over the stream.

use vstd::prelude::*;
use crate::codec;
use crate::y4m::{Frame444, FrameView};

verus! {

/// The RGB sample of channel `c` (red, green, blue) at element `i` of a frame:
/// BT.601, limited range, in 1/256, rounded.
pub open spec fn rgb_sample(frame: FrameView, i: int, c: int) -> u8 {
    let y = (frame.y[i] - 16) * 298;
    let cb = frame.cb[i] - 128;
    let cr = frame.cr[i] - 128;
    let v = if c == 0 {
        y + 409 * cr
    } else if c == 1 {
        y - 100 * cb - 208 * cr
    } else {
        y + 516 * cb
    };
    codec::clip((v + 128) / 256, 0, 255)
}

/// A frame in interleaved RGB.
pub open spec fn in_rgb(frame: FrameView) -> Seq<u8> {
    Seq::new(
        (frame.w * frame.h * 3) as nat,
        |k: int| rgb_sample(frame, k / 3, k % 3),
    )
}

/// A value in 1/256, held between 0 and 255.
fn clamp_rgb(v: i32) -> (r: u8)
    ensures
        r == codec::clip(v as int / 256, 0, 255),
{
    if v < 0 {
        0
    } else {
        let x = v / 256;
        if x > 255 {
            255
        } else {
            x as u8
        }
    }
}

/// YCbCr (BT.601, limited range) → interleaved RGB conversion.
pub fn to_rgb(f: &Frame444) -> (rgb: Vec<u8>)
    requires
        f@.wf(),
        f.w * f.h * 3 <= usize::MAX,
    ensures
        rgb@ == in_rgb(f@),
{
    let n: usize = f.y.len();
    let mut rgb: Vec<u8> = Vec::new();
    let mut i: usize = 0;
    while i < n
        invariant
            i <= n,
            f@.wf(),
            n == f@.y.len(),
            rgb@.len() == 3 * i,
            forall|k: int|
                0 <= k < rgb@.len() ==> #[trigger] rgb@[k] == rgb_sample(f@, k / 3, k % 3),
        decreases n - i,
    {
        let y: i32 = (f.y[i] as i32 - 16) * 298;
        let cb: i32 = f.cb[i] as i32 - 128;
        let cr: i32 = f.cr[i] as i32 - 128;
        rgb.push(clamp_rgb(y + 409 * cr + 128));
        rgb.push(clamp_rgb(y - 100 * cb - 208 * cr + 128));
        rgb.push(clamp_rgb(y + 516 * cb + 128));
        i += 1;
    }
    assert(rgb@ =~= in_rgb(f@));
    rgb
}

/// Whether the stream is played once more: it had frames, and playback loops.
pub fn plays_again(frames: u64, looping: bool) -> (again: bool)
    ensures
        again == (frames > 0 && looping),
{
    frames > 0 && looping
}

/// `r` is `v / 256`, rounded to the nearest integer and held between 0 and 255.
pub open spec fn is_rounded(r: u8, v: int) -> bool {
    &&& v < -128 ==> r == 0
    &&& -128 <= v < 65_408 ==> 256 * r - 128 <= v < 256 * r + 128
    &&& v >= 65_408 ==> r == 255
}

/// The colors of a pixel follow BT.601 in limited range: with luminance from 16 to 235
/// and color differences about 128, red is 298/256 of luminance and 409/256 of the red
/// difference; green takes off 100/256 of the blue and 208/256 of the red difference;
/// blue adds 516/256 of the blue difference.
pub proof fn colors_follow_bt601(frame: FrameView, i: int)
    requires
        frame.wf(),
        0 <= i < frame.w * frame.h,
    ensures
        in_rgb(frame).len() == 3 * (frame.w * frame.h),
        is_rounded(
            in_rgb(frame)[3 * i],
            298 * (frame.y[i] - 16) + 409 * (frame.cr[i] - 128),
        ),
        is_rounded(
            in_rgb(frame)[3 * i + 1],
            298 * (frame.y[i] - 16) - 100 * (frame.cb[i] - 128) - 208 * (frame.cr[i] - 128),
        ),
        is_rounded(
            in_rgb(frame)[3 * i + 2],
            298 * (frame.y[i] - 16) + 516 * (frame.cb[i] - 128),
        ),
{
    assert((3 * i) / 3 == i && (3 * i) % 3 == 0);
    assert((3 * i + 1) / 3 == i && (3 * i + 1) % 3 == 1);
    assert((3 * i + 2) / 3 == i && (3 * i + 2) % 3 == 2);
    assert(frame.w * frame.h * 3 == 3 * (frame.w * frame.h)) by (nonlinear_arith);
}

/// Without color differences, a pixel is grey: its three colors are equal, and rise
/// with luminance from black at 16 to white at 235.
pub proof fn grey_stays_grey(frame: FrameView, i: int, j: int)
    requires
        frame.wf(),
        0 <= i < frame.w * frame.h,
        0 <= j < frame.w * frame.h,
        frame.cb[i] == 128 && frame.cr[i] == 128,
        frame.cb[j] == 128 && frame.cr[j] == 128,
        frame.y[i] <= frame.y[j],
    ensures
        in_rgb(frame)[3 * i] == in_rgb(frame)[3 * i + 1],
        in_rgb(frame)[3 * i + 1] == in_rgb(frame)[3 * i + 2],
        in_rgb(frame)[3 * i] <= in_rgb(frame)[3 * j],
        16 < frame.y[i] < frame.y[j] < 235 ==> in_rgb(frame)[3 * i] < in_rgb(frame)[3 * j],
        frame.y[i] <= 16 ==> in_rgb(frame)[3 * i] == 0,
        frame.y[i] >= 235 ==> in_rgb(frame)[3 * i] == 255,
{
    colors_follow_bt601(frame, i);
    colors_follow_bt601(frame, j);
}

} // verus!
