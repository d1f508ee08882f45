//! What does not move is not sent, and what does not change stays exact.

use vstd::prelude::*;
use crate::codec;
use crate::codec::clusters;
use crate::codec::coding;
use crate::codec::dpcm;
use crate::codec::dpcm::LineContext;
use crate::codec::encoder;
use crate::codec::encoder::{EncCounts, EncView};
use crate::codec::lockstep;
use crate::codec::{FieldView, BLANKING, CHROMA_WIDTH, LINES_PER_FIELD, WIDTH};
use crate::source;
use crate::source::InputView;
use crate::y4m::FrameView;

verus! {

/// A chrominance line that equals the input has no clusters.
proof fn lemma_still_chroma(ctx: LineContext, line: Seq<u8>, thr: int)
    requires
        thr >= 0,
    ensures
        coding::chroma_spans(ctx, line, line, thr).len() == 0,
{
    clusters::still_line_has_no_clusters(line, line, thr + 2, CHROMA_WIDTH - 1, CHROMA_WIDTH - 2);
}

/// A luminance line that equals the input has no clusters.
proof fn lemma_still_luma(ctx: LineContext, line: Seq<u8>, thr: int)
    requires
        thr >= 0,
    ensures
        coding::luma_spans(ctx, line, line, thr).len() == 0,
{
    clusters::still_line_has_no_clusters(line, line, thr, WIDTH - 2, WIDTH - 2);
}

/// A field of neutral chrominance.
pub open spec fn neutral(field: FieldView) -> bool {
    field.wf() && forall|l: int, e: int|
        0 <= l < LINES_PER_FIELD && 0 <= e < CHROMA_WIDTH ==> #[trigger] field.c[l][e] == BLANKING
}

/// An encoder in monochrome: its fields are neutral, and it has sent no
/// chrominance cluster.
pub open spec fn monochrome(ev: EncView) -> bool {
    &&& ev.mono
    &&& neutral(ev.fields[0])
    &&& neutral(ev.fields[1])
    &&& ev.saved_b1 matches Some(b1) ==> neutral(b1)
    &&& ev.stats.chroma_clusters == 0
}

/// An input field of neutral chrominance.
spec fn neutral_input(input: InputView) -> bool {
    input.wf() && forall|l: int, e: int|
        0 <= l < LINES_PER_FIELD && 0 <= e < CHROMA_WIDTH ==> #[trigger] input.c[l][e] == BLANKING
}

/// A line is sent without chrominance clusters.
proof fn lemma_line_monochrome(
    ev: EncView,
    f: int,
    l: int,
    input: InputView,
    pcm: bool,
    nt: Seq<bool>,
)
    requires
        ev.wf_but(2),
        monochrome(ev),
        0 <= f < 2,
        0 <= l < LINES_PER_FIELD,
        neutral_input(input),
    ensures
        monochrome(encoder::line_sent(ev, f, l, input, pcm, nt)),
{
    reveal(coding::moving_line);
    let code = encoder::line_code(ev, f, l, input, pcm, nt);
    let field = ev.fields[f];
    let ctx = ev.context(f, l, encoder::subsamples(ev, pcm), nt);
    let next = encoder::line_sent(ev, f, l, input, pcm, nt);
    assert(neutral(field));
    assert(input.c[l] =~= field.c[l]) by {
        assert forall|e: int| 0 <= e < CHROMA_WIDTH implies input.c[l][e] == field.c[l][e] by {
            assert(input.c[l][e] == BLANKING && field.c[l][e] == BLANKING);
        }
    }
    lemma_still_chroma(ctx, field.c[l], encoder::threshold(ev.occupancy));
    assert(code.c == field.c[l]);
    assert(code.chroma_clusters == 0);
    encoder::lemma_line_sent(ev, f, l, input, pcm, nt);
    let after = next.fields[f];
    assert(after.c =~= field.c);
}

/// Lines are sent without chrominance clusters.
proof fn lemma_lines_monochrome(
    ev: EncView,
    f: int,
    l: int,
    input: InputView,
    plan: Seq<bool>,
    nt: Seq<bool>,
)
    requires
        ev.wf_but(2),
        l > 0 ==> ev.wf(),
        monochrome(ev),
        0 <= f < 2,
        0 <= l <= LINES_PER_FIELD,
        neutral_input(input),
    ensures
        monochrome(encoder::lines_sent(ev, f, l, input, plan, nt)),
    decreases LINES_PER_FIELD - l,
{
    if l < LINES_PER_FIELD {
        let pcm = encoder::sends_pcm(ev, f, l, plan[l]);
        let next = encoder::line_sent(ev, f, l, input, pcm, nt);
        let code = encoder::line_code(ev, f, l, input, pcm, nt);
        encoder::lemma_line_sent(ev, f, l, input, pcm, nt);
        lemma_line_monochrome(ev, f, l, input, pcm, nt);
        lemma_lines_monochrome(next, f, l + 1, input, plan, code.not_trans);
    }
}

/// A field is sent without chrominance clusters.
proof fn lemma_field_monochrome(ev: EncView, f: int, input: InputView)
    requires
        ev.wf_but(1),
        monochrome(ev),
        0 <= f < 2,
        neutral_input(input),
    ensures
        monochrome(encoder::field_sent(ev, f, input)),
{
    reveal(encoder::field_sent);
    encoder::lemma_field_opened(ev, f);
    let opened = encoder::field_opened(ev, f);
    assert(neutral(opened.fields[f]));
    lemma_lines_monochrome(opened, f, 0, input, encoder::scheduled(ev, f).0, dpcm::none_omitted());
}

/// A frame ingested in monochrome is neutral.
proof fn lemma_ingested_neutral(frame: FrameView, f: int)
    requires
        0 <= f < 2,
    ensures
        neutral_input(source::ingested(frame, true, f)),
{
    source::lemma_ingested_legal(frame, true, f);
    let input = source::ingested(frame, true, f);
    let plane = source::chroma_plane(frame.cb, frame, true);
    assert forall|l: int, e: int| 0 <= l < LINES_PER_FIELD && 0 <= e < CHROMA_WIDTH implies
        #[trigger] input.c[l][e] == BLANKING by {
        let k = (2 * l + f) * CHROMA_WIDTH + e;
        assert(0 <= k < plane.len());
        assert(plane[k] == BLANKING);
        assert(source::chroma_plane(frame.cr, frame, true)[k] == BLANKING);
    }
}

/// An omitted field between neutral fields is neutral.
proof fn lemma_interpolated_neutral(omitted: FieldView, b1: FieldView, a1: FieldView)
    requires
        neutral(omitted),
        neutral(b1),
        neutral(a1),
    ensures
        neutral(codec::interpolated(omitted, 1, b1, a1)),
{
    let done = codec::interpolated(omitted, 1, b1, a1);
    assert forall|l: int, e: int| 0 <= l < LINES_PER_FIELD && 0 <= e < CHROMA_WIDTH implies
        #[trigger] done.c[l][e] == BLANKING by {
        assert(omitted.c[l][e] == BLANKING);
        if l + 1 < LINES_PER_FIELD {
            assert(b1.c[l + 1][e] == BLANKING);
            assert(a1.c[l + 1][e] == BLANKING);
        }
    }
}

/// A frame is coded without chrominance clusters.
proof fn lemma_frame_monochrome(ev: EncView, frame: FrameView)
    requires
        ev.wf(),
        monochrome(ev),
    ensures
        monochrome(encoder::frame_sent(ev, frame)),
{
    let counted = EncView {
        stats: EncCounts { frames: ev.stats.frames + 1, ..ev.stats },
        ..ev
    };
    let first = source::ingested(frame, true, 0);
    let second = source::ingested(frame, true, 1);
    let half = encoder::first_field_sent(ev, frame);
    lemma_ingested_neutral(frame, 0);
    lemma_ingested_neutral(frame, 1);
    encoder::lemma_field_sent(counted, 0, first);
    lemma_field_monochrome(counted, 0, first);
    lockstep::lemma_frame_sent(ev, frame);
    let sent = encoder::field_sent(counted, 0, first);
    if let Some(b1) = ev.saved_b1 {
        lemma_interpolated_neutral(sent.fields[1], b1, sent.fields[0]);
    }
    assert(monochrome(half));
    if !encoder::omits_field(half) {
        lemma_field_monochrome(half, 1, second);
    }
}

/// In monochrome, whatever the frames, chrominance stays neutral and no
/// chrominance cluster is sent.
pub proof fn monochrome_sends_no_chroma(bitrate: nat, frames: Seq<FrameView>)
    ensures
        monochrome(lockstep::encoded(bitrate, true, frames)),
    decreases frames.len(),
{
    if frames.len() == 0 {
        assert(neutral(codec::blank_field()));
    } else {
        lockstep::lemma_encoded_wf(bitrate, true, frames.drop_last());
        monochrome_sends_no_chroma(bitrate, frames.drop_last());
        lemma_frame_monochrome(
            lockstep::encoded(bitrate, true, frames.drop_last()),
            frames.last(),
        );
    }
}

/// The field shows the input: the same samples.
pub open spec fn shows(field: FieldView, input: InputView) -> bool {
    field.y == input.y && field.c == input.c
}

/// Nothing moves in the field.
pub open spec fn still(field: FieldView) -> bool {
    field == field.at_rest()
}

/// A line that equals the input stays as it is.
pub proof fn lemma_still_line(
    ev: EncView,
    f: int,
    l: int,
    input: InputView,
    pcm: bool,
    nt: Seq<bool>,
)
    requires
        ev.wf_but(2),
        0 <= f < 2,
        0 <= l < LINES_PER_FIELD,
        input.wf(),
        pcm || (ev.fields[f].y[l] == input.y[l] && ev.fields[f].c[l] == input.c[l]),
    ensures
        ({
            let code = encoder::line_code(ev, f, l, input, pcm, nt);
            &&& code.y == input.y[l]
            &&& code.c == input.c[l]
            &&& !pcm ==> code == coding::empty_line(ev.line(f, l))
        }),
{
    reveal(coding::moving_line);
    if pcm {
        assert(dpcm::blanked(input.y[l]) =~= input.y[l]);
    } else {
        let ctx = ev.context(f, l, encoder::subsamples(ev, pcm), nt);
        lemma_still_chroma(ctx, input.c[l], encoder::threshold(ev.occupancy));
        lemma_still_luma(ctx, input.y[l], encoder::threshold(ev.occupancy));
    }
}

/// A field that shows the input keeps showing it, and nothing moves in it.
proof fn lemma_still_lines(
    ev: EncView,
    f: int,
    l: int,
    input: InputView,
    plan: Seq<bool>,
    nt: Seq<bool>,
)
    requires
        ev.wf_but(2),
        l > 0 ==> ev.wf(),
        0 <= f < 2,
        0 <= l <= LINES_PER_FIELD,
        input.wf(),
        shows(ev.fields[f], input),
        still(ev.fields[f]),
    ensures
        encoder::lines_sent(ev, f, l, input, plan, nt).fields[f] == ev.fields[f],
    decreases LINES_PER_FIELD - l,
{
    if l < LINES_PER_FIELD {
        let pcm = encoder::sends_pcm(ev, f, l, plan[l]);
        let next = encoder::line_sent(ev, f, l, input, pcm, nt);
        let code = encoder::line_code(ev, f, l, input, pcm, nt);
        let field = ev.fields[f];
        assert(field.wf()) by {
            assert(ev.fields[0].wf() && ev.fields[1].wf());
        }
        encoder::lemma_line_sent(ev, f, l, input, pcm, nt);
        lemma_still_line(ev, f, l, input, pcm, nt);
        let rest = field.at_rest();
        assert(rest.y_moving[l] =~= Seq::new(WIDTH as nat, |e: int| false));
        assert(rest.c_moving[l] =~= Seq::new(CHROMA_WIDTH as nat, |e: int| false));
        assert(code.y_moving == field.y_moving[l]);
        assert(code.c_moving == field.c_moving[l]);
        assert(next.fields[f].y =~= field.y);
        assert(next.fields[f].c =~= field.c);
        assert(next.fields[f].y_moving =~= field.y_moving);
        assert(next.fields[f].c_moving =~= field.c_moving);
        assert(next.fields[f] =~= field);
        lemma_still_lines(next, f, l + 1, input, plan, code.not_trans);
    }
}

/// A field that shows the input is coded to itself, with nothing moving.
proof fn lemma_still_field(ev: EncView, f: int, input: InputView)
    requires
        ev.wf_but(1),
        0 <= f < 2,
        input.wf(),
        shows(ev.fields[f], input),
    ensures
        encoder::field_sent(ev, f, input).fields[f] == ev.fields[f].at_rest(),
{
    reveal(encoder::field_sent);
    encoder::lemma_field_opened(ev, f);
    let opened = encoder::field_opened(ev, f);
    assert(still(opened.fields[f]));
    lemma_still_lines(opened, f, 0, input, encoder::scheduled(ev, f).0, dpcm::none_omitted());
}

/// The fields of the encoder show the frame, and nothing moves in a field that
/// waits for an interpolation.
pub open spec fn exact(ev: EncView, frame: FrameView) -> bool {
    &&& shows(ev.fields[0], source::ingested(frame, ev.mono, 0))
    &&& shows(ev.fields[1], source::ingested(frame, ev.mono, 1))
    &&& ev.saved_b1 matches Some(b1) ==> still(b1)
}

/// Between two fields at rest, an omitted field stays as it is.
proof fn lemma_still_interpolation(omitted: FieldView, b1: FieldView, a1: FieldView, input: InputView)
    requires
        omitted.wf(),
        shows(omitted, input),
        input.wf(),
        still(b1),
        still(a1),
    ensures
        shows(codec::interpolated(omitted, 1, b1, a1), input),
{
    let done = codec::interpolated(omitted, 1, b1, a1);
    let (rb, ra) = (b1.at_rest(), a1.at_rest());
    assert forall|l: int| 0 <= l < LINES_PER_FIELD implies #[trigger] done.y[l] == input.y[l] by {
        assert forall|e: int| 0 <= e < WIDTH implies done.y[l][e] == input.y[l][e] by {
            assert(!codec::neighbour_moves(rb.y_moving, ra.y_moving, 1, l, e));
        }
        assert(done.y[l] =~= input.y[l]);
    }
    assert forall|l: int| 0 <= l < LINES_PER_FIELD implies #[trigger] done.c[l] == input.c[l] by {
        assert forall|e: int| 0 <= e < CHROMA_WIDTH implies done.c[l][e] == input.c[l][e] by {
            assert(!codec::neighbour_moves(rb.c_moving, ra.c_moving, 1, l, e));
        }
        assert(done.c[l] =~= input.c[l]);
    }
    assert(done.y =~= input.y);
    assert(done.c =~= input.c);
}

/// A static scene stays exact: once the fields of the encoder show a frame,
/// coding that frame again leaves them as they are.
pub proof fn exact_stays_exact(ev: EncView, frame: FrameView)
    requires
        ev.wf(),
        exact(ev, frame),
    ensures
        exact(encoder::frame_sent(ev, frame), frame),
{
    let counted = EncView {
        stats: EncCounts { frames: ev.stats.frames + 1, ..ev.stats },
        ..ev
    };
    let first = source::ingested(frame, ev.mono, 0);
    let second = source::ingested(frame, ev.mono, 1);
    let half = encoder::first_field_sent(ev, frame);
    source::lemma_ingested_legal(frame, ev.mono, 0);
    source::lemma_ingested_legal(frame, ev.mono, 1);
    encoder::lemma_field_sent(counted, 0, first);
    lemma_still_field(counted, 0, first);
    lockstep::lemma_frame_sent(ev, frame);
    let sent = encoder::field_sent(counted, 0, first);
    assert(still(sent.fields[0]));
    if let Some(b1) = ev.saved_b1 {
        lemma_still_interpolation(sent.fields[1], b1, sent.fields[0], second);
    }
    assert(shows(half.fields[0], first));
    assert(shows(half.fields[1], second));
    assert(still(half.fields[0]));
    if !encoder::omits_field(half) {
        encoder::lemma_field_sent(half, 1, second);
        lemma_still_field(half, 1, second);
    }
}

/// Line `k` of the field shows the input.
pub open spec fn line_shows(field: FieldView, input: InputView, k: int) -> bool {
    field.y[k] == input.y[k] && field.c[k] == input.c[k]
}

/// Of the lines from line `l` on, line `k` is sent as a PCM line.
pub open spec fn pcm_in_lines(
    ev: EncView,
    f: int,
    l: int,
    input: InputView,
    plan: Seq<bool>,
    nt: Seq<bool>,
    k: int,
) -> bool
    decreases LINES_PER_FIELD - l,
{
    if l >= LINES_PER_FIELD {
        false
    } else {
        let pcm = encoder::sends_pcm(ev, f, l, plan[l]);
        ||| pcm && l == k
        ||| pcm_in_lines(
            encoder::line_sent(ev, f, l, input, pcm, nt),
            f,
            l + 1,
            input,
            plan,
            encoder::line_code(ev, f, l, input, pcm, nt).not_trans,
            k,
        )
    }
}

/// Line `k` of the field is sent as a PCM line.
pub open spec fn pcm_in_field(ev: EncView, f: int, input: InputView, k: int) -> bool {
    pcm_in_lines(
        encoder::field_opened(ev, f),
        f,
        0,
        input,
        encoder::scheduled(ev, f).0,
        dpcm::none_omitted(),
        k,
    )
}

/// The encoder with one more frame counted.
spec fn counted_frame(ev: EncView) -> EncView {
    EncView {
        stats: EncCounts { frames: ev.stats.frames + 1, ..ev.stats },
        ..ev
    }
}

/// Line `k` of field `f` of the frame is sent as a PCM line.
#[verifier::opaque]
pub open spec fn pcm_in_frame(ev: EncView, frame: FrameView, f: int, k: int) -> bool {
    let counted = EncView {
        stats: EncCounts { frames: ev.stats.frames + 1, ..ev.stats },
        ..ev
    };
    let half = encoder::first_field_sent(ev, frame);
    if f == 0 {
        pcm_in_field(counted, 0, source::ingested(frame, ev.mono, 0), k)
    } else {
        !encoder::omits_field(half) && pcm_in_field(
            half,
            1,
            source::ingested(frame, ev.mono, 1),
            k,
        )
    }
}

/// The encoder after the same frame `n` times.
pub open spec fn static_scene(ev: EncView, frame: FrameView, n: nat) -> EncView
    decreases n,
{
    if n == 0 {
        ev
    } else {
        encoder::frame_sent(static_scene(ev, frame, (n - 1) as nat), frame)
    }
}

/// Line `k` of field `f` was sent as a PCM line in one of the `n` frames.
pub open spec fn pcm_in_scene(ev: EncView, frame: FrameView, n: nat, f: int, k: int) -> bool
    decreases n,
{
    if n == 0 {
        false
    } else {
        ||| pcm_in_scene(ev, frame, (n - 1) as nat, f, k)
        ||| pcm_in_frame(static_scene(ev, frame, (n - 1) as nat), frame, f, k)
    }
}

/// Coding lines: a line that shows the input or is sent as a PCM line shows it
/// then, and the lines sent as PCM lines count as refreshed.
proof fn lemma_pcm_lines(
    ev: EncView,
    f: int,
    l: int,
    input: InputView,
    plan: Seq<bool>,
    nt: Seq<bool>,
    k: int,
)
    requires
        ev.wf_but(2),
        l > 0 ==> ev.wf(),
        0 <= f < 2,
        0 <= l <= LINES_PER_FIELD,
        0 <= k < LINES_PER_FIELD,
        input.wf(),
    ensures
        ({
            let done = encoder::lines_sent(ev, f, l, input, plan, nt);
            let pcm = pcm_in_lines(ev, f, l, input, plan, nt, k);
            &&& line_shows(ev.fields[f], input, k) || pcm ==> line_shows(done.fields[f], input, k)
            &&& done.refreshed[f][k] == (ev.refreshed[f][k] || pcm)
            &&& done.refreshed[1 - f] == ev.refreshed[1 - f]
        }),
    decreases LINES_PER_FIELD - l,
{
    if l < LINES_PER_FIELD {
        let pcm = encoder::sends_pcm(ev, f, l, plan[l]);
        let next = encoder::line_sent(ev, f, l, input, pcm, nt);
        let code = encoder::line_code(ev, f, l, input, pcm, nt);
        encoder::lemma_line_sent(ev, f, l, input, pcm, nt);
        assert(ev.fields[f].wf()) by {
            assert(ev.fields[0].wf() && ev.fields[1].wf());
        }
        assert(ev.refreshed[f].len() == LINES_PER_FIELD);
        if k == l && (pcm || line_shows(ev.fields[f], input, k)) {
            lemma_still_line(ev, f, l, input, pcm, nt);
        }
        lemma_pcm_lines(next, f, l + 1, input, plan, code.not_trans, k);
    }
}

/// Coding a field: a line that shows the input or is sent as a PCM line shows it
/// then, and the lines sent as PCM lines count as refreshed.
pub proof fn lemma_pcm_field(ev: EncView, f: int, input: InputView, k: int)
    requires
        ev.wf_but(1),
        0 <= f < 2,
        0 <= k < LINES_PER_FIELD,
        input.wf(),
    ensures
        ({
            let done = encoder::field_sent(ev, f, input);
            let pcm = pcm_in_field(ev, f, input, k);
            &&& line_shows(ev.fields[f], input, k) || pcm ==> line_shows(done.fields[f], input, k)
            &&& done.refreshed[f][k] == (ev.refreshed[f][k] || pcm)
            &&& done.refreshed[1 - f] == ev.refreshed[1 - f]
        }),
{
    reveal(encoder::field_sent);
    encoder::lemma_field_opened(ev, f);
    lemma_pcm_lines(
        encoder::field_opened(ev, f),
        f,
        0,
        input,
        encoder::scheduled(ev, f).0,
        dpcm::none_omitted(),
        k,
    );
}

/// Coding a frame without omitting a field: a line that shows the frame (and is not
/// interpolated) or is sent as a PCM line shows it then.
proof fn lemma_pcm_frame(ev: EncView, frame: FrameView, f: int, k: int)
    requires
        ev.wf(),
        0 <= f < 2,
        0 <= k < LINES_PER_FIELD,
        !encoder::omits_field(encoder::first_field_sent(ev, frame)),
    ensures
        ({
            let done = encoder::frame_sent(ev, frame);
            let input = source::ingested(frame, ev.mono, f);
            let pcm = pcm_in_frame(ev, frame, f, k);
            &&& (ev.saved_b1 is None && line_shows(ev.fields[f], input, k)) || pcm ==> line_shows(
                done.fields[f],
                input,
                k,
            )
            &&& done.refreshed[f][k] == (ev.refreshed[f][k] || pcm)
            &&& done.saved_b1 is None
        }),
{
    reveal(pcm_in_frame);
    let counted = counted_frame(ev);
    let first = source::ingested(frame, ev.mono, 0);
    let second = source::ingested(frame, ev.mono, 1);
    let half = encoder::first_field_sent(ev, frame);
    source::lemma_ingested_legal(frame, ev.mono, 0);
    source::lemma_ingested_legal(frame, ev.mono, 1);
    lockstep::lemma_frame_sent(ev, frame);
    encoder::lemma_field_sent(counted, 0, first);
    encoder::lemma_field_sent(half, 1, second);
    lemma_pcm_field(counted, 0, first, k);
    lemma_pcm_field(half, 1, second, k);
}

/// A frame counts one omitted field, or none.
pub proof fn lemma_omissions(ev: EncView, frame: FrameView)
    requires
        ev.wf(),
    ensures
        ({
            let done = encoder::frame_sent(ev, frame);
            let omits = encoder::omits_field(encoder::first_field_sent(ev, frame));
            done.stats.fields_omitted == ev.stats.fields_omitted + if omits {
                1nat
            } else {
                0nat
            }
        }),
{
    let half = encoder::first_field_sent(ev, frame);
    source::lemma_ingested_legal(frame, ev.mono, 0);
    source::lemma_ingested_legal(frame, ev.mono, 1);
    encoder::lemma_field_sent(counted_frame(ev), 0, source::ingested(frame, ev.mono, 0));
    lockstep::lemma_frame_sent(ev, frame);
    encoder::lemma_field_sent(half, 1, source::ingested(frame, ev.mono, 1));
}

/// A static scene keeps the encoder whole, and omitted fields are counted.
pub proof fn lemma_static_scene(ev: EncView, frame: FrameView, n: nat)
    requires
        ev.wf(),
    ensures
        static_scene(ev, frame, n).wf(),
        static_scene(ev, frame, n).mono == ev.mono,
        static_scene(ev, frame, n).stats.fields_omitted >= ev.stats.fields_omitted,
    decreases n,
{
    if n > 0 {
        let before = static_scene(ev, frame, (n - 1) as nat);
        lemma_static_scene(ev, frame, (n - 1) as nat);
        lockstep::lemma_frame_sent(before, frame);
        lemma_omissions(before, frame);
    }
}

/// A line that was sent as a PCM line shows the static scene from then on, as long
/// as no field is omitted; and the lines refreshed in the scene are those sent as
/// PCM lines.
pub proof fn refreshed_line_shows_the_scene(
    ev: EncView,
    frame: FrameView,
    n: nat,
    f: int,
    k: int,
)
    requires
        ev.wf(),
        0 <= f < 2,
        0 <= k < LINES_PER_FIELD,
        static_scene(ev, frame, n).stats.fields_omitted == ev.stats.fields_omitted,
    ensures
        ({
            let done = static_scene(ev, frame, n);
            let pcm = pcm_in_scene(ev, frame, n, f, k);
            &&& pcm ==> line_shows(done.fields[f], source::ingested(frame, ev.mono, f), k)
            &&& done.refreshed[f][k] == (ev.refreshed[f][k] || pcm)
            &&& n > 0 ==> done.saved_b1 is None
        }),
    decreases n,
{
    if n > 0 {
        let m = (n - 1) as nat;
        let before = static_scene(ev, frame, m);
        lemma_static_scene(ev, frame, m);
        lemma_omissions(before, frame);
        refreshed_line_shows_the_scene(ev, frame, m, f, k);
        lemma_pcm_frame(before, frame, f, k);
    }
}

/// A static scene becomes exact: whatever was coded before, once every line of both
/// fields was sent as a PCM line since a field was last omitted, the fields of the
/// encoder show the frame.
pub proof fn static_scene_becomes_exact(ev: EncView, frame: FrameView, n: nat)
    requires
        ev.wf(),
        static_scene(ev, frame, n).stats.fields_omitted == ev.stats.fields_omitted,
        forall|f: int, k: int|
            0 <= f < 2 && 0 <= k < LINES_PER_FIELD ==> #[trigger] pcm_in_scene(
                ev,
                frame,
                n,
                f,
                k,
            ),
    ensures
        exact(static_scene(ev, frame, n), frame),
{
    let done = static_scene(ev, frame, n);
    lemma_static_scene(ev, frame, n);
    assert(pcm_in_scene(ev, frame, n, 0, 0));
    refreshed_line_shows_the_scene(ev, frame, n, 0, 0);
    assert forall|f: int| 0 <= f < 2 implies #[trigger] shows(
        done.fields[f],
        source::ingested(frame, ev.mono, f),
    ) by {
        let input = source::ingested(frame, ev.mono, f);
        source::lemma_ingested_legal(frame, ev.mono, f);
        assert(done.fields[f].wf()) by {
            assert(done.fields[0].wf() && done.fields[1].wf());
        }
        assert forall|k: int| 0 <= k < LINES_PER_FIELD implies #[trigger] done.fields[f].y[k]
            == input.y[k] && done.fields[f].c[k] == input.c[k] by {
            assert(pcm_in_scene(ev, frame, n, f, k));
            refreshed_line_shows_the_scene(ev, frame, n, f, k);
        }
        assert(done.fields[f].y =~= input.y);
        assert forall|k: int| 0 <= k < LINES_PER_FIELD implies #[trigger] done.fields[f].c[k]
            == input.c[k] by {
            assert(done.fields[f].y[k] == input.y[k]);
        }
        assert(done.fields[f].c =~= input.c);
    }
    assert(shows(done.fields[0], source::ingested(frame, ev.mono, 0)));
    assert(shows(done.fields[1], source::ingested(frame, ev.mono, 1)));
}

/// From the start, a static scene is exact when no line is left that was never
/// refreshed, as long as no field was omitted.
pub proof fn bootstrapped_scene_is_exact(bitrate: nat, mono: bool, frame: FrameView, n: nat)
    requires
        ({
            let ev = static_scene(encoder::fresh_encoder(bitrate, mono), frame, n);
            &&& ev.stats.fields_omitted == 0
            &&& !encoder::bootstrapping(ev.refreshed[0])
            &&& !encoder::bootstrapping(ev.refreshed[1])
        }),
    ensures
        exact(static_scene(encoder::fresh_encoder(bitrate, mono), frame, n), frame),
{
    let fresh = encoder::fresh_encoder(bitrate, mono);
    let done = static_scene(fresh, frame, n);
    lockstep::lemma_encoded_wf(bitrate, mono, Seq::empty());
    lemma_static_scene(fresh, frame, n);
    assert forall|f: int, k: int| 0 <= f < 2 && 0 <= k < LINES_PER_FIELD implies
        #[trigger] pcm_in_scene(fresh, frame, n, f, k) by {
        refreshed_line_shows_the_scene(fresh, frame, n, f, k);
        assert(done.refreshed[f].len() == LINES_PER_FIELD);
        assert(done.refreshed[f][k]);
        assert(!fresh.refreshed[f][k]);
    }
    static_scene_becomes_exact(fresh, frame, n);
}

/// The scene coded from the start is the run of its frames.
pub proof fn static_scene_is_encoded(bitrate: nat, mono: bool, frame: FrameView, n: nat)
    ensures
        static_scene(encoder::fresh_encoder(bitrate, mono), frame, n) == lockstep::encoded(
            bitrate,
            mono,
            Seq::new(n, |i: int| frame),
        ),
    decreases n,
{
    if n > 0 {
        let m = (n - 1) as nat;
        static_scene_is_encoded(bitrate, mono, frame, m);
        let frames = Seq::new(n, |i: int| frame);
        assert(frames.drop_last() =~= Seq::new(m, |i: int| frame));
    }
}

} // verus!
