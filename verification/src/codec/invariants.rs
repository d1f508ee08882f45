//! What the encoder's reconstruction keeps, frame by frame.

use vstd::prelude::*;
use crate::codec;
use crate::codec::coding;
use crate::codec::coding::{LineCode, LineStore, PlaneState};
use crate::codec::dpcm;
use crate::codec::dpcm::{Cluster, LineContext, Plane};
use crate::codec::encoder;
use crate::codec::encoder::{EncCounts, EncView};
use crate::codec::lockstep;
use crate::codec::{
    FieldView, BLANKING, CHROMA_WIDTH, C_MAX, C_MIN, LINES_PER_FIELD, WIDTH, Y_MAX, Y_MIN,
};
use crate::source;
use crate::source::InputView;
use crate::y4m::FrameView;

verus! {

/// Every sample of the line is legal.
spec fn legal_line(plane: Plane, line: Seq<u8>) -> bool {
    &&& line.len() == plane.width()
    &&& forall|e: int| 0 <= e < line.len() ==> plane.legal(#[trigger] line[e])
}

/// The codes of a cluster reconstruct legal samples.
proof fn lemma_codes_legal(plane: Plane, st: Cluster, input: Seq<u8>, end: int, extra_ok: bool)
    requires
        coding::on_course(plane, st, end),
        legal_line(plane, st.line),
    ensures
        legal_line(plane, coding::codes(plane, st, input, end, extra_ok).1.line),
    decreases end - st.q,
{
    let t = dpcm::target(plane, st);
    if t <= end {
        let st1 = if coding::sends_extra(plane, st, input, extra_ok) {
            coding::coded_extra(plane, st, input[st.q + 1]).1
        } else {
            st
        };
        assert(legal_line(plane, st1.line));
        let st2 = coding::coded_normal(plane, st1, input[t]).1;
        assert(legal_line(plane, st2.line)) by {
            assert(plane.legal(st1.line[st1.q]));
        }
        lemma_codes_legal(plane, st2, input, end, extra_ok);
    }
}

/// Clusters reconstruct legal samples.
proof fn lemma_clusters_legal(
    plane: Plane,
    spans: Seq<(int, int)>,
    i: int,
    ps: PlaneState,
    input: Seq<u8>,
    extra_ok: bool,
    more: bool,
)
    requires
        0 <= i <= spans.len(),
        coding::plane_wf(plane, ps),
        coding::codable(plane, spans),
        legal_line(plane, ps.line),
        legal_line(plane, input),
    ensures
        legal_line(
            plane,
            coding::clusters_code(plane, spans, i, ps, input, extra_ok, more).1.line,
        ),
    decreases spans.len() - i,
{
    if i < spans.len() {
        let span = spans[i];
        let start = coding::cluster_start(plane, ps, input, span.0);
        coding::lemma_cluster_code(plane, ps, input, span, extra_ok);
        assert(legal_line(plane, start.line)) by {
            assert(plane.legal(input[span.0]));
        }
        lemma_codes_legal(plane, start, input, span.1, extra_ok);
        let next = coding::cluster_code(plane, ps, input, span, extra_ok).1;
        lemma_clusters_legal(plane, spans, i + 1, next, input, extra_ok, more);
    }
}

/// A field of legal samples: luminance between black and white with its last
/// element at blanking level, chrominance in its range.
pub open spec fn legal_field(field: FieldView) -> bool {
    &&& field.wf()
    &&& forall|l: int, e: int|
        0 <= l < LINES_PER_FIELD && 0 <= e < WIDTH ==> Y_MIN <= #[trigger] field.y[l][e] <= Y_MAX
    &&& forall|l: int| 0 <= l < LINES_PER_FIELD ==> (#[trigger] field.y[l])[WIDTH - 1] == BLANKING
    &&& forall|l: int, e: int|
        0 <= l < LINES_PER_FIELD && 0 <= e < CHROMA_WIDTH ==> C_MIN <= #[trigger] field.c[l][e]
            <= C_MAX
}

/// All fields of the encoder are legal.
pub open spec fn legal_state(ev: EncView) -> bool {
    &&& legal_field(ev.fields[0])
    &&& legal_field(ev.fields[1])
    &&& ev.saved_b1 matches Some(b1) ==> legal_field(b1)
}

/// A coded line of legal samples.
spec fn legal_code(code: LineCode) -> bool {
    &&& code.y.len() == WIDTH
    &&& code.c.len() == CHROMA_WIDTH
    &&& forall|e: int| 0 <= e < WIDTH ==> Y_MIN <= #[trigger] code.y[e] <= Y_MAX
    &&& code.y[WIDTH - 1] == BLANKING
    &&& forall|e: int| 0 <= e < CHROMA_WIDTH ==> C_MIN <= #[trigger] code.c[e] <= C_MAX
}

/// A line of clusters is reconstructed with legal samples.
proof fn lemma_moving_line_legal(
    ctx: LineContext,
    store: LineStore,
    y_in: Seq<u8>,
    c_in: Seq<u8>,
    thr: int,
    extra_ok: bool,
)
    requires
        0 <= ctx.parity < 2,
        legal_line(ctx.luma(), store.y),
        store.y[WIDTH - 1] == BLANKING,
        legal_line(ctx.chroma(), store.c),
        legal_line(ctx.luma(), y_in),
        legal_line(ctx.chroma(), c_in),
        store.y_moving.len() == WIDTH,
        store.c_moving.len() == CHROMA_WIDTH,
    ensures
        legal_code(coding::moving_line(ctx, store, y_in, c_in, thr, extra_ok)),
{
    reveal(coding::moving_line);
    let code = coding::moving_line(ctx, store, y_in, c_in, thr, extra_ok);
    let y_spans = coding::luma_spans(ctx, y_in, store.y, thr);
    let c_spans = coding::chroma_spans(ctx, c_in, store.c, thr);
    let y_ps = PlaneState {
        line: store.y,
        not_trans: dpcm::none_omitted(),
        moving: store.y_moving,
        extras: 0,
    };
    let c_ps = PlaneState {
        line: store.c,
        not_trans: dpcm::none_omitted(),
        moving: store.c_moving,
        extras: 0,
    };
    let color = c_spans.len() > 0;
    coding::lemma_spans_codable(ctx, y_in, c_in, store.y, store.c, thr);
    lemma_clusters_legal(ctx.luma(), y_spans, 0, y_ps, y_in, extra_ok, color);
    lemma_clusters_legal(ctx.chroma(), c_spans, 0, c_ps, c_in, extra_ok, false);
    let y_done = coding::clusters_code(ctx.luma(), y_spans, 0, y_ps, y_in, extra_ok, color).1.line;
    let c_done = coding::clusters_code(ctx.chroma(), c_spans, 0, c_ps, c_in, extra_ok, false).1.line;
    assert forall|e: int| 0 <= e < WIDTH implies Y_MIN <= #[trigger] code.y[e] <= Y_MAX by {
        assert(ctx.luma().legal(store.y[e]));
        assert(ctx.luma().legal(y_done[e]));
    }
    assert forall|e: int| 0 <= e < CHROMA_WIDTH implies C_MIN <= #[trigger] code.c[e] <= C_MAX by {
        assert(ctx.chroma().legal(store.c[e]));
        assert(ctx.chroma().legal(c_done[e]));
    }
}

/// A line is sent with legal samples.
proof fn lemma_line_legal(ev: EncView, f: int, l: int, input: InputView, pcm: bool, nt: Seq<bool>)
    requires
        ev.wf_but(2),
        legal_state(ev),
        0 <= f < 2,
        0 <= l < LINES_PER_FIELD,
        input.wf(),
    ensures
        legal_state(encoder::line_sent(ev, f, l, input, pcm, nt)),
{
    let code = encoder::line_code(ev, f, l, input, pcm, nt);
    let field = ev.fields[f];
    assert(legal_field(field));
    let ctx = ev.context(f, l, encoder::subsamples(ev, pcm), nt);
    assert(legal_line(ctx.luma(), field.y[l])) by {
        assert forall|e: int| 0 <= e < WIDTH implies ctx.luma().legal(#[trigger] field.y[l][e]) by {
            assert(Y_MIN <= field.y[l][e] <= Y_MAX);
        }
    }
    assert(legal_line(ctx.chroma(), field.c[l])) by {
        assert forall|e: int| 0 <= e < CHROMA_WIDTH implies ctx.chroma().legal(
            #[trigger] field.c[l][e],
        ) by {
            assert(C_MIN <= field.c[l][e] <= C_MAX);
        }
    }
    assert(legal_line(ctx.luma(), input.y[l])) by {
        assert forall|e: int| 0 <= e < WIDTH implies ctx.luma().legal(#[trigger] input.y[l][e]) by {
            assert(Y_MIN <= input.y[l][e] <= Y_MAX);
        }
    }
    assert(legal_line(ctx.chroma(), input.c[l])) by {
        assert forall|e: int| 0 <= e < CHROMA_WIDTH implies ctx.chroma().legal(
            #[trigger] input.c[l][e],
        ) by {
            assert(C_MIN <= input.c[l][e] <= C_MAX);
        }
    }
    if !pcm && !encoder::panics(ev) {
        lemma_moving_line_legal(
            ctx,
            ev.line(f, l),
            input.y[l],
            input.c[l],
            encoder::threshold(ev.occupancy),
            encoder::below(ev.occupancy, encoder::EXTRA_OK_BELOW as nat),
        );
    }
    assert(legal_code(code));
    let next = encoder::line_sent(ev, f, l, input, pcm, nt);
    encoder::lemma_line_sent(ev, f, l, input, pcm, nt);
    let after = next.fields[f];
    assert(legal_field(after)) by {
        assert forall|k: int, e: int| 0 <= k < LINES_PER_FIELD && 0 <= e < WIDTH implies Y_MIN
            <= #[trigger] after.y[k][e] <= Y_MAX by {
            if k == l {
                assert(after.y[k][e] == code.y[e]);
            } else {
                assert(after.y[k][e] == field.y[k][e]);
            }
        }
        assert forall|k: int, e: int| 0 <= k < LINES_PER_FIELD && 0 <= e < CHROMA_WIDTH implies
            C_MIN <= #[trigger] after.c[k][e] <= C_MAX by {
            if k == l {
                assert(after.c[k][e] == code.c[e]);
            } else {
                assert(after.c[k][e] == field.c[k][e]);
            }
        }
        assert forall|k: int| 0 <= k < LINES_PER_FIELD implies (#[trigger] after.y[k])[WIDTH - 1]
            == BLANKING by {
            if k != l {
                assert(after.y[k] == field.y[k]);
            }
        }
    }
}

/// Lines are sent with legal samples.
proof fn lemma_lines_legal(
    ev: EncView,
    f: int,
    l: int,
    input: InputView,
    plan: Seq<bool>,
    nt: Seq<bool>,
)
    requires
        ev.wf_but(2),
        l > 0 ==> ev.wf(),
        legal_state(ev),
        0 <= f < 2,
        0 <= l <= LINES_PER_FIELD,
        input.wf(),
    ensures
        legal_state(encoder::lines_sent(ev, f, l, input, plan, nt)),
    decreases LINES_PER_FIELD - l,
{
    if l < LINES_PER_FIELD {
        let pcm = encoder::sends_pcm(ev, f, l, plan[l]);
        let next = encoder::line_sent(ev, f, l, input, pcm, nt);
        let code = encoder::line_code(ev, f, l, input, pcm, nt);
        encoder::lemma_line_sent(ev, f, l, input, pcm, nt);
        lemma_line_legal(ev, f, l, input, pcm, nt);
        lemma_lines_legal(next, f, l + 1, input, plan, code.not_trans);
    }
}

/// A field is sent with legal samples.
proof fn lemma_field_legal(ev: EncView, f: int, input: InputView)
    requires
        ev.wf_but(1),
        legal_state(ev),
        0 <= f < 2,
        input.wf(),
    ensures
        legal_state(encoder::field_sent(ev, f, input)),
{
    reveal(encoder::field_sent);
    encoder::lemma_field_opened(ev, f);
    let opened = encoder::field_opened(ev, f);
    assert(legal_field(opened.fields[f]));
    lemma_lines_legal(opened, f, 0, input, encoder::scheduled(ev, f).0, dpcm::none_omitted());
}

/// An omitted field is interpolated with legal samples.
proof fn lemma_interpolated_legal(omitted: FieldView, parity: int, b1: FieldView, a1: FieldView)
    requires
        legal_field(omitted),
        legal_field(b1),
        legal_field(a1),
    ensures
        legal_field(codec::interpolated(omitted, parity, b1, a1)),
{
    let done = codec::interpolated(omitted, parity, b1, a1);
    assert forall|l: int, e: int| 0 <= l < LINES_PER_FIELD && 0 <= e < WIDTH implies Y_MIN
        <= #[trigger] done.y[l][e] <= Y_MAX by {
        let (above, below) = (codec::line_above(parity, l), codec::line_below(parity, l));
        assert(Y_MIN <= omitted.y[l][e] <= Y_MAX);
        if let Some(k) = above {
            assert(Y_MIN <= b1.y[k][e] <= Y_MAX);
            assert(Y_MIN <= a1.y[k][e] <= Y_MAX);
        }
        if let Some(k) = below {
            assert(Y_MIN <= b1.y[k][e] <= Y_MAX);
            assert(Y_MIN <= a1.y[k][e] <= Y_MAX);
        }
    }
    assert forall|l: int, e: int| 0 <= l < LINES_PER_FIELD && 0 <= e < CHROMA_WIDTH implies C_MIN
        <= #[trigger] done.c[l][e] <= C_MAX by {
        let (above, below) = (codec::line_above(parity, l), codec::line_below(parity, l));
        assert(C_MIN <= omitted.c[l][e] <= C_MAX);
        if let Some(k) = above {
            assert(C_MIN <= b1.c[k][e] <= C_MAX);
            assert(C_MIN <= a1.c[k][e] <= C_MAX);
        }
        if let Some(k) = below {
            assert(C_MIN <= b1.c[k][e] <= C_MAX);
            assert(C_MIN <= a1.c[k][e] <= C_MAX);
        }
    }
}

/// A frame is coded with legal samples.
proof fn lemma_frame_legal(ev: EncView, frame: FrameView)
    requires
        ev.wf(),
        legal_state(ev),
    ensures
        legal_state(encoder::frame_sent(ev, frame)),
{
    let counted = EncView {
        stats: EncCounts { frames: ev.stats.frames + 1, ..ev.stats },
        ..ev
    };
    let first = source::ingested(frame, ev.mono, 0);
    let second = source::ingested(frame, ev.mono, 1);
    let half = encoder::first_field_sent(ev, frame);
    source::lemma_ingested_legal(frame, ev.mono, 0);
    source::lemma_ingested_legal(frame, ev.mono, 1);
    encoder::lemma_field_sent(counted, 0, first);
    lemma_field_legal(counted, 0, first);
    lockstep::lemma_frame_sent(ev, frame);
    let sent = encoder::field_sent(counted, 0, first);
    if let Some(b1) = ev.saved_b1 {
        lemma_interpolated_legal(sent.fields[1], 1, b1, sent.fields[0]);
    }
    assert(legal_state(half));
    if !encoder::omits_field(half) {
        lemma_field_legal(half, 1, second);
    }
}

/// Every reconstructed sample is legal, after any frames: luminance between
/// black and white, chrominance in its range, the last luminance element of
/// each line at blanking level.
pub proof fn reconstructions_are_legal(bitrate: nat, mono: bool, frames: Seq<FrameView>)
    ensures
        legal_state(lockstep::encoded(bitrate, mono, frames)),
    decreases frames.len(),
{
    if frames.len() == 0 {
        assert(legal_field(codec::blank_field()));
    } else {
        lockstep::lemma_encoded_wf(bitrate, mono, frames.drop_last());
        reconstructions_are_legal(bitrate, mono, frames.drop_last());
        lemma_frame_legal(
            lockstep::encoded(bitrate, mono, frames.drop_last()),
            frames.last(),
        );
    }
}

/// Every frame that is coded has two fields: the fields coded and the fields omitted
/// add up to twice the frames.
pub proof fn fields_add_up(bitrate: nat, mono: bool, frames: Seq<FrameView>)
    ensures
        ({
            let stats = lockstep::encoded(bitrate, mono, frames).stats;
            &&& stats.frames == frames.len()
            &&& stats.fields_coded + stats.fields_omitted == 2 * stats.frames
        }),
    decreases frames.len(),
{
    if frames.len() > 0 {
        let ev = lockstep::encoded(bitrate, mono, frames.drop_last());
        let frame = frames.last();
        lockstep::lemma_encoded_wf(bitrate, mono, frames.drop_last());
        fields_add_up(bitrate, mono, frames.drop_last());
        lemma_frame_fields(ev, frame);
    }
}

/// A frame counts as one, and as two fields.
proof fn lemma_frame_fields(ev: EncView, frame: FrameView)
    requires
        ev.wf(),
    ensures
        ({
            let done = encoder::frame_sent(ev, frame).stats;
            &&& done.frames == ev.stats.frames + 1
            &&& done.fields_coded + done.fields_omitted == ev.stats.fields_coded
                + ev.stats.fields_omitted + 2
        }),
{
    let counted = EncView {
        stats: EncCounts { frames: ev.stats.frames + 1, ..ev.stats },
        ..ev
    };
    let half = encoder::first_field_sent(ev, frame);
    source::lemma_ingested_legal(frame, ev.mono, 0);
    source::lemma_ingested_legal(frame, ev.mono, 1);
    lockstep::lemma_frame_sent(ev, frame);
    encoder::lemma_field_sent(counted, 0, source::ingested(frame, ev.mono, 0));
    encoder::lemma_field_sent(half, 1, source::ingested(frame, ev.mono, 1));
}

} // verus!
