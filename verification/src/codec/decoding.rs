//! What holds of the decoder on any stream.

use vstd::prelude::*;
use crate::codec;
use crate::codec::bits;
use crate::codec::decoder;
use crate::codec::decoder::{DecView, FrameOut, FstSpec, LineEnd, LineState, LstSpec};
use crate::codec::dpcm;
use crate::codec::dpcm::{Cluster, LineContext, Plane};
use crate::codec::lockstep;
use crate::codec::tables;
use crate::codec::tables::{Vlc, VlcRead};
use crate::codec::{FieldView, BLANKING, CHROMA_WIDTH, LINES_PER_FIELD, WIDTH};

verus! {

/// A field of 143 lines, each of which ends at blanking level.
pub open spec fn edged(field: FieldView) -> bool {
    &&& field.wf()
    &&& forall|l: int| 0 <= l < LINES_PER_FIELD ==> (#[trigger] field.y[l])[WIDTH - 1] == BLANKING
}

/// A decoder within its stream, whose lines end at blanking level.
pub open spec fn sound(stream: Seq<bool>, dv: DecView) -> bool {
    &&& dv.wf()
    &&& dv.pos <= stream.len()
    &&& edged(dv.fields[0])
    &&& edged(dv.fields[1])
}

/// No field start code fits into what is left of the stream.
pub open spec fn exhausted(stream: Seq<bool>, pos: nat) -> bool {
    stream.len() < pos + 48
}

/// The codes of a cluster keep the shape of the line and its last element; they run
/// out at the end of the stream.
proof fn lemma_codes_sound(stream: Seq<bool>, p: nat, plane: Plane, st: Cluster)
    requires
        p <= stream.len(),
        0 <= st.q,
        st.line.len() == plane.width(),
        st.not_trans.len() == WIDTH,
    ensures
        ({
            let (end, p1, done) = decoder::codes_at(stream, p, plane, st);
            &&& done.line.len() == plane.width()
            &&& done.not_trans.len() == WIDTH
            &&& plane.luma ==> done.line[WIDTH - 1] == st.line[WIDTH - 1]
            &&& end is Eof ==> p1 == stream.len()
            &&& p <= p1 <= stream.len()
        }),
    decreases stream.len() - p,
{
    decoder::lemma_codes_progress(stream, p, plane, st);
    if !decoder::sync_at(stream, p) {
        tables::lemma_zero_run_in_range(stream, p + 1);
        match tables::vlc_at(stream, p, plane.subsampled) {
            (VlcRead::Sym(Vlc::Level { level, extra }), p1) => {
                match dpcm::step(plane, st, level as int, extra) {
                    Some(next) => lemma_codes_sound(stream, p1, plane, next),
                    None => {},
                }
            },
            _ => {},
        }
    }
}

/// The lines and marks of a line state have their lengths, and the luminance line
/// ends at blanking level.
spec fn sound_line(stream: Seq<bool>, ls: LineState) -> bool {
    &&& ls.pos <= stream.len()
    &&& ls.y.len() == WIDTH
    &&& ls.y[WIDTH - 1] == BLANKING
    &&& ls.c.len() == CHROMA_WIDTH
    &&& ls.y_moving.len() == WIDTH
    &&& ls.c_moving.len() == CHROMA_WIDTH
    &&& ls.not_trans.len() == WIDTH
}

/// A luminance cluster keeps the shape of the line.
proof fn lemma_luma_cluster_sound(stream: Seq<bool>, ctx: LineContext, ls: LineState)
    requires
        sound_line(stream, ls),
    ensures
        ({
            let (end, ls1) = decoder::luma_cluster_at(stream, ctx, ls);
            &&& sound_line(stream, ls1)
            &&& end is Eof ==> exhausted(stream, ls1.pos)
        }),
{
    match decoder::take_at(stream, ls.pos, 8) {
        (Some(pcm), p1) => match decoder::take_at(stream, p1, 8) {
            (Some(addr), p2) => {
                let first = codec::clip(pcm as int, codec::Y_MIN, codec::Y_MAX);
                if addr < WIDTH - 1 {
                    lemma_codes_sound(
                        stream,
                        p2,
                        ctx.luma(),
                        dpcm::opened(ls.y, ls.not_trans, addr as int, first),
                    );
                }
            },
            _ => {},
        },
        _ => {},
    }
}

/// A chrominance cluster keeps the shape of the line.
proof fn lemma_chroma_cluster_sound(stream: Seq<bool>, ctx: LineContext, ls: LineState)
    requires
        sound_line(stream, ls),
    ensures
        ({
            let (end, ls1) = decoder::chroma_cluster_at(stream, ctx, ls);
            &&& sound_line(stream, ls1)
            &&& end is Eof ==> exhausted(stream, ls1.pos)
        }),
{
    match decoder::take_at(stream, ls.pos, 8) {
        (Some(pcm), p1) => match decoder::take_at(stream, p1, 8) {
            (Some(addr), p2) => {
                let first = codec::clip(pcm as int, codec::C_MIN, codec::C_MAX);
                let sample = addr - codec::CHROMA_ADDR_BASE;
                if 0 <= sample < CHROMA_WIDTH - 1 {
                    lemma_codes_sound(
                        stream,
                        p2,
                        ctx.chroma(),
                        dpcm::opened(ls.c, dpcm::none_omitted(), sample, first),
                    );
                }
            },
            _ => {},
        },
        _ => {},
    }
}

/// The clusters of a line keep its shape.
proof fn lemma_clusters_sound(
    stream: Seq<bool>,
    ctx: LineContext,
    in_chroma: bool,
    ls: LineState,
)
    requires
        sound_line(stream, ls),
    ensures
        ({
            let (end, ls1) = decoder::clusters_at(stream, ctx, in_chroma, ls);
            &&& sound_line(stream, ls1)
            &&& end is Eof ==> exhausted(stream, ls1.pos)
        }),
    decreases stream.len() - ls.pos,
{
    decoder::lemma_cluster_progress(stream, ctx, ls);
    if !decoder::sync_at(stream, ls.pos) {
        if in_chroma {
            lemma_chroma_cluster_sound(stream, ctx, ls);
            let (end, ls1) = decoder::chroma_cluster_at(stream, ctx, ls);
            if end is Eoc {
                lemma_clusters_sound(stream, ctx, true, ls1);
            }
        } else {
            lemma_luma_cluster_sound(stream, ctx, ls);
            let (end, ls1) = decoder::luma_cluster_at(stream, ctx, ls);
            if end is Eoc {
                if bits::number_at(stream, ls1.pos, 8) == Some(0x09nat) {
                    lemma_clusters_sound(
                        stream,
                        ctx,
                        true,
                        LineState { pos: ls1.pos + 8, ..ls1 },
                    );
                } else {
                    lemma_clusters_sound(stream, ctx, false, ls1);
                }
            }
        }
    }
}

/// What a line leaves: `after` is sound, and exhausted where the stream ran out.
spec fn sound_step(stream: Seq<bool>, dv: DecView, end: LineEnd, after: DecView) -> bool {
    &&& sound(stream, after)
    &&& after.last_fst == dv.last_fst
    &&& after.synced == dv.synced
    &&& end is Eof ==> exhausted(stream, after.pos)
}

/// A field with one line replaced is edged if the line is.
proof fn lemma_edged_line(field: FieldView, l: int, ls: LineState)
    requires
        edged(field),
        0 <= l < LINES_PER_FIELD,
        ls.y.len() == WIDTH,
        ls.y[WIDTH - 1] == BLANKING,
        ls.c.len() == CHROMA_WIDTH,
        ls.y_moving.len() == WIDTH,
        ls.c_moving.len() == CHROMA_WIDTH,
    ensures
        edged(decoder::field_with_line(field, l, ls)),
{
    let done = decoder::field_with_line(field, l, ls);
    assert forall|k: int| 0 <= k < LINES_PER_FIELD implies (#[trigger] done.y[k])[WIDTH - 1]
        == BLANKING by {
        if k != l {
            assert(done.y[k] == field.y[k]);
        }
    }
}

/// A PCM line keeps the decoder sound.
proof fn lemma_pcm_line_sound(stream: Seq<bool>, dv: DecView, f: int, l: int)
    requires
        sound(stream, dv),
        dv.pos + 8 <= stream.len(),
        0 <= f < 2,
        0 <= l < LINES_PER_FIELD,
    ensures
        sound_step(
            stream,
            dv,
            decoder::pcm_line_at(stream, dv, f, l).0,
            decoder::pcm_line_at(stream, dv, f, l).1,
        ),
{
    let (end, after) = decoder::pcm_line_at(stream, dv, f, l);
    let field = dv.fields[f];
    assert(edged(field));
    assert(field.y[l][WIDTH - 1] == BLANKING);
    assert(edged(after.fields[f])) by {
        let done = after.fields[f];
        assert forall|k: int| 0 <= k < LINES_PER_FIELD implies (#[trigger] done.y[k])[WIDTH - 1]
            == BLANKING by {
            if k != l {
                assert(done.y[k] == field.y[k]);
            }
        }
    }
}

/// A line keeps the decoder sound.
proof fn lemma_line_sound(stream: Seq<bool>, dv: DecView, f: int, l: int, sub: bool)
    requires
        sound(stream, dv),
        0 <= f < 2,
        0 <= l < LINES_PER_FIELD,
    ensures
        sound_step(
            stream,
            dv,
            decoder::line_at(stream, dv, f, l, sub).0,
            decoder::line_at(stream, dv, f, l, sub).1,
        ),
{
    match bits::number_at(stream, dv.pos, 8) {
        Some(first) => if first == 0xFF {
            lemma_pcm_line_sound(stream, dv, f, l);
        } else if !decoder::sync_at(stream, dv.pos) {
            let in_chroma = first == 0x09;
            let start = LineState {
                pos: if in_chroma {
                    dv.pos + 8
                } else {
                    dv.pos
                },
                stats: decoder::DecCounts {
                    moving_lines: dv.stats.moving_lines + 1,
                    subsampled_lines: dv.stats.subsampled_lines + if sub {
                        1nat
                    } else {
                        0nat
                    },
                    ..dv.stats
                },
                ..dv.line(f, l, dpcm::none_omitted())
            };
            let field = dv.fields[f];
            assert(edged(field));
            assert(field.y[l][WIDTH - 1] == BLANKING);
            lemma_clusters_sound(stream, dv.context(f, l, sub), in_chroma, start);
            let ls = decoder::clusters_at(stream, dv.context(f, l, sub), in_chroma, start).1;
            lemma_edged_line(field, l, ls);
            lemma_edged_line(field, l, LineState { y: dpcm::blanked(ls.y), ..ls });
        },
        None => {},
    }
}

/// A line start code is read within the stream, and cut short only at its end.
proof fn lemma_lst_within(stream: Seq<bool>, p: nat)
    requires
        p <= stream.len(),
    ensures
        p <= decoder::lst_at(stream, p).1 <= stream.len(),
        decoder::lst_at(stream, p).0 is Eof ==> exhausted(stream, decoder::lst_at(stream, p).1),
{
}

/// Lines keep the decoder sound.
proof fn lemma_lines_sound(stream: Seq<bool>, dv: DecView, f: int, l: int, s_first: bool)
    requires
        sound(stream, dv),
        0 <= f < 2,
        0 <= l <= LINES_PER_FIELD,
    ensures
        sound_step(
            stream,
            dv,
            decoder::lines_at(stream, dv, f, l, s_first).0,
            decoder::lines_at(stream, dv, f, l, s_first).1,
        ),
    decreases LINES_PER_FIELD - l,
{
    if l < LINES_PER_FIELD {
        if l == 0 {
            lemma_line_sound(stream, dv, f, 0, s_first);
            let (end, dv1) = decoder::line_at(stream, dv, f, 0, s_first);
            if end is Done {
                lemma_lines_sound(stream, dv1, f, 1, s_first);
            }
        } else {
            lemma_lst_within(stream, dv.pos);
            match decoder::lst_at(stream, dv.pos) {
                (LstSpec::Lst { aaa, s, line_code }, p1) => {
                    let start = DecView { pos: p1, ..dv };
                    lemma_line_sound(stream, start, f, l, s);
                    let (end, dv1) = decoder::line_at(stream, start, f, l, s);
                    if end is Done {
                        lemma_lines_sound(stream, dv1, f, l + 1, s_first);
                    }
                },
                _ => {},
            }
        }
    }
}

/// A field keeps the decoder sound.
proof fn lemma_field_sound(stream: Seq<bool>, dv: DecView, f: int, s_first: bool)
    requires
        sound(stream, dv),
        0 <= f < 2,
    ensures
        sound_step(
            stream,
            dv,
            decoder::field_at(stream, dv, f, s_first).0,
            decoder::field_at(stream, dv, f, s_first).1,
        ),
{
    reveal(decoder::field_at);
    let start = DecView {
        fields: dv.fields.update(f, dv.fields[f].at_rest()),
        prev_not_trans: dpcm::none_omitted(),
        ..dv
    };
    assert(edged(dv.fields[f]));
    assert(edged(start.fields[f])) by {
        let done = start.fields[f];
        assert forall|k: int| 0 <= k < LINES_PER_FIELD implies (#[trigger] done.y[k])[WIDTH - 1]
            == BLANKING by {
            assert(done.y[k] == dv.fields[f].y[k]);
        }
    }
    lemma_lines_sound(stream, start, f, 0, s_first);
}

/// A field start code is read within the stream, and cut short only at its end.
proof fn lemma_fst_within(stream: Seq<bool>, p: nat)
    requires
        p <= stream.len(),
    ensures
        ({
            let (fst, p1) = decoder::fst_at(stream, p);
            &&& p <= p1 <= stream.len()
            &&& fst is End ==> exhausted(stream, p1)
            &&& exhausted(stream, p) ==> fst is End && p1 == p
            &&& fst matches FstSpec::Fst { field, a_flag, s_first } ==> field == 0 || field == 1
        }),
{
    lemma_lst_within(stream, p);
    if p + 28 <= stream.len() {
        lemma_lst_within(stream, p + 28);
    }
}

/// What one field gives, on any stream.
proof fn lemma_one_field_sound(stream: Seq<bool>, dv: DecView)
    requires
        sound(stream, dv),
    ensures
        ({
            let (out, dv1) = decoder::one_field(stream, dv);
            &&& sound(stream, dv1)
            &&& dv1.synced == dv.synced
            &&& dv1.stats.frames == dv.stats.frames + if out matches Some(FrameOut::Frame(_)) {
                1nat
            } else {
                0nat
            }
            &&& out matches Some(FrameOut::Frame(fields)) ==> fields.len() == 2 && edged(fields[0])
                && edged(fields[1])
            &&& out matches Some(FrameOut::End) ==> exhausted(stream, dv1.pos)
            &&& out is None ==> dv.last_fst != Some(0int) && dv1.last_fst == Some(0int)
            &&& exhausted(stream, dv.pos) ==> out == Some(FrameOut::End) && dv1.fields == dv.fields
                && dv1.pos == dv.pos
        }),
{
    lemma_fst_within(stream, dv.pos);
    match decoder::fst_at(stream, dv.pos) {
        (FstSpec::Fst { field: f, a_flag, s_first }, p1) => {
            let dv1 = DecView {
                pos: p1,
                last_fst: Some(f),
                stats: decoder::DecCounts {
                    a_flag_fields: dv.stats.a_flag_fields + if a_flag {
                        1nat
                    } else {
                        0nat
                    },
                    ..dv.stats
                },
                ..dv
            };
            lemma_field_sound(stream, dv1, f, s_first);
            decoder::lemma_field_counts(stream, dv1, f, s_first);
            let dv2 = decoder::field_at(stream, dv1, f, s_first).1;
            assert(edged(dv.fields[f]));
            assert(edged(dv2.fields[f]) && edged(dv2.fields[1 - f]));
            let omitted = codec::interpolated(
                dv2.fields[1 - f],
                1 - f,
                dv.fields[f],
                dv2.fields[f],
            );
            assert(edged(omitted));
        },
        _ => {},
    }
}

/// What a call of the decoder gives, on any stream: it stays sound; a frame is two
/// whole fields whose lines end at blanking level; the end is reached where no field
/// start code fits any more, and there it stays.
pub proof fn frame_keeps_sound(stream: Seq<bool>, dv: DecView)
    requires
        sound(stream, dv),
    ensures
        ({
            let (out, dv1) = decoder::frame_at(stream, dv);
            &&& sound(stream, dv1)
            &&& dv1.stats.frames == dv.stats.frames + if out is Frame {
                1nat
            } else {
                0nat
            }
            &&& out matches FrameOut::Frame(fields) ==> fields.len() == 2 && edged(fields[0])
                && edged(fields[1])
            &&& out is End ==> exhausted(stream, dv1.pos)
            &&& exhausted(stream, dv.pos) ==> out is End && dv1.fields == dv.fields
        }),
{
    let dv0 = decoder::synchronized(stream, dv);
    lemma_first_fst_within(stream, dv.pos);
    assert(sound(stream, dv0));
    if dv0.synced {
        lemma_one_field_sound(stream, dv0);
        let (out, dv1) = decoder::one_field(stream, dv0);
        if out is None {
            lemma_one_field_sound(stream, dv1);
        }
    }
}

/// The first field start code stands within the stream.
proof fn lemma_first_fst_within(stream: Seq<bool>, p: nat)
    ensures
        decoder::first_fst(stream, p) matches Some(q) ==> p <= q && q + 48 <= stream.len(),
        exhausted(stream, p) ==> decoder::first_fst(stream, p) is None,
    decreases stream.len() - p,
{
    if p + 48 <= stream.len() && !decoder::looks_like_fst_at(stream, p) {
        lemma_first_fst_within(stream, p + 1);
    }
}

/// A decoder is sound after any number of calls.
pub proof fn decoder_stays_sound(stream: Seq<bool>, n: nat)
    ensures
        sound(stream, lockstep::decoded(stream, n)),
    decreases n,
{
    if n == 0 {
        assert(edged(codec::blank_field()));
    } else {
        decoder_stays_sound(stream, (n - 1) as nat);
        frame_keeps_sound(stream, lockstep::decoded(stream, (n - 1) as nat));
    }
}

/// Every frame that the decoder hands out, of any stream, has two fields of 143
/// lines, and the last element of each luminance line is at blanking level.
pub proof fn returned_lines_end_at_blanking(stream: Seq<bool>, n: nat)
    ensures
        decoder::frame_at(stream, lockstep::decoded(stream, n)).0 matches FrameOut::Frame(fields)
            ==> fields.len() == 2 && edged(fields[0]) && edged(fields[1]),
{
    decoder_stays_sound(stream, n);
    frame_keeps_sound(stream, lockstep::decoded(stream, n));
}

/// How many of the first `n` calls hand out a frame.
pub open spec fn frames_out(stream: Seq<bool>, n: nat) -> nat
    decreases n,
{
    if n == 0 {
        0
    } else {
        let m = (n - 1) as nat;
        frames_out(stream, m) + if decoder::frame_at(stream, lockstep::decoded(stream, m)).0
            is Frame {
            1nat
        } else {
            0nat
        }
    }
}

/// The decoder counts the frames that it hands out, of any stream.
pub proof fn frames_are_counted(stream: Seq<bool>, n: nat)
    ensures
        lockstep::decoded(stream, n).stats.frames == frames_out(stream, n),
    decreases n,
{
    if n > 0 {
        let m = (n - 1) as nat;
        frames_are_counted(stream, m);
        decoder_stays_sound(stream, m);
        frame_keeps_sound(stream, lockstep::decoded(stream, m));
    }
}

/// The end of a stream stays the end: once a call gives it, every later call does,
/// and changes neither the fields nor the count of frames.
#[verifier::spinoff_prover]
#[verifier::rlimit(60)]
pub proof fn end_stays_the_end(stream: Seq<bool>, n: nat, m: nat)
    requires
        n <= m,
        decoder::frame_at(stream, lockstep::decoded(stream, n)).0 is End,
    ensures
        decoder::frame_at(stream, lockstep::decoded(stream, m)).0 is End,
        lockstep::decoded(stream, m + 1).fields == lockstep::decoded(stream, n + 1).fields,
        lockstep::decoded(stream, m + 1).stats.frames == lockstep::decoded(
            stream,
            n + 1,
        ).stats.frames,
        exhausted(stream, lockstep::decoded(stream, m + 1).pos),
    decreases m - n,
{
    decoder_stays_sound(stream, m);
    frame_keeps_sound(stream, lockstep::decoded(stream, m));
    if m > n {
        end_stays_the_end(stream, n, (m - 1) as nat);
    }
}

} // verus!
