//! A stream that is cut off anywhere still decodes: the frames before the cut
//! come out as they are, and the cut reads as the end of the stream.

use vstd::prelude::*;
use crate::codec;
use crate::codec::bits;
use crate::codec::decoder;
use crate::codec::decoder::{DecView, FrameOut, FstSpec, LineState, LstSpec};
use crate::codec::dpcm;
use crate::codec::dpcm::{Cluster, LineContext, Plane};
use crate::codec::lockstep;
use crate::codec::tables;
use crate::codec::tables::{Vlc, VlcRead};
use crate::codec::LINES_PER_FIELD;
use crate::y4m::FrameView;

verus! {

/// A number before the cut is read as it is.
proof fn lemma_number_cut(stream: Seq<bool>, m: nat, p: nat, n: nat)
    requires
        m <= stream.len(),
        p + n <= m,
    ensures
        bits::number_at(stream.take(m as int), p, n) == bits::number_at(stream, p, n),
        decoder::take_at(stream.take(m as int), p, n) == decoder::take_at(stream, p, n),
{
    let cut = stream.take(m as int);
    assert(cut.subrange(p as int, (p + n) as int) =~= stream.subrange(p as int, (p + n) as int));
}

/// A run of zeros is read as it is, or up to the cut.
proof fn lemma_zero_run_cut(stream: Seq<bool>, m: nat, p: nat)
    requires
        m <= stream.len(),
        p <= m,
    ensures
        ({
            let run = tables::zero_run(stream.take(m as int), p);
            &&& run <= tables::zero_run(stream, p)
            &&& p + run <= m
            &&& p + run < m ==> run == tables::zero_run(stream, p)
        }),
    decreases m - p,
{
    let cut = stream.take(m as int);
    if p < m {
        assert(cut[p as int] == stream[p as int]);
        if !cut[p as int] {
            lemma_zero_run_cut(stream, m, p + 1);
        }
    }
}

/// Where no synchronization word stands before the cut, none stands in the
/// stream.
proof fn lemma_sync_cut(stream: Seq<bool>, m: nat, p: nat)
    requires
        m <= stream.len(),
    ensures
        decoder::sync_at(stream, p) ==> decoder::sync_at(stream.take(m as int), p),
        p + 12 <= m ==> decoder::sync_at(stream.take(m as int), p) == decoder::sync_at(stream, p),
{
    let cut = stream.take(m as int);
    if decoder::sync_at(stream, p) {
        assert forall|i: int| p <= i < p + 12 && i < cut.len() implies !#[trigger] cut[i] by {
            assert(!stream[i]);
        }
    }
    if p + 12 <= m && decoder::sync_at(cut, p) {
        assert forall|i: int| p <= i < p + 12 && i < stream.len() implies !#[trigger] stream[i] by {
            assert(!cut[i]);
        }
    }
}

/// The codes of a cluster are decoded as they are, or end at the cut.
proof fn lemma_codes_cut(stream: Seq<bool>, m: nat, p: nat, plane: Plane, st: Cluster)
    requires
        m <= stream.len(),
        p <= m,
        decoder::codes_at(stream, p, plane, st).0 !is Fail,
    ensures
        ({
            let full = decoder::codes_at(stream, p, plane, st);
            let cut = decoder::codes_at(stream.take(m as int), p, plane, st);
            cut == full || ((cut.0 is Sync || cut.0 is Eof) && cut.1 <= m < cut.1 + 12)
        }),
    decreases m - p,
{
    let cut = stream.take(m as int);
    lemma_sync_cut(stream, m, p);
    if !decoder::sync_at(cut, p) {
        lemma_zero_run_cut(stream, m, p + 1);
        assert(p < m);
        assert(cut[p as int] == stream[p as int]);
        let full_code = tables::vlc_at(stream, p, plane.subsampled);
        let cut_code = tables::vlc_at(cut, p, plane.subsampled);
        assert(cut_code == full_code || cut_code == (VlcRead::Eof, m));
        match cut_code {
            (VlcRead::Sym(Vlc::Level { level, extra }), p1) => {
                assert(p1 <= m);
                match dpcm::step(plane, st, level as int, extra) {
                    Some(next) => lemma_codes_cut(stream, m, p1, plane, next),
                    None => {},
                }
            },
            _ => {},
        }
    }
}

/// A luminance cluster is decoded as it is, or ends at the cut.
proof fn lemma_luma_cluster_cut(stream: Seq<bool>, m: nat, ctx: LineContext, ls: LineState)
    requires
        m <= stream.len(),
        ls.pos <= m,
        decoder::luma_cluster_at(stream, ctx, ls).0 !is Fail,
    ensures
        ({
            let full = decoder::luma_cluster_at(stream, ctx, ls);
            let cut = decoder::luma_cluster_at(stream.take(m as int), ctx, ls);
            cut == full || ((cut.0 is Sync || cut.0 is Eof) && cut.1.pos <= m < cut.1.pos + 12)
        }),
{
    let p = ls.pos;
    if p + 8 <= m {
        lemma_number_cut(stream, m, p, 8);
        if p + 16 <= m {
            lemma_number_cut(stream, m, p + 8, 8);
            match (decoder::take_at(stream, p, 8).0, decoder::take_at(stream, p + 8, 8).0) {
                (Some(pcm), Some(addr)) => {
                    let first = codec::clip(
                        pcm as int,
                        codec::Y_MIN,
                        codec::Y_MAX,
                    );
                    if addr < codec::WIDTH - 1 {
                        lemma_codes_cut(
                            stream,
                            m,
                            p + 16,
                            ctx.luma(),
                            dpcm::opened(ls.y, ls.not_trans, addr as int, first),
                        );
                    }
                },
                _ => {},
            }
        }
    }
}

/// A chrominance cluster is decoded as it is, or ends at the cut.
proof fn lemma_chroma_cluster_cut(stream: Seq<bool>, m: nat, ctx: LineContext, ls: LineState)
    requires
        m <= stream.len(),
        ls.pos <= m,
        decoder::chroma_cluster_at(stream, ctx, ls).0 !is Fail,
    ensures
        ({
            let full = decoder::chroma_cluster_at(stream, ctx, ls);
            let cut = decoder::chroma_cluster_at(stream.take(m as int), ctx, ls);
            cut == full || ((cut.0 is Sync || cut.0 is Eof) && cut.1.pos <= m < cut.1.pos + 12)
        }),
{
    let p = ls.pos;
    if p + 8 <= m {
        lemma_number_cut(stream, m, p, 8);
        if p + 16 <= m {
            lemma_number_cut(stream, m, p + 8, 8);
            match (decoder::take_at(stream, p, 8).0, decoder::take_at(stream, p + 8, 8).0) {
                (Some(pcm), Some(addr)) => {
                    let first = codec::clip(
                        pcm as int,
                        codec::C_MIN,
                        codec::C_MAX,
                    );
                    let sample = addr - codec::CHROMA_ADDR_BASE;
                    if 0 <= sample < codec::CHROMA_WIDTH - 1 {
                        lemma_codes_cut(
                            stream,
                            m,
                            p + 16,
                            ctx.chroma(),
                            dpcm::opened(ls.c, dpcm::none_omitted(), sample, first),
                        );
                    }
                },
                _ => {},
            }
        }
    }
}

/// Behind the last whole cluster before the cut, the line ends.
proof fn lemma_clusters_starved(cut: Seq<bool>, ctx: LineContext, ls: LineState)
    requires
        ls.pos <= cut.len() < ls.pos + 8,
    ensures
        ({
            let (end, ls1) = decoder::clusters_at(cut, ctx, false, ls);
            (end is Done || end is Eof) && ls1.pos == ls.pos
        }),
{
}

/// The clusters of a line are decoded as they are, or end at the cut.
proof fn lemma_clusters_cut(
    stream: Seq<bool>,
    m: nat,
    ctx: LineContext,
    in_chroma: bool,
    ls: LineState,
)
    requires
        m <= stream.len(),
        ls.pos <= m,
        decoder::clusters_at(stream, ctx, in_chroma, ls).0 !is Fail,
    ensures
        ({
            let full = decoder::clusters_at(stream, ctx, in_chroma, ls);
            let cut = decoder::clusters_at(stream.take(m as int), ctx, in_chroma, ls);
            &&& cut == full || ((cut.0 is Done || cut.0 is Eof) && m < cut.1.pos + 12)
            &&& cut.1.pos <= m
        }),
    decreases m - ls.pos,
{
    let cut = stream.take(m as int);
    lemma_sync_cut(stream, m, ls.pos);
    decoder::lemma_cluster_progress(cut, ctx, ls);
    if !decoder::sync_at(cut, ls.pos) {
        if in_chroma {
            lemma_chroma_cluster_cut(stream, m, ctx, ls);
            let (end, ls1) = decoder::chroma_cluster_at(cut, ctx, ls);
            if end is Eoc {
                lemma_clusters_cut(stream, m, ctx, true, ls1);
            }
        } else {
            lemma_luma_cluster_cut(stream, m, ctx, ls);
            let (end, ls1) = decoder::luma_cluster_at(cut, ctx, ls);
            if end is Eoc {
                if ls1.pos + 8 > m {
                    lemma_clusters_starved(cut, ctx, ls1);
                } else {
                    lemma_number_cut(stream, m, ls1.pos, 8);
                    if bits::number_at(cut, ls1.pos, 8) == Some(0x09nat) {
                        lemma_clusters_cut(
                            stream,
                            m,
                            ctx,
                            true,
                            LineState { pos: ls1.pos + 8, ..ls1 },
                        );
                    } else {
                        lemma_clusters_cut(stream, m, ctx, false, ls1);
                    }
                }
            }
        }
    }
}

/// A PCM line is decoded as it is, or ends at the cut.
proof fn lemma_pcm_line_cut(stream: Seq<bool>, m: nat, dv: DecView, f: int, l: int)
    requires
        m <= stream.len(),
        dv.pos + 8 <= m,
        decoder::pcm_line_at(stream, dv, f, l).0 !is Fail,
    ensures
        ({
            let full = decoder::pcm_line_at(stream, dv, f, l);
            let cut = decoder::pcm_line_at(stream.take(m as int), dv, f, l);
            &&& cut == full || (cut.0 is Eof && m < cut.1.pos + 12)
            &&& cut.1.pos <= m
        }),
{
    let cut = stream.take(m as int);
    let p1 = dv.pos + 16;
    if p1 <= m {
        lemma_number_cut(stream, m, dv.pos + 8, 8);
        let n = decoder::bytes_left(cut, p1);
        if n >= codec::WIDTH + codec::CHROMA_WIDTH {
            assert forall|e: int| 0 <= e < codec::WIDTH + codec::CHROMA_WIDTH implies
                #[trigger] decoder::byte_at(cut, p1, e) == decoder::byte_at(stream, p1, e) by {
                assert(cut.subrange(p1 + 8 * e, p1 + 8 * e + 8) =~= stream.subrange(
                    p1 + 8 * e,
                    p1 + 8 * e + 8,
                ));
            }
            let field = dv.fields[f];
            assert(decoder::pcm_luma(cut, p1, field.y[l]) =~= decoder::pcm_luma(
                stream,
                p1,
                field.y[l],
            ));
            assert(decoder::pcm_chroma(cut, p1, field.c[l]) =~= decoder::pcm_chroma(
                stream,
                p1,
                field.c[l],
            ));
        }
    }
}

/// A line is decoded as it is, or ends at the cut.
proof fn lemma_line_cut(stream: Seq<bool>, m: nat, dv: DecView, f: int, l: int, sub: bool)
    requires
        m <= stream.len(),
        dv.pos <= m,
        decoder::line_at(stream, dv, f, l, sub).0 !is Fail,
    ensures
        ({
            let full = decoder::line_at(stream, dv, f, l, sub);
            let cut = decoder::line_at(stream.take(m as int), dv, f, l, sub);
            &&& cut == full || ((cut.0 is Done || cut.0 is Eof) && m < cut.1.pos + 12)
            &&& cut.1.pos <= m
        }),
{
    let cut = stream.take(m as int);
    if dv.pos + 8 <= m {
        lemma_number_cut(stream, m, dv.pos, 8);
        lemma_sync_cut(stream, m, dv.pos);
        let first = bits::number_at(stream, dv.pos, 8);
        if first == Some(0xFFnat) {
            lemma_pcm_line_cut(stream, m, dv, f, l);
        } else if !decoder::sync_at(cut, dv.pos) {
            let in_chroma = first == Some(0x09nat);
            let start = LineState {
                pos: if in_chroma {
                    dv.pos + 8
                } else {
                    dv.pos
                },
                stats: decoder::DecCounts {
                    moving_lines: dv.stats.moving_lines + 1,
                    subsampled_lines: dv.stats.subsampled_lines + if sub {
                        1nat
                    } else {
                        0nat
                    },
                    ..dv.stats
                },
                ..dv.line(f, l, dpcm::none_omitted())
            };
            lemma_clusters_cut(stream, m, dv.context(f, l, sub), in_chroma, start);
        }
    }
}

/// A line start code is read as it is, or the stream ends inside it.
proof fn lemma_lst_cut(stream: Seq<bool>, m: nat, p: nat)
    requires
        m <= stream.len(),
        p <= m,
    ensures
        ({
            let full = decoder::lst_at(stream, p);
            let cut = decoder::lst_at(stream.take(m as int), p);
            &&& cut == full || (cut.0 is Eof && m < cut.1 + 48)
            &&& cut.1 <= m
            &&& p + 20 <= m ==> cut == full
            &&& p + 13 > m ==> cut == (LstSpec::Eof, p)
            &&& cut.0 is Lst ==> cut.1 == p + 20
        }),
{
    if p + 13 <= m {
        lemma_number_cut(stream, m, p, 13);
        if p + 16 <= m {
            lemma_number_cut(stream, m, p + 13, 3);
            if p + 17 <= m {
                lemma_number_cut(stream, m, p + 16, 1);
                if p + 20 <= m {
                    lemma_number_cut(stream, m, p + 17, 3);
                }
            }
        }
    }
}

/// The lines of a field are decoded as they are, or end at the cut.
proof fn lemma_lines_cut(stream: Seq<bool>, m: nat, dv: DecView, f: int, l: int, s_first: bool)
    requires
        m <= stream.len(),
        dv.pos <= m,
        0 <= l <= LINES_PER_FIELD,
        decoder::lines_at(stream, dv, f, l, s_first).0 !is Fail,
    ensures
        ({
            let full = decoder::lines_at(stream, dv, f, l, s_first);
            let cut = decoder::lines_at(stream.take(m as int), dv, f, l, s_first);
            &&& cut == full || ((cut.0 is Done || cut.0 is Eof) && m < cut.1.pos + 48)
            &&& cut.1.pos <= m
        }),
    decreases LINES_PER_FIELD - l,
{
    let cut = stream.take(m as int);
    if l < LINES_PER_FIELD {
        let (start, sub) = if l == 0 {
            (dv, s_first)
        } else {
            lemma_lst_cut(stream, m, dv.pos);
            match decoder::lst_at(cut, dv.pos) {
                (LstSpec::Lst { aaa, s, line_code }, p1) => (DecView { pos: p1, ..dv }, s),
                _ => (dv, false),
            }
        };
        if l == 0 || decoder::lst_at(cut, dv.pos).0 is Lst {
            lemma_line_cut(stream, m, start, f, l, sub);
            let full_line = decoder::line_at(stream, start, f, l, sub);
            let cut_line = decoder::line_at(cut, start, f, l, sub);
            if cut_line == full_line {
                if cut_line.0 is Done {
                    lemma_lines_cut(stream, m, cut_line.1, f, l + 1, s_first);
                }
            } else if cut_line.0 is Done {
                lemma_lst_cut(stream, m, cut_line.1.pos);
                assert(decoder::lines_at(cut, cut_line.1, f, l + 1, s_first).1.pos
                    == cut_line.1.pos);
            }
        }
    }
}

/// A field start code before the cut is read as it is.
proof fn lemma_fst_cut(stream: Seq<bool>, m: nat, p: nat)
    requires
        m <= stream.len(),
        p + 48 <= m,
    ensures
        decoder::fst_at(stream.take(m as int), p) == decoder::fst_at(stream, p),
        decoder::fst_at(stream, p).1 <= m,
        decoder::looks_like_fst_at(stream.take(m as int), p) == decoder::looks_like_fst_at(
            stream,
            p,
        ),
{
    lemma_lst_cut(stream, m, p);
    lemma_number_cut(stream, m, p + 20, 8);
    lemma_lst_cut(stream, m, p + 28);
}

/// The lines of a field are decoded as they are, or end at the cut.
proof fn lemma_field_cut(stream: Seq<bool>, m: nat, dv: DecView, f: int, s_first: bool)
    requires
        m <= stream.len(),
        dv.pos <= m,
        decoder::field_at(stream, dv, f, s_first).0 !is Fail,
    ensures
        ({
            let full = decoder::field_at(stream, dv, f, s_first);
            let cut = decoder::field_at(stream.take(m as int), dv, f, s_first);
            &&& cut == full || ((cut.0 is Done || cut.0 is Eof) && m < cut.1.pos + 48)
            &&& cut.1.pos <= m
        }),
{
    reveal(decoder::field_at);
    let start = DecView {
        fields: dv.fields.update(f, dv.fields[f].at_rest()),
        prev_not_trans: dpcm::none_omitted(),
        ..dv
    };
    lemma_lines_cut(stream, m, start, f, 0, s_first);
}

/// A field is decoded as it is, or ends at the cut.
proof fn lemma_one_field_cut(stream: Seq<bool>, m: nat, dv: DecView)
    requires
        m <= stream.len(),
        dv.pos <= m,
        !(decoder::one_field(stream, dv).0 matches Some(FrameOut::Fail(e))),
    ensures
        ({
            let full = decoder::one_field(stream, dv);
            let cut = decoder::one_field(stream.take(m as int), dv);
            &&& cut == full || (!(cut.0 matches Some(FrameOut::Fail(e))) && m < cut.1.pos + 48)
            &&& cut.1.pos <= m
            &&& cut.1.synced == dv.synced
        }),
{
    let cut = stream.take(m as int);
    if dv.pos + 48 <= m {
        lemma_fst_cut(stream, m, dv.pos);
        match decoder::fst_at(cut, dv.pos) {
            (FstSpec::Fst { field: f, a_flag, s_first }, p1) => {
                let dv1 = DecView {
                    pos: p1,
                    last_fst: Some(f),
                    stats: decoder::DecCounts {
                        a_flag_fields: dv.stats.a_flag_fields + if a_flag {
                            1nat
                        } else {
                            0nat
                        },
                        ..dv.stats
                    },
                    ..dv
                };
                lemma_field_cut(stream, m, dv1, f, s_first);
                decoder::lemma_field_counts(cut, dv1, f, s_first);
            },
            _ => {},
        }
    }
}

/// The first field start code is found as it is, or not before the cut.
proof fn lemma_first_fst_cut(stream: Seq<bool>, m: nat, p: nat)
    requires
        m <= stream.len(),
    ensures
        match decoder::first_fst(stream.take(m as int), p) {
            Some(q) => decoder::first_fst(stream, p) == Some(q) && q <= m,
            None => true,
        },
    decreases m - p,
{
    if p + 48 <= m {
        lemma_fst_cut(stream, m, p);
        if !decoder::looks_like_fst_at(stream.take(m as int), p) {
            lemma_first_fst_cut(stream, m, p + 1);
        }
    }
}

/// Two decoders, of a stream and of the stream cut off behind `m` bits: they
/// agree, or the second one has reached the cut.
pub open spec fn agree(m: nat, full: DecView, cut: DecView) -> bool {
    cut == full || m < cut.pos + 48
}

/// A frame is decoded as it is, or ends at the cut.
proof fn lemma_frame_cut(stream: Seq<bool>, m: nat, full: DecView, cut: DecView)
    requires
        m <= stream.len(),
        cut.pos <= m,
        agree(m, full, cut),
        decoder::frame_at(stream, full).0 !is Fail,
    ensures
        ({
            let (full_out, full1) = decoder::frame_at(stream, full);
            let (cut_out, cut1) = decoder::frame_at(stream.take(m as int), cut);
            &&& cut_out !is Fail
            &&& cut1.pos <= m
            &&& agree(m, full1, cut1)
            &&& m < cut1.pos + 48 || cut_out == full_out
        }),
{
    let short = stream.take(m as int);
    if m >= cut.pos + 48 {
        assert(cut == full);
        lemma_first_fst_cut(stream, m, cut.pos);
        let dv0 = decoder::synchronized(short, cut);
        if dv0.synced {
            assert(dv0 == decoder::synchronized(stream, full));
            lemma_one_field_cut(stream, m, dv0);
            let (out1, dv1) = decoder::one_field(short, dv0);
            if decoder::one_field(stream, dv0) == (out1, dv1) {
                if out1 is None {
                    lemma_one_field_cut(stream, m, dv1);
                }
            }
        }
    }
}

/// The decoders of a stream and of the stream cut off agree after any number
/// of frames.
proof fn lemma_decoded_cut(stream: Seq<bool>, m: nat, n: nat)
    requires
        m <= stream.len(),
        forall|k: nat|
            k < n ==> (#[trigger] decoder::frame_at(stream, lockstep::decoded(stream, k)).0)
                !is Fail,
    ensures
        agree(
            m,
            lockstep::decoded(stream, n),
            lockstep::decoded(stream.take(m as int), n),
        ),
        lockstep::decoded(stream.take(m as int), n).pos <= m,
    decreases n,
{
    if n > 0 {
        let k = (n - 1) as nat;
        lemma_decoded_cut(stream, m, k);
        assert(decoder::frame_at(stream, lockstep::decoded(stream, k)).0 !is Fail);
        lemma_frame_cut(
            stream,
            m,
            lockstep::decoded(stream, k),
            lockstep::decoded(stream.take(m as int), k),
        );
    }
}

/// A truncated stream decodes gracefully: if no frame of a stream up to number
/// `n` fails, none does in the stream cut off behind any of its bits. As long
/// as 48 bits are left before the cut, the frames are those of the whole stream.
pub proof fn truncation_is_graceful(stream: Seq<bool>, m: nat, n: nat)
    requires
        m <= stream.len(),
        forall|k: nat|
            k <= n ==> (#[trigger] decoder::frame_at(stream, lockstep::decoded(stream, k)).0)
                !is Fail,
    ensures
        ({
            let short = stream.take(m as int);
            let (out, after) = decoder::frame_at(short, lockstep::decoded(short, n));
            &&& out !is Fail
            &&& m < after.pos + 48 || out == decoder::frame_at(
                stream,
                lockstep::decoded(stream, n),
            ).0
        }),
{
    lemma_decoded_cut(stream, m, n);
    assert(decoder::frame_at(stream, lockstep::decoded(stream, n)).0 !is Fail);
    lemma_frame_cut(
        stream,
        m,
        lockstep::decoded(stream, n),
        lockstep::decoded(stream.take(m as int), n),
    );
}

/// No stream of the encoder makes the decoder fail, wherever it is cut off.
pub proof fn truncated_encoding_is_graceful(
    bitrate: nat,
    mono: bool,
    frames: Seq<FrameView>,
    padding: nat,
    m: nat,
    n: nat,
)
    requires
        padding < 8,
        m <= lockstep::stream_of(bitrate, mono, frames, padding).len(),
    ensures
        ({
            let short = lockstep::stream_of(bitrate, mono, frames, padding).take(m as int);
            decoder::frame_at(short, lockstep::decoded(short, n)).0 !is Fail
        }),
{
    let stream = lockstep::stream_of(bitrate, mono, frames, padding);
    assert forall|k: nat| k <= n implies (#[trigger] decoder::frame_at(
        stream,
        lockstep::decoded(stream, k),
    ).0) !is Fail by {
        lockstep::decoder_follows_encoder(bitrate, mono, frames, padding, k);
    }
    truncation_is_graceful(stream, m, n);
}

/// A stream that is cut off cleanly between two frames decodes identically up to
/// the cut: every frame before it comes out as from the whole stream (but for
/// the last one if its field 2 was omitted, since it takes the next field).
pub proof fn cut_between_frames_is_clean(
    bitrate: nat,
    mono: bool,
    frames: Seq<FrameView>,
    padding: nat,
    j: int,
    k: int,
)
    requires
        padding < 8,
        0 <= k < j <= frames.len(),
        k + 1 < j || lockstep::encoded(bitrate, mono, frames.take(k + 1)).saved_b1 is None,
    ensures
        ({
            let stream = lockstep::stream_of(bitrate, mono, frames, padding);
            let m = lockstep::encoded(bitrate, mono, frames.take(j)).bits.len();
            let short = stream.take(m as int);
            &&& decoder::frame_at(short, lockstep::decoded(short, k as nat)).0 == decoder::frame_at(
                stream,
                lockstep::decoded(stream, k as nat),
            ).0
            &&& decoder::frame_at(short, lockstep::decoded(short, k as nat)).0 is Frame
            &&& decoder::frame_at(short, lockstep::decoded(short, j as nat)).0 is End
        }),
{
    let stream = lockstep::stream_of(bitrate, mono, frames, padding);
    let first = frames.take(j);
    let sent = lockstep::encoded(bitrate, mono, first).bits;
    let short = stream.take(sent.len() as int);
    lockstep::lemma_encoded_prefix(bitrate, mono, frames, j);
    assert(short =~= lockstep::stream_of(bitrate, mono, first, 0)) by {
        let all = lockstep::encoded(bitrate, mono, frames).bits;
        assert(sent =~= all.subrange(0, sent.len() as int));
        assert forall|i: int| 0 <= i < sent.len() implies stream[i] == sent[i] by {
            assert(all.subrange(0, sent.len() as int)[i] == all[i]);
        }
    }
    lockstep::decoder_follows_encoder(bitrate, mono, frames, padding, k as nat);
    lockstep::decoder_follows_encoder(bitrate, mono, first, 0, k as nat);
    lockstep::decoder_follows_encoder(bitrate, mono, first, 0, j as nat);
    assert(first.take(k + 1) =~= frames.take(k + 1));
    if k + 1 < j {
        assert(first[k + 1] == frames[k + 1]);
    }
}

} // verus!
