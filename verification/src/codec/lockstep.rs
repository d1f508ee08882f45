//! The decoder reconstructs what the encoder reconstructed: the same fields,
//! sample by sample and mark by mark, from every stream of the encoder.

use vstd::prelude::*;
use vstd::arithmetic::power2::lemma2_to64;
use crate::codec;
use crate::codec::bits;
use crate::codec::coding;
use crate::codec::coding::{LineCode, LineStore, PlaneState, COLOR_ESCAPE};
use crate::codec::decoder;
use crate::codec::decoder::{
    DecCounts, DecView, EndSpec, FrameOut, FstSpec, LineEnd, LineState, LstSpec,
};
use crate::codec::dpcm;
use crate::codec::dpcm::{Cluster, LineContext, Plane};
use crate::codec::encoder;
use crate::codec::encoder::{EncCounts, EncView};
use crate::codec::tables;
use crate::codec::{CHROMA_WIDTH, LINES_PER_FIELD, WIDTH};
use crate::source;
use crate::source::InputView;
use crate::y4m::FrameView;

verus! {

/// No synchronization word stands where one of the next 12 bits is set.
proof fn lemma_not_sync(stream: Seq<bool>, p: nat, i: int)
    requires
        0 <= i < 12,
        p + i < stream.len(),
        stream[p + i],
    ensures
        !decoder::sync_at(stream, p),
{
}

/// A code of the tables cannot be taken for a synchronization word.
pub proof fn codes_are_no_sync_words(stream: Seq<bool>, p: nat, run: nat, negative: bool)
    requires
        tables::is_code(run, negative),
        bits::stands_at(stream, p as int, tables::code_bits(run, negative)),
    ensures
        !decoder::sync_at(stream, p),
{
    let code = tables::code_bits(run, negative);
    let n = code.len();
    assert(code[n - 1]);
    assert(stream.subrange(p as int, (p + n) as int)[n - 1] == stream[p + (n - 1)]);
    lemma_not_sync(stream, p, n - 1);
}

/// The codes of a cluster, decoded from position `p` on.
#[verifier::opaque]
spec fn codes_from(stream: Seq<bool>, p: nat, plane: Plane, st: Cluster) -> (
    EndSpec,
    nat,
    Cluster,
) {
    decoder::codes_at(stream, p, plane, st)
}

/// A coded element is decoded to the same element.
proof fn lemma_normal_decoded(stream: Seq<bool>, p: nat, plane: Plane, st: Cluster, sample: u8)
    requires
        bits::stands_at(stream, p as int, coding::coded_normal(plane, st, sample).0),
        dpcm::target(plane, st) <= plane.last_element(),
    ensures
        ({
            let (code, next) = coding::coded_normal(plane, st, sample);
            codes_from(stream, p, plane, st) == codes_from(
                stream,
                p + code.len(),
                plane,
                next,
            )
        }),
{
    reveal(codes_from);
    let diff = sample - dpcm::normal_prediction(plane, st);
    let (level, run, negative) = tables::quantized(diff, plane.subsampled, false);
    tables::quantized_reads_back(diff, plane.subsampled, false);
    tables::code_reads_back(stream, p, run, negative, plane.subsampled);
    codes_are_no_sync_words(stream, p, run, negative);
}

/// A coded extra element is decoded to the same element.
proof fn lemma_extra_decoded(stream: Seq<bool>, p: nat, plane: Plane, st: Cluster, sample: u8)
    requires
        bits::stands_at(stream, p as int, coding::coded_extra(plane, st, sample).0),
        plane.subsampled,
        st.q + 1 <= plane.last_element(),
        st.last == st.q,
    ensures
        ({
            let (code, next) = coding::coded_extra(plane, st, sample);
            codes_from(stream, p, plane, st) == codes_from(
                stream,
                p + code.len(),
                plane,
                next,
            )
        }),
{
    reveal(codes_from);
    let diff = sample - dpcm::extra_prediction(plane, st);
    let (level, run, negative) = tables::quantized(diff, plane.subsampled, true);
    tables::quantized_reads_back(diff, plane.subsampled, true);
    tables::code_reads_back(stream, p, run, negative, plane.subsampled);
    codes_are_no_sync_words(stream, p, run, negative);
}

/// The codes of a cluster are decoded to the same elements.
proof fn lemma_codes_decoded(
    stream: Seq<bool>,
    p: nat,
    plane: Plane,
    st: Cluster,
    input: Seq<u8>,
    end: int,
    extra_ok: bool,
)
    requires
        coding::on_course(plane, st, end),
        bits::stands_at(stream, p as int, coding::codes(plane, st, input, end, extra_ok).0),
    ensures
        ({
            let (code, done) = coding::codes(plane, st, input, end, extra_ok);
            codes_from(stream, p, plane, st) == codes_from(
                stream,
                p + code.len(),
                plane,
                done,
            )
        }),
    decreases end - st.q,
{
    let t = dpcm::target(plane, st);
    if t <= end {
        let extra = coding::sends_extra(plane, st, input, extra_ok);
        let (extra_bits, st1) = if extra {
            coding::coded_extra(plane, st, input[st.q + 1])
        } else {
            (Seq::empty(), st)
        };
        let (normal_bits, st2) = coding::coded_normal(plane, st1, input[t]);
        let rest = coding::codes(plane, st2, input, end, extra_ok).0;
        bits::lemma_stands_split(stream, p as int, extra_bits + normal_bits, rest);
        bits::lemma_stands_split(stream, p as int, extra_bits, normal_bits);
        if extra {
            lemma_extra_decoded(stream, p, plane, st, input[st.q + 1]);
        }
        lemma_normal_decoded(stream, p + extra_bits.len(), plane, st1, input[t]);
        lemma_codes_decoded(
            stream,
            p + extra_bits.len() + normal_bits.len(),
            plane,
            st2,
            input,
            end,
            extra_ok,
        );
    }
}

/// How the codes of a cluster end: by an end-of-cluster code, or by a
/// synchronization word.
proof fn lemma_codes_end(stream: Seq<bool>, p: nat, plane: Plane, st: Cluster, eoc: bool)
    requires
        eoc ==> bits::stands_at(stream, p as int, tables::eoc_bits()),
        !eoc ==> decoder::sync_at(stream, p),
    ensures
        codes_from(stream, p, plane, st) == if eoc {
            (EndSpec::Eoc, p + 4, st)
        } else {
            (EndSpec::Sync, p, st)
        },
{
    reveal(codes_from);
    if eoc {
        tables::code_reads_back(stream, p, 2, true, plane.subsampled);
        codes_are_no_sync_words(stream, p, 2, true);
    }
}

/// A byte of 16 or more is no synchronization word.
proof fn lemma_byte_decoded(stream: Seq<bool>, p: nat, v: u8)
    requires
        bits::stands_at(stream, p as int, bits::bits_of(v as nat, 8)),
    ensures
        bits::number_at(stream, p, 8) == Some(v as nat),
        v != 0 ==> !decoder::sync_at(stream, p),
{
    lemma2_to64();
    bits::lemma_number_at(stream, p, v as nat, 8);
    bits::lemma_bits_of_len(v as nat, 8);
    if v != 0 {
        let seg = stream.subrange(p as int, (p + 8) as int);
        bits::lemma_value_zero(seg);
        let i = choose|i: int| 0 <= i < seg.len() && #[trigger] seg[i];
        lemma_not_sync(stream, p, i);
    }
}

/// A legal sample cannot be taken for a synchronization word, a PCM line or a
/// color escape.
pub proof fn samples_are_no_special_codes(stream: Seq<bool>, p: nat, plane: Plane, sample: u8)
    requires
        plane.legal(sample),
        bits::stands_at(stream, p as int, bits::bits_of(sample as nat, 8)),
    ensures
        !decoder::sync_at(stream, p),
        bits::number_at(stream, p, 8) == Some(sample as nat),
        sample != 0xFF,
        sample != COLOR_ESCAPE,
        16 <= sample <= 239,
{
    lemma_byte_decoded(stream, p, sample);
}

/// A plane of a line that is being decoded.
spec fn plane_of(plane: Plane, ls: LineState, extras: nat) -> PlaneState {
    PlaneState {
        line: if plane.luma {
            ls.y
        } else {
            ls.c
        },
        not_trans: if plane.luma {
            ls.not_trans
        } else {
            dpcm::none_omitted()
        },
        moving: if plane.luma {
            ls.y_moving
        } else {
            ls.c_moving
        },
        extras,
    }
}

/// The line with `n` more clusters of a plane decoded.
spec fn with_plane(
    ls: LineState,
    plane: Plane,
    pos: nat,
    n: nat,
    ps: PlaneState,
    extras: nat,
) -> LineState {
    if plane.luma {
        LineState {
            pos,
            y: ps.line,
            y_moving: ps.moving,
            not_trans: ps.not_trans,
            stats: DecCounts {
                luma_clusters: ls.stats.luma_clusters + n,
                extra_elements: ls.stats.extra_elements + extras,
                ..ls.stats
            },
            ..ls
        }
    } else {
        LineState {
            pos,
            c: ps.line,
            c_moving: ps.moving,
            stats: DecCounts {
                chroma_clusters: ls.stats.chroma_clusters + n,
                extra_elements: ls.stats.extra_elements + extras,
                ..ls.stats
            },
            ..ls
        }
    }
}

/// A cluster of the plane, decoded.
#[verifier::opaque]
spec fn cluster_at(stream: Seq<bool>, ctx: LineContext, luma: bool, ls: LineState) -> (
    EndSpec,
    LineState,
) {
    if luma {
        decoder::luma_cluster_at(stream, ctx, ls)
    } else {
        decoder::chroma_cluster_at(stream, ctx, ls)
    }
}

/// The plane of a line context.
spec fn plane_in(ctx: LineContext, luma: bool) -> Plane {
    if luma {
        ctx.luma()
    } else {
        ctx.chroma()
    }
}

/// A coded cluster is decoded to the same elements and marks.
proof fn lemma_cluster_decoded(
    stream: Seq<bool>,
    ctx: LineContext,
    luma: bool,
    ls: LineState,
    ps: PlaneState,
    input: Seq<u8>,
    span: (int, int),
    extra_ok: bool,
    eoc: bool,
)
    requires
        ps == plane_of(plane_in(ctx, luma), ls, ps.extras),
        coding::plane_wf(plane_in(ctx, luma), ps),
        0 <= ctx.parity < 2,
        0 <= span.0 <= span.1 <= plane_in(ctx, luma).last_element(),
        span.0 <= plane_in(ctx, luma).last_start(),
        ctx.subsampled ==> span.0 % 2 == ctx.parity && span.1 % 2 == ctx.parity,
        plane_in(ctx, luma).legal(input[span.0]),
        ({
            let (code, done) = coding::cluster_code(
                plane_in(ctx, luma),
                ps,
                input,
                span,
                extra_ok,
            );
            let p = ls.pos + code.len();
            &&& bits::stands_at(stream, ls.pos as int, code)
            &&& eoc ==> bits::stands_at(stream, p as int, tables::eoc_bits())
            &&& !eoc ==> decoder::sync_at(stream, p)
        }),
    ensures
        ({
            let (code, done) = coding::cluster_code(
                plane_in(ctx, luma),
                ps,
                input,
                span,
                extra_ok,
            );
            let p = ls.pos + code.len() + if eoc {
                4nat
            } else {
                0nat
            };
            &&& cluster_at(stream, ctx, luma, ls) == (
                if eoc {
                    EndSpec::Eoc
                } else {
                    EndSpec::Sync
                },
                with_plane(
                    ls,
                    plane_in(ctx, luma),
                    p,
                    1,
                    done,
                    (done.extras - ps.extras) as nat,
                ),
            )
            &&& ps.extras <= done.extras
        }),
{
    let plane = plane_in(ctx, luma);
    let start = coding::cluster_start(plane, ps, input, span.0);
    let (inner, st) = coding::codes(plane, start, input, span.1, extra_ok);
    let (code, done) = coding::cluster_code(plane, ps, input, span, extra_ok);
    let pcm = bits::bits_of(input[span.0] as nat, 8);
    let addr = bits::bits_of(coding::address(plane, span.0), 8);
    coding::lemma_cluster_code(plane, ps, input, span, extra_ok);
    bits::lemma_bits_of_len(input[span.0] as nat, 8);
    bits::lemma_bits_of_len(coding::address(plane, span.0), 8);
    bits::lemma_stands_split(stream, ls.pos as int, pcm + addr, inner);
    bits::lemma_stands_split(stream, ls.pos as int, pcm, addr);
    lemma_byte_decoded(stream, ls.pos, input[span.0]);
    lemma_byte_decoded(stream, ls.pos + 8, coding::address(plane, span.0) as u8);
    lemma_codes_decoded(stream, ls.pos + 16, plane, start, input, span.1, extra_ok);
    lemma_codes_end(stream, ls.pos + code.len(), plane, st, eoc);
    assert(decoder::codes_at(stream, ls.pos + 16, plane, start) == codes_from(
        stream,
        ls.pos + 16,
        plane,
        start,
    )) by {
        reveal(codes_from);
    }
    reveal(cluster_at);
}

/// A cluster starts with its first sample, which is no synchronization word.
proof fn lemma_cluster_opens(
    stream: Seq<bool>,
    p: nat,
    plane: Plane,
    spans: Seq<(int, int)>,
    i: int,
    ps: PlaneState,
    input: Seq<u8>,
    extra_ok: bool,
    more: bool,
)
    requires
        0 <= i < spans.len(),
        plane.legal(input[spans[i].0]),
        bits::stands_at(
            stream,
            p as int,
            coding::clusters_code(plane, spans, i, ps, input, extra_ok, more).0,
        ),
    ensures
        bits::number_at(stream, p, 8) == Some(input[spans[i].0] as nat),
        16 <= input[spans[i].0] <= 239,
        !decoder::sync_at(stream, p),
{
    let (head, ps1) = coding::cluster_code(plane, ps, input, spans[i], extra_ok);
    let sep = coding::separator(spans, i, more);
    let rest = coding::clusters_code(plane, spans, i + 1, ps1, input, extra_ok, more).0;
    let pcm = bits::bits_of(input[spans[i].0] as nat, 8);
    let addr = bits::bits_of(coding::address(plane, spans[i].0), 8);
    let inner = coding::codes(
        plane,
        coding::cluster_start(plane, ps, input, spans[i].0),
        input,
        spans[i].1,
        extra_ok,
    ).0;
    bits::lemma_stands_split(stream, p as int, head + sep, rest);
    bits::lemma_stands_split(stream, p as int, head, sep);
    bits::lemma_stands_split(stream, p as int, pcm + addr, inner);
    bits::lemma_stands_split(stream, p as int, pcm, addr);
    samples_are_no_special_codes(stream, p, plane, input[spans[i].0]);
}

/// The clusters of a line, decoded from a plane on.
#[verifier::opaque]
spec fn clusters_from(stream: Seq<bool>, ctx: LineContext, luma: bool, ls: LineState) -> (
    LineEnd,
    LineState,
) {
    decoder::clusters_at(stream, ctx, !luma, ls)
}

/// What follows a cluster.
proof fn lemma_clusters_step(stream: Seq<bool>, ctx: LineContext, luma: bool, ls: LineState)
    requires
        !decoder::sync_at(stream, ls.pos),
    ensures
        ({
            let (end, ls1) = cluster_at(stream, ctx, luma, ls);
            &&& end is Sync ==> clusters_from(stream, ctx, luma, ls) == (LineEnd::Done, ls1)
            &&& end is Eoc ==> clusters_from(stream, ctx, luma, ls) == if luma && bits::number_at(
                stream,
                ls1.pos,
                8,
            ) == Some(0x09nat) {
                clusters_from(stream, ctx, false, LineState { pos: ls1.pos + 8, ..ls1 })
            } else {
                clusters_from(stream, ctx, luma, ls1)
            }
        }),
{
    reveal(cluster_at);
    reveal(clusters_from);
}

/// The coded clusters of a plane are decoded to the same elements and marks.
proof fn lemma_clusters_decoded(
    stream: Seq<bool>,
    ctx: LineContext,
    luma: bool,
    spans: Seq<(int, int)>,
    i: int,
    ls: LineState,
    ps: PlaneState,
    input: Seq<u8>,
    extra_ok: bool,
    more: bool,
)
    requires
        0 <= i < spans.len(),
        ps == plane_of(plane_in(ctx, luma), ls, ps.extras),
        coding::plane_wf(plane_in(ctx, luma), ps),
        coding::codable(plane_in(ctx, luma), spans),
        forall|e: int|
            0 <= e <= plane_in(ctx, luma).last_element() ==> plane_in(ctx, luma).legal(
                #[trigger] input[e],
            ),
        more ==> luma,
        ({
            let code = coding::clusters_code(
                plane_in(ctx, luma),
                spans,
                i,
                ps,
                input,
                extra_ok,
                more,
            ).0;
            let p = ls.pos + code.len();
            &&& bits::stands_at(stream, ls.pos as int, code)
            &&& more ==> bits::number_at(stream, p, 8) == Some(0x09nat)
            &&& !more ==> decoder::sync_at(stream, p)
        }),
    ensures
        ({
            let (code, done) = coding::clusters_code(
                plane_in(ctx, luma),
                spans,
                i,
                ps,
                input,
                extra_ok,
                more,
            );
            let read = with_plane(
                ls,
                plane_in(ctx, luma),
                ls.pos + code.len(),
                (spans.len() - i) as nat,
                done,
                (done.extras - ps.extras) as nat,
            );
            &&& clusters_from(stream, ctx, luma, ls) == if more {
                clusters_from(stream, ctx, false, LineState { pos: read.pos + 8, ..read })
            } else {
                (LineEnd::Done, read)
            }
            &&& ps.extras <= done.extras
            &&& coding::plane_wf(plane_in(ctx, luma), done)
        }),
    decreases spans.len() - i,
{
    let plane = plane_in(ctx, luma);
    let (whole, done) = coding::clusters_code(plane, spans, i, ps, input, extra_ok, more);
    let (head, ps1) = coding::cluster_code(plane, ps, input, spans[i], extra_ok);
    let sep = coding::separator(spans, i, more);
    let rest = coding::clusters_code(plane, spans, i + 1, ps1, input, extra_ok, more).0;
    let eoc = i + 1 < spans.len() || more;
    bits::lemma_stands_split(stream, ls.pos as int, head + sep, rest);
    bits::lemma_stands_split(stream, ls.pos as int, head, sep);
    assert(plane.legal(input[spans[i].0]));
    lemma_cluster_opens(stream, ls.pos, plane, spans, i, ps, input, extra_ok, more);
    coding::lemma_cluster_code(plane, ps, input, spans[i], extra_ok);
    assert(tables::eoc_bits().len() == 4);
    if !eoc {
        assert(rest =~= Seq::<bool>::empty());
        assert(whole =~= head);
    }
    lemma_cluster_decoded(stream, ctx, luma, ls, ps, input, spans[i], extra_ok, eoc);
    lemma_clusters_step(stream, ctx, luma, ls);
    if eoc {
        let ls1 = with_plane(
            ls,
            plane,
            ls.pos + head.len() + 4,
            1,
            ps1,
            (ps1.extras - ps.extras) as nat,
        );
        assert(cluster_at(stream, ctx, luma, ls) == (EndSpec::Eoc, ls1));
        if i + 1 < spans.len() {
            assert(plane.legal(input[spans[i + 1].0]));
            lemma_cluster_opens(stream, ls1.pos, plane, spans, i + 1, ps1, input, extra_ok, more);
            assert(ps1 == plane_of(plane, ls1, ps1.extras));
            lemma_clusters_decoded(
                stream,
                ctx,
                luma,
                spans,
                i + 1,
                ls1,
                ps1,
                input,
                extra_ok,
                more,
            );
            let read = with_plane(
                ls,
                plane,
                ls.pos + whole.len(),
                (spans.len() - i) as nat,
                done,
                (done.extras - ps.extras) as nat,
            );
            let read1 = with_plane(
                ls1,
                plane,
                ls1.pos + rest.len(),
                (spans.len() - i - 1) as nat,
                done,
                (done.extras - ps1.extras) as nat,
            );
            assert(read =~= read1);
        } else {
            assert(rest =~= Seq::<bool>::empty());
            assert(whole =~= head + sep);
        }
    }
}

/// The samples of the input are legal, and its lines are whole.
pub open spec fn legal_lines(y_in: Seq<u8>, c_in: Seq<u8>) -> bool {
    &&& y_in.len() == WIDTH
    &&& c_in.len() == CHROMA_WIDTH
    &&& forall|e: int| 0 <= e < WIDTH ==> codec::Y_MIN <= #[trigger] y_in[e] <= codec::Y_MAX
    &&& forall|e: int| 0 <= e < CHROMA_WIDTH ==> codec::C_MIN <= #[trigger] c_in[e] <= codec::C_MAX
}

/// A line about to be decoded, as the encoder stores it.
pub open spec fn store_of(ls: LineState) -> LineStore {
    LineStore { y: ls.y, c: ls.c, y_moving: ls.y_moving, c_moving: ls.c_moving }
}

/// The line with the clusters of a coded line decoded.
spec fn with_code(ls: LineState, pos: nat, y: Seq<u8>, code: LineCode) -> LineState {
    LineState {
        pos,
        y,
        c: code.c,
        y_moving: code.y_moving,
        c_moving: code.c_moving,
        not_trans: code.not_trans,
        stats: DecCounts {
            luma_clusters: ls.stats.luma_clusters + code.luma_clusters,
            chroma_clusters: ls.stats.chroma_clusters + code.chroma_clusters,
            extra_elements: ls.stats.extra_elements + code.extras,
            ..ls.stats
        },
    }
}

/// The clusters of a line are decoded to the same line.
#[verifier::spinoff_prover]
#[verifier::rlimit(60)]
proof fn lemma_clusters_line_decoded(
    stream: Seq<bool>,
    ctx: LineContext,
    ls: LineState,
    y_in: Seq<u8>,
    c_in: Seq<u8>,
    y_spans: Seq<(int, int)>,
    c_spans: Seq<(int, int)>,
    extra_ok: bool,
) -> (y: Seq<u8>)
    requires
        legal_lines(y_in, c_in),
        y_spans.len() > 0 || c_spans.len() > 0,
        coding::codable(ctx.luma(), y_spans),
        coding::codable(ctx.chroma(), c_spans),
        ls.y.len() == WIDTH,
        ls.c.len() == CHROMA_WIDTH,
        ls.y_moving.len() == WIDTH,
        ls.c_moving.len() == CHROMA_WIDTH,
        ls.not_trans == dpcm::none_omitted(),
        ({
            let code = coding::clusters_line(
                ctx,
                store_of(ls),
                y_in,
                c_in,
                y_spans,
                c_spans,
                extra_ok,
            );
            &&& bits::stands_at(stream, ls.pos as int, code.bits)
            &&& decoder::sync_at(stream, ls.pos + code.bits.len())
        }),
    ensures
        !decoder::sync_at(stream, ls.pos),
        bits::number_at(stream, ls.pos, 8) matches Some(first) && first != 0xFF && (first == 0x09
            <==> y_spans.len() == 0),
        ({
            let code = coding::clusters_line(
                ctx,
                store_of(ls),
                y_in,
                c_in,
                y_spans,
                c_spans,
                extra_ok,
            );
            let luma = y_spans.len() > 0;
            &&& code.y == dpcm::blanked(y)
            &&& clusters_from(
                stream,
                ctx,
                luma,
                LineState {
                    pos: if luma {
                        ls.pos
                    } else {
                        ls.pos + 8
                    },
                    ..ls
                },
            ) == (LineEnd::Done, with_code(ls, ls.pos + code.bits.len(), y, code))
        }),
{
    let color = c_spans.len() > 0;
    let code = coding::clusters_line(ctx, store_of(ls), y_in, c_in, y_spans, c_spans, extra_ok);
    let y_ps = plane_of(ctx.luma(), ls, 0);
    let c_ps = plane_of(ctx.chroma(), ls, 0);
    let (y_bits, y_done) = coding::clusters_code(
        ctx.luma(),
        y_spans,
        0,
        y_ps,
        y_in,
        extra_ok,
        color,
    );
    let (c_bits, c_done) = coding::clusters_code(
        ctx.chroma(),
        c_spans,
        0,
        c_ps,
        c_in,
        extra_ok,
        false,
    );
    let escape = bits::bits_of(COLOR_ESCAPE as nat, 8);
    let tail = if color {
        escape + c_bits
    } else {
        Seq::empty()
    };
    assert(code.bits == y_bits + tail);
    bits::lemma_bits_of_len(COLOR_ESCAPE as nat, 8);
    bits::lemma_stands_split(stream, ls.pos as int, y_bits, tail);
    let p = ls.pos + y_bits.len();
    if color {
        bits::lemma_stands_split(stream, p as int, escape, c_bits);
        lemma_byte_decoded(stream, p, COLOR_ESCAPE as u8);
    }
    let luma = y_spans.len() > 0;
    let ls1 = with_plane(ls, ctx.luma(), p, y_spans.len(), y_done, y_done.extras);
    if luma {
        assert(ctx.luma().legal(y_in[y_spans[0].0]));
        lemma_cluster_opens(
            stream,
            ls.pos,
            ctx.luma(),
            y_spans,
            0,
            y_ps,
            y_in,
            extra_ok,
            color,
        );
        lemma_clusters_decoded(
            stream,
            ctx,
            true,
            y_spans,
            0,
            ls,
            y_ps,
            y_in,
            extra_ok,
            color,
        );
    } else {
        assert(y_bits =~= Seq::<bool>::empty());
        assert(ls1 =~= ls);
    }
    let ls2 = LineState { pos: p + 8, ..ls1 };
    if color {
        assert(plane_of(ctx.chroma(), ls2, 0) == c_ps);
        lemma_clusters_decoded(
            stream,
            ctx,
            false,
            c_spans,
            0,
            ls2,
            c_ps,
            c_in,
            extra_ok,
            false,
        );
        assert(with_plane(
            ls2,
            ctx.chroma(),
            ls2.pos + c_bits.len(),
            c_spans.len(),
            c_done,
            c_done.extras,
        ) =~= with_code(ls, ls.pos + code.bits.len(), y_done.line, code));
    } else {
        assert(c_done == c_ps);
        assert(ls1 =~= with_code(ls, ls.pos + code.bits.len(), y_done.line, code));
    }
    y_done.line
}

/// The bits of a start code: 12 zeros + 1 + AAA + S + line code.
pub open spec fn raw_lst(aaa: nat, s: bool, line_code: nat) -> Seq<bool> {
    bits::bits_of(1, 13) + bits::bits_of(aaa, 3) + seq![s] + bits::bits_of(line_code, 3)
}

/// A start code is decoded to its parts, and is a synchronization word.
proof fn lemma_lst_decoded(stream: Seq<bool>, p: nat, aaa: nat, s: bool, line_code: nat)
    requires
        bits::stands_at(stream, p as int, raw_lst(aaa, s, line_code)),
        aaa < 8,
        line_code < 8,
    ensures
        decoder::lst_at(stream, p) == (LstSpec::Lst { aaa, s, line_code }, p + 20),
        decoder::sync_at(stream, p),
{
    lemma2_to64();
    let head = bits::bits_of(1, 13);
    let a = bits::bits_of(aaa, 3);
    let c = bits::bits_of(line_code, 3);
    bits::lemma_bits_of_len(1, 13);
    bits::lemma_bits_of_len(aaa, 3);
    bits::lemma_bits_of_len(line_code, 3);
    bits::lemma_stands_split(stream, p as int, head + a + seq![s], c);
    bits::lemma_stands_split(stream, p as int, head + a, seq![s]);
    bits::lemma_stands_split(stream, p as int, head, a);
    bits::lemma_number_at(stream, p, 1, 13);
    bits::lemma_number_at(stream, p + 13, aaa, 3);
    let v: nat = if s {
        1
    } else {
        0
    };
    assert(bits::bits_of(v, 1) =~= seq![s]) by {
        reveal_with_fuel(bits::bits_of, 2);
    }
    bits::lemma_number_at(stream, p + 16, v, 1);
    bits::lemma_number_at(stream, p + 17, line_code, 3);
    bits::lemma_bits_of_split(1, 12, 1);
    bits::lemma_bits_of_zero(12);
    assert forall|i: int| p <= i < p + 12 && i < stream.len() implies !#[trigger] stream[i] by {
        assert(stream.subrange(p as int, (p + head.len()) as int)[i - p] == stream[i]);
        assert(head[i - p] == bits::bits_of(0, 12)[i - p]);
    }
}

/// The bits of a line start code.
pub proof fn lemma_lst_bits(s: bool, line_no: int)
    ensures
        coding::lst_bits(s, line_no) == raw_lst(0, s, (line_no % 8) as nat),
{
    lemma2_to64();
    bits::lemma_bits_of_split(8, 13, 3);
    bits::lemma_low_bits_of_multiple(1, 3);
    bits::lemma_bits_of_zero(3);
    assert(coding::lst_bits(s, line_no) =~= raw_lst(0, s, (line_no % 8) as nat));
}

/// The central byte of a field start code.
pub open spec fn middle(f: int) -> nat {
    if f == 0 {
        0x0F
    } else {
        0x06
    }
}

/// The bits of the central byte of a field start code.
proof fn lemma_middle_bits(f: int)
    ensures
        bits::bits_of(0, 4) + seq![f == 0] + bits::bits_of(3, 2) + seq![f == 0] == bits::bits_of(
            middle(f),
            8,
        ),
{
    reveal_with_fuel(bits::bits_of, 9);
    assert(bits::bits_of(0, 4) + seq![f == 0] + bits::bits_of(3, 2) + seq![f == 0]
        =~= bits::bits_of(middle(f), 8));
}

/// Appending three parts, one by one or together.
proof fn lemma_append_three(head: Seq<bool>, a: Seq<bool>, b: Seq<bool>, c: Seq<bool>)
    ensures
        head + a + b + c == head + (a + b + c),
{
    assert(head + a + b + c =~= head + (a + b + c));
}

/// The bits of a field start code.
pub proof fn lemma_fst_bits(f: int, a: bool, s_first: bool)
    ensures
        coding::fst_bits(f, a, s_first) == raw_lst(
            if a {
                7
            } else {
                0
            },
            f == 0,
            7,
        ) + bits::bits_of(middle(f), 8) + raw_lst(0, s_first, 0),
{
    let aaa: nat = if a {
        7
    } else {
        0
    };
    let fbit = seq![f == 0];
    let first = raw_lst(aaa, f == 0, 7);
    let (z4, c3) = (bits::bits_of(0, 4), bits::bits_of(3, 2));
    let mid = z4 + fbit + c3 + fbit;
    let (sync, z3) = (bits::bits_of(8, 16), bits::bits_of(0, 3));
    lemma_middle_bits(f);
    lemma_lst_bits(s_first, 0);
    lemma_append_three(first, z4, fbit, c3);
    assert(first + (z4 + fbit + c3) + fbit =~= first + mid);
    lemma_append_three(first + mid, sync, seq![s_first], z3);
    assert(coding::lst_bits(s_first, 0) == sync + seq![s_first] + z3);
}

/// A field start code is decoded to its parts, and is found where the decoder
/// looks for it.
proof fn lemma_fst_decoded(stream: Seq<bool>, p: nat, f: int, a: bool, s_first: bool)
    requires
        bits::stands_at(stream, p as int, coding::fst_bits(f, a, s_first)),
        0 <= f < 2,
    ensures
        decoder::fst_at(stream, p) == (
            FstSpec::Fst { field: f, a_flag: a, s_first },
            p + 48,
        ),
        decoder::looks_like_fst_at(stream, p),
        decoder::sync_at(stream, p),
        p + 48 <= stream.len(),
{
    let aaa: nat = if a {
        7
    } else {
        0
    };
    let first = raw_lst(aaa, f == 0, 7);
    let mid = bits::bits_of(middle(f), 8);
    let second = raw_lst(0, s_first, 0);
    lemma_fst_bits(f, a, s_first);
    bits::lemma_bits_of_len(1, 13);
    bits::lemma_bits_of_len(aaa, 3);
    bits::lemma_bits_of_len(7, 3);
    bits::lemma_bits_of_len(0, 3);
    bits::lemma_bits_of_len(middle(f), 8);
    bits::lemma_stands_split(stream, p as int, first + mid, second);
    bits::lemma_stands_split(stream, p as int, first, mid);
    lemma_lst_decoded(stream, p, aaa, f == 0, 7);
    lemma_byte_decoded(stream, p + 20, middle(f) as u8);
    lemma_lst_decoded(stream, p + 28, 0, s_first, 0);
}

/// A byte of a row of bytes is decoded to itself.
proof fn lemma_bytes_decoded(stream: Seq<bool>, p: nat, data: Seq<u8>, i: int)
    requires
        bits::stands_at(stream, p as int, bits::bits_of_bytes(data)),
        0 <= i < data.len(),
    ensures
        p + 8 * i + 8 <= stream.len(),
        bits::number_at(stream, (p + 8 * i) as nat, 8) == Some(data[i] as nat),
        decoder::byte_at(stream, p, i) == data[i],
{
    let all = bits::bits_of_bytes(data);
    let one = bits::bits_of(data[i] as nat, 8);
    bits::lemma_bits_of_len(data[i] as nat, 8);
    assert(stream.subrange(p + 8 * i, p + 8 * i + 8) =~= one) by {
        assert forall|k: int| 0 <= k < 8 implies stream[p + 8 * i + k] == #[trigger] one[k] by {
            assert(stream.subrange(p as int, (p + all.len()) as int)[8 * i + k] == all[8 * i + k]);
            assert((8 * i + k) / 8 == i);
            assert((8 * i + k) % 8 == k);
        }
    }
    lemma_byte_decoded(stream, (p + 8 * i) as nat, data[i]);
}

/// The counters of the decoder with one more line read.
pub open spec fn line_tallied(
    d: DecCounts,
    pcm: bool,
    sub: bool,
    code: LineCode,
    after: DecCounts,
) -> bool {
    let empty = code.luma_clusters == 0 && code.chroma_clusters == 0;
    &&& after.pcm_lines == d.pcm_lines + if pcm {
        1nat
    } else {
        0nat
    }
    &&& after.empty_lines == d.empty_lines + if !pcm && empty {
        1nat
    } else {
        0nat
    }
    &&& after.subsampled_lines == d.subsampled_lines + if !pcm && sub && !empty {
        1nat
    } else {
        0nat
    }
    &&& after.luma_clusters == d.luma_clusters + code.luma_clusters
    &&& after.chroma_clusters == d.chroma_clusters + code.chroma_clusters
    &&& after.extra_elements == d.extra_elements + code.extras
}

/// A coded line as the decoder stores it: `after` is `dv` with line `l` of field
/// `f` read.
pub open spec fn line_read(
    dv: DecView,
    f: int,
    l: int,
    pcm: bool,
    sub: bool,
    code: LineCode,
    after: DecView,
) -> bool {
    let field = dv.fields[f];
    &&& line_tallied(dv.stats, pcm, sub, code, after.stats)
    &&& after.fields == dv.fields.update(
        f,
        codec::FieldView {
            y: field.y.update(l, code.y),
            c: field.c.update(l, code.c),
            y_moving: field.y_moving.update(l, code.y_moving),
            c_moving: field.c_moving.update(l, code.c_moving),
        },
    )
    &&& after.pos == dv.pos + code.bits.len()
    &&& after.prev_not_trans == code.not_trans
    &&& after.last_fst == dv.last_fst
    &&& after.synced == dv.synced
}

/// A line of the decoder, as the encoder stores it.
pub open spec fn stored_line(dv: DecView, f: int, l: int) -> LineStore {
    store_of(dv.line(f, l, dpcm::none_omitted()))
}

/// A PCM line is decoded to the same samples.
proof fn lemma_pcm_line_decoded(
    stream: Seq<bool>,
    dv: DecView,
    f: int,
    l: int,
    sub: bool,
    y_in: Seq<u8>,
    c_in: Seq<u8>,
)
    requires
        dv.wf(),
        0 <= f < 2,
        0 <= l < LINES_PER_FIELD,
        legal_lines(y_in, c_in),
        bits::stands_at(stream, dv.pos as int, coding::pcm_line(y_in, c_in).bits),
    ensures
        decoder::line_at(stream, dv, f, l, sub).0 is Done,
        line_read(
            dv,
            f,
            l,
            true,
            sub,
            coding::pcm_line(y_in, c_in),
            decoder::line_at(stream, dv, f, l, sub).1,
        ),
{
    let code = coding::pcm_line(y_in, c_in);
    let data = coding::pcm_bytes(y_in, c_in);
    let p = dv.pos;
    lemma_bytes_decoded(stream, p, data, 0);
    lemma_bytes_decoded(stream, p, data, 1);
    lemma_bytes_decoded(stream, p, data, 309);
    assert(decoder::bytes_left(stream, p + 16) >= 308);
    let after = decoder::line_at(stream, dv, f, l, sub).1;
    assert forall|e: int| 0 <= e < 308 implies #[trigger] decoder::byte_at(stream, p + 16, e)
        == data[e + 2] by {
        lemma_bytes_decoded(stream, p, data, e + 2);
        assert(p + 16 + 8 * e == p + 8 * (e + 2));
    }
    assert(dv.fields[f].wf());
    assert(after.fields[f].y[l] =~= code.y);
    assert(after.fields[f].c[l] =~= code.c);
    let field = dv.fields[f];
    let want = codec::FieldView {
        y: field.y.update(l, code.y),
        c: field.c.update(l, code.c),
        y_moving: field.y_moving.update(l, code.y_moving),
        c_moving: field.c_moving.update(l, code.c_moving),
    };
    assert(after.fields[f] =~= want);
    assert(after.fields =~= dv.fields.update(f, want));
}

/// An empty line is decoded to what was stored.
proof fn lemma_empty_line_decoded(stream: Seq<bool>, dv: DecView, f: int, l: int, sub: bool)
    requires
        dv.wf(),
        0 <= f < 2,
        0 <= l < LINES_PER_FIELD,
        decoder::sync_at(stream, dv.pos),
    ensures
        decoder::line_at(stream, dv, f, l, sub).0 is Done,
        line_read(
            dv,
            f,
            l,
            false,
            sub,
            coding::empty_line(stored_line(dv, f, l)),
            decoder::line_at(stream, dv, f, l, sub).1,
        ),
{
    let p = dv.pos;
    if p + 8 <= stream.len() {
        let seg = stream.subrange(p as int, (p + 8) as int);
        bits::lemma_value_zero(seg);
        assert(bits::value_of(seg) == 0) by {
            assert forall|i: int| 0 <= i < seg.len() implies !#[trigger] seg[i] by {
                assert(!stream[p + i]);
            }
        }
    }
    let field = dv.fields[f];
    assert(field.wf()) by {
        assert(dv.fields[0].wf() && dv.fields[1].wf());
    }
    let code = coding::empty_line(stored_line(dv, f, l));
    let want = codec::FieldView {
        y: field.y.update(l, code.y),
        c: field.c.update(l, code.c),
        y_moving: field.y_moving.update(l, code.y_moving),
        c_moving: field.c_moving.update(l, code.c_moving),
    };
    assert(want =~= field);
    assert(dv.fields.update(f, want) =~= dv.fields);
}

/// A line of clusters is decoded to the line that the encoder reconstructed.
proof fn lemma_moving_line_decoded(
    stream: Seq<bool>,
    dv: DecView,
    f: int,
    l: int,
    sub: bool,
    y_in: Seq<u8>,
    c_in: Seq<u8>,
    thr: int,
    extra_ok: bool,
)
    requires
        dv.wf(),
        0 <= f < 2,
        0 <= l < LINES_PER_FIELD,
        legal_lines(y_in, c_in),
        ({
            let code = coding::moving_line(
                dv.context(f, l, sub),
                stored_line(dv, f, l),
                y_in,
                c_in,
                thr,
                extra_ok,
            );
            &&& bits::stands_at(stream, dv.pos as int, code.bits)
            &&& decoder::sync_at(stream, dv.pos + code.bits.len())
        }),
    ensures
        decoder::line_at(stream, dv, f, l, sub).0 is Done,
        line_read(
            dv,
            f,
            l,
            false,
            sub,
            coding::moving_line(
                dv.context(f, l, sub),
                stored_line(dv, f, l),
                y_in,
                c_in,
                thr,
                extra_ok,
            ),
            decoder::line_at(stream, dv, f, l, sub).1,
        ),
{
    reveal(coding::moving_line);
    let ctx = dv.context(f, l, sub);
    let store = stored_line(dv, f, l);
    let y_spans = coding::luma_spans(ctx, y_in, store.y, thr);
    let c_spans = coding::chroma_spans(ctx, c_in, store.c, thr);
    let code = coding::moving_line(ctx, store, y_in, c_in, thr, extra_ok);
    assert(dv.fields[f].wf()) by {
        assert(dv.fields[0].wf() && dv.fields[1].wf());
    }
    if y_spans.len() == 0 && c_spans.len() == 0 {
        lemma_empty_line_decoded(stream, dv, f, l, sub);
    } else {
        coding::lemma_spans_codable(ctx, y_in, c_in, store.y, store.c, thr);
        let ls = LineState {
            stats: DecCounts {
                moving_lines: dv.stats.moving_lines + 1,
                subsampled_lines: dv.stats.subsampled_lines + if sub {
                    1nat
                } else {
                    0nat
                },
                ..dv.stats
            },
            ..dv.line(f, l, dpcm::none_omitted())
        };
        assert(store_of(ls) == store);
        let y = lemma_clusters_line_decoded(
            stream,
            ctx,
            ls,
            y_in,
            c_in,
            y_spans,
            c_spans,
            extra_ok,
        );
        reveal(clusters_from);
        let after = decoder::line_at(stream, dv, f, l, sub).1;
        assert(after == DecView {
            prev_not_trans: code.not_trans,
            ..dv.with_line(
                f,
                l,
                LineState {
                    y: code.y,
                    ..with_code(ls, ls.pos + code.bits.len(), y, code)
                },
            )
        });
    }
}

/// A line of clusters in lockstep: where the encoder and the decoder store the same
/// field and know the same omitted elements of the line above, the line that the
/// encoder coded, with a line start code behind it, is decoded up to that start code
/// to the same samples and moving marks, and leaves the same omitted elements for
/// the line below.
pub proof fn line_decodes_to_what_was_coded(
    stream: Seq<bool>,
    dv: DecView,
    ev: EncView,
    f: int,
    l: int,
    input: InputView,
    sub: bool,
    next_sub: bool,
    next_number: int,
)
    requires
        dv.wf(),
        ev.fields.len() == 2,
        0 <= f < 2,
        0 <= l < LINES_PER_FIELD,
        dv.fields[f] == ev.fields[f],
        input.wf(),
        bits::stands_at(
            stream,
            dv.pos as int,
            coding::moving_line(
                ev.context(f, l, sub, dv.prev_not_trans),
                ev.line(f, l),
                input.y[l],
                input.c[l],
                encoder::threshold(ev.occupancy),
                encoder::below(ev.occupancy, encoder::EXTRA_OK_BELOW as nat),
            ).bits + coding::lst_bits(next_sub, next_number),
        ),
    ensures
        ({
            let code = coding::moving_line(
                ev.context(f, l, sub, dv.prev_not_trans),
                ev.line(f, l),
                input.y[l],
                input.c[l],
                encoder::threshold(ev.occupancy),
                encoder::below(ev.occupancy, encoder::EXTRA_OK_BELOW as nat),
            );
            let (end, after) = decoder::line_at(stream, dv, f, l, sub);
            &&& end is Done
            &&& after.pos == dv.pos + code.bits.len()
            &&& decoder::lst_at(stream, after.pos) == (
                LstSpec::Lst { aaa: 0, s: next_sub, line_code: (next_number % 8) as nat },
                after.pos + 20,
            )
            &&& after.fields[f] == ev.with_code(f, l, code).fields[f]
            &&& after.fields[1 - f] == dv.fields[1 - f]
            &&& after.prev_not_trans == code.not_trans
            &&& line_tallied(dv.stats, false, sub, code, after.stats)
        }),
{
    let (y_in, c_in) = (input.y[l], input.c[l]);
    let thr = encoder::threshold(ev.occupancy);
    let extra_ok = encoder::below(ev.occupancy, encoder::EXTRA_OK_BELOW as nat);
    assert(dv.context(f, l, sub) == ev.context(f, l, sub, dv.prev_not_trans));
    assert(stored_line(dv, f, l) == ev.line(f, l));
    assert(legal_lines(y_in, c_in));
    let code = coding::moving_line(
        dv.context(f, l, sub),
        stored_line(dv, f, l),
        y_in,
        c_in,
        thr,
        extra_ok,
    );
    bits::lemma_stands_split(
        stream,
        dv.pos as int,
        code.bits,
        coding::lst_bits(next_sub, next_number),
    );
    lemma_lst_bits(next_sub, next_number);
    lemma_lst_decoded(
        stream,
        dv.pos + code.bits.len(),
        0,
        next_sub,
        (next_number % 8) as nat,
    );
    lemma_moving_line_decoded(stream, dv, f, l, sub, y_in, c_in, thr, extra_ok);
}

/// What stands in a prefix of a stream stands in the stream.
proof fn lemma_stands_in_prefix(
    stream: Seq<bool>,
    whole: Seq<bool>,
    before: Seq<bool>,
    seg: Seq<bool>,
)
    requires
        whole.is_prefix_of(stream),
        (before + seg).is_prefix_of(whole),
    ensures
        bits::stands_at(stream, before.len() as int, seg),
        (before + seg).is_prefix_of(stream),
        before.is_prefix_of(stream),
{
    let n = (before + seg).len() as int;
    assert(whole.subrange(0, n) =~= before + seg);
    assert(stream.subrange(0, whole.len() as int) =~= whole);
    assert forall|i: int| 0 <= i < n implies stream[i] == (before + seg)[i] by {
        assert(stream.subrange(0, whole.len() as int)[i] == whole[i]);
        assert(whole.subrange(0, n)[i] == whole[i]);
    }
    assert(stream.subrange(before.len() as int, n) =~= seg);
}

/// The counters of a decoder and of an encoder agree on the lines: PCM, empty
/// and subsampled lines, clusters, extra elements.
pub open spec fn tallies_agree(d: DecCounts, e: EncCounts) -> bool {
    &&& d.pcm_lines == e.pcm_lines
    &&& d.empty_lines == e.empty_lines
    &&& d.subsampled_lines == e.subsampled_lines
    &&& d.luma_clusters == e.luma_clusters
    &&& d.chroma_clusters == e.chroma_clusters
    &&& d.extra_elements == e.extra_elements
}

/// A decoder that has read what the encoder has sent: its fields are those of
/// the encoder, and its counters agree.
pub open spec fn in_step(dv: DecView, ev: EncView) -> bool {
    &&& tallies_agree(dv.stats, ev.stats)
    &&& dv.wf()
    &&& dv.fields == ev.fields
    &&& dv.pos == ev.bits.len()
}

/// A line that the encoder sent is decoded to the same line.
proof fn lemma_line_step(
    stream: Seq<bool>,
    dv: DecView,
    ev: EncView,
    f: int,
    l: int,
    input: InputView,
    pcm: bool,
)
    requires
        ev.wf_but(2),
        dv.wf(),
        dv.fields == ev.fields,
        tallies_agree(dv.stats, ev.stats),
        0 <= f < 2,
        0 <= l < LINES_PER_FIELD,
        input.wf(),
        dv.pos == ev.bits.len() + encoder::start_code(
            ev,
            f,
            l,
            encoder::subsamples(ev, pcm),
        ).len(),
        ({
            let next = encoder::line_sent(ev, f, l, input, pcm, dv.prev_not_trans);
            &&& next.bits.is_prefix_of(stream)
            &&& decoder::sync_at(stream, next.bits.len())
        }),
    ensures
        ({
            let next = encoder::line_sent(ev, f, l, input, pcm, dv.prev_not_trans);
            let (end, dv1) = decoder::line_at(stream, dv, f, l, encoder::subsamples(ev, pcm));
            &&& end is Done
            &&& in_step(dv1, next)
            &&& dv1.prev_not_trans == encoder::line_code(
                ev,
                f,
                l,
                input,
                pcm,
                dv.prev_not_trans,
            ).not_trans
            &&& dv1.last_fst == dv.last_fst
            &&& dv1.synced == dv.synced
        }),
{
    let sub = encoder::subsamples(ev, pcm);
    let next = encoder::line_sent(ev, f, l, input, pcm, dv.prev_not_trans);
    let header = encoder::start_code(ev, f, l, sub);
    let code = encoder::line_code(ev, f, l, input, pcm, dv.prev_not_trans);
    encoder::lemma_line_sent(ev, f, l, input, pcm, dv.prev_not_trans);
    assert(next.bits.is_prefix_of(next.bits));
    lemma_stands_in_prefix(stream, next.bits, ev.bits + header, code.bits);
    let (y_in, c_in) = (input.y[l], input.c[l]);
    assert(legal_lines(y_in, c_in));
    assert(stored_line(dv, f, l) == ev.line(f, l));
    if pcm {
        lemma_pcm_line_decoded(stream, dv, f, l, sub, y_in, c_in);
    } else if encoder::panics(ev) {
        lemma_empty_line_decoded(stream, dv, f, l, sub);
    } else {
        assert(dv.context(f, l, sub) == ev.context(f, l, sub, dv.prev_not_trans));
        lemma_moving_line_decoded(
            stream,
            dv,
            f,
            l,
            sub,
            y_in,
            c_in,
            encoder::threshold(ev.occupancy),
            encoder::below(ev.occupancy, encoder::EXTRA_OK_BELOW as nat),
        );
    }
    let dv1 = decoder::line_at(stream, dv, f, l, sub).1;
    assert(line_read(dv, f, l, pcm, sub, code, dv1));
    assert(dv1.fields == next.fields);
    assert(next.wf());
}

/// Sending lines only adds bits, a start code first.
#[verifier::spinoff_prover]
#[verifier::rlimit(60)]
proof fn lemma_lines_extend(
    ev: EncView,
    f: int,
    l: int,
    input: InputView,
    pcm_lines: Seq<bool>,
    prev_not_trans: Seq<bool>,
)
    requires
        ev.wf_but(2),
        l > 0 ==> ev.wf(),
        0 <= f < 2,
        0 <= l <= LINES_PER_FIELD,
        input.wf(),
    ensures
        ({
            let done = encoder::lines_sent(ev, f, l, input, pcm_lines, prev_not_trans);
            &&& ev.bits.is_prefix_of(done.bits)
            &&& l < LINES_PER_FIELD ==> (ev.bits + encoder::start_code(
                ev,
                f,
                l,
                encoder::subsamples(ev, encoder::sends_pcm(ev, f, l, pcm_lines[l])),
            )).is_prefix_of(done.bits)
        }),
    decreases LINES_PER_FIELD - l,
{
    if l < LINES_PER_FIELD {
        let pcm = encoder::sends_pcm(ev, f, l, pcm_lines[l]);
        let next = encoder::line_sent(ev, f, l, input, pcm, prev_not_trans);
        let code = encoder::line_code(ev, f, l, input, pcm, prev_not_trans);
        let header = encoder::start_code(ev, f, l, encoder::subsamples(ev, pcm));
        let done = encoder::lines_sent(ev, f, l, input, pcm_lines, prev_not_trans);
        encoder::lemma_line_sent(ev, f, l, input, pcm, prev_not_trans);
        lemma_lines_extend(next, f, l + 1, input, pcm_lines, code.not_trans);
        assert(next.bits.is_prefix_of(done.bits));
        assert((ev.bits + header) + code.bits == next.bits);
        lemma_stands_in_prefix(done.bits, next.bits, ev.bits + header, code.bits);
        lemma_stands_in_prefix(done.bits, next.bits, ev.bits, header);
    }
}

/// The lines that the encoder sent are decoded to the same lines.
proof fn lemma_lines_step(
    stream: Seq<bool>,
    dv: DecView,
    ev: EncView,
    f: int,
    l: int,
    input: InputView,
    pcm_lines: Seq<bool>,
    s_first: bool,
)
    requires
        ev.wf(),
        in_step(dv, ev),
        0 <= f < 2,
        1 <= l <= LINES_PER_FIELD,
        input.wf(),
        ({
            let done = encoder::lines_sent(ev, f, l, input, pcm_lines, dv.prev_not_trans);
            &&& done.bits.is_prefix_of(stream)
            &&& decoder::sync_at(stream, done.bits.len())
        }),
    ensures
        ({
            let done = encoder::lines_sent(ev, f, l, input, pcm_lines, dv.prev_not_trans);
            let (end, dv1) = decoder::lines_at(stream, dv, f, l, s_first);
            &&& end is Done
            &&& in_step(dv1, done)
            &&& dv1.last_fst == dv.last_fst
            &&& dv1.synced == dv.synced
        }),
    decreases LINES_PER_FIELD - l,
{
    if l < LINES_PER_FIELD {
        let pcm = encoder::sends_pcm(ev, f, l, pcm_lines[l]);
        let sub = encoder::subsamples(ev, pcm);
        let next = encoder::line_sent(ev, f, l, input, pcm, dv.prev_not_trans);
        let code = encoder::line_code(ev, f, l, input, pcm, dv.prev_not_trans);
        let done = encoder::lines_sent(ev, f, l, input, pcm_lines, dv.prev_not_trans);
        encoder::lemma_line_sent(ev, f, l, input, pcm, dv.prev_not_trans);
        encoder::lemma_start_code(ev, f, l, sub);
        lemma_next_line_syncs(stream, ev, f, l, input, pcm_lines, dv.prev_not_trans);
        let dv0 = DecView { pos: dv.pos + 20, ..dv };
        if l + 1 < LINES_PER_FIELD {
            lemma_next_line_syncs(stream, next, f, l + 1, input, pcm_lines, code.not_trans);
        } else {
            assert(done == next);
        }
        lemma_line_step(stream, dv0, ev, f, l, input, pcm);
        let dv1 = decoder::line_at(stream, dv0, f, l, sub).1;
        lemma_lines_step(stream, dv1, next, f, l + 1, input, pcm_lines, s_first);
    }
}

/// Behind a line that is not the last of its field stands the start code of the
/// next line.
proof fn lemma_next_line_syncs(
    stream: Seq<bool>,
    ev: EncView,
    f: int,
    l: int,
    input: InputView,
    pcm_lines: Seq<bool>,
    prev_not_trans: Seq<bool>,
)
    requires
        ev.wf(),
        0 <= f < 2,
        1 <= l < LINES_PER_FIELD,
        input.wf(),
        encoder::lines_sent(ev, f, l, input, pcm_lines, prev_not_trans).bits.is_prefix_of(stream),
    ensures
        decoder::sync_at(stream, ev.bits.len()),
        ev.bits.is_prefix_of(stream),
        decoder::lst_at(stream, ev.bits.len()) == (
            LstSpec::Lst {
                aaa: 0,
                s: encoder::subsamples(ev, encoder::sends_pcm(ev, f, l, pcm_lines[l])),
                line_code: (codec::line_number(f, l) % 8) as nat,
            },
            ev.bits.len() + 20,
        ),
{
    let done = encoder::lines_sent(ev, f, l, input, pcm_lines, prev_not_trans);
    let sub = encoder::subsamples(ev, encoder::sends_pcm(ev, f, l, pcm_lines[l]));
    let number = codec::line_number(f, l);
    lemma_lines_extend(ev, f, l, input, pcm_lines, prev_not_trans);
    lemma_lst_bits(sub, number);
    lemma_stands_in_prefix(stream, done.bits, ev.bits, encoder::start_code(ev, f, l, sub));
    lemma_lst_decoded(stream, ev.bits.len(), 0, sub, (number % 8) as nat);
}

/// The lines of a field that the encoder sent are decoded to the same lines,
/// behind the field start code.
proof fn lemma_field_lines_step(
    stream: Seq<bool>,
    start: DecView,
    opened: EncView,
    f: int,
    input: InputView,
    plan: Seq<bool>,
)
    requires
        opened.wf_but(2),
        start.wf(),
        start.fields == opened.fields,
        tallies_agree(start.stats, opened.stats),
        start.prev_not_trans == dpcm::none_omitted(),
        start.pos == opened.bits.len() + 48,
        0 <= f < 2,
        input.wf(),
        ({
            let done = encoder::lines_sent(opened, f, 0, input, plan, dpcm::none_omitted());
            &&& done.bits.is_prefix_of(stream)
            &&& decoder::sync_at(stream, done.bits.len())
        }),
    ensures
        ({
            let done = encoder::lines_sent(opened, f, 0, input, plan, dpcm::none_omitted());
            let (end, last) = decoder::lines_at(
                stream,
                start,
                f,
                0,
                encoder::subsamples(opened, encoder::sends_pcm(opened, f, 0, plan[0])),
            );
            &&& end is Done
            &&& in_step(last, done)
            &&& last.last_fst == start.last_fst
            &&& last.synced == start.synced
        }),
{
    let none = dpcm::none_omitted();
    let pcm = encoder::sends_pcm(opened, f, 0, plan[0]);
    let sub = encoder::subsamples(opened, pcm);
    let next = encoder::line_sent(opened, f, 0, input, pcm, none);
    let code = encoder::line_code(opened, f, 0, input, pcm, none);
    encoder::lemma_line_sent(opened, f, 0, input, pcm, none);
    encoder::lemma_start_code(opened, f, 0, sub);
    lemma_next_line_syncs(stream, next, f, 1, input, plan, code.not_trans);
    lemma_line_step(stream, start, opened, f, 0, input, pcm);
    let first = decoder::line_at(stream, start, f, 0, sub).1;
    lemma_lines_step(stream, first, next, f, 1, input, plan, sub);
}

/// A field that the encoder sent is decoded to the same field. Returns the
/// decoder behind the field, before what it reveals is interpolated.
proof fn lemma_field_step(
    stream: Seq<bool>,
    dv: DecView,
    ev: EncView,
    f: int,
    input: InputView,
) -> (dv2: DecView)
    requires
        ev.wf_but(1),
        in_step(dv, ev),
        0 <= f < 2,
        input.wf(),
        ({
            let done = encoder::field_sent(ev, f, input);
            &&& done.bits.is_prefix_of(stream)
            &&& decoder::sync_at(stream, done.bits.len())
        }),
    ensures
        decoder::looks_like_fst_at(stream, dv.pos),
        dv.pos + 48 <= stream.len(),
        in_step(dv2, encoder::field_sent(ev, f, input)),
        dv2.last_fst == Some(f),
        dv2.synced == dv.synced,
        decoder::one_field(stream, dv) == decoder::field_done(
            dv2,
            f,
            dv.last_fst == Some(f),
            dv.fields[f],
        ),
{
    let opened = encoder::field_opened(ev, f);
    let plan = encoder::scheduled(ev, f).0;
    let none = dpcm::none_omitted();
    let sub = encoder::subsamples(opened, encoder::sends_pcm(opened, f, 0, plan[0]));
    let a = opened.occupancy < encoder::A_BIT_BELOW;
    reveal(encoder::field_sent);
    reveal(decoder::field_at);
    encoder::lemma_field_opened(ev, f);
    lemma_lines_extend(opened, f, 0, input, plan, none);
    lemma_stands_in_prefix(
        stream,
        encoder::field_sent(ev, f, input).bits,
        opened.bits,
        encoder::start_code(opened, f, 0, sub),
    );
    lemma_fst_decoded(stream, dv.pos, f, a, sub);
    let dv1 = DecView {
        pos: dv.pos + 48,
        last_fst: Some(f),
        stats: DecCounts {
            a_flag_fields: dv.stats.a_flag_fields + if a {
                1nat
            } else {
                0nat
            },
            ..dv.stats
        },
        ..dv
    };
    let start = DecView {
        fields: dv1.fields.update(f, dv1.fields[f].at_rest()),
        prev_not_trans: none,
        ..dv1
    };
    assert(start.fields == opened.fields);
    assert(start.wf());
    lemma_field_lines_step(stream, start, opened, f, input, plan);
    let last = decoder::lines_at(stream, start, f, 0, sub).1;
    assert(decoder::field_at(stream, dv1, f, sub) == (LineEnd::Done, last));
    DecView { stats: DecCounts { total_bits: last.pos, ..last.stats }, ..last }
}

/// The encoder after the given frames.
pub open spec fn encoded(bitrate: nat, mono: bool, frames: Seq<FrameView>) -> EncView
    decreases frames.len(),
{
    if frames.len() == 0 {
        encoder::fresh_encoder(bitrate, mono)
    } else {
        encoder::frame_sent(encoded(bitrate, mono, frames.drop_last()), frames.last())
    }
}

/// The decoder after `n` frames of the stream.
pub open spec fn decoded(stream: Seq<bool>, n: nat) -> DecView
    decreases n,
{
    if n == 0 {
        decoder::fresh_decoder()
    } else {
        decoder::frame_at(stream, decoded(stream, (n - 1) as nat)).1
    }
}

/// What the decoder owes for frame `k`: the fields that the encoder
/// reconstructed. Where field 2 of the frame was omitted, it is the field that
/// the encoder interpolates once field 1 of the next frame is coded; without a
/// next frame, the frame does not come out.
pub open spec fn owed(bitrate: nat, mono: bool, frames: Seq<FrameView>, k: int) -> FrameOut {
    if k < 0 || k >= frames.len() {
        FrameOut::End
    } else {
        let at = encoded(bitrate, mono, frames.take(k + 1));
        if at.saved_b1 is None {
            FrameOut::Frame(at.fields)
        } else if k + 1 < frames.len() {
            FrameOut::Frame(
                seq![
                    at.fields[0],
                    encoder::first_field_sent(at, frames[k + 1]).fields[1],
                ],
            )
        } else {
            FrameOut::End
        }
    }
}

/// Coding a frame keeps the encoder whole and only adds bits.
pub proof fn lemma_frame_sent(ev: EncView, frame: FrameView)
    requires
        ev.wf(),
    ensures
        ({
            let half = encoder::first_field_sent(ev, frame);
            let done = encoder::frame_sent(ev, frame);
            &&& half.wf()
            &&& done.wf()
            &&& half.saved_b1 is None
            &&& half.mono == ev.mono
            &&& done.mono == ev.mono
            &&& half.bitrate == ev.bitrate
            &&& done.bitrate == ev.bitrate
            &&& ev.bits.is_prefix_of(half.bits)
            &&& half.bits.is_prefix_of(done.bits)
            &&& encoder::omits_field(half) ==> done.bits == half.bits && done.fields == half.fields
                && done.saved_b1 == Some(half.fields[0])
            &&& !encoder::omits_field(half) ==> done.saved_b1 is None
        }),
{
    let counted = counted_frame(ev);
    let first = source::ingested(frame, ev.mono, 0);
    let second = source::ingested(frame, ev.mono, 1);
    source::lemma_ingested_legal(frame, ev.mono, 0);
    source::lemma_ingested_legal(frame, ev.mono, 1);
    encoder::lemma_field_sent(counted, 0, first);
    lemma_field_extends(counted, 0, first);
    let half = encoder::first_field_sent(ev, frame);
    if !encoder::omits_field(half) {
        encoder::lemma_field_sent(half, 1, second);
        lemma_field_extends(half, 1, second);
    }
}

/// The encoder with one more frame counted.
spec fn counted_frame(ev: EncView) -> EncView {
    EncView {
        stats: EncCounts { frames: ev.stats.frames + 1, ..ev.stats },
        ..ev
    }
}

/// Coding a field only adds bits.
proof fn lemma_field_extends(ev: EncView, f: int, input: InputView)
    requires
        ev.wf_but(1),
        0 <= f < 2,
        input.wf(),
    ensures
        ev.bits.is_prefix_of(encoder::field_sent(ev, f, input).bits),
{
    reveal(encoder::field_sent);
    encoder::lemma_field_opened(ev, f);
    lemma_lines_extend(
        encoder::field_opened(ev, f),
        f,
        0,
        input,
        encoder::scheduled(ev, f).0,
        dpcm::none_omitted(),
    );
}

/// The encoder after `k + 1` frames is the encoder after `k` frames with frame
/// `k` coded.
proof fn lemma_encoded_step(bitrate: nat, mono: bool, frames: Seq<FrameView>, k: int)
    requires
        0 <= k < frames.len(),
    ensures
        encoded(bitrate, mono, frames.take(k + 1)) == encoder::frame_sent(
            encoded(bitrate, mono, frames.take(k)),
            frames[k],
        ),
{
    assert(frames.take(k + 1).drop_last() =~= frames.take(k));
    assert(frames.take(k + 1).last() == frames[k]);
}

/// The encoder is whole after any frames.
pub proof fn lemma_encoded_wf(bitrate: nat, mono: bool, frames: Seq<FrameView>)
    ensures
        encoded(bitrate, mono, frames).wf(),
        encoded(bitrate, mono, frames).mono == mono,
        encoded(bitrate, mono, frames).bitrate == bitrate,
    decreases frames.len(),
{
    if frames.len() > 0 {
        lemma_encoded_wf(bitrate, mono, frames.drop_last());
        lemma_frame_sent(encoded(bitrate, mono, frames.drop_last()), frames.last());
    }
}

/// The bits of the first frames start the bits of all frames.
pub proof fn lemma_encoded_prefix(bitrate: nat, mono: bool, frames: Seq<FrameView>, k: int)
    requires
        0 <= k <= frames.len(),
    ensures
        encoded(bitrate, mono, frames.take(k)).bits.is_prefix_of(
            encoded(bitrate, mono, frames).bits,
        ),
    decreases frames.len() - k,
{
    if k == frames.len() {
        assert(frames.take(k) =~= frames);
    } else {
        lemma_encoded_prefix(bitrate, mono, frames, k + 1);
        lemma_encoded_wf(bitrate, mono, frames.take(k));
        lemma_encoded_step(bitrate, mono, frames, k);
        lemma_frame_sent(encoded(bitrate, mono, frames.take(k)), frames[k]);
    }
}

/// The stream of the encoder, padded to whole bytes.
pub open spec fn stream_of(
    bitrate: nat,
    mono: bool,
    frames: Seq<FrameView>,
    padding: nat,
) -> Seq<bool> {
    encoded(bitrate, mono, frames).bits + bits::zeros(padding)
}

/// The decoder before frame `k`.
spec fn ready(
    bitrate: nat,
    mono: bool,
    frames: Seq<FrameView>,
    padding: nat,
    dv: DecView,
    k: int,
) -> bool {
    let at = encoded(bitrate, mono, frames.take(k));
    if k >= frames.len() {
        &&& dv.pos + 48 > stream_of(bitrate, mono, frames, padding).len()
        &&& tallies_agree(dv.stats, encoded(bitrate, mono, frames).stats)
    } else if at.saved_b1 is None {
        &&& in_step(dv, at)
        &&& dv.last_fst != Some(0int)
        &&& dv.synced || dv.pos == 0
    } else {
        &&& in_step(dv, encoder::first_field_sent(at, frames[k]))
        &&& dv.last_fst == Some(0int)
        &&& dv.synced
    }
}

/// A field that the encoder sent stands in the stream, and its start code is a
/// synchronization word.
proof fn lemma_field_syncs(stream: Seq<bool>, ev: EncView, f: int, input: InputView)
    requires
        ev.wf_but(1),
        0 <= f < 2,
        input.wf(),
        encoder::field_sent(ev, f, input).bits.is_prefix_of(stream),
    ensures
        decoder::sync_at(stream, ev.bits.len()),
{
    let opened = encoder::field_opened(ev, f);
    let plan = encoder::scheduled(ev, f).0;
    let sub = encoder::subsamples(opened, encoder::sends_pcm(opened, f, 0, plan[0]));
    reveal(encoder::field_sent);
    encoder::lemma_field_opened(ev, f);
    lemma_lines_extend(opened, f, 0, input, plan, dpcm::none_omitted());
    lemma_stands_in_prefix(
        stream,
        encoder::field_sent(ev, f, input).bits,
        ev.bits,
        encoder::start_code(opened, f, 0, sub),
    );
    lemma_fst_decoded(
        stream,
        ev.bits.len(),
        f,
        opened.occupancy < encoder::A_BIT_BELOW,
        sub,
    );
}

/// Behind the bits of the first `k` frames stands a synchronization word or the
/// padding.
proof fn lemma_sync_behind(
    bitrate: nat,
    mono: bool,
    frames: Seq<FrameView>,
    padding: nat,
    k: int,
)
    requires
        0 <= k <= frames.len(),
    ensures
        decoder::sync_at(
            stream_of(bitrate, mono, frames, padding),
            encoded(bitrate, mono, frames.take(k)).bits.len(),
        ),
        encoded(bitrate, mono, frames.take(k)).bits.is_prefix_of(
            stream_of(bitrate, mono, frames, padding),
        ),
{
    let stream = stream_of(bitrate, mono, frames, padding);
    let whole = encoded(bitrate, mono, frames);
    let ev = encoded(bitrate, mono, frames.take(k));
    assert(whole.bits.is_prefix_of(stream));
    lemma_encoded_prefix(bitrate, mono, frames, k);
    if k == frames.len() {
        assert(frames.take(k) =~= frames);
    } else {
        let first = source::ingested(frames[k], ev.mono, 0);
        lemma_encoded_wf(bitrate, mono, frames.take(k));
        lemma_encoded_step(bitrate, mono, frames, k);
        lemma_encoded_prefix(bitrate, mono, frames, k + 1);
        lemma_frame_sent(ev, frames[k]);
        source::lemma_ingested_legal(frames[k], ev.mono, 0);
        assert(encoder::field_sent(counted_frame(ev), 0, first).bits
            == encoder::first_field_sent(ev, frames[k]).bits);
        lemma_field_syncs(stream, counted_frame(ev), 0, first);
    }
}

/// Field 1 of frame `k` is decoded in step.
proof fn lemma_first_field_step(
    bitrate: nat,
    mono: bool,
    frames: Seq<FrameView>,
    padding: nat,
    dv: DecView,
    k: int,
) -> (dv2: DecView)
    requires
        0 <= k < frames.len(),
        in_step(dv, encoded(bitrate, mono, frames.take(k))),
    ensures
        ({
            let stream = stream_of(bitrate, mono, frames, padding);
            let at = encoded(bitrate, mono, frames.take(k));
            let sent = encoder::field_sent(
                counted_frame(at),
                0,
                source::ingested(frames[k], at.mono, 0),
            );
            &&& decoder::looks_like_fst_at(stream, dv.pos)
            &&& dv.pos + 48 <= stream.len()
            &&& in_step(dv2, sent)
            &&& dv2.last_fst == Some(0int)
            &&& dv2.synced == dv.synced
            &&& decoder::one_field(stream, dv) == decoder::field_done(
                dv2,
                0,
                dv.last_fst == Some(0int),
                dv.fields[0],
            )
        }),
{
    let stream = stream_of(bitrate, mono, frames, padding);
    let at = encoded(bitrate, mono, frames.take(k));
    let first = source::ingested(frames[k], at.mono, 0);
    let half = encoder::first_field_sent(at, frames[k]);
    let done = encoded(bitrate, mono, frames.take(k + 1));
    lemma_encoded_wf(bitrate, mono, frames.take(k));
    lemma_encoded_step(bitrate, mono, frames, k);
    lemma_frame_sent(at, frames[k]);
    lemma_sync_behind(bitrate, mono, frames, padding, k + 1);
    source::lemma_ingested_legal(frames[k], at.mono, 0);
    assert(half.bits == encoder::field_sent(counted_frame(at), 0, first).bits);
    assert(half.bits.is_prefix_of(stream));
    if !encoder::omits_field(half) {
        source::lemma_ingested_legal(frames[k], at.mono, 1);
        lemma_field_syncs(stream, half, 1, source::ingested(frames[k], at.mono, 1));
    }
    lemma_field_step(stream, dv, counted_frame(at), 0, first)
}

/// Behind field 1 of frame `k`, if its field 2 was sent: the next field gives
/// frame `k`.
proof fn lemma_second_field_step(
    bitrate: nat,
    mono: bool,
    frames: Seq<FrameView>,
    padding: nat,
    dv: DecView,
    k: int,
)
    requires
        padding < 8,
        0 <= k < frames.len(),
        in_step(
            dv,
            encoder::first_field_sent(encoded(bitrate, mono, frames.take(k)), frames[k]),
        ),
        dv.last_fst == Some(0int),
        dv.synced,
        !encoder::omits_field(
            encoder::first_field_sent(encoded(bitrate, mono, frames.take(k)), frames[k]),
        ),
    ensures
        ({
            let stream = stream_of(bitrate, mono, frames, padding);
            let (out, dv2) = decoder::one_field(stream, dv);
            &&& out == Some(owed(bitrate, mono, frames, k))
            &&& ready(bitrate, mono, frames, padding, dv2, k + 1)
        }),
{
    let stream = stream_of(bitrate, mono, frames, padding);
    let at = encoded(bitrate, mono, frames.take(k));
    let half = encoder::first_field_sent(at, frames[k]);
    let next = encoded(bitrate, mono, frames.take(k + 1));
    lemma_encoded_wf(bitrate, mono, frames.take(k));
    lemma_encoded_step(bitrate, mono, frames, k);
    lemma_frame_sent(at, frames[k]);
    lemma_sync_behind(bitrate, mono, frames, padding, k + 1);
    if k + 1 == frames.len() {
        assert(frames.take(k + 1) =~= frames);
        assert(stream.len() == next.bits.len() + padding);
    }
    let second = source::ingested(frames[k], at.mono, 1);
    source::lemma_ingested_legal(frames[k], at.mono, 1);
    let read = lemma_field_step(stream, dv, half, 1, second);
    let dv2 = decoder::one_field(stream, dv).1;
    assert(dv2.fields == next.fields);
    assert(in_step(dv2, next));
}

/// Behind field 1 of frame `k`, if its field 2 was omitted: field 1 of the next
/// frame gives frame `k`.
proof fn lemma_omitted_field_step(
    bitrate: nat,
    mono: bool,
    frames: Seq<FrameView>,
    padding: nat,
    dv: DecView,
    k: int,
)
    requires
        padding < 8,
        0 <= k < frames.len(),
        in_step(
            dv,
            encoder::first_field_sent(encoded(bitrate, mono, frames.take(k)), frames[k]),
        ),
        dv.last_fst == Some(0int),
        dv.synced,
        k + 1 < frames.len(),
        encoder::omits_field(
            encoder::first_field_sent(encoded(bitrate, mono, frames.take(k)), frames[k]),
        ),
    ensures
        ({
            let stream = stream_of(bitrate, mono, frames, padding);
            let (out, dv2) = decoder::one_field(stream, dv);
            &&& out == Some(owed(bitrate, mono, frames, k))
            &&& ready(bitrate, mono, frames, padding, dv2, k + 1)
        }),
{
    let stream = stream_of(bitrate, mono, frames, padding);
    let at = encoded(bitrate, mono, frames.take(k));
    let half = encoder::first_field_sent(at, frames[k]);
    let next = encoded(bitrate, mono, frames.take(k + 1));
    let half1 = encoder::first_field_sent(next, frames[k + 1]);
    lemma_encoded_wf(bitrate, mono, frames.take(k));
    lemma_encoded_step(bitrate, mono, frames, k);
    lemma_frame_sent(at, frames[k]);
    assert(in_step(dv, next));
    let read = lemma_first_field_step(bitrate, mono, frames, padding, dv, k + 1);
    lemma_encoded_wf(bitrate, mono, frames.take(k + 1));
    lemma_frame_sent(next, frames[k + 1]);
    let (out, dv2) = decoder::one_field(stream, dv);
    assert(dv2.fields == half1.fields);
    assert(dv2.wf());
    assert(in_step(dv2, half1));
    assert(out == Some(FrameOut::Frame(seq![half.fields[0], half1.fields[1]])));
}

/// Behind field 1 of the last frame, if its field 2 was omitted, the stream
/// ends.
proof fn lemma_last_field_step(
    bitrate: nat,
    mono: bool,
    frames: Seq<FrameView>,
    padding: nat,
    dv: DecView,
    k: int,
)
    requires
        padding < 8,
        0 <= k < frames.len(),
        in_step(
            dv,
            encoder::first_field_sent(encoded(bitrate, mono, frames.take(k)), frames[k]),
        ),
        dv.last_fst == Some(0int),
        dv.synced,
        k + 1 == frames.len(),
        encoder::omits_field(
            encoder::first_field_sent(encoded(bitrate, mono, frames.take(k)), frames[k]),
        ),
    ensures
        ({
            let stream = stream_of(bitrate, mono, frames, padding);
            let (out, dv2) = decoder::one_field(stream, dv);
            &&& out == Some(owed(bitrate, mono, frames, k))
            &&& ready(bitrate, mono, frames, padding, dv2, k + 1)
        }),
{
    let stream = stream_of(bitrate, mono, frames, padding);
    let at = encoded(bitrate, mono, frames.take(k));
    let next = encoded(bitrate, mono, frames.take(k + 1));
    lemma_encoded_wf(bitrate, mono, frames.take(k));
    lemma_encoded_step(bitrate, mono, frames, k);
    lemma_frame_sent(at, frames[k]);
    assert(frames.take(k + 1) =~= frames);
    assert(stream.len() == next.bits.len() + padding);
    assert(dv.pos + 48 > stream.len());
}

/// Behind field 1 of frame `k`: the next call of the decoder gives frame `k`.
proof fn lemma_second_half_step(
    bitrate: nat,
    mono: bool,
    frames: Seq<FrameView>,
    padding: nat,
    dv: DecView,
    k: int,
)
    requires
        padding < 8,
        0 <= k < frames.len(),
        in_step(
            dv,
            encoder::first_field_sent(encoded(bitrate, mono, frames.take(k)), frames[k]),
        ),
        dv.last_fst == Some(0int),
        dv.synced,
    ensures
        ({
            let stream = stream_of(bitrate, mono, frames, padding);
            let (out, dv2) = decoder::one_field(stream, dv);
            &&& out == Some(owed(bitrate, mono, frames, k))
            &&& ready(bitrate, mono, frames, padding, dv2, k + 1)
        }),
{
    let half = encoder::first_field_sent(encoded(bitrate, mono, frames.take(k)), frames[k]);
    if !encoder::omits_field(half) {
        lemma_second_field_step(bitrate, mono, frames, padding, dv, k);
    } else if k + 1 < frames.len() {
        lemma_omitted_field_step(bitrate, mono, frames, padding, dv, k);
    } else {
        lemma_last_field_step(bitrate, mono, frames, padding, dv, k);
    }
}

/// One call of the decoder: it gives what is owed for frame `k`, and is ready
/// for the next frame.
proof fn lemma_frame_step(
    bitrate: nat,
    mono: bool,
    frames: Seq<FrameView>,
    padding: nat,
    dv: DecView,
    k: int,
)
    requires
        padding < 8,
        0 <= k,
        ready(bitrate, mono, frames, padding, dv, k),
    ensures
        ({
            let stream = stream_of(bitrate, mono, frames, padding);
            let (out, dv2) = decoder::frame_at(stream, dv);
            &&& out == owed(bitrate, mono, frames, k)
            &&& ready(bitrate, mono, frames, padding, dv2, k + 1)
        }),
{
    let stream = stream_of(bitrate, mono, frames, padding);
    if k < frames.len() {
        let at = encoded(bitrate, mono, frames.take(k));
        let dv0 = decoder::synchronized(stream, dv);
        if at.saved_b1 is None {
            let read0 = lemma_first_field_step(bitrate, mono, frames, padding, dv, k);
            assert(dv0.synced && dv0.pos == dv.pos);
            let read = lemma_first_field_step(bitrate, mono, frames, padding, dv0, k);
            let dv1 = decoder::one_field(stream, dv0).1;
            assert(in_step(dv1, encoder::first_field_sent(at, frames[k])));
            lemma_second_half_step(bitrate, mono, frames, padding, dv1, k);
        } else {
            lemma_second_half_step(bitrate, mono, frames, padding, dv0, k);
        }
    }
}

/// The decoder is ready for the first frame.
proof fn lemma_ready_at_start(bitrate: nat, mono: bool, frames: Seq<FrameView>, padding: nat)
    requires
        padding < 8,
    ensures
        ready(bitrate, mono, frames, padding, decoder::fresh_decoder(), 0),
{
    assert(frames.take(0) =~= Seq::<FrameView>::empty());
    let at = encoder::fresh_encoder(bitrate, mono);
    assert(encoded(bitrate, mono, frames.take(0)) == at);
    if frames.len() == 0 {
        assert(frames =~= Seq::<FrameView>::empty());
    }
    assert(codec::blank_field().wf());
    assert(in_step(decoder::fresh_decoder(), at));
}

/// The decoder is ready for every frame.
proof fn lemma_ready(bitrate: nat, mono: bool, frames: Seq<FrameView>, padding: nat, k: nat)
    requires
        padding < 8,
    ensures
        ready(
            bitrate,
            mono,
            frames,
            padding,
            decoded(stream_of(bitrate, mono, frames, padding), k),
            k as int,
        ),
    decreases k,
{
    let stream = stream_of(bitrate, mono, frames, padding);
    if k == 0 {
        lemma_ready_at_start(bitrate, mono, frames, padding);
    } else {
        let m = (k - 1) as nat;
        lemma_ready(bitrate, mono, frames, padding, m);
        lemma_frame_step(bitrate, mono, frames, padding, decoded(stream, m), m as int);
    }
}

/// The encoder and the decoder stay in perfect lockstep: of every stream of the
/// encoder, with the zeros that pad its last byte, call number `k` of the
/// decoder gives frame `k` exactly as the encoder reconstructed it, and the end
/// of the stream behind the last frame. No call fails.
pub proof fn decoder_follows_encoder(
    bitrate: nat,
    mono: bool,
    frames: Seq<FrameView>,
    padding: nat,
    k: nat,
)
    requires
        padding < 8,
    ensures
        ({
            let stream = stream_of(bitrate, mono, frames, padding);
            decoder::frame_at(stream, decoded(stream, k)).0 == owed(bitrate, mono, frames, k as int)
        }),
{
    let stream = stream_of(bitrate, mono, frames, padding);
    lemma_ready(bitrate, mono, frames, padding, k);
    lemma_frame_step(bitrate, mono, frames, padding, decoded(stream, k), k as int);
}

/// The statistics of the decoder are those of the encoder: once all frames are
/// read, it has counted the same PCM lines, empty lines, subsampled lines,
/// clusters and extra elements.
pub proof fn decoder_counts_what_was_sent(
    bitrate: nat,
    mono: bool,
    frames: Seq<FrameView>,
    padding: nat,
)
    requires
        padding < 8,
    ensures
        tallies_agree(
            decoded(stream_of(bitrate, mono, frames, padding), frames.len()).stats,
            encoded(bitrate, mono, frames).stats,
        ),
{
    lemma_ready(bitrate, mono, frames, padding, frames.len());
}

} // verus!
