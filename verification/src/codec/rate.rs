//! What governs the rate: how lines are chosen, counted and charged to the buffer.
//!
//! Occupancies are in units of 1/7150 bit: the buffer of 98_304 bits holds 702_873_600
//! of them, and a channel of `bitrate` bit/s drains `bitrate` of them for each line.

use vstd::prelude::*;
use crate::codec;
use crate::codec::bits;
use crate::codec::coding;
use crate::codec::coding::{LineStore, PlaneState};
use crate::codec::dpcm;
use crate::codec::dpcm::{Cluster, LineContext, Plane};
use crate::codec::encoder;
use crate::codec::encoder::{EncCounts, EncView};
use crate::codec::lockstep;
use crate::codec::multiplex;
use crate::codec::tables;
use crate::codec::FieldView;
use crate::source;
use crate::source::InputView;
use crate::y4m::FrameView;

verus! {

/// The buffer is more than `percent` full.
pub open spec fn fuller_than(ev: EncView, percent: int) -> bool {
    100 * ev.occupancy > percent * 702_873_600
}

/// A line adds its bits to the buffer, which then drains by the bitrate for one line, and
/// the peak is kept. Nothing else changes but the line, its marks and its counts.
pub proof fn line_is_charged(
    ev: EncView,
    f: int,
    l: int,
    input: InputView,
    pcm: bool,
    nt: Seq<bool>,
    k: int,
)
    requires
        ev.wf_but(2),
        0 <= f < 2,
        0 <= l < 143,
        input.wf(),
        0 <= k < 143,
        k != l,
    ensures
        ({
            let next = encoder::line_sent(ev, f, l, input, pcm, nt);
            let top = ev.occupancy + 7150 * (next.bits.len() - ev.bits.len());
            &&& ev.bits.is_prefix_of(next.bits)
            &&& next.occupancy == if top >= ev.bitrate {
                top - ev.bitrate
            } else {
                0
            }
            &&& next.stats.max_occupancy == if top > ev.stats.max_occupancy {
                top
            } else {
                ev.stats.max_occupancy as int
            }
            &&& next.bitrate == ev.bitrate && next.mono == ev.mono
            &&& next.saved_b1 == ev.saved_b1 && next.refresh_ptr == ev.refresh_ptr
            &&& next.fields[1 - f] == ev.fields[1 - f]
            &&& next.fields[f].y[k] == ev.fields[f].y[k]
            &&& next.fields[f].c[k] == ev.fields[f].c[k]
            &&& next.fields[f].y_moving[k] == ev.fields[f].y_moving[k]
            &&& next.fields[f].c_moving[k] == ev.fields[f].c_moving[k]
            &&& next.refreshed[1 - f] == ev.refreshed[1 - f]
            &&& next.refreshed[f][k] == ev.refreshed[f][k]
            &&& next.stats.frames == ev.stats.frames
            &&& next.stats.fields_coded == ev.stats.fields_coded
            &&& next.stats.fields_omitted == ev.stats.fields_omitted
        }),
{
    encoder::lemma_line_sent(ev, f, l, input, pcm, nt);
    let next = encoder::line_sent(ev, f, l, input, pcm, nt);
    assert(ev.bits =~= next.bits.subrange(0, ev.bits.len() as int));
    assert(ev.fields[f].wf()) by {
        assert(ev.fields[0].wf() && ev.fields[1].wf());
    }
    assert(ev.refreshed[f].len() == 143);
    assert(ev.bitrate * 1 == ev.bitrate);
}

/// A PCM line stores the input as it is, with nothing moving, takes 2480 bits behind its
/// start code, and counts as refreshed.
pub proof fn pcm_line_stores_the_input(
    ev: EncView,
    f: int,
    l: int,
    input: InputView,
    nt: Seq<bool>,
    e: int,
)
    requires
        ev.wf_but(2),
        0 <= f < 2,
        0 <= l < 143,
        input.wf(),
        0 <= e < 256,
    ensures
        ({
            let next = encoder::line_sent(ev, f, l, input, true, nt);
            let now = next.fields[f];
            &&& next.bits.len() == ev.bits.len() + 2480 + if l == 0 {
                48nat
            } else {
                20nat
            }
            &&& now.y[l] == input.y[l]
            &&& now.c[l] == input.c[l]
            &&& !now.y_moving[l][e]
            &&& e < 52 ==> !now.c_moving[l][e]
            &&& next.refreshed[f][l]
            &&& encoder::line_code(ev, f, l, input, true, nt).not_trans == multiplex::no_marks()
            &&& next.stats.pcm_lines == ev.stats.pcm_lines + 1
            &&& next.stats.empty_lines == ev.stats.empty_lines
            &&& next.stats.panic_lines == ev.stats.panic_lines
            &&& next.stats.subsampled_lines == ev.stats.subsampled_lines
            &&& next.stats.luma_clusters == ev.stats.luma_clusters
            &&& next.stats.chroma_clusters == ev.stats.chroma_clusters
            &&& next.stats.extra_elements == ev.stats.extra_elements
        }),
{
    encoder::lemma_line_sent(ev, f, l, input, true, nt);
    encoder::lemma_line_code(ev, f, l, input, true, nt);
    encoder::lemma_start_code(ev, f, l, encoder::subsamples(ev, true));
    assert(ev.fields[f].wf()) by {
        assert(ev.fields[0].wf() && ev.fields[1].wf());
    }
    assert(ev.refreshed[f].len() == 143);
    assert(dpcm::blanked(input.y[l]) =~= input.y[l]);
    assert(dpcm::none_omitted() =~= multiplex::no_marks());
}

/// Beyond 97 % of the buffer a line that is no PCM line stays empty: its start code is
/// sent, nothing changes.
pub proof fn full_buffer_freezes_the_image(
    ev: EncView,
    f: int,
    l: int,
    input: InputView,
    nt: Seq<bool>,
)
    requires
        ev.wf_but(2),
        0 <= f < 2,
        0 <= l < 143,
        input.wf(),
        fuller_than(ev, 97),
    ensures
        ({
            let next = encoder::line_sent(ev, f, l, input, false, nt);
            &&& next.bits.len() == ev.bits.len() + if l == 0 {
                48nat
            } else {
                20nat
            }
            &&& next.fields == ev.fields
            &&& next.refreshed == ev.refreshed
            &&& encoder::line_code(ev, f, l, input, false, nt).not_trans == multiplex::no_marks()
            &&& next.stats.panic_lines == ev.stats.panic_lines + 1
            &&& next.stats.empty_lines == ev.stats.empty_lines + 1
            &&& next.stats.subsampled_lines == ev.stats.subsampled_lines
            &&& next.stats.pcm_lines == ev.stats.pcm_lines
            &&& next.stats.luma_clusters == ev.stats.luma_clusters
            &&& next.stats.chroma_clusters == ev.stats.chroma_clusters
        }),
{
    let sub = encoder::subsamples(ev, false);
    let header = encoder::start_code(ev, f, l, sub);
    encoder::lemma_start_code(ev, f, l, sub);
    encoder::lemma_with_empty_line(ev.sent(header), f, l);
    assert(ev.sent(header).line(f, l) == ev.line(f, l));
    assert(dpcm::none_omitted() =~= multiplex::no_marks());
}

/// A line of clusters counts as empty if it sends nothing behind its start code, and as
/// subsampled if it sends something and the buffer is more than 55 % full.
pub proof fn lines_are_counted(ev: EncView, f: int, l: int, input: InputView, nt: Seq<bool>)
    requires
        ev.wf_but(2),
        0 <= f < 2,
        0 <= l < 143,
        input.wf(),
        !fuller_than(ev, 97),
    ensures
        ({
            let next = encoder::line_sent(ev, f, l, input, false, nt);
            let sent = next.bits.len() - ev.bits.len() - if l == 0 {
                48int
            } else {
                20int
            };
            &&& sent >= 0
            &&& next.refreshed == ev.refreshed
            &&& next.stats.panic_lines == ev.stats.panic_lines
            &&& next.stats.pcm_lines == ev.stats.pcm_lines
            &&& next.stats.empty_lines == ev.stats.empty_lines + if sent == 0 {
                1nat
            } else {
                0nat
            }
            &&& next.stats.subsampled_lines == ev.stats.subsampled_lines + if sent > 0
                && fuller_than(ev, 55) {
                1nat
            } else {
                0nat
            }
        }),
{
    reveal(coding::moving_line);
    let sub = encoder::subsamples(ev, false);
    let ctx = ev.context(f, l, sub, nt);
    let thr = encoder::threshold(ev.occupancy);
    let was = ev.fields[f];
    assert(was.wf()) by {
        assert(ev.fields[0].wf() && ev.fields[1].wf());
    }
    encoder::lemma_line_sent(ev, f, l, input, false, nt);
    encoder::lemma_start_code(ev, f, l, sub);
    coding::lemma_spans_codable(ctx, input.y[l], input.c[l], was.y[l], was.c[l], thr);
    let ys = coding::luma_spans(ctx, input.y[l], was.y[l], thr);
    let cs = coding::chroma_spans(ctx, input.c[l], was.c[l], thr);
    let extra_ok = encoder::below(ev.occupancy, encoder::EXTRA_OK_BELOW as nat);
    let y_ps = PlaneState {
        line: was.y[l],
        not_trans: dpcm::none_omitted(),
        moving: was.y_moving[l],
        extras: 0,
    };
    coding::lemma_clusters_code(ctx.luma(), ys, 0, y_ps, input.y[l], extra_ok, cs.len() > 0);
    bits::lemma_bits_of_len(coding::COLOR_ESCAPE as nat, 8);
}

/// A start code that stands in a stream is one.
proof fn lemma_start_code_stands(stream: Seq<bool>, p: nat, aaa: nat, s: bool, line_code: nat)
    requires
        bits::stands_at(stream, p as int, lockstep::raw_lst(aaa, s, line_code)),
        aaa < 8,
        line_code < 8,
    ensures
        multiplex::start_code_at(stream, p, aaa, s, line_code),
{
    vstd::arithmetic::power2::lemma2_to64();
    let head = bits::bits_of(1, 13);
    let a = bits::bits_of(aaa, 3);
    let c = bits::bits_of(line_code, 3);
    bits::lemma_bits_of_len(1, 13);
    bits::lemma_bits_of_len(aaa, 3);
    bits::lemma_bits_of_len(line_code, 3);
    bits::lemma_stands_split(stream, p as int, head + a + seq![s], c);
    bits::lemma_stands_split(stream, p as int, head + a, seq![s]);
    bits::lemma_stands_split(stream, p as int, head, a);
    bits::lemma_number_at(stream, p + 13, aaa, 3);
    bits::lemma_number_at(stream, p + 17, line_code, 3);
    assert(stream.subrange((p + 16) as int, (p + 17) as int)[0] == s);
    bits::lemma_bits_of_split(1, 12, 1);
    bits::lemma_bits_of_zero(12);
    assert(bits::bits_of(1, 1) =~= seq![true]) by {
        reveal_with_fuel(bits::bits_of, 2);
    }
    assert forall|i: int| p <= i < p + 12 implies !#[trigger] stream[i] by {
        assert(stream.subrange(p as int, (p + 13) as int)[i - p] == stream[i]);
        assert(head[i - p] == bits::bits_of(0, 12)[i - p]);
    }
    assert(stream.subrange(p as int, (p + 13) as int)[12] == stream[(p + 12) as int]);
    assert(head[12]);
}

/// A line behind the first starts with its start code: AAA 000, whether the line is
/// subsampled (no PCM line, the buffer more than 55 % and at most 97 % full), the three
/// low bits of its number.
pub proof fn lines_start_with_a_start_code(
    ev: EncView,
    f: int,
    l: int,
    input: InputView,
    pcm: bool,
    nt: Seq<bool>,
)
    requires
        ev.wf_but(2),
        0 <= f < 2,
        1 <= l < 143,
        input.wf(),
    ensures
        multiplex::start_code_at(
            encoder::line_sent(ev, f, l, input, pcm, nt).bits,
            ev.bits.len(),
            0,
            !pcm && fuller_than(ev, 55) && !fuller_than(ev, 97),
            (l % 8) as nat,
        ),
{
    let sub = encoder::subsamples(ev, pcm);
    let number = codec::line_number(f, l);
    let next = encoder::line_sent(ev, f, l, input, pcm, nt);
    let header = encoder::start_code(ev, f, l, sub);
    let code = encoder::line_code(ev, f, l, input, pcm, nt);
    encoder::lemma_line_sent(ev, f, l, input, pcm, nt);
    lockstep::lemma_lst_bits(sub, number);
    assert((144 + l) % 8 == l % 8);
    assert(next.bits.subrange(
        ev.bits.len() as int,
        (ev.bits.len() + header.len()) as int,
    ) =~= header);
    lemma_start_code_stands(next.bits, ev.bits.len(), 0, sub, (l % 8) as nat);
}

/// A field starts with its field start code: AAA 111 if the buffer holds less than 6 kbit
/// (6144 bits) and 000 otherwise, F (1 for field 1, 0 for field 2), line code 111; the
/// byte 0000F11F; the start code of the first line.
pub proof fn fields_start_with_a_start_code(
    ev: EncView,
    f: int,
    input: InputView,
    pcm: bool,
    nt: Seq<bool>,
)
    requires
        ev.wf_but(2),
        0 <= f < 2,
        input.wf(),
    ensures
        ({
            let bits = encoder::line_sent(ev, f, 0, input, pcm, nt).bits;
            let p = ev.bits.len();
            &&& multiplex::start_code_at(
                bits,
                p,
                if ev.occupancy < 6144 * 7150 {
                    7
                } else {
                    0
                },
                f == 0,
                7,
            )
            &&& bits::number_at(bits, p + 20, 8) == Some(
                if f == 0 {
                    0b0000_1111nat
                } else {
                    0b0000_0110nat
                },
            )
            &&& multiplex::start_code_at(
                bits,
                p + 28,
                0,
                !pcm && fuller_than(ev, 55) && !fuller_than(ev, 97),
                0,
            )
        }),
{
    let sub = encoder::subsamples(ev, pcm);
    let a = ev.occupancy < encoder::A_BIT_BELOW;
    let aaa: nat = if a {
        7
    } else {
        0
    };
    let next = encoder::line_sent(ev, f, 0, input, pcm, nt);
    let header = encoder::start_code(ev, f, 0, sub);
    let p = ev.bits.len();
    encoder::lemma_line_sent(ev, f, 0, input, pcm, nt);
    encoder::lemma_start_code(ev, f, 0, sub);
    lockstep::lemma_fst_bits(f, a, sub);
    assert(next.bits.subrange(p as int, (p + header.len()) as int) =~= header);
    let first = lockstep::raw_lst(aaa, f == 0, 7);
    let mid = bits::bits_of(lockstep::middle(f), 8);
    let second = lockstep::raw_lst(0, sub, 0);
    bits::lemma_bits_of_len(1, 13);
    bits::lemma_bits_of_len(aaa, 3);
    bits::lemma_bits_of_len(7, 3);
    bits::lemma_bits_of_len(0, 3);
    bits::lemma_bits_of_len(lockstep::middle(f), 8);
    bits::lemma_stands_split(next.bits, p as int, first + mid, second);
    bits::lemma_stands_split(next.bits, p as int, first, mid);
    lemma_start_code_stands(next.bits, p, aaa, f == 0, 7);
    vstd::arithmetic::power2::lemma2_to64();
    bits::lemma_number_at(next.bits, p + 20, lockstep::middle(f), 8);
    lemma_start_code_stands(next.bits, p + 28, 0, sub, 0);
}

/// The lines of a field are sent from the first to the last, each behind the omitted
/// elements of the line above it. A scheduled line is sent as a PCM line unless the
/// buffer is more than 97 % full or has no room: for the line itself (2500 bits, 2528 on
/// the first), and on a channel of less than 143_000 bit/s for the start codes that no
/// line behind it can do without.
pub proof fn lines_are_sent_in_order(
    ev: EncView,
    f: int,
    l: int,
    input: InputView,
    plan: Seq<bool>,
    nt: Seq<bool>,
)
    requires
        0 <= f < 2,
        0 <= l < 143,
    ensures
        ({
            let short = if ev.bitrate < 143_000 {
                143_000 - ev.bitrate
            } else {
                0int
            };
            let behind = if short == 0 {
                0
            } else if f == 0 {
                short * (142 - l)
            } else {
                short * (285 - l) + 200_200
            };
            let growth = if l == 0 {
                18_075_200int
            } else {
                17_875_000int
            };
            let pcm = plan[l] && !fuller_than(ev, 97) && ev.occupancy + growth + behind
                <= 702_873_600;
            &&& encoder::lines_sent(ev, f, l, input, plan, nt) == encoder::lines_sent(
                encoder::line_sent(ev, f, l, input, pcm, nt),
                f,
                l + 1,
                input,
                plan,
                encoder::line_code(ev, f, l, input, pcm, nt).not_trans,
            )
            &&& encoder::lines_sent(ev, f, 143, input, plan, nt) == ev
        }),
{
}

/// A field is coded with nothing moving before it and nothing omitted above its first
/// line, with the PCM lines that are scheduled for it.
pub proof fn field_is_sent(ev: EncView, f: int, input: InputView)
    requires
        ev.wf_but(1),
        0 <= f < 2,
    ensures
        encoder::field_sent(ev, f, input) == encoder::lines_sent(
            EncView {
                fields: ev.fields.update(
                    f,
                    FieldView {
                        y: ev.fields[f].y,
                        c: ev.fields[f].c,
                        y_moving: Seq::new(143, |l: int| Seq::new(256, |e: int| false)),
                        c_moving: Seq::new(143, |l: int| Seq::new(52, |e: int| false)),
                    },
                ),
                refresh_ptr: ev.refresh_ptr.update(f, encoder::scheduled(ev, f).1),
                stats: EncCounts { fields_coded: ev.stats.fields_coded + 1, ..ev.stats },
                ..ev
            },
            f,
            0,
            input,
            encoder::scheduled(ev, f).0,
            multiplex::no_marks(),
        ),
{
    reveal(encoder::field_sent);
    assert(dpcm::none_omitted() =~= multiplex::no_marks());
    let rest = ev.fields[f].at_rest();
    assert(rest.y_moving =~= Seq::new(143, |l: int| Seq::new(256, |e: int| false)));
    assert(rest.c_moving =~= Seq::new(143, |l: int| Seq::new(52, |e: int| false)));
}

/// A frame is coded field by field: field 1 from the even rows of the picture; then the
/// field 2 before it, if it was omitted, is interpolated between the two fields 1 about
/// it; then field 2 from the odd rows, unless the buffer is more than 72 % full: it is
/// then omitted, nothing is sent for it, and the buffer drains for its 143 lines.
pub proof fn frame_is_sent(ev: EncView, frame: FrameView)
    requires
        ev.wf(),
    ensures
        ({
            let sent = encoder::field_sent(
                EncView {
                    stats: EncCounts { frames: ev.stats.frames + 1, ..ev.stats },
                    ..ev
                },
                0,
                source::ingested(frame, ev.mono, 0),
            );
            let half = EncView {
                fields: seq![
                    sent.fields[0],
                    if ev.saved_b1 is None {
                        ev.fields[1]
                    } else {
                        codec::interpolated(
                            ev.fields[1],
                            1,
                            ev.saved_b1->Some_0,
                            sent.fields[0],
                        )
                    },
                ],
                saved_b1: None,
                ..sent
            };
            let done = encoder::frame_sent(ev, frame);
            &&& !fuller_than(half, 72) ==> done == encoder::field_sent(
                half,
                1,
                source::ingested(frame, ev.mono, 1),
            )
            &&& fuller_than(half, 72) ==> done == (EncView {
                saved_b1: Some(half.fields[0]),
                occupancy: if half.occupancy >= 143 * ev.bitrate {
                    (half.occupancy - 143 * ev.bitrate) as nat
                } else {
                    0
                },
                stats: EncCounts {
                    fields_omitted: half.stats.fields_omitted + 1,
                    ..half.stats
                },
                ..half
            })
        }),
{
    let counted = EncView {
        stats: EncCounts { frames: ev.stats.frames + 1, ..ev.stats },
        ..ev
    };
    let first = source::ingested(frame, ev.mono, 0);
    source::lemma_ingested_legal(frame, ev.mono, 0);
    encoder::lemma_field_sent(counted, 0, first);
    let sent = encoder::field_sent(counted, 0, first);
    let half = encoder::first_field_sent(ev, frame);
    assert(half.fields =~= seq![sent.fields[0], half.fields[1]]);
    assert(half.bitrate * 143 == 143 * ev.bitrate) by (nonlinear_arith)
        requires
            half.bitrate == ev.bitrate,
    ;
    match ev.saved_b1 {
        Some(b1) => {},
        None => {},
    }
}

/// Before anything is coded, both fields are at blanking level (128) with nothing moving,
/// the buffer is empty, no line was refreshed, and nothing is counted.
pub proof fn coding_starts_from_blanking(bitrate: nat, mono: bool, l: int, e: int, k: int)
    requires
        0 <= l < 143,
        0 <= e < 256,
        0 <= k < 52,
    ensures
        ({
            let ev = encoder::fresh_encoder(bitrate, mono);
            &&& ev.bitrate == bitrate && ev.mono == mono
            &&& ev.bits.len() == 0 && ev.occupancy == 0
            &&& ev.saved_b1 is None
            &&& ev.fields.len() == 2 && ev.refreshed.len() == 2 && ev.refresh_ptr.len() == 2
            &&& forall|f: int|
                0 <= f < 2 ==> {
                    &&& (#[trigger] ev.fields[f]).y[l][e] == 128
                    &&& ev.fields[f].c[l][k] == 128
                    &&& !ev.fields[f].y_moving[l][e]
                    &&& !ev.fields[f].c_moving[l][k]
                    &&& !ev.refreshed[f][l]
                    &&& ev.refresh_ptr[f] == 0
                }
            &&& ev.stats.frames == 0 && ev.stats.fields_coded == 0 && ev.stats.fields_omitted == 0
            &&& ev.stats.pcm_lines == 0 && ev.stats.empty_lines == 0 && ev.stats.panic_lines == 0
            &&& ev.stats.subsampled_lines == 0 && ev.stats.luma_clusters == 0
            &&& ev.stats.chroma_clusters == 0 && ev.stats.extra_elements == 0
            &&& ev.stats.max_occupancy == 0
        }),
{
}

/// The bits of the clusters of a plane, one after the other: 8 bits of the first sample,
/// 8 bits of the address (which counts from 4 in chrominance), the codes, and 1001 if
/// another cluster of the line or color data follows. Behind the last cluster of a line
/// nothing stands.
pub proof fn clusters_are_written(
    plane: Plane,
    spans: Seq<(int, int)>,
    i: int,
    ps: PlaneState,
    input: Seq<u8>,
    extra_ok: bool,
    more: bool,
)
    requires
        0 <= i < spans.len(),
        plane.luma ==> ps.not_trans.len() == 256,
    ensures
        ({
            let (s, e) = spans[i];
            let (got, done) = coding::clusters_code(plane, spans, i, ps, input, extra_ok, more);
            let (codes, st) = coding::codes(
                plane,
                Cluster {
                    line: ps.line.update(s, input[s]),
                    not_trans: if plane.luma {
                        ps.not_trans
                    } else {
                        multiplex::no_marks()
                    },
                    q: s,
                    last: s,
                    extras: 0,
                },
                input,
                e,
                extra_ok,
            );
            let head = bits::bits_of(input[s] as nat, 8) + bits::bits_of(
                if plane.luma {
                    s as nat
                } else {
                    (s + 4) as nat
                },
                8,
            ) + codes;
            let next = PlaneState {
                line: st.line,
                not_trans: if plane.luma {
                    st.not_trans
                } else {
                    ps.not_trans
                },
                moving: Seq::new(ps.moving.len(), |x: int| s <= x <= e || ps.moving[x]),
                extras: ps.extras + st.extras,
            };
            let (rest, last) = coding::clusters_code(
                plane,
                spans,
                i + 1,
                next,
                input,
                extra_ok,
                more,
            );
            &&& i + 1 < spans.len() || more ==> got == head + seq![true, false, false, true] + rest
            &&& i + 1 == spans.len() && !more ==> got == head
            &&& done == last
        }),
{
    assert(tables::eoc_bits() =~= seq![true, false, false, true]);
    assert(dpcm::none_omitted() =~= multiplex::no_marks());
    let (s, e) = spans[i];
    assert(dpcm::marked(ps.moving, s, e) =~= Seq::new(
        ps.moving.len(),
        |x: int| s <= x <= e || ps.moving[x],
    ));
    let (head, ps1) = coding::cluster_code(plane, ps, input, spans[i], extra_ok);
    let sep = coding::separator(spans, i, more);
    let rest = coding::clusters_code(plane, spans, i + 1, ps1, input, extra_ok, more).0;
    assert(coding::clusters_code(plane, spans, i, ps, input, extra_ok, more).0 == head + sep + rest);
    if i + 1 == spans.len() && !more {
        assert(rest =~= Seq::<bool>::empty());
        assert(head + sep + rest =~= head);
    }
}

/// The bits of a line of clusters: those of its luminance clusters, and, where there are
/// chrominance clusters, the byte 0000 1001 and theirs.
pub proof fn color_follows_an_escape(
    ctx: LineContext,
    store: LineStore,
    y_in: Seq<u8>,
    c_in: Seq<u8>,
    y_spans: Seq<(int, int)>,
    c_spans: Seq<(int, int)>,
    extra_ok: bool,
)
    ensures
        ({
            let got = coding::clusters_line(ctx, store, y_in, c_in, y_spans, c_spans, extra_ok).bits;
            let y_bits = coding::clusters_code(
                ctx.luma(),
                y_spans,
                0,
                PlaneState {
                    line: store.y,
                    not_trans: multiplex::no_marks(),
                    moving: store.y_moving,
                    extras: 0,
                },
                y_in,
                extra_ok,
                c_spans.len() > 0,
            ).0;
            let c_bits = coding::clusters_code(
                ctx.chroma(),
                c_spans,
                0,
                PlaneState {
                    line: store.c,
                    not_trans: multiplex::no_marks(),
                    moving: store.c_moving,
                    extras: 0,
                },
                c_in,
                extra_ok,
                false,
            ).0;
            &&& c_spans.len() == 0 ==> got == y_bits
            &&& c_spans.len() > 0 ==> got == y_bits + (seq![
                false,
                false,
                false,
                false,
                true,
                false,
                false,
                true,
            ] + c_bits)
        }),
{
    assert(dpcm::none_omitted() =~= multiplex::no_marks());
    assert(bits::bits_of(9, 8) =~= seq![false, false, false, false, true, false, false, true]) by {
        reveal_with_fuel(bits::bits_of, 9);
    }
    if c_spans.len() == 0 {
        let y_bits = coding::clusters_code(
            ctx.luma(),
            y_spans,
            0,
            PlaneState {
                line: store.y,
                not_trans: dpcm::none_omitted(),
                moving: store.y_moving,
                extras: 0,
            },
            y_in,
            extra_ok,
            false,
        ).0;
        assert(y_bits + Seq::<bool>::empty() =~= y_bits);
    }
}

} // verus!
