//! How a line is coded: the bits of its start code, of its clusters or of its
//! PCM samples, and the line that the closed loop reconstructs from them.

use vstd::prelude::*;
use crate::codec;
use crate::codec::bits;
use crate::codec::clusters;
use crate::codec::dpcm;
use crate::codec::dpcm::{Cluster, LineContext, Plane};
use crate::codec::tables;
use crate::codec::{CHROMA_ADDR_BASE, CHROMA_WIDTH, WIDTH};

verus! {

/// Interpolation error from which on an "extra" element is transmitted on
/// subsampled lines (§1.4.1.4.1).
pub const EXTRA_THRESHOLD: i16 = 12;

/// The color escape: an invalid PCM value (§1.5.4).
pub const COLOR_ESCAPE: u32 = 0b0000_1001;

/// The next normal element of a cluster, coded: its bits, and the cluster with
/// the element that the decoder will reconstruct.
pub open spec fn coded_normal(plane: Plane, st: Cluster, sample: u8) -> (Seq<bool>, Cluster) {
    let (level, run, negative) = tables::quantized(
        sample - dpcm::normal_prediction(plane, st),
        plane.subsampled,
        false,
    );
    (
        tables::code_bits(run, negative),
        match dpcm::normal_step(plane, st, level) {
            Some(next) => next,
            None => st,
        },
    )
}

/// The extra element behind the last normal one, coded.
pub open spec fn coded_extra(plane: Plane, st: Cluster, sample: u8) -> (Seq<bool>, Cluster) {
    let (level, run, negative) = tables::quantized(
        sample - dpcm::extra_prediction(plane, st),
        plane.subsampled,
        true,
    );
    (
        tables::code_bits(run, negative),
        match dpcm::extra_step(plane, st, level) {
            Some(next) => next,
            None => st,
        },
    )
}

/// The interpolation of the skipped element would be too far off.
pub open spec fn needs_extra(st: Cluster, input: Seq<u8>) -> bool {
    let estimate = (st.line[st.q] + input[st.q + 2]) / 2;
    input[st.q + 1] - estimate >= EXTRA_THRESHOLD || estimate - input[st.q + 1] >= EXTRA_THRESHOLD
}

/// An extra element is sent before the next normal one.
pub open spec fn sends_extra(plane: Plane, st: Cluster, input: Seq<u8>, extra_ok: bool) -> bool {
    dpcm::skips(plane, st) && extra_ok && needs_extra(st, input)
}

/// The codes of a cluster up to element `end`: element by element, each coded
/// against the reconstruction of those before it.
pub open spec fn codes(plane: Plane, st: Cluster, input: Seq<u8>, end: int, extra_ok: bool) -> (
    Seq<bool>,
    Cluster,
)
    decreases end - st.q,
{
    let t = dpcm::target(plane, st);
    if t > end || t > plane.last_element() {
        (Seq::empty(), st)
    } else {
        let (extra_bits, st1) = if sends_extra(plane, st, input, extra_ok) {
            coded_extra(plane, st, input[st.q + 1])
        } else {
            (Seq::empty(), st)
        };
        let (normal_bits, st2) = coded_normal(plane, st1, input[t]);
        let (rest, done) = codes(plane, st2, input, end, extra_ok);
        (extra_bits + normal_bits + rest, done)
    }
}

/// A plane of a line that is being coded.
#[verifier::ext_equal]
pub struct PlaneState {
    pub line: Seq<u8>,
    pub not_trans: Seq<bool>,
    pub moving: Seq<bool>,
    pub extras: nat,
}

/// A cluster before its codes: its first element is sent as it is.
pub open spec fn cluster_start(plane: Plane, ps: PlaneState, input: Seq<u8>, s: int) -> Cluster {
    dpcm::opened(
        ps.line,
        if plane.luma {
            ps.not_trans
        } else {
            dpcm::none_omitted()
        },
        s,
        input[s],
    )
}

/// The address of element `s`.
pub open spec fn address(plane: Plane, s: int) -> nat {
    if plane.luma {
        s as nat
    } else {
        (s + CHROMA_ADDR_BASE) as nat
    }
}

/// A cluster: PCM value, address, codes.
pub open spec fn cluster_code(
    plane: Plane,
    ps: PlaneState,
    input: Seq<u8>,
    span: (int, int),
    extra_ok: bool,
) -> (Seq<bool>, PlaneState) {
    let (codes_bits, st) = codes(
        plane,
        cluster_start(plane, ps, input, span.0),
        input,
        span.1,
        extra_ok,
    );
    (
        bits::bits_of(input[span.0] as nat, 8) + bits::bits_of(address(plane, span.0), 8)
            + codes_bits,
        PlaneState {
            line: st.line,
            not_trans: if plane.luma {
                st.not_trans
            } else {
                ps.not_trans
            },
            moving: dpcm::marked(ps.moving, span.0, span.1),
            extras: ps.extras + st.extras,
        },
    )
}

/// The end-of-cluster code behind cluster `i`; it is left out behind the last
/// cluster of the line.
pub open spec fn separator(spans: Seq<(int, int)>, i: int, more: bool) -> Seq<bool> {
    if i + 1 < spans.len() || more {
        tables::eoc_bits()
    } else {
        Seq::empty()
    }
}

/// The clusters of a plane from number `i` on. `more` says that color data
/// follows.
pub open spec fn clusters_code(
    plane: Plane,
    spans: Seq<(int, int)>,
    i: int,
    ps: PlaneState,
    input: Seq<u8>,
    extra_ok: bool,
    more: bool,
) -> (Seq<bool>, PlaneState)
    decreases spans.len() - i,
{
    if i < 0 || i >= spans.len() {
        (Seq::empty(), ps)
    } else {
        let (head, ps1) = cluster_code(plane, ps, input, spans[i], extra_ok);
        let (rest, done) = clusters_code(plane, spans, i + 1, ps1, input, extra_ok, more);
        (head + separator(spans, i, more) + rest, done)
    }
}

/// A coded line.
#[verifier::ext_equal]
pub struct LineCode {
    pub bits: Seq<bool>,
    pub y: Seq<u8>,
    pub c: Seq<u8>,
    pub y_moving: Seq<bool>,
    pub c_moving: Seq<bool>,
    pub not_trans: Seq<bool>,
    pub luma_clusters: nat,
    pub chroma_clusters: nat,
    pub extras: nat,
}

/// The luminance clusters of a line.
pub open spec fn luma_spans(ctx: LineContext, input: Seq<u8>, line: Seq<u8>, thr: int) -> Seq<
    (int, int),
> {
    let found = clusters::detected(input, line, thr, WIDTH - 2, WIDTH - 2);
    if ctx.subsampled {
        clusters::aligned(found, ctx.parity, WIDTH - 2)
    } else {
        found
    }
}

/// The chrominance clusters of a line; their threshold is two levels higher.
pub open spec fn chroma_spans(ctx: LineContext, input: Seq<u8>, line: Seq<u8>, thr: int) -> Seq<
    (int, int),
> {
    let found = clusters::detected(input, line, thr + 2, CHROMA_WIDTH - 1, CHROMA_WIDTH - 2);
    if ctx.subsampled {
        clusters::aligned(found, ctx.parity, CHROMA_WIDTH - 1)
    } else {
        found
    }
}

/// A line before it is coded.
#[verifier::ext_equal]
pub struct LineStore {
    pub y: Seq<u8>,
    pub c: Seq<u8>,
    pub y_moving: Seq<bool>,
    pub c_moving: Seq<bool>,
}

/// The clusters of a line, luminance and then, behind the color escape,
/// chrominance.
pub open spec fn clusters_line(
    ctx: LineContext,
    store: LineStore,
    y_in: Seq<u8>,
    c_in: Seq<u8>,
    y_spans: Seq<(int, int)>,
    c_spans: Seq<(int, int)>,
    extra_ok: bool,
) -> LineCode {
    let color = c_spans.len() > 0;
    let (y_bits, y_done) = clusters_code(
        ctx.luma(),
        y_spans,
        0,
        PlaneState {
            line: store.y,
            not_trans: dpcm::none_omitted(),
            moving: store.y_moving,
            extras: 0,
        },
        y_in,
        extra_ok,
        color,
    );
    let (c_bits, c_done) = clusters_code(
        ctx.chroma(),
        c_spans,
        0,
        PlaneState {
            line: store.c,
            not_trans: dpcm::none_omitted(),
            moving: store.c_moving,
            extras: 0,
        },
        c_in,
        extra_ok,
        false,
    );
    LineCode {
        bits: y_bits + if color {
            bits::bits_of(COLOR_ESCAPE as nat, 8) + c_bits
        } else {
            Seq::empty()
        },
        y: dpcm::blanked(y_done.line),
        c: c_done.line,
        y_moving: y_done.moving,
        c_moving: c_done.moving,
        not_trans: y_done.not_trans,
        luma_clusters: y_spans.len(),
        chroma_clusters: c_spans.len(),
        extras: y_done.extras + c_done.extras,
    }
}

/// A line without clusters: nothing is sent, nothing changes.
pub open spec fn empty_line(store: LineStore) -> LineCode {
    LineCode {
        bits: Seq::empty(),
        y: store.y,
        c: store.c,
        y_moving: store.y_moving,
        c_moving: store.c_moving,
        not_trans: dpcm::none_omitted(),
        luma_clusters: 0,
        chroma_clusters: 0,
        extras: 0,
    }
}

/// A line coded by conditional replenishment: the clusters of its moving
/// elements.
#[verifier::opaque]
pub open spec fn moving_line(
    ctx: LineContext,
    store: LineStore,
    y_in: Seq<u8>,
    c_in: Seq<u8>,
    thr: int,
    extra_ok: bool,
) -> LineCode {
    let y_spans = luma_spans(ctx, y_in, store.y, thr);
    let c_spans = chroma_spans(ctx, c_in, store.c, thr);
    if y_spans.len() == 0 && c_spans.len() == 0 {
        empty_line(store)
    } else {
        clusters_line(ctx, store, y_in, c_in, y_spans, c_spans, extra_ok)
    }
}

/// The bytes of a PCM line: 0xFF, invalid address 0xFF, the luminance line
/// with its last element at 128, the chrominance line (§1.5.5).
pub open spec fn pcm_bytes(y_in: Seq<u8>, c_in: Seq<u8>) -> Seq<u8> {
    seq![0xFFu8, 0xFFu8] + dpcm::blanked(y_in) + c_in
}

/// A PCM line: the samples as they are, nothing moving.
pub open spec fn pcm_line(y_in: Seq<u8>, c_in: Seq<u8>) -> LineCode {
    LineCode {
        bits: bits::bits_of_bytes(pcm_bytes(y_in, c_in)),
        y: dpcm::blanked(y_in),
        c: c_in,
        y_moving: Seq::new(WIDTH as nat, |e: int| false),
        c_moving: Seq::new(CHROMA_WIDTH as nat, |e: int| false),
        not_trans: dpcm::none_omitted(),
        luma_clusters: 0,
        chroma_clusters: 0,
        extras: 0,
    }
}

/// LST: 0000 0000 0000 1000 + S + 3 low bits of the line number (§1.5.2.1).
pub open spec fn lst_bits(s: bool, line_no: int) -> Seq<bool> {
    bits::bits_of(8, 16) + seq![s] + bits::bits_of((line_no % 8) as nat, 3)
}

/// FST: LST of line 143/287 (F in the S position, AAA in the sync word), byte
/// 0000F11F, LST of the first line of the next field (Figure 4).
pub open spec fn fst_bits(f: int, a: bool, s_first: bool) -> Seq<bool> {
    bits::bits_of(1, 13) + bits::bits_of(
        if a {
            7
        } else {
            0
        },
        3,
    ) + seq![f == 0] + bits::bits_of(7, 3) + bits::bits_of(0, 4) + seq![f == 0] + bits::bits_of(
        3,
        2,
    ) + seq![f == 0] + bits::bits_of(8, 16) + seq![s_first] + bits::bits_of(0, 3)
}

/// The clusters can be coded: they lie on the line and, on a subsampled line,
/// are of its parity.
pub open spec fn codable(plane: Plane, spans: Seq<(int, int)>) -> bool {
    &&& clusters::on_line(spans, plane.last_element(), plane.last_start())
    &&& clusters::apart(spans)
    &&& plane.subsampled ==> clusters::of_parity(spans, plane.parity)
    &&& 0 <= plane.parity < 2
}

/// The clusters found on a line can be coded.
pub proof fn lemma_spans_codable(
    ctx: LineContext,
    y_in: Seq<u8>,
    c_in: Seq<u8>,
    y: Seq<u8>,
    c: Seq<u8>,
    thr: int,
)
    requires
        0 <= ctx.parity < 2,
    ensures
        codable(ctx.luma(), luma_spans(ctx, y_in, y, thr)),
        codable(ctx.chroma(), chroma_spans(ctx, c_in, c, thr)),
{
    clusters::lemma_detected(y_in, y, thr, WIDTH - 2, WIDTH - 2);
    clusters::lemma_detected(c_in, c, thr + 2, CHROMA_WIDTH - 1, CHROMA_WIDTH - 2);
    if ctx.subsampled {
        clusters::lemma_aligned(
            clusters::detected(y_in, y, thr, WIDTH - 2, WIDTH - 2),
            ctx.parity,
            WIDTH - 2,
            WIDTH - 2,
        );
        clusters::lemma_aligned(
            clusters::detected(c_in, c, thr + 2, CHROMA_WIDTH - 1, CHROMA_WIDTH - 2),
            ctx.parity,
            CHROMA_WIDTH - 1,
            CHROMA_WIDTH - 2,
        );
    }
}

/// A cluster between two normal elements, `end` ahead of it on the line.
pub open spec fn on_course(plane: Plane, st: Cluster, end: int) -> bool {
    &&& 0 <= st.q <= end <= plane.last_element()
    &&& st.last == st.q
    &&& st.line.len() == plane.width()
    &&& st.not_trans.len() == WIDTH
    &&& 0 <= plane.parity < 2
    &&& plane.subsampled ==> st.q % 2 == plane.parity && end % 2 == plane.parity
}

/// A coded element takes at most 10 bits, and 8 bits if it is a normal element
/// of a subsampled line. Its step succeeds.
pub proof fn lemma_coded(plane: Plane, st: Cluster, sample: u8)
    ensures
        2 <= coded_normal(plane, st, sample).0.len() <= 10,
        plane.subsampled ==> coded_normal(plane, st, sample).0.len() <= 8,
        plane.subsampled ==> 2 <= coded_extra(plane, st, sample).0.len() <= 10,
{
    reveal(tables::quantized);
}

/// The codes of a cluster lead to its end, and take at most 10 bits for an
/// element (4 on a subsampled line without extra elements).
pub proof fn lemma_codes(plane: Plane, st: Cluster, input: Seq<u8>, end: int, extra_ok: bool)
    requires
        on_course(plane, st, end),
    ensures
        ({
            let (code, done) = codes(plane, st, input, end, extra_ok);
            &&& code.len() <= 10 * (end - st.q)
            &&& plane.subsampled && !extra_ok ==> code.len() <= 4 * (end - st.q)
            &&& on_course(plane, done, end)
            &&& done.q == end
            &&& st.extras <= done.extras <= st.extras + code.len()
        }),
    decreases end - st.q,
{
    let t = dpcm::target(plane, st);
    if t <= end {
        let (extra_bits, st1) = if sends_extra(plane, st, input, extra_ok) {
            coded_extra(plane, st, input[st.q + 1])
        } else {
            (Seq::empty(), st)
        };
        lemma_coded(plane, st, input[st.q + 1]);
        lemma_coded(plane, st1, input[t]);
        let (normal_bits, st2) = coded_normal(plane, st1, input[t]);
        lemma_codes(plane, st2, input, end, extra_ok);
    }
}

/// A subsampled cluster moves on by two elements at a time.
pub proof fn lemma_codes_unfold(plane: Plane, st: Cluster, input: Seq<u8>, end: int, extra_ok: bool)
    requires
        on_course(plane, st, end),
        plane.subsampled,
        st.q + 2 <= end,
    ensures
        ({
            let extra = extra_ok && needs_extra(st, input);
            let (extra_bits, st1) = if extra {
                coded_extra(plane, st, input[st.q + 1])
            } else {
                (Seq::empty(), st)
            };
            let (normal_bits, st2) = coded_normal(plane, st1, input[st.q + 2]);
            &&& codes(plane, st, input, end, extra_ok).0 == extra_bits + normal_bits + codes(
                plane,
                st2,
                input,
                end,
                extra_ok,
            ).0
            &&& codes(plane, st, input, end, extra_ok).1 == codes(
                plane,
                st2,
                input,
                end,
                extra_ok,
            ).1
            &&& extra_bits.len() <= 10
            &&& normal_bits.len() <= 10
            &&& st1.q == st.q
            &&& st1.last == if extra {
                st.q + 1
            } else {
                st.q
            }
            &&& st1.not_trans == st.not_trans
            &&& st1.extras == st2.extras
            &&& st2.extras == st.extras + if extra {
                1nat
            } else {
                0nat
            }
            &&& st2.q == st.q + 2
            &&& on_course(plane, st2, end)
        }),
{
    let extra = extra_ok && needs_extra(st, input);
    let (extra_bits, st1) = if extra {
        coded_extra(plane, st, input[st.q + 1])
    } else {
        (Seq::empty(), st)
    };
    lemma_coded(plane, st, input[st.q + 1]);
    lemma_coded(plane, st1, input[st.q + 2]);
}

/// A plane whose lines and marks have the right lengths.
pub open spec fn plane_wf(plane: Plane, ps: PlaneState) -> bool {
    &&& ps.line.len() == plane.width()
    &&& ps.moving.len() == plane.width()
    &&& ps.not_trans.len() == WIDTH
}

/// A cluster takes at most 16 bits and 10 bits for each element behind the
/// first (4 on a subsampled line without extra elements).
pub proof fn lemma_cluster_code(
    plane: Plane,
    ps: PlaneState,
    input: Seq<u8>,
    span: (int, int),
    extra_ok: bool,
)
    requires
        plane_wf(plane, ps),
        0 <= span.0 <= span.1 <= plane.last_element(),
        0 <= plane.parity < 2,
        plane.subsampled ==> span.0 % 2 == plane.parity && span.1 % 2 == plane.parity,
    ensures
        ({
            let (code, done) = cluster_code(plane, ps, input, span, extra_ok);
            let (inner, st) = codes(
                plane,
                cluster_start(plane, ps, input, span.0),
                input,
                span.1,
                extra_ok,
            );
            &&& 16 <= code.len() <= 16 + 10 * (span.1 - span.0)
            &&& plane.subsampled && !extra_ok ==> code.len() <= 16 + 4 * (span.1 - span.0)
            &&& code.len() == 16 + inner.len()
            &&& plane_wf(plane, done)
            &&& on_course(plane, cluster_start(plane, ps, input, span.0), span.1)
            &&& st.last == span.1
            &&& done.extras <= ps.extras + (code.len() - 16)
            &&& ps.extras <= done.extras
        }),
{
    lemma_codes(plane, cluster_start(plane, ps, input, span.0), input, span.1, extra_ok);
    bits::lemma_bits_of_len(input[span.0] as nat, 8);
    bits::lemma_bits_of_len(address(plane, span.0), 8);
}

/// How many bits an element of a line takes at most.
pub open spec fn rate(plane: Plane, extra_ok: bool) -> int {
    if plane.subsampled && !extra_ok {
        4
    } else {
        10
    }
}

/// The clusters from number `i` on take no more bits than the elements from
/// the start of that cluster on.
pub proof fn lemma_clusters_code(
    plane: Plane,
    spans: Seq<(int, int)>,
    i: int,
    ps: PlaneState,
    input: Seq<u8>,
    extra_ok: bool,
    more: bool,
)
    requires
        plane_wf(plane, ps),
        codable(plane, spans),
        0 <= i <= spans.len(),
    ensures
        ({
            let (code, done) = clusters_code(plane, spans, i, ps, input, extra_ok, more);
            &&& plane_wf(plane, done)
            &&& i < spans.len() ==> 16 <= code.len() <= rate(plane, extra_ok) * (
            plane.last_element() + 5 - spans[i].0)
            &&& i < spans.len() ==> code.len() >= spans.len() - i
            &&& i == spans.len() ==> code.len() == 0
            &&& ps.extras <= done.extras <= ps.extras + code.len()
        }),
    decreases spans.len() - i,
{
    if i < spans.len() {
        let span = spans[i];
        lemma_cluster_code(plane, ps, input, span, extra_ok);
        let (head, ps1) = cluster_code(plane, ps, input, span, extra_ok);
        lemma_clusters_code(plane, spans, i + 1, ps1, input, extra_ok, more);
        assert(tables::eoc_bits().len() == 4);
        if i + 1 < spans.len() {
            assert(spans[i].1 + codec::MIN_CLUSTER_GAP < spans[i + 1].0);
        }
    }
}

} // verus!
