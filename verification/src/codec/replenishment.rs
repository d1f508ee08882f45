//! What a line of clusters sends: every element that moves, coded as near as the tables
//! allow, and little else.

use vstd::prelude::*;
use crate::codec;
use crate::codec::clusters;
use crate::codec::coding;
use crate::codec::coding::PlaneState;
use crate::codec::dpcm;
use crate::codec::dpcm::{Cluster, Plane};
use crate::codec::encoder;
use crate::codec::encoder::EncView;
use crate::codec::levels;
use crate::codec::reconstruction;
use crate::codec::tables;
use crate::source::InputView;

verus! {

/// `level` is the level of the table that is nearest to `diff`.
pub open spec fn is_nearest(diff: int, level: int, subsampled: bool) -> bool {
    &&& levels::in_table(level, subsampled)
    &&& forall|other: int| #[trigger]
        levels::in_table(other, subsampled) ==> levels::as_near(diff, level, other)
}

/// `x` is element `e` coded as near to `sample` as the table allows, behind `a`: in
/// luminance predicted from `a` and the upper-right neighbour, in chrominance from `a`.
#[verifier::opaque]
pub open spec fn is_coded(plane: Plane, e: int, a: u8, sample: u8, x: u8) -> bool {
    if plane.luma {
        exists|d: u8, pred: int, level: int| #[trigger]
            reconstruction::is_luma(plane, e, a, level, d, pred, x) && is_nearest(
                sample - pred,
                level,
                plane.subsampled,
            )
    } else {
        exists|level: int| #[trigger]
            reconstruction::is_clipped(x, a + level, 17, 239) && is_nearest(
                sample - a,
                level,
                plane.subsampled,
            )
    }
}

/// The mean of the reconstructed element to the left and the input to the right of
/// element `e` is off the input by 12 levels or more.
pub open spec fn is_off(line: Seq<u8>, input: Seq<u8>, e: int) -> bool {
    let m = (line[e - 1] + input[e + 1]) / 2;
    m - input[e] >= 12 || input[e] - m >= 12
}

/// Element `e` of a subsampled line, behind element e − 2, which was sent: the element
/// in between is sent too if it is off and there is room for it, or else omitted and
/// interpolated; element `e` is coded behind the last element that was sent.
pub open spec fn is_subsampled(
    plane: Plane,
    line: Seq<u8>,
    not_trans: Seq<bool>,
    input: Seq<u8>,
    e: int,
    extra_ok: bool,
) -> bool {
    if extra_ok && is_off(line, input, e - 1) {
        &&& is_coded(plane, e - 1, line[e - 2], input[e - 1], line[e - 1])
        &&& is_coded(plane, e, line[e - 1], input[e], line[e])
        &&& plane.luma ==> !not_trans[e - 1]
    } else {
        &&& is_coded(plane, e, line[e - 2], input[e], line[e])
        &&& reconstruction::is_mean(line[e - 1] as int, line[e - 2] as int, line[e] as int)
        &&& plane.luma ==> not_trans[e - 1]
    }
}

/// The elements from `s` to `e1` of a line are coded: the first as it is, the others one
/// by one, or two by two on a subsampled line.
spec fn well_coded(
    plane: Plane,
    line: Seq<u8>,
    not_trans: Seq<bool>,
    input: Seq<u8>,
    s: int,
    e1: int,
    extra_ok: bool,
) -> bool {
    &&& line[s] == input[s]
    &&& forall|e: int|
        s < e <= e1 ==> {
            &&& !plane.subsampled ==> is_coded(plane, e, line[e - 1], input[e], #[trigger] line[e])
            &&& plane.subsampled && e % 2 == plane.parity ==> is_subsampled(
                plane,
                line,
                not_trans,
                input,
                e,
                extra_ok,
            )
        }
}

/// A normal element is coded as near as the table allows.
proof fn lemma_normal_coded(plane: Plane, st: Cluster, sample: u8)
    requires
        0 <= st.q,
        dpcm::target(plane, st) <= plane.last_element(),
        st.line.len() == plane.width(),
        plane.luma ==> plane.prev_not_trans.len() == 256,
    ensures
        ({
            let t = dpcm::target(plane, st);
            let a = if dpcm::omits(plane, st) {
                st.line[st.q]
            } else {
                st.line[t - 1]
            };
            is_coded(plane, t, a, sample, coding::coded_normal(plane, st, sample).1.line[t])
        }),
{
    reveal(is_coded);
    let t = dpcm::target(plane, st);
    let a = if dpcm::omits(plane, st) {
        st.line[st.q]
    } else {
        st.line[t - 1]
    };
    let pred = dpcm::normal_prediction(plane, st) as int;
    let (level, run, negative) = tables::quantized(sample - pred, plane.subsampled, false);
    let x = coding::coded_normal(plane, st, sample).1.line[t];
    assert(x == plane.held(pred + level));
    lemma_nearest(sample - pred, plane.subsampled, false);
    if plane.luma {
        let d = codec::upper_right(plane.prev, plane.prev_not_trans, t);
        assert(reconstruction::is_luma(plane, t, a, level, d, pred, x));
    } else {
        assert(reconstruction::is_clipped(x, a + level, 17, 239));
    }
}

/// An extra element is coded as near as the table allows.
proof fn lemma_extra_coded(plane: Plane, st: Cluster, sample: u8)
    requires
        plane.subsampled,
        0 <= st.q < plane.last_element(),
        st.last == st.q,
        st.line.len() == plane.width(),
        plane.luma ==> plane.prev_not_trans.len() == 256,
    ensures
        is_coded(
            plane,
            st.q + 1,
            st.line[st.q],
            sample,
            coding::coded_extra(plane, st, sample).1.line[st.q + 1],
        ),
{
    reveal(is_coded);
    let o = st.q + 1;
    let a = st.line[st.q];
    let pred = dpcm::extra_prediction(plane, st) as int;
    let (level, run, negative) = tables::quantized(sample - pred, true, true);
    let x = coding::coded_extra(plane, st, sample).1.line[o];
    assert(x == plane.held(pred + level));
    lemma_nearest(sample - pred, true, true);
    if plane.luma {
        let d = codec::upper_right(plane.prev, plane.prev_not_trans, o);
        assert(reconstruction::is_luma(plane, o, a, level, d, pred, x));
    } else {
        assert(reconstruction::is_clipped(x, a + level, 17, 239));
    }
}

proof fn lemma_nearest(diff: int, subsampled: bool, extra: bool)
    requires
        -255 <= diff <= 255,
    ensures
        is_nearest(diff, tables::quantized(diff, subsampled, extra).0, subsampled),
{
    let level = tables::quantized(diff, subsampled, extra).0;
    assert forall|other: int| #[trigger] levels::in_table(other, subsampled) implies levels::as_near(
        diff,
        level,
        other,
    ) by {
        levels::quantizer_picks_the_nearest_level(diff, subsampled, extra, other);
    }
    levels::quantizer_picks_the_nearest_level(
        diff,
        subsampled,
        extra,
        if subsampled {
            4
        } else {
            3
        },
    );
}

/// The codes of a cluster change only the elements behind it up to its end.
proof fn lemma_codes_elsewhere(
    plane: Plane,
    st: Cluster,
    input: Seq<u8>,
    end: int,
    extra_ok: bool,
    e: int,
)
    requires
        coding::on_course(plane, st, end),
        0 <= e < plane.width(),
        e <= st.q || e > end,
    ensures
        ({
            let done = coding::codes(plane, st, input, end, extra_ok).1;
            &&& done.line[e] == st.line[e]
            &&& done.not_trans[e] == st.not_trans[e]
        }),
    decreases end - st.q,
{
    let t = dpcm::target(plane, st);
    if t <= end {
        let extra = coding::sends_extra(plane, st, input, extra_ok);
        let st1 = if extra {
            coding::coded_extra(plane, st, input[st.q + 1]).1
        } else {
            st
        };
        let st2 = coding::coded_normal(plane, st1, input[t]).1;
        lemma_codes_elsewhere(plane, st2, input, end, extra_ok, e);
    }
}

/// One more element is coded well.
proof fn lemma_step_well(
    plane: Plane,
    st: Cluster,
    input: Seq<u8>,
    end: int,
    extra_ok: bool,
    st1: Cluster,
    st2: Cluster,
)
    requires
        coding::on_course(plane, st, end),
        plane.luma ==> plane.prev_not_trans.len() == 256,
        dpcm::target(plane, st) <= end,
        st1 == (if coding::sends_extra(plane, st, input, extra_ok) {
            coding::coded_extra(plane, st, input[st.q + 1]).1
        } else {
            st
        }),
        st2 == coding::coded_normal(plane, st1, input[dpcm::target(plane, st)]).1,
        forall|e: int| st.q < e <= end ==> !#[trigger] st.not_trans[e],
    ensures
        coding::on_course(plane, st2, end),
        st2.q == dpcm::target(plane, st),
        forall|e: int| 0 <= e <= st.q ==> #[trigger] st2.line[e] == st.line[e],
        forall|e: int| 0 <= e <= st.q ==> #[trigger] st2.not_trans[e] == st.not_trans[e],
        forall|e: int| st2.q < e <= end ==> !#[trigger] st2.not_trans[e],
        !plane.subsampled ==> is_coded(
            plane,
            st2.q,
            st2.line[st2.q - 1],
            input[st2.q],
            st2.line[st2.q],
        ),
        plane.subsampled ==> is_subsampled(
            plane,
            st2.line,
            st2.not_trans,
            input,
            st2.q,
            extra_ok,
        ),
{
    let t = dpcm::target(plane, st);
    let extra = coding::sends_extra(plane, st, input, extra_ok);
    if extra {
        lemma_extra_coded(plane, st, input[st.q + 1]);
    }
    lemma_normal_coded(plane, st1, input[t]);
    if plane.subsampled {
        assert(t == st.q + 2);
        assert(!st.not_trans[st.q + 1]);
        assert(st2.line[st.q] == st.line[st.q]);
        assert(coding::needs_extra(st, input) == is_off(st2.line, input, t - 1));
    }
}

/// The codes of a cluster code its elements well, from element `s` on, where the
/// elements up to the last one coded are coded well.
proof fn lemma_codes_well(
    plane: Plane,
    st: Cluster,
    input: Seq<u8>,
    end: int,
    extra_ok: bool,
    s: int,
)
    requires
        coding::on_course(plane, st, end),
        0 <= s <= st.q,
        plane.luma ==> plane.prev_not_trans.len() == 256,
        well_coded(plane, st.line, st.not_trans, input, s, st.q, extra_ok),
        plane.subsampled ==> s % 2 == plane.parity,
        forall|e: int| st.q < e <= end ==> !#[trigger] st.not_trans[e],
    ensures
        ({
            let done = coding::codes(plane, st, input, end, extra_ok).1;
            well_coded(plane, done.line, done.not_trans, input, s, end, extra_ok)
        }),
    decreases end - st.q,
{
    let t = dpcm::target(plane, st);
    if t <= end {
        let st1 = if coding::sends_extra(plane, st, input, extra_ok) {
            coding::coded_extra(plane, st, input[st.q + 1]).1
        } else {
            st
        };
        let st2 = coding::coded_normal(plane, st1, input[t]).1;
        lemma_step_well(plane, st, input, end, extra_ok, st1, st2);
        lemma_more_well(plane, st, st2, input, extra_ok, s);
        lemma_codes_well(plane, st2, input, end, extra_ok, s);
        assert(coding::codes(plane, st, input, end, extra_ok).1 == coding::codes(
            plane,
            st2,
            input,
            end,
            extra_ok,
        ).1);
    }
}

/// What was coded well stays so with one more element.
proof fn lemma_more_well(
    plane: Plane,
    st: Cluster,
    st2: Cluster,
    input: Seq<u8>,
    extra_ok: bool,
    s: int,
)
    requires
        0 <= s <= st.q,
        plane.subsampled ==> s % 2 == plane.parity && st.q % 2 == plane.parity,
        well_coded(plane, st.line, st.not_trans, input, s, st.q, extra_ok),
        st2.q == if plane.subsampled {
            st.q + 2
        } else {
            st.q + 1
        },
        forall|e: int| 0 <= e <= st.q ==> #[trigger] st2.line[e] == st.line[e],
        forall|e: int| 0 <= e <= st.q ==> #[trigger] st2.not_trans[e] == st.not_trans[e],
        !plane.subsampled ==> is_coded(
            plane,
            st2.q,
            st2.line[st2.q - 1],
            input[st2.q],
            st2.line[st2.q],
        ),
        plane.subsampled ==> is_subsampled(
            plane,
            st2.line,
            st2.not_trans,
            input,
            st2.q,
            extra_ok,
        ),
    ensures
        well_coded(plane, st2.line, st2.not_trans, input, s, st2.q, extra_ok),
{
    lemma_same_coding(
        plane,
        st.line,
        st.not_trans,
        st2.line,
        st2.not_trans,
        input,
        s,
        st.q,
        extra_ok,
    );
}

/// Element `e` lies in one of the clusters from number `i` on.
spec fn held_from(spans: Seq<(int, int)>, i: int, e: int) -> bool {
    exists|k: int| i <= k < spans.len() && (#[trigger] spans[k]).0 <= e <= spans[k].1
}

proof fn lemma_held_from(spans: Seq<(int, int)>, i: int, e: int)
    requires
        0 <= i < spans.len(),
    ensures
        held_from(spans, i, e) == (spans[i].0 <= e <= spans[i].1 || held_from(spans, i + 1, e)),
{
    if held_from(spans, i, e) {
        let k = choose|k: int| i <= k < spans.len() && (#[trigger] spans[k]).0 <= e <= spans[k].1;
        assert(k == i || i + 1 <= k);
    }
    if held_from(spans, i + 1, e) {
        let k = choose|k: int|
            i + 1 <= k < spans.len() && (#[trigger] spans[k]).0 <= e <= spans[k].1;
        assert(spans[k].0 <= e <= spans[k].1);
    }
}

/// The clusters from number `i` on change only their own elements, mark them, and code
/// them well.
#[verifier::spinoff_prover]
#[verifier::rlimit(60)]
proof fn lemma_clusters_well(
    plane: Plane,
    spans: Seq<(int, int)>,
    i: int,
    ps: PlaneState,
    input: Seq<u8>,
    extra_ok: bool,
    more: bool,
)
    requires
        coding::plane_wf(plane, ps),
        coding::codable(plane, spans),
        0 <= i <= spans.len(),
        plane.luma ==> plane.prev_not_trans.len() == 256,
        plane.luma && i < spans.len() ==> forall|e: int|
            spans[i].0 <= e < 256 ==> !#[trigger] ps.not_trans[e],
    ensures
        ({
            let done = coding::clusters_code(plane, spans, i, ps, input, extra_ok, more).1;
            &&& forall|e: int|
                0 <= e < plane.width() ==> #[trigger] done.moving[e] == (ps.moving[e] || held_from(
                    spans,
                    i,
                    e,
                ))
            &&& forall|e: int|
                0 <= e < plane.width() && !held_from(spans, i, e) ==> #[trigger] done.line[e]
                    == ps.line[e]
            &&& plane.luma ==> forall|e: int|
                0 <= e < 256 && !held_from(spans, i, e) ==> #[trigger] done.not_trans[e]
                    == ps.not_trans[e]
            &&& forall|k: int|
                i <= k < spans.len() ==> well_coded(
                    plane,
                    done.line,
                    done.not_trans,
                    input,
                    (#[trigger] spans[k]).0,
                    spans[k].1,
                    extra_ok,
                )
        }),
    decreases spans.len() - i,
{
    let done = coding::clusters_code(plane, spans, i, ps, input, extra_ok, more).1;
    if i < spans.len() {
        let span = spans[i];
        let start = coding::cluster_start(plane, ps, input, span.0);
        let st = coding::codes(plane, start, input, span.1, extra_ok).1;
        let ps1 = coding::cluster_code(plane, ps, input, span, extra_ok).1;
        assert(done == coding::clusters_code(plane, spans, i + 1, ps1, input, extra_ok, more).1);
        coding::lemma_cluster_code(plane, ps, input, span, extra_ok);
        lemma_codes_well(plane, start, input, span.1, extra_ok, span.0);
        assert forall|e: int| 0 <= e < plane.width() && !(span.0 <= e <= span.1) implies
            #[trigger] ps1.line[e] == ps.line[e] by {
            lemma_codes_elsewhere(plane, start, input, span.1, extra_ok, e);
        }
        if plane.luma {
            assert forall|e: int| 0 <= e < 256 && !(span.0 <= e <= span.1) implies
                #[trigger] ps1.not_trans[e] == ps.not_trans[e] by {
                lemma_codes_elsewhere(plane, start, input, span.1, extra_ok, e);
            }
        }
        if i + 1 < spans.len() {
            lemma_apart(plane, spans, i, i + 1);
        }
        lemma_clusters_well(plane, spans, i + 1, ps1, input, extra_ok, more);
        let j = i + 1;
        assert forall|e: int| span.0 <= e <= span.1 implies !#[trigger] held_from(spans, j, e) by {
            if held_from(spans, i + 1, e) {
                let k = choose|k: int|
                    i + 1 <= k < spans.len() && (#[trigger] spans[k]).0 <= e <= spans[k].1;
                lemma_apart(plane, spans, i, k);
            }
        }
        assert(well_coded(plane, done.line, done.not_trans, input, span.0, span.1, extra_ok)) by {
            assert forall|e: int| span.0 <= e <= span.1 implies #[trigger] done.line[e]
                == st.line[e] && (plane.luma ==> done.not_trans[e] == st.not_trans[e]) by {
                assert(!held_from(spans, j, e));
                assert(done.line[e] == ps1.line[e]);
                if plane.luma {
                    assert(done.not_trans[e] == ps1.not_trans[e]);
                }
            }
            lemma_same_coding(
                plane,
                st.line,
                st.not_trans,
                done.line,
                done.not_trans,
                input,
                span.0,
                span.1,
                extra_ok,
            );
        }
        assert forall|e: int| 0 <= e < plane.width() implies #[trigger] done.moving[e] == (
        ps.moving[e] || held_from(spans, i, e)) by {
            lemma_held_from(spans, i, e);
            assert(ps1.moving[e] == (span.0 <= e <= span.1 || ps.moving[e]));
        }
        assert forall|e: int| 0 <= e < plane.width() && !held_from(spans, i, e) implies
            #[trigger] done.line[e] == ps.line[e] by {
            lemma_held_from(spans, i, e);
            assert(ps1.line[e] == ps.line[e]);
        }
        if plane.luma {
            assert forall|e: int| 0 <= e < 256 && !held_from(spans, i, e) implies
                #[trigger] done.not_trans[e] == ps.not_trans[e] by {
                lemma_held_from(spans, i, e);
                assert(ps1.not_trans[e] == ps.not_trans[e]);
            }
        }
    } else {
        assert(done == ps);
    }
}

/// Clusters that can be coded stand in order, apart.
proof fn lemma_apart(plane: Plane, spans: Seq<(int, int)>, a: int, b: int)
    requires
        coding::codable(plane, spans),
        0 <= a < b < spans.len(),
    ensures
        spans[a].1 + 4 < spans[b].0,
    decreases b - a,
{
    assert(spans[b - 1].1 + codec::MIN_CLUSTER_GAP < spans[b].0);
    if a < b - 1 {
        lemma_apart(plane, spans, a, b - 1);
        assert(spans[b - 1].0 <= spans[b - 1].1);
    }
}

/// Coding well depends on the elements of the cluster alone.
proof fn lemma_same_coding(
    plane: Plane,
    line: Seq<u8>,
    not_trans: Seq<bool>,
    line2: Seq<u8>,
    not_trans2: Seq<bool>,
    input: Seq<u8>,
    s: int,
    e1: int,
    extra_ok: bool,
)
    requires
        well_coded(plane, line, not_trans, input, s, e1, extra_ok),
        forall|e: int|
            s <= e <= e1 ==> #[trigger] line2[e] == line[e] && (plane.luma ==> not_trans2[e]
                == not_trans[e]),
        s <= e1,
        plane.subsampled ==> s % 2 == plane.parity,
    ensures
        well_coded(plane, line2, not_trans2, input, s, e1, extra_ok),
{
    assert(line2[s] == line[s]);
    assert forall|e: int| s < e <= e1 implies {
        &&& !plane.subsampled ==> is_coded(plane, e, line2[e - 1], input[e], #[trigger] line2[e])
        &&& plane.subsampled && e % 2 == plane.parity ==> is_subsampled(
            plane,
            line2,
            not_trans2,
            input,
            e,
            extra_ok,
        )
    } by {
        assert(line2[e] == line[e]);
        assert(line2[e - 1] == line[e - 1]);
        if plane.subsampled && e % 2 == plane.parity {
            assert(e - 2 >= s);
            assert(line2[e - 2] == line[e - 2]);
            assert(is_subsampled(plane, line, not_trans, input, e, extra_ok));
        }
    }
}

/// Among the first `n` elements, one that moves lies within `k` of element `e`.
spec fn near(input: Seq<u8>, store: Seq<u8>, thr: int, n: int, e: int, k: int) -> bool {
    exists|x: int| 0 <= x < n && e - k <= x <= e + k && #[trigger] clusters::moves(input, store, thr, x)
}

/// Every element of the clusters lies within `k` of one that moves, and every end of a
/// cluster within `j`.
spec fn all_near(
    spans: Seq<(int, int)>,
    input: Seq<u8>,
    store: Seq<u8>,
    thr: int,
    n: int,
    j: int,
    k: int,
) -> bool {
    &&& forall|i: int|
        0 <= i < spans.len() ==> near(input, store, thr, n, (#[trigger] spans[i]).1, j)
    &&& forall|i: int, e: int|
        #![trigger spans[i], near(input, store, thr, n, e, k)]
        0 <= i < spans.len() && spans[i].0 <= e <= spans[i].1 ==> near(input, store, thr, n, e, k)
}

proof fn lemma_near_more(
    input: Seq<u8>,
    store: Seq<u8>,
    thr: int,
    n: int,
    m: int,
    e: int,
    d: int,
    j: int,
    k: int,
)
    requires
        near(input, store, thr, n, e, j),
        n <= m,
        e - (k - j) <= d <= e + (k - j),
    ensures
        near(input, store, thr, m, d, k),
{
    let x = choose|x: int|
        0 <= x < n && e - j <= x <= e + j && #[trigger] clusters::moves(input, store, thr, x);
    assert(clusters::moves(input, store, thr, x));
}

/// Segments keep near to what moves.
proof fn lemma_segments_near(
    input: Seq<u8>,
    store: Seq<u8>,
    thr: int,
    max_start: int,
    n: nat,
    max_e: int,
)
    requires
        n <= max_e + 1,
        max_e - max_start <= 6,
    ensures
        all_near(
            clusters::segments(input, store, thr, max_start, n),
            input,
            store,
            thr,
            n as int,
            0,
            6,
        ),
    decreases n,
{
    if n > 0 {
        let m = (n - 1) as nat;
        let before = clusters::segments(input, store, thr, max_start, m);
        let after = clusters::segments(input, store, thr, max_start, n);
        lemma_segments_near(input, store, thr, max_start, m, max_e);
        let e = n - 1;
        if clusters::moves(input, store, thr, e) {
            assert(near(input, store, thr, n as int, e, 0));
        }
        assert forall|i: int| 0 <= i < after.len() implies near(
            input,
            store,
            thr,
            n as int,
            (#[trigger] after[i]).1,
            0,
        ) by {
            if i < before.len() && after[i].1 == before[i].1 {
                lemma_near_more(input, store, thr, m as int, n as int, before[i].1, after[i].1, 0, 0);
            }
        }
        assert forall|i: int, d: int|
            #![trigger after[i], near(input, store, thr, n as int, d, 6)]
            0 <= i < after.len() && after[i].0 <= d <= after[i].1 implies near(
            input,
            store,
            thr,
            n as int,
            d,
            6,
        ) by {
            if i < before.len() && before[i].0 <= d <= before[i].1 {
                assert(near(input, store, thr, m as int, d, 6));
                lemma_near_more(input, store, thr, m as int, n as int, d, d, 6, 6);
            } else {
                lemma_near_more(input, store, thr, n as int, n as int, e, d, 0, 6);
            }
        }
    }
}

/// Merging keeps near to what moves.
proof fn lemma_merged_near(
    spans: Seq<(int, int)>,
    input: Seq<u8>,
    store: Seq<u8>,
    thr: int,
    n: int,
    j: int,
    k: int,
)
    requires
        all_near(spans, input, store, thr, n, j, k),
        0 <= j,
        j + 4 <= k,
    ensures
        all_near(clusters::merged(spans), input, store, thr, n, j, k),
    decreases spans.len(),
{
    if spans.len() > 0 {
        let head = spans.drop_last();
        let last = spans.len() - 1;
        assert forall|i: int| 0 <= i < head.len() implies near(
            input,
            store,
            thr,
            n,
            (#[trigger] head[i]).1,
            j,
        ) by {
            assert(near(input, store, thr, n, spans[i].1, j));
        }
        assert forall|i: int, e: int|
            #![trigger head[i], near(input, store, thr, n, e, k)]
            0 <= i < head.len() && head[i].0 <= e <= head[i].1 implies near(
            input,
            store,
            thr,
            n,
            e,
            k,
        ) by {
            assert(spans[i].0 <= e <= spans[i].1);
        }
        lemma_merged_near(head, input, store, thr, n, j, k);
        let before = clusters::merged(head);
        let after = clusters::merged(spans);
        assert(spans[last] == spans.last());
        assert(near(input, store, thr, n, spans[last].1, j));
        assert forall|i: int| 0 <= i < after.len() implies near(
            input,
            store,
            thr,
            n,
            (#[trigger] after[i]).1,
            j,
        ) by {
            if i < before.len() {
                assert(near(input, store, thr, n, before[i].1, j));
            }
        }
        assert forall|i: int, e: int|
            #![trigger after[i], near(input, store, thr, n, e, k)]
            0 <= i < after.len() && after[i].0 <= e <= after[i].1 implies near(
            input,
            store,
            thr,
            n,
            e,
            k,
        ) by {
            if i < before.len() && before[i].0 <= e <= before[i].1 {
                let b = before[i];
            } else if spans[last].0 <= e <= spans[last].1 {
                let b = spans[last];
            } else {
                assert(near(input, store, thr, n, before[i].1, j));
                lemma_near_more(input, store, thr, n, n, before[i].1, e, j, k);
            }
        }
    }
}

/// What is found on a line lies near to what moves on it.
proof fn lemma_found_near(
    input: Seq<u8>,
    store: Seq<u8>,
    thr: int,
    max_e: int,
    max_start: int,
    parity: int,
    subsampled: bool,
    e: int,
)
    requires
        1 <= max_start <= max_e <= max_start + 6,
        0 <= parity < 2,
        ({
            let found = clusters::detected(input, store, thr, max_e, max_start);
            held_from(
                if subsampled {
                    clusters::aligned(found, parity, max_e)
                } else {
                    found
                },
                0,
                e,
            )
        }),
    ensures
        near(input, store, thr, max_e + 1, e, 7),
{
    let n = (max_e + 1) as nat;
    let segments = clusters::segments(input, store, thr, max_start, n);
    let found = clusters::detected(input, store, thr, max_e, max_start);
    lemma_segments_near(input, store, thr, max_start, n, max_e);
    lemma_merged_near(segments, input, store, thr, n as int, 0, 6);
    clusters::lemma_detected(input, store, thr, max_e, max_start);
    if subsampled {
        let moved = Seq::new(
            found.len(),
            |i: int| clusters::aligned_span(found[i], parity, max_e),
        );
        assert forall|i: int| 0 <= i < moved.len() implies near(
            input,
            store,
            thr,
            n as int,
            (#[trigger] moved[i]).1,
            1,
        ) by {
            assert(near(input, store, thr, n as int, found[i].1, 0));
            lemma_near_more(input, store, thr, n as int, n as int, found[i].1, moved[i].1, 0, 1);
        }
        assert forall|i: int, d: int|
            #![trigger moved[i], near(input, store, thr, n as int, d, 7)]
            0 <= i < moved.len() && moved[i].0 <= d <= moved[i].1 implies near(
            input,
            store,
            thr,
            n as int,
            d,
            7,
        ) by {
            let c = found[i];
            let x = if d < c.0 {
                c.0
            } else if d > c.1 {
                c.1
            } else {
                d
            };
            assert(c.0 <= x <= c.1 && x - 1 <= d <= x + 1);
            assert(near(input, store, thr, n as int, x, 6));
            lemma_near_more(input, store, thr, n as int, n as int, x, d, 6, 7);
        }
        lemma_merged_near(moved, input, store, thr, n as int, 1, 7);
        let spans = clusters::aligned(found, parity, max_e);
        let k = choose|k: int| 0 <= k < spans.len() && (#[trigger] spans[k]).0 <= e <= spans[k].1;
        assert(spans[k].0 <= e <= spans[k].1);
        assert(near(input, store, thr, n as int, e, 7));
    } else {
        let k = choose|k: int| 0 <= k < found.len() && (#[trigger] found[k]).0 <= e <= found[k].1;
        assert(found[k].0 <= e <= found[k].1);
        assert(near(input, store, thr, n as int, e, 6));
        lemma_near_more(input, store, thr, n as int, n as int, e, e, 6, 7);
    }
}

/// What moves on a line is found, but for an element of the other parity at an edge of
/// a subsampled line.
proof fn lemma_motion_found(
    input: Seq<u8>,
    store: Seq<u8>,
    thr: int,
    max_e: int,
    max_start: int,
    parity: int,
    subsampled: bool,
    e: int,
)
    requires
        1 <= max_start <= max_e,
        0 <= parity < 2,
        0 <= e <= max_e,
        clusters::moves(input, store, thr, e),
        subsampled ==> e % 2 == parity || 0 < e < max_e,
    ensures
        ({
            let found = clusters::detected(input, store, thr, max_e, max_start);
            held_from(
                if subsampled {
                    clusters::aligned(found, parity, max_e)
                } else {
                    found
                },
                0,
                e,
            )
        }),
{
    let found = clusters::detected(input, store, thr, max_e, max_start);
    clusters::moving_elements_are_covered(input, store, thr, max_e, max_start, e);
    clusters::lemma_detected(input, store, thr, max_e, max_start);
    if subsampled {
        assert forall|i: int, j: int| 0 <= i < j < found.len() implies (#[trigger] found[i]).1 < (
        #[trigger] found[j]).0 by {
            lemma_found_apart(found, max_e, max_start, i, j);
        }
        clusters::alignment_keeps_elements(found, parity, max_e, max_start, e);
        let spans = clusters::aligned(found, parity, max_e);
        let k = choose|k: int| 0 <= k < spans.len() && (#[trigger] spans[k]).0 <= e <= spans[k].1;
        assert(spans[k].0 <= e <= spans[k].1);
    } else {
        let k = choose|k: int| 0 <= k < found.len() && (#[trigger] found[k]).0 <= e <= found[k].1;
        assert(found[k].0 <= e <= found[k].1);
    }
}

proof fn lemma_found_apart(found: Seq<(int, int)>, max_e: int, max_start: int, i: int, j: int)
    requires
        clusters::on_line(found, max_e, max_start),
        clusters::apart(found),
        0 <= i < j < found.len(),
    ensures
        found[i].1 < found[j].0,
    decreases j - i,
{
    assert(found[j - 1].1 + codec::MIN_CLUSTER_GAP < found[j].0);
    if i < j - 1 {
        lemma_found_apart(found, max_e, max_start, i, j - 1);
        assert(found[j - 1].0 <= found[j - 1].1);
    }
}

/// The buffer, whose size is 702_873_600 units, is more than 55 % full.
pub open spec fn is_filling(ev: EncView) -> bool {
    100 * ev.occupancy > 55 * 702_873_600
}

/// The buffer is less than 65 % full.
pub open spec fn has_room_for_extras(ev: EncView) -> bool {
    100 * ev.occupancy < 65 * 702_873_600
}

/// Two samples differ by more than 4 levels, and 14 more in proportion to the occupancy
/// of the buffer, and `more` on top.
pub open spec fn differs(ev: EncView, a: u8, b: u8, more: int) -> bool {
    let levels = 4 + (14 * ev.occupancy) / 702_873_600 + more;
    a - b > levels || b - a > levels
}

/// The luminance of line `l` of a field, behind the line above it.
pub open spec fn luma_plane(ev: EncView, f: int, l: int, nt: Seq<bool>) -> Plane {
    Plane {
        luma: true,
        prev: if l == 0 {
            None
        } else {
            Some(ev.fields[f].y[l - 1])
        },
        prev_not_trans: nt,
        parity: l % 2,
        subsampled: is_filling(ev),
    }
}

/// The chrominance of line `l` of a field.
pub open spec fn chroma_plane(ev: EncView, l: int) -> Plane {
    Plane {
        luma: false,
        prev: None,
        prev_not_trans: Seq::new(256, |i: int| false),
        parity: l % 2,
        subsampled: is_filling(ev),
    }
}

/// The clusters of the line, as they are found.
spec fn luma_spans_of(ev: EncView, f: int, l: int, input: InputView, nt: Seq<bool>) -> Seq<(int, int)> {
    coding::luma_spans(
        ev.context(f, l, encoder::subsamples(ev, false), nt),
        input.y[l],
        ev.fields[f].y[l],
        encoder::threshold(ev.occupancy),
    )
}

spec fn chroma_spans_of(ev: EncView, f: int, l: int, input: InputView, nt: Seq<bool>) -> Seq<
    (int, int),
> {
    coding::chroma_spans(
        ev.context(f, l, encoder::subsamples(ev, false), nt),
        input.c[l],
        ev.fields[f].c[l],
        encoder::threshold(ev.occupancy),
    )
}

/// What a line of clusters leaves.
#[verifier::spinoff_prover]
#[verifier::rlimit(60)]
proof fn lemma_line(ev: EncView, f: int, l: int, input: InputView, nt: Seq<bool>)
    requires
        ev.wf_but(2),
        0 <= f < 2,
        0 <= l < 143,
        input.wf(),
        nt.len() == 256,
        100 * ev.occupancy <= 97 * 702_873_600,
    ensures
        ({
            let next = encoder::line_sent(ev, f, l, input, false, nt);
            let mask = encoder::line_code(ev, f, l, input, false, nt).not_trans;
            let (was, now) = (ev.fields[f], next.fields[f]);
            let ys = luma_spans_of(ev, f, l, input, nt);
            let cs = chroma_spans_of(ev, f, l, input, nt);
            &&& coding::codable(luma_plane(ev, f, l, nt), ys)
            &&& coding::codable(chroma_plane(ev, l), cs)
            &&& now.wf() && mask.len() == 256
            &&& forall|e: int|
                0 <= e < 256 ==> #[trigger] now.y_moving[l][e] == (was.y_moving[l][e] || held_from(
                    ys,
                    0,
                    e,
                ))
            &&& forall|e: int|
                0 <= e < 52 ==> #[trigger] now.c_moving[l][e] == (was.c_moving[l][e] || held_from(
                    cs,
                    0,
                    e,
                ))
            &&& forall|e: int|
                0 <= e < 255 && !held_from(ys, 0, e) ==> #[trigger] now.y[l][e] == was.y[l][e]
            &&& forall|e: int|
                0 <= e < 52 && !held_from(cs, 0, e) ==> #[trigger] now.c[l][e] == was.c[l][e]
            &&& forall|e: int| 0 <= e < 256 && !held_from(ys, 0, e) ==> !#[trigger] mask[e]
            &&& forall|k: int|
                0 <= k < ys.len() ==> well_coded(
                    luma_plane(ev, f, l, nt),
                    now.y[l],
                    mask,
                    input.y[l],
                    (#[trigger] ys[k]).0,
                    ys[k].1,
                    has_room_for_extras(ev),
                )
            &&& forall|k: int|
                0 <= k < cs.len() ==> well_coded(
                    chroma_plane(ev, l),
                    now.c[l],
                    Seq::empty(),
                    input.c[l],
                    (#[trigger] cs[k]).0,
                    cs[k].1,
                    has_room_for_extras(ev),
                )
        }),
{
    reveal(coding::moving_line);
    let sub = encoder::subsamples(ev, false);
    let ctx = ev.context(f, l, sub, nt);
    let thr = encoder::threshold(ev.occupancy);
    let extra_ok = encoder::below(ev.occupancy, encoder::EXTRA_OK_BELOW as nat);
    let next = encoder::line_sent(ev, f, l, input, false, nt);
    let code = encoder::line_code(ev, f, l, input, false, nt);
    let (was, now) = (ev.fields[f], next.fields[f]);
    assert(was.wf()) by {
        assert(ev.fields[0].wf() && ev.fields[1].wf());
    }
    assert(!encoder::panics(ev));
    assert(sub == is_filling(ev));
    assert(extra_ok == has_room_for_extras(ev));
    assert((144 + l) % 2 == l % 2);
    assert(ctx.luma() == luma_plane(ev, f, l, nt));
    assert(dpcm::none_omitted() =~= Seq::new(256, |i: int| false));
    assert(ctx.chroma() == chroma_plane(ev, l));
    let ys = luma_spans_of(ev, f, l, input, nt);
    let cs = chroma_spans_of(ev, f, l, input, nt);
    coding::lemma_spans_codable(ctx, input.y[l], input.c[l], was.y[l], was.c[l], thr);
    encoder::lemma_line_sent(ev, f, l, input, false, nt);
    encoder::lemma_line_code(ev, f, l, input, false, nt);
    let y_ps = PlaneState {
        line: was.y[l],
        not_trans: dpcm::none_omitted(),
        moving: was.y_moving[l],
        extras: 0,
    };
    let c_ps = PlaneState {
        line: was.c[l],
        not_trans: dpcm::none_omitted(),
        moving: was.c_moving[l],
        extras: 0,
    };
    let color = cs.len() > 0;
    lemma_clusters_well(ctx.luma(), ys, 0, y_ps, input.y[l], extra_ok, color);
    lemma_clusters_well(ctx.chroma(), cs, 0, c_ps, input.c[l], extra_ok, false);
    let y_done = coding::clusters_code(ctx.luma(), ys, 0, y_ps, input.y[l], extra_ok, color).1;
    let c_done = coding::clusters_code(ctx.chroma(), cs, 0, c_ps, input.c[l], extra_ok, false).1;
    coding::lemma_clusters_code(ctx.luma(), ys, 0, y_ps, input.y[l], extra_ok, color);
    coding::lemma_clusters_code(ctx.chroma(), cs, 0, c_ps, input.c[l], extra_ok, false);
    assert(next.fields[f].wf()) by {
        assert(next.fields[0].wf() && next.fields[1].wf());
    }
    if ys.len() == 0 && cs.len() == 0 {
        assert(y_done == y_ps && c_done == c_ps);
        assert(now.y[l] == y_done.line);
        assert(code.not_trans == y_done.not_trans);
    } else {
        assert(now.y[l] == dpcm::blanked(y_done.line));
        assert(code.not_trans == y_done.not_trans);
    }
    assert(now.c[l] == c_done.line);
    assert(now.y_moving[l] == y_done.moving);
    assert(now.c_moving[l] == c_done.moving);
    assert forall|e: int| 0 <= e < 255 && !held_from(ys, 0, e) implies #[trigger] now.y[l][e]
        == was.y[l][e] by {
        assert(y_done.line[e] == y_ps.line[e]);
    }
    assert forall|k: int| 0 <= k < ys.len() implies well_coded(
        luma_plane(ev, f, l, nt),
        now.y[l],
        code.not_trans,
        input.y[l],
        (#[trigger] ys[k]).0,
        ys[k].1,
        extra_ok,
    ) by {
        assert(0 <= ys[k].0 <= ys[k].1 <= 254);
        lemma_same_coding(
            ctx.luma(),
            y_done.line,
            y_done.not_trans,
            now.y[l],
            code.not_trans,
            input.y[l],
            ys[k].0,
            ys[k].1,
            extra_ok,
        );
    }
    assert forall|k: int| 0 <= k < cs.len() implies well_coded(
        chroma_plane(ev, l),
        now.c[l],
        Seq::empty(),
        input.c[l],
        (#[trigger] cs[k]).0,
        cs[k].1,
        extra_ok,
    ) by {
        assert(0 <= cs[k].0 <= cs[k].1 <= 51);
        lemma_same_coding(
            ctx.chroma(),
            c_done.line,
            c_done.not_trans,
            now.c[l],
            Seq::empty(),
            input.c[l],
            cs[k].0,
            cs[k].1,
            extra_ok,
        );
    }
}

/// No motion of luminance goes unsent: an element whose input differs from the stored
/// sample by more than the threshold (4 levels, and 14 more in proportion to the
/// occupancy of the buffer) is marked as moving. On a subsampled line this leaves out
/// an element of the parity that is not sent, at an edge of the line.
pub proof fn moving_luma_is_sent(
    ev: EncView,
    f: int,
    l: int,
    input: InputView,
    nt: Seq<bool>,
    e: int,
)
    requires
        ev.wf_but(2),
        0 <= f < 2,
        0 <= l < 143,
        input.wf(),
        nt.len() == 256,
        100 * ev.occupancy <= 97 * 702_873_600,
        0 <= e <= 254,
        differs(ev, input.y[l][e], ev.fields[f].y[l][e], 0),
        is_filling(ev) ==> e % 2 == l % 2 || 0 < e < 254,
    ensures
        encoder::line_sent(ev, f, l, input, false, nt).fields[f].y_moving[l][e],
{
    lemma_line(ev, f, l, input, nt);
    lemma_motion_found(
        input.y[l],
        ev.fields[f].y[l],
        encoder::threshold(ev.occupancy),
        254,
        254,
        l % 2,
        is_filling(ev),
        e,
    );
    assert((144 + l) % 2 == l % 2);
    assert(encoder::subsamples(ev, false) == is_filling(ev));
    assert(held_from(luma_spans_of(ev, f, l, input, nt), 0, e));
}

/// No motion of chrominance goes unsent: its threshold is two levels higher.
pub proof fn moving_chroma_is_sent(
    ev: EncView,
    f: int,
    l: int,
    input: InputView,
    nt: Seq<bool>,
    e: int,
)
    requires
        ev.wf_but(2),
        0 <= f < 2,
        0 <= l < 143,
        input.wf(),
        nt.len() == 256,
        100 * ev.occupancy <= 97 * 702_873_600,
        0 <= e <= 51,
        differs(ev, input.c[l][e], ev.fields[f].c[l][e], 2),
        is_filling(ev) ==> e % 2 == l % 2 || 0 < e < 51,
    ensures
        encoder::line_sent(ev, f, l, input, false, nt).fields[f].c_moving[l][e],
{
    lemma_line(ev, f, l, input, nt);
    lemma_motion_found(
        input.c[l],
        ev.fields[f].c[l],
        encoder::threshold(ev.occupancy) + 2,
        51,
        50,
        l % 2,
        is_filling(ev),
        e,
    );
    assert((144 + l) % 2 == l % 2);
    assert(encoder::subsamples(ev, false) == is_filling(ev));
    assert(held_from(chroma_spans_of(ev, f, l, input, nt), 0, e));
}

/// What is not marked as moving stays as it was stored, and what is marked was marked
/// before, or lies within seven elements of one that moves.
pub proof fn only_motion_is_sent(
    ev: EncView,
    f: int,
    l: int,
    input: InputView,
    nt: Seq<bool>,
    e: int,
)
    requires
        ev.wf_but(2),
        0 <= f < 2,
        0 <= l < 143,
        input.wf(),
        nt.len() == 256,
        100 * ev.occupancy <= 97 * 702_873_600,
        0 <= e <= 254,
    ensures
        ({
            let (was, now) = (
                ev.fields[f],
                encoder::line_sent(ev, f, l, input, false, nt).fields[f],
            );
            &&& !now.y_moving[l][e] ==> now.y[l][e] == was.y[l][e]
            &&& now.y_moving[l][e] && !was.y_moving[l][e] ==> exists|x: int|
                0 <= x <= 254 && e - 7 <= x <= e + 7 && #[trigger] differs(
                    ev,
                    input.y[l][x],
                    was.y[l][x],
                    0,
                )
            &&& e <= 51 && !now.c_moving[l][e] ==> now.c[l][e] == was.c[l][e]
            &&& e <= 51 && now.c_moving[l][e] && !was.c_moving[l][e] ==> exists|x: int|
                0 <= x <= 51 && e - 7 <= x <= e + 7 && #[trigger] differs(
                    ev,
                    input.c[l][x],
                    was.c[l][x],
                    2,
                )
        }),
{
    lemma_line(ev, f, l, input, nt);
    let (was, now) = (ev.fields[f], encoder::line_sent(ev, f, l, input, false, nt).fields[f]);
    let thr = encoder::threshold(ev.occupancy);
    assert((144 + l) % 2 == l % 2);
    assert(encoder::subsamples(ev, false) == is_filling(ev));
    if now.y_moving[l][e] && !was.y_moving[l][e] {
        lemma_found_near(input.y[l], was.y[l], thr, 254, 254, l % 2, is_filling(ev), e);
        let x = choose|x: int|
            0 <= x < 255 && e - 7 <= x <= e + 7 && #[trigger] clusters::moves(
                input.y[l],
                was.y[l],
                thr,
                x,
            );
        assert(differs(ev, input.y[l][x], was.y[l][x], 0));
    }
    if e <= 51 && now.c_moving[l][e] && !was.c_moving[l][e] {
        lemma_found_near(input.c[l], was.c[l], thr + 2, 51, 50, l % 2, is_filling(ev), e);
        let x = choose|x: int|
            0 <= x < 52 && e - 7 <= x <= e + 7 && #[trigger] clusters::moves(
                input.c[l],
                was.c[l],
                thr + 2,
                x,
            );
        assert(differs(ev, input.c[l][x], was.c[l][x], 2));
    }
}

/// The luminance of a cluster is coded as near as the tables allow. A run of moving
/// elements starts with the input itself. Off subsampling each further element is coded
/// behind its left neighbour. On a subsampled line a run starts and ends at an element
/// of the parity of the line, and each further element of that parity is coded behind
/// the last one sent, with the element in between sent or interpolated. Elements that do
/// not move are not omitted.
pub proof fn luma_is_coded_well(
    ev: EncView,
    f: int,
    l: int,
    input: InputView,
    nt: Seq<bool>,
    e: int,
)
    requires
        ev.wf_but(2),
        0 <= f < 2,
        0 <= l < 143,
        input.wf(),
        nt.len() == 256,
        100 * ev.occupancy <= 97 * 702_873_600,
        0 <= e <= 254,
        forall|x: int| 0 <= x < 256 ==> !#[trigger] ev.fields[f].y_moving[l][x],
    ensures
        ({
            let now = encoder::line_sent(ev, f, l, input, false, nt).fields[f];
            let mask = encoder::line_code(ev, f, l, input, false, nt).not_trans;
            let starts = e == 0 || !now.y_moving[l][e - 1];
            let ends = e == 254 || !now.y_moving[l][e + 1];
            &&& mask.len() == 256 && !mask[255]
            &&& !now.y_moving[l][e] ==> !mask[e]
            &&& now.y_moving[l][e] ==> {
                &&& starts ==> now.y[l][e] == input.y[l][e]
                &&& is_filling(ev) && (starts || ends) ==> e % 2 == l % 2
                &&& !starts && !is_filling(ev) ==> is_coded(
                    luma_plane(ev, f, l, nt),
                    e,
                    now.y[l][e - 1],
                    input.y[l][e],
                    now.y[l][e],
                )
                &&& !starts && is_filling(ev) && e % 2 == l % 2 ==> is_subsampled(
                    luma_plane(ev, f, l, nt),
                    now.y[l],
                    mask,
                    input.y[l],
                    e,
                    has_room_for_extras(ev),
                )
            }
        }),
{
    lemma_line(ev, f, l, input, nt);
    let now = encoder::line_sent(ev, f, l, input, false, nt).fields[f];
    let ys = luma_spans_of(ev, f, l, input, nt);
    let plane = luma_plane(ev, f, l, nt);
    assert(!held_from(ys, 0, 255)) by {
        if held_from(ys, 0, 255) {
            let k = choose|k: int| 0 <= k < ys.len() && (#[trigger] ys[k]).0 <= 255 <= ys[k].1;
            assert(ys[k].1 <= 254);
        }
    }
    if now.y_moving[l][e] {
        let k = lemma_run(plane, ys, now.y_moving[l], e);
        let mask = encoder::line_code(ev, f, l, input, false, nt).not_trans;
        assert(well_coded(
            plane,
            now.y[l],
            mask,
            input.y[l],
            ys[k].0,
            ys[k].1,
            has_room_for_extras(ev),
        ));
        let x = now.y[l][e];
    }
}

/// A run of marked elements is a cluster.
proof fn lemma_run(plane: Plane, spans: Seq<(int, int)>, moving: Seq<bool>, e: int) -> (k: int)
    requires
        coding::codable(plane, spans),
        moving.len() == plane.width(),
        forall|x: int| 0 <= x < plane.width() ==> #[trigger] moving[x] == held_from(spans, 0, x),
        0 <= e <= plane.last_element(),
        moving[e],
    ensures
        0 <= k < spans.len(),
        spans[k].0 <= e <= spans[k].1,
        (e == 0 || !moving[e - 1]) <==> e == spans[k].0,
        (e == plane.last_element() || !moving[e + 1]) <==> e == spans[k].1,
        plane.subsampled ==> spans[k].0 % 2 == plane.parity && spans[k].1 % 2 == plane.parity,
{
    assert(held_from(spans, 0, e));
    let k = choose|k: int| 0 <= k < spans.len() && (#[trigger] spans[k]).0 <= e <= spans[k].1;
    assert(spans[k].1 <= plane.last_element());
    if e > 0 {
        if moving[e - 1] && e == spans[k].0 {
            assert(held_from(spans, 0, e - 1));
            let j = choose|j: int|
                0 <= j < spans.len() && (#[trigger] spans[j]).0 <= e - 1 <= spans[j].1;
            if j < k {
                lemma_apart(plane, spans, j, k);
            } else if k < j {
                lemma_apart(plane, spans, k, j);
            }
        }
        if e > spans[k].0 {
            assert(spans[k].0 <= e - 1 <= spans[k].1);
            assert(held_from(spans, 0, e - 1));
        }
    }
    if e < plane.last_element() {
        if moving[e + 1] && e == spans[k].1 {
            assert(held_from(spans, 0, e + 1));
            let j = choose|j: int|
                0 <= j < spans.len() && (#[trigger] spans[j]).0 <= e + 1 <= spans[j].1;
            if j < k {
                lemma_apart(plane, spans, j, k);
            } else if k < j {
                lemma_apart(plane, spans, k, j);
            }
        }
        if e < spans[k].1 {
            assert(spans[k].0 <= e + 1 <= spans[k].1);
            assert(held_from(spans, 0, e + 1));
        }
    }
    k
}

/// The chrominance of a cluster is coded as near as the tables allow, like luminance;
/// a run starts at sample 50 at the latest.
pub proof fn chroma_is_coded_well(
    ev: EncView,
    f: int,
    l: int,
    input: InputView,
    nt: Seq<bool>,
    e: int,
)
    requires
        ev.wf_but(2),
        0 <= f < 2,
        0 <= l < 143,
        input.wf(),
        nt.len() == 256,
        100 * ev.occupancy <= 97 * 702_873_600,
        0 <= e <= 51,
        forall|x: int| 0 <= x < 52 ==> !#[trigger] ev.fields[f].c_moving[l][x],
    ensures
        ({
            let now = encoder::line_sent(ev, f, l, input, false, nt).fields[f];
            let starts = e == 0 || !now.c_moving[l][e - 1];
            let ends = e == 51 || !now.c_moving[l][e + 1];
            now.c_moving[l][e] ==> {
                &&& starts ==> now.c[l][e] == input.c[l][e] && e <= 50
                &&& is_filling(ev) && (starts || ends) ==> e % 2 == l % 2
                &&& !starts && !is_filling(ev) ==> is_coded(
                    chroma_plane(ev, l),
                    e,
                    now.c[l][e - 1],
                    input.c[l][e],
                    now.c[l][e],
                )
                &&& !starts && is_filling(ev) && e % 2 == l % 2 ==> is_subsampled(
                    chroma_plane(ev, l),
                    now.c[l],
                    Seq::empty(),
                    input.c[l],
                    e,
                    has_room_for_extras(ev),
                )
            }
        }),
{
    lemma_line(ev, f, l, input, nt);
    let now = encoder::line_sent(ev, f, l, input, false, nt).fields[f];
    let cs = chroma_spans_of(ev, f, l, input, nt);
    let plane = chroma_plane(ev, l);
    if now.c_moving[l][e] {
        let k = lemma_run(plane, cs, now.c_moving[l], e);
        assert(well_coded(
            plane,
            now.c[l],
            Seq::empty(),
            input.c[l],
            cs[k].0,
            cs[k].1,
            has_room_for_extras(ev),
        ));
        let x = now.c[l][e];
    }
}

/// A line on which nothing moves sends its start code alone (48 bits on the first line of
/// a field, 20 on the others), changes nothing, and counts as empty.
pub proof fn still_line_sends_nothing(
    ev: EncView,
    f: int,
    l: int,
    input: InputView,
    nt: Seq<bool>,
)
    requires
        ev.wf_but(2),
        0 <= f < 2,
        0 <= l < 143,
        input.wf(),
        nt.len() == 256,
        forall|e: int|
            0 <= e <= 254 ==> !differs(ev, #[trigger] input.y[l][e], ev.fields[f].y[l][e], 0),
        forall|e: int|
            0 <= e <= 51 ==> !differs(ev, #[trigger] input.c[l][e], ev.fields[f].c[l][e], 2),
    ensures
        ({
            let next = encoder::line_sent(ev, f, l, input, false, nt);
            &&& next.bits.len() == ev.bits.len() + if l == 0 {
                48nat
            } else {
                20nat
            }
            &&& next.fields == ev.fields
            &&& next.refreshed == ev.refreshed
            &&& next.stats.empty_lines == ev.stats.empty_lines + 1
            &&& next.stats.luma_clusters == ev.stats.luma_clusters
            &&& next.stats.chroma_clusters == ev.stats.chroma_clusters
            &&& next.stats.extra_elements == ev.stats.extra_elements
            &&& next.stats.pcm_lines == ev.stats.pcm_lines
            &&& next.stats.subsampled_lines == ev.stats.subsampled_lines
        }),
{
    reveal(coding::moving_line);
    let sub = encoder::subsamples(ev, false);
    let thr = encoder::threshold(ev.occupancy);
    let (y, c) = (ev.fields[f].y[l], ev.fields[f].c[l]);
    assert forall|e: int| 0 <= e <= 254 implies !#[trigger] clusters::moves(input.y[l], y, thr, e) by {
        let v = input.y[l][e];
    }
    let thr2 = thr + 2;
    assert forall|e: int| 0 <= e <= 51 implies !#[trigger] clusters::moves(input.c[l], c, thr2, e) by {
        let v = input.c[l][e];
    }
    clusters::still_line_has_no_clusters(input.y[l], y, thr, 254, 254);
    clusters::still_line_has_no_clusters(input.c[l], c, thr2, 51, 50);
    encoder::lemma_start_code(ev, f, l, sub);
    let header = encoder::start_code(ev, f, l, sub);
    let code = encoder::line_code(ev, f, l, input, false, nt);
    assert(clusters::aligned(Seq::empty(), l % 2, 254) =~= Seq::<(int, int)>::empty());
    assert(code == coding::empty_line(ev.line(f, l)));
    encoder::lemma_with_empty_line(ev.sent(header), f, l);
    assert(ev.sent(header).line(f, l) == ev.line(f, l));
}

/// Runs of moving elements are at least four elements apart, in luminance and in
/// chrominance.
pub proof fn runs_are_four_apart(
    ev: EncView,
    f: int,
    l: int,
    input: InputView,
    nt: Seq<bool>,
    e: int,
    k: int,
)
    requires
        ev.wf_but(2),
        0 <= f < 2,
        0 <= l < 143,
        input.wf(),
        nt.len() == 256,
        100 * ev.occupancy <= 97 * 702_873_600,
        0 <= e,
        1 <= k <= 4,
        forall|x: int| 0 <= x < 256 ==> !#[trigger] ev.fields[f].y_moving[l][x],
        forall|x: int| 0 <= x < 52 ==> !#[trigger] ev.fields[f].c_moving[l][x],
    ensures
        ({
            let now = encoder::line_sent(ev, f, l, input, false, nt).fields[f];
            &&& e + k < 256 && now.y_moving[l][e] && !now.y_moving[l][e + 1]
                ==> !now.y_moving[l][e + k]
            &&& e + k < 52 && now.c_moving[l][e] && !now.c_moving[l][e + 1]
                ==> !now.c_moving[l][e + k]
        }),
{
    lemma_line(ev, f, l, input, nt);
    let now = encoder::line_sent(ev, f, l, input, false, nt).fields[f];
    let ys = luma_spans_of(ev, f, l, input, nt);
    let cs = chroma_spans_of(ev, f, l, input, nt);
    if e + k < 256 && now.y_moving[l][e] && !now.y_moving[l][e + 1] {
        lemma_gap(luma_plane(ev, f, l, nt), ys, now.y_moving[l], e, k);
    }
    if e + k < 52 && now.c_moving[l][e] && !now.c_moving[l][e + 1] {
        lemma_gap(chroma_plane(ev, l), cs, now.c_moving[l], e, k);
    }
}

proof fn lemma_gap(plane: Plane, spans: Seq<(int, int)>, moving: Seq<bool>, e: int, k: int)
    requires
        coding::codable(plane, spans),
        moving.len() == plane.width(),
        forall|x: int| 0 <= x < plane.width() ==> #[trigger] moving[x] == held_from(spans, 0, x),
        0 <= e,
        1 <= k <= 4,
        e + k < plane.width(),
        moving[e],
        !moving[e + 1],
    ensures
        !moving[e + k],
{
    assert(held_from(spans, 0, e));
    let i = choose|i: int| 0 <= i < spans.len() && (#[trigger] spans[i]).0 <= e <= spans[i].1;
    if e + 1 <= spans[i].1 {
        assert(spans[i].0 <= e + 1 <= spans[i].1);
        assert(held_from(spans, 0, e + 1));
    }
    if held_from(spans, 0, e + k) {
        let j = choose|j: int|
            0 <= j < spans.len() && (#[trigger] spans[j]).0 <= e + k <= spans[j].1;
        if j < i {
            lemma_apart(plane, spans, j, i);
        } else if i < j {
            lemma_apart(plane, spans, i, j);
        }
    }
}

/// Off subsampling, all elements between two that move, at most six apart, are sent with
/// them.
pub proof fn close_motion_is_one_run(
    ev: EncView,
    f: int,
    l: int,
    input: InputView,
    nt: Seq<bool>,
    x: int,
    y: int,
    e: int,
)
    requires
        ev.wf_but(2),
        0 <= f < 2,
        0 <= l < 143,
        input.wf(),
        nt.len() == 256,
        !is_filling(ev),
        0 <= x <= e <= y,
        y - x <= 6,
    ensures
        ({
            let (was, now) = (
                ev.fields[f],
                encoder::line_sent(ev, f, l, input, false, nt).fields[f],
            );
            &&& y <= 254 && differs(ev, input.y[l][x], was.y[l][x], 0) && differs(
                ev,
                input.y[l][y],
                was.y[l][y],
                0,
            ) ==> now.y_moving[l][e]
            &&& y <= 51 && differs(ev, input.c[l][x], was.c[l][x], 2) && differs(
                ev,
                input.c[l][y],
                was.c[l][y],
                2,
            ) ==> now.c_moving[l][e]
        }),
{
    lemma_line(ev, f, l, input, nt);
    let was = ev.fields[f];
    let thr = encoder::threshold(ev.occupancy);
    assert(encoder::subsamples(ev, false) == is_filling(ev));
    if y <= 254 && differs(ev, input.y[l][x], was.y[l][x], 0) && differs(
        ev,
        input.y[l][y],
        was.y[l][y],
        0,
    ) {
        clusters::close_motion_is_merged(input.y[l], was.y[l], thr, 254, 254, x, y, e);
        let ys = luma_spans_of(ev, f, l, input, nt);
        let k = choose|k: int| 0 <= k < ys.len() && (#[trigger] ys[k]).0 <= e <= ys[k].1;
        assert(ys[k].0 <= e <= ys[k].1);
        assert(held_from(ys, 0, e));
    }
    if y <= 51 && differs(ev, input.c[l][x], was.c[l][x], 2) && differs(
        ev,
        input.c[l][y],
        was.c[l][y],
        2,
    ) {
        clusters::close_motion_is_merged(input.c[l], was.c[l], thr + 2, 51, 50, x, y, e);
        let cs = chroma_spans_of(ev, f, l, input, nt);
        let k = choose|k: int| 0 <= k < cs.len() && (#[trigger] cs[k]).0 <= e <= cs[k].1;
        assert(cs[k].0 <= e <= cs[k].1);
        assert(held_from(cs, 0, e));
    }
}

} // verus!
