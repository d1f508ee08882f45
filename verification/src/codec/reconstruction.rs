//! How the codes of a cluster become samples: the prediction from the neighbours, the
//! level added, the elements in between interpolated.

use vstd::prelude::*;
use crate::codec::bits;
use crate::codec::decoder;
use crate::codec::decoder::{DecodeError, EndSpec, LineState};
use crate::codec::dpcm::{Cluster, LineContext, Plane};
use crate::codec::tables;
use crate::codec::tables::{Vlc, VlcRead};

verus! {

/// `r` is `v`, held between `low` and `high`.
pub open spec fn is_clipped(r: u8, v: int, low: int, high: int) -> bool {
    &&& low <= v <= high ==> r == v
    &&& v < low ==> r == low
    &&& v > high ==> r == high
}

/// `m` is the mean of `a` and `b`, rounded down.
pub open spec fn is_mean(m: int, a: int, b: int) -> bool {
    2 * m <= a + b <= 2 * m + 1
}

/// `d` is the upper-right neighbour of luminance element `e`: the element to the right
/// on the line above; where that was omitted, the element directly above; on the first
/// line of a field, blanking (128).
pub open spec fn is_upper_right(plane: Plane, e: int, d: u8) -> bool {
    match plane.prev {
        None => d == 128,
        Some(line) => {
            &&& !plane.prev_not_trans[e + 1] ==> d == line[e + 1]
            &&& plane.prev_not_trans[e + 1] ==> d == line[e]
        },
    }
}

/// `x` is a luminance element `e` with left neighbour `a`: half the sum of `a` and the
/// upper-right neighbour, rounded down, plus the level, held between 16 and 239.
pub open spec fn is_luma(plane: Plane, e: int, a: u8, level: int, d: u8, pred: int, x: u8) -> bool {
    &&& is_upper_right(plane, e, d)
    &&& is_mean(pred, a as int, d as int)
    &&& is_clipped(x, pred + level, 16, 239)
}

/// A luminance code off subsampling adds the next element: predicted from its left and
/// upper-right neighbours.
pub proof fn luma_code_adds_an_element(
    stream: Seq<bool>,
    p: nat,
    p1: nat,
    plane: Plane,
    st: Cluster,
    level: i16,
    d: u8,
    pred: int,
    x: u8,
)
    requires
        plane.luma,
        !plane.subsampled || st.q % 2 != plane.parity,
        0 <= st.q,
        !decoder::sync_at(stream, p),
        tables::vlc_at(stream, p, plane.subsampled) == (
            VlcRead::Sym(Vlc::Level { level, extra: false }),
            p1,
        ),
        st.q < 254 ==> is_luma(plane, st.q + 1, st.line[st.q], level as int, d, pred, x),
    ensures
        st.q < 254 ==> decoder::codes_at(stream, p, plane, st) == decoder::codes_at(
            stream,
            p1,
            plane,
            Cluster {
                line: st.line.update(st.q + 1, x),
                not_trans: st.not_trans,
                q: st.q + 1,
                last: st.q + 1,
                extras: st.extras,
            },
        ),
        st.q == 254 ==> decoder::codes_at(stream, p, plane, st) == (
            EndSpec::Fail(DecodeError::LumaOverrun { position: 255 }),
            p1,
            st,
        ),
{
}

/// A luminance code on a subsampled line adds the element after next: predicted from
/// the last element that was sent to its left, and its upper-right neighbour. The
/// element in between, if it was not sent as an extra element, is the mean of the two
/// and counts as omitted.
pub proof fn subsampled_luma_code_adds_an_element(
    stream: Seq<bool>,
    p: nat,
    p1: nat,
    plane: Plane,
    st: Cluster,
    level: i16,
    d: u8,
    pred: int,
    x: u8,
    m: u8,
)
    requires
        plane.luma,
        plane.subsampled,
        st.q % 2 == plane.parity,
        0 <= st.q,
        st.last == st.q || st.last == st.q + 1,
        !decoder::sync_at(stream, p),
        tables::vlc_at(stream, p, true) == (
            VlcRead::Sym(Vlc::Level { level, extra: false }),
            p1,
        ),
        st.q < 253 ==> is_luma(
            plane,
            st.q + 2,
            if st.last == st.q {
                st.line[st.q]
            } else {
                st.line[st.q + 1]
            },
            level as int,
            d,
            pred,
            x,
        ),
        is_mean(m as int, st.line[st.q] as int, x as int),
    ensures
        st.q < 253 && st.last == st.q ==> decoder::codes_at(stream, p, plane, st)
            == decoder::codes_at(
            stream,
            p1,
            plane,
            Cluster {
                line: st.line.update(st.q + 2, x).update(st.q + 1, m),
                not_trans: st.not_trans.update(st.q + 1, true),
                q: st.q + 2,
                last: st.q + 2,
                extras: st.extras,
            },
        ),
        st.q < 253 && st.last == st.q + 1 ==> decoder::codes_at(stream, p, plane, st)
            == decoder::codes_at(
            stream,
            p1,
            plane,
            Cluster {
                line: st.line.update(st.q + 2, x),
                not_trans: st.not_trans,
                q: st.q + 2,
                last: st.q + 2,
                extras: st.extras,
            },
        ),
        st.q == 253 || st.q == 254 ==> decoder::codes_at(stream, p, plane, st) == (
            EndSpec::Fail(DecodeError::LumaOverrun { position: (st.q + 2) as usize }),
            p1,
            st,
        ),
{
}

/// An extra luminance code adds the element that would be omitted: predicted from its
/// left and upper-right neighbours. It comes once, and not past the end of the line.
pub proof fn extra_luma_code_adds_an_element(
    stream: Seq<bool>,
    p: nat,
    p1: nat,
    plane: Plane,
    st: Cluster,
    level: i16,
    d: u8,
    pred: int,
    x: u8,
)
    requires
        plane.luma,
        plane.subsampled,
        0 <= st.q,
        !decoder::sync_at(stream, p),
        tables::vlc_at(stream, p, true) == (VlcRead::Sym(Vlc::Level { level, extra: true }), p1),
        st.q < 254 ==> is_luma(plane, st.q + 1, st.line[st.q], level as int, d, pred, x),
    ensures
        st.q < 254 && st.last != st.q + 1 ==> decoder::codes_at(stream, p, plane, st)
            == decoder::codes_at(
            stream,
            p1,
            plane,
            Cluster {
                line: st.line.update(st.q + 1, x),
                not_trans: st.not_trans,
                q: st.q,
                last: st.q + 1,
                extras: st.extras + 1,
            },
        ),
        st.q <= 254 && (st.q == 254 || st.last == st.q + 1) ==> decoder::codes_at(
            stream,
            p,
            plane,
            st,
        ) == (
            EndSpec::Fail(DecodeError::LumaExtra { position: (st.q + 1) as usize }),
            p1,
            st,
        ),
{
}

/// A chrominance code adds the next element, predicted as its left neighbour, held
/// between 17 and 239; on a subsampled line the element after next, with the omitted
/// one in between at the mean of the two.
pub proof fn chroma_code_adds_an_element(
    stream: Seq<bool>,
    p: nat,
    p1: nat,
    plane: Plane,
    st: Cluster,
    level: i16,
    x: u8,
    m: u8,
)
    requires
        !plane.luma,
        0 <= st.q <= 51,
        st.last == st.q || st.last == st.q + 1,
        !decoder::sync_at(stream, p),
        tables::vlc_at(stream, p, plane.subsampled) == (
            VlcRead::Sym(Vlc::Level { level, extra: false }),
            p1,
        ),
        is_clipped(
            x,
            (if plane.subsampled && st.q % 2 == plane.parity && st.last == st.q + 1 {
                st.line[st.q + 1]
            } else {
                st.line[st.q]
            }) + level,
            17,
            239,
        ),
        is_mean(m as int, st.line[st.q] as int, x as int),
    ensures
        ({
            let skips = plane.subsampled && st.q % 2 == plane.parity;
            let t = if skips {
                st.q + 2
            } else {
                st.q + 1
            };
            let got = decoder::codes_at(stream, p, plane, st);
            let reached = st.line.update(t, x);
            &&& t <= 51 && !(skips && st.last == st.q) ==> got == decoder::codes_at(
                stream,
                p1,
                plane,
                Cluster { line: reached, q: t, last: t, ..st },
            )
            &&& t <= 51 && skips && st.last == st.q ==> got == decoder::codes_at(
                stream,
                p1,
                plane,
                Cluster {
                    line: reached.update(st.q + 1, m),
                    not_trans: st.not_trans.update(st.q + 1, true),
                    q: t,
                    last: t,
                    extras: st.extras,
                },
            )
            &&& t > 51 ==> got == (
                EndSpec::Fail(DecodeError::ChromaOverrun { position: t as usize }),
                p1,
                st,
            )
        }),
{
}

/// An extra chrominance code adds the element that would be omitted, predicted as its
/// left neighbour.
pub proof fn extra_chroma_code_adds_an_element(
    stream: Seq<bool>,
    p: nat,
    p1: nat,
    plane: Plane,
    st: Cluster,
    level: i16,
    x: u8,
)
    requires
        !plane.luma,
        plane.subsampled,
        0 <= st.q <= 51,
        !decoder::sync_at(stream, p),
        tables::vlc_at(stream, p, true) == (VlcRead::Sym(Vlc::Level { level, extra: true }), p1),
        is_clipped(x, st.line[st.q] + level, 17, 239),
    ensures
        st.q < 51 && st.last != st.q + 1 ==> decoder::codes_at(stream, p, plane, st)
            == decoder::codes_at(
            stream,
            p1,
            plane,
            Cluster {
                line: st.line.update(st.q + 1, x),
                last: st.q + 1,
                extras: st.extras + 1,
                ..st
            },
        ),
        st.q == 51 || st.last == st.q + 1 ==> decoder::codes_at(stream, p, plane, st) == (
            EndSpec::Fail(DecodeError::ChromaExtra { position: (st.q + 1) as usize }),
            p1,
            st,
        ),
{
}

/// A cluster ends at its end-of-cluster code, or where 12 zeros stand (or only zeros are
/// left); a malformed code is an error, and a code that is cut off the end of the
/// stream.
pub proof fn clusters_end(stream: Seq<bool>, p: nat, p1: nat, plane: Plane, st: Cluster)
    ensures
        (forall|i: int| p <= i < p + 12 && i < stream.len() ==> !stream[i]) ==> decoder::codes_at(
            stream,
            p,
            plane,
            st,
        ) == (EndSpec::Sync, p, st),
        !(forall|i: int| p <= i < p + 12 && i < stream.len() ==> !stream[i]) ==> {
            let read = tables::vlc_at(stream, p, plane.subsampled);
            let got = decoder::codes_at(stream, p, plane, st);
            &&& read.0 == VlcRead::Sym(Vlc::Eoc) ==> got == (EndSpec::Eoc, read.1, st)
            &&& read.0 is Invalid ==> got == (
                EndSpec::Fail(DecodeError::InvalidCode),
                read.1,
                st,
            )
            &&& read.0 is Eof ==> got == (EndSpec::Eof, read.1, st)
        },
{
    if forall|i: int| p <= i < p + 12 && i < stream.len() ==> !stream[i] {
        assert(decoder::sync_at(stream, p));
    } else {
        assert(!decoder::sync_at(stream, p));
    }
}

/// A luminance cluster: 8 bits of its first sample, held between 16 and 239, 8 bits of
/// its address, its codes. Its elements, from the address to the last one that was
/// sent, move. No cluster starts at element 255.
pub proof fn luma_cluster_is_read(
    stream: Seq<bool>,
    ctx: LineContext,
    ls: LineState,
    pcm: nat,
    addr: nat,
    first: u8,
    e: int,
)
    requires
        bits::number_at(stream, ls.pos, 8) == Some(pcm),
        bits::number_at(stream, ls.pos + 8, 8) == Some(addr),
        is_clipped(first, pcm as int, 16, 239),
        0 <= e < ls.y_moving.len(),
    ensures
        ({
            let (end, got) = decoder::luma_cluster_at(stream, ctx, ls);
            let (stop, p3, st) = decoder::codes_at(
                stream,
                ls.pos + 16,
                Plane {
                    luma: true,
                    prev: ctx.prev,
                    prev_not_trans: ctx.prev_not_trans,
                    parity: ctx.parity,
                    subsampled: ctx.subsampled,
                },
                Cluster {
                    line: ls.y.update(addr as int, first),
                    not_trans: ls.not_trans,
                    q: addr as int,
                    last: addr as int,
                    extras: 0,
                },
            );
            &&& addr >= 255 ==> end == EndSpec::Fail(
                DecodeError::LumaAddress { addr: addr as usize },
            )
            &&& addr < 255 ==> {
                &&& end == stop
                &&& got.pos == p3
                &&& got.c == ls.c && got.c_moving == ls.c_moving
                &&& got.stats.luma_clusters == ls.stats.luma_clusters + 1
                &&& got.stats.chroma_clusters == ls.stats.chroma_clusters
                &&& got.stats.extra_elements == ls.stats.extra_elements + st.extras
                &&& end is Eoc || end is Sync ==> {
                    &&& got.y == st.line
                    &&& got.not_trans == st.not_trans
                    &&& got.y_moving.len() == ls.y_moving.len()
                    &&& got.y_moving[e] == (addr <= e <= st.last || ls.y_moving[e])
                }
                &&& end is Eof || end is Fail ==> {
                    &&& got.y == ls.y
                    &&& got.not_trans == ls.not_trans
                    &&& got.y_moving == ls.y_moving
                }
            }
        }),
{
}

/// A chrominance cluster: 8 bits of its first sample, held between 17 and 239, 8 bits of
/// its address, which counts from 4, its codes. Addresses go from 4 to 54.
pub proof fn chroma_cluster_is_read(
    stream: Seq<bool>,
    ctx: LineContext,
    ls: LineState,
    pcm: nat,
    addr: nat,
    first: u8,
    e: int,
)
    requires
        bits::number_at(stream, ls.pos, 8) == Some(pcm),
        bits::number_at(stream, ls.pos + 8, 8) == Some(addr),
        is_clipped(first, pcm as int, 17, 239),
        0 <= e < ls.c_moving.len(),
    ensures
        ({
            let (end, got) = decoder::chroma_cluster_at(stream, ctx, ls);
            let (stop, p3, st) = decoder::codes_at(
                stream,
                ls.pos + 16,
                Plane {
                    luma: false,
                    prev: None,
                    prev_not_trans: Seq::new(256, |i: int| false),
                    parity: ctx.parity,
                    subsampled: ctx.subsampled,
                },
                Cluster {
                    line: ls.c.update(addr - 4, first),
                    not_trans: Seq::new(256, |i: int| false),
                    q: addr - 4,
                    last: addr - 4,
                    extras: 0,
                },
            );
            &&& addr < 4 || addr > 54 ==> end == EndSpec::Fail(
                DecodeError::ChromaAddress { addr: addr as usize },
            )
            &&& 4 <= addr <= 54 ==> {
                &&& end == stop
                &&& got.pos == p3
                &&& got.y == ls.y && got.y_moving == ls.y_moving
                &&& got.not_trans == ls.not_trans
                &&& got.stats.chroma_clusters == ls.stats.chroma_clusters + 1
                &&& got.stats.luma_clusters == ls.stats.luma_clusters
                &&& got.stats.extra_elements == ls.stats.extra_elements + st.extras
                &&& end is Eoc || end is Sync ==> {
                    &&& got.c == st.line
                    &&& got.c_moving.len() == ls.c_moving.len()
                    &&& got.c_moving[e] == (addr - 4 <= e <= st.last || ls.c_moving[e])
                }
                &&& end is Eof || end is Fail ==> got.c == ls.c && got.c_moving == ls.c_moving
            }
        }),
{
    assert(crate::codec::dpcm::none_omitted() =~= Seq::new(256, |i: int| false));
}

} // verus!
