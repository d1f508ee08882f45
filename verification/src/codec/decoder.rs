//! H.120 clause 1 decoder: parser of the video multiplex and reconstruction.
//!
//! The decoder is strictly determined by the Recommendation: LST/FST (§1.5.2),
//! cluster addressing (§1.5.3), color data (§1.5.4), PCM lines (§1.5.5), DPCM
//! (§1.4.1.3), subsampling (§1.4.1.4).

use vstd::prelude::*;
use vstd::arithmetic::power2::*;
use crate::codec;
use crate::codec::bitio::BitReader;
use crate::codec::bits;
use crate::codec::dpcm;
use crate::codec::dpcm::{Cluster, LineContext, Plane};
use crate::codec::tables;
use crate::codec::tables::{Vlc, VlcRead};
use crate::codec::{
    clamp_c, clamp_y, d_value, interpolate_omitted_field, predict_luma, spec_line_number,
    FieldStore, FieldView, BLANKING, CHROMA_ADDR_BASE, CHROMA_WIDTH, C_MAX, C_MIN,
    LINES_PER_FIELD, WIDTH, Y_MAX, Y_MIN,
};

verus! {

/// What a decoder has met in a stream.
#[derive(Debug, Clone, Copy)]
pub struct DecStats {
    pub frames: u64,
    pub fields_decoded: u64,
    pub fields_omitted: u64,
    pub pcm_lines: u64,
    pub empty_lines: u64,
    pub moving_lines: u64,
    pub subsampled_lines: u64,
    pub luma_clusters: u64,
    pub chroma_clusters: u64,
    pub extra_elements: u64,
    pub a_flag_fields: u64,
    pub total_bits: u64,
}

/// The counters of a decoder.
pub struct DecCounts {
    pub frames: nat,
    pub fields_decoded: nat,
    pub fields_omitted: nat,
    pub pcm_lines: nat,
    pub empty_lines: nat,
    pub moving_lines: nat,
    pub subsampled_lines: nat,
    pub luma_clusters: nat,
    pub chroma_clusters: nat,
    pub extra_elements: nat,
    pub a_flag_fields: nat,
    pub total_bits: nat,
}

impl DecCounts {
    /// No counter exceeds `n`.
    pub open spec fn within(self, n: int) -> bool {
        &&& self.frames <= self.fields_decoded
        &&& self.fields_omitted <= self.fields_decoded
        &&& self.fields_decoded <= n
        &&& self.pcm_lines <= n
        &&& self.empty_lines <= n
        &&& self.moving_lines <= n
        &&& self.subsampled_lines <= n
        &&& self.luma_clusters <= n
        &&& self.chroma_clusters <= n
        &&& self.extra_elements <= n
        &&& self.a_flag_fields <= n
    }
}

impl View for DecStats {
    type V = DecCounts;

    open spec fn view(&self) -> DecCounts {
        DecCounts {
            frames: self.frames as nat,
            fields_decoded: self.fields_decoded as nat,
            fields_omitted: self.fields_omitted as nat,
            pcm_lines: self.pcm_lines as nat,
            empty_lines: self.empty_lines as nat,
            moving_lines: self.moving_lines as nat,
            subsampled_lines: self.subsampled_lines as nat,
            luma_clusters: self.luma_clusters as nat,
            chroma_clusters: self.chroma_clusters as nat,
            extra_elements: self.extra_elements as nat,
            a_flag_fields: self.a_flag_fields as nat,
            total_bits: self.total_bits as nat,
        }
    }
}

/// All counters at zero.
pub open spec fn no_counts() -> DecCounts {
    DecCounts {
        frames: 0,
        fields_decoded: 0,
        fields_omitted: 0,
        pcm_lines: 0,
        empty_lines: 0,
        moving_lines: 0,
        subsampled_lines: 0,
        luma_clusters: 0,
        chroma_clusters: 0,
        extra_elements: 0,
        a_flag_fields: 0,
        total_bits: 0,
    }
}

impl Default for DecStats {
    fn default() -> (stats: Self)
        ensures
            stats@ == no_counts(),
    {
        DecStats {
            frames: 0,
            fields_decoded: 0,
            fields_omitted: 0,
            pcm_lines: 0,
            empty_lines: 0,
            moving_lines: 0,
            subsampled_lines: 0,
            luma_clusters: 0,
            chroma_clusters: 0,
            extra_elements: 0,
            a_flag_fields: 0,
            total_bits: 0,
        }
    }
}

/// Why a stream cannot be decoded.
#[derive(Clone, Copy, Debug, PartialEq, Eq, Structural)]
pub enum DecodeError {
    /// No field start code where one is due.
    FstExpected { bit: u64 },
    /// The first LST of a field start code has a line code other than 111.
    FstLineCode { found: u32 },
    /// The central byte of a field start code is neither FST-1 nor FST-2.
    FstMiddleByte { found: u32 },
    /// The second LST of a field start code is malformed.
    FstSecondLst,
    /// The second LST of a field start code has a line code other than 000.
    FstSecondLineCode,
    /// No line start code where one is due.
    LstMissing { line: usize },
    /// A line start code of another line.
    LstUnexpected { line: usize, found: u32, expected: u32 },
    /// A luminance cluster starts outside the line.
    LumaAddress { addr: usize },
    /// A chrominance cluster starts outside the line.
    ChromaAddress { addr: usize },
    /// A luminance extra element outside its cluster.
    LumaExtra { position: usize },
    /// A luminance cluster runs past the end of the line.
    LumaOverrun { position: usize },
    /// A chrominance extra element outside its cluster.
    ChromaExtra { position: usize },
    /// A chrominance cluster runs past the end of the line.
    ChromaOverrun { position: usize },
    /// A PCM line whose second byte is not 0xFF.
    PcmMarker { found: u32 },
    /// A variable-length code with more zeros than any code of the tables.
    InvalidCode,
}

/// LST: 12 zeros + 1 + AAA + S + line code (Figure 4 and §1.5.2.1).
struct RawLst {
    aaa: u32,
    s: bool,
    line_code: u32,
}

enum LstRead {
    Eof,
    Invalid,
    Lst(RawLst),
}

struct FstInfo {
    /// 0 = FST-1 (field 1), 1 = FST-2 (field 2).
    field: usize,
    /// A bit: transmitter buffer < 6 kbit (Figure 4).
    a_flag: bool,
    /// S bit of the first line of the field.
    s_first: bool,
}

/// How a cluster ends: by an explicit EOC code, or by a synchronization word
/// (EOC omitted on the last cluster of the line, §1.4.1.3.2).
enum ClusterEnd {
    Eoc,
    Sync,
}

/// What one field of the stream gives.
enum FieldRead {
    /// A complete frame.
    Frame([FieldStore; 2]),
    /// No frame yet.
    More,
    /// The end of the stream.
    End,
}

struct EndInfo {
    span_end: usize,
    kind: ClusterEnd,
}

/// A line start code as it stands in a stream.
pub enum LstSpec {
    /// The stream ends inside the code.
    Eof,
    /// There is no line start code.
    Invalid,
    Lst { aaa: nat, s: bool, line_code: nat },
}

/// The number in the next `n` bits and the position behind it; the position
/// stays where fewer bits are left.
pub open spec fn take_at(stream: Seq<bool>, p: nat, n: nat) -> (Option<nat>, nat) {
    match bits::number_at(stream, p, n) {
        Some(v) => (Some(v), p + n),
        None => (None, p),
    }
}

/// The line start code at `p` and the position behind it.
pub open spec fn lst_at(stream: Seq<bool>, p: nat) -> (LstSpec, nat) {
    match take_at(stream, p, 13) {
        (None, p1) => (LstSpec::Eof, p1),
        (Some(prefix), p1) => if prefix != 1 {
            (LstSpec::Invalid, p1)
        } else {
            let (aaa, p2) = take_at(stream, p1, 3);
            let (s, p3) = take_at(stream, p2, 1);
            let (line_code, p4) = take_at(stream, p3, 3);
            match (aaa, s, line_code) {
                (Some(aaa), Some(s), Some(line_code)) => (
                    LstSpec::Lst { aaa, s: s == 1, line_code },
                    p4,
                ),
                _ => (LstSpec::Eof, p4),
            }
        },
    }
}

/// A field start code as it stands in a stream.
pub enum FstSpec {
    /// The stream ends before the code does.
    End,
    Fst { field: int, a_flag: bool, s_first: bool },
    Fail(DecodeError),
}

/// The field start code at `p` (Figure 4) and the position behind it.
pub open spec fn fst_at(stream: Seq<bool>, p: nat) -> (FstSpec, nat) {
    if p + 48 > stream.len() {
        (FstSpec::End, p)
    } else {
        match lst_at(stream, p) {
            (LstSpec::Eof, p1) => (FstSpec::End, p1),
            (LstSpec::Invalid, p1) => (
                FstSpec::Fail(DecodeError::FstExpected { bit: (p1 - 13) as u64 }),
                p1,
            ),
            (LstSpec::Lst { aaa, s, line_code }, p1) => if line_code != 7 {
                (FstSpec::Fail(DecodeError::FstLineCode { found: line_code as u32 }), p1)
            } else {
                match take_at(stream, p1, 8) {
                    (None, p2) => (FstSpec::End, p2),
                    (Some(mid), p2) => if mid != 0x0F && mid != 0x06 {
                        (FstSpec::Fail(DecodeError::FstMiddleByte { found: mid as u32 }), p2)
                    } else {
                        let field = if mid == 0x0F {
                            0int
                        } else {
                            1int
                        };
                        match lst_at(stream, p2) {
                            (LstSpec::Eof, p3) => (FstSpec::End, p3),
                            (LstSpec::Invalid, p3) => (
                                FstSpec::Fail(DecodeError::FstSecondLst),
                                p3,
                            ),
                            (LstSpec::Lst { aaa: aaa2, s: s2, line_code: code2 }, p3) => if code2
                                != 0 {
                                (FstSpec::Fail(DecodeError::FstSecondLineCode), p3)
                            } else {
                                (FstSpec::Fst { field, a_flag: aaa == 7, s_first: s2 }, p3)
                            },
                        }
                    },
                }
            },
        }
    }
}

/// A plausible field start code stands at `p`: line code 111, AAA 000 or 111,
/// a central byte 0000F11F whose F is that of the first LST, and an LST of
/// line code 000.
pub open spec fn looks_like_fst_at(stream: Seq<bool>, p: nat) -> bool {
    match lst_at(stream, p) {
        (LstSpec::Lst { aaa, s, line_code }, p1) => {
            &&& line_code == 7
            &&& (aaa == 0 || aaa == 7)
            &&& match take_at(stream, p1, 8) {
                (Some(mid), p2) => {
                    &&& (mid == 0x0F && s) || (mid == 0x06 && !s)
                    &&& match lst_at(stream, p2) {
                        (LstSpec::Lst { aaa: aaa2, s: s2, line_code: code2 }, p3) => code2 == 0
                            && aaa2 == 0,
                        _ => false,
                    }
                },
                _ => false,
            }
        },
        _ => false,
    }
}

/// The first position from `p` on at which a field start code stands.
pub open spec fn first_fst(stream: Seq<bool>, p: nat) -> Option<nat>
    decreases stream.len() - p,
{
    if p + 48 > stream.len() {
        None
    } else if looks_like_fst_at(stream, p) {
        Some(p)
    } else {
        first_fst(stream, p + 1)
    }
}

/// A synchronization word (≥ 12 zeros) or the padding at the end of the stream
/// stands at `p`.
pub open spec fn sync_at(stream: Seq<bool>, p: nat) -> bool {
    forall|i: int| p <= i < p + 12 && i < stream.len() ==> !#[trigger] stream[i]
}

/// How a cluster ends.
pub enum EndSpec {
    /// An end-of-cluster code.
    Eoc,
    /// A synchronization word.
    Sync,
    /// The stream is exhausted.
    Eof,
    Fail(DecodeError),
}

/// The error of an element that the line has no room for.
pub open spec fn step_error(plane: Plane, st: Cluster, extra: bool) -> DecodeError {
    if extra {
        if plane.luma {
            DecodeError::LumaExtra { position: (st.q + 1) as usize }
        } else {
            DecodeError::ChromaExtra { position: (st.q + 1) as usize }
        }
    } else {
        if plane.luma {
            DecodeError::LumaOverrun { position: dpcm::target(plane, st) as usize }
        } else {
            DecodeError::ChromaOverrun { position: dpcm::target(plane, st) as usize }
        }
    }
}

/// The codes of a cluster from position `p` on: how it ends, the position
/// behind it, and the cluster.
pub open spec fn codes_at(stream: Seq<bool>, p: nat, plane: Plane, st: Cluster) -> (
    EndSpec,
    nat,
    Cluster,
)
    decreases stream.len() - p,
{
    if sync_at(stream, p) {
        (EndSpec::Sync, p, st)
    } else {
        match tables::vlc_at(stream, p, plane.subsampled) {
            (VlcRead::Eof, p1) => (EndSpec::Eof, p1, st),
            (VlcRead::Invalid, p1) => (EndSpec::Fail(DecodeError::InvalidCode), p1, st),
            (VlcRead::Sym(Vlc::Eoc), p1) => (EndSpec::Eoc, p1, st),
            (VlcRead::Sym(Vlc::Level { level, extra }), p1) => match dpcm::step(
                plane,
                st,
                level as int,
                extra,
            ) {
                None => (EndSpec::Fail(step_error(plane, st, extra)), p1, st),
                Some(next) => codes_at(stream, p1, plane, next),
            },
        }
    }
}

/// A line that is being decoded.
#[verifier::ext_equal]
pub struct LineState {
    pub pos: nat,
    pub y: Seq<u8>,
    pub c: Seq<u8>,
    pub y_moving: Seq<bool>,
    pub c_moving: Seq<bool>,
    pub not_trans: Seq<bool>,
    pub stats: DecCounts,
}

/// A luminance cluster: PCM, address, codes (§1.5.3). A cluster that does not
/// end leaves the line as it was.
pub open spec fn luma_cluster_at(stream: Seq<bool>, ctx: LineContext, ls: LineState) -> (
    EndSpec,
    LineState,
) {
    match take_at(stream, ls.pos, 8) {
        (None, p1) => (EndSpec::Eof, LineState { pos: p1, ..ls }),
        (Some(pcm), p1) => match take_at(stream, p1, 8) {
            (None, p2) => (EndSpec::Eof, LineState { pos: p2, ..ls }),
            (Some(addr), p2) => if addr >= WIDTH - 1 {
                (
                    EndSpec::Fail(DecodeError::LumaAddress { addr: addr as usize }),
                    LineState { pos: p2, ..ls },
                )
            } else {
                let first = codec::clip(pcm as int, Y_MIN, Y_MAX);
                let (end, p3, st) = codes_at(
                    stream,
                    p2,
                    ctx.luma(),
                    dpcm::opened(ls.y, ls.not_trans, addr as int, first),
                );
                let read = LineState {
                    pos: p3,
                    stats: DecCounts {
                        luma_clusters: ls.stats.luma_clusters + 1,
                        extra_elements: ls.stats.extra_elements + st.extras,
                        ..ls.stats
                    },
                    ..ls
                };
                if end is Eoc || end is Sync {
                    (
                        end,
                        LineState {
                            y: st.line,
                            y_moving: dpcm::marked(ls.y_moving, addr as int, st.last),
                            not_trans: st.not_trans,
                            ..read
                        },
                    )
                } else {
                    (end, read)
                }
            },
        },
    }
}

/// A chrominance cluster (§1.5.4): the same structure, with addresses that
/// start at 4.
pub open spec fn chroma_cluster_at(stream: Seq<bool>, ctx: LineContext, ls: LineState) -> (
    EndSpec,
    LineState,
) {
    match take_at(stream, ls.pos, 8) {
        (None, p1) => (EndSpec::Eof, LineState { pos: p1, ..ls }),
        (Some(pcm), p1) => match take_at(stream, p1, 8) {
            (None, p2) => (EndSpec::Eof, LineState { pos: p2, ..ls }),
            (Some(addr), p2) => if addr < CHROMA_ADDR_BASE || addr >= CHROMA_ADDR_BASE
                + CHROMA_WIDTH - 1 {
                (
                    EndSpec::Fail(DecodeError::ChromaAddress { addr: addr as usize }),
                    LineState { pos: p2, ..ls },
                )
            } else {
                let first = codec::clip(pcm as int, C_MIN, C_MAX);
                let sample = addr - CHROMA_ADDR_BASE;
                let (end, p3, st) = codes_at(
                    stream,
                    p2,
                    ctx.chroma(),
                    dpcm::opened(ls.c, dpcm::none_omitted(), sample, first),
                );
                let read = LineState {
                    pos: p3,
                    stats: DecCounts {
                        chroma_clusters: ls.stats.chroma_clusters + 1,
                        extra_elements: ls.stats.extra_elements + st.extras,
                        ..ls.stats
                    },
                    ..ls
                };
                if end is Eoc || end is Sync {
                    (
                        end,
                        LineState {
                            c: st.line,
                            c_moving: dpcm::marked(ls.c_moving, sample, st.last),
                            ..read
                        },
                    )
                } else {
                    (end, read)
                }
            },
        },
    }
}

/// How the decoding of a line or of a field ends.
pub enum LineEnd {
    Done,
    /// The stream is exhausted.
    Eof,
    Fail(DecodeError),
}

/// The clusters of a line from its state on: luminance clusters, then, behind
/// the color escape, chrominance clusters.
pub open spec fn clusters_at(
    stream: Seq<bool>,
    ctx: LineContext,
    in_chroma: bool,
    ls: LineState,
) -> (LineEnd, LineState)
    decreases stream.len() - ls.pos,
    via clusters_at_decreases
{
    if sync_at(stream, ls.pos) {
        (LineEnd::Done, ls)
    } else if !in_chroma {
        match luma_cluster_at(stream, ctx, ls) {
            (EndSpec::Eof, ls1) => (LineEnd::Eof, ls1),
            (EndSpec::Fail(e), ls1) => (LineEnd::Fail(e), ls1),
            (EndSpec::Sync, ls1) => (LineEnd::Done, ls1),
            (EndSpec::Eoc, ls1) => if bits::number_at(stream, ls1.pos, 8) == Some(0x09nat) {
                clusters_at(stream, ctx, true, LineState { pos: ls1.pos + 8, ..ls1 })
            } else {
                clusters_at(stream, ctx, false, ls1)
            },
        }
    } else {
        match chroma_cluster_at(stream, ctx, ls) {
            (EndSpec::Eof, ls1) => (LineEnd::Eof, ls1),
            (EndSpec::Fail(e), ls1) => (LineEnd::Fail(e), ls1),
            (EndSpec::Sync, ls1) => (LineEnd::Done, ls1),
            (EndSpec::Eoc, ls1) => clusters_at(stream, ctx, true, ls1),
        }
    }
}

#[via_fn]
proof fn clusters_at_decreases(
    stream: Seq<bool>,
    ctx: LineContext,
    in_chroma: bool,
    ls: LineState,
) {
    lemma_cluster_progress(stream, ctx, ls);
}

/// The codes of a cluster are read forwards, within the stream.
pub proof fn lemma_codes_progress(stream: Seq<bool>, p: nat, plane: Plane, st: Cluster)
    requires
        p <= stream.len(),
    ensures
        p <= codes_at(stream, p, plane, st).1 <= stream.len(),
        codes_at(stream, p, plane, st).2.extras <= st.extras + (codes_at(stream, p, plane, st).1
            - p),
    decreases stream.len() - p,
{
    if !sync_at(stream, p) {
        tables::lemma_zero_run_in_range(stream, p + 1);
        match tables::vlc_at(stream, p, plane.subsampled) {
            (VlcRead::Sym(Vlc::Level { level, extra }), p1) => {
                match dpcm::step(plane, st, level as int, extra) {
                    Some(next) => lemma_codes_progress(stream, p1, plane, next),
                    None => {},
                }
            },
            _ => {},
        }
    }
}

/// A cluster is read forwards, within the stream; one that is read takes at
/// least 16 bits.
pub proof fn lemma_cluster_progress(stream: Seq<bool>, ctx: LineContext, ls: LineState)
    ensures
        ls.pos <= luma_cluster_at(stream, ctx, ls).1.pos,
        ls.pos <= chroma_cluster_at(stream, ctx, ls).1.pos,
        ls.pos <= stream.len() ==> luma_cluster_at(stream, ctx, ls).1.pos <= stream.len()
            && chroma_cluster_at(stream, ctx, ls).1.pos <= stream.len(),
        luma_cluster_at(stream, ctx, ls).0 is Eoc || luma_cluster_at(stream, ctx, ls).0 is Sync
            ==> ls.pos + 16 <= luma_cluster_at(stream, ctx, ls).1.pos <= stream.len(),
        chroma_cluster_at(stream, ctx, ls).0 is Eoc || chroma_cluster_at(stream, ctx, ls).0 is Sync
            ==> ls.pos + 16 <= chroma_cluster_at(stream, ctx, ls).1.pos <= stream.len(),
{
    match take_at(stream, ls.pos, 8) {
        (Some(pcm), p1) => match take_at(stream, p1, 8) {
            (Some(addr), p2) => {
                let first_y = codec::clip(pcm as int, Y_MIN, Y_MAX);
                lemma_codes_progress(
                    stream,
                    p2,
                    ctx.luma(),
                    dpcm::opened(ls.y, ls.not_trans, addr as int, first_y),
                );
                let first_c = codec::clip(pcm as int, C_MIN, C_MAX);
                lemma_codes_progress(
                    stream,
                    p2,
                    ctx.chroma(),
                    dpcm::opened(ls.c, dpcm::none_omitted(), addr - CHROMA_ADDR_BASE, first_c),
                );
            },
            _ => {},
        },
        _ => {},
    }
}

/// The state of a decoder.
#[verifier::ext_equal]
pub struct DecView {
    /// The position in the stream.
    pub pos: nat,
    /// The two reconstructed fields.
    pub fields: Seq<FieldView>,
    /// The number (0/1) of the last field start code.
    pub last_fst: Option<int>,
    pub synced: bool,
    /// The elements of the previous line that were not transmitted.
    pub prev_not_trans: Seq<bool>,
    pub stats: DecCounts,
}

/// The contents of a pair of fields.
pub open spec fn fields_of(store: [FieldStore; 2]) -> Seq<FieldView> {
    Seq::new(2, |f: int| store[f]@)
}

/// The field with line `l` replaced by that of a line state.
pub open spec fn field_with_line(field: FieldView, l: int, ls: LineState) -> FieldView {
    FieldView {
        y: field.y.update(l, ls.y),
        c: field.c.update(l, ls.c),
        y_moving: field.y_moving.update(l, ls.y_moving),
        c_moving: field.c_moving.update(l, ls.c_moving),
    }
}

impl DecView {
    /// Line `l` of field `f`, about to be decoded.
    pub open spec fn line(self, f: int, l: int, not_trans: Seq<bool>) -> LineState {
        LineState {
            pos: self.pos,
            y: self.fields[f].y[l],
            c: self.fields[f].c[l],
            y_moving: self.fields[f].y_moving[l],
            c_moving: self.fields[f].c_moving[l],
            not_trans,
            stats: self.stats,
        }
    }

    /// The state with line `l` of field `f`, the position and the counters
    /// replaced by those of a line state.
    pub open spec fn with_line(self, f: int, l: int, ls: LineState) -> DecView {
        DecView {
            pos: ls.pos,
            fields: self.fields.update(f, field_with_line(self.fields[f], l, ls)),
            stats: ls.stats,
            ..self
        }
    }

    /// What line `l` of field `f` is decoded from.
    pub open spec fn context(self, f: int, l: int, subsampled: bool) -> LineContext {
        LineContext {
            prev: if l > 0 {
                Some(self.fields[f].y[l - 1])
            } else {
                None
            },
            prev_not_trans: self.prev_not_trans,
            parity: codec::line_number(f, l) % 2,
            subsampled,
        }
    }

    /// The state has two whole fields, and a mark for each element of a line.
    pub open spec fn wf(self) -> bool {
        &&& self.fields.len() == 2
        &&& self.fields[0].wf()
        &&& self.fields[1].wf()
        &&& self.prev_not_trans.len() == WIDTH
        &&& self.last_fst matches Some(f) ==> (f == 0 || f == 1)
    }

    /// An empty line: nothing changes.
    pub open spec fn with_empty_line(self) -> DecView {
        DecView {
            prev_not_trans: dpcm::none_omitted(),
            stats: DecCounts { empty_lines: self.stats.empty_lines + 1, ..self.stats },
            ..self
        }
    }
}

/// The byte `i` bytes behind position `p`.
pub open spec fn byte_at(stream: Seq<bool>, p: nat, i: int) -> u8 {
    bits::value_of(stream.subrange(p + 8 * i, p + 8 * i + 8)) as u8
}

/// How many whole bytes stand from position `p` on.
pub open spec fn bytes_left(stream: Seq<bool>, p: nat) -> int {
    if p <= stream.len() {
        (stream.len() - p) / 8
    } else {
        0
    }
}

/// The luminance samples of a PCM line whose bytes start at `p`; `before` where the
/// stream ends before.
pub open spec fn pcm_luma(stream: Seq<bool>, p: nat, before: Seq<u8>) -> Seq<u8> {
    let n = bytes_left(stream, p);
    Seq::new(
        WIDTH as nat,
        |e: int|
            if n >= WIDTH && e == WIDTH - 1 {
                BLANKING
            } else if e < n {
                byte_at(stream, p, e)
            } else {
                before[e]
            },
    )
}

/// The chrominance samples of a PCM line whose bytes start at `p`.
pub open spec fn pcm_chroma(stream: Seq<bool>, p: nat, before: Seq<u8>) -> Seq<u8> {
    let n = bytes_left(stream, p);
    Seq::new(
        CHROMA_WIDTH as nat,
        |e: int|
            if WIDTH + e < n {
                byte_at(stream, p, WIDTH + e)
            } else {
                before[e]
            },
    )
}

/// A PCM line (Figure 6): markers 0xFF 0xFF, 256 luminance bytes of which the
/// last stands for blanking, 52 chrominance bytes (§1.5.5). Where the stream
/// ends inside the line, the bytes that were there are stored.
pub open spec fn pcm_line_at(stream: Seq<bool>, dv: DecView, f: int, l: int) -> (LineEnd, DecView) {
    match take_at(stream, dv.pos + 8, 8) {
        (None, p1) => (LineEnd::Eof, DecView { pos: p1, ..dv }),
        (Some(marker), p1) => if marker != 0xFF {
            (LineEnd::Fail(DecodeError::PcmMarker { found: marker as u32 }), DecView { pos: p1, ..dv })
        } else {
            let n = bytes_left(stream, p1);
            let stats = DecCounts { pcm_lines: dv.stats.pcm_lines + 1, ..dv.stats };
            let field = dv.fields[f];
            let y = pcm_luma(stream, p1, field.y[l]);
            let c = pcm_chroma(stream, p1, field.c[l]);
            if n < WIDTH + CHROMA_WIDTH {
                (
                    LineEnd::Eof,
                    DecView {
                        pos: p1 + 8 * n as nat,
                        fields: dv.fields.update(
                            f,
                            FieldView { y: field.y.update(l, y), c: field.c.update(l, c), ..field },
                        ),
                        stats,
                        ..dv
                    },
                )
            } else {
                (
                    LineEnd::Done,
                    DecView {
                        pos: p1 + 8 * (WIDTH + CHROMA_WIDTH) as nat,
                        fields: dv.fields.update(
                            f,
                            FieldView {
                                y: field.y.update(l, y),
                                c: field.c.update(l, c),
                                y_moving: field.y_moving.update(
                                    l,
                                    Seq::new(WIDTH as nat, |e: int| false),
                                ),
                                c_moving: field.c_moving.update(
                                    l,
                                    Seq::new(CHROMA_WIDTH as nat, |e: int| false),
                                ),
                            },
                        ),
                        prev_not_trans: dpcm::none_omitted(),
                        stats,
                        ..dv
                    },
                )
            }
        },
    }
}

/// The contents of a line, behind its line start code: a PCM line, an empty
/// line, or clusters, told apart by the next 8 bits.
pub open spec fn line_at(stream: Seq<bool>, dv: DecView, f: int, l: int, subsampled: bool) -> (
    LineEnd,
    DecView,
) {
    match bits::number_at(stream, dv.pos, 8) {
        None => (LineEnd::Done, dv.with_empty_line()),
        Some(first) => if first == 0xFF {
            pcm_line_at(stream, dv, f, l)
        } else if sync_at(stream, dv.pos) {
            (LineEnd::Done, dv.with_empty_line())
        } else {
            let in_chroma = first == 0x09;
            let start = LineState {
                pos: if in_chroma {
                    dv.pos + 8
                } else {
                    dv.pos
                },
                stats: DecCounts {
                    moving_lines: dv.stats.moving_lines + 1,
                    subsampled_lines: dv.stats.subsampled_lines + if subsampled {
                        1nat
                    } else {
                        0nat
                    },
                    ..dv.stats
                },
                ..dv.line(f, l, dpcm::none_omitted())
            };
            let (end, ls) = clusters_at(stream, dv.context(f, l, subsampled), in_chroma, start);
            if end is Done {
                (
                    end,
                    DecView {
                        prev_not_trans: ls.not_trans,
                        ..dv.with_line(f, l, LineState { y: dpcm::blanked(ls.y), ..ls })
                    },
                )
            } else {
                (end, dv.with_line(f, l, ls))
            }
        },
    }
}

/// The lines of a field from line `l` on; `s_first` is the subsampling bit of
/// the first line, which its field start code carries.
pub open spec fn lines_at(stream: Seq<bool>, dv: DecView, f: int, l: int, s_first: bool) -> (
    LineEnd,
    DecView,
)
    decreases LINES_PER_FIELD - l,
{
    if l >= LINES_PER_FIELD {
        (LineEnd::Done, dv)
    } else if l <= 0 {
        match line_at(stream, dv, f, 0, s_first) {
            (LineEnd::Done, dv1) => lines_at(stream, dv1, f, 1, s_first),
            out => out,
        }
    } else {
        match lst_at(stream, dv.pos) {
            (LstSpec::Eof, p1) => (LineEnd::Eof, DecView { pos: p1, ..dv }),
            (LstSpec::Invalid, p1) => (
                LineEnd::Fail(
                    DecodeError::LstMissing { line: codec::line_number(f, l) as usize },
                ),
                DecView { pos: p1, ..dv },
            ),
            (LstSpec::Lst { aaa, s, line_code }, p1) => if aaa != 0 || line_code
                != codec::line_number(f, l) % 8 {
                (
                    LineEnd::Fail(
                        DecodeError::LstUnexpected {
                            line: codec::line_number(f, l) as usize,
                            found: line_code as u32,
                            expected: (codec::line_number(f, l) % 8) as u32,
                        },
                    ),
                    DecView { pos: p1, ..dv },
                )
            } else {
                match line_at(stream, DecView { pos: p1, ..dv }, f, l, s) {
                    (LineEnd::Done, dv1) => lines_at(stream, dv1, f, l + 1, s_first),
                    out => out,
                }
            },
        }
    }
}

/// The 143 lines of field `f`.
#[verifier::opaque]
pub open spec fn field_at(stream: Seq<bool>, dv: DecView, f: int, s_first: bool) -> (
    LineEnd,
    DecView,
) {
    lines_at(
        stream,
        DecView {
            fields: dv.fields.update(f, dv.fields[f].at_rest()),
            prev_not_trans: dpcm::none_omitted(),
            ..dv
        },
        f,
        0,
        s_first,
    )
}

/// What a call of the decoder gives.
pub enum FrameOut {
    /// A frame: its two fields.
    Frame(Seq<FieldView>),
    /// The end of the stream.
    End,
    Fail(DecodeError),
}

/// What a complete field `f` gives: the field before it is interpolated if it
/// was omitted. `b1` is the field of the same number before this one. A frame
/// is complete with its field 2, or with the field 1 that reveals the omission
/// of its field 2: the frame is then `b1` and the interpolated field.
pub open spec fn field_done(dv: DecView, f: int, omitted: bool, b1: FieldView) -> (
    Option<FrameOut>,
    DecView,
) {
    let emits = f == 1 || omitted;
    let done = DecView {
        fields: if omitted {
            dv.fields.update(
                1 - f,
                codec::interpolated(dv.fields[1 - f], 1 - f, b1, dv.fields[f]),
            )
        } else {
            dv.fields
        },
        stats: DecCounts {
            fields_decoded: dv.stats.fields_decoded + 1,
            fields_omitted: dv.stats.fields_omitted + if omitted {
                1nat
            } else {
                0nat
            },
            frames: dv.stats.frames + if emits {
                1nat
            } else {
                0nat
            },
            ..dv.stats
        },
        ..dv
    };
    if f == 1 {
        (Some(FrameOut::Frame(done.fields)), done)
    } else if omitted {
        (Some(FrameOut::Frame(seq![b1, done.fields[1]])), done)
    } else {
        (None, done)
    }
}

/// One field from its field start code on. A field that follows a field of the
/// same number reveals that the field between them was omitted (§1.5.2.2).
/// `None` asks for the next field.
pub open spec fn one_field(stream: Seq<bool>, dv: DecView) -> (Option<FrameOut>, DecView) {
    match fst_at(stream, dv.pos) {
        (FstSpec::End, p1) => (
            Some(FrameOut::End),
            DecView { pos: p1, stats: DecCounts { total_bits: p1, ..dv.stats }, ..dv },
        ),
        (FstSpec::Fail(e), p1) => (Some(FrameOut::Fail(e)), DecView { pos: p1, ..dv }),
        (FstSpec::Fst { field: f, a_flag, s_first }, p1) => {
            let omitted = dv.last_fst == Some(f);
            let b1 = dv.fields[f];
            let dv1 = DecView {
                pos: p1,
                last_fst: Some(f),
                stats: DecCounts {
                    a_flag_fields: dv.stats.a_flag_fields + if a_flag {
                        1nat
                    } else {
                        0nat
                    },
                    ..dv.stats
                },
                ..dv
            };
            match field_at(stream, dv1, f, s_first) {
                (LineEnd::Fail(e), dv2) => (Some(FrameOut::Fail(e)), dv2),
                (LineEnd::Eof, dv2) => (
                    Some(FrameOut::End),
                    DecView { stats: DecCounts { total_bits: dv2.pos, ..dv2.stats }, ..dv2 },
                ),
                (LineEnd::Done, dv2) => field_done(
                    DecView { stats: DecCounts { total_bits: dv2.pos, ..dv2.stats }, ..dv2 },
                    f,
                    omitted,
                    b1,
                ),
            }
        },
    }
}

/// The first position from `p` on that leaves no room for a field start code.
pub open spec fn search_end(stream: Seq<bool>, p: nat) -> nat {
    if p + 48 <= stream.len() {
        (stream.len() - 47) as nat
    } else {
        p
    }
}

/// The decoder at the first field start code of the stream, if it was not
/// there yet. Where there is none, the decoder moves to where none can start.
pub open spec fn synchronized(stream: Seq<bool>, dv: DecView) -> DecView {
    if dv.synced {
        dv
    } else {
        match first_fst(stream, dv.pos) {
            Some(p) => DecView { pos: p, synced: true, ..dv },
            None => DecView { pos: search_end(stream, dv.pos), ..dv },
        }
    }
}

/// The next frame of the stream. (A field 1 that follows a field 2 completes
/// no frame; the field after it does.)
pub open spec fn frame_at(stream: Seq<bool>, dv: DecView) -> (FrameOut, DecView) {
    let dv0 = synchronized(stream, dv);
    if !dv0.synced {
        (FrameOut::End, dv0)
    } else {
        match one_field(stream, dv0) {
            (Some(out), dv1) => (out, dv1),
            (None, dv1) => match one_field(stream, dv1) {
                (Some(out), dv2) => (out, dv2),
                (None, dv2) => (FrameOut::End, dv2),
            },
        }
    }
}

/// A decoder that has read nothing yet.
pub open spec fn fresh_decoder() -> DecView {
    DecView {
        pos: 0,
        fields: seq![codec::blank_field(), codec::blank_field()],
        last_fst: None,
        synced: false,
        prev_not_trans: dpcm::none_omitted(),
        stats: no_counts(),
    }
}

/// Where a decoder is in its stream, and what it remembers of it.
pub struct Reading<'a> {
    r: BitReader<'a>,
    /// Number (0/1) of the last FST seen, to detect omitted fields.
    last_fst: Option<usize>,
    synced: bool,
    /// Untransmitted moving elements of the previous line (D → C).
    prev_not_trans: [bool; WIDTH],
}

impl<'a> Reading<'a> {
    /// The bits of the stream.
    pub closed spec fn stream(&self) -> Seq<bool> {
        self.r.bits()
    }

    /// The position in the stream.
    pub closed spec fn pos(&self) -> nat {
        self.r.at()
    }

    /// The number of the last field start code.
    pub closed spec fn last_field(&self) -> Option<int> {
        match self.last_fst {
            Some(f) => Some(f as int),
            None => None,
        }
    }

    /// A field start code was found.
    pub closed spec fn in_sync(&self) -> bool {
        self.synced
    }

    /// The elements of the previous line that were not transmitted.
    pub closed spec fn omitted(&self) -> Seq<bool> {
        self.prev_not_trans@
    }
}

/// Decodes a stream of bytes, frame by frame.
pub struct Decoder<'a> {
    pub reading: Reading<'a>,
    pub store: [FieldStore; 2],
    pub stats: DecStats,
}

impl<'a> View for Decoder<'a> {
    type V = DecView;

    open spec fn view(&self) -> DecView {
        DecView {
            pos: self.reading.pos(),
            fields: fields_of(self.store),
            last_fst: self.reading.last_field(),
            synced: self.reading.in_sync(),
            prev_not_trans: self.reading.omitted(),
            stats: self.stats@,
        }
    }
}

impl<'a> Decoder<'a> {
    /// The bits of the stream.
    pub open spec fn stream(&self) -> Seq<bool> {
        self.reading.stream()
    }

    /// The fields are whole, and the bits of the stream (whole bytes) can be
    /// counted in 64 bits.
    pub open spec fn sound(&self) -> bool {
        &&& self@.wf()
        &&& self.stream().len() <= u64::MAX - 7
        &&& self@.pos <= self.stream().len()
    }

    /// The decoder is sound, and no counter is more than `slack` ahead of the
    /// position.
    pub open spec fn wf_but(&self, slack: int) -> bool {
        self.sound() && self@.stats.within(self@.pos + slack)
    }

    /// The decoder is sound, and no counter runs ahead of the position.
    pub open spec fn wf(&self) -> bool {
        self.wf_but(0)
    }

    /// A decoder at the start of a stream.
    pub fn new(data: &'a [u8]) -> (dec: Self)
        ensures
            dec.stream() == bits::bits_of_bytes(data@),
            dec@ == fresh_decoder(),
            8 * data@.len() <= u64::MAX ==> dec.wf(),
    {
        let dec = Decoder {
            reading: Reading {
                r: BitReader::new(data),
                last_fst: None,
                synced: false,
                prev_not_trans: [false; WIDTH],
            },
            store: [FieldStore::new(), FieldStore::new()],
            stats: DecStats::default(),
        };
        assert(dec@ =~= fresh_decoder());
        dec
    }

    /// True if the current position is a synchronization code (≥ 12 zeros: no
    /// VLC code nor legal PCM value starts that way), or if nothing but zero
    /// padding is left.
    fn at_sync(&mut self) -> (sync: bool)
        requires
            old(self).sound(),
        ensures
            final(self).stream() == old(self).stream(),
            final(self)@ == old(self)@,
            sync == sync_at(old(self).stream(), old(self)@.pos),
    {
        let left = self.reading.r.remaining();
        let n: u8 = if left < 12 {
            left as u8
        } else {
            12
        };
        let ghost (all, p) = (self.reading.r.bits(), self.reading.r.at());
        proof {
            let window = all.subrange(p as int, p + n);
            bits::lemma_value_zero(window);
            assert forall|i: int| 0 <= i < window.len() implies window[i] == all[p + i] by {}
            if sync_at(all, p) {
                assert forall|i: int| 0 <= i < window.len() implies !#[trigger] window[i] by {
                    assert(!all[p + i]);
                }
            }
            if forall|i: int| 0 <= i < window.len() ==> !#[trigger] window[i] {
                assert forall|i: int| p <= i < p + 12 && i < all.len() implies !#[trigger] all[i] by {
                    assert(!window[i - p]);
                }
            }
        }
        match self.reading.r.peek_bits(n) {
            Some(v) => v == 0,
            None => true,
        }
    }

    /// Reads the 20 bits of an LST at the current position.
    fn read_raw_lst(&mut self) -> (lst: LstRead)
        requires
            old(self).sound(),
        ensures
            final(self).stream() == old(self).stream(),
            final(self)@ == (DecView { pos: lst_at(old(self).stream(), old(self)@.pos).1, ..old(self)@ }),
            old(self)@.pos <= final(self)@.pos <= old(self).stream().len(),
            final(self)@.pos <= old(self)@.pos + 20,
            match (lst, lst_at(old(self).stream(), old(self)@.pos).0) {
                (LstRead::Eof, LstSpec::Eof) => true,
                (LstRead::Invalid, LstSpec::Invalid) => final(self)@.pos == old(self)@.pos + 13,
                (LstRead::Lst(l), LstSpec::Lst { aaa, s, line_code }) => l.aaa == aaa && l.s == s
                    && l.line_code == line_code && final(self)@.pos == old(self)@.pos + 20,
                _ => false,
            },
    {
        let prefix = match self.reading.r.read_bits(13) {
            Some(v) => v,
            None => {
                return LstRead::Eof;
            },
        };
        if prefix != 1 {
            return LstRead::Invalid;
        }
        let aaa = self.reading.r.read_bits(3);
        let s = self.reading.r.read_bits(1);
        let line_code = self.reading.r.read_bits(3);
        match (aaa, s, line_code) {
            (Some(aaa), Some(s), Some(line_code)) => LstRead::Lst(
                RawLst { aaa, s: s == 1, line_code },
            ),
            _ => LstRead::Eof,
        }
    }

    /// True if the current position holds a plausible FST (consumes it).
    fn looks_like_fst(&mut self) -> (yes: bool)
        requires
            old(self).wf(),
        ensures
            final(self).stream() == old(self).stream(),
            final(self)@ == (DecView { pos: final(self)@.pos, ..old(self)@ }),
            final(self).wf(),
            yes == looks_like_fst_at(old(self).stream(), old(self)@.pos),
    {
        let lst1 = match self.read_raw_lst() {
            LstRead::Lst(l) => l,
            _ => {
                return false;
            },
        };
        if lst1.line_code != 0b111 || !(lst1.aaa == 0 || lst1.aaa == 0b111) {
            return false;
        }
        let mid = match self.reading.r.read_bits(8) {
            Some(v) => v,
            None => {
                return false;
            },
        };
        if !(mid == 0b0000_1111 || mid == 0b0000_0110) {
            return false;
        }
        // The F bit stands in the S position of the first LST and in the byte.
        if (mid == 0b0000_1111) != lst1.s {
            return false;
        }
        match self.read_raw_lst() {
            LstRead::Lst(l) => l.line_code == 0 && l.aaa == 0,
            _ => false,
        }
    }

    /// Looks for the first FST of the stream (initial synchronization).
    fn sync_to_fst(&mut self) -> (found: bool)
        requires
            old(self).wf(),
        ensures
            final(self).stream() == old(self).stream(),
            match first_fst(old(self).stream(), old(self)@.pos) {
                Some(p) => found && final(self)@ == (DecView { pos: p, ..old(self)@ }) && p + 48
                    <= old(self).stream().len(),
                None => !found && final(self)@ == (DecView {
                    pos: search_end(old(self).stream(), old(self)@.pos),
                    ..old(self)@
                }),
            },
            final(self).wf(),
    {
        let ghost stream = self.stream();
        let ghost p = self@.pos;
        let mut start = self.reading.r.bit_pos();
        loop
            invariant
                self.wf(),
                self.stream() == stream,
                stream == old(self).stream(),
                p == old(self)@.pos,
                p <= start <= stream.len(),
                start > p ==> start + 47 <= stream.len(),
                self@ == (DecView { pos: self@.pos, ..old(self)@ }),
                old(self)@.stats.within(p as int),
                first_fst(stream, p) == first_fst(stream, start as nat),
            decreases stream.len() - start,
        {
            self.reading.r.seek(start);
            assert(self@ =~= (DecView { pos: start as nat, ..old(self)@ }));
            if self.reading.r.remaining() < 48 {
                return false;
            }
            if self.looks_like_fst() {
                self.reading.r.seek(start);
                assert(self@ =~= (DecView { pos: start as nat, ..old(self)@ }));
                return true;
            }
            start += 1;
        }
    }

    /// Reads a complete FST (Figure 4). `None` at the end of the stream.
    fn read_fst(&mut self) -> (fst: Result<Option<FstInfo>, DecodeError>)
        requires
            old(self).wf(),
        ensures
            final(self).stream() == old(self).stream(),
            final(self)@ == (DecView { pos: fst_at(old(self).stream(), old(self)@.pos).1, ..old(self)@ }),
            old(self)@.pos <= final(self)@.pos <= old(self).stream().len(),
            match (fst, fst_at(old(self).stream(), old(self)@.pos).0) {
                (Ok(None), FstSpec::End) => true,
                (Err(e), FstSpec::Fail(e2)) => e == e2,
                (Ok(Some(i)), FstSpec::Fst { field, a_flag, s_first }) => i.field == field
                    && i.a_flag == a_flag && i.s_first == s_first && i.field < 2
                    && final(self)@.pos == old(self)@.pos + 48,
                _ => false,
            },
    {
        if self.reading.r.remaining() < 48 {
            return Ok(None);
        }
        let lst1 = match self.read_raw_lst() {
            LstRead::Eof => {
                return Ok(None);
            },
            LstRead::Invalid => {
                return Err(DecodeError::FstExpected { bit: self.reading.r.bit_pos() - 13 });
            },
            LstRead::Lst(l) => l,
        };
        if lst1.line_code != 0b111 {
            return Err(DecodeError::FstLineCode { found: lst1.line_code });
        }
        let a_flag = lst1.aaa == 0b111;
        let mid = match self.reading.r.read_bits(8) {
            Some(v) => v,
            None => {
                return Ok(None);
            },
        };
        let field: usize = if mid == 0b0000_1111 {
            0
        } else if mid == 0b0000_0110 {
            1
        } else {
            return Err(DecodeError::FstMiddleByte { found: mid });
        };
        let lst2 = match self.read_raw_lst() {
            LstRead::Eof => {
                return Ok(None);
            },
            LstRead::Invalid => {
                return Err(DecodeError::FstSecondLst);
            },
            LstRead::Lst(l) => l,
        };
        if lst2.line_code != 0 {
            return Err(DecodeError::FstSecondLineCode);
        }
        Ok(Some(FstInfo { field, a_flag, s_first: lst2.s }))
    }

    /// VLC codes of a luminance cluster. Prediction X = (A+D)/2 with the
    /// substitutions A→AS and D→C of the subsampling (§1.4.1.3.1,
    /// §1.4.1.4.1). Returns `None` if the stream runs out.
    fn decode_luma_codes(
        &mut self,
        start: usize,
        parity: usize,
        subsampled: bool,
        line: &mut [u8; WIDTH],
        prev: Option<&[u8; WIDTH]>,
        prev_not_trans: &[bool; WIDTH],
        not_trans: &mut [bool; WIDTH],
        Ghost(slack): Ghost<int>,
    ) -> (out: Result<Option<EndInfo>, DecodeError>)
        requires
            old(self).wf_but(slack),
            slack <= 1,
            start < WIDTH - 1,
        ensures
            final(self).stream() == old(self).stream(),
            final(self).wf_but(slack),
            old(self)@.pos <= final(self)@.pos,
            ({
                let plane = Plane {
                    luma: true,
                    prev: codec::line_view(prev),
                    prev_not_trans: prev_not_trans@,
                    parity: parity as int,
                    subsampled,
                };
                let (end, p1, st) = codes_at(
                    old(self).stream(),
                    old(self)@.pos,
                    plane,
                    Cluster {
                        line: old(line)@,
                        not_trans: old(not_trans)@,
                        q: start as int,
                        last: start as int,
                        extras: 0,
                    },
                );
                &&& final(self)@ == (DecView {
                    pos: p1,
                    stats: DecCounts {
                        extra_elements: old(self)@.stats.extra_elements + st.extras,
                        ..old(self)@.stats
                    },
                    ..old(self)@
                })
                &&& match (out, end) {
                    (Ok(Some(i)), EndSpec::Eoc) => i.kind is Eoc && i.span_end == st.last,
                    (Ok(Some(i)), EndSpec::Sync) => i.kind is Sync && i.span_end == st.last,
                    (Ok(None), EndSpec::Eof) => true,
                    (Err(e), EndSpec::Fail(e2)) => e == e2,
                    _ => false,
                }
                &&& out matches Ok(Some(i)) ==> start <= i.span_end < WIDTH && final(line)@ == st.line
                    && final(not_trans)@ == st.not_trans
            }),
    {
        let max_e: usize = WIDTH - 2;
        let mut q: usize = start;  // last "normal" position
        let mut last: usize = start;  // last transmitted position
        let ghost plane = Plane {
            luma: true,
            prev: codec::line_view(prev),
            prev_not_trans: prev_not_trans@,
            parity: parity as int,
            subsampled,
        };
        let ghost first = Cluster {
            line: line@,
            not_trans: not_trans@,
            q: start as int,
            last: start as int,
            extras: 0,
        };
        let ghost mut st = first;
        let ghost stream = self.stream();
        let ghost p = self@.pos;
        loop
            invariant
                self.wf_but(slack),
                slack <= 1,
                self.stream() == stream,
                stream == old(self).stream(),
                p == old(self)@.pos,
                p <= self@.pos,
                max_e == WIDTH - 2,
                start <= q <= last <= max_e,
                plane == (Plane {
                    luma: true,
                    prev: codec::line_view(prev),
                    prev_not_trans: prev_not_trans@,
                    parity: parity as int,
                    subsampled,
                }),
                first == (Cluster {
                    line: old(line)@,
                    not_trans: old(not_trans)@,
                    q: start as int,
                    last: start as int,
                    extras: 0,
                }),
                st.line == line@,
                st.not_trans == not_trans@,
                st.q == q,
                st.last == last,
                codes_at(stream, p, plane, first) == codes_at(stream, self@.pos, plane, st),
                self@ == (DecView {
                    pos: self@.pos,
                    stats: DecCounts {
                        extra_elements: old(self)@.stats.extra_elements + st.extras,
                        ..old(self)@.stats
                    },
                    ..old(self)@
                }),
            decreases stream.len() - self@.pos,
        {
            if self.at_sync() {
                return Ok(Some(EndInfo { span_end: last, kind: ClusterEnd::Sync }));
            }
            proof {
                tables::lemma_zero_run_in_range(stream, self@.pos + 1);
            }
            let ghost at = self@;
            match tables::read_vlc(&mut self.reading.r, subsampled) {
                VlcRead::Eof => {
                    assert(self@ =~= (DecView { pos: self@.pos, ..at }));
                    return Ok(None);
                },
                VlcRead::Invalid => {
                    assert(self@ =~= (DecView { pos: self@.pos, ..at }));
                    return Err(DecodeError::InvalidCode);
                },
                VlcRead::Sym(Vlc::Eoc) => {
                    assert(self@ =~= (DecView { pos: self@.pos, ..at }));
                    return Ok(Some(EndInfo { span_end: last, kind: ClusterEnd::Eoc }));
                },
                VlcRead::Sym(Vlc::Level { level, extra }) => {
                    assert(self@ =~= (DecView { pos: self@.pos, ..at }));
                    if extra {
                        let o: usize = q + 1;
                        if o > max_e || last == o {
                            return Err(DecodeError::LumaExtra { position: o });
                        }
                        self.stats.extra_elements += 1;
                        let pred = predict_luma(line[q], d_value(prev, prev_not_trans, o));
                        line[o] = clamp_y(pred as i16 + level);
                        last = o;
                    } else {
                        let skips = subsampled && q % 2 == parity;
                        let t: usize = if skips {
                            q + 2
                        } else {
                            q + 1
                        };
                        // Was the element in between transmitted as "extra"?
                        let omitted = skips && last != q + 1;
                        if t > max_e {
                            return Err(DecodeError::LumaOverrun { position: t });
                        }
                        // Substitution A → AS if A was not transmitted.
                        let a = if omitted {
                            line[q]
                        } else {
                            line[t - 1]
                        };
                        let pred = predict_luma(a, d_value(prev, prev_not_trans, t));
                        let x = clamp_y(pred as i16 + level);
                        line[t] = x;
                        if omitted {
                            // Interpolation of omitted elements (§1.4.1.4.1).
                            line[q + 1] = predict_luma(line[q], x);
                            not_trans[q + 1] = true;
                        }
                        q = t;
                        last = t;
                    }
                    proof {
                        st = dpcm::step(plane, st, level as int, extra).unwrap();
                        assert(st.line =~= line@);
                        assert(st.not_trans =~= not_trans@);
                        assert(self@ =~= (DecView {
                            pos: self@.pos,
                            stats: DecCounts {
                                extra_elements: old(self)@.stats.extra_elements + st.extras,
                                ..old(self)@.stats
                            },
                            ..old(self)@
                        }));
                    }
                },
            }
        }
    }

    /// VLC codes of a chrominance cluster. Prediction X = A (§1.4.2.3.1).
    fn decode_chroma_codes(
        &mut self,
        start: usize,
        parity: usize,
        subsampled: bool,
        line: &mut [u8; CHROMA_WIDTH],
        Ghost(slack): Ghost<int>,
    ) -> (out: Result<Option<EndInfo>, DecodeError>)
        requires
            old(self).wf_but(slack),
            slack <= 1,
            start < CHROMA_WIDTH,
        ensures
            final(self).stream() == old(self).stream(),
            final(self).wf_but(slack),
            old(self)@.pos <= final(self)@.pos,
            ({
                let plane = Plane {
                    luma: false,
                    prev: None,
                    prev_not_trans: dpcm::none_omitted(),
                    parity: parity as int,
                    subsampled,
                };
                let (end, p1, st) = codes_at(
                    old(self).stream(),
                    old(self)@.pos,
                    plane,
                    Cluster {
                        line: old(line)@,
                        not_trans: dpcm::none_omitted(),
                        q: start as int,
                        last: start as int,
                        extras: 0,
                    },
                );
                &&& final(self)@ == (DecView {
                    pos: p1,
                    stats: DecCounts {
                        extra_elements: old(self)@.stats.extra_elements + st.extras,
                        ..old(self)@.stats
                    },
                    ..old(self)@
                })
                &&& match (out, end) {
                    (Ok(Some(i)), EndSpec::Eoc) => i.kind is Eoc && i.span_end == st.last,
                    (Ok(Some(i)), EndSpec::Sync) => i.kind is Sync && i.span_end == st.last,
                    (Ok(None), EndSpec::Eof) => true,
                    (Err(e), EndSpec::Fail(e2)) => e == e2,
                    _ => false,
                }
                &&& out matches Ok(Some(i)) ==> start <= i.span_end < CHROMA_WIDTH && final(line)@
                    == st.line
            }),
    {
        let max_e: usize = CHROMA_WIDTH - 1;
        let mut q: usize = start;
        let mut last: usize = start;
        let ghost plane = Plane {
            luma: false,
            prev: None,
            prev_not_trans: dpcm::none_omitted(),
            parity: parity as int,
            subsampled,
        };
        let ghost first = Cluster {
            line: line@,
            not_trans: dpcm::none_omitted(),
            q: start as int,
            last: start as int,
            extras: 0,
        };
        let ghost mut st = first;
        let ghost stream = self.stream();
        let ghost p = self@.pos;
        loop
            invariant
                self.wf_but(slack),
                slack <= 1,
                self.stream() == stream,
                stream == old(self).stream(),
                p == old(self)@.pos,
                p <= self@.pos,
                max_e == CHROMA_WIDTH - 1,
                start <= q <= last <= max_e,
                plane == (Plane {
                    luma: false,
                    prev: None,
                    prev_not_trans: dpcm::none_omitted(),
                    parity: parity as int,
                    subsampled,
                }),
                first == (Cluster {
                    line: old(line)@,
                    not_trans: dpcm::none_omitted(),
                    q: start as int,
                    last: start as int,
                    extras: 0,
                }),
                st.line == line@,
                st.q == q,
                st.last == last,
                codes_at(stream, p, plane, first) == codes_at(stream, self@.pos, plane, st),
                self@ == (DecView {
                    pos: self@.pos,
                    stats: DecCounts {
                        extra_elements: old(self)@.stats.extra_elements + st.extras,
                        ..old(self)@.stats
                    },
                    ..old(self)@
                }),
            decreases stream.len() - self@.pos,
        {
            if self.at_sync() {
                return Ok(Some(EndInfo { span_end: last, kind: ClusterEnd::Sync }));
            }
            proof {
                tables::lemma_zero_run_in_range(stream, self@.pos + 1);
            }
            let ghost at = self@;
            match tables::read_vlc(&mut self.reading.r, subsampled) {
                VlcRead::Eof => {
                    assert(self@ =~= (DecView { pos: self@.pos, ..at }));
                    return Ok(None);
                },
                VlcRead::Invalid => {
                    assert(self@ =~= (DecView { pos: self@.pos, ..at }));
                    return Err(DecodeError::InvalidCode);
                },
                VlcRead::Sym(Vlc::Eoc) => {
                    assert(self@ =~= (DecView { pos: self@.pos, ..at }));
                    return Ok(Some(EndInfo { span_end: last, kind: ClusterEnd::Eoc }));
                },
                VlcRead::Sym(Vlc::Level { level, extra }) => {
                    assert(self@ =~= (DecView { pos: self@.pos, ..at }));
                    if extra {
                        let o: usize = q + 1;
                        if o > max_e || last == o {
                            return Err(DecodeError::ChromaExtra { position: o });
                        }
                        self.stats.extra_elements += 1;
                        let pred = line[q];
                        line[o] = clamp_c(pred as i16 + level);
                        last = o;
                    } else {
                        let skips = subsampled && q % 2 == parity;
                        let t: usize = if skips {
                            q + 2
                        } else {
                            q + 1
                        };
                        let omitted = skips && last != q + 1;
                        if t > max_e {
                            return Err(DecodeError::ChromaOverrun { position: t });
                        }
                        let pred = if omitted {
                            line[q]
                        } else {
                            line[t - 1]
                        };
                        let x = clamp_c(pred as i16 + level);
                        line[t] = x;
                        if omitted {
                            line[q + 1] = predict_luma(line[q], x);
                        }
                        q = t;
                        last = t;
                    }
                    proof {
                        st = dpcm::step(plane, st, level as int, extra).unwrap();
                        assert(st.line =~= line@);
                        assert(self@ =~= (DecView {
                            pos: self@.pos,
                            stats: DecCounts {
                                extra_elements: old(self)@.stats.extra_elements + st.extras,
                                ..old(self)@.stats
                            },
                            ..old(self)@
                        }));
                    }
                },
            }
        }
    }

    /// One luminance cluster: PCM, address, VLC codes (§1.5.3). `None` if the
    /// stream runs out.
    fn decode_luma_cluster(
        &mut self,
        f: usize,
        l: usize,
        parity: usize,
        subsampled: bool,
        prev_y: Option<&[u8; WIDTH]>,
        prev_not_trans: &[bool; WIDTH],
        not_trans: &mut [bool; WIDTH],
        Ghost(slack): Ghost<int>,
    ) -> (out: Result<Option<ClusterEnd>, DecodeError>)
        requires
            old(self).wf_but(slack),
            slack <= 1,
            f < 2,
            l < LINES_PER_FIELD,
        ensures
            final(self).stream() == old(self).stream(),
            final(self).wf_but(slack),
            ({
                let ctx = LineContext {
                    prev: codec::line_view(prev_y),
                    prev_not_trans: prev_not_trans@,
                    parity: parity as int,
                    subsampled,
                };
                let (end, ls) = luma_cluster_at(
                    old(self).stream(),
                    ctx,
                    old(self)@.line(f as int, l as int, old(not_trans)@),
                );
                &&& final(self)@ == old(self)@.with_line(f as int, l as int, ls)
                &&& match (out, end) {
                    (Ok(Some(ClusterEnd::Eoc)), EndSpec::Eoc) => true,
                    (Ok(Some(ClusterEnd::Sync)), EndSpec::Sync) => true,
                    (Ok(None), EndSpec::Eof) => true,
                    (Err(e), EndSpec::Fail(e2)) => e == e2,
                    _ => false,
                }
                &&& out matches Ok(Some(k)) ==> final(not_trans)@ == ls.not_trans
            }),
    {
        let ghost start = self@;
        let ghost ls0 = self@.line(f as int, l as int, not_trans@);
        let pcm = match self.reading.r.read_bits(8) {
            Some(v) => v,
            None => {
                proof {
                    lemma_same_line(start, f as int, l as int, not_trans@, self@.pos, start.stats);
                    assert(self@ =~= (DecView { pos: self@.pos, ..start }));
                }
                return Ok(None);
            },
        };
        let addr = match self.reading.r.read_bits(8) {
            Some(v) => v as usize,
            None => {
                proof {
                    lemma_same_line(start, f as int, l as int, not_trans@, self@.pos, start.stats);
                    assert(self@ =~= (DecView { pos: self@.pos, ..start }));
                }
                return Ok(None);
            },
        };
        proof {
            bits::lemma_value_bound(
                self.stream().subrange(start.pos as int, (start.pos + 8) as int),
            );
            bits::lemma_value_bound(
                self.stream().subrange((start.pos + 8) as int, (start.pos + 16) as int),
            );
            lemma2_to64();
            assert(self@ =~= (DecView { pos: self@.pos, ..start }));
        }
        if addr >= WIDTH - 1 {
            proof {
                lemma_same_line(start, f as int, l as int, not_trans@, self@.pos, start.stats);
            }
            return Err(DecodeError::LumaAddress { addr });
        }
        self.stats.luma_clusters += 1;
        let mut line = self.store[f].y[l];
        line[addr] = clamp_y(pcm as i16);
        let ghost counted = self@;
        proof {
            assert(counted =~= (DecView {
                pos: self@.pos,
                stats: DecCounts { luma_clusters: start.stats.luma_clusters + 1, ..start.stats },
                ..start
            }));
        }
        match self.decode_luma_codes(
            addr,
            parity,
            subsampled,
            &mut line,
            prev_y,
            prev_not_trans,
            not_trans,
            Ghost(slack),
        ) {
            Ok(Some(end)) => {
                let ghost after = self@;
                let mut moving = self.store[f].y_moving[l];
                let ghost was = moving@;
                self.store[f].y[l] = line;
                let mut e: usize = addr;
                while e <= end.span_end
                    invariant
                        addr <= e <= end.span_end + 1,
                        end.span_end < WIDTH,
                        was.len() == WIDTH,
                        moving@ =~= dpcm::marked(was, addr as int, e - 1),
                    decreases end.span_end + 1 - e,
                {
                    moving[e] = true;
                    e += 1;
                }
                self.store[f].y_moving[l] = moving;
                proof {
                    let (stop, ls) = luma_cluster_at(
                        self.stream(),
                        LineContext {
                            prev: codec::line_view(prev_y),
                            prev_not_trans: prev_not_trans@,
                            parity: parity as int,
                            subsampled,
                        },
                        ls0,
                    );
                    assert(self@ =~~= start.with_line(f as int, l as int, ls));
                }
                Ok(Some(end.kind))
            },
            Ok(None) => {
                proof {
                    lemma_same_line(
                        start,
                        f as int,
                        l as int,
                        ls0.not_trans,
                        self@.pos,
                        self@.stats,
                    );
                }
                Ok(None)
            },
            Err(e) => {
                proof {
                    lemma_same_line(
                        start,
                        f as int,
                        l as int,
                        ls0.not_trans,
                        self@.pos,
                        self@.stats,
                    );
                }
                Err(e)
            },
        }
    }

    /// One chrominance cluster, behind the color escape (§1.5.4). `None` if the
    /// stream runs out.
    fn decode_chroma_cluster(
        &mut self,
        f: usize,
        l: usize,
        parity: usize,
        subsampled: bool,
        Ghost(ctx): Ghost<LineContext>,
        Ghost(not_trans): Ghost<Seq<bool>>,
        Ghost(slack): Ghost<int>,
    ) -> (out: Result<Option<ClusterEnd>, DecodeError>)
        requires
            old(self).wf_but(slack),
            slack <= 1,
            f < 2,
            l < LINES_PER_FIELD,
            ctx.parity == parity,
            ctx.subsampled == subsampled,
        ensures
            final(self).stream() == old(self).stream(),
            final(self).wf_but(slack),
            ({
                let (end, ls) = chroma_cluster_at(
                    old(self).stream(),
                    ctx,
                    old(self)@.line(f as int, l as int, not_trans),
                );
                &&& final(self)@ == old(self)@.with_line(f as int, l as int, ls)
                &&& match (out, end) {
                    (Ok(Some(ClusterEnd::Eoc)), EndSpec::Eoc) => true,
                    (Ok(Some(ClusterEnd::Sync)), EndSpec::Sync) => true,
                    (Ok(None), EndSpec::Eof) => true,
                    (Err(e), EndSpec::Fail(e2)) => e == e2,
                    _ => false,
                }
            }),
    {
        let ghost start = self@;
        let ghost ls0 = self@.line(f as int, l as int, not_trans);
        let pcm = match self.reading.r.read_bits(8) {
            Some(v) => v,
            None => {
                proof {
                    lemma_same_line(start, f as int, l as int, not_trans, self@.pos, start.stats);
                    assert(self@ =~= (DecView { pos: self@.pos, ..start }));
                }
                return Ok(None);
            },
        };
        let addr = match self.reading.r.read_bits(8) {
            Some(v) => v as usize,
            None => {
                proof {
                    lemma_same_line(start, f as int, l as int, not_trans, self@.pos, start.stats);
                    assert(self@ =~= (DecView { pos: self@.pos, ..start }));
                }
                return Ok(None);
            },
        };
        proof {
            bits::lemma_value_bound(
                self.stream().subrange(start.pos as int, (start.pos + 8) as int),
            );
            bits::lemma_value_bound(
                self.stream().subrange((start.pos + 8) as int, (start.pos + 16) as int),
            );
            lemma2_to64();
            assert(self@ =~= (DecView { pos: self@.pos, ..start }));
        }
        if addr < CHROMA_ADDR_BASE || addr >= CHROMA_ADDR_BASE + CHROMA_WIDTH - 1 {
            proof {
                lemma_same_line(start, f as int, l as int, not_trans, self@.pos, start.stats);
            }
            return Err(DecodeError::ChromaAddress { addr });
        }
        let sample: usize = addr - CHROMA_ADDR_BASE;
        self.stats.chroma_clusters += 1;
        let mut line = self.store[f].c[l];
        line[sample] = clamp_c(pcm as i16);
        let ghost counted = self@;
        proof {
            assert(counted =~= (DecView {
                pos: self@.pos,
                stats: DecCounts { chroma_clusters: start.stats.chroma_clusters + 1, ..start.stats },
                ..start
            }));
        }
        match self.decode_chroma_codes(sample, parity, subsampled, &mut line, Ghost(slack)) {
            Ok(Some(end)) => {
                let mut moving = self.store[f].c_moving[l];
                let ghost was = moving@;
                self.store[f].c[l] = line;
                let mut e: usize = sample;
                while e <= end.span_end
                    invariant
                        sample <= e <= end.span_end + 1,
                        end.span_end < CHROMA_WIDTH,
                        was.len() == CHROMA_WIDTH,
                        moving@ =~= dpcm::marked(was, sample as int, e - 1),
                    decreases end.span_end + 1 - e,
                {
                    moving[e] = true;
                    e += 1;
                }
                self.store[f].c_moving[l] = moving;
                proof {
                    let (stop, ls) = chroma_cluster_at(self.stream(), ctx, ls0);
                    assert(self@ =~~= start.with_line(f as int, l as int, ls));
                }
                Ok(Some(end.kind))
            },
            Ok(None) => {
                proof {
                    lemma_same_line(start, f as int, l as int, not_trans, self@.pos, self@.stats);
                }
                Ok(None)
            },
            Err(e) => {
                proof {
                    lemma_same_line(start, f as int, l as int, not_trans, self@.pos, self@.stats);
                }
                Err(e)
            },
        }
    }

    /// PCM line (Figure 6): markers 0xFF 0xFF, 256 luminance bytes, 52
    /// chrominance bytes (§1.5.5). `false` if the stream runs out.
    fn decode_pcm_line(
        &mut self,
        f: usize,
        l: usize,
        Ghost(slack): Ghost<int>,
    ) -> (out: Result<bool, DecodeError>)
        requires
            old(self).wf_but(slack),
            slack <= 1,
            f < 2,
            l < LINES_PER_FIELD,
            old(self)@.pos + 8 <= old(self).stream().len(),
        ensures
            final(self).stream() == old(self).stream(),
            final(self).wf_but(slack),
            final(self)@ == pcm_line_at(
                old(self).stream(),
                old(self)@,
                f as int,
                l as int,
            ).1,
            old(self)@.pos <= final(self)@.pos,
            match (
                out,
                pcm_line_at(old(self).stream(), old(self)@, f as int, l as int).0,
            ) {
                (Ok(true), LineEnd::Done) => true,
                (Ok(false), LineEnd::Eof) => true,
                (Err(e), LineEnd::Fail(e2)) => e == e2,
                _ => false,
            },
    {
        let ghost start = self@;
        let ghost stream = self.stream();
        let _ = self.reading.r.read_bits(8);  // 0xFF
        let marker = match self.reading.r.read_bits(8) {
            Some(v) => v,
            None => {
                assert(self@ =~= (DecView { pos: self@.pos, ..start }));
                return Ok(false);
            },
        };
        if marker != 0xFF {
            assert(self@ =~= (DecView { pos: self@.pos, ..start }));
            return Err(DecodeError::PcmMarker { found: marker });
        }
        self.stats.pcm_lines += 1;
        let ghost p1 = self@.pos;
        let ghost n = bytes_left(stream, p1);
        let ghost field = start.fields[f as int];
        let ghost base = self@;
        proof {
            assert(base =~= (DecView {
                pos: p1,
                stats: DecCounts { pcm_lines: start.stats.pcm_lines + 1, ..start.stats },
                ..start
            }));
        }
        let ghost (end, out) = pcm_line_at(stream, start, f as int, l as int);
        let mut y_line = self.store[f].y[l];
        let mut e: usize = 0;
        while e < WIDTH
            invariant
                e <= WIDTH,
                f < 2,
                l < LINES_PER_FIELD,
                self.wf_but(slack),
                slack <= 1,
                self.stream() == stream,
                stream == old(self).stream(),
                start == old(self)@,
                start.wf(),
                field == start.fields[f as int],
                n == bytes_left(stream, p1),
                (end, out) == pcm_line_at(stream, start, f as int, l as int),
                take_at(stream, start.pos + 8, 8) == (Some(0xFFnat), p1),
                p1 <= stream.len(),
                e <= n,
                base.fields == start.fields,
                base.stats == (DecCounts { pcm_lines: start.stats.pcm_lines + 1, ..start.stats }),
                base == (DecView { pos: p1, stats: base.stats, ..start }),
                self@ == (DecView { pos: p1 + 8 * e as nat, ..base }),
                forall|k: int|
                    0 <= k < WIDTH ==> #[trigger] y_line@[k] == if k < e {
                        byte_at(stream, p1, k)
                    } else {
                        field.y[l as int][k]
                    },
            decreases WIDTH - e,
        {
            let ghost here = self@;
            match self.reading.r.read_bits(8) {
                Some(v) => {
                    proof {
                        bits::lemma_value_bound(
                            stream.subrange(here.pos as int, (here.pos + 8) as int),
                        );
                        lemma2_to64();
                    }
                    y_line[e] = v as u8;
                },
                None => {
                    self.store[f].y[l] = y_line;
                    proof {
                        assert(n == e);
                        assert(self@.fields[f as int].y =~= out.fields[f as int].y) by {
                            assert(y_line@ =~= out.fields[f as int].y[l as int]);
                        }
                        assert(self@.fields[f as int].c =~= out.fields[f as int].c) by {
                            assert(field.c[l as int] =~= out.fields[f as int].c[l as int]);
                        }
                        assert(self@.fields =~= out.fields);
                        assert(self@ =~= out);
                    }
                    return Ok(false);
                },
            }
            e += 1;
            assert(self@ =~= (DecView { pos: p1 + 8 * e as nat, ..base }));
        }
        y_line[WIDTH - 1] = BLANKING;
        self.store[f].y[l] = y_line;
        let ghost mid = self@;
        proof {
            assert(y_line@ =~= out.fields[f as int].y[l as int]);
            assert(mid.fields[f as int] =~= (FieldView {
                y: field.y.update(l as int, y_line@),
                ..field
            }));
            assert(mid.fields =~= start.fields.update(f as int, mid.fields[f as int]));
            assert(mid =~= (DecView { fields: mid.fields, pos: p1 + 8 * WIDTH as nat, ..base }));
        }
        let mut c_line = self.store[f].c[l];
        let mut e: usize = 0;
        while e < CHROMA_WIDTH
            invariant
                e <= CHROMA_WIDTH,
                f < 2,
                l < LINES_PER_FIELD,
                self.wf_but(slack),
                slack <= 1,
                self.stream() == stream,
                stream == old(self).stream(),
                start == old(self)@,
                start.wf(),
                field == start.fields[f as int],
                n == bytes_left(stream, p1),
                (end, out) == pcm_line_at(stream, start, f as int, l as int),
                take_at(stream, start.pos + 8, 8) == (Some(0xFFnat), p1),
                p1 <= stream.len(),
                WIDTH + e <= n,
                base.stats == (DecCounts { pcm_lines: start.stats.pcm_lines + 1, ..start.stats }),
                base == (DecView { pos: p1, stats: base.stats, ..start }),
                mid == (DecView { fields: mid.fields, pos: p1 + 8 * WIDTH as nat, ..base }),
                mid.fields == start.fields.update(f as int, mid.fields[f as int]),
                mid.fields[f as int] == (FieldView {
                    y: field.y.update(l as int, out.fields[f as int].y[l as int]),
                    ..field
                }),
                self@ == (DecView { pos: p1 + 8 * (WIDTH + e) as nat, ..mid }),
                forall|k: int|
                    0 <= k < CHROMA_WIDTH ==> #[trigger] c_line@[k] == if k < e {
                        byte_at(stream, p1, WIDTH + k)
                    } else {
                        field.c[l as int][k]
                    },
            decreases CHROMA_WIDTH - e,
        {
            let ghost here = self@;
            match self.reading.r.read_bits(8) {
                Some(v) => {
                    proof {
                        bits::lemma_value_bound(
                            stream.subrange(here.pos as int, (here.pos + 8) as int),
                        );
                        lemma2_to64();
                    }
                    c_line[e] = v as u8;
                },
                None => {
                    self.store[f].c[l] = c_line;
                    proof {
                        assert(n == WIDTH + e);
                        assert(c_line@ =~= out.fields[f as int].c[l as int]);
                        assert(self@.fields[f as int] =~= out.fields[f as int]);
                        assert(self@.fields =~= out.fields);
                        assert(self@ =~= out);
                    }
                    return Ok(false);
                },
            }
            e += 1;
            assert(self@ =~= (DecView { pos: p1 + 8 * (WIDTH + e) as nat, ..mid }));
        }
        self.store[f].c[l] = c_line;
        // PCM lines are non-moving (§1.5.5).
        self.store[f].y_moving[l] = [false; WIDTH];
        self.store[f].c_moving[l] = [false; CHROMA_WIDTH];
        self.reading.prev_not_trans = [false; WIDTH];
        proof {
            assert(c_line@ =~= out.fields[f as int].c[l as int]);
            assert(self@.prev_not_trans =~= dpcm::none_omitted());
            assert(self@.fields[f as int].y_moving[l as int] =~= out.fields[f as int].y_moving[l as int]);
            assert(self@.fields[f as int].c_moving[l as int] =~= out.fields[f as int].c_moving[l as int]);
            assert(self@.fields[f as int] =~= out.fields[f as int]);
            assert(self@.fields =~= out.fields);
            assert(self@ =~= out);
        }
        Ok(true)
    }

    /// The clusters of a line. Returns the mask of the omitted elements, or
    /// `None` if the stream runs out.
    fn decode_clusters(
        &mut self,
        f: usize,
        l: usize,
        parity: usize,
        subsampled: bool,
        color: bool,
        prev_y: Option<&[u8; WIDTH]>,
        prev_not_trans: &[bool; WIDTH],
        Ghost(slack): Ghost<int>,
    ) -> (out: Result<Option<[bool; WIDTH]>, DecodeError>)
        requires
            old(self).wf_but(slack),
            slack <= 1,
            f < 2,
            l < LINES_PER_FIELD,
        ensures
            final(self).stream() == old(self).stream(),
            final(self).wf_but(slack),
            old(self)@.pos <= final(self)@.pos,
            ({
                let ctx = LineContext {
                    prev: codec::line_view(prev_y),
                    prev_not_trans: prev_not_trans@,
                    parity: parity as int,
                    subsampled,
                };
                let (end, ls) = clusters_at(
                    old(self).stream(),
                    ctx,
                    color,
                    old(self)@.line(f as int, l as int, dpcm::none_omitted()),
                );
                &&& final(self)@ == old(self)@.with_line(f as int, l as int, ls)
                &&& match (out, end) {
                    (Ok(Some(mask)), LineEnd::Done) => mask@ == ls.not_trans,
                    (Ok(None), LineEnd::Eof) => true,
                    (Err(e), LineEnd::Fail(e2)) => e == e2,
                    _ => false,
                }
            }),
    {
        let ghost start = self@;
        let ghost stream = self.stream();
        let mut not_trans = [false; WIDTH];
        let mut in_chroma = color;
        let ghost ctx = LineContext {
            prev: codec::line_view(prev_y),
            prev_not_trans: prev_not_trans@,
            parity: parity as int,
            subsampled,
        };
        let ghost ls0 = self@.line(f as int, l as int, dpcm::none_omitted());
        let ghost mut ls = ls0;
        proof {
            assert(not_trans@ =~= dpcm::none_omitted());
            lemma_same_line(start, f as int, l as int, dpcm::none_omitted(), self@.pos, self@.stats);
        }
        loop
            invariant_except_break
                self.wf_but(slack),
                slack <= 1,
                self.stream() == stream,
                stream == old(self).stream(),
                start == old(self)@,
                start.wf(),
                start.pos <= self@.pos,
                f < 2,
                l < LINES_PER_FIELD,
                ls0 == start.line(f as int, l as int, dpcm::none_omitted()),
                ctx == (LineContext {
                    prev: codec::line_view(prev_y),
                    prev_not_trans: prev_not_trans@,
                    parity: parity as int,
                    subsampled,
                }),
                ls.not_trans == not_trans@,
                self@ == start.with_line(f as int, l as int, ls),
                clusters_at(stream, ctx, color, ls0) == clusters_at(stream, ctx, in_chroma, ls),
            ensures
                self.wf_but(slack),
                slack <= 1,
                self.stream() == stream,
                start.pos <= self@.pos,
                ls.not_trans == not_trans@,
                self@ == start.with_line(f as int, l as int, ls),
                clusters_at(stream, ctx, color, ls0) == (LineEnd::Done, ls),
            decreases stream.len() - self@.pos,
        {
            if self.at_sync() {
                break;
            }
            proof {
                lemma_line_of(start, f as int, l as int, ls);
                lemma_cluster_progress(stream, ctx, ls);
            }
            if !in_chroma {
                let out = self.decode_luma_cluster(
                    f,
                    l,
                    parity,
                    subsampled,
                    prev_y,
                    prev_not_trans,
                    &mut not_trans,
                    Ghost(slack),
                );
                proof {
                    let next = luma_cluster_at(stream, ctx, ls).1;
                    lemma_put_twice(start, f as int, l as int, ls, next);
                    ls = next;
                }
                match out {
                    Err(e) => {
                        return Err(e);
                    },
                    Ok(None) => {
                        return Ok(None);
                    },
                    Ok(Some(ClusterEnd::Sync)) => {
                        break;
                    },
                    Ok(Some(ClusterEnd::Eoc)) => {
                        let escape = match self.reading.r.peek_bits(8) {
                            Some(v) => v == 0b0000_1001,
                            None => false,
                        };
                        if escape {
                            let _ = self.reading.r.read_bits(8);
                            in_chroma = true;
                            proof {
                                ls = LineState { pos: ls.pos + 8, ..ls };
                            }
                        }
                        assert(self@ =~= start.with_line(f as int, l as int, ls));
                    },
                }
            } else {
                let out = self.decode_chroma_cluster(
                    f,
                    l,
                    parity,
                    subsampled,
                    Ghost(ctx),
                    Ghost(ls.not_trans),
                    Ghost(slack),
                );
                proof {
                    let next = chroma_cluster_at(stream, ctx, ls).1;
                    lemma_put_twice(start, f as int, l as int, ls, next);
                    ls = next;
                }
                match out {
                    Err(e) => {
                        return Err(e);
                    },
                    Ok(None) => {
                        return Ok(None);
                    },
                    Ok(Some(ClusterEnd::Sync)) => {
                        break;
                    },
                    Ok(Some(ClusterEnd::Eoc)) => {},
                }
            }
        }
        Ok(Some(not_trans))
    }

    /// Ends a line of clusters: its last element is at blanking level, and its
    /// omitted elements are kept for the line below.
    fn end_line(
        &mut self,
        f: usize,
        l: usize,
        not_trans: [bool; WIDTH],
        Ghost(slack): Ghost<int>,
    )
        requires
            old(self).wf_but(slack),
            slack <= 1,
            f < 2,
            l < LINES_PER_FIELD,
        ensures
            final(self).stream() == old(self).stream(),
            final(self).wf_but(slack),
            ({
                let ls = old(self)@.line(f as int, l as int, not_trans@);
                final(self)@ == (DecView {
                    prev_not_trans: not_trans@,
                    ..old(self)@.with_line(
                        f as int,
                        l as int,
                        LineState { y: dpcm::blanked(ls.y), ..ls },
                    )
                })
            }),
    {
        let mut y_line = self.store[f].y[l];
        y_line[WIDTH - 1] = BLANKING;
        self.store[f].y[l] = y_line;
        self.reading.prev_not_trans = not_trans;
        proof {
            let ls = old(self)@.line(f as int, l as int, not_trans@);
            let done = DecView {
                prev_not_trans: not_trans@,
                ..old(self)@.with_line(
                    f as int,
                    l as int,
                    LineState { y: dpcm::blanked(ls.y), ..ls },
                )
            };
            assert(y_line@ =~= dpcm::blanked(ls.y));
            assert(self@.fields[f as int].y =~= done.fields[f as int].y);
            assert(self@.fields[f as int] =~= done.fields[f as int]);
            assert(self@.fields =~= done.fields);
            assert(self@ =~= done);
        }
    }

    /// Decodes the contents of a line (behind its LST). `false` if the stream
    /// runs out.
    fn decode_line(&mut self, f: usize, l: usize, subsampled: bool) -> (out: Result<
        bool,
        DecodeError,
    >)
        requires
            old(self).wf(),
            f < 2,
            l < LINES_PER_FIELD,
        ensures
            final(self).stream() == old(self).stream(),
            final(self).wf_but(1),
            old(self).wf_but(-1) ==> final(self).wf(),
            final(self)@ == line_at(
                old(self).stream(),
                old(self)@,
                f as int,
                l as int,
                subsampled,
            ).1,
            old(self)@.pos <= final(self)@.pos,
            match (
                out,
                line_at(old(self).stream(), old(self)@, f as int, l as int, subsampled).0,
            ) {
                (Ok(true), LineEnd::Done) => true,
                (Ok(false), LineEnd::Eof) => true,
                (Err(e), LineEnd::Fail(e2)) => e == e2,
                _ => false,
            },
    {
        let ghost start = self@;
        let ghost stream = self.stream();
        let ghost slack: int = if self.wf_but(-1) {
            0
        } else {
            1
        };
        let first = match self.reading.r.peek_bits(8) {
            Some(v) => v,
            None => {
                // End of the stream: only the padding is left (< 8 bits). The
                // line is empty, the field can end normally.
                self.stats.empty_lines += 1;
                self.reading.prev_not_trans = [false; WIDTH];
                proof {
                    assert(self@.prev_not_trans =~= dpcm::none_omitted());
                    assert(self@ =~= start.with_empty_line());
                }
                return Ok(true);
            },
        };
        assert(self@ =~= start);
        if first == 0xFF {
            return self.decode_pcm_line(f, l, Ghost(slack));
        }
        if self.at_sync() {
            self.stats.empty_lines += 1;
            self.reading.prev_not_trans = [false; WIDTH];
            proof {
                assert(self@.prev_not_trans =~= dpcm::none_omitted());
                assert(self@ =~= start.with_empty_line());
            }
            return Ok(true);
        }
        self.stats.moving_lines += 1;
        if subsampled {
            self.stats.subsampled_lines += 1;
        }
        let number = spec_line_number(f, l);
        let parity: usize = number % 2;
        let prev_y: Option<[u8; WIDTH]> = if l > 0 {
            Some(self.store[f].y[l - 1])
        } else {
            None
        };
        let prev_not_trans = self.reading.prev_not_trans;
        let color = first == 0b0000_1001;
        if color {
            let _ = self.reading.r.read_bits(8);
        }
        let ghost counted = self@;
        proof {
            assert(counted =~= (DecView {
                pos: counted.pos,
                stats: counted.stats,
                ..start
            }));
            assert(counted.line(f as int, l as int, dpcm::none_omitted()) =~= (LineState {
                pos: counted.pos,
                stats: counted.stats,
                ..start.line(f as int, l as int, dpcm::none_omitted())
            }));
        }
        let decoded = self.decode_clusters(
            f,
            l,
            parity,
            subsampled,
            color,
            prev_y.as_ref(),
            &prev_not_trans,
            Ghost(slack),
        );
        let ghost (end, ls) = clusters_at(
            stream,
            start.context(f as int, l as int, subsampled),
            color,
            counted.line(f as int, l as int, dpcm::none_omitted()),
        );
        proof {
            assert(self@ =~= start.with_line(f as int, l as int, ls));
        }
        match decoded {
            Err(e) => Err(e),
            Ok(None) => Ok(false),
            Ok(Some(not_trans)) => {
                proof {
                    lemma_line_of(start, f as int, l as int, ls);
                    lemma_put_twice(
                        start,
                        f as int,
                        l as int,
                        ls,
                        LineState { y: dpcm::blanked(ls.y), ..ls },
                    );
                }
                self.end_line(f, l, not_trans, Ghost(slack));
                Ok(true)
            },
        }
    }

    /// Decodes the 143 lines of a field. `false` if the stream runs out.
    fn decode_field(&mut self, f: usize, s_first: bool) -> (out: Result<bool, DecodeError>)
        requires
            old(self).wf(),
            f < 2,
        ensures
            final(self).stream() == old(self).stream(),
            final(self).wf_but(1),
            old(self).wf_but(-1) ==> final(self).wf(),
            final(self)@ == field_at(old(self).stream(), old(self)@, f as int, s_first).1,
            old(self)@.pos <= final(self)@.pos,
            match (out, field_at(old(self).stream(), old(self)@, f as int, s_first).0) {
                (Ok(true), LineEnd::Done) => true,
                (Ok(false), LineEnd::Eof) => true,
                (Err(e), LineEnd::Fail(e2)) => e == e2,
                _ => false,
            },
    {
        let ghost start = self@;
        let ghost stream = self.stream();
        let ghost slack: int = if self.wf_but(-1) {
            0
        } else {
            1
        };
        self.store[f].clear_moving();
        self.reading.prev_not_trans = [false; WIDTH];
        let ghost first = DecView {
            fields: start.fields.update(f as int, start.fields[f as int].at_rest()),
            prev_not_trans: dpcm::none_omitted(),
            ..start
        };
        proof {
            assert(self@.prev_not_trans =~= dpcm::none_omitted());
            assert(self@.fields =~= first.fields);
            assert(self@ =~= first);
            reveal(field_at);
        }
        let mut s = s_first;
        let mut l: usize = 0;
        while l < LINES_PER_FIELD
            invariant
                l <= LINES_PER_FIELD,
                f < 2,
                self.wf_but(slack),
                0 <= slack <= 1,
                old(self).wf_but(-1) ==> slack == 0,
                self.stream() == stream,
                stream == old(self).stream(),
                start.pos <= self@.pos,
                l == 0 ==> s == s_first && self.wf_but(slack - 1),
                lines_at(stream, first, f as int, 0, s_first) == lines_at(
                    stream,
                    self@,
                    f as int,
                    l as int,
                    s_first,
                ),
                field_at(stream, start, f as int, s_first) == lines_at(
                    stream,
                    first,
                    f as int,
                    0,
                    s_first,
                ),
                start == old(self)@,
            decreases LINES_PER_FIELD - l,
        {
            let number = spec_line_number(f, l);
            if l > 0 {
                match self.read_raw_lst() {
                    LstRead::Eof => {
                        return Ok(false);
                    },
                    LstRead::Invalid => {
                        return Err(DecodeError::LstMissing { line: number });
                    },
                    LstRead::Lst(lst) => {
                        let expected: u32 = (number % 8) as u32;
                        if lst.aaa != 0 || lst.line_code != expected {
                            return Err(
                                DecodeError::LstUnexpected {
                                    line: number,
                                    found: lst.line_code,
                                    expected,
                                },
                            );
                        }
                        s = lst.s;
                    },
                }
            }
            match self.decode_line(f, l, s) {
                Err(e) => {
                    return Err(e);
                },
                Ok(complete) => {
                    if !complete {
                        return Ok(false);
                    }
                },
            }
            l += 1;
        }
        Ok(true)
    }

    /// Ends a complete field: interpolates the field before it if that was
    /// omitted, and emits the frame if it is complete.
    fn field_done(&mut self, f: usize, omitted: bool, b1: FieldStore) -> (out: FieldRead)
        requires
            old(self).wf(),
            f < 2,
            b1@.wf(),
            old(self)@.stats.fields_decoded < old(self)@.pos,
        ensures
            final(self).stream() == old(self).stream(),
            final(self).wf(),
            final(self)@ == field_done(old(self)@, f as int, omitted, b1@).1,
            match (out, field_done(old(self)@, f as int, omitted, b1@).0) {
                (FieldRead::Frame(fields), Some(FrameOut::Frame(views))) => {
                    &&& fields_of(fields) == views
                    &&& fields[0]@.wf()
                    &&& fields[1]@.wf()
                },
                (FieldRead::More, None) => f == 0 && !omitted,
                _ => false,
            },
    {
        let ghost start = self@;
        self.stats.fields_decoded += 1;
        if omitted {
            self.stats.fields_omitted += 1;
            let a1 = self.store[f].clone();
            interpolate_omitted_field(&mut self.store[1 - f], 1 - f, &b1, &a1);
        }
        let ghost (emitted, done) = field_done(start, f as int, omitted, b1@);
        proof {
            assert(self@.fields =~= done.fields);
        }
        // Emission: after a field 2 (complete frame), or after a field 1 that
        // reveals the omission of the field 2 before it — the frame is then
        // (B1, interpolated field 2).
        if f == 1 {
            self.stats.frames += 1;
            let frame = [self.store[0].clone(), self.store[1].clone()];
            proof {
                assert(self@ =~= done);
                assert(fields_of(frame) =~= done.fields);
            }
            FieldRead::Frame(frame)
        } else if omitted {
            self.stats.frames += 1;
            let ghost first = b1@;
            let frame = [b1, self.store[1].clone()];
            proof {
                assert(self@ =~= done);
                assert(fields_of(frame) =~= seq![first, done.fields[1]]);
            }
            FieldRead::Frame(frame)
        } else {
            assert(self@ =~= done);
            FieldRead::More
        }
    }

    /// Decodes one field from its FST on, and the omitted field that it
    /// reveals.
    fn next_field(&mut self) -> (out: Result<FieldRead, DecodeError>)
        requires
            old(self).wf(),
        ensures
            final(self).stream() == old(self).stream(),
            final(self).wf(),
            final(self)@ == one_field(old(self).stream(), old(self)@).1,
            match (out, one_field(old(self).stream(), old(self)@).0) {
                (Ok(FieldRead::Frame(fields)), Some(FrameOut::Frame(views))) => {
                    &&& fields_of(fields) == views
                    &&& fields[0]@.wf()
                    &&& fields[1]@.wf()
                },
                (Ok(FieldRead::End), Some(FrameOut::End)) => true,
                (Err(e), Some(FrameOut::Fail(e2))) => e == e2,
                (Ok(FieldRead::More), None) => old(self)@.last_fst != Some(0int) && final(self)@.last_fst == Some(0int),
                _ => false,
            },
    {
        let ghost start = self@;
        let ghost stream = self.stream();
        let fst = match self.read_fst() {
            Err(e) => {
                return Err(e);
            },
            Ok(None) => {
                self.stats.total_bits = self.reading.r.bit_pos();
                assert(self@ =~= one_field(stream, start).1);
                return Ok(FieldRead::End);
            },
            Ok(Some(fst)) => fst,
        };
        if fst.a_flag {
            self.stats.a_flag_fields += 1;
        }
        let f = fst.field;
        // Two consecutive FSTs with the same number: the opposite field was
        // omitted and must be interpolated (§1.5.2.2).
        let omitted = match self.reading.last_fst {
            Some(g) => g == f,
            None => false,
        };
        self.reading.last_fst = Some(f);

        // B1: the field of the same parity before this one, needed for the
        // interpolation of the omitted field and for the emission.
        let b1 = self.store[f].clone();
        let ghost dv1 = self@;
        proof {
            assert(dv1 =~= (DecView {
                pos: start.pos + 48,
                last_fst: Some(f as int),
                stats: DecCounts {
                    a_flag_fields: start.stats.a_flag_fields + if fst.a_flag {
                        1nat
                    } else {
                        0nat
                    },
                    ..start.stats
                },
                ..start
            }));
            lemma_field_counts(stream, dv1, f as int, fst.s_first);
        }
        let complete = match self.decode_field(f, fst.s_first) {
            Err(e) => {
                return Err(e);
            },
            Ok(c) => c,
        };
        let ghost dv2 = self@;
        self.stats.total_bits = self.reading.r.bit_pos();
        proof {
            assert(self@ =~= (DecView {
                stats: DecCounts { total_bits: dv2.pos, ..dv2.stats },
                ..dv2
            }));
        }
        if !complete {
            return Ok(FieldRead::End);
        }
        Ok(self.field_done(f, omitted, b1))
    }

    /// Decodes up to the next complete frame (pair of fields 1 + 2). Returns
    /// `None` at the end of the stream.
    pub fn next_frame(&mut self) -> (out: Result<Option<[FieldStore; 2]>, DecodeError>)
        requires
            old(self).wf(),
        ensures
            final(self).stream() == old(self).stream(),
            final(self).wf(),
            final(self)@ == frame_at(old(self).stream(), old(self)@).1,
            match (out, frame_at(old(self).stream(), old(self)@).0) {
                (Ok(Some(fields)), FrameOut::Frame(views)) => {
                    &&& fields_of(fields) == views
                    &&& fields[0]@.wf()
                    &&& fields[1]@.wf()
                },
                (Ok(None), FrameOut::End) => true,
                (Err(e), FrameOut::Fail(e2)) => e == e2,
                _ => false,
            },
    {
        let ghost start = self@;
        let ghost stream = self.stream();
        if !self.reading.synced {
            if !self.sync_to_fst() {
                return Ok(None);
            }
            self.reading.synced = true;
        }
        let ghost dv0 = synchronized(stream, start);
        proof {
            assert(self@ =~= dv0);
        }
        let mut more = false;
        loop
            invariant
                self.wf(),
                self.stream() == stream,
                stream == old(self).stream(),
                start == old(self)@,
                dv0 == synchronized(stream, start),
                dv0.synced,
                !more ==> self@ == dv0,
                more ==> one_field(stream, dv0) == (None::<FrameOut>, self@) && self@.last_fst
                    == Some(0int),
            decreases if more { 0int } else { 1int },
        {
            match self.next_field() {
                Err(e) => {
                    return Err(e);
                },
                Ok(FieldRead::End) => {
                    return Ok(None);
                },
                Ok(FieldRead::Frame(frame)) => {
                    return Ok(Some(frame));
                },
                Ok(FieldRead::More) => {
                    more = true;
                },
            }
        }
    }
}

/// The counters of fields and frames are the same.
pub open spec fn same_fields_counts(a: DecCounts, b: DecCounts) -> bool {
    &&& a.frames == b.frames
    &&& a.fields_decoded == b.fields_decoded
    &&& a.fields_omitted == b.fields_omitted
    &&& a.a_flag_fields == b.a_flag_fields
    &&& a.total_bits == b.total_bits
}

proof fn lemma_clusters_counts(stream: Seq<bool>, ctx: LineContext, in_chroma: bool, ls: LineState)
    ensures
        same_fields_counts(clusters_at(stream, ctx, in_chroma, ls).1.stats, ls.stats),
    decreases stream.len() - ls.pos,
{
    if !sync_at(stream, ls.pos) {
        lemma_cluster_progress(stream, ctx, ls);
        if !in_chroma {
            match luma_cluster_at(stream, ctx, ls) {
                (EndSpec::Eoc, ls1) => {
                    if bits::number_at(stream, ls1.pos, 8) == Some(0x09nat) {
                        lemma_clusters_counts(
                            stream,
                            ctx,
                            true,
                            LineState { pos: ls1.pos + 8, ..ls1 },
                        );
                    } else {
                        lemma_clusters_counts(stream, ctx, false, ls1);
                    }
                },
                _ => {},
            }
        } else {
            match chroma_cluster_at(stream, ctx, ls) {
                (EndSpec::Eoc, ls1) => {
                    lemma_clusters_counts(stream, ctx, true, ls1);
                },
                _ => {},
            }
        }
    }
}

/// Two states that differ at most in what lines can change.
pub open spec fn same_fields_state(a: DecView, b: DecView) -> bool {
    &&& same_fields_counts(a.stats, b.stats)
    &&& a.last_fst == b.last_fst
    &&& a.synced == b.synced
}

proof fn lemma_line_counts(stream: Seq<bool>, dv: DecView, f: int, l: int, s: bool)
    ensures
        same_fields_state(line_at(stream, dv, f, l, s).1, dv),
{
    match bits::number_at(stream, dv.pos, 8) {
        Some(first) => {
            let in_chroma = first == 0x09;
            let start = LineState {
                pos: if in_chroma {
                    dv.pos + 8
                } else {
                    dv.pos
                },
                stats: DecCounts {
                    moving_lines: dv.stats.moving_lines + 1,
                    subsampled_lines: dv.stats.subsampled_lines + if s {
                        1nat
                    } else {
                        0nat
                    },
                    ..dv.stats
                },
                ..dv.line(f, l, dpcm::none_omitted())
            };
            lemma_clusters_counts(stream, dv.context(f, l, s), in_chroma, start);
        },
        None => {},
    }
}

/// Decoding lines changes none of the counters of fields and frames.
pub proof fn lemma_lines_counts(stream: Seq<bool>, dv: DecView, f: int, l: int, s_first: bool)
    ensures
        same_fields_state(lines_at(stream, dv, f, l, s_first).1, dv),
    decreases LINES_PER_FIELD - l,
{
    if l >= LINES_PER_FIELD {
    } else if l <= 0 {
        lemma_line_counts(stream, dv, f, 0, s_first);
        lemma_lines_counts(stream, line_at(stream, dv, f, 0, s_first).1, f, 1, s_first);
    } else {
        match lst_at(stream, dv.pos) {
            (LstSpec::Lst { aaa, s, line_code }, p1) => {
                let dv1 = DecView { pos: p1, ..dv };
                lemma_line_counts(stream, dv1, f, l, s);
                lemma_lines_counts(stream, line_at(stream, dv1, f, l, s).1, f, l + 1, s_first);
            },
            _ => {},
        }
    }
}

/// A line that was put into a field is found there.
proof fn lemma_line_of(dv: DecView, f: int, l: int, ls: LineState)
    requires
        dv.wf(),
        0 <= f < 2,
        0 <= l < LINES_PER_FIELD,
    ensures
        dv.with_line(f, l, ls).line(f, l, ls.not_trans) == ls,
{
}

/// Of two lines put at the same place, the second one stays.
proof fn lemma_put_twice(dv: DecView, f: int, l: int, a: LineState, b: LineState)
    requires
        dv.wf(),
        0 <= f < 2,
        0 <= l < LINES_PER_FIELD,
    ensures
        dv.with_line(f, l, a).with_line(f, l, b) == dv.with_line(f, l, b),
{
    let (x, y) = (dv.with_line(f, l, a).with_line(f, l, b), dv.with_line(f, l, b));
    assert(x.fields[f] =~= y.fields[f]);
    assert(x.fields =~= y.fields);
}

/// Putting a line back changes only the position and the counters.
proof fn lemma_same_line(
    dv: DecView,
    f: int,
    l: int,
    not_trans: Seq<bool>,
    pos: nat,
    stats: DecCounts,
)
    requires
        dv.wf(),
        0 <= f < 2,
        0 <= l < LINES_PER_FIELD,
    ensures
        dv.with_line(f, l, LineState { pos, stats, ..dv.line(f, l, not_trans) }) == (DecView {
            pos,
            stats,
            ..dv
        }),
{
    let put = dv.with_line(f, l, LineState { pos, stats, ..dv.line(f, l, not_trans) });
    assert(put.fields[f] =~= dv.fields[f]);
    assert(put.fields =~= dv.fields);
}

/// Decoding a field changes none of the counters of fields and frames.
pub proof fn lemma_field_counts(stream: Seq<bool>, dv: DecView, f: int, s_first: bool)
    ensures
        same_fields_state(field_at(stream, dv, f, s_first).1, dv),
{
    reveal(field_at);
    lemma_lines_counts(
        stream,
        DecView {
            fields: dv.fields.update(f, dv.fields[f].at_rest()),
            prev_not_trans: dpcm::none_omitted(),
            ..dv
        },
        f,
        0,
        s_first,
    );
}

} // verus!
