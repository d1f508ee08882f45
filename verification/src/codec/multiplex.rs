//! How a stream is made up: start codes, lines, fields and frames.

use vstd::prelude::*;
use crate::codec;
use crate::codec::bits;
use crate::codec::decoder;
use crate::codec::decoder::{
    DecCounts, DecView, DecodeError, EndSpec, FrameOut, FstSpec, LineEnd, LineState, LstSpec,
};
use crate::codec::dpcm;
use crate::codec::dpcm::LineContext;
use crate::codec::FieldView;

verus! {

/// Only zeros stand in the 12 bits from `p` on, or up to the end of the stream.
pub open spec fn all_zero(stream: Seq<bool>, p: nat) -> bool {
    forall|i: int| p <= i < p + 12 && i < stream.len() ==> !#[trigger] stream[i]
}

/// No element is marked.
pub open spec fn no_marks() -> Seq<bool> {
    Seq::new(256, |i: int| false)
}

/// A PCM line: two bytes 0xFF, then 256 bytes of luminance, the last of which stands
/// for blanking (128), then 52 bytes of chrominance. Nothing moves on it, and no element
/// is omitted. No other line changes.
pub proof fn pcm_line_is_read(
    stream: Seq<bool>,
    dv: DecView,
    f: int,
    l: int,
    sub: bool,
    e: int,
    k: int,
)
    requires
        dv.wf(),
        0 <= f < 2,
        0 <= l < 143,
        bits::number_at(stream, dv.pos, 8) == Some(255nat),
        bits::number_at(stream, dv.pos + 8, 8) == Some(255nat),
        dv.pos + 2480 <= stream.len(),
        0 <= e < 256,
        0 <= k < 52,
    ensures
        ({
            let (end, got) = decoder::line_at(stream, dv, f, l, sub);
            &&& end is Done
            &&& got.pos == dv.pos + 2480
            &&& got.fields.len() == 2
            &&& got.fields[1 - f] == dv.fields[1 - f]
            &&& got.fields[f].y[l].len() == 256 && got.fields[f].c[l].len() == 52
            &&& e < 255 ==> bits::number_at(stream, (dv.pos + 16 + 8 * e) as nat, 8) == Some(
                got.fields[f].y[l][e] as nat,
            )
            &&& got.fields[f].y[l][255] == 128
            &&& bits::number_at(stream, (dv.pos + 2064 + 8 * k) as nat, 8) == Some(
                got.fields[f].c[l][k] as nat,
            )
            &&& !got.fields[f].y_moving[l][e]
            &&& !got.fields[f].c_moving[l][k]
            &&& forall|i: int|
                0 <= i < 143 && i != l ==> #[trigger] got.fields[f].y[i] == dv.fields[f].y[i]
                    && got.fields[f].c[i] == dv.fields[f].c[i]
            &&& got.prev_not_trans == no_marks()
            &&& got.stats == (DecCounts { pcm_lines: dv.stats.pcm_lines + 1, ..dv.stats })
        }),
{
    let got = decoder::line_at(stream, dv, f, l, sub).1;
    let p1 = dv.pos + 16;
    assert(dv.fields[f].wf()) by {
        assert(dv.fields[0].wf() && dv.fields[1].wf());
    }
    assert(decoder::bytes_left(stream, p1) >= 308);
    lemma_byte(stream, p1, e);
    lemma_byte(stream, p1, 256 + k);
    assert(p1 + 8 * (256 + k) == dv.pos + 2064 + 8 * k);
    assert(dpcm::none_omitted() =~= no_marks());
}

/// A byte is the number in its 8 bits.
proof fn lemma_byte(stream: Seq<bool>, p: nat, i: int)
    requires
        0 <= i,
        p + 8 * i + 8 <= stream.len(),
    ensures
        bits::number_at(stream, (p + 8 * i) as nat, 8) == Some(
            decoder::byte_at(stream, p, i) as nat,
        ),
{
    let seg = stream.subrange(p + 8 * i, p + 8 * i + 8);
    bits::lemma_value_bound(seg);
    vstd::arithmetic::power2::lemma2_to64();
}

/// A line at whose place 12 zeros stand, or which has fewer than 8 bits left, is empty:
/// nothing changes but the count of empty lines.
pub proof fn empty_line_is_read(stream: Seq<bool>, dv: DecView, f: int, l: int, sub: bool)
    requires
        dv.pos <= stream.len(),
        all_zero(stream, dv.pos) || dv.pos + 8 > stream.len(),
    ensures
        ({
            let (end, got) = decoder::line_at(stream, dv, f, l, sub);
            &&& end is Done
            &&& got.pos == dv.pos
            &&& got.fields == dv.fields
            &&& got.last_fst == dv.last_fst
            &&& got.synced == dv.synced
            &&& got.prev_not_trans == no_marks()
            &&& got.stats == (DecCounts { empty_lines: dv.stats.empty_lines + 1, ..dv.stats })
        }),
{
    if dv.pos + 8 <= stream.len() {
        let seg = stream.subrange(dv.pos as int, (dv.pos + 8) as int);
        bits::lemma_value_zero(seg);
        assert forall|i: int| 0 <= i < seg.len() implies !#[trigger] seg[i] by {
            assert(!stream[dv.pos + i]);
        }
        assert(decoder::sync_at(stream, dv.pos));
    }
    assert(dpcm::none_omitted() =~= no_marks());
}

/// Any other line holds clusters: of luminance, or, behind the byte 0x09, of chrominance
/// alone. They are decoded against the line above of the same field and its omitted
/// elements; a subsampled line sends the even elements on even lines, the odd ones on
/// odd lines. The last luminance element ends at blanking level.
pub proof fn line_of_clusters_is_read(
    stream: Seq<bool>,
    dv: DecView,
    f: int,
    l: int,
    sub: bool,
    first: nat,
)
    requires
        dv.wf(),
        0 <= f < 2,
        0 <= l < 143,
        bits::number_at(stream, dv.pos, 8) == Some(first),
        first != 255,
        !all_zero(stream, dv.pos),
    ensures
        ({
            let field = dv.fields[f];
            let (end, ls) = decoder::clusters_at(
                stream,
                LineContext {
                    prev: if l == 0 {
                        None
                    } else {
                        Some(field.y[l - 1])
                    },
                    prev_not_trans: dv.prev_not_trans,
                    parity: l % 2,
                    subsampled: sub,
                },
                first == 9,
                LineState {
                    pos: if first == 9 {
                        dv.pos + 8
                    } else {
                        dv.pos
                    },
                    y: field.y[l],
                    c: field.c[l],
                    y_moving: field.y_moving[l],
                    c_moving: field.c_moving[l],
                    not_trans: no_marks(),
                    stats: DecCounts {
                        moving_lines: dv.stats.moving_lines + 1,
                        subsampled_lines: dv.stats.subsampled_lines + if sub {
                            1nat
                        } else {
                            0nat
                        },
                        ..dv.stats
                    },
                },
            );
            let (stop, got) = decoder::line_at(stream, dv, f, l, sub);
            let after = got.fields[f];
            &&& stop == end
            &&& got.pos == ls.pos
            &&& got.stats == ls.stats
            &&& got.last_fst == dv.last_fst
            &&& got.synced == dv.synced
            &&& got.fields[1 - f] == dv.fields[1 - f]
            &&& after.c[l] == ls.c
            &&& after.y_moving[l] == ls.y_moving
            &&& after.c_moving[l] == ls.c_moving
            &&& end is Done ==> after.y[l] == ls.y.update(255, 128) && got.prev_not_trans
                == ls.not_trans
            &&& !(end is Done) ==> after.y[l] == ls.y && got.prev_not_trans == dv.prev_not_trans
            &&& forall|i: int|
                0 <= i < 143 && i != l ==> {
                    &&& #[trigger] after.y[i] == field.y[i]
                    &&& after.c[i] == field.c[i]
                    &&& after.y_moving[i] == field.y_moving[i]
                    &&& after.c_moving[i] == field.c_moving[i]
                }
        }),
{
    assert(dv.fields[f].wf()) by {
        assert(dv.fields[0].wf() && dv.fields[1].wf());
    }
    assert(dpcm::none_omitted() =~= no_marks());
    assert(!decoder::sync_at(stream, dv.pos));
    assert((144 + l) % 2 == l % 2);
    let ctx = dv.context(f, l, sub);
    assert(ctx.parity == l % 2);
}

/// The clusters of a line follow each other, luminance first; behind the end of a
/// luminance cluster the byte 0x09 leads over to chrominance. The line ends where 12
/// zeros stand.
pub proof fn clusters_follow_each_other(
    stream: Seq<bool>,
    ctx: LineContext,
    in_chroma: bool,
    ls: LineState,
)
    ensures
        ({
            let got = decoder::clusters_at(stream, ctx, in_chroma, ls);
            let (end, next) = if in_chroma {
                decoder::chroma_cluster_at(stream, ctx, ls)
            } else {
                decoder::luma_cluster_at(stream, ctx, ls)
            };
            &&& all_zero(stream, ls.pos) ==> got == (LineEnd::Done, ls)
            &&& !all_zero(stream, ls.pos) ==> {
                &&& end is Eof ==> got == (LineEnd::Eof, next)
                &&& end matches EndSpec::Fail(e) ==> got == (LineEnd::Fail(e), next)
                &&& end is Sync ==> got == (LineEnd::Done, next)
                &&& end is Eoc && !in_chroma && bits::number_at(stream, next.pos, 8) == Some(9nat)
                    ==> got == decoder::clusters_at(
                    stream,
                    ctx,
                    true,
                    LineState { pos: next.pos + 8, ..next },
                )
                &&& end is Eoc && !(!in_chroma && bits::number_at(stream, next.pos, 8) == Some(
                    9nat,
                )) ==> got == decoder::clusters_at(stream, ctx, in_chroma, next)
            }
        }),
{
    assert(decoder::sync_at(stream, ls.pos) == all_zero(stream, ls.pos));
}

/// A line start code stands at `p`: 12 zeros, a one, `aaa`, the bit `s`, a line code.
pub open spec fn start_code_at(
    stream: Seq<bool>,
    p: nat,
    aaa: nat,
    s: bool,
    line_code: nat,
) -> bool {
    &&& p + 20 <= stream.len()
    &&& forall|i: int| p <= i < p + 12 ==> !#[trigger] stream[i]
    &&& stream[(p + 12) as int]
    &&& bits::number_at(stream, p + 13, 3) == Some(aaa)
    &&& stream[(p + 16) as int] == s
    &&& bits::number_at(stream, p + 17, 3) == Some(line_code)
}

/// A start code is read as its parts.
pub proof fn start_code_is_read(stream: Seq<bool>, p: nat, aaa: nat, s: bool, line_code: nat)
    requires
        start_code_at(stream, p, aaa, s, line_code),
    ensures
        decoder::lst_at(stream, p) == (LstSpec::Lst { aaa, s, line_code }, p + 20),
{
    let head = stream.subrange(p as int, (p + 13) as int);
    assert(head.drop_last() =~= stream.subrange(p as int, (p + 12) as int));
    bits::lemma_value_zero(head.drop_last());
    assert forall|i: int| 0 <= i < head.drop_last().len() implies !#[trigger] head.drop_last()[i] by {
        assert(!stream[p + i]);
    }
    assert(bits::value_of(head) == 1);
    let bit = stream.subrange((p + 16) as int, (p + 17) as int);
    assert(bit.drop_last() =~= Seq::<bool>::empty());
    assert(bits::value_of(bit.drop_last()) == 0);
    assert(bit.last() == s);
}

/// A line behind the first starts with its start code: AAA 000, the subsampling bit of
/// the line, the three low bits of the line number (lines of field 2 count from 144).
pub proof fn lines_follow_each_other(
    stream: Seq<bool>,
    dv: DecView,
    f: int,
    l: int,
    s_first: bool,
    s: bool,
)
    requires
        0 <= f < 2,
        1 <= l < 143,
        start_code_at(stream, dv.pos, 0, s, (l % 8) as nat),
    ensures
        ({
            let got = decoder::lines_at(stream, dv, f, l, s_first);
            let line = decoder::line_at(stream, DecView { pos: dv.pos + 20, ..dv }, f, l, s);
            &&& line.0 is Done ==> got == decoder::lines_at(stream, line.1, f, l + 1, s_first)
            &&& !(line.0 is Done) ==> got == line
        }),
{
    start_code_is_read(stream, dv.pos, 0, s, (l % 8) as nat);
    assert((144 + l) % 8 == l % 8);
}

/// The first line of a field stands right behind the field start code, which carries
/// its subsampling bit; a field has 143 lines.
pub proof fn field_has_143_lines(stream: Seq<bool>, dv: DecView, f: int, s_first: bool)
    ensures
        ({
            let line = decoder::line_at(stream, dv, f, 0, s_first);
            let got = decoder::lines_at(stream, dv, f, 0, s_first);
            &&& line.0 is Done ==> got == decoder::lines_at(stream, line.1, f, 1, s_first)
            &&& !(line.0 is Done) ==> got == line
            &&& decoder::lines_at(stream, dv, f, 143, s_first) == (LineEnd::Done, dv)
        }),
{
}

/// A field start code: a start code with line code 111 and AAA 111 or 000 (A bit), whose
/// S bit is F; the byte 0000F11F; a start code with line code 000 and the subsampling
/// bit of the first line. F is 1 for field 1, 0 for field 2.
pub proof fn field_start_code_is_read(
    stream: Seq<bool>,
    p: nat,
    f: int,
    a: bool,
    s_first: bool,
)
    requires
        0 <= f < 2,
        start_code_at(
            stream,
            p,
            if a {
                7
            } else {
                0
            },
            f == 0,
            7,
        ),
        bits::number_at(stream, p + 20, 8) == Some(
            if f == 0 {
                0b0000_1111nat
            } else {
                0b0000_0110nat
            },
        ),
        start_code_at(stream, p + 28, 0, s_first, 0),
    ensures
        decoder::fst_at(stream, p) == (
            FstSpec::Fst { field: f, a_flag: a, s_first },
            p + 48,
        ),
        decoder::looks_like_fst_at(stream, p),
        decoder::first_fst(stream, p) == Some(p),
{
    let aaa: nat = if a {
        7
    } else {
        0
    };
    start_code_is_read(stream, p, aaa, f == 0, 7);
    start_code_is_read(stream, p + 28, 0, s_first, 0);
}

/// The decoder starts at the first field start code of the stream: none stands before
/// it.
pub proof fn decoding_starts_at_the_first(stream: Seq<bool>, p: nat, q: nat)
    requires
        p <= q,
    ensures
        decoder::first_fst(stream, p) matches Some(r) ==> {
            &&& p <= r
            &&& decoder::looks_like_fst_at(stream, r)
            &&& q < r ==> !decoder::looks_like_fst_at(stream, q)
        },
        decoder::first_fst(stream, p) is None && q + 48 <= stream.len()
            ==> !decoder::looks_like_fst_at(stream, q),
    decreases stream.len() - p,
{
    if p + 48 <= stream.len() && !decoder::looks_like_fst_at(stream, p) && p < q {
        decoding_starts_at_the_first(stream, p + 1, q);
    } else if p + 48 <= stream.len() && !decoder::looks_like_fst_at(stream, p) {
        decoding_starts_at_the_first(stream, p + 1, p + 1);
    }
}

/// A field: nothing moves before its lines are read, and nothing is omitted above its
/// first line. A field that follows a field of the same number tells that the field
/// between them was omitted: it is interpolated between the two. A frame comes out
/// behind field 2, or behind a field 1 that tells that field 2 was omitted: the field 1
/// before it and the interpolated field.
pub proof fn field_completes_a_frame(
    stream: Seq<bool>,
    dv: DecView,
    f: int,
    a: bool,
    s_first: bool,
    p1: nat,
    still_y: Seq<Seq<bool>>,
    still_c: Seq<Seq<bool>>,
)
    requires
        dv.wf(),
        0 <= f < 2,
        decoder::fst_at(stream, dv.pos) == (FstSpec::Fst { field: f, a_flag: a, s_first }, p1),
        still_y == Seq::new(143, |l: int| Seq::new(256, |e: int| false)),
        still_c == Seq::new(143, |l: int| Seq::new(52, |e: int| false)),
    ensures
        ({
            let was = dv.fields[f];
            let (end, read) = decoder::lines_at(
                stream,
                DecView {
                    pos: p1,
                    fields: dv.fields.update(
                        f,
                        FieldView { y: was.y, c: was.c, y_moving: still_y, c_moving: still_c },
                    ),
                    last_fst: Some(f),
                    synced: dv.synced,
                    prev_not_trans: no_marks(),
                    stats: DecCounts {
                        a_flag_fields: dv.stats.a_flag_fields + if a {
                            1nat
                        } else {
                            0nat
                        },
                        ..dv.stats
                    },
                },
                f,
                0,
                s_first,
            );
            let omitted = dv.last_fst == Some(f);
            let (out, got) = decoder::one_field(stream, dv);
            &&& end is Eof ==> out == Some(FrameOut::End) && got.fields == read.fields
                && got.stats.total_bits == read.pos
            &&& end matches LineEnd::Fail(e) ==> out == Some(FrameOut::Fail(e))
            &&& end is Done ==> {
                &&& got.pos == read.pos
                &&& got.fields[f] == read.fields[f]
                &&& !omitted ==> got.fields[1 - f] == read.fields[1 - f]
                &&& omitted ==> got.fields[1 - f] == codec::interpolated(
                    read.fields[1 - f],
                    1 - f,
                    was,
                    read.fields[f],
                )
                &&& f == 1 ==> out == Some(FrameOut::Frame(got.fields))
                &&& f == 0 && omitted ==> out == Some(FrameOut::Frame(seq![was, got.fields[1]]))
                &&& f == 0 && !omitted ==> out is None
                &&& got.stats.fields_decoded == read.stats.fields_decoded + 1
                &&& got.stats.fields_omitted == read.stats.fields_omitted + if omitted {
                    1nat
                } else {
                    0nat
                }
                &&& got.stats.frames == read.stats.frames + if f == 1 || omitted {
                    1nat
                } else {
                    0nat
                }
                &&& got.stats.total_bits == read.pos
            }
        }),
{
    reveal(decoder::field_at);
    assert(dpcm::none_omitted() =~= no_marks());
    let rest = dv.fields[f].at_rest();
    assert(rest.y_moving =~= still_y);
    assert(rest.c_moving =~= still_c);
    let start = DecView {
        pos: p1,
        fields: dv.fields.update(f, rest),
        last_fst: Some(f),
        prev_not_trans: no_marks(),
        stats: DecCounts {
            a_flag_fields: dv.stats.a_flag_fields + if a {
                1nat
            } else {
                0nat
            },
            ..dv.stats
        },
        ..dv
    };
    lemma_two_fields(stream, start, f, 0, s_first);
}

/// Reading lines keeps the number of fields.
proof fn lemma_two_fields(stream: Seq<bool>, dv: DecView, f: int, l: int, s_first: bool)
    requires
        0 <= f < dv.fields.len(),
    ensures
        decoder::lines_at(stream, dv, f, l, s_first).1.fields.len() == dv.fields.len(),
    decreases 143 - l,
{
    if l >= 143 {
    } else if l <= 0 {
        lemma_two_fields(
            stream,
            decoder::line_at(stream, dv, f, 0, s_first).1,
            f,
            1,
            s_first,
        );
    } else {
        match decoder::lst_at(stream, dv.pos) {
            (LstSpec::Lst { aaa, s, line_code }, p1) => {
                let next = decoder::line_at(stream, DecView { pos: p1, ..dv }, f, l, s).1;
                lemma_two_fields(stream, next, f, l + 1, s_first);
            },
            _ => {},
        }
    }
}

/// Before anything is decoded, both fields are at blanking level (128), nothing moves,
/// and nothing is counted.
pub proof fn decoding_starts_from_blanking(l: int, e: int, k: int)
    requires
        0 <= l < 143,
        0 <= e < 256,
        0 <= k < 52,
    ensures
        ({
            let dv = decoder::fresh_decoder();
            &&& dv.pos == 0
            &&& !dv.synced
            &&& dv.last_fst is None
            &&& dv.fields.len() == 2
            &&& forall|f: int|
                0 <= f < 2 ==> {
                    &&& (#[trigger] dv.fields[f]).y[l][e] == 128
                    &&& dv.fields[f].c[l][k] == 128
                    &&& !dv.fields[f].y_moving[l][e]
                    &&& !dv.fields[f].c_moving[l][k]
                }
            &&& dv.stats.frames == 0 && dv.stats.fields_decoded == 0 && dv.stats.fields_omitted == 0
            &&& dv.stats.pcm_lines == 0 && dv.stats.empty_lines == 0 && dv.stats.moving_lines == 0
            &&& dv.stats.subsampled_lines == 0 && dv.stats.luma_clusters == 0
            &&& dv.stats.chroma_clusters == 0 && dv.stats.extra_elements == 0
            &&& dv.stats.a_flag_fields == 0 && dv.stats.total_bits == 0
        }),
{
}

/// A PCM line that the stream cuts off: the samples that were there are stored, the
/// others stay, and the marks stay.
pub proof fn cut_pcm_line_is_read(
    stream: Seq<bool>,
    dv: DecView,
    f: int,
    l: int,
    sub: bool,
    e: int,
    k: int,
)
    requires
        dv.wf(),
        0 <= f < 2,
        0 <= l < 143,
        bits::number_at(stream, dv.pos, 8) == Some(255nat),
        bits::number_at(stream, dv.pos + 8, 8) == Some(255nat),
        stream.len() < dv.pos + 2480,
        0 <= e < 255,
        0 <= k < 52,
    ensures
        ({
            let (end, got) = decoder::line_at(stream, dv, f, l, sub);
            let here = |p: int| p + 8 <= stream.len();
            &&& end is Eof
            &&& here(dv.pos + 16 + 8 * e) ==> bits::number_at(
                stream,
                (dv.pos + 16 + 8 * e) as nat,
                8,
            ) == Some(got.fields[f].y[l][e] as nat)
            &&& !here(dv.pos + 16 + 8 * e) ==> got.fields[f].y[l][e] == dv.fields[f].y[l][e]
            &&& here(dv.pos + 2056int) ==> got.fields[f].y[l][255] == 128
            &&& here(dv.pos + 2064 + 8 * k) ==> bits::number_at(
                stream,
                (dv.pos + 2064 + 8 * k) as nat,
                8,
            ) == Some(got.fields[f].c[l][k] as nat)
            &&& !here(dv.pos + 2064 + 8 * k) ==> got.fields[f].c[l][k] == dv.fields[f].c[l][k]
            &&& got.fields[f].y_moving == dv.fields[f].y_moving
            &&& got.fields[f].c_moving == dv.fields[f].c_moving
            &&& got.stats == (DecCounts { pcm_lines: dv.stats.pcm_lines + 1, ..dv.stats })
        }),
{
    assert(dv.fields[f].wf()) by {
        assert(dv.fields[0].wf() && dv.fields[1].wf());
    }
    let p1 = dv.pos + 16;
    if p1 + 8 * e + 8 <= stream.len() {
        lemma_byte(stream, p1, e);
    }
    if p1 + 8 * (256 + k) + 8 <= stream.len() {
        lemma_byte(stream, p1, 256 + k);
    }
    assert(p1 + 8 * (256 + k) == dv.pos + 2064 + 8 * k);
    let n = decoder::bytes_left(stream, p1);
    assert(n < 308);
    assert(e < n <==> p1 + 8 * e + 8 <= stream.len());
    assert(256 + k < n <==> p1 + 8 * (256 + k) + 8 <= stream.len());
}

/// Where no field start code fits any more, the stream ends; the bits read are counted.
pub proof fn stream_ends_without_a_start_code(stream: Seq<bool>, dv: DecView)
    requires
        dv.pos + 48 > stream.len(),
    ensures
        ({
            let (out, got) = decoder::one_field(stream, dv);
            &&& out == Some(FrameOut::End)
            &&& got.fields == dv.fields
            &&& got.pos == dv.pos
            &&& got.stats == (DecCounts { total_bits: dv.pos, ..dv.stats })
        }),
{
}

/// A call of the decoder reads one field, and a second one if the first was a field 1
/// that completes no frame.
pub proof fn a_call_reads_up_to_two_fields(stream: Seq<bool>, dv: DecView)
    requires
        dv.synced,
    ensures
        ({
            let (out, got) = decoder::one_field(stream, dv);
            let (out2, got2) = decoder::one_field(stream, got);
            &&& out matches Some(frame) ==> decoder::frame_at(stream, dv) == (frame, got)
            &&& out is None ==> (out2 matches Some(frame) ==> decoder::frame_at(stream, dv) == (
                frame,
                got2,
            ))
        }),
{
}

/// The 12 zeros and the one that start codes begin with stand at `p`.
pub open spec fn start_word_at(stream: Seq<bool>, p: nat) -> bool {
    &&& p + 13 <= stream.len()
    &&& forall|i: int| p <= i < p + 12 ==> !#[trigger] stream[i]
    &&& stream[(p + 12) as int]
}

/// Where a number is 0, all its bits are.
proof fn lemma_no_ones(s: Seq<bool>, i: int)
    requires
        bits::value_of(s) == 0,
        0 <= i < s.len(),
    ensures
        !s[i],
    decreases s.len(),
{
    if i < s.len() - 1 {
        lemma_no_ones(s.drop_last(), i);
    }
}

/// Thirteen bits are the number 1 if they are 12 zeros and a one, and only then.
proof fn lemma_start_word(stream: Seq<bool>, p: nat)
    requires
        p + 13 <= stream.len(),
    ensures
        bits::number_at(stream, p, 13) == Some(1nat) <==> start_word_at(stream, p),
{
    let head = stream.subrange(p as int, (p + 13) as int);
    let zeros = head.drop_last();
    assert(bits::value_of(head) == 2 * bits::value_of(zeros) + if head.last() {
        1nat
    } else {
        0nat
    });
    assert(head.last() == stream[(p + 12) as int]);
    if bits::number_at(stream, p, 13) == Some(1nat) {
        assert(bits::value_of(zeros) == 0);
        assert forall|i: int| p <= i < p + 12 implies !#[trigger] stream[i] by {
            lemma_no_ones(zeros, i - p);
            assert(zeros[i - p] == stream[i]);
        }
    }
    if start_word_at(stream, p) {
        assert forall|i: int| 0 <= i < zeros.len() implies !#[trigger] zeros[i] by {
            assert(!stream[p + i]);
        }
        bits::lemma_value_zero(zeros);
    }
}

/// One bit is a number.
proof fn lemma_bit(stream: Seq<bool>, p: nat)
    requires
        p < stream.len(),
    ensures
        bits::number_at(stream, p, 1) == Some(
            if stream[p as int] {
                1nat
            } else {
                0nat
            },
        ),
{
    let bit = stream.subrange(p as int, (p + 1) as int);
    assert(bit.drop_last() =~= Seq::<bool>::empty());
    assert(bits::value_of(bit.drop_last()) == 0);
    assert(bit.last() == stream[p as int]);
}

/// Whatever does not begin with 12 zeros and a one is no start code; what begins so is
/// one, if the stream does not end within its 20 bits.
pub proof fn start_codes_begin_with_a_word(stream: Seq<bool>, p: nat)
    ensures
        ({
            let (read, p1) = decoder::lst_at(stream, p);
            &&& p + 13 > stream.len() ==> read is Eof && p1 == p
            &&& p + 13 <= stream.len() && !start_word_at(stream, p) ==> read is Invalid && p1 == p
                + 13
            &&& start_word_at(stream, p) && p + 20 > stream.len() ==> read is Eof
            &&& start_word_at(stream, p) && p + 20 <= stream.len() ==> p1 == p + 20 && (
            read matches LstSpec::Lst { aaa, s, line_code } && start_code_at(
                stream,
                p,
                aaa,
                s,
                line_code,
            ))
        }),
{
    if p + 13 <= stream.len() {
        lemma_start_word(stream, p);
        if p + 16 < stream.len() {
            lemma_bit(stream, p + 16);
        }
    }
}

/// What is taken for a field start code in the search for the first one has all its
/// parts: line code 111, AAA 000 or 111, the byte 0000F11F whose F is the S bit of the
/// first start code, AAA 000 and line code 000 in the second one.
pub proof fn only_field_start_codes_are_found(stream: Seq<bool>, p: nat)
    requires
        decoder::looks_like_fst_at(stream, p),
    ensures
        ({
            let f_bit = stream[(p + 16) as int];
            &&& start_code_at(stream, p, 0, f_bit, 7) || start_code_at(stream, p, 7, f_bit, 7)
            &&& bits::number_at(stream, p + 20, 8) == Some(
                if f_bit {
                    15nat
                } else {
                    6nat
                },
            )
            &&& start_code_at(stream, p + 28, 0, stream[(p + 44) as int], 0)
        }),
{
    start_codes_begin_with_a_word(stream, p);
    start_codes_begin_with_a_word(stream, p + 28);
}

/// A field start code that does not have its parts is an error, which tells the first
/// part that is wrong: the start word (and where it was looked for), the line code, the
/// central byte, the second start word, the second line code.
pub proof fn field_start_codes_are_checked(stream: Seq<bool>, dv: DecView, code: nat, mid: nat)
    requires
        dv.pos + 48 <= stream.len(),
        bits::number_at(stream, dv.pos + 17, 3) == Some(code),
        bits::number_at(stream, dv.pos + 20, 8) == Some(mid),
    ensures
        ({
            let p = dv.pos;
            let second = bits::number_at(stream, p + 45, 3);
            let (out, got) = decoder::one_field(stream, dv);
            let fails = |e: DecodeError| out == Some(FrameOut::Fail(e));
            let first_ok = start_word_at(stream, p) && code == 7;
            let mid_ok = first_ok && (mid == 15 || mid == 6);
            &&& !start_word_at(stream, p) ==> fails(DecodeError::FstExpected { bit: p as u64 })
            &&& start_word_at(stream, p) && code != 7 ==> fails(
                DecodeError::FstLineCode { found: code as u32 },
            )
            &&& first_ok && mid != 15 && mid != 6 ==> fails(
                DecodeError::FstMiddleByte { found: mid as u32 },
            )
            &&& mid_ok && !start_word_at(stream, p + 28) ==> fails(DecodeError::FstSecondLst)
            &&& mid_ok && start_word_at(stream, p + 28) && second != Some(0nat) ==> fails(
                DecodeError::FstSecondLineCode,
            )
            &&& !(mid_ok && start_word_at(stream, p + 28) && second == Some(0nat)) ==> got.fields
                == dv.fields && got.stats == dv.stats
        }),
{
    start_codes_begin_with_a_word(stream, dv.pos);
    start_codes_begin_with_a_word(stream, dv.pos + 28);
}

/// A line behind the first that does not start with its start code is an error, which
/// tells the number of the line (those of field 2 count from 144) and, where a start code
/// stands, the line code that was read and the one that was due.
pub proof fn line_start_codes_are_checked(
    stream: Seq<bool>,
    dv: DecView,
    f: int,
    l: int,
    s_first: bool,
    aaa: nat,
    code: nat,
)
    requires
        0 <= f < 2,
        1 <= l < 143,
        dv.pos + 20 <= stream.len(),
        bits::number_at(stream, dv.pos + 13, 3) == Some(aaa),
        bits::number_at(stream, dv.pos + 17, 3) == Some(code),
    ensures
        ({
            let (end, got) = decoder::lines_at(stream, dv, f, l, s_first);
            let n = if f == 0 {
                l
            } else {
                144 + l
            };
            let wrong = aaa != 0 || code != l % 8;
            &&& !start_word_at(stream, dv.pos) ==> end == LineEnd::Fail(
                DecodeError::LstMissing { line: n as usize },
            )
            &&& start_word_at(stream, dv.pos) && wrong ==> end == LineEnd::Fail(
                DecodeError::LstUnexpected {
                    line: n as usize,
                    found: code as u32,
                    expected: (l % 8) as u32,
                },
            )
            &&& !start_word_at(stream, dv.pos) || wrong ==> got.fields == dv.fields && got.stats
                == dv.stats
        }),
{
    start_codes_begin_with_a_word(stream, dv.pos);
    assert((144 + l) % 8 == l % 8);
}

/// A byte 0xFF at the start of a line that no second one follows is an error; where the
/// stream ends instead, it ends.
pub proof fn pcm_marker_is_checked(
    stream: Seq<bool>,
    dv: DecView,
    f: int,
    l: int,
    sub: bool,
    second: nat,
)
    requires
        bits::number_at(stream, dv.pos, 8) == Some(255nat),
    ensures
        ({
            let (end, got) = decoder::line_at(stream, dv, f, l, sub);
            let next = bits::number_at(stream, dv.pos + 8, 8);
            &&& next is None ==> end is Eof && got.fields == dv.fields
            &&& next == Some(second) && second != 255 ==> end == LineEnd::Fail(
                DecodeError::PcmMarker { found: second as u32 },
            ) && got.fields == dv.fields
        }),
{
}

/// A decoder that has not found its first field start code yet looks for it, and goes on
/// from there; where none stands, the stream ends, with nothing decoded.
pub proof fn decoder_synchronizes(stream: Seq<bool>, dv: DecView)
    requires
        !dv.synced,
    ensures
        match decoder::first_fst(stream, dv.pos) {
            Some(p) => decoder::frame_at(stream, dv) == decoder::frame_at(
                stream,
                DecView { pos: p, synced: true, ..dv },
            ),
            None => {
                let (out, got) = decoder::frame_at(stream, dv);
                &&& out is End
                &&& got.fields == dv.fields
                &&& got.stats == dv.stats
                &&& !got.synced
            },
        },
{
}

} // verus!
