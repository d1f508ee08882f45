//! Pre- and post-processing: conversion between Y4M frames and the H.120
//! source format (luma 256×143/field, chroma 52 samples/line alternating
//! B'−Y' / R'−Y', §1.4.1 and §1.4.2).
//!
//! The exact characteristics of the pre/post filters are left free by the
//! Recommendation; bilinear resizing is used.

use vstd::prelude::*;
use vstd::slice::*;
use crate::codec;
use crate::codec::{
    chroma_comp, clamp_c, clamp_y, ChromaComp, FieldStore, FieldView, BLANKING, CHROMA_WIDTH,
    C_MAX, C_MIN, LINES_PER_FIELD, LINES_PER_FRAME, WIDTH, Y_MAX, Y_MIN,
};
use crate::scale;
use crate::scale::resize_plane;
use crate::text::push_bytes;
use crate::y4m;
use crate::y4m::{Frame444, FrameView};

verus! {

/// Height of the displayed image: 286 woven lines + 2 padding lines (to make
/// an even height, convenient for downstream conversions).
pub const OUT_HEIGHT: usize = 288;

/// Pixel aspect ratio: the 256×286 image covers a 4:3 screen, i.e.
/// (4/3) / (256/286) = 1144/768 = 143/96.
pub const PAR: (u32, u32) = (143, 96);

/// One input field ready to be coded.
pub struct FieldInput {
    pub y: Vec<[u8; WIDTH]>,
    /// The component transmitted on each line (Cb or Cr depending on the line).
    pub c: Vec<[u8; CHROMA_WIDTH]>,
}

/// The contents of an input field.
#[verifier::ext_equal]
pub struct InputView {
    pub y: Seq<Seq<u8>>,
    pub c: Seq<Seq<u8>>,
}

impl View for FieldInput {
    type V = InputView;

    open spec fn view(&self) -> InputView {
        InputView { y: codec::rows(self.y@), c: codec::rows(self.c@) }
    }
}

impl InputView {
    /// 143 lines of legal samples, the last luminance sample of each at
    /// blanking level.
    pub open spec fn wf(self) -> bool {
        &&& codec::is_grid(self.y, LINES_PER_FIELD as nat, WIDTH as nat)
        &&& codec::is_grid(self.c, LINES_PER_FIELD as nat, CHROMA_WIDTH as nat)
        &&& forall|l: int, e: int|
            0 <= l < LINES_PER_FIELD && 0 <= e < WIDTH ==> Y_MIN <= #[trigger] self.y[l][e]
                <= Y_MAX
        &&& forall|l: int|
            0 <= l < LINES_PER_FIELD ==> (#[trigger] self.y[l])[WIDTH - 1] == BLANKING
        &&& forall|l: int, e: int|
            0 <= l < LINES_PER_FIELD && 0 <= e < CHROMA_WIDTH ==> C_MIN <= #[trigger] self.c[l][e]
                <= C_MAX
    }
}

/// The frame can be resized: it is not empty, its planes are full, and its
/// coordinates fit 16.16 fixed point.
pub open spec fn can_ingest(frame: FrameView) -> bool {
    &&& frame.wf()
    &&& 0 < frame.w && frame.w * scale::ONE <= u64::MAX
    &&& 0 < frame.h && frame.h * scale::ONE <= u64::MAX
}

/// A chrominance plane of 52 × 286 samples: that of the frame, or neutral in
/// monochrome.
pub open spec fn chroma_plane(plane: Seq<u8>, frame: FrameView, mono: bool) -> Seq<u8> {
    if mono {
        Seq::new((CHROMA_WIDTH * LINES_PER_FRAME) as nat, |i: int| BLANKING)
    } else {
        scale::resized(plane, frame.w, frame.h, CHROMA_WIDTH as int, LINES_PER_FRAME as int)
    }
}

/// Line `line` of a luminance plane, held between black and white, its last
/// element at blanking level.
pub open spec fn luma_line(plane: Seq<u8>, line: int) -> Seq<u8> {
    Seq::new(
        WIDTH as nat,
        |e: int|
            if e == WIDTH - 1 {
                BLANKING
            } else {
                codec::clip(plane[line * WIDTH + e] as int, Y_MIN, Y_MAX)
            },
    )
}

/// Line `line` of a chrominance plane, held in the legal range.
pub open spec fn chroma_line(plane: Seq<u8>, line: int) -> Seq<u8> {
    Seq::new(
        CHROMA_WIDTH as nat,
        |e: int| codec::clip(plane[line * CHROMA_WIDTH + e] as int, C_MIN, C_MAX),
    )
}

/// Field `f` of three planes of 286 lines: every other line, with the
/// chrominance component that the line carries.
pub open spec fn field_of_planes(y: Seq<u8>, cb: Seq<u8>, cr: Seq<u8>, f: int) -> InputView {
    InputView {
        y: Seq::new(LINES_PER_FIELD as nat, |i: int| luma_line(y, 2 * i + f)),
        c: Seq::new(
            LINES_PER_FIELD as nat,
            |i: int|
                chroma_line(
                    if codec::component(f, i) == ChromaComp::Cb {
                        cb
                    } else {
                        cr
                    },
                    2 * i + f,
                ),
        ),
    }
}

/// Field `f` of a frame: that of its resized planes.
pub open spec fn ingested(frame: FrameView, mono: bool, f: int) -> InputView {
    field_of_planes(
        scale::resized(frame.y, frame.w, frame.h, WIDTH as int, LINES_PER_FRAME as int),
        chroma_plane(frame.cb, frame, mono),
        chroma_plane(frame.cr, frame, mono),
        f,
    )
}

/// An ingested field is legal.
pub proof fn lemma_ingested_legal(frame: FrameView, mono: bool, f: int)
    ensures
        ingested(frame, mono, f).wf(),
{
}

fn ingest_luma_line(plane: &Vec<u8>, src_line: usize) -> (line: [u8; WIDTH])
    requires
        src_line < LINES_PER_FRAME,
        plane@.len() == WIDTH * LINES_PER_FRAME,
    ensures
        line@ == luma_line(plane@, src_line as int),
{
    let mut line = [BLANKING; WIDTH];
    let mut e: usize = 0;
    // The last element of each active line is fixed to 128 in both the encoder
    // and the decoder (§1.4.1.1).
    while e < WIDTH - 1
        invariant
            e <= WIDTH - 1,
            src_line < LINES_PER_FRAME,
            plane@.len() == WIDTH * LINES_PER_FRAME,
            line@[WIDTH - 1] == BLANKING,
            forall|k: int|
                0 <= k < e ==> #[trigger] line@[k] == luma_line(plane@, src_line as int)[k],
        decreases WIDTH - e,
    {
        line[e] = clamp_y(plane[src_line * WIDTH + e] as i16);
        e += 1;
    }
    assert(line@ =~= luma_line(plane@, src_line as int));
    line
}

fn ingest_chroma_line(plane: &Vec<u8>, src_line: usize) -> (line: [u8; CHROMA_WIDTH])
    requires
        src_line < LINES_PER_FRAME,
        plane@.len() == CHROMA_WIDTH * LINES_PER_FRAME,
    ensures
        line@ == chroma_line(plane@, src_line as int),
{
    let mut line = [BLANKING; CHROMA_WIDTH];
    let mut e: usize = 0;
    while e < CHROMA_WIDTH
        invariant
            e <= CHROMA_WIDTH,
            src_line < LINES_PER_FRAME,
            plane@.len() == CHROMA_WIDTH * LINES_PER_FRAME,
            forall|k: int|
                0 <= k < e ==> #[trigger] line@[k] == chroma_line(plane@, src_line as int)[k],
        decreases CHROMA_WIDTH - e,
    {
        line[e] = clamp_c(plane[src_line * CHROMA_WIDTH + e] as i16);
        e += 1;
    }
    assert(line@ =~= chroma_line(plane@, src_line as int));
    line
}

/// One field of the planes `y`, `cb`, `cr`.
fn ingest_field(f: usize, y: &Vec<u8>, cb: &Vec<u8>, cr: &Vec<u8>) -> (field: FieldInput)
    requires
        f < 2,
        y@.len() == WIDTH * LINES_PER_FRAME,
        cb@.len() == CHROMA_WIDTH * LINES_PER_FRAME,
        cr@.len() == CHROMA_WIDTH * LINES_PER_FRAME,
    ensures
        field@ == field_of_planes(y@, cb@, cr@, f as int),
{
    let mut field = FieldInput { y: Vec::new(), c: Vec::new() };
    let ghost want = field_of_planes(y@, cb@, cr@, f as int);
    let mut i: usize = 0;
    while i < LINES_PER_FIELD
        invariant
            i <= LINES_PER_FIELD,
            f < 2,
            y@.len() == WIDTH * LINES_PER_FRAME,
            cb@.len() == CHROMA_WIDTH * LINES_PER_FRAME,
            cr@.len() == CHROMA_WIDTH * LINES_PER_FRAME,
            want == field_of_planes(y@, cb@, cr@, f as int),
            field@.y =~= want.y.take(i as int),
            field@.c =~= want.c.take(i as int),
        decreases LINES_PER_FIELD - i,
    {
        let src_line: usize = 2 * i + f;
        let ghost before = field@;
        field.y.push(ingest_luma_line(y, src_line));
        let plane = match chroma_comp(f, i) {
            ChromaComp::Cb => cb,
            ChromaComp::Cr => cr,
        };
        field.c.push(ingest_chroma_line(plane, src_line));
        proof {
            assert(field@.y =~= before.y.push(want.y[i as int]));
            assert(field@.c =~= before.c.push(want.c[i as int]));
        }
        i += 1;
    }
    assert(field@ =~= want);
    field
}

/// Converts a frame into two fields in the H.120 source format.
/// Field 1 = even lines of the image, field 2 = odd lines (Figure 3).
pub fn ingest(frame: &Frame444, mono: bool) -> (fields: [FieldInput; 2])
    requires
        can_ingest(frame@),
    ensures
        fields[0]@ == ingested(frame@, mono, 0),
        fields[1]@ == ingested(frame@, mono, 1),
{
    let h = LINES_PER_FRAME;
    let y = resize_plane(frame.y.as_slice(), frame.w, frame.h, WIDTH, h);
    let (cb, cr) = if mono {
        (y4m::fill_plane(BLANKING, CHROMA_WIDTH * h), y4m::fill_plane(BLANKING, CHROMA_WIDTH * h))
    } else {
        (
            resize_plane(frame.cb.as_slice(), frame.w, frame.h, CHROMA_WIDTH, h),
            resize_plane(frame.cr.as_slice(), frame.w, frame.h, CHROMA_WIDTH, h),
        )
    };
    let first = ingest_field(0, &y, &cb, &cr);
    let second = ingest_field(1, &y, &cb, &cr);
    proof {
        assert(first@ =~= ingested(frame@, mono, 0));
        assert(second@ =~= ingested(frame@, mono, 1));
    }
    [first, second]
}

/// The chrominance component missing from line `i` of a field: the mean of the
/// lines above and below, which carry it.
pub open spec fn missing_component(c: Seq<Seq<u8>>, i: int) -> Seq<u8> {
    Seq::new(
        CHROMA_WIDTH as nat,
        |e: int|
            if i >= 1 && i + 1 < LINES_PER_FIELD {
                codec::mean(c[i - 1][e], c[i + 1][e])
            } else if i >= 1 {
                c[i - 1][e]
            } else {
                c[i + 1][e]
            },
    )
}

/// The component `comp` on line `i` of field `f`, 52 samples wide.
pub open spec fn line_component(field: FieldView, f: int, i: int, comp: ChromaComp) -> Seq<u8> {
    if codec::component(f, i) == comp {
        field.c[i]
    } else {
        missing_component(field.c, i)
    }
}

/// A chrominance line widened to the width of a luminance line.
pub open spec fn widened(line: Seq<u8>) -> Seq<u8> {
    scale::resized(line, CHROMA_WIDTH as int, 1, WIDTH as int, 1)
}

/// The frame that two fields show: woven lines, the padding lines black.
pub open spec fn egressed(fields: Seq<FieldView>) -> FrameView {
    FrameView {
        w: WIDTH as int,
        h: OUT_HEIGHT as int,
        y: Seq::new(
            (WIDTH * OUT_HEIGHT) as nat,
            |k: int| {
                let line = k / (WIDTH as int);
                if line < LINES_PER_FRAME {
                    fields[line % 2].y[line / 2][k % (WIDTH as int)]
                } else {
                    Y_MIN
                }
            },
        ),
        cb: woven_chroma(fields, ChromaComp::Cb),
        cr: woven_chroma(fields, ChromaComp::Cr),
    }
}

/// A chrominance plane of the frame that two fields show.
pub open spec fn woven_chroma(fields: Seq<FieldView>, comp: ChromaComp) -> Seq<u8> {
    Seq::new(
        (WIDTH * OUT_HEIGHT) as nat,
        |k: int| {
            let line = k / (WIDTH as int);
            if line < LINES_PER_FRAME {
                widened(line_component(fields[line % 2], line % 2, line / 2, comp))[k % (
                WIDTH as int)]
            } else {
                BLANKING
            }
        },
    )
}

/// The missing component of a line.
fn interpolate_component(c: &Vec<[u8; CHROMA_WIDTH]>, i: usize) -> (line: [u8; CHROMA_WIDTH])
    requires
        c@.len() == LINES_PER_FIELD,
        i < LINES_PER_FIELD,
    ensures
        line@ == missing_component(codec::rows(c@), i as int),
{
    let mut line = [BLANKING; CHROMA_WIDTH];
    let mut e: usize = 0;
    while e < CHROMA_WIDTH
        invariant
            e <= CHROMA_WIDTH,
            c@.len() == LINES_PER_FIELD,
            i < LINES_PER_FIELD,
            forall|k: int|
                0 <= k < e ==> #[trigger] line@[k] == missing_component(
                    codec::rows(c@),
                    i as int,
                )[k],
        decreases CHROMA_WIDTH - e,
    {
        line[e] = if i >= 1 && i + 1 < LINES_PER_FIELD {
            ((c[i - 1][e] as u16 + c[i + 1][e] as u16) / 2) as u8
        } else if i >= 1 {
            c[i - 1][e]
        } else {
            c[i + 1][e]
        };
        e += 1;
    }
    assert(line@ =~= missing_component(codec::rows(c@), i as int));
    line
}

/// A plane grows by a line.
proof fn lemma_row(plane: Seq<u8>, line: int, row: Seq<u8>)
    requires
        0 <= line < OUT_HEIGHT,
        plane.len() == WIDTH * OUT_HEIGHT,
        row.len() == WIDTH,
        forall|e: int| 0 <= e < WIDTH ==> plane[line * WIDTH + e] == #[trigger] row[e],
    ensures
        plane.take((line + 1) * WIDTH) == plane.take(line * WIDTH) + row,
{
    let more = plane.take((line + 1) * WIDTH);
    let got = plane.take(line * WIDTH) + row;
    assert forall|k: int| 0 <= k < more.len() implies more[k] == got[k] by {
        if k >= line * WIDTH {
            let e = k - line * WIDTH;
            assert(plane[line * WIDTH + e] == row[e]);
        }
    }
    assert(more =~= got);
}

/// The rows of line `line` of the frame that two fields show.
proof fn lemma_egressed_row(
    fields: Seq<FieldView>,
    line: int,
    y: Seq<u8>,
    cb: Seq<u8>,
    cr: Seq<u8>,
)
    requires
        0 <= line < OUT_HEIGHT,
        y.len() == WIDTH,
        cb.len() == WIDTH,
        cr.len() == WIDTH,
        line < LINES_PER_FRAME ==> {
            let field = fields[line % 2];
            &&& y == field.y[line / 2]
            &&& cb == widened(line_component(field, line % 2, line / 2, ChromaComp::Cb))
            &&& cr == widened(line_component(field, line % 2, line / 2, ChromaComp::Cr))
        },
        line >= LINES_PER_FRAME ==> {
            &&& y == Seq::new(WIDTH as nat, |i: int| Y_MIN)
            &&& cb == Seq::new(WIDTH as nat, |i: int| BLANKING)
            &&& cr == Seq::new(WIDTH as nat, |i: int| BLANKING)
        },
    ensures
        ({
            let want = egressed(fields);
            &&& want.y.take((line + 1) * WIDTH) == want.y.take(line * WIDTH) + y
            &&& want.cb.take((line + 1) * WIDTH) == want.cb.take(line * WIDTH) + cb
            &&& want.cr.take((line + 1) * WIDTH) == want.cr.take(line * WIDTH) + cr
        }),
{
    let want = egressed(fields);
    assert forall|e: int| 0 <= e < WIDTH implies {
        &&& want.y[line * WIDTH + e] == #[trigger] y[e]
        &&& want.cb[line * WIDTH + e] == #[trigger] cb[e]
        &&& want.cr[line * WIDTH + e] == #[trigger] cr[e]
    } by {
        let k = line * WIDTH + e;
        assert(k / (WIDTH as int) == line && k % (WIDTH as int) == e);
    }
    lemma_row(want.y, line, y);
    lemma_row(want.cb, line, cb);
    lemma_row(want.cr, line, cr);
}

/// The two chrominance components of a line, the missing one interpolated.
fn line_components(store: &FieldStore, f: usize, i: usize) -> (both: (Vec<u8>, Vec<u8>))
    requires
        store@.wf(),
        f < 2,
        i < LINES_PER_FIELD,
    ensures
        both.0@ == widened(line_component(store@, f as int, i as int, ChromaComp::Cb)),
        both.1@ == widened(line_component(store@, f as int, i as int, ChromaComp::Cr)),
        both.0@.len() == WIDTH,
        both.1@.len() == WIDTH,
{
    // The component present on this line, and the other one from the
    // neighbouring lines of the same field (which carry it).
    let own = store.c[i];
    let other = interpolate_component(&store.c, i);
    match chroma_comp(f, i) {
        ChromaComp::Cb => (
            resize_plane(own.as_slice(), CHROMA_WIDTH, 1, WIDTH, 1),
            resize_plane(other.as_slice(), CHROMA_WIDTH, 1, WIDTH, 1),
        ),
        ChromaComp::Cr => (
            resize_plane(other.as_slice(), CHROMA_WIDTH, 1, WIDTH, 1),
            resize_plane(own.as_slice(), CHROMA_WIDTH, 1, WIDTH, 1),
        ),
    }
}

/// Reconstructs a displayable frame from the two decoded fields: weaving the
/// fields, interpolating the chroma component missing from each line
/// (§1.4.2.1), then horizontal upsampling 52 → 256.
pub fn egress(store: &[FieldStore; 2]) -> (frame: Frame444)
    requires
        store[0]@.wf(),
        store[1]@.wf(),
    ensures
        frame@ == egressed(seq![store[0]@, store[1]@]),
{
    let mut out = Frame444 { w: WIDTH, h: OUT_HEIGHT, y: Vec::new(), cb: Vec::new(), cr: Vec::new() };
    let ghost fields = seq![store[0]@, store[1]@];
    let ghost want = egressed(fields);
    proof {
        assert(want.y.take(0) =~= Seq::empty());
        assert(want.cb.take(0) =~= Seq::empty());
        assert(want.cr.take(0) =~= Seq::empty());
    }
    let mut line: usize = 0;
    while line < OUT_HEIGHT
        invariant
            line <= OUT_HEIGHT,
            store[0]@.wf(),
            store[1]@.wf(),
            fields == seq![store[0]@, store[1]@],
            want == egressed(fields),
            out.w == WIDTH,
            out.h == OUT_HEIGHT,
            out.y@ == want.y.take(line * WIDTH),
            out.cb@ == want.cb.take(line * WIDTH),
            out.cr@ == want.cr.take(line * WIDTH),
        decreases OUT_HEIGHT - line,
    {
        if line < LINES_PER_FRAME {
            let f: usize = line % 2;
            let i: usize = line / 2;
            assert(store[f as int]@ == fields[line as int % 2]);
            assert(store[f as int]@.wf());
            let y = store[f].y[i];
            let (cb, cr) = line_components(&store[f], f, i);
            proof {
                lemma_egressed_row(fields, line as int, y@, cb@, cr@);
            }
            push_bytes(&mut out.y, &y);
            push_bytes(&mut out.cb, cb.as_slice());
            push_bytes(&mut out.cr, cr.as_slice());
        } else {
            let y = y4m::fill_plane(Y_MIN, WIDTH);
            let c = y4m::fill_plane(BLANKING, WIDTH);
            proof {
                lemma_egressed_row(fields, line as int, y@, c@, c@);
            }
            push_bytes(&mut out.y, y.as_slice());
            push_bytes(&mut out.cb, c.as_slice());
            push_bytes(&mut out.cr, c.as_slice());
        }
        line += 1;
    }
    proof {
        assert(want.y.take(want.y.len() as int) =~= want.y);
        assert(want.cb.take(want.cb.len() as int) =~= want.cb);
        assert(want.cr.take(want.cr.len() as int) =~= want.cr);
        assert(out@ =~= want);
    }
    out
}

/// A plane with every sample repeated `n` times in both directions.
pub open spec fn repeated(plane: Seq<u8>, w: int, h: int, n: int) -> Seq<u8> {
    Seq::new(
        ((w * n) * (h * n)) as nat,
        |k: int| plane[((k / (w * n)) / n) * w + (k % (w * n)) / n],
    )
}

/// A frame with every sample repeated `n` times in both directions.
pub open spec fn upscaled(frame: FrameView, n: int) -> FrameView {
    if n <= 1 {
        frame
    } else {
        FrameView {
            w: frame.w * n,
            h: frame.h * n,
            y: repeated(frame.y, frame.w, frame.h, n),
            cb: repeated(frame.cb, frame.w, frame.h, n),
            cr: repeated(frame.cr, frame.w, frame.h, n),
        }
    }
}

/// The sample of the source that is repeated at (`x`, `y`).
pub proof fn lemma_repeat_index(x: int, y: int, w: int, h: int, n: int)
    requires
        0 < n,
        0 <= x < w * n,
        0 <= y < h * n,
    ensures
        0 <= (y / n) * w,
        0 <= (y / n) * w + x / n < w * h,
        (y * (w * n) + x) / (w * n) == y,
        (y * (w * n) + x) % (w * n) == x,
        0 <= y * (w * n),
        0 <= y * (w * n) + x < (w * n) * (h * n),
{
    vstd::arithmetic::div_mod::lemma_div_pos_is_pos(x, n);
    vstd::arithmetic::div_mod::lemma_div_pos_is_pos(y, n);
    vstd::arithmetic::div_mod::lemma_fundamental_div_mod(x, n);
    vstd::arithmetic::div_mod::lemma_fundamental_div_mod(y, n);
    vstd::arithmetic::div_mod::lemma_mod_bound(x, n);
    vstd::arithmetic::div_mod::lemma_mod_bound(y, n);
    let (a, b) = (x / n, y / n);
    assert(a < w) by (nonlinear_arith)
        requires
            n * a <= x,
            x < w * n,
            0 < n,
    ;
    assert(b < h) by (nonlinear_arith)
        requires
            n * b <= y,
            y < h * n,
            0 < n,
    ;
    assert(0 <= b * w && b * w + a < w * h) by (nonlinear_arith)
        requires
            0 <= a < w,
            0 <= b < h,
    ;
    let v = w * n;
    assert(0 <= y * v && y * v + x < v * (h * n)) by (nonlinear_arith)
        requires
            0 <= x < v,
            0 <= y < h * n,
    ;
    vstd::arithmetic::div_mod::lemma_fundamental_div_mod_converse(y * v + x, v, y, x);
}

/// A plane repeated `a` times, then `b` times, is repeated `a·b` times.
proof fn lemma_repeated_twice(plane: Seq<u8>, w: int, h: int, a: int, b: int)
    requires
        0 < a,
        0 < b,
        0 <= w,
        0 <= h,
    ensures
        repeated(repeated(plane, w, h, a), w * a, h * a, b) == repeated(plane, w, h, a * b),
{
    let once = repeated(plane, w, h, a);
    let twice = repeated(once, w * a, h * a, b);
    let whole = repeated(plane, w, h, a * b);
    let (v, u) = ((w * a) * b, (h * a) * b);
    assert(v == w * (a * b)) by (nonlinear_arith)
        requires
            v == (w * a) * b,
    ;
    assert(u == h * (a * b)) by (nonlinear_arith)
        requires
            u == (h * a) * b,
    ;
    assert(0 < a * b) by (nonlinear_arith)
        requires
            0 < a,
            0 < b,
    ;
    assert(0 <= v && 0 <= u && 0 <= v * u) by (nonlinear_arith)
        requires
            v == (w * a) * b,
            u == (h * a) * b,
            0 <= w,
            0 <= h,
            0 < a,
            0 < b,
    ;
    assert forall|k: int| 0 <= k < v * u implies #[trigger] twice[k] == whole[k] by {
        assert(0 < v) by (nonlinear_arith)
            requires
                0 <= k < v * u,
                0 <= v,
        ;
        let (y, x) = (k / v, k % v);
        vstd::arithmetic::div_mod::lemma_fundamental_div_mod(k, v);
        vstd::arithmetic::div_mod::lemma_mod_bound(k, v);
        vstd::arithmetic::div_mod::lemma_div_pos_is_pos(k, v);
        assert(y < u) by (nonlinear_arith)
            requires
                v * y <= k,
                k < v * u,
                0 < v,
        ;
        lemma_repeat_index(x, y, w * a, h * a, b);
        let inner = (y / b) * (w * a) + x / b;
        assert(0 <= inner < (w * a) * (h * a));
        assert(twice[k] == once[inner]);
        assert(0 <= w * a && 0 <= x / b < w * a && 0 <= y / b < h * a) by {
            lemma_repeat_bounds(x, y, w * a, h * a, b);
        }
        vstd::arithmetic::div_mod::lemma_fundamental_div_mod_converse(
            inner,
            w * a,
            y / b,
            x / b,
        );
        assert(inner / (w * a) == y / b && inner % (w * a) == x / b);
        vstd::arithmetic::div_mod::lemma_div_denominator(y, b, a);
        vstd::arithmetic::div_mod::lemma_div_denominator(x, b, a);
        assert(a * b == b * a) by (nonlinear_arith);
        assert(once[inner] == plane[((y / b) / a) * w + (x / b) / a]);
    }
    assert(twice =~= whole);
}

/// A position in a repeated plane stands for a sample of the plane.
proof fn lemma_repeat_bounds(x: int, y: int, w: int, h: int, n: int)
    requires
        0 < n,
        0 <= x < w * n,
        0 <= y < h * n,
    ensures
        0 <= x / n < w,
        0 <= y / n < h,
{
    vstd::arithmetic::div_mod::lemma_div_pos_is_pos(x, n);
    vstd::arithmetic::div_mod::lemma_div_pos_is_pos(y, n);
    vstd::arithmetic::div_mod::lemma_fundamental_div_mod(x, n);
    vstd::arithmetic::div_mod::lemma_fundamental_div_mod(y, n);
    vstd::arithmetic::div_mod::lemma_mod_bound(x, n);
    vstd::arithmetic::div_mod::lemma_mod_bound(y, n);
    let (a, b) = (x / n, y / n);
    assert(a < w) by (nonlinear_arith)
        requires
            n * a <= x,
            x < w * n,
            0 < n,
    ;
    assert(b < h) by (nonlinear_arith)
        requires
            n * b <= y,
            y < h * n,
            0 < n,
    ;
}

/// Upscaling by `a` and then by `b` is upscaling by `a·b`.
pub proof fn upscaling_multiplies(frame: FrameView, a: int, b: int)
    requires
        frame.wf(),
        0 < a,
        0 < b,
    ensures
        upscaled(upscaled(frame, a), b) == upscaled(frame, a * b),
{
    if a > 1 && b > 1 {
        assert(a * b > 1) by (nonlinear_arith)
            requires
                a > 1,
                b > 1,
        ;
        lemma_repeated_twice(frame.y, frame.w, frame.h, a, b);
        lemma_repeated_twice(frame.cb, frame.w, frame.h, a, b);
        lemma_repeated_twice(frame.cr, frame.w, frame.h, a, b);
        assert((frame.w * a) * b == frame.w * (a * b)) by (nonlinear_arith);
        assert((frame.h * a) * b == frame.h * (a * b)) by (nonlinear_arith);
        assert(upscaled(upscaled(frame, a), b) =~= upscaled(frame, a * b));
    } else {
        assert(a == 1 ==> a * b == b) by (nonlinear_arith);
        assert(b == 1 ==> a * b == a) by (nonlinear_arith);
    }
}

/// Integer upscaling (nearest neighbour) for display/export.
pub fn upscale(frame: &Frame444, n: usize) -> (out: Frame444)
    requires
        frame@.wf(),
        n > 1 ==> frame@.w * n <= usize::MAX,
        n > 1 ==> frame@.h * n <= usize::MAX,
        n > 1 ==> (frame@.w * n) * (frame@.h * n) <= usize::MAX,
    ensures
        out@ == upscaled(frame@, n as int),
{
    if n <= 1 {
        return frame.clone();
    }
    let (w, h) = (frame.w * n, frame.h * n);
    let mut out = Frame444 { w, h, y: Vec::new(), cb: Vec::new(), cr: Vec::new() };
    let ghost want = upscaled(frame@, n as int);
    let mut yy: usize = 0;
    assert(0 * (w as int) == 0);
    while yy < h
        invariant
            yy <= h,
            n > 1,
            w == frame.w * n,
            h == frame.h * n,
            frame@.wf(),
            w * h <= usize::MAX,
            want == upscaled(frame@, n as int),
            out.w == w,
            out.h == h,
            out.y@ =~= want.y.take(yy * w),
            out.cb@ =~= want.cb.take(yy * w),
            out.cr@ =~= want.cr.take(yy * w),
            yy * w <= w * h,
        decreases h - yy,
    {
        let mut xx: usize = 0;
        while xx < w
            invariant
                xx <= w,
                yy < h,
                n > 1,
                w == frame.w * n,
                h == frame.h * n,
                frame@.wf(),
                w * h <= usize::MAX,
                want == upscaled(frame@, n as int),
                out.w == w,
                out.h == h,
                yy * w + xx <= w * h,
                out.y@ =~= want.y.take(yy * w + xx),
                out.cb@ =~= want.cb.take(yy * w + xx),
                out.cr@ =~= want.cr.take(yy * w + xx),
            decreases w - xx,
        {
            proof {
                assert(frame.y.len() == frame.y@.len());
                lemma_repeat_index(xx as int, yy as int, frame.w as int, frame.h as int, n as int);
            }
            let s: usize = (yy / n) * frame.w + xx / n;
            out.y.push(frame.y[s]);
            out.cb.push(frame.cb[s]);
            out.cr.push(frame.cr[s]);
            xx += 1;
        }
        proof {
            assert((yy + 1) * w == yy * w + w) by (nonlinear_arith);
        }
        yy += 1;
    }
    proof {
        assert((h as int) * (w as int) == (w as int) * (h as int)) by (nonlinear_arith);
        assert(out@ =~= want);
    }
    out
}

/// A field as it is stored when nothing moves in it.
pub open spec fn stored(input: InputView) -> FieldView {
    FieldView { y: input.y, c: input.c, ..codec::blank_field() }
}

/// A resized plane of one value has that value everywhere.
proof fn lemma_uniform_plane(plane: Seq<u8>, w: int, h: int, dw: int, dh: int, v: u8, line: int, e: int)
    requires
        scale::can_resize(plane, w, h, dw, dh),
        forall|k: int| 0 <= k < plane.len() ==> #[trigger] plane[k] == v,
        0 <= line < dh,
        0 <= e < dw,
    ensures
        scale::resized(plane, w, h, dw, dh)[line * dw + e] == v,
{
    let k = line * dw + e;
    assert(0 <= k < dw * dh) by (nonlinear_arith)
        requires
            0 <= line < dh,
            0 <= e < dw,
            k == line * dw + e,
    ;
    scale::constant_plane_stays_constant(plane, w, h, dw, dh, v, k);
}

/// The fields of a uniform frame are uniform.
proof fn lemma_uniform_ingested(frame: FrameView, y: u8, cb: u8, cr: u8, f: int)
    requires
        can_ingest(frame),
        0 <= f < 2,
        Y_MIN <= y <= Y_MAX,
        C_MIN <= cb <= C_MAX,
        C_MIN <= cr <= C_MAX,
        forall|i: int| 0 <= i < frame.y.len() ==> #[trigger] frame.y[i] == y,
        forall|i: int| 0 <= i < frame.cb.len() ==> #[trigger] frame.cb[i] == cb,
        forall|i: int| 0 <= i < frame.cr.len() ==> #[trigger] frame.cr[i] == cr,
    ensures
        ({
            let input = ingested(frame, false, f);
            &&& forall|l: int, e: int|
                0 <= l < LINES_PER_FIELD && 0 <= e < WIDTH - 1 ==> #[trigger] input.y[l][e] == y
            &&& forall|l: int, e: int|
                0 <= l < LINES_PER_FIELD && 0 <= e < CHROMA_WIDTH ==> #[trigger] input.c[l][e]
                    == if codec::component(f, l) == ChromaComp::Cb {
                    cb
                } else {
                    cr
                }
        }),
{
    let input = ingested(frame, false, f);
    let (w, h) = (WIDTH as int, LINES_PER_FRAME as int);
    let cw = CHROMA_WIDTH as int;
    assert forall|l: int, e: int| 0 <= l < LINES_PER_FIELD && 0 <= e < WIDTH - 1 implies
        #[trigger] input.y[l][e] == y by {
        lemma_uniform_plane(frame.y, frame.w, frame.h, w, h, y, 2 * l + f, e);
    }
    assert forall|l: int, e: int| 0 <= l < LINES_PER_FIELD && 0 <= e < CHROMA_WIDTH implies
        #[trigger] input.c[l][e] == if codec::component(f, l) == ChromaComp::Cb {
        cb
    } else {
        cr
    } by {
        lemma_uniform_plane(frame.cb, frame.w, frame.h, cw, h, cb, 2 * l + f, e);
        lemma_uniform_plane(frame.cr, frame.w, frame.h, cw, h, cr, 2 * l + f, e);
    }
}

/// A uniform frame of legal samples is shown as it was taken in: every element
/// of the 286 lines has its luminance, but for the last of each line, which is
/// at blanking level, and its chrominance.
pub proof fn uniform_frame_is_shown(frame: FrameView, y: u8, cb: u8, cr: u8, line: int, e: int)
    requires
        can_ingest(frame),
        Y_MIN <= y <= Y_MAX,
        C_MIN <= cb <= C_MAX,
        C_MIN <= cr <= C_MAX,
        forall|i: int| 0 <= i < frame.y.len() ==> #[trigger] frame.y[i] == y,
        forall|i: int| 0 <= i < frame.cb.len() ==> #[trigger] frame.cb[i] == cb,
        forall|i: int| 0 <= i < frame.cr.len() ==> #[trigger] frame.cr[i] == cr,
        0 <= line < LINES_PER_FRAME,
        0 <= e < WIDTH,
    ensures
        ({
            let shown = egressed(
                seq![stored(ingested(frame, false, 0)), stored(ingested(frame, false, 1))],
            );
            &&& shown.y[line * WIDTH + e] == if e == WIDTH - 1 {
                BLANKING
            } else {
                y
            }
            &&& shown.cb[line * WIDTH + e] == cb
            &&& shown.cr[line * WIDTH + e] == cr
        }),
{
    let (f, l) = (line % 2, line / 2);
    let input = ingested(frame, false, f);
    let fields = seq![stored(ingested(frame, false, 0)), stored(ingested(frame, false, 1))];
    let field = fields[f];
    let k = line * WIDTH + e;
    assert(k / (WIDTH as int) == line && k % (WIDTH as int) == e);
    lemma_uniform_ingested(frame, y, cb, cr, f);
    lemma_ingested_legal(frame, false, f);
    assert(field == stored(input));
    if e == WIDTH - 1 {
        assert(input.y[l][WIDTH - 1] == BLANKING);
    } else {
        assert(input.y[l][e] == y);
    }
    lemma_uniform_component(input, f, l, ChromaComp::Cb, cb, cr, e);
    lemma_uniform_component(input, f, l, ChromaComp::Cr, cb, cr, e);
}

/// A component of a line of a uniform field, widened.
proof fn lemma_uniform_component(
    input: InputView,
    f: int,
    l: int,
    comp: ChromaComp,
    cb: u8,
    cr: u8,
    e: int,
)
    requires
        0 <= f < 2,
        0 <= l < LINES_PER_FIELD,
        0 <= e < WIDTH,
        input.wf(),
        forall|k: int, i: int|
            0 <= k < LINES_PER_FIELD && 0 <= i < CHROMA_WIDTH ==> #[trigger] input.c[k][i]
                == if codec::component(f, k) == ChromaComp::Cb {
                cb
            } else {
                cr
            },
    ensures
        widened(line_component(stored(input), f, l, comp))[e] == if comp == ChromaComp::Cb {
            cb
        } else {
            cr
        },
{
    let v = if comp == ChromaComp::Cb {
        cb
    } else {
        cr
    };
    let line = line_component(stored(input), f, l, comp);
    assert(line.len() == CHROMA_WIDTH);
    assert forall|i: int| 0 <= i < CHROMA_WIDTH implies #[trigger] line[i] == v by {
        if codec::component(f, l) == comp {
            assert(line[i] == input.c[l][i]);
        } else if l == 0 {
            assert(line[i] == input.c[1][i]);
        } else if l + 1 == LINES_PER_FIELD {
            assert(line[i] == input.c[l - 1][i]);
        } else {
            assert(line[i] == codec::mean(input.c[l - 1][i], input.c[l + 1][i]));
            assert(input.c[l - 1][i] == v);
            assert(input.c[l + 1][i] == v);
        }
    }
    scale::constant_plane_stays_constant(line, CHROMA_WIDTH as int, 1, WIDTH as int, 1, v, e);
}

} // verus!
