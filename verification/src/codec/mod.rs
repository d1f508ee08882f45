//! Shared types and constants of the H.120 codec (clause 1).
//!
//! All "§x.y" references point to Recommendation ITU-T H.120 (03/93).

pub mod bitio;
pub mod bits;
pub mod bootstrap;
pub mod buffer;
pub mod clusters;
pub mod coding;
pub mod decoder;
pub mod decoding;
pub mod dpcm;
pub mod encoder;
pub mod invariants;
pub mod levels;
pub mod lockstep;
pub mod multiplex;
pub mod omission;
pub mod rate;
pub mod reconstruction;
pub mod refresh;
pub mod replenishment;
pub mod rotation;
pub mod still;
pub mod tables;
pub mod truncation;

use vstd::prelude::*;

verus! {

/// Luminance samples per active line (§1.4.1.1).
pub const WIDTH: usize = 256;
/// Chrominance samples per active line (§1.4.2.1).
pub const CHROMA_WIDTH: usize = 52;
/// Address of the first chrominance sample (§1.5.4).
pub const CHROMA_ADDR_BASE: usize = 4;
/// Active lines per field (§1.4.1.2).
pub const LINES_PER_FIELD: usize = 143;
/// Active lines per frame (2 fields).
pub const LINES_PER_FRAME: usize = 2 * LINES_PER_FIELD;

/// Black level (§1.4.1.1).
pub const Y_MIN: u8 = 16;
/// White level (§1.4.1.1).
pub const Y_MAX: u8 = 239;
/// Legal chrominance range: 128 ± 111 (§1.4.2.1).
pub const C_MIN: u8 = 17;
pub const C_MAX: u8 = 239;
/// Assumed line/frame blanking level used for prediction (§1.4.1.3.1).
pub const BLANKING: u8 = 128;

/// Transmission buffer size: 96 kbit, with 1 K = 1024 bits (§1.5.1).
pub const BUFFER_BITS: usize = 96 * 1024;

/// Minimum gap between the end of a cluster and the start of the next (§1.5.3).
pub const MIN_CLUSTER_GAP: usize = 4;

/// The contents of a field: its lines as sequences of samples.
#[verifier::ext_equal]
pub struct FieldView {
    pub y: Seq<Seq<u8>>,
    pub c: Seq<Seq<u8>>,
    pub y_moving: Seq<Seq<bool>>,
    pub c_moving: Seq<Seq<bool>>,
}

/// `lines` lines of `width` elements each.
pub open spec fn is_grid<T>(rows: Seq<Seq<T>>, lines: nat, width: nat) -> bool {
    &&& rows.len() == lines
    &&& forall|l: int| 0 <= l < lines ==> (#[trigger] rows[l]).len() == width
}

/// The grid that holds `v` everywhere.
pub open spec fn filled_grid<T>(v: T, lines: nat, width: nat) -> Seq<Seq<T>> {
    Seq::new(lines, |l: int| Seq::new(width, |e: int| v))
}

/// The lines of an array of lines, as sequences.
pub open spec fn rows<T, const N: usize>(lines: Seq<[T; N]>) -> Seq<Seq<T>> {
    Seq::new(lines.len(), |l: int| lines[l]@)
}

impl FieldView {
    /// 143 lines of 256 luminance and 52 chrominance samples.
    pub open spec fn wf(self) -> bool {
        &&& is_grid(self.y, LINES_PER_FIELD as nat, WIDTH as nat)
        &&& is_grid(self.c, LINES_PER_FIELD as nat, CHROMA_WIDTH as nat)
        &&& is_grid(self.y_moving, LINES_PER_FIELD as nat, WIDTH as nat)
        &&& is_grid(self.c_moving, LINES_PER_FIELD as nat, CHROMA_WIDTH as nat)
    }

    /// The field with no element moving.
    pub open spec fn at_rest(self) -> FieldView {
        FieldView {
            y_moving: filled_grid(false, LINES_PER_FIELD as nat, WIDTH as nat),
            c_moving: filled_grid(false, LINES_PER_FIELD as nat, CHROMA_WIDTH as nat),
            ..self
        }
    }
}

/// The field before anything was received: blanking everywhere, nothing moving.
pub open spec fn blank_field() -> FieldView {
    FieldView {
        y: filled_grid(BLANKING, LINES_PER_FIELD as nat, WIDTH as nat),
        c: filled_grid(BLANKING, LINES_PER_FIELD as nat, CHROMA_WIDTH as nat),
        y_moving: filled_grid(false, LINES_PER_FIELD as nat, WIDTH as nat),
        c_moving: filled_grid(false, LINES_PER_FIELD as nat, CHROMA_WIDTH as nat),
    }
}

/// A reconstructed field, identical in the encoder and the decoder.
///
/// Each chrominance line stores only the component transmitted on that line:
/// (B'−Y') or (R'−Y') alternately (§1.4.2.1).
pub struct FieldStore {
    /// Luminance, `LINES_PER_FIELD` lines of `WIDTH` samples.
    pub y: Vec<[u8; WIDTH]>,
    /// Chrominance, `LINES_PER_FIELD` lines of `CHROMA_WIDTH` samples.
    pub c: Vec<[u8; CHROMA_WIDTH]>,
    /// Moving luminance areas of the last coded field (for interpolating
    /// omitted fields, §1.4.1.4.2).
    pub y_moving: Vec<[bool; WIDTH]>,
    /// Moving chrominance areas (§1.4.2.4).
    pub c_moving: Vec<[bool; CHROMA_WIDTH]>,
}

impl View for FieldStore {
    type V = FieldView;

    open spec fn view(&self) -> FieldView {
        FieldView {
            y: rows(self.y@),
            c: rows(self.c@),
            y_moving: rows(self.y_moving@),
            c_moving: rows(self.c_moving@),
        }
    }
}

/// A copy of an array of lines.
fn copy_rows<T: Copy, const N: usize>(lines: &Vec<[T; N]>) -> (copy: Vec<[T; N]>)
    ensures
        copy@ == lines@,
{
    let mut copy: Vec<[T; N]> = Vec::new();
    let mut l: usize = 0;
    while l < lines.len()
        invariant
            l <= lines@.len(),
            copy@ == lines@.take(l as int),
        decreases lines@.len() - l,
    {
        copy.push(lines[l]);
        l += 1;
        assert(copy@ =~= lines@.take(l as int));
    }
    assert(copy@ =~= lines@);
    copy
}

/// An array of lines that holds `v` everywhere.
fn fill_rows<T: Copy, const N: usize>(line: [T; N], count: usize) -> (lines: Vec<[T; N]>)
    ensures
        lines@ == Seq::new(count as nat, |l: int| line),
{
    let mut lines: Vec<[T; N]> = Vec::new();
    let mut l: usize = 0;
    while l < count
        invariant
            l <= count,
            lines@ == Seq::new(l as nat, |i: int| line),
        decreases count - l,
    {
        lines.push(line);
        l += 1;
        assert(lines@ =~= Seq::new(l as nat, |i: int| line));
    }
    lines
}

impl Clone for FieldStore {
    fn clone(&self) -> (copy: Self)
        ensures
            copy@ == self@,
    {
        FieldStore {
            y: copy_rows(&self.y),
            c: copy_rows(&self.c),
            y_moving: copy_rows(&self.y_moving),
            c_moving: copy_rows(&self.c_moving),
        }
    }
}

impl FieldStore {
    /// A field at blanking level, with nothing moving.
    pub fn new() -> (store: Self)
        ensures
            store@ == blank_field(),
    {
        let store = FieldStore {
            y: fill_rows([BLANKING; WIDTH], LINES_PER_FIELD),
            c: fill_rows([BLANKING; CHROMA_WIDTH], LINES_PER_FIELD),
            y_moving: fill_rows([false; WIDTH], LINES_PER_FIELD),
            c_moving: fill_rows([false; CHROMA_WIDTH], LINES_PER_FIELD),
        };
        assert(store@ =~~= blank_field());
        store
    }

    /// Marks every element as not moving.
    pub fn clear_moving(&mut self)
        ensures
            final(self)@ == (FieldView {
                y_moving: filled_grid(false, old(self)@.y_moving.len(), WIDTH as nat),
                c_moving: filled_grid(false, old(self)@.c_moving.len(), CHROMA_WIDTH as nat),
                ..old(self)@
            }),
            old(self)@.wf() ==> final(self)@ == old(self)@.at_rest(),
    {
        self.y_moving = fill_rows([false; WIDTH], self.y_moving.len());
        self.c_moving = fill_rows([false; CHROMA_WIDTH], self.c_moving.len());
        assert(self@ =~~= FieldView {
            y_moving: filled_grid(false, old(self)@.y_moving.len(), WIDTH as nat),
            c_moving: filled_grid(false, old(self)@.c_moving.len(), CHROMA_WIDTH as nat),
            ..old(self)@
        });
    }
}

/// Chroma component carried by a given line of a given field.
///
/// 1st active line of field 1: (B'−Y'), 1st line of field 2: (R'−Y'), then
/// alternating (§1.4.2.1).
#[derive(Clone, Copy, PartialEq, Eq, Debug, Structural)]
pub enum ChromaComp {
    /// E'B − E'Y (Cb)
    Cb,
    /// E'R − E'Y (Cr)
    Cr,
}

/// Field 1 carries Cb on its even lines, field 2 on its odd lines.
pub open spec fn component(field: int, line: int) -> ChromaComp {
    if (field == 0 && line % 2 == 0) || (field == 1 && line % 2 == 1) {
        ChromaComp::Cb
    } else {
        ChromaComp::Cr
    }
}

/// The chroma component of line `line` of field `field` (0 or 1).
pub fn chroma_comp(field: usize, line: usize) -> (comp: ChromaComp)
    ensures
        comp == component(field as int, line as int),
        field < 2 ==> (comp == ChromaComp::Cb <==> (field + line) % 2 == 0),
{
    match (field, line % 2) {
        (0, 0) | (1, 1) => ChromaComp::Cb,
        _ => ChromaComp::Cr,
    }
}

/// `v` held between `lo` and `hi`.
pub open spec fn clip(v: int, lo: u8, hi: u8) -> u8 {
    if v < lo {
        lo
    } else if v > hi {
        hi
    } else {
        v as u8
    }
}

/// Holds a luminance value between black and white.
pub fn clamp_y(v: i16) -> (r: u8)
    ensures
        r == clip(v as int, Y_MIN, Y_MAX),
        16 <= v <= 239 ==> r == v,
        v < 16 ==> r == 16,
        v > 239 ==> r == 239,
{
    if v < Y_MIN as i16 {
        Y_MIN
    } else if v > Y_MAX as i16 {
        Y_MAX
    } else {
        v as u8
    }
}

/// Holds a chrominance value in its legal range.
pub fn clamp_c(v: i16) -> (r: u8)
    ensures
        r == clip(v as int, C_MIN, C_MAX),
        17 <= v <= 239 ==> r == v,
        v < 17 ==> r == 17,
        v > 239 ==> r == 239,
{
    if v < C_MIN as i16 {
        C_MIN
    } else if v > C_MAX as i16 {
        C_MAX
    } else {
        v as u8
    }
}

/// Lines are numbered 0..142 in field 1 and 144..286 in field 2.
pub open spec fn line_number(field: int, line: int) -> int {
    if field == 0 {
        line
    } else {
        144 + line
    }
}

/// Number of a line (0..142 for field 1, 144..286 for field 2), §1.5.2.1.
pub fn spec_line_number(field: usize, line: usize) -> (n: usize)
    requires
        field != 0 ==> 144 + line <= usize::MAX,
    ensures
        n == line_number(field as int, line as int),
        field == 0 ==> n == line,
        field != 0 ==> n == 144 + line,
{
    if field == 0 {
        line
    } else {
        144 + line
    }
}

/// A line that may be missing, as a sequence.
pub open spec fn line_view(line: Option<&[u8; WIDTH]>) -> Option<Seq<u8>> {
    match line {
        Some(l) => Some(l@),
        None => None,
    }
}

/// The element D above and to the right of element `e`: C, directly above,
/// where D was not transmitted; blanking above the first line and to the right
/// of the line.
pub open spec fn upper_right(prev: Option<Seq<u8>>, not_transmitted: Seq<bool>, e: int) -> u8 {
    match prev {
        Some(line) => if e + 1 >= WIDTH {
            BLANKING
        } else if not_transmitted[e + 1] {
            line[e]
        } else {
            line[e + 1]
        },
        None => BLANKING,
    }
}

/// Value of element D (upper-right neighbour of X on the previous line of the
/// same field, Figure 1). If D belongs to a subsampled moving area and was not
/// transmitted in the current frame, it is replaced by C, the element directly
/// above X (§1.4.1.4.1). The first line of a field predicts from the 128
/// blanking level.
pub fn d_value(
    prev_line: Option<&[u8; WIDTH]>,
    prev_not_transmitted: &[bool; WIDTH],
    e: usize,
) -> (d: u8)
    requires
        prev_line is Some ==> e < usize::MAX,
    ensures
        d == upper_right(line_view(prev_line), prev_not_transmitted@, e as int),
        prev_line is None || e >= 255 ==> d == 128,
        e < 255 ==> (prev_line matches Some(prev) ==> {
            &&& !prev_not_transmitted@[e + 1] ==> d == prev@[e + 1]
            &&& prev_not_transmitted@[e + 1] ==> d == prev@[e as int]
        }),
{
    match prev_line {
        None => BLANKING,
        Some(prev) => {
            let ed = e + 1;
            if ed >= WIDTH {
                return BLANKING;
            }
            if prev_not_transmitted[ed] {
                prev[e]
            } else {
                prev[ed]
            }
        },
    }
}

/// The mean of two samples, rounded down.
pub open spec fn mean(a: u8, b: u8) -> u8 {
    ((a + b) / 2) as u8
}

/// Luminance DPCM prediction X = (A + D) / 2, truncated division (§1.4.1.3.1).
pub fn predict_luma(a: u8, d: u8) -> (x: u8)
    ensures
        x == mean(a, d),
        2 * x <= a + d <= 2 * x + 1,
{
    ((a as u16 + d as u16) / 2) as u8
}

/// The line of the transmitted field above line `j` of the omitted field
/// (field 2 omitted: line j of field 1; field 1 omitted: line j−1 of field 2).
pub open spec fn line_above(omitted_parity: int, j: int) -> Option<int> {
    if omitted_parity == 1 {
        Some(j)
    } else if j >= 1 {
        Some(j - 1)
    } else {
        None
    }
}

/// The line of the transmitted field below line `j` of the omitted field
/// (field 2 omitted: line j+1 of field 1; field 1 omitted: line j of field 2).
pub open spec fn line_below(omitted_parity: int, j: int) -> Option<int> {
    if omitted_parity == 1 {
        if j + 1 < LINES_PER_FIELD {
            Some(j + 1)
        } else {
            None
        }
    } else {
        Some(j)
    }
}

/// The sample at (`line`, `e`), blanking outside the field.
pub open spec fn sample_at(plane: Seq<Seq<u8>>, line: Option<int>, e: int) -> u8 {
    match line {
        Some(l) => plane[l][e],
        None => BLANKING,
    }
}

/// Whether the element at (`line`, `e`) moves; nothing moves outside the field.
pub open spec fn moves_at(moving: Seq<Seq<bool>>, line: Option<int>, e: int) -> bool {
    match line {
        Some(l) => moving[l][e],
        None => false,
    }
}

/// An element of the omitted field moves if one of its four neighbours does:
/// above and below, in the field before and in the field after.
pub open spec fn neighbour_moves(
    before: Seq<Seq<bool>>,
    after: Seq<Seq<bool>>,
    omitted_parity: int,
    j: int,
    e: int,
) -> bool {
    let (above, below) = (line_above(omitted_parity, j), line_below(omitted_parity, j));
    moves_at(before, above, e) || moves_at(before, below, e) || moves_at(after, above, e)
        || moves_at(after, below, e)
}

/// x = ((a+b)/2 + (c+d)/2)/2 over the four luminance neighbours.
pub open spec fn interpolated_luma(
    before: Seq<Seq<u8>>,
    after: Seq<Seq<u8>>,
    omitted_parity: int,
    j: int,
    e: int,
) -> u8 {
    let (above, below) = (line_above(omitted_parity, j), line_below(omitted_parity, j));
    mean(
        mean(sample_at(before, above, e), sample_at(before, below, e)),
        mean(sample_at(after, above, e), sample_at(after, below, e)),
    )
}

/// x = (a+c)/2 in field 1, (b+d)/2 in field 2: the lines that carry the same
/// component.
pub open spec fn interpolated_chroma(
    before: Seq<Seq<u8>>,
    after: Seq<Seq<u8>>,
    omitted_parity: int,
    j: int,
    e: int,
) -> u8 {
    let line = if omitted_parity == 0 {
        line_above(omitted_parity, j)
    } else {
        line_below(omitted_parity, j)
    };
    mean(sample_at(before, line, e), sample_at(after, line, e))
}

/// The omitted field, reconstructed from the field before it and the field
/// after it: moving elements are interpolated, the others are kept.
pub open spec fn interpolated(
    omitted: FieldView,
    omitted_parity: int,
    b1: FieldView,
    a1: FieldView,
) -> FieldView {
    FieldView {
        y: Seq::new(
            LINES_PER_FIELD as nat,
            |j: int|
                Seq::new(
                    WIDTH as nat,
                    |e: int|
                        if e == WIDTH - 1 {
                            BLANKING
                        } else if neighbour_moves(b1.y_moving, a1.y_moving, omitted_parity, j, e) {
                            interpolated_luma(b1.y, a1.y, omitted_parity, j, e)
                        } else {
                            omitted.y[j][e]
                        },
                ),
        ),
        c: Seq::new(
            LINES_PER_FIELD as nat,
            |j: int|
                Seq::new(
                    CHROMA_WIDTH as nat,
                    |e: int|
                        if neighbour_moves(b1.c_moving, a1.c_moving, omitted_parity, j, e) {
                            interpolated_chroma(b1.c, a1.c, omitted_parity, j, e)
                        } else {
                            omitted.c[j][e]
                        },
                ),
        ),
        y_moving: Seq::new(
            LINES_PER_FIELD as nat,
            |j: int|
                Seq::new(
                    WIDTH as nat,
                    |e: int| neighbour_moves(b1.y_moving, a1.y_moving, omitted_parity, j, e),
                ),
        ),
        c_moving: Seq::new(
            LINES_PER_FIELD as nat,
            |j: int|
                Seq::new(
                    CHROMA_WIDTH as nat,
                    |e: int| neighbour_moves(b1.c_moving, a1.c_moving, omitted_parity, j, e),
                ),
        ),
    }
}

/// A sample and its moving mark, blanking and still outside the field.
fn fetch<const N: usize>(
    plane: &Vec<[u8; N]>,
    moving: &Vec<[bool; N]>,
    line: Option<usize>,
    e: usize,
) -> (got: (u8, bool))
    requires
        line matches Some(l) ==> l < plane@.len() && l < moving@.len(),
        e < N,
    ensures
        ({
            let l = match line {
                Some(l) => Some(l as int),
                None => None,
            };
            got == (sample_at(rows(plane@), l, e as int), moves_at(rows(moving@), l, e as int))
        }),
{
    match line {
        Some(l) => (plane[l][e], moving[l][e]),
        None => (BLANKING, false),
    }
}

/// Interpolates an omitted field (§1.4.1.4.2 and §1.4.2.4).
///
/// `b1` is the transmitted field preceding the omitted field, `a1` the
/// transmitted field following it (both of opposite parity to the omitted
/// field). An element x of the omitted field is considered moving if any of
/// the four neighbouring elements a/b/c/d (above and below, in b1 and a1) is
/// moving; only then is it interpolated, otherwise it is left unchanged.
/// This function is applied identically by the encoder and the decoder.
pub fn interpolate_omitted_field(
    omitted: &mut FieldStore,
    omitted_parity: usize,
    b1: &FieldStore,
    a1: &FieldStore,
)
    requires
        old(omitted)@.wf(),
        b1@.wf(),
        a1@.wf(),
    ensures
        final(omitted)@ == interpolated(old(omitted)@, omitted_parity as int, b1@, a1@),
{
    let ghost whole = interpolated(old(omitted)@, omitted_parity as int, b1@, a1@);
    let ghost parity = omitted_parity as int;
    let mut j: usize = 0;
    while j < LINES_PER_FIELD
        invariant
            j <= LINES_PER_FIELD,
            parity == omitted_parity,
            old(omitted)@.wf(),
            omitted@.wf(),
            b1@.wf(),
            a1@.wf(),
            whole == interpolated(old(omitted)@, parity, b1@, a1@),
            forall|k: int|
                0 <= k < LINES_PER_FIELD ==> #[trigger] omitted@.y[k] == if k < j {
                    whole.y[k]
                } else {
                    old(omitted)@.y[k]
                },
            forall|k: int|
                0 <= k < LINES_PER_FIELD ==> #[trigger] omitted@.c[k] == if k < j {
                    whole.c[k]
                } else {
                    old(omitted)@.c[k]
                },
            forall|k: int|
                0 <= k < j ==> #[trigger] omitted@.y_moving[k] == whole.y_moving[k],
            forall|k: int|
                0 <= k < j ==> #[trigger] omitted@.c_moving[k] == whole.c_moving[k],
        decreases LINES_PER_FIELD - j,
    {
        let ghost before = omitted@;
        let above: Option<usize> = if omitted_parity == 1 {
            Some(j)
        } else if j >= 1 {
            Some(j - 1)
        } else {
            None
        };
        let below: Option<usize> = if omitted_parity == 1 {
            if j + 1 < LINES_PER_FIELD {
                Some(j + 1)
            } else {
                None
            }
        } else {
            Some(j)
        };
        assert(omitted@.y[j as int] == old(omitted)@.y[j as int]);
        assert(omitted@.c[j as int] == old(omitted)@.c[j as int]);
        // Luminance: x = ((a+b)/2 + (c+d)/2) / 2, truncated divisions.
        let mut y_line = omitted.y[j];
        let mut y_moving = omitted.y_moving[j];
        let mut e: usize = 0;
        while e < WIDTH
            invariant
                e <= WIDTH,
                j < LINES_PER_FIELD,
                parity == omitted_parity,
                b1@.wf(),
                a1@.wf(),
                whole == interpolated(old(omitted)@, parity, b1@, a1@),
                above == (match line_above(parity, j as int) {
                    Some(l) => Some(l as usize),
                    None => None,
                }),
                below == (match line_below(parity, j as int) {
                    Some(l) => Some(l as usize),
                    None => None,
                }),
                forall|k: int|
                    e <= k < WIDTH ==> #[trigger] y_line@[k] == old(omitted)@.y[j as int][k],
                forall|k: int|
                    0 <= k < e && k < WIDTH - 1 ==> #[trigger] y_line@[k] == whole.y[j as int][k],
                forall|k: int|
                    0 <= k < e ==> #[trigger] y_moving@[k] == whole.y_moving[j as int][k],
            decreases WIDTH - e,
        {
            let (a, ma) = fetch(&b1.y, &b1.y_moving, above, e);
            let (b, mb) = fetch(&b1.y, &b1.y_moving, below, e);
            let (c, mc) = fetch(&a1.y, &a1.y_moving, above, e);
            let (d, md) = fetch(&a1.y, &a1.y_moving, below, e);
            if ma || mb || mc || md {
                y_line[e] = predict_luma(predict_luma(a, b), predict_luma(c, d));
                y_moving[e] = true;
            } else {
                y_moving[e] = false;
            }
            e += 1;
        }
        y_line[WIDTH - 1] = BLANKING;
        assert(y_line@ =~= whole.y[j as int]);
        assert(y_moving@ =~= whole.y_moving[j as int]);
        omitted.y[j] = y_line;
        omitted.y_moving[j] = y_moving;
        // Chrominance: x = (a+c)/2 (field 1) or (b+d)/2 (field 2), the chosen
        // lines carrying the same component as the omitted line.
        let mut c_line = omitted.c[j];
        let mut c_moving = omitted.c_moving[j];
        let mut e: usize = 0;
        while e < CHROMA_WIDTH
            invariant
                e <= CHROMA_WIDTH,
                j < LINES_PER_FIELD,
                parity == omitted_parity,
                b1@.wf(),
                a1@.wf(),
                whole == interpolated(old(omitted)@, parity, b1@, a1@),
                above == (match line_above(parity, j as int) {
                    Some(l) => Some(l as usize),
                    None => None,
                }),
                below == (match line_below(parity, j as int) {
                    Some(l) => Some(l as usize),
                    None => None,
                }),
                forall|k: int|
                    e <= k < CHROMA_WIDTH ==> #[trigger] c_line@[k] == old(omitted)@.c[j as int][k],
                forall|k: int| 0 <= k < e ==> #[trigger] c_line@[k] == whole.c[j as int][k],
                forall|k: int|
                    0 <= k < e ==> #[trigger] c_moving@[k] == whole.c_moving[j as int][k],
            decreases CHROMA_WIDTH - e,
        {
            let (a, ma) = fetch(&b1.c, &b1.c_moving, above, e);
            let (b, mb) = fetch(&b1.c, &b1.c_moving, below, e);
            let (c, mc) = fetch(&a1.c, &a1.c_moving, above, e);
            let (d, md) = fetch(&a1.c, &a1.c_moving, below, e);
            if ma || mb || mc || md {
                c_line[e] = if omitted_parity == 0 {
                    predict_luma(a, c)
                } else {
                    predict_luma(b, d)
                };
                c_moving[e] = true;
            } else {
                c_moving[e] = false;
            }
            e += 1;
        }
        assert(c_line@ =~= whole.c[j as int]);
        assert(c_moving@ =~= whole.c_moving[j as int]);
        omitted.c[j] = c_line;
        omitted.c_moving[j] = c_moving;
        assert(omitted@.y =~= before.y.update(j as int, whole.y[j as int]));
        assert(omitted@.c =~= before.c.update(j as int, whole.c[j as int]));
        assert(omitted@.y_moving =~= before.y_moving.update(j as int, whole.y_moving[j as int]));
        assert(omitted@.c_moving =~= before.c_moving.update(j as int, whole.c_moving[j as int]));
        j += 1;
    }
    assert(omitted@ =~~= whole);
}

} // verus!
