//! Reading and writing the YUV4MPEG2 (Y4M) format, enough to pipe to/from
//! ffmpeg.

use vstd::prelude::*;
use vstd::arithmetic::div_mod::{lemma_fundamental_div_mod, lemma_fundamental_div_mod_converse};
use vstd::slice::*;
use crate::text;
use crate::text::{next_token, parse_number, push_bytes, push_decimal, starts_with};

verus! {

/// A YCbCr 4:4:4 frame, full planes of `w × h` bytes.
pub struct Frame444 {
    pub w: usize,
    pub h: usize,
    pub y: Vec<u8>,
    pub cb: Vec<u8>,
    pub cr: Vec<u8>,
}

/// The contents of a frame.
#[verifier::ext_equal]
pub struct FrameView {
    pub w: int,
    pub h: int,
    pub y: Seq<u8>,
    pub cb: Seq<u8>,
    pub cr: Seq<u8>,
}

impl FrameView {
    /// The planes are full.
    pub open spec fn wf(self) -> bool {
        &&& 0 <= self.w
        &&& 0 <= self.h
        &&& self.y.len() == self.w * self.h
        &&& self.cb.len() == self.w * self.h
        &&& self.cr.len() == self.w * self.h
    }
}

impl View for Frame444 {
    type V = FrameView;

    open spec fn view(&self) -> FrameView {
        FrameView {
            w: self.w as int,
            h: self.h as int,
            y: self.y@,
            cb: self.cb@,
            cr: self.cr@,
        }
    }
}

/// A black frame.
pub open spec fn black_frame(w: int, h: int) -> FrameView {
    FrameView {
        w,
        h,
        y: Seq::new((w * h) as nat, |i: int| 16u8),
        cb: Seq::new((w * h) as nat, |i: int| 128u8),
        cr: Seq::new((w * h) as nat, |i: int| 128u8),
    }
}

/// A plane that holds `v` everywhere.
pub(crate) fn fill_plane(v: u8, n: usize) -> (plane: Vec<u8>)
    ensures
        plane@ == Seq::new(n as nat, |i: int| v),
{
    let plane = vec![v; n];
    assert(plane@ =~= Seq::new(n as nat, |i: int| v));
    plane
}

impl Clone for Frame444 {
    fn clone(&self) -> (copy: Self)
        ensures
            copy@ == self@,
    {
        Frame444 {
            w: self.w,
            h: self.h,
            y: slice_to_vec(self.y.as_slice()),
            cb: slice_to_vec(self.cb.as_slice()),
            cr: slice_to_vec(self.cr.as_slice()),
        }
    }
}

impl Frame444 {
    /// A black frame of `w × h` samples.
    pub fn new(w: usize, h: usize) -> (frame: Self)
        requires
            w * h <= usize::MAX,
        ensures
            frame@ == black_frame(w as int, h as int),
    {
        Frame444 {
            w,
            h,
            y: fill_plane(16, w * h),
            cb: fill_plane(128, w * h),
            cr: fill_plane(128, w * h),
        }
    }
}

/// How the chrominance planes are subsampled.
#[derive(Clone, Copy, Debug, PartialEq, Eq, Structural)]
pub enum Subsampling {
    C420,
    C422,
    C444,
    Mono,
}

/// The parameters of a Y4M stream.
#[derive(Clone, Copy, Debug, PartialEq, Eq, Structural)]
pub struct Y4mHeader {
    pub width: usize,
    pub height: usize,
    pub fps_num: u32,
    pub fps_den: u32,
    pub sub: Subsampling,
}

/// Why a Y4M stream cannot be read.
#[derive(Debug, PartialEq, Eq)]
pub enum Y4mError {
    /// The stream does not start with YUV4MPEG2.
    NotY4m,
    /// The width is no number.
    Width,
    /// The height is no number.
    Height,
    /// The frame rate is no ratio.
    FrameRate,
    /// A part of the frame rate is no number.
    FrameRateValue,
    /// Another subsampling than 4:2:0, 4:2:2, 4:4:4 or none.
    UnsupportedSubsampling(Vec<u8>),
    /// Width or height are missing or zero.
    MissingDimensions,
    /// No FRAME marker where one is due.
    FrameMarker,
    /// The stream ends inside the planes of a frame.
    Planes,
}

/// An error with its contents.
pub enum Y4mFault {
    NotY4m,
    Width,
    Height,
    FrameRate,
    FrameRateValue,
    UnsupportedSubsampling(Seq<u8>),
    MissingDimensions,
    FrameMarker,
    Planes,
}

impl View for Y4mError {
    type V = Y4mFault;

    open spec fn view(&self) -> Y4mFault {
        match self {
            Y4mError::NotY4m => Y4mFault::NotY4m,
            Y4mError::Width => Y4mFault::Width,
            Y4mError::Height => Y4mFault::Height,
            Y4mError::FrameRate => Y4mFault::FrameRate,
            Y4mError::FrameRateValue => Y4mFault::FrameRateValue,
            Y4mError::UnsupportedSubsampling(val) => Y4mFault::UnsupportedSubsampling(val@),
            Y4mError::MissingDimensions => Y4mFault::MissingDimensions,
            Y4mError::FrameMarker => Y4mFault::FrameMarker,
            Y4mError::Planes => Y4mFault::Planes,
        }
    }
}

/// YUV4MPEG2
pub open spec fn signature() -> Seq<u8> {
    seq![0x59u8, 0x55u8, 0x56u8, 0x34u8, 0x4Du8, 0x50u8, 0x45u8, 0x47u8, 0x32u8]
}

/// FRAME
pub open spec fn frame_marker() -> Seq<u8> {
    seq![0x46u8, 0x52u8, 0x41u8, 0x4Du8, 0x45u8]
}

/// The position of the first colon.
pub open spec fn colon(s: Seq<u8>, i: int) -> Option<int>
    decreases s.len() - i,
{
    if i >= s.len() {
        None
    } else if s[i] == 0x3A {
        Some(i)
    } else {
        colon(s, i + 1)
    }
}

/// The subsampling that a `C` parameter names.
pub open spec fn named_subsampling(val: Seq<u8>) -> Option<Subsampling> {
    if seq![0x34u8, 0x32u8, 0x30u8].is_prefix_of(val) {
        Some(Subsampling::C420)
    } else if seq![0x34u8, 0x32u8, 0x32u8].is_prefix_of(val) {
        Some(Subsampling::C422)
    } else if seq![0x34u8, 0x34u8, 0x34u8].is_prefix_of(val) {
        Some(Subsampling::C444)
    } else if seq![0x6Du8, 0x6Fu8, 0x6Eu8, 0x6Fu8].is_prefix_of(val) {
        Some(Subsampling::Mono)
    } else {
        None
    }
}

/// The parameters with a frame rate `n:d`.
pub open spec fn with_rate(header: Y4mHeader, val: Seq<u8>) -> Result<Y4mHeader, Y4mFault> {
    match colon(val, 0) {
        None => Err(Y4mFault::FrameRate),
        Some(i) => match (
            text::parsed(val.take(i), u32::MAX as nat),
            text::parsed(val.skip(i + 1), u32::MAX as nat),
        ) {
            (Some(n), Some(d)) => Ok(Y4mHeader { fps_num: n as u32, fps_den: d as u32, ..header }),
            _ => Err(Y4mFault::FrameRateValue),
        },
    }
}

/// The parameters with one more token: a tag (W, H, F, C; others are ignored)
/// and its value.
pub open spec fn with_token(header: Y4mHeader, token: Seq<u8>) -> Result<Y4mHeader, Y4mFault> {
    let (tag, val) = (token[0], token.skip(1));
    if tag == 0x57 {
        match text::parsed(val, usize::MAX as nat) {
            Some(n) => Ok(Y4mHeader { width: n as usize, ..header }),
            None => Err(Y4mFault::Width),
        }
    } else if tag == 0x48 {
        match text::parsed(val, usize::MAX as nat) {
            Some(n) => Ok(Y4mHeader { height: n as usize, ..header }),
            None => Err(Y4mFault::Height),
        }
    } else if tag == 0x46 {
        with_rate(header, val)
    } else if tag == 0x43 {
        match named_subsampling(val) {
            Some(sub) => Ok(Y4mHeader { sub, ..header }),
            None => Err(Y4mFault::UnsupportedSubsampling(val)),
        }
    } else {
        Ok(header)
    }
}

/// The parameters with the tokens from number `i` on, one after the other, up
/// to the first error.
pub open spec fn with_tokens(header: Y4mHeader, tokens: Seq<Seq<u8>>, i: int) -> Result<
    Y4mHeader,
    Y4mFault,
>
    decreases tokens.len() - i,
{
    if i >= tokens.len() {
        Ok(header)
    } else {
        match with_token(header, tokens[i]) {
            Ok(next) => with_tokens(next, tokens, i + 1),
            Err(e) => Err(e),
        }
    }
}

/// Up to the first error, every tag is an ASCII character.
pub open spec fn tags_ascii(header: Y4mHeader, tokens: Seq<Seq<u8>>, i: int) -> bool
    decreases tokens.len() - i,
{
    if i >= tokens.len() {
        true
    } else {
        &&& tokens[i][0] < 0x80
        &&& match with_token(header, tokens[i]) {
            Ok(next) => tags_ascii(next, tokens, i + 1),
            Err(e) => true,
        }
    }
}

/// The parameters of a header that names none: 25 frames per second, 4:2:0.
pub open spec fn default_header() -> Y4mHeader {
    Y4mHeader { width: 0, height: 0, fps_num: 25, fps_den: 1, sub: Subsampling::C420 }
}

/// The parameters that a header line names.
pub open spec fn header_of(line: Seq<u8>) -> Result<Y4mHeader, Y4mFault> {
    if !signature().is_prefix_of(line) {
        Err(Y4mFault::NotY4m)
    } else {
        match with_tokens(default_header(), text::tokens(line, 0), 1) {
            Err(e) => Err(e),
            Ok(header) => if header.width == 0 || header.height == 0 {
                Err(Y4mFault::MissingDimensions)
            } else {
                Ok(header)
            },
        }
    }
}

/// The tags of a header line can be told from their values.
pub open spec fn header_readable(line: Seq<u8>) -> bool {
    signature().is_prefix_of(line) ==> tags_ascii(default_header(), text::tokens(line, 0), 1)
}

/// An outcome and what it stands for.
pub open spec fn same_header(
    got: Result<Y4mHeader, Y4mError>,
    want: Result<Y4mHeader, Y4mFault>,
) -> bool {
    match (got, want) {
        (Ok(a), Ok(b)) => a == b,
        (Err(a), Err(b)) => a@ == b,
        _ => false,
    }
}

/// Reads a `C` parameter.
fn parse_subsampling(val: &[u8]) -> (sub: Option<Subsampling>)
    ensures
        sub == named_subsampling(val@),
{
    let (c420, c422, c444): ([u8; 3], [u8; 3], [u8; 3]) = (
        [0x34, 0x32, 0x30],
        [0x34, 0x32, 0x32],
        [0x34, 0x34, 0x34],
    );
    let mono: [u8; 4] = [0x6D, 0x6F, 0x6E, 0x6F];
    assert(c420@ =~= seq![0x34u8, 0x32u8, 0x30u8]);
    assert(c422@ =~= seq![0x34u8, 0x32u8, 0x32u8]);
    assert(c444@ =~= seq![0x34u8, 0x34u8, 0x34u8]);
    assert(mono@ =~= seq![0x6Du8, 0x6Fu8, 0x6Eu8, 0x6Fu8]);
    if starts_with(val, &c420) {
        Some(Subsampling::C420)
    } else if starts_with(val, &c422) {
        Some(Subsampling::C422)
    } else if starts_with(val, &c444) {
        Some(Subsampling::C444)
    } else if starts_with(val, &mono) {
        Some(Subsampling::Mono)
    } else {
        None
    }
}

/// Reads an `F` parameter.
fn parse_rate(header: Y4mHeader, val: &[u8]) -> (out: Result<Y4mHeader, Y4mError>)
    ensures
        same_header(out, with_rate(header, val@)),
{
    let mut i: usize = 0;
    while i < val.len() && val[i] != 0x3A
        invariant
            i <= val@.len(),
            colon(val@, i as int) == colon(val@, 0),
        decreases val@.len() - i,
    {
        i += 1;
    }
    if i >= val.len() {
        return Err(Y4mError::FrameRate);
    }
    let n = parse_number(slice_subrange(val, 0, i), u32::MAX as u64);
    let d = parse_number(slice_subrange(val, i + 1, val.len()), u32::MAX as u64);
    assert(val@.subrange(0, i as int) =~= val@.take(i as int));
    assert(val@.subrange(i + 1, val@.len() as int) =~= val@.skip(i + 1));
    match (n, d) {
        (Some(n), Some(d)) => Ok(Y4mHeader { fps_num: n as u32, fps_den: d as u32, ..header }),
        _ => Err(Y4mError::FrameRateValue),
    }
}

/// Reads a token of the header.
fn parse_token(header: Y4mHeader, token: &[u8]) -> (out: Result<Y4mHeader, Y4mError>)
    requires
        token@.len() > 0,
    ensures
        same_header(out, with_token(header, token@)),
{
    let tag = token[0];
    let val = slice_subrange(token, 1, token.len());
    assert(val@ =~= token@.skip(1));
    if tag == 0x57 {
        match parse_number(val, usize::MAX as u64) {
            Some(n) => Ok(Y4mHeader { width: n as usize, ..header }),
            None => Err(Y4mError::Width),
        }
    } else if tag == 0x48 {
        match parse_number(val, usize::MAX as u64) {
            Some(n) => Ok(Y4mHeader { height: n as usize, ..header }),
            None => Err(Y4mError::Height),
        }
    } else if tag == 0x46 {
        parse_rate(header, val)
    } else if tag == 0x43 {
        match parse_subsampling(val) {
            Some(sub) => Ok(Y4mHeader { sub, ..header }),
            None => Err(Y4mError::UnsupportedSubsampling(slice_to_vec(val))),
        }
    } else {
        Ok(header)
    }
}

/// Reads a header line; `None` where a tag cannot be told from its value.
fn scan_header(line: &[u8]) -> (out: Option<Result<Y4mHeader, Y4mError>>)
    ensures
        match out {
            None => !header_readable(line@),
            Some(got) => header_readable(line@) && same_header(got, header_of(line@)),
        },
{
    let magic: [u8; 9] = [0x59, 0x55, 0x56, 0x34, 0x4D, 0x50, 0x45, 0x47, 0x32];
    assert(magic@ =~= signature());
    if !starts_with(line, &magic) {
        return Some(Err(Y4mError::NotY4m));
    }
    let ghost all = text::tokens(line@, 0);
    let mut header = Y4mHeader {
        width: 0,
        height: 0,
        fps_num: 25,
        fps_den: 1,
        sub: Subsampling::C420,
    };
    let mut pos: usize = match next_token(line, 0) {
        Some((a, b)) => b,
        None => {
            return Some(Err(Y4mError::MissingDimensions));
        },
    };
    let ghost mut i: int = 1;
    proof {
        assert(text::tokens(line@, pos as int) =~= all.skip(1));
    }
    loop
        invariant
            pos <= line@.len(),
            signature().is_prefix_of(line@),
            all == text::tokens(line@, 0),
            1 <= i <= all.len(),
            text::tokens(line@, pos as int) == all.skip(i),
            with_tokens(default_header(), all, 1) == with_tokens(header, all, i),
            tags_ascii(default_header(), all, 1) == tags_ascii(header, all, i),
        decreases line@.len() - pos,
    {
        match next_token(line, pos) {
            None => {
                assert(all.skip(i).len() == 0);
                if header.width == 0 || header.height == 0 {
                    return Some(Err(Y4mError::MissingDimensions));
                }
                return Some(Ok(header));
            },
            Some((a, b)) => {
                let token = slice_subrange(line, a, b);
                proof {
                    assert(all.skip(i).len() == all.len() - i);
                    assert(all.skip(i) == seq![token@] + text::tokens(line@, b as int));
                    assert(all.skip(i)[0] == token@);
                    assert(all[i] == token@);
                    assert(text::tokens(line@, b as int) =~= all.skip(i + 1)) by {
                        let rest = text::tokens(line@, b as int);
                        assert(seq![token@] + rest == all.skip(i));
                        assert((seq![token@] + rest).skip(1) =~= rest);
                        assert(all.skip(i).skip(1) =~= all.skip(i + 1));
                    }
                }
                if token[0] >= 0x80 {
                    return None;
                }
                match parse_token(header, token) {
                    Ok(next) => {
                        header = next;
                        pos = b;
                        proof {
                            i = i + 1;
                        }
                    },
                    Err(e) => {
                        return Some(Err(e));
                    },
                }
            },
        }
    }
}

/// Whether the tags of a header line can be told from their values: up to the
/// first error, each is an ASCII character.
pub fn can_read_header(line: &[u8]) -> (yes: bool)
    ensures
        yes == header_readable(line@),
{
    scan_header(line).is_some()
}

/// Reads the parameters of a header line.
pub fn read_header(line: &[u8]) -> (out: Result<Y4mHeader, Y4mError>)
    requires
        header_readable(line@),
    ensures
        same_header(out, header_of(line@)),
{
    match scan_header(line) {
        Some(out) => out,
        None => Err(Y4mError::NotY4m),
    }
}

/// The size of a chrominance plane.
pub open spec fn chroma_size(width: int, height: int, sub: Subsampling) -> (int, int) {
    match sub {
        Subsampling::C420 => ((width + 1) / 2, (height + 1) / 2),
        Subsampling::C422 => ((width + 1) / 2, height),
        Subsampling::C444 => (width, height),
        Subsampling::Mono => (0, 0),
    }
}

/// The number of bytes of a frame.
pub open spec fn frame_len(header: Y4mHeader) -> int {
    let (cw, ch) = chroma_size(header.width as int, header.height as int, header.sub);
    header.width * header.height + 2 * (cw * ch)
}

/// Where in its plane the chrominance sample of element `i` of a frame stands:
/// samples are replicated.
pub open spec fn chroma_index(header: Y4mHeader, i: int) -> int {
    let (yy, xx) = (i / header.width as int, i % header.width as int);
    let sy = match header.sub {
        Subsampling::C420 => yy / 2,
        _ => yy,
    };
    let sx = match header.sub {
        Subsampling::C444 => xx,
        _ => xx / 2,
    };
    sy * chroma_size(header.width as int, header.height as int, header.sub).0 + sx
}

/// The frame whose planes are `bytes`: luminance, then the two chrominance
/// planes, brought to the size of the frame; neutral if there are none.
pub open spec fn unpacked(header: Y4mHeader, bytes: Seq<u8>) -> FrameView {
    let n = header.width * header.height;
    let (cw, ch) = chroma_size(header.width as int, header.height as int, header.sub);
    let chroma = |start: int|
        Seq::new(
            n as nat,
            |i: int|
                if header.sub is Mono {
                    128u8
                } else {
                    bytes[start + chroma_index(header, i)]
                },
        );
    FrameView {
        w: header.width as int,
        h: header.height as int,
        y: bytes.take(n),
        cb: chroma(n),
        cr: chroma(n + cw * ch),
    }
}

/// The number of bytes of a frame, if it can be counted.
pub fn frame_size(header: &Y4mHeader) -> (n: Option<usize>)
    ensures
        match n {
            Some(n) => n == frame_len(*header),
            None => frame_len(*header) > usize::MAX,
        },
{
    let (w, h) = (header.width, header.height);
    proof {
        lemma_chroma_fits(*header);
    }
    let luma = match w.checked_mul(h) {
        Some(n) => n,
        None => {
            return None;
        },
    };
    let (cw, ch): (usize, usize) = match header.sub {
        Subsampling::C420 => (w / 2 + w % 2, h / 2 + h % 2),
        Subsampling::C422 => (w / 2 + w % 2, h),
        Subsampling::C444 => (w, h),
        Subsampling::Mono => (0, 0),
    };
    let chroma = match cw.checked_mul(ch) {
        Some(n) => n,
        None => {
            return None;
        },
    };
    match chroma.checked_mul(2) {
        Some(n) => luma.checked_add(n),
        None => None,
    }
}

/// A chrominance plane is no larger than the frame.
proof fn lemma_chroma_fits(header: Y4mHeader)
    ensures
        ({
            let (cw, ch) = chroma_size(header.width as int, header.height as int, header.sub);
            0 <= cw * ch && 0 <= header.width * header.height
        }),
{
    let (cw, ch) = chroma_size(header.width as int, header.height as int, header.sub);
    assert(0 <= cw * ch) by (nonlinear_arith)
        requires
            0 <= cw,
            0 <= ch,
    ;
    assert(0 <= header.width * header.height) by (nonlinear_arith);
}

/// The chrominance sample of an element stands in its plane.
proof fn lemma_chroma_index(header: Y4mHeader, yy: int, xx: int)
    requires
        0 <= yy < header.height,
        0 <= xx < header.width,
        !(header.sub is Mono),
    ensures
        ({
            let (cw, ch) = chroma_size(header.width as int, header.height as int, header.sub);
            let i = yy * header.width + xx;
            let sy = if header.sub is C420 {
                yy / 2
            } else {
                yy
            };
            let sx = if header.sub is C444 {
                xx
            } else {
                xx / 2
            };
            &&& chroma_index(header, i) == sy * cw + sx
            &&& 0 <= sy * cw + sx < cw * ch
            &&& 0 <= i < header.width * header.height
        }),
{
    let w = header.width as int;
    let h = header.height as int;
    let (cw, ch) = chroma_size(w, h, header.sub);
    let i = yy * w + xx;
    lemma_fundamental_div_mod_converse(i, w, yy, xx);
    let sy = if header.sub is C420 {
        yy / 2
    } else {
        yy
    };
    let sx = if header.sub is C444 {
        xx
    } else {
        xx / 2
    };
    assert(0 <= sy * cw + sx < cw * ch) by (nonlinear_arith)
        requires
            0 <= sy < ch,
            0 <= sx < cw,
    ;
    assert(0 <= i < w * h) by (nonlinear_arith)
        requires
            0 <= yy < h,
            0 <= xx < w,
            i == yy * w + xx,
    ;
}

/// A chrominance plane brought to the size of the frame by replication (good
/// enough: the chroma is reduced to 52 samples/line afterwards anyway).
fn replicate_plane(header: &Y4mHeader, bytes: &[u8], start: usize) -> (plane: Vec<u8>)
    requires
        !(header.sub is Mono),
        header.width > 0,
        start + ({
            let (cw, ch) = chroma_size(header.width as int, header.height as int, header.sub);
            cw * ch
        }) <= bytes@.len(),
    ensures
        plane@ == Seq::new(
            (header.width * header.height) as nat,
            |i: int| bytes@[start + chroma_index(*header, i)],
        ),
{
    let (w, h) = (header.width, header.height);
    let cw: usize = match header.sub {
        Subsampling::C444 => w,
        _ => w / 2 + w % 2,
    };
    let ghost ch = chroma_size(w as int, h as int, header.sub).1;
    let total: usize = bytes.len();
    let mut plane: Vec<u8> = Vec::new();
    let mut yy: usize = 0;
    assert(0 * w == 0);
    while yy < h
        invariant
            yy <= h,
            w == header.width,
            h == header.height,
            w > 0,
            !(header.sub is Mono),
            (cw as int, ch) == chroma_size(w as int, h as int, header.sub),
            start + cw * ch <= total == bytes@.len(),
            plane@.len() == yy * w,
            forall|i: int|
                0 <= i < plane@.len() ==> #[trigger] plane@[i] == bytes@[start + chroma_index(
                    *header,
                    i,
                )],
        decreases h - yy,
    {
        let sy: usize = match header.sub {
            Subsampling::C420 => yy / 2,
            _ => yy,
        };
        let mut xx: usize = 0;
        while xx < w
            invariant
                yy < h,
                xx <= w,
                w == header.width,
                h == header.height,
                w > 0,
                !(header.sub is Mono),
                (cw as int, ch) == chroma_size(w as int, h as int, header.sub),
                start + cw * ch <= total == bytes@.len(),
                sy == if header.sub is C420 {
                    yy as int / 2
                } else {
                    yy as int
                },
                plane@.len() == yy * w + xx,
                forall|i: int|
                    0 <= i < plane@.len() ==> #[trigger] plane@[i] == bytes@[start + chroma_index(
                        *header,
                        i,
                    )],
            decreases w - xx,
        {
            let sx: usize = match header.sub {
                Subsampling::C444 => xx,
                _ => xx / 2,
            };
            proof {
                lemma_chroma_index(*header, yy as int, xx as int);
                assert(sy * cw >= 0) by (nonlinear_arith)
                    requires
                        sy >= 0,
                        cw >= 0,
                ;
            }
            plane.push(bytes[start + (sy * cw + sx)]);
            xx += 1;
        }
        assert((yy + 1) * w == yy * w + w) by (nonlinear_arith);
        yy += 1;
    }
    assert(h * w == w * h) by (nonlinear_arith);
    assert(plane@ =~= Seq::new(
        (w * h) as nat,
        |i: int| bytes@[start + chroma_index(*header, i)],
    ));
    plane
}

/// The frame whose planes are `bytes`, converted to 4:4:4.
pub fn unpack_frame(header: &Y4mHeader, bytes: &[u8]) -> (frame: Frame444)
    requires
        header.width > 0,
        bytes@.len() == frame_len(*header),
    ensures
        frame@ == unpacked(*header, bytes@),
{
    let (w, h) = (header.width, header.height);
    proof {
        lemma_chroma_fits(*header);
    }
    let total: usize = bytes.len();
    assert(w * h <= total);
    let n: usize = w * h;
    let y = slice_to_vec(slice_subrange(bytes, 0, n));
    assert(y@ =~= bytes@.take(n as int));
    let (cb, cr) = if header.sub == Subsampling::Mono {
        (fill_plane(128, n), fill_plane(128, n))
    } else {
        let plane_len: usize = (total - n) / 2;
        (replicate_plane(header, bytes, n), replicate_plane(header, bytes, n + plane_len))
    };
    let frame = Frame444 { w, h, y, cb, cr };
    proof {
        let want = unpacked(*header, bytes@);
        assert(frame@.cb =~= want.cb);
        assert(frame@.cr =~= want.cr);
        assert(frame@ =~= want);
    }
    frame
}

/// The position behind the line that starts at `i`.
pub open spec fn line_end(data: Seq<u8>, i: int) -> int
    decreases data.len() - i,
{
    if i >= data.len() {
        data.len() as int
    } else if data[i] == 0x0A {
        i + 1
    } else {
        line_end(data, i + 1)
    }
}

proof fn lemma_line_end(data: Seq<u8>, i: int)
    requires
        0 <= i <= data.len(),
    ensures
        i <= line_end(data, i) <= data.len(),
        i < data.len() ==> i < line_end(data, i),
    decreases data.len() - i,
{
    if i < data.len() {
        lemma_line_end(data, i + 1);
    }
}

/// The position behind the line that starts at `i`.
pub fn end_of_line(data: &[u8], i: usize) -> (end: usize)
    requires
        i <= data@.len(),
    ensures
        end == line_end(data@, i as int),
        i <= end <= data@.len(),
{
    let mut j: usize = i;
    while j < data.len()
        invariant
            i <= j <= data@.len(),
            line_end(data@, j as int) == line_end(data@, i as int),
        decreases data@.len() - j,
    {
        if data[j] == 0x0A {
            return j + 1;
        }
        j += 1;
    }
    j
}

/// Whether a line marks a frame.
pub fn is_frame_marker(line: &[u8]) -> (yes: bool)
    ensures
        yes == frame_marker().is_prefix_of(line@),
{
    let marker: [u8; 5] = [0x46, 0x52, 0x41, 0x4D, 0x45];
    assert(marker@ =~= frame_marker());
    starts_with(line, &marker)
}

/// Reads the frames of a Y4M stream.
pub struct Y4mReader<'a> {
    pub data: &'a [u8],
    /// Position of the next frame in `data`.
    pub pos: usize,
    pub width: usize,
    pub height: usize,
    pub fps_num: u32,
    pub fps_den: u32,
    pub sub: Subsampling,
}

/// What a Y4M reader gives.
pub enum FrameRead {
    Frame(FrameView),
    End,
    Fail(Y4mFault),
}

/// The frame that stands at `pos`, and the position behind it.
pub open spec fn frame_at(data: Seq<u8>, pos: int, header: Y4mHeader) -> (FrameRead, int) {
    let start = line_end(data, pos);
    let end = start + frame_len(header);
    if pos >= data.len() {
        (FrameRead::End, pos)
    } else if !frame_marker().is_prefix_of(data.subrange(pos, start)) {
        (FrameRead::Fail(Y4mFault::FrameMarker), start)
    } else if end > data.len() {
        (FrameRead::Fail(Y4mFault::Planes), data.len() as int)
    } else {
        (FrameRead::Frame(unpacked(header, data.subrange(start, end))), end)
    }
}

impl<'a> Y4mReader<'a> {
    /// The parameters of the stream.
    pub open spec fn header(&self) -> Y4mHeader {
        Y4mHeader {
            width: self.width,
            height: self.height,
            fps_num: self.fps_num,
            fps_den: self.fps_den,
            sub: self.sub,
        }
    }

    /// The position lies in the stream, and frames are not empty.
    pub open spec fn wf(&self) -> bool {
        self.pos <= self.data@.len() && self.width > 0 && self.height > 0
    }

    /// A reader at the first frame of a stream.
    pub fn new(data: &'a [u8]) -> (out: Result<Self, Y4mError>)
        requires
            header_readable(data@.subrange(0, line_end(data@, 0))),
        ensures
            match (out, header_of(data@.subrange(0, line_end(data@, 0)))) {
                (Ok(reader), Ok(header)) => {
                    &&& reader.wf()
                    &&& reader.header() == header
                    &&& reader.data@ == data@
                    &&& reader.pos == line_end(data@, 0)
                },
                (Err(a), Err(b)) => a@ == b,
                _ => false,
            },
    {
        let end = end_of_line(data, 0);
        match read_header(slice_subrange(data, 0, end)) {
            Ok(header) => Ok(
                Y4mReader {
                    data,
                    pos: end,
                    width: header.width,
                    height: header.height,
                    fps_num: header.fps_num,
                    fps_den: header.fps_den,
                    sub: header.sub,
                },
            ),
            Err(e) => Err(e),
        }
    }

    /// Reads the next frame, converted to 4:4:4. `None` at end of stream.
    pub fn next_frame(&mut self) -> (out: Result<Option<Frame444>, Y4mError>)
        requires
            old(self).wf(),
            frame_len(old(self).header()) <= usize::MAX,
        ensures
            final(self).wf(),
            final(self).data@ == old(self).data@,
            final(self).header() == old(self).header(),
            ({
                let (read, pos) = frame_at(
                    old(self).data@,
                    old(self).pos as int,
                    old(self).header(),
                );
                &&& final(self).pos == pos
                &&& match (out, read) {
                    (Ok(Some(frame)), FrameRead::Frame(view)) => frame@ == view,
                    (Ok(None), FrameRead::End) => true,
                    (Err(a), FrameRead::Fail(b)) => a@ == b,
                    _ => false,
                }
            }),
    {
        if self.pos >= self.data.len() {
            return Ok(None);
        }
        let start = end_of_line(self.data, self.pos);
        let marked = is_frame_marker(slice_subrange(self.data, self.pos, start));
        if !marked {
            self.pos = start;
            return Err(Y4mError::FrameMarker);
        }
        let header = Y4mHeader {
            width: self.width,
            height: self.height,
            fps_num: self.fps_num,
            fps_den: self.fps_den,
            sub: self.sub,
        };
        let total: usize = match frame_size(&header) {
            Some(n) => n,
            None => 0,
        };
        if total > self.data.len() - start {
            self.pos = self.data.len();
            return Err(Y4mError::Planes);
        }
        proof {
            lemma_chroma_fits(header);
        }
        let frame = unpack_frame(&header, slice_subrange(self.data, start, start + total));
        self.pos = start + total;
        Ok(Some(frame))
    }
}

/// A line of words: a space between them, a line feed behind the last.
pub open spec fn line_of(words: Seq<Seq<u8>>) -> Seq<u8>
    decreases words.len(),
{
    if words.len() == 0 {
        Seq::empty()
    } else if words.len() == 1 {
        words[0].push(0x0A)
    } else {
        words[0].push(0x20) + line_of(words.skip(1))
    }
}

/// Two numbers with a colon between them.
pub open spec fn ratio(a: nat, b: nat) -> Seq<u8> {
    text::decimal(a).push(0x3A) + text::decimal(b)
}

/// The words of a header: YUV4MPEG2 W… H… F…:… Ip A…:… C444
pub open spec fn header_words(w: nat, h: nat, fps: (nat, nat), par: (nat, nat)) -> Seq<Seq<u8>> {
    seq![
        signature(),
        seq![0x57u8] + text::decimal(w),
        seq![0x48u8] + text::decimal(h),
        seq![0x46u8] + ratio(fps.0, fps.1),
        seq![0x49u8, 0x70u8],
        seq![0x41u8] + ratio(par.0, par.1),
        seq![0x43u8, 0x34u8, 0x34u8, 0x34u8],
    ]
}

/// A frame: its marker and its planes.
pub open spec fn frame_bytes(frame: FrameView) -> Seq<u8> {
    frame_marker().push(0x0A) + frame.y + frame.cb + frame.cr
}

/// Writes frames as a Y4M stream.
pub struct Y4mWriter {
    /// The bytes written and not yet handed out.
    pub out: Vec<u8>,
    pub wrote_header: bool,
    pub fps_num: u32,
    pub fps_den: u32,
    /// Pixel aspect ratio (Y4M `A` parameter).
    pub par: (u32, u32),
}

/// Appends two numbers with a colon between them.
fn push_ratio(out: &mut Vec<u8>, a: u32, b: u32)
    ensures
        final(out)@ == old(out)@ + ratio(a as nat, b as nat),
{
    push_decimal(out, a as u64);
    out.push(0x3A);
    push_decimal(out, b as u64);
    assert(out@ =~= old(out)@ + ratio(a as nat, b as nat));
}

/// Appends a word: a tag and a number.
fn push_number_word(out: &mut Vec<u8>, tag: u8, n: u64)
    ensures
        final(out)@ == old(out)@ + (seq![tag] + text::decimal(n as nat)).push(0x20),
{
    out.push(tag);
    push_decimal(out, n);
    out.push(0x20);
    assert(out@ =~= old(out)@ + (seq![tag] + text::decimal(n as nat)).push(0x20));
}

/// Appends a word: a tag and a ratio.
fn push_ratio_word(out: &mut Vec<u8>, tag: u8, a: u32, b: u32)
    ensures
        final(out)@ == old(out)@ + (seq![tag] + ratio(a as nat, b as nat)).push(0x20),
{
    out.push(tag);
    push_ratio(out, a, b);
    out.push(0x20);
    assert(out@ =~= old(out)@ + (seq![tag] + ratio(a as nat, b as nat)).push(0x20));
}

/// Appends a header.
fn push_header(out: &mut Vec<u8>, w: usize, h: usize, fps: (u32, u32), par: (u32, u32))
    ensures
        final(out)@ == old(out)@ + line_of(
            header_words(
                w as nat,
                h as nat,
                (fps.0 as nat, fps.1 as nat),
                (par.0 as nat, par.1 as nat),
            ),
        ),
{
    let ghost words = header_words(
        w as nat,
        h as nat,
        (fps.0 as nat, fps.1 as nat),
        (par.0 as nat, par.1 as nat),
    );
    let magic: [u8; 10] = [0x59, 0x55, 0x56, 0x34, 0x4D, 0x50, 0x45, 0x47, 0x32, 0x20];
    assert(magic@ =~= words[0].push(0x20));
    push_bytes(out, &magic);
    push_number_word(out, 0x57, w as u64);
    push_number_word(out, 0x48, h as u64);
    push_ratio_word(out, 0x46, fps.0, fps.1);
    let interlacing: [u8; 3] = [0x49, 0x70, 0x20];
    assert(interlacing@ =~= words[4].push(0x20));
    push_bytes(out, &interlacing);
    push_ratio_word(out, 0x41, par.0, par.1);
    let chroma: [u8; 5] = [0x43, 0x34, 0x34, 0x34, 0x0A];
    assert(chroma@ =~= words[6].push(0x0A));
    push_bytes(out, &chroma);
    proof {
        lemma_line_of_seven(words);
        let o1 = old(out)@ + words[0].push(0x20);
        let o2 = o1 + words[1].push(0x20);
        let o3 = o2 + words[2].push(0x20);
        let o4 = o3 + words[3].push(0x20);
        let o5 = o4 + words[4].push(0x20);
        let t6 = words[6].push(0x0A);
        let t5 = words[5].push(0x20) + t6;
        let t4 = words[4].push(0x20) + t5;
        let t3 = words[3].push(0x20) + t4;
        let t2 = words[2].push(0x20) + t3;
        let t1 = words[1].push(0x20) + t2;
        assert(o5 + words[5].push(0x20) + t6 =~= o5 + t5);
        assert(o4 + words[4].push(0x20) + t5 =~= o4 + t4);
        assert(o3 + words[3].push(0x20) + t4 =~= o3 + t3);
        assert(o2 + words[2].push(0x20) + t3 =~= o2 + t2);
        assert(o1 + words[1].push(0x20) + t2 =~= o1 + t1);
        assert(old(out)@ + words[0].push(0x20) + t1 =~= old(out)@ + (words[0].push(0x20) + t1));
    }
}

/// A line of seven words.
pub proof fn lemma_line_of_seven(words: Seq<Seq<u8>>)
    requires
        words.len() == 7,
    ensures
        line_of(words) == words[0].push(0x20) + (words[1].push(0x20) + (words[2].push(0x20) + (
        words[3].push(0x20) + (words[4].push(0x20) + (words[5].push(0x20) + words[6].push(
            0x0A,
        )))))),
{
    let (w1, w2, w3) = (words.skip(1), words.skip(1).skip(1), words.skip(1).skip(1).skip(1));
    let (w4, w5) = (w3.skip(1), w3.skip(1).skip(1));
    let w6 = w5.skip(1);
    assert(line_of(w6) == w6[0].push(0x0A));
    assert(line_of(w5) == w5[0].push(0x20) + line_of(w6));
    assert(line_of(w4) == w4[0].push(0x20) + line_of(w5));
    assert(line_of(w3) == w3[0].push(0x20) + line_of(w4));
    assert(line_of(w2) == w2[0].push(0x20) + line_of(w3));
    assert(line_of(w1) == w1[0].push(0x20) + line_of(w2));
}

impl Y4mWriter {
    /// The header of a stream whose first frame has the given size.
    pub open spec fn header_line(&self, w: int, h: int) -> Seq<u8> {
        line_of(
            header_words(
                w as nat,
                h as nat,
                (self.fps_num as nat, self.fps_den as nat),
                (self.par.0 as nat, self.par.1 as nat),
            ),
        )
    }

    /// A writer that has written nothing.
    pub fn new(fps_num: u32, fps_den: u32, par: (u32, u32)) -> (writer: Self)
        ensures
            writer.out@ == Seq::<u8>::empty(),
            !writer.wrote_header,
            writer.fps_num == fps_num,
            writer.fps_den == fps_den,
            writer.par == par,
    {
        Y4mWriter { out: Vec::new(), wrote_header: false, fps_num, fps_den, par }
    }

    /// Writes a 4:4:4 frame, behind the header if it is the first.
    pub fn write_frame(&mut self, f: &Frame444)
        ensures
            final(self).out@ == old(self).out@ + (if old(self).wrote_header {
                Seq::empty()
            } else {
                old(self).header_line(f.w as int, f.h as int)
            }) + frame_bytes(f@),
            final(self).wrote_header,
            final(self).fps_num == old(self).fps_num,
            final(self).fps_den == old(self).fps_den,
            final(self).par == old(self).par,
    {
        if !self.wrote_header {
            push_header(&mut self.out, f.w, f.h, (self.fps_num, self.fps_den), self.par);
            self.wrote_header = true;
        }
        let ghost headed = self.out@;
        let marker: [u8; 6] = [0x46, 0x52, 0x41, 0x4D, 0x45, 0x0A];
        push_bytes(&mut self.out, &marker);
        push_bytes(&mut self.out, f.y.as_slice());
        push_bytes(&mut self.out, f.cb.as_slice());
        push_bytes(&mut self.out, f.cr.as_slice());
        proof {
            assert(marker@ =~= frame_marker().push(0x0A));
            assert(headed =~= old(self).out@ + (if old(self).wrote_header {
                Seq::empty()
            } else {
                old(self).header_line(f.w as int, f.h as int)
            }));
            assert(self.out@ =~= headed + frame_bytes(f@));
        }
    }

    /// Hands out the bytes written since the last call.
    pub fn flush(&mut self) -> (bytes: Vec<u8>)
        ensures
            bytes@ == old(self).out@,
            final(self).out@ == Seq::<u8>::empty(),
            final(self).wrote_header == old(self).wrote_header,
            final(self).fps_num == old(self).fps_num,
            final(self).fps_den == old(self).fps_den,
            final(self).par == old(self).par,
    {
        let mut bytes: Vec<u8> = Vec::new();
        std::mem::swap(&mut self.out, &mut bytes);
        bytes
    }
}

/// The bytes of frames in a row.
pub open spec fn frames_bytes(frames: Seq<FrameView>) -> Seq<u8>
    decreases frames.len(),
{
    if frames.len() == 0 {
        Seq::empty()
    } else {
        frames_bytes(frames.drop_last()) + frame_bytes(frames.last())
    }
}

/// What a writer writes of frames: a header with the size of the first, and the
/// frames.
pub open spec fn written(fps: (u32, u32), par: (u32, u32), frames: Seq<FrameView>) -> Seq<u8> {
    if frames.len() == 0 {
        Seq::empty()
    } else {
        line_of(
            header_words(
                frames[0].w as nat,
                frames[0].h as nat,
                (fps.0 as nat, fps.1 as nat),
                (par.0 as nat, par.1 as nat),
            ),
        ) + frames_bytes(frames)
    }
}

/// A word of printable ASCII characters.
pub open spec fn plain(word: Seq<u8>) -> bool {
    word.len() > 0 && forall|i: int| 0 <= i < word.len() ==> 0x21 <= #[trigger] word[i] <= 0x7E
}

/// A plain word behind which white space stands is a token.
pub proof fn lemma_plain_token(s: Seq<u8>, i: int, j: int)
    requires
        0 <= i <= j < s.len(),
        forall|k: int| i <= k < j ==> 0x21 <= #[trigger] s[k] <= 0x7E,
        s[j] == 0x20 || s[j] == 0x0A,
    ensures
        text::token_end(s, i) == j,
    decreases j - i,
{
    if i < j {
        assert(0x21 <= s[i] <= 0x7E);
        lemma_plain_token(s, i + 1, j);
    }
}

/// The tokens of a line of plain words are the words.
pub proof fn lemma_line_tokens(before: Seq<u8>, words: Seq<Seq<u8>>)
    requires
        forall|i: int| 0 <= i < words.len() ==> plain(#[trigger] words[i]),
    ensures
        text::tokens(before + line_of(words), before.len() as int) =~= words,
    decreases words.len(),
{
    let s = before + line_of(words);
    let i = before.len() as int;
    if words.len() > 0 {
        let word = words[0];
        let j = i + word.len();
        assert(plain(word));
        let sep = if words.len() == 1 {
            0x0Au8
        } else {
            0x20u8
        };
        let next = before + word.push(sep);
        let rest = words.skip(1);
        if words.len() > 1 {
            assert(line_of(words) == word.push(0x20) + line_of(rest));
        }
        assert(s =~= next + line_of(rest));
        assert forall|k: int| i <= k < j implies 0x21 <= #[trigger] s[k] <= 0x7E by {
            assert(s[k] == word[k - i]);
        }
        assert(s[j] == sep);
        lemma_plain_token(s, i, j);
        assert(s[i] == word[0]);
        assert(s.subrange(i, j) =~= word);
        assert forall|k: int| 0 <= k < rest.len() implies plain(#[trigger] rest[k]) by {
            assert(rest[k] == words[k + 1]);
        }
        lemma_line_tokens(next, rest);
        assert(text::tokens(s, j) == text::tokens(s, j + 1));
        assert(seq![word] + rest =~= words);
    }
}

/// A line of plain words ends with its line feed.
proof fn lemma_line_of_end(words: Seq<Seq<u8>>, after: Seq<u8>)
    requires
        words.len() > 0,
        forall|i: int| 0 <= i < words.len() ==> plain(#[trigger] words[i]),
    ensures
        line_end(line_of(words) + after, 0) == line_of(words).len(),
        line_of(words).len() > 0,
{
    lemma_single_feed(words);
    let s = line_of(words) + after;
    let n = line_of(words).len() - 1;
    lemma_line_end_at(s, 0, n);
}

/// The only line feed of a line of plain words is its last byte.
proof fn lemma_single_feed(words: Seq<Seq<u8>>)
    requires
        words.len() > 0,
        forall|i: int| 0 <= i < words.len() ==> plain(#[trigger] words[i]),
    ensures
        line_of(words).len() > 0,
        line_of(words).last() == 0x0A,
        forall|i: int| 0 <= i < line_of(words).len() - 1 ==> #[trigger] line_of(words)[i] != 0x0A,
    decreases words.len(),
{
    let line = line_of(words);
    let word = words[0];
    assert(plain(word));
    if words.len() > 1 {
        let rest = words.skip(1);
        assert forall|k: int| 0 <= k < rest.len() implies plain(#[trigger] rest[k]) by {
            assert(rest[k] == words[k + 1]);
        }
        lemma_single_feed(rest);
        assert forall|i: int| 0 <= i < line.len() - 1 implies #[trigger] line[i] != 0x0A by {
            if i < word.len() {
                assert(line[i] == word[i]);
            } else if i > word.len() {
                assert(line[i] == line_of(rest)[i - word.len() - 1]);
            }
        }
    } else {
        assert forall|i: int| 0 <= i < line.len() - 1 implies #[trigger] line[i] != 0x0A by {
            assert(line[i] == word[i]);
        }
    }
}

/// A line ends at its first line feed.
pub proof fn lemma_line_end_at(s: Seq<u8>, i: int, n: int)
    requires
        0 <= i <= n < s.len(),
        s[n] == 0x0A,
        forall|k: int| i <= k < n ==> #[trigger] s[k] != 0x0A,
    ensures
        line_end(s, i) == n + 1,
    decreases n - i,
{
    if i < n {
        lemma_line_end_at(s, i + 1, n);
    }
}

/// The first colon of a ratio stands behind its first number.
pub proof fn lemma_colon(s: Seq<u8>, i: int, n: int)
    requires
        0 <= i <= n < s.len(),
        s[n] == 0x3A,
        forall|k: int| i <= k < n ==> #[trigger] s[k] != 0x3A,
    ensures
        colon(s, i) == Some(n),
    decreases n - i,
{
    if i < n {
        lemma_colon(s, i + 1, n);
    }
}

/// A ratio is read back.
proof fn lemma_ratio(header: Y4mHeader, a: u32, b: u32)
    ensures
        with_rate(header, ratio(a as nat, b as nat)) == Ok::<Y4mHeader, Y4mFault>(
            Y4mHeader { fps_num: a, fps_den: b, ..header },
        ),
        plain(ratio(a as nat, b as nat)),
{
    let (x, y) = (text::decimal(a as nat), text::decimal(b as nat));
    let val = ratio(a as nat, b as nat);
    text::decimal_reads_back(a as nat, u32::MAX as nat);
    text::decimal_reads_back(b as nat, u32::MAX as nat);
    assert forall|k: int| 0 <= k < val.len() implies 0x21 <= #[trigger] val[k] <= 0x7E && (k
        < x.len() ==> val[k] != 0x3A) by {
        if k < x.len() {
            assert(val[k] == x[k]);
        } else if k > x.len() {
            assert(val[k] == y[k - x.len() - 1]);
        }
    }
    lemma_colon(val, 0, x.len() as int);
    assert(val.take(x.len() as int) =~= x);
    assert(val.skip((x.len() + 1) as int) =~= y);
}

/// The word for 4:4:4 is read back.
#[verifier::spinoff_prover]
proof fn lemma_444(header: Y4mHeader)
    ensures
        with_token(header, seq![0x43u8, 0x34u8, 0x34u8, 0x34u8]) == Ok::<Y4mHeader, Y4mFault>(
            Y4mHeader { sub: Subsampling::C444, ..header },
        ),
{
    let word = seq![0x43u8, 0x34u8, 0x34u8, 0x34u8];
    let c444 = seq![0x34u8, 0x34u8, 0x34u8];
    assert(word.skip(1) =~= c444);
    assert(c444.is_prefix_of(c444));
    assert(named_subsampling(c444) == Some(Subsampling::C444)) by {
        assert(c444.subrange(0, 3)[1] == 0x34);
        assert(seq![0x34u8, 0x32u8, 0x30u8][1] == 0x32);
        assert(seq![0x34u8, 0x32u8, 0x32u8][1] == 0x32);
        assert(!seq![0x34u8, 0x32u8, 0x30u8].is_prefix_of(c444));
        assert(!seq![0x34u8, 0x32u8, 0x32u8].is_prefix_of(c444));
    }
}

/// The words for the width and the height are read back.
#[verifier::spinoff_prover]
proof fn lemma_size_words(header: Y4mHeader, n: usize)
    ensures
        with_token(header, seq![0x57u8] + text::decimal(n as nat)) == Ok::<Y4mHeader, Y4mFault>(
            Y4mHeader { width: n, ..header },
        ),
        with_token(header, seq![0x48u8] + text::decimal(n as nat)) == Ok::<Y4mHeader, Y4mFault>(
            Y4mHeader { height: n, ..header },
        ),
        plain(seq![0x57u8] + text::decimal(n as nat)),
        plain(seq![0x48u8] + text::decimal(n as nat)),
{
    let digits = text::decimal(n as nat);
    text::decimal_reads_back(n as nat, usize::MAX as nat);
    assert((seq![0x57u8] + digits).skip(1) =~= digits);
    assert((seq![0x48u8] + digits).skip(1) =~= digits);
    lemma_tagged_is_plain(0x57, digits);
    lemma_tagged_is_plain(0x48, digits);
}

/// A tag before a plain value.
proof fn lemma_tagged_is_plain(tag: u8, val: Seq<u8>)
    requires
        0x21 <= tag <= 0x7E,
        forall|k: int| 0 <= k < val.len() ==> 0x21 <= #[trigger] val[k] <= 0x7E,
    ensures
        plain(seq![tag] + val),
{
    let word = seq![tag] + val;
    assert forall|k: int| 0 <= k < word.len() implies 0x21 <= #[trigger] word[k] <= 0x7E by {
        if k > 0 {
            assert(word[k] == val[k - 1]);
        }
    }
}

/// The words for the frame rate and the pixel aspect ratio are read back.
#[verifier::spinoff_prover]
proof fn lemma_ratio_words(header: Y4mHeader, a: u32, b: u32)
    ensures
        with_token(header, seq![0x46u8] + ratio(a as nat, b as nat)) == Ok::<Y4mHeader, Y4mFault>(
            Y4mHeader { fps_num: a, fps_den: b, ..header },
        ),
        with_token(header, seq![0x41u8] + ratio(a as nat, b as nat)) == Ok::<Y4mHeader, Y4mFault>(
            header,
        ),
        plain(seq![0x46u8] + ratio(a as nat, b as nat)),
        plain(seq![0x41u8] + ratio(a as nat, b as nat)),
{
    let val = ratio(a as nat, b as nat);
    lemma_ratio(header, a, b);
    assert((seq![0x46u8] + val).skip(1) =~= val);
    lemma_tagged_is_plain(0x46, val);
    lemma_tagged_is_plain(0x41, val);
}

/// Seven tokens, of which the fifth and the sixth change nothing.
#[verifier::spinoff_prover]
proof fn lemma_seven_tokens(
    h0: Y4mHeader,
    h1: Y4mHeader,
    h2: Y4mHeader,
    h3: Y4mHeader,
    h6: Y4mHeader,
    words: Seq<Seq<u8>>,
)
    requires
        words.len() == 7,
        with_token(h0, words[1]) == Ok::<Y4mHeader, Y4mFault>(h1),
        with_token(h1, words[2]) == Ok::<Y4mHeader, Y4mFault>(h2),
        with_token(h2, words[3]) == Ok::<Y4mHeader, Y4mFault>(h3),
        with_token(h3, words[4]) == Ok::<Y4mHeader, Y4mFault>(h3),
        with_token(h3, words[5]) == Ok::<Y4mHeader, Y4mFault>(h3),
        with_token(h3, words[6]) == Ok::<Y4mHeader, Y4mFault>(h6),
        forall|i: int| 1 <= i < 7 ==> (#[trigger] words[i])[0] < 0x80,
    ensures
        with_tokens(h0, words, 1) == Ok::<Y4mHeader, Y4mFault>(h6),
        tags_ascii(h0, words, 1),
{
    assert(with_tokens(h6, words, 7) == Ok::<Y4mHeader, Y4mFault>(h6));
    assert(with_tokens(h3, words, 6) == with_tokens(h6, words, 7));
    assert(with_tokens(h3, words, 5) == with_tokens(h3, words, 6));
    assert(with_tokens(h3, words, 4) == with_tokens(h3, words, 5));
    assert(with_tokens(h2, words, 3) == with_tokens(h3, words, 4));
    assert(with_tokens(h1, words, 2) == with_tokens(h2, words, 3));
    assert(with_tokens(h0, words, 1) == with_tokens(h1, words, 2));
    assert(tags_ascii(h6, words, 7));
    assert(tags_ascii(h3, words, 6));
    assert(tags_ascii(h3, words, 5));
    assert(tags_ascii(h3, words, 4));
    assert(tags_ascii(h2, words, 3));
    assert(tags_ascii(h1, words, 2));
}

/// The words of a header are read back.
#[verifier::spinoff_prover]
proof fn lemma_header_words(w: usize, h: usize, fps: (u32, u32), par: (u32, u32))
    ensures
        ({
            let words = header_words(
                w as nat,
                h as nat,
                (fps.0 as nat, fps.1 as nat),
                (par.0 as nat, par.1 as nat),
            );
            &&& forall|i: int| 0 <= i < words.len() ==> plain(#[trigger] words[i])
            &&& with_tokens(default_header(), words, 1) == Ok::<Y4mHeader, Y4mFault>(
                Y4mHeader {
                    width: w,
                    height: h,
                    fps_num: fps.0,
                    fps_den: fps.1,
                    sub: Subsampling::C444,
                },
            )
            &&& tags_ascii(default_header(), words, 1)
        }),
{
    let words = header_words(
        w as nat,
        h as nat,
        (fps.0 as nat, fps.1 as nat),
        (par.0 as nat, par.1 as nat),
    );
    let h1 = Y4mHeader { width: w, ..default_header() };
    let h2 = Y4mHeader { height: h, ..h1 };
    let h3 = Y4mHeader { fps_num: fps.0, fps_den: fps.1, ..h2 };
    let h6 = Y4mHeader { sub: Subsampling::C444, ..h3 };
    lemma_size_words(default_header(), w);
    lemma_size_words(h1, h);
    lemma_ratio_words(h2, fps.0, fps.1);
    lemma_ratio_words(h3, par.0, par.1);
    lemma_444(h3);
    assert(with_token(h3, words[4]) == Ok::<Y4mHeader, Y4mFault>(h3));
    assert forall|i: int| 0 <= i < words.len() implies plain(#[trigger] words[i]) by {}
    assert forall|i: int| 1 <= i < 7 implies (#[trigger] words[i])[0] < 0x80 by {
        assert(plain(words[i]));
    }
    lemma_seven_tokens(default_header(), h1, h2, h3, h6, words);
}

/// The parameters of what a writer writes of frames of one size.
pub open spec fn written_header(w: int, h: int, fps: (u32, u32)) -> Y4mHeader {
    Y4mHeader {
        width: w as usize,
        height: h as usize,
        fps_num: fps.0,
        fps_den: fps.1,
        sub: Subsampling::C444,
    }
}

/// A reader reads the parameters that a writer wrote: the size of the first
/// frame, the frame rate, 4:4:4.
pub proof fn written_header_reads_back(fps: (u32, u32), par: (u32, u32), frames: Seq<FrameView>)
    requires
        frames.len() > 0,
        0 < frames[0].w <= usize::MAX,
        0 < frames[0].h <= usize::MAX,
    ensures
        ({
            let data = written(fps, par, frames);
            let line = data.subrange(0, line_end(data, 0));
            &&& header_readable(line)
            &&& header_of(line) == Ok::<Y4mHeader, Y4mFault>(
                written_header(frames[0].w, frames[0].h, fps),
            )
            &&& line_end(data, 0) == data.len() - frames_bytes(frames).len()
        }),
{
    let (w, h) = (frames[0].w as usize, frames[0].h as usize);
    let words = header_words(
        w as nat,
        h as nat,
        (fps.0 as nat, fps.1 as nat),
        (par.0 as nat, par.1 as nat),
    );
    let line = line_of(words);
    let data = written(fps, par, frames);
    lemma_header_words(w, h, fps, par);
    lemma_line_of_end(words, frames_bytes(frames));
    assert(data.subrange(0, line_end(data, 0)) =~= line);
    lemma_line_tokens(Seq::empty(), words);
    assert(Seq::<u8>::empty() + line =~= line);
    assert(signature().is_prefix_of(line)) by {
        assert(line == words[0].push(0x20) + line_of(words.skip(1)));
        assert(line.subrange(0, 9) =~= signature());
    }
}

/// A frame read from its own bytes.
proof fn lemma_frame_reads_back(frame: FrameView, fps: (u32, u32))
    requires
        frame.wf(),
        0 < frame.w <= usize::MAX,
        0 < frame.h <= usize::MAX,
    ensures
        ({
            let header = written_header(frame.w, frame.h, fps);
            let planes = frame.y + frame.cb + frame.cr;
            &&& planes.len() == frame_len(header)
            &&& unpacked(header, planes) == frame
        }),
{
    let header = written_header(frame.w, frame.h, fps);
    let planes = frame.y + frame.cb + frame.cr;
    let n = frame.w * frame.h;
    let got = unpacked(header, planes);
    assert(got.y =~= frame.y);
    assert forall|i: int| 0 <= i < n implies chroma_index(header, i) == i by {
        lemma_fundamental_div_mod(i, frame.w);
        assert(frame.w * (i / frame.w) == (i / frame.w) * frame.w) by (nonlinear_arith);
    }
    assert(got.cb =~= frame.cb);
    assert(got.cr =~= frame.cr);
    assert(got =~= frame);
}

/// The bytes of the frames from number `k` on start with those of frame `k`.
proof fn lemma_frames_split(frames: Seq<FrameView>, k: int)
    requires
        0 <= k < frames.len(),
    ensures
        (frames_bytes(frames.take(k)) + frame_bytes(frames[k])).is_prefix_of(frames_bytes(frames)),
        frames_bytes(frames.take(k + 1)) == frames_bytes(frames.take(k)) + frame_bytes(frames[k]),
    decreases frames.len() - k,
{
    assert(frames.take(k + 1).drop_last() =~= frames.take(k));
    assert(frames.take(k + 1).last() == frames[k]);
    let mine = frames_bytes(frames.take(k + 1));
    if k + 1 == frames.len() {
        assert(frames.take(k + 1) =~= frames);
    } else {
        lemma_frames_split(frames, k + 1);
        let more = frames_bytes(frames.take(k + 1)) + frame_bytes(frames[k + 1]);
        let all = frames_bytes(frames);
        assert(mine =~= more.subrange(0, mine.len() as int));
        assert(more == all.subrange(0, more.len() as int));
        assert(mine =~= all.subrange(0, mine.len() as int));
    }
}

/// A frame is read where its bytes stand.
proof fn lemma_frame_at(data: Seq<u8>, pos: int, frame: FrameView, fps: (u32, u32))
    requires
        frame.wf(),
        0 < frame.w <= usize::MAX,
        0 < frame.h <= usize::MAX,
        0 <= pos,
        pos + frame_bytes(frame).len() <= data.len(),
        data.subrange(pos, pos + frame_bytes(frame).len()) == frame_bytes(frame),
    ensures
        frame_at(data, pos, written_header(frame.w, frame.h, fps)) == (
            FrameRead::Frame(frame),
            pos + frame_bytes(frame).len(),
        ),
{
    let bytes = frame_bytes(frame);
    let planes = frame.y + frame.cb + frame.cr;
    lemma_frame_reads_back(frame, fps);
    let n = pos + bytes.len();
    assert(bytes =~= frame_marker().push(0x0A) + planes);
    assert forall|i: int| 0 <= i < bytes.len() implies #[trigger] data[pos + i] == bytes[i] by {
        assert(data.subrange(pos, n)[i] == bytes[i]);
    }
    assert forall|i: int| pos <= i < pos + 5 implies #[trigger] data[i] != 0x0A by {
        assert(data[pos + (i - pos)] == bytes[i - pos]);
    }
    assert(data[pos + 5] == bytes[5]);
    lemma_line_end_at(data, pos, pos + 5);
    let line = data.subrange(pos, pos + 6);
    assert(line.subrange(0, 5) =~= frame_marker()) by {
        assert forall|i: int| 0 <= i < 5 implies line.subrange(0, 5)[i] == frame_marker()[i] by {
            assert(data[pos + i] == bytes[i]);
        }
    }
    assert(data.subrange(pos + 6, n) =~= planes) by {
        assert forall|i: int| 0 <= i < planes.len() implies data[pos + 6 + i] == planes[i] by {
            assert(data[pos + (6 + i)] == bytes[6 + i]);
        }
    }
}

/// Frames in a row are read one after the other.
proof fn lemma_frames_at(head: Seq<u8>, frames: Seq<FrameView>, k: int, fps: (u32, u32))
    requires
        0 <= k <= frames.len(),
        frames.len() > 0,
        0 < frames[0].w <= usize::MAX,
        0 < frames[0].h <= usize::MAX,
        forall|i: int|
            0 <= i < frames.len() ==> (#[trigger] frames[i]).wf() && frames[i].w == frames[0].w
                && frames[i].h == frames[0].h,
    ensures
        ({
            let data = head + frames_bytes(frames);
            let header = written_header(frames[0].w, frames[0].h, fps);
            let pos = head.len() + frames_bytes(frames.take(k)).len();
            if k < frames.len() {
                frame_at(data, pos as int, header) == (
                    FrameRead::Frame(frames[k]),
                    (head.len() + frames_bytes(frames.take(k + 1)).len()) as int,
                )
            } else {
                frame_at(data, pos as int, header).0 is End
            }
        }),
{
    let all = frames_bytes(frames);
    let data = head + all;
    let pos = head.len() + frames_bytes(frames.take(k)).len();
    if k < frames.len() {
        let frame = frames[k];
        let bytes = frame_bytes(frame);
        let before = frames_bytes(frames.take(k));
        lemma_frames_split(frames, k);
        assert(frame.wf());
        let both = before + bytes;
        assert(both == all.subrange(0, both.len() as int));
        assert(data.subrange(pos as int, (pos + bytes.len()) as int) =~= bytes) by {
            assert forall|i: int| 0 <= i < bytes.len() implies data[pos + i] == bytes[i] by {
                assert(data[pos + i] == all[before.len() + i]);
                assert(all[before.len() + i] == both[before.len() + i]);
            }
        }
        lemma_frame_at(data, pos as int, frame, fps);
    } else {
        assert(frames.take(k) =~= frames);
    }
}

/// A reader reads the frames that a writer wrote: the frame behind the header
/// and the first `k` frames is frame `k`, and behind the last frame the stream
/// ends. The frames are of one size, which the header can name.
pub proof fn written_frames_read_back(
    fps: (u32, u32),
    par: (u32, u32),
    frames: Seq<FrameView>,
    k: int,
)
    requires
        0 <= k <= frames.len(),
        frames.len() > 0,
        0 < frames[0].w <= usize::MAX,
        0 < frames[0].h <= usize::MAX,
        forall|i: int|
            0 <= i < frames.len() ==> (#[trigger] frames[i]).wf() && frames[i].w == frames[0].w
                && frames[i].h == frames[0].h,
    ensures
        ({
            let data = written(fps, par, frames);
            let header = written_header(frames[0].w, frames[0].h, fps);
            let pos = line_end(data, 0) + frames_bytes(frames.take(k)).len();
            if k < frames.len() {
                frame_at(data, pos, header) == (
                    FrameRead::Frame(frames[k]),
                    line_end(data, 0) + frames_bytes(frames.take(k + 1)).len(),
                )
            } else {
                frame_at(data, pos, header).0 is End
            }
        }),
{
    let data = written(fps, par, frames);
    let n = line_end(data, 0);
    written_header_reads_back(fps, par, frames);
    let head = data.take(n);
    assert(head + frames_bytes(frames) == data) by {
        lemma_written_split(fps, par, frames);
    }
    lemma_frames_at(head, frames, k, fps);
}

/// What is written is a head and the frames.
proof fn lemma_written_split(fps: (u32, u32), par: (u32, u32), frames: Seq<FrameView>)
    requires
        frames.len() > 0,
    ensures
        ({
            let data = written(fps, par, frames);
            let n = data.len() - frames_bytes(frames).len();
            &&& 0 <= n
            &&& data.take(n) + frames_bytes(frames) == data
        }),
{
    let data = written(fps, par, frames);
    let n = data.len() - frames_bytes(frames).len();
    assert(data.take(n) + frames_bytes(frames) =~= data);
}

} // verus!
