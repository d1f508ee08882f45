//! What a Y4M stream says and holds.

use vstd::prelude::*;
use crate::text;
use crate::y4m;
use crate::y4m::{FrameRead, FrameView, Subsampling, Y4mFault, Y4mHeader};

verus! {

/// White space is that of Unicode: tab to carriage return, space, and, in UTF-8, next
/// line, no-break space, ogham space, the spaces from U+2000 to U+200A, line and
/// paragraph separators, narrow no-break, mathematical and ideographic space.
pub proof fn white_space_is_that_of_unicode(s: Seq<u8>, i: int)
    requires
        0 <= i,
        i + 2 < s.len(),
    ensures
        ({
            let n = text::space_at(s, i);
            let (a, b, c) = (s[i], s[i + 1], s[i + 2]);
            &&& n == 1 <==> a == 0x20 || a == 0x09 || a == 0x0A || a == 0x0B || a == 0x0C || a
                == 0x0D
            &&& n == 2 <==> a == 0xC2 && (b == 0x85 || b == 0xA0)
            &&& n == 3 <==> {
                ||| a == 0xE1 && b == 0x9A && c == 0x80
                ||| a == 0xE2 && b == 0x80 && (0x80 <= c <= 0x8A || c == 0xA8 || c == 0xA9 || c
                    == 0xAF)
                ||| a == 0xE2 && b == 0x81 && c == 0x9F
                ||| a == 0xE3 && b == 0x80 && c == 0x80
            }
            &&& n == 0 || n == 1 || n == 2 || n == 3
        }),
{
}

/// Words of printable ASCII characters with white space between them are the tokens of a
/// line.
pub proof fn words_are_tokens(words: Seq<Seq<u8>>)
    requires
        forall|i: int| 0 <= i < words.len() ==> y4m::plain(#[trigger] words[i]),
    ensures
        text::tokens(y4m::line_of(words), 0) == words,
{
    y4m::lemma_line_tokens(Seq::empty(), words);
    assert(Seq::<u8>::empty() + y4m::line_of(words) =~= y4m::line_of(words));
}

/// Decimal digits count ten times what stands behind them less: one more digit makes a
/// number ten times the number and the digit. A plus sign may stand before the digits;
/// anything else, no digit at all, or a number beyond the limit is no number.
pub proof fn numbers_are_decimal(digits: Seq<u8>, d: u8, max: nat, v: nat)
    requires
        text::parsed(digits, max) == Some(v),
    ensures
        0x30 <= d <= 0x39 && 10 * v + (d - 0x30) <= max ==> text::parsed(digits.push(d), max)
            == Some((10 * v + (d - 0x30)) as nat),
        0x30 <= d <= 0x39 && 10 * v + (d - 0x30) > max ==> text::parsed(digits.push(d), max)
            is None,
        !(0x30 <= d <= 0x39) ==> text::parsed(digits.push(d), max) is None,
        digits[0] != 0x2B ==> text::parsed(seq![0x2Bu8] + digits, max) == Some(v),
        v <= max,
{
    let plus = digits[0] == 0x2B;
    let inner = if plus {
        digits.skip(1)
    } else {
        digits
    };
    let more = digits.push(d);
    let inner2 = if plus {
        more.skip(1)
    } else {
        more
    };
    assert(more[0] == digits[0]);
    assert(inner2 =~= inner.push(d));
    assert(inner2.drop_last() =~= inner);
    assert(inner2[inner2.len() - 1] == d);
    if 0x30 <= d <= 0x39 {
        assert(text::all_digits(inner2)) by {
            assert forall|i: int| 0 <= i < inner2.len() implies 0x30 <= #[trigger] inner2[i]
                <= 0x39 by {
                if i < inner.len() {
                    assert(inner2[i] == inner[i]);
                }
            }
        }
    }
    if !plus {
        let signed = seq![0x2Bu8] + digits;
        assert(signed.skip(1) =~= digits);
    }
}

/// One digit is its own number; no text, or a sign alone, is none.
pub proof fn digits_are_numbers(d: u8, max: nat)
    ensures
        0x30 <= d <= 0x39 && d - 0x30 <= max ==> text::parsed(seq![d], max) == Some(
            (d - 0x30) as nat,
        ),
        !(0x30 <= d <= 0x39) ==> text::parsed(seq![d], max) is None,
        text::parsed(Seq::empty(), max) is None,
{
    let one = seq![d];
    assert(one.drop_last() =~= Seq::<u8>::empty());
    assert(text::digits_value(one.drop_last()) == 0);
    assert(one[0] == d);
    if d == 0x2B {
        assert(one.skip(1).len() == 0);
    }
}

/// A number is written with its most significant digit first: the last digit is its
/// remainder by ten.
pub proof fn numbers_are_written_in_decimal(n: nat)
    ensures
        n < 10 ==> text::decimal(n) == seq![(0x30 + n) as u8],
        n >= 10 ==> text::decimal(n) == text::decimal(n / 10).push((0x30 + n % 10) as u8),
{
}

/// The parameters of a header, token by token: W and a number set the width, H and a
/// number the height, F and a ratio the frame rate, C and 420, 422, 444 or mono (with
/// anything behind) the subsampling; other tags say nothing. The last of a kind counts.
pub proof fn tokens_set_parameters(header: Y4mHeader, tag: u8, val: Seq<u8>)
    ensures
        ({
            let got = y4m::with_token(header, seq![tag] + val);
            let number = text::parsed(val, usize::MAX as nat);
            &&& tag == 0x57 ==> match number {
                Some(n) => got == Ok::<Y4mHeader, Y4mFault>(
                    Y4mHeader { width: n as usize, ..header },
                ),
                None => got == Err::<Y4mHeader, Y4mFault>(Y4mFault::Width),
            }
            &&& tag == 0x48 ==> match number {
                Some(n) => got == Ok::<Y4mHeader, Y4mFault>(
                    Y4mHeader { height: n as usize, ..header },
                ),
                None => got == Err::<Y4mHeader, Y4mFault>(Y4mFault::Height),
            }
            &&& tag == 0x43 ==> {
                let starts = |a: u8, b: u8, c: u8|
                    val.len() >= 3 && val[0] == a && val[1] == b && val[2] == c;
                &&& starts(0x34, 0x32, 0x30) ==> got == Ok::<Y4mHeader, Y4mFault>(
                    Y4mHeader { sub: Subsampling::C420, ..header },
                )
                &&& starts(0x34, 0x32, 0x32) ==> got == Ok::<Y4mHeader, Y4mFault>(
                    Y4mHeader { sub: Subsampling::C422, ..header },
                )
                &&& starts(0x34, 0x34, 0x34) ==> got == Ok::<Y4mHeader, Y4mFault>(
                    Y4mHeader { sub: Subsampling::C444, ..header },
                )
                &&& starts(0x6D, 0x6F, 0x6E) && val.len() >= 4 && val[3] == 0x6F ==> got == Ok::<
                    Y4mHeader,
                    Y4mFault,
                >(Y4mHeader { sub: Subsampling::Mono, ..header })
                &&& !starts(0x34, 0x32, 0x30) && !starts(0x34, 0x32, 0x32) && !starts(
                    0x34,
                    0x34,
                    0x34,
                ) && !(starts(0x6D, 0x6F, 0x6E) && val.len() >= 4 && val[3] == 0x6F) ==> got
                    == Err::<Y4mHeader, Y4mFault>(Y4mFault::UnsupportedSubsampling(val))
            }
            &&& tag != 0x57 && tag != 0x48 && tag != 0x46 && tag != 0x43 ==> got == Ok::<
                Y4mHeader,
                Y4mFault,
            >(header)
        }),
{
    let token = seq![tag] + val;
    assert(token[0] == tag);
    assert(token.skip(1) =~= val);
    lemma_starts(val, 0x34, 0x32, 0x30);
    lemma_starts(val, 0x34, 0x32, 0x32);
    lemma_starts(val, 0x34, 0x34, 0x34);
    let mono = seq![0x6Du8, 0x6Fu8, 0x6Eu8, 0x6Fu8];
    if val.len() >= 4 {
        let head = val.subrange(0, 4);
        assert(head[0] == val[0] && head[1] == val[1] && head[2] == val[2] && head[3] == val[3]);
        assert(mono[0] == 0x6D && mono[1] == 0x6F && mono[2] == 0x6E && mono[3] == 0x6F);
        if val[0] == 0x6D && val[1] == 0x6F && val[2] == 0x6E && val[3] == 0x6F {
            assert(head =~= mono);
        }
    }
}

proof fn lemma_starts(val: Seq<u8>, a: u8, b: u8, c: u8)
    ensures
        seq![a, b, c].is_prefix_of(val) <==> val.len() >= 3 && val[0] == a && val[1] == b && val[2]
            == c,
{
    let three = seq![a, b, c];
    if val.len() >= 3 {
        let head = val.subrange(0, 3);
        assert(head[0] == val[0] && head[1] == val[1] && head[2] == val[2]);
        assert(three[0] == a && three[1] == b && three[2] == c);
        if val[0] == a && val[1] == b && val[2] == c {
            assert(head =~= three);
        }
    }
}

/// A frame rate is two numbers with a colon between them: numerator, then denominator.
pub proof fn frame_rate_is_a_ratio(header: Y4mHeader, num: Seq<u8>, den: Seq<u8>)
    requires
        forall|i: int| 0 <= i < num.len() ==> #[trigger] num[i] != 0x3A,
    ensures
        ({
            let got = y4m::with_token(header, seq![0x46u8] + num.push(0x3A) + den);
            match (text::parsed(num, u32::MAX as nat), text::parsed(den, u32::MAX as nat)) {
                (Some(n), Some(d)) => got == Ok::<Y4mHeader, Y4mFault>(
                    Y4mHeader { fps_num: n as u32, fps_den: d as u32, ..header },
                ),
                _ => got == Err::<Y4mHeader, Y4mFault>(Y4mFault::FrameRateValue),
            }
        }),
        y4m::with_token(header, seq![0x46u8] + num) == Err::<Y4mHeader, Y4mFault>(
            Y4mFault::FrameRate,
        ),
{
    let val = num.push(0x3A) + den;
    let token = seq![0x46u8] + num.push(0x3A) + den;
    assert(token[0] == 0x46);
    assert(token.skip(1) =~= val);
    let n = num.len() as int;
    assert forall|k: int| 0 <= k < n implies #[trigger] val[k] != 0x3A by {
        assert(val[k] == num[k]);
    }
    assert(val[n] == 0x3A);
    y4m::lemma_colon(val, 0, n);
    assert(val.take(n) =~= num);
    assert(val.skip(n + 1) =~= den);
    let bare = seq![0x46u8] + num;
    assert(bare[0] == 0x46);
    assert(bare.skip(1) =~= num);
    lemma_no_colon(num, 0);
}

proof fn lemma_no_colon(s: Seq<u8>, i: int)
    requires
        0 <= i <= s.len(),
        forall|k: int| i <= k < s.len() ==> #[trigger] s[k] != 0x3A,
    ensures
        y4m::colon(s, i) is None,
    decreases s.len() - i,
{
    if i < s.len() {
        assert(s[i] != 0x3A);
        lemma_no_colon(s, i + 1);
    }
}

/// Without parameters a stream has 25 frames a second, 4:2:0, and no size, which is an
/// error; so is a size of zero.
pub proof fn size_is_required(line: Seq<u8>)
    ensures
        y4m::default_header().fps_num == 25 && y4m::default_header().fps_den == 1,
        y4m::default_header().sub == Subsampling::C420,
        y4m::header_of(line) matches Ok(h) ==> h.width > 0 && h.height > 0,
        y4m::header_of(line) is Ok ==> line.len() >= 9 && line[0] == 0x59 && line[8] == 0x32,
{
    if y4m::signature().is_prefix_of(line) {
        let head = line.subrange(0, 9);
        assert(head[0] == line[0] && head[8] == line[8]);
        assert(y4m::signature()[0] == 0x59 && y4m::signature()[8] == 0x32);
    }
}

/// A frame of planes: its luminance sample by sample, then its two chrominance planes.
/// In 4:2:0 two by two elements share a chrominance sample, in 4:2:2 two elements of a
/// row, in 4:4:4 each has its own; without chrominance it is neutral. A plane of half
/// width has one column more for an odd width, and so for rows.
pub proof fn planes_are_unpacked(header: Y4mHeader, bytes: Seq<u8>, x: int, y: int)
    requires
        0 <= x < header.width,
        0 <= y < header.height,
        bytes.len() == y4m::frame_len(header),
    ensures
        ({
            let (w, h) = (header.width as int, header.height as int);
            let frame = y4m::unpacked(header, bytes);
            let at = y * w + x;
            let n = w * h;
            let (hw, hh) = ((w + 1) / 2, (h + 1) / 2);
            &&& frame.w == w && frame.h == h
            &&& frame.y.len() == n && frame.cb.len() == n && frame.cr.len() == n
            &&& frame.y[at] == bytes[at]
            &&& header.sub is C420 ==> {
                &&& bytes.len() == n + 2 * (hw * hh)
                &&& frame.cb[at] == bytes[n + (y / 2) * hw + x / 2]
                &&& frame.cr[at] == bytes[n + hw * hh + (y / 2) * hw + x / 2]
            }
            &&& header.sub is C422 ==> {
                &&& bytes.len() == n + 2 * (hw * h)
                &&& frame.cb[at] == bytes[n + y * hw + x / 2]
                &&& frame.cr[at] == bytes[n + hw * h + y * hw + x / 2]
            }
            &&& header.sub is C444 ==> {
                &&& bytes.len() == 3 * n
                &&& frame.cb[at] == bytes[n + at]
                &&& frame.cr[at] == bytes[2 * n + at]
            }
            &&& header.sub is Mono ==> {
                &&& bytes.len() == n
                &&& frame.cb[at] == 128 && frame.cr[at] == 128
            }
        }),
{
    let (w, h) = (header.width as int, header.height as int);
    let at = y * w + x;
    assert(0 <= at < w * h) by (nonlinear_arith)
        requires
            0 <= x < w,
            0 <= y < h,
            at == y * w + x,
    ;
    vstd::arithmetic::div_mod::lemma_fundamental_div_mod_converse(at, w, y, x);
    let (cw, ch) = y4m::chroma_size(w, h, header.sub);
    assert(0 <= cw * ch) by (nonlinear_arith)
        requires
            0 <= cw,
            0 <= ch,
    ;
    assert(0 * 0 == 0);
}

/// A frame is written as FRAME, a line feed, and its planes: luminance, blue and red
/// difference.
pub proof fn frames_are_written(frame: FrameView, i: int)
    requires
        frame.wf(),
        0 <= i < frame.w * frame.h,
    ensures
        ({
            let bytes = y4m::frame_bytes(frame);
            let n = frame.w * frame.h;
            &&& bytes.len() == 6 + 3 * n
            &&& bytes[0] == 0x46 && bytes[1] == 0x52 && bytes[2] == 0x41 && bytes[3] == 0x4D
                && bytes[4] == 0x45 && bytes[5] == 0x0A
            &&& bytes[6 + i] == frame.y[i]
            &&& bytes[6 + n + i] == frame.cb[i]
            &&& bytes[6 + 2 * n + i] == frame.cr[i]
        }),
{
}

/// A frame behind a line that does not start with FRAME is an error, and so is one that
/// the stream cuts off; the stream ends where nothing stands.
pub proof fn frames_are_marked(data: Seq<u8>, pos: int, header: Y4mHeader, feed: int)
    requires
        0 <= pos <= feed < data.len(),
        data[feed] == 0x0A,
        forall|k: int| pos <= k < feed ==> #[trigger] data[k] != 0x0A,
    ensures
        ({
            let (got, next) = y4m::frame_at(data, pos, header);
            let marked = feed - pos >= 5 && data[pos] == 0x46 && data[pos + 1] == 0x52 && data[pos
                + 2] == 0x41 && data[pos + 3] == 0x4D && data[pos + 4] == 0x45;
            let end = feed + 1 + y4m::frame_len(header);
            &&& !marked ==> got == FrameRead::Fail(Y4mFault::FrameMarker) && next == feed + 1
            &&& marked && end > data.len() ==> got == FrameRead::Fail(Y4mFault::Planes)
            &&& marked && end <= data.len() ==> got == FrameRead::Frame(
                y4m::unpacked(header, data.subrange(feed + 1, end)),
            ) && next == end
        }),
        y4m::frame_at(data, data.len() as int, header).0 is End,
{
    y4m::lemma_line_end_at(data, pos, feed);
    let line = data.subrange(pos, feed + 1);
    let m = y4m::frame_marker();
    assert(m[0] == 0x46 && m[1] == 0x52 && m[2] == 0x41 && m[3] == 0x4D && m[4] == 0x45);
    if line.len() >= 5 {
        let head = line.subrange(0, 5);
        assert(head[0] == data[pos] && head[1] == data[pos + 1] && head[2] == data[pos + 2]
            && head[3] == data[pos + 3] && head[4] == data[pos + 4]);
        if feed - pos >= 5 && data[pos] == 0x46 && data[pos + 1] == 0x52 && data[pos + 2] == 0x41
            && data[pos + 3] == 0x4D && data[pos + 4] == 0x45 {
            assert(head =~= m);
        }
        if feed - pos == 4 {
            assert(head[4] == 0x0A);
        }
    }
}

/// A new frame is black: luminance 16, chrominance 128.
pub proof fn new_frames_are_black(w: int, h: int, i: int)
    requires
        0 <= w,
        0 <= h,
        0 <= i < w * h,
    ensures
        ({
            let frame = y4m::black_frame(w, h);
            &&& frame.wf() && frame.w == w && frame.h == h
            &&& frame.y[i] == 16 && frame.cb[i] == 128 && frame.cr[i] == 128
        }),
{
}

/// A header is read token by token behind the first, up to the first error, from 25
/// frames a second and 4:2:0; a tag that is no ASCII character cannot be told from its
/// value.
pub proof fn header_is_read_token_by_token(
    header: Y4mHeader,
    tokens: Seq<Seq<u8>>,
    i: int,
    line: Seq<u8>,
)
    requires
        0 <= i < tokens.len(),
    ensures
        match y4m::with_token(header, tokens[i]) {
            Ok(next) => {
                &&& y4m::with_tokens(header, tokens, i) == y4m::with_tokens(next, tokens, i + 1)
                &&& y4m::tags_ascii(header, tokens, i) == (tokens[i][0] < 0x80 && y4m::tags_ascii(
                    next,
                    tokens,
                    i + 1,
                ))
            },
            Err(e) => {
                &&& y4m::with_tokens(header, tokens, i) == Err::<Y4mHeader, Y4mFault>(e)
                &&& y4m::tags_ascii(header, tokens, i) == (tokens[i][0] < 0x80)
            },
        },
        y4m::with_tokens(header, tokens, tokens.len() as int) == Ok::<Y4mHeader, Y4mFault>(header),
        y4m::tags_ascii(header, tokens, tokens.len() as int),
        ({
            let start = Y4mHeader {
                width: 0,
                height: 0,
                fps_num: 25,
                fps_den: 1,
                sub: Subsampling::C420,
            };
            let all = text::tokens(line, 0);
            let named = y4m::with_tokens(start, all, 1);
            let marked = line.len() >= 9 && line[0] == 0x59 && line[1] == 0x55 && line[2] == 0x56
                && line[3] == 0x34 && line[4] == 0x4D && line[5] == 0x50 && line[6] == 0x45
                && line[7] == 0x47 && line[8] == 0x32;
            &&& !marked ==> y4m::header_of(line) == Err::<Y4mHeader, Y4mFault>(Y4mFault::NotY4m)
            &&& !marked ==> y4m::header_readable(line)
            &&& marked ==> y4m::header_readable(line) == y4m::tags_ascii(start, all, 1)
            &&& marked ==> match named {
                Err(e) => y4m::header_of(line) == Err::<Y4mHeader, Y4mFault>(e),
                Ok(h) => if h.width == 0 || h.height == 0 {
                    y4m::header_of(line) == Err::<Y4mHeader, Y4mFault>(
                        Y4mFault::MissingDimensions,
                    )
                } else {
                    y4m::header_of(line) == Ok::<Y4mHeader, Y4mFault>(h)
                },
            }
        }),
{
    let m = y4m::signature();
    assert(m[0] == 0x59 && m[1] == 0x55 && m[2] == 0x56 && m[3] == 0x34 && m[4] == 0x4D && m[5]
        == 0x50 && m[6] == 0x45 && m[7] == 0x47 && m[8] == 0x32);
    if line.len() >= 9 {
        let head = line.subrange(0, 9);
        assert(head[0] == line[0] && head[1] == line[1] && head[2] == line[2] && head[3] == line[3]
            && head[4] == line[4] && head[5] == line[5] && head[6] == line[6] && head[7] == line[7]
            && head[8] == line[8]);
        if line[0] == 0x59 && line[1] == 0x55 && line[2] == 0x56 && line[3] == 0x34 && line[4]
            == 0x4D && line[5] == 0x50 && line[6] == 0x45 && line[7] == 0x47 && line[8] == 0x32 {
            assert(head =~= m);
        }
    }
}

/// A header is written as YUV4MPEG2, W and the width, H and the height, F and the frame
/// rate, Ip, A and the pixel aspect ratio, C444, with a space between two words and a
/// line feed behind the last.
pub proof fn header_is_written(w: nat, h: nat, fps: (nat, nat), par: (nat, nat))
    ensures
        ({
            let words = y4m::header_words(w, h, fps, par);
            let space = 0x20u8;
            &&& words.len() == 7
            &&& words[0] == seq![
                0x59u8,
                0x55u8,
                0x56u8,
                0x34u8,
                0x4Du8,
                0x50u8,
                0x45u8,
                0x47u8,
                0x32u8,
            ]
            &&& words[1] == seq![0x57u8] + text::decimal(w)
            &&& words[2] == seq![0x48u8] + text::decimal(h)
            &&& words[3] == seq![0x46u8] + (text::decimal(fps.0).push(0x3A) + text::decimal(fps.1))
            &&& words[4] == seq![0x49u8, 0x70u8]
            &&& words[5] == seq![0x41u8] + (text::decimal(par.0).push(0x3A) + text::decimal(par.1))
            &&& words[6] == seq![0x43u8, 0x34u8, 0x34u8, 0x34u8]
            &&& y4m::line_of(words) == words[0].push(space) + (words[1].push(space) + (
            words[2].push(space) + (words[3].push(space) + (words[4].push(space) + (words[5].push(
                space,
            ) + words[6].push(0x0A))))))
        }),
{
    y4m::lemma_line_of_seven(y4m::header_words(w, h, fps, par));
}

} // verus!
