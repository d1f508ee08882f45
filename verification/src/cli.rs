//! The rules of the command line.

use vstd::prelude::*;
use crate::text;
use crate::text::space_len;

verus! {

/// The bitrates that the channel allows, in bit/s.
pub const MIN_BITRATE: u64 = 100_000;
pub const MAX_BITRATE: u64 = 2_048_000;

/// A bitrate outside the channel's range.
#[derive(Clone, Copy, Debug, PartialEq, Eq, Structural)]
pub struct BitrateOutOfRange;

/// The first position from `i` on at which no white space stands.
pub open spec fn text_start(s: Seq<u8>, i: int) -> int
    decreases s.len() - i,
{
    if i < s.len() && text::space_at(s, i) > 0 {
        text_start(s, i + text::space_at(s, i))
    } else {
        i
    }
}

/// The end of the last token from `i` on, `end` if there is none.
pub open spec fn text_end(s: Seq<u8>, i: int, end: int) -> int
    decreases s.len() - i,
    via text_end_decreases
{
    if i >= s.len() {
        end
    } else if text::space_at(s, i) > 0 {
        text_end(s, i + text::space_at(s, i), end)
    } else {
        text_end(s, text::token_end(s, i), text::token_end(s, i))
    }
}

#[via_fn]
proof fn text_end_decreases(s: Seq<u8>, i: int, end: int) {
    if i < s.len() && text::space_at(s, i) <= 0 {
        text::lemma_token_end(s, i + 1);
    }
}

/// The text without the white space around it.
pub open spec fn trimmed(s: Seq<u8>) -> (int, int) {
    let start = text_start(s, 0);
    (start, text_end(s, start, start))
}

/// What the last character of a bitrate multiplies it by: a thousand (k), a
/// million (M), or one.
pub open spec fn multiplier(text: Seq<u8>) -> nat {
    if text.len() == 0 {
        1
    } else if text.last() == 0x6B || text.last() == 0x4B {
        1_000
    } else if text.last() == 0x6D || text.last() == 0x4D {
        1_000_000
    } else {
        1
    }
}

/// Splits a bitrate into the bounds of its number and its multiplier: white
/// space around it and a k or M suffix are taken off.
pub fn split_bitrate(s: &[u8]) -> (split: (usize, usize, u64))
    ensures
        ({
            let (start, end) = trimmed(s@);
            let m = multiplier(s@.subrange(start, end));
            &&& 0 <= start <= end <= s@.len()
            &&& split.0 == start
            &&& split.2 == m
            &&& split.1 == if m == 1 {
                end
            } else {
                end - 1
            }
        }),
{
    let mut start: usize = 0;
    while start < s.len() && space_len(s, start) > 0
        invariant
            start <= s@.len(),
            text_start(s@, start as int) == text_start(s@, 0),
        decreases s@.len() - start,
    {
        start += space_len(s, start);
    }
    let mut pos: usize = start;
    let mut end: usize = start;
    while pos < s.len()
        invariant
            start <= end <= pos <= s@.len(),
            text_end(s@, pos as int, end as int) == text_end(s@, start as int, start as int),
        decreases s@.len() - pos,
    {
        let n = space_len(s, pos);
        if n > 0 {
            pos += n;
        } else {
            let ghost first = pos;
            pos += 1;
            while pos < s.len() && space_len(s, pos) == 0
                invariant
                    first < pos <= s@.len(),
                    text::token_end(s@, pos as int) == text::token_end(s@, first as int),
                decreases s@.len() - pos,
            {
                pos += 1;
            }
            end = pos;
        }
    }
    let mult: u64 = if end == start {
        1
    } else if s[end - 1] == 0x6B || s[end - 1] == 0x4B {
        1_000
    } else if s[end - 1] == 0x6D || s[end - 1] == 0x4D {
        1_000_000
    } else {
        1
    };
    assert(end > start ==> s@.subrange(start as int, end as int).last() == s@[end - 1]);
    (start, if mult == 1 { end } else { end - 1 }, mult)
}

/// Accepts a bitrate between 100k and 2048k.
pub fn accept_bitrate(bps: u64) -> (out: Result<u64, BitrateOutOfRange>)
    ensures
        out == (if MIN_BITRATE <= bps <= MAX_BITRATE {
            Ok::<u64, BitrateOutOfRange>(bps)
        } else {
            Err(BitrateOutOfRange)
        }),
        out is Ok <==> 100_000 <= bps <= 2_048_000,
{
    if MIN_BITRATE <= bps && bps <= MAX_BITRATE {
        Ok(bps)
    } else {
        Err(BitrateOutOfRange)
    }
}

/// Whether as many frames were coded as were asked for.
pub fn limit_reached(frames: u64, limit: Option<u64>) -> (yes: bool)
    ensures
        yes == (limit matches Some(n) && frames >= n),
{
    match limit {
        Some(n) => frames >= n,
        None => false,
    }
}

/// Whether the input has the 25 frames per second of the codec.
pub fn at_codec_rate(fps_num: u32, fps_den: u32) -> (yes: bool)
    ensures
        yes == (fps_num == 25 && fps_den == 1),
{
    fps_num == 25 && fps_den == 1
}

/// A bitrate that ends in k or K counts thousands, one that ends in m or M millions, any
/// other one bits.
pub proof fn suffix_multiplies(text: Seq<u8>, last: u8)
    ensures
        multiplier(Seq::empty()) == 1,
        last == 0x6B || last == 0x4B ==> multiplier(text.push(last)) == 1_000,
        last == 0x6D || last == 0x4D ==> multiplier(text.push(last)) == 1_000_000,
        last != 0x6B && last != 0x4B && last != 0x6D && last != 0x4D ==> multiplier(text.push(last))
            == 1,
{
    assert(text.push(last).last() == last);
}

/// White space on both sides is taken off: of `before` spaces, a word of printable ASCII
/// characters and spaces behind it, the bounds of the word are left.
pub proof fn white_space_is_taken_off(s: Seq<u8>, before: int, len: int)
    requires
        0 <= before,
        0 < len,
        before + len <= s.len(),
        forall|i: int| 0 <= i < before ==> #[trigger] s[i] == 0x20,
        forall|i: int| before <= i < before + len ==> 0x21 <= #[trigger] s[i] <= 0x7E,
        forall|i: int| before + len <= i < s.len() ==> #[trigger] s[i] == 0x20,
    ensures
        trimmed(s) == (before, before + len),
{
    lemma_spaces_skipped(s, 0, before);
    lemma_word_ends(s, before, before + len);
    lemma_spaces_behind(s, before + len, before + len);
    assert(s[before] >= 0x21);
}

proof fn lemma_spaces_skipped(s: Seq<u8>, i: int, n: int)
    requires
        0 <= i <= n < s.len(),
        forall|k: int| i <= k < n ==> #[trigger] s[k] == 0x20,
        0x21 <= s[n] <= 0x7E,
    ensures
        text_start(s, i) == n,
    decreases n - i,
{
    if i < n {
        assert(s[i] == 0x20);
        lemma_spaces_skipped(s, i + 1, n);
    }
}

proof fn lemma_word_ends(s: Seq<u8>, i: int, n: int)
    requires
        0 <= i <= n <= s.len(),
        forall|k: int| i <= k < n ==> 0x21 <= #[trigger] s[k] <= 0x7E,
        n < s.len() ==> s[n] == 0x20,
    ensures
        text::token_end(s, i) == n,
    decreases n - i,
{
    if i < n {
        assert(0x21 <= s[i] <= 0x7E);
        lemma_word_ends(s, i + 1, n);
    }
}

proof fn lemma_spaces_behind(s: Seq<u8>, i: int, end: int)
    requires
        0 <= i <= s.len(),
        forall|k: int| i <= k < s.len() ==> #[trigger] s[k] == 0x20,
    ensures
        text_end(s, i, end) == end,
    decreases s.len() - i,
{
    if i < s.len() {
        assert(s[i] == 0x20);
        lemma_spaces_behind(s, i + 1, end);
    }
}

} // verus!
