//! Text in bytes: white space, tokens, decimal numbers.

use vstd::prelude::*;
use vstd::slice::*;

verus! {

/// The length of the white space character (of Unicode, in UTF-8) that stands
/// at `i`, zero if there is none.
pub open spec fn space_at(s: Seq<u8>, i: int) -> int {
    if i < 0 || i >= s.len() {
        0
    } else if s[i] == 0x20 || 0x09 <= s[i] <= 0x0D {
        1
    } else if i + 1 < s.len() && s[i] == 0xC2 && (s[i + 1] == 0x85 || s[i + 1] == 0xA0) {
        2
    } else if i + 2 < s.len() && wide_space(s[i], s[i + 1], s[i + 2]) {
        3
    } else {
        0
    }
}

/// The white space characters of three bytes.
pub open spec fn wide_space(a: u8, b: u8, c: u8) -> bool {
    ||| a == 0xE1 && b == 0x9A && c == 0x80
    ||| a == 0xE2 && b == 0x80 && (0x80 <= c <= 0x8A || c == 0xA8 || c == 0xA9 || c == 0xAF)
    ||| a == 0xE2 && b == 0x81 && c == 0x9F
    ||| a == 0xE3 && b == 0x80 && c == 0x80
}

/// The end of the token that starts at `i`: the next white space, or the end
/// of the text.
pub open spec fn token_end(s: Seq<u8>, i: int) -> int
    decreases s.len() - i,
{
    if i >= s.len() || space_at(s, i) > 0 {
        i
    } else {
        token_end(s, i + 1)
    }
}

/// The tokens of a text from `i` on: what stands between white space.
pub open spec fn tokens(s: Seq<u8>, i: int) -> Seq<Seq<u8>>
    decreases s.len() - i,
    via tokens_decreases
{
    if i >= s.len() {
        Seq::empty()
    } else if space_at(s, i) > 0 {
        tokens(s, i + space_at(s, i))
    } else {
        seq![s.subrange(i, token_end(s, i))] + tokens(s, token_end(s, i))
    }
}

#[via_fn]
proof fn tokens_decreases(s: Seq<u8>, i: int) {
    if i < s.len() && space_at(s, i) <= 0 {
        lemma_token_end(s, i + 1);
    }
}

/// A token ends within the text.
pub proof fn lemma_token_end(s: Seq<u8>, i: int)
    requires
        i <= s.len(),
    ensures
        i <= token_end(s, i) <= s.len(),
    decreases s.len() - i,
{
    if i < s.len() && space_at(s, i) <= 0 {
        lemma_token_end(s, i + 1);
    }
}

/// The length of the white space character at `i`, zero if there is none.
pub(crate) fn space_len(s: &[u8], i: usize) -> (n: usize)
    requires
        i < s@.len(),
    ensures
        n == space_at(s@, i as int),
        i + n <= s@.len(),
{
    let a = s[i];
    let left = s.len() - i;
    if a == 0x20 || (0x09 <= a && a <= 0x0D) {
        1
    } else if left >= 2 && a == 0xC2 && (s[i + 1] == 0x85 || s[i + 1] == 0xA0) {
        2
    } else if left >= 3 {
        let (b, c) = (s[i + 1], s[i + 2]);
        if (a == 0xE1 && b == 0x9A && c == 0x80) || (a == 0xE2 && b == 0x80 && ((0x80 <= c && c
            <= 0x8A) || c == 0xA8 || c == 0xA9 || c == 0xAF)) || (a == 0xE2 && b == 0x81 && c
            == 0x9F) || (a == 0xE3 && b == 0x80 && c == 0x80) {
            3
        } else {
            0
        }
    } else {
        0
    }
}

/// The next token from `i` on, as its bounds.
pub(crate) fn next_token(s: &[u8], i: usize) -> (token: Option<(usize, usize)>)
    requires
        i <= s@.len(),
    ensures
        match token {
            None => tokens(s@, i as int) == Seq::<Seq<u8>>::empty(),
            Some((a, b)) => {
                &&& i <= a < b <= s@.len()
                &&& tokens(s@, i as int) == seq![s@.subrange(a as int, b as int)] + tokens(
                    s@,
                    b as int,
                )
            },
        },
{
    let mut a: usize = i;
    while a < s.len() && space_len(s, a) > 0
        invariant
            i <= a <= s@.len(),
            tokens(s@, a as int) == tokens(s@, i as int),
        decreases s@.len() - a,
    {
        a += space_len(s, a);
    }
    if a >= s.len() {
        return None;
    }
    let mut b: usize = a + 1;
    while b < s.len() && space_len(s, b) == 0
        invariant
            a < b <= s@.len(),
            token_end(s@, b as int) == token_end(s@, a as int),
        decreases s@.len() - b,
    {
        b += 1;
    }
    Some((a, b))
}

/// Every byte is a decimal digit.
pub open spec fn all_digits(s: Seq<u8>) -> bool {
    forall|i: int| 0 <= i < s.len() ==> 0x30 <= #[trigger] s[i] <= 0x39
}

/// The number that decimal digits denote.
pub open spec fn digits_value(s: Seq<u8>) -> nat
    decreases s.len(),
{
    if s.len() == 0 {
        0
    } else {
        10 * digits_value(s.drop_last()) + (s.last() - 0x30) as nat
    }
}

/// The number of at most `max` that a text denotes: decimal digits, possibly
/// behind a plus sign.
pub open spec fn parsed(s: Seq<u8>, max: nat) -> Option<nat> {
    let digits = if s.len() > 0 && s[0] == 0x2B {
        s.skip(1)
    } else {
        s
    };
    if digits.len() > 0 && all_digits(digits) && digits_value(digits) <= max {
        Some(digits_value(digits))
    } else {
        None
    }
}

/// More digits denote no smaller number.
proof fn lemma_digits_grow(s: Seq<u8>, n: int)
    requires
        0 <= n <= s.len(),
        all_digits(s),
    ensures
        digits_value(s.take(n)) <= digits_value(s),
    decreases s.len() - n,
{
    if n == s.len() {
        assert(s.take(n) =~= s);
    } else {
        lemma_digits_grow(s, n + 1);
        assert(s.take(n + 1).drop_last() =~= s.take(n));
    }
}

/// Parses a number of at most `max`.
pub(crate) fn parse_number(s: &[u8], max: u64) -> (n: Option<u64>)
    ensures
        match (n, parsed(s@, max as nat)) {
            (Some(a), Some(b)) => a == b,
            (None, None) => true,
            _ => false,
        },
{
    let start: usize = if s.len() > 0 && s[0] == 0x2B {
        1
    } else {
        0
    };
    let ghost digits = s@.skip(start as int);
    assert(start == 0 ==> digits =~= s@);
    if start == s.len() {
        return None;
    }
    let mut v: u64 = 0;
    let mut i: usize = start;
    while i < s.len()
        invariant
            start <= i <= s@.len(),
            digits == s@.skip(start as int),
            parsed(s@, max as nat) == (if digits.len() > 0 && all_digits(digits) && digits_value(
                digits,
            ) <= max {
                Some(digits_value(digits))
            } else {
                None
            }),
            all_digits(digits.take(i - start)),
            v == digits_value(digits.take(i - start)),
            v <= max,
        decreases s@.len() - i,
    {
        let d = s[i];
        let ghost k = i - start;
        assert(digits[k] == d);
        if d < 0x30 || d > 0x39 {
            return None;
        }
        let x: u64 = (d - 0x30) as u64;
        proof {
            assert(digits.take(k + 1).drop_last() =~= digits.take(k));
            assert(digits.take(k + 1).last() == d);
            assert(digits_value(digits.take(k + 1)) == 10 * v + x);
            if all_digits(digits) {
                lemma_digits_grow(digits, k + 1);
            }
        }
        if x > max || v > (max - x) / 10 {
            return None;
        }
        v = 10 * v + x;
        i += 1;
        assert(all_digits(digits.take(i - start))) by {
            assert forall|j: int| 0 <= j < i - start implies 0x30
                <= #[trigger] digits.take(i - start)[j] <= 0x39 by {
                if j < k {
                    assert(digits.take(k)[j] == digits[j]);
                }
            }
        }
    }
    assert(digits.take(digits.len() as int) =~= digits);
    Some(v)
}

/// The decimal digits of a number.
pub open spec fn decimal(n: nat) -> Seq<u8>
    decreases n,
{
    if n < 10 {
        seq![(0x30 + n) as u8]
    } else {
        decimal(n / 10).push((0x30 + n % 10) as u8)
    }
}

/// A number is read back from its digits.
pub proof fn decimal_reads_back(n: nat, max: nat)
    requires
        n <= max,
    ensures
        parsed(decimal(n), max) == Some(n),
        decimal(n).len() > 0,
        all_digits(decimal(n)),
{
    lemma_decimal(n);
    assert(0x30 <= decimal(n)[0] <= 0x39);
}

proof fn lemma_decimal(n: nat)
    ensures
        all_digits(decimal(n)),
        digits_value(decimal(n)) == n,
        decimal(n).len() > 0,
    decreases n,
{
    if n >= 10 {
        lemma_decimal(n / 10);
        assert(decimal(n).drop_last() =~= decimal(n / 10));
    } else {
        assert(decimal(n).drop_last() =~= Seq::<u8>::empty());
        assert(digits_value(decimal(n).drop_last()) == 0);
    }
}

/// Appends the decimal digits of a number.
pub(crate) fn push_decimal(out: &mut Vec<u8>, n: u64)
    ensures
        final(out)@ == old(out)@ + decimal(n as nat),
    decreases n,
{
    if n >= 10 {
        push_decimal(out, n / 10);
    }
    out.push((0x30 + n % 10) as u8);
    assert(out@ =~= old(out)@ + decimal(n as nat));
}

/// Appends bytes.
pub(crate) fn push_bytes(out: &mut Vec<u8>, bytes: &[u8])
    ensures
        final(out)@ == old(out)@ + bytes@,
{
    let mut i: usize = 0;
    while i < bytes.len()
        invariant
            i <= bytes@.len(),
            out@ == old(out)@ + bytes@.take(i as int),
        decreases bytes@.len() - i,
    {
        out.push(bytes[i]);
        i += 1;
        assert(out@ =~= old(out)@ + bytes@.take(i as int));
    }
    assert(bytes@.take(i as int) =~= bytes@);
}

/// Whether a text starts with another one.
pub(crate) fn starts_with(s: &[u8], prefix: &[u8]) -> (yes: bool)
    ensures
        yes == prefix@.is_prefix_of(s@),
{
    if s.len() < prefix.len() {
        return false;
    }
    let mut i: usize = 0;
    while i < prefix.len()
        invariant
            i <= prefix@.len() <= s@.len(),
            forall|j: int| 0 <= j < i ==> s@[j] == prefix@[j],
        decreases prefix@.len() - i,
    {
        if s[i] != prefix[i] {
            assert(s@.subrange(0, prefix@.len() as int)[i as int] != prefix@[i as int]);
            return false;
        }
        i += 1;
    }
    assert(prefix@ =~= s@.subrange(0, prefix@.len() as int));
    true
}

} // verus!
