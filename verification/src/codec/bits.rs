//! The mathematics of bit strings: numbers as sequences of bits, most
//! significant bit first, and byte strings as sequences of bits.

use vstd::prelude::*;
use vstd::arithmetic::div_mod::*;
use vstd::arithmetic::power2::*;

verus! {

/// The `n` least significant bits of `v`, most significant first.
pub open spec fn bits_of(v: nat, n: nat) -> Seq<bool>
    decreases n,
{
    if n == 0 {
        Seq::empty()
    } else {
        bits_of(v / 2, (n - 1) as nat).push(v % 2 == 1)
    }
}

/// The number that a bit string denotes, most significant bit first.
pub open spec fn value_of(s: Seq<bool>) -> nat
    decreases s.len(),
{
    if s.len() == 0 {
        0
    } else {
        2 * value_of(s.drop_last()) + if s.last() { 1nat } else { 0nat }
    }
}

/// `n` zero bits.
pub open spec fn zeros(n: nat) -> Seq<bool> {
    Seq::new(n, |i: int| false)
}

/// The bits of a byte string, each byte most significant bit first.
pub open spec fn bits_of_bytes(data: Seq<u8>) -> Seq<bool> {
    Seq::new(8 * data.len(), |i: int| bits_of(data[i / 8] as nat, 8)[i % 8])
}

/// `seg` stands in `bits` from position `p` on.
pub open spec fn stands_at(bits: Seq<bool>, p: int, seg: Seq<bool>) -> bool {
    &&& 0 <= p
    &&& p + seg.len() <= bits.len()
    &&& bits.subrange(p, p + seg.len()) == seg
}

/// The number in the `n` bits of `bits` from position `p` on, if there are so
/// many.
pub open spec fn number_at(bits: Seq<bool>, p: nat, n: nat) -> Option<nat> {
    if n == 0 {
        Some(0)
    } else if p + n <= bits.len() {
        Some(value_of(bits.subrange(p as int, (p + n) as int)))
    } else {
        None
    }
}

/// `n` bits are `n` bits.
pub proof fn lemma_bits_of_len(v: nat, n: nat)
    ensures
        bits_of(v, n).len() == n,
    decreases n,
{
    if n > 0 {
        lemma_bits_of_len(v / 2, (n - 1) as nat);
    }
}

/// Each bit of a number.
pub proof fn lemma_bits_of_index(v: nat, n: nat, i: int)
    requires
        0 <= i < n,
    ensures
        bits_of(v, n).len() == n,
        bits_of(v, n)[i] == ((v / pow2((n - 1 - i) as nat)) % 2 == 1),
    decreases n,
{
    lemma_bits_of_len(v, n);
    lemma_bits_of_len(v / 2, (n - 1) as nat);
    if i == n - 1 {
        lemma2_to64();
        assert(pow2((n - 1 - i) as nat) == 1);
        lemma_div_basics(v as int);
    } else {
        lemma_bits_of_index(v / 2, (n - 1) as nat, i);
        let k = (n - 2 - i) as nat;
        lemma_pow2_unfold(k + 1);
        lemma_pow2_pos(k);
        lemma_div_denominator(v as int, 2, pow2(k) as int);
    }
}

/// `n` bits denote a number below `2^n`.
pub proof fn lemma_value_bound(s: Seq<bool>)
    ensures
        value_of(s) < pow2(s.len()),
    decreases s.len(),
{
    if s.len() == 0 {
        lemma2_to64();
    } else {
        lemma_value_bound(s.drop_last());
        lemma_pow2_unfold(s.len());
    }
}

/// Reading back `n` bits of a number gives the number modulo `2^n`.
pub proof fn lemma_value_of_bits(v: nat, n: nat)
    ensures
        value_of(bits_of(v, n)) == v % pow2(n),
    decreases n,
{
    if n == 0 {
        lemma2_to64();
    } else {
        let m = (n - 1) as nat;
        lemma_value_of_bits(v / 2, m);
        assert(bits_of(v, n).drop_last() =~= bits_of(v / 2, m));
        lemma_pow2_unfold(n);
        lemma_pow2_pos(m);
        lemma_mod_breakdown(v as int, 2, pow2(m) as int);
    }
}

/// A bit string is the binary form of the number it denotes.
pub proof fn lemma_bits_of_value(s: Seq<bool>)
    ensures
        bits_of(value_of(s), s.len()) =~= s,
    decreases s.len(),
{
    if s.len() > 0 {
        lemma_bits_of_value(s.drop_last());
        assert(s =~= s.drop_last().push(s.last()));
    }
}

/// The high bits and the low bits of a number, one after the other.
pub proof fn lemma_bits_of_split(v: nat, a: nat, b: nat)
    ensures
        bits_of(v, a + b) =~= bits_of(v / pow2(b), a) + bits_of(v, b),
    decreases b,
{
    if b == 0 {
        lemma2_to64();
    } else {
        let c = (b - 1) as nat;
        lemma_bits_of_split(v / 2, a, c);
        lemma_pow2_unfold(b);
        lemma_pow2_pos(c);
        lemma_div_denominator(v as int, 2, pow2(c) as int);
    }
}

/// Zero has no bit set.
pub proof fn lemma_bits_of_zero(n: nat)
    ensures
        bits_of(0, n) =~= zeros(n),
    decreases n,
{
    if n > 0 {
        lemma_bits_of_zero((n - 1) as nat);
    }
}

/// A multiple of `2^n` has none of its low `n` bits set.
pub proof fn lemma_low_bits_of_multiple(c: nat, n: nat)
    ensures
        bits_of(c * pow2(n), n) =~= zeros(n),
    decreases n,
{
    if n > 0 {
        let m = (n - 1) as nat;
        lemma_pow2_unfold(n);
        assert(c * pow2(n) == 2 * (c * pow2(m))) by (nonlinear_arith)
            requires
                pow2(n) == 2 * pow2(m),
        ;
        lemma_low_bits_of_multiple(c, m);
    }
}

/// A bit string denotes zero only if all its bits are zero.
pub proof fn lemma_value_zero(s: Seq<bool>)
    ensures
        value_of(s) == 0 <==> (forall|i: int| 0 <= i < s.len() ==> !#[trigger] s[i]),
    decreases s.len(),
{
    if s.len() > 0 {
        lemma_value_zero(s.drop_last());
        assert(forall|i: int| 0 <= i < s.len() - 1 ==> s.drop_last()[i] == s[i]);
        if value_of(s) == 0 {
            assert forall|i: int| 0 <= i < s.len() implies !#[trigger] s[i] by {
                if i < s.len() - 1 {
                    assert(!s.drop_last()[i]);
                }
            }
        }
        if forall|i: int| 0 <= i < s.len() ==> !#[trigger] s[i] {
            assert(!s[s.len() - 1]);
        }
    }
}

/// Appending a byte appends its eight bits.
pub proof fn lemma_bits_of_bytes_push(data: Seq<u8>, b: u8)
    ensures
        bits_of_bytes(data.push(b)) =~= bits_of_bytes(data) + bits_of(b as nat, 8),
{
    lemma_bits_of_len(b as nat, 8);
    let l = bits_of_bytes(data.push(b));
    let r = bits_of_bytes(data) + bits_of(b as nat, 8);
    assert forall|i: int| 0 <= i < l.len() implies l[i] == r[i] by {
        if i < 8 * data.len() {
            assert(i / 8 < data.len());
        } else {
            assert(i / 8 == data.len());
        }
    }
}

/// A segment that is two segments in a row stands where both stand.
pub proof fn lemma_stands_split(bits: Seq<bool>, p: int, a: Seq<bool>, b: Seq<bool>)
    ensures
        stands_at(bits, p, a + b) <==> stands_at(bits, p, a) && stands_at(bits, p + a.len(), b),
{
    let (m, n) = (a.len() as int, b.len() as int);
    if stands_at(bits, p, a + b) {
        let both = bits.subrange(p, p + m + n);
        assert(bits.subrange(p, p + m) =~= both.subrange(0, m));
        assert(both.subrange(0, m) =~= a);
        assert(bits.subrange(p + m, p + m + n) =~= both.subrange(m, m + n));
        assert(both.subrange(m, m + n) =~= b);
    }
    if stands_at(bits, p, a) && stands_at(bits, p + a.len(), b) {
        assert(bits.subrange(p, p + m + n) =~= bits.subrange(p, p + m) + bits.subrange(
            p + m,
            p + m + n,
        ));
    }
}

/// A number that was written at `p` is read there.
pub proof fn lemma_number_at(bits: Seq<bool>, p: nat, v: nat, n: nat)
    requires
        stands_at(bits, p as int, bits_of(v, n)),
        v < pow2(n),
    ensures
        number_at(bits, p, n) == Some(v),
{
    lemma_bits_of_len(v, n);
    lemma_value_of_bits(v, n);
    lemma_small_mod(v, pow2(n));
    if n == 0 {
        lemma2_to64();
    }
}

/// The bits of bytes in a row are those of the bytes before followed by those
/// of the bytes behind.
pub proof fn lemma_bits_of_bytes_concat(a: Seq<u8>, b: Seq<u8>)
    ensures
        bits_of_bytes(a + b) =~= bits_of_bytes(a) + bits_of_bytes(b),
{
    let l = bits_of_bytes(a + b);
    let r = bits_of_bytes(a) + bits_of_bytes(b);
    assert forall|i: int| 0 <= i < l.len() implies l[i] == r[i] by {
        if i >= 8 * a.len() {
            let k = i - 8 * a.len();
            assert(i / 8 == a.len() + k / 8);
            assert(i % 8 == k % 8);
        }
    }
}

/// A number that was written is read back, whatever stands before and behind it.
pub proof fn written_number_reads_back(before: Seq<bool>, v: nat, n: nat, after: Seq<bool>)
    requires
        v < pow2(n),
    ensures
        number_at(before + bits_of(v, n) + after, before.len(), n) == Some(v),
{
    let all = before + bits_of(v, n) + after;
    lemma_bits_of_len(v, n);
    assert(all.subrange(before.len() as int, (before.len() + n) as int) =~= bits_of(v, n));
    lemma_number_at(all, before.len(), v, n);
}

} // verus!
