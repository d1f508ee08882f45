//! The quantizer picks the nearest level, and the codes of the tables stand for the
//! levels.

use vstd::prelude::*;
use crate::codec::bits;
use crate::codec::tables;
use crate::codec::tables::{Vlc, VlcRead};

verus! {

/// The 16 levels of Table 1.
pub open spec fn in_table1(v: int) -> bool {
    ||| v == 3 || v == 12 || v == 23 || v == 38 || v == 57 || v == 80 || v == 107 || v == 140
    ||| v == -4 || v == -13 || v == -24 || v == -39 || v == -58 || v == -81 || v == -108 || v
        == -141
}

/// The 8 levels of Table 2.
pub open spec fn in_table2(v: int) -> bool {
    ||| v == 4 || v == 15 || v == 30 || v == 49
    ||| v == -5 || v == -16 || v == -31 || v == -50
}

/// A level of the table.
pub open spec fn in_table(v: int, subsampled: bool) -> bool {
    if subsampled {
        in_table2(v)
    } else {
        in_table1(v)
    }
}

/// `a` is no farther from `v` than `b` is.
pub open spec fn as_near(v: int, a: int, b: int) -> bool {
    let (x, y) = (
        if v >= a {
            v - a
        } else {
            a - v
        },
        if v >= b {
            v - b
        } else {
            b - v
        },
    );
    x <= y
}

/// A prediction error is quantized to the nearest level of its table: no other level
/// is nearer. Errors below zero take a level below zero.
pub proof fn quantizer_picks_the_nearest_level(
    diff: int,
    subsampled: bool,
    extra: bool,
    other: int,
)
    requires
        -255 <= diff <= 255,
        in_table(other, subsampled),
    ensures
        ({
            let (level, run, negative) = tables::quantized(diff, subsampled, extra);
            &&& in_table(level, subsampled)
            &&& as_near(diff, level, other)
            &&& negative == (diff < 0)
            &&& (level < 0) == (diff < 0)
        }),
{
    reveal(tables::quantized);
}

/// A greater error is never quantized to a smaller level.
pub proof fn quantizer_is_monotone(a: int, b: int, subsampled: bool, extra: bool)
    requires
        -255 <= a <= b <= 255,
    ensures
        tables::quantized(a, subsampled, extra).0 <= tables::quantized(b, subsampled, extra).0,
{
    reveal(tables::quantized);
}

/// The codes of Table 1: a level takes a longer code the farther it is from zero.
/// Above zero, k zeros and a one; below zero, a one, m zeros and a one, where m = 2 is
/// left to the end of cluster.
pub proof fn table1_codes(diff: int)
    requires
        -255 <= diff <= 255,
    ensures
        ({
            let (level, run, negative) = tables::quantized(diff, false, false);
            &&& level == 3 ==> run == 1
            &&& level == 12 ==> run == 2
            &&& level == 23 ==> run == 3
            &&& level == 38 ==> run == 4
            &&& level == 57 ==> run == 5
            &&& level == 80 ==> run == 6
            &&& level == 107 ==> run == 7
            &&& level == 140 ==> run == 8
            &&& level == -4 ==> run == 0
            &&& level == -13 ==> run == 1
            &&& level == -24 ==> run == 3
            &&& level == -39 ==> run == 4
            &&& level == -58 ==> run == 5
            &&& level == -81 ==> run == 6
            &&& level == -108 ==> run == 7
            &&& level == -141 ==> run == 8
        }),
{
    reveal(tables::quantized);
}

/// The codes of Table 2: each level has a code for a normal element and a longer one
/// for an extra element.
pub proof fn table2_codes(diff: int, extra: bool)
    requires
        -255 <= diff <= 255,
    ensures
        ({
            let (level, run, negative) = tables::quantized(diff, true, extra);
            let pick = |normal: int, other: int|
                run == if extra {
                    other
                } else {
                    normal
                };
            &&& level == 4 ==> pick(1, 3)
            &&& level == 15 ==> pick(2, 5)
            &&& level == 30 ==> pick(4, 7)
            &&& level == 49 ==> pick(6, 8)
            &&& level == -5 ==> pick(0, 3)
            &&& level == -16 ==> pick(1, 5)
            &&& level == -31 ==> pick(4, 7)
            &&& level == -50 ==> pick(6, 8)
        }),
{
    reveal(tables::quantized);
}

/// A code is written as `run` zeros and a one, behind a one on the negative side.
pub proof fn codes_are_runs_of_zeros(run: nat, negative: bool, i: int)
    requires
        0 <= i < tables::code_bits(run, negative).len(),
    ensures
        !negative ==> tables::code_bits(run, negative).len() == run + 1,
        !negative ==> tables::code_bits(run, negative)[i] == (i == run),
        negative ==> tables::code_bits(run, negative).len() == run + 2,
        negative ==> tables::code_bits(run, negative)[i] == (i == 0 || i == run + 1),
        tables::eoc_bits() == seq![true, false, false, true],
{
    assert(tables::eoc_bits() =~= seq![true, false, false, true]);
}

/// `k` zeros and a one at `p` are read as a level above zero: of Table 1, or of Table 2
/// for a normal or an extra element.
pub proof fn positive_codes_are_read(stream: Seq<bool>, p: nat, k: nat)
    requires
        1 <= k <= 8,
        p + k < stream.len(),
        forall|i: int| p <= i < p + k ==> !#[trigger] stream[i],
        stream[(p + k) as int],
    ensures
        ({
            let level1 = seq![3int, 12, 23, 38, 57, 80, 107, 140][k - 1];
            let level2 = seq![4int, 15, 4, 30, 15, 49, 30, 49][k - 1];
            let extra2 = k == 3 || k == 5 || k == 7 || k == 8;
            &&& tables::vlc_at(stream, p, false) == (
                VlcRead::Sym(Vlc::Level { level: level1 as i16, extra: false }),
                p + k + 1,
            )
            &&& tables::vlc_at(stream, p, true) == (
                VlcRead::Sym(Vlc::Level { level: level2 as i16, extra: extra2 }),
                p + k + 1,
            )
        }),
{
    tables::lemma_zero_run(stream, p + 1, (k - 1) as nat);
}

/// A one, `m` zeros and a one at `p` are read as a level below zero; 1001 is the end
/// of the cluster.
pub proof fn negative_codes_are_read(stream: Seq<bool>, p: nat, m: nat)
    requires
        m <= 8,
        p + m + 1 < stream.len(),
        stream[p as int],
        forall|i: int| p + 1 <= i < p + 1 + m ==> !#[trigger] stream[i],
        stream[(p + m + 1) as int],
    ensures
        ({
            let level1 = seq![-4int, -13, 0, -24, -39, -58, -81, -108, -141][m as int];
            let level2 = seq![-5int, -16, 0, -5, -31, -16, -50, -31, -50][m as int];
            let extra2 = m == 3 || m == 5 || m == 7 || m == 8;
            &&& m == 2 ==> tables::vlc_at(stream, p, false) == (VlcRead::Sym(Vlc::Eoc), p + 4)
            &&& m == 2 ==> tables::vlc_at(stream, p, true) == (VlcRead::Sym(Vlc::Eoc), p + 4)
            &&& m != 2 ==> tables::vlc_at(stream, p, false) == (
                VlcRead::Sym(Vlc::Level { level: level1 as i16, extra: false }),
                p + m + 2,
            )
            &&& m != 2 ==> tables::vlc_at(stream, p, true) == (
                VlcRead::Sym(Vlc::Level { level: level2 as i16, extra: extra2 }),
                p + m + 2,
            )
        }),
{
    tables::lemma_zero_run(stream, p + 1, m);
}

/// More zeros than any code has are malformed; a code that the stream cuts off is the
/// end of the stream.
pub proof fn other_bits_are_no_codes(stream: Seq<bool>, p: nat, m: nat, subsampled: bool)
    requires
        p < stream.len(),
        p + 1 + m <= stream.len(),
        forall|i: int| p + 1 <= i < p + 1 + m ==> !#[trigger] stream[i],
    ensures
        m >= 9 ==> tables::vlc_at(stream, p, subsampled).0 is Invalid,
        m == 8 && !stream[p as int] && p + 9 < stream.len() ==> tables::vlc_at(
            stream,
            p,
            subsampled,
        ).0 is Invalid,
        m <= 8 && p + 1 + m == stream.len() ==> tables::vlc_at(stream, p, subsampled).0 is Eof,
        tables::vlc_at(stream, stream.len(), subsampled) == (VlcRead::Eof, stream.len()),
{
    lemma_zeros_counted(stream, p + 1, m);
    if m == 8 && p + 9 < stream.len() && stream[(p + 9) as int] {
        tables::lemma_zero_run(stream, p + 1, 8);
    } else if m == 8 && p + 9 < stream.len() {
        assert forall|i: int| p + 1 <= i < p + 1 + 9 implies !#[trigger] stream[i] by {}
        lemma_zeros_counted(stream, p + 1, 9);
    }
}

/// `m` zeros in a row are counted, all of them at the end of the stream.
proof fn lemma_zeros_counted(stream: Seq<bool>, p: nat, m: nat)
    requires
        p + m <= stream.len(),
        forall|i: int| p <= i < p + m ==> !#[trigger] stream[i],
    ensures
        tables::zero_run(stream, p) >= m,
        p + m == stream.len() ==> tables::zero_run(stream, p) == m,
    decreases m,
{
    if m > 0 {
        assert(!stream[p as int]);
        lemma_zeros_counted(stream, p + 1, (m - 1) as nat);
    }
}

/// Bits are most significant first: bit `i` of the `n` bits of a number counts
/// 2^(n−1−i), and bit `j` of byte `i` of a row of bytes is bit 8·i + j.
pub proof fn bits_are_most_significant_first(v: nat, n: nat, i: int, data: Seq<u8>, b: int, j: int)
    requires
        0 <= i < n,
        0 <= b < data.len(),
        0 <= j < 8,
    ensures
        bits::bits_of(v, n).len() == n,
        bits::bits_of(v, n)[i] == ((v / vstd::arithmetic::power2::pow2((n - 1 - i) as nat)) % 2
            == 1),
        bits::bits_of_bytes(data).len() == 8 * data.len(),
        bits::bits_of_bytes(data)[8 * b + j] == ((data[b] as nat / vstd::arithmetic::power2::pow2(
            (7 - j) as nat,
        )) % 2 == 1),
{
    bits::lemma_bits_of_index(v, n, i);
    bits::lemma_bits_of_index(data[b] as nat, 8, j);
    assert((8 * b + j) / 8 == b && (8 * b + j) % 8 == j);
}

/// A number is read as the sum of its bits: the bits before the last count twice.
pub proof fn numbers_are_sums_of_bits(stream: Seq<bool>, p: nat, n: nat)
    requires
        p + n + 1 <= stream.len(),
    ensures
        bits::number_at(stream, p, 0) == Some(0nat),
        bits::number_at(stream, p, n) matches Some(v) && bits::number_at(stream, p, n + 1) == Some(
            2 * v + if stream[(p + n) as int] {
                1nat
            } else {
                0nat
            },
        ),
        bits::number_at(stream, (stream.len() - n) as nat, n + 1) is None,
{
    let more = stream.subrange(p as int, (p + n + 1) as int);
    assert(more.drop_last() =~= stream.subrange(p as int, (p + n) as int));
    assert(more.last() == stream[(p + n) as int]);
    if n == 0 {
        assert(more.drop_last() =~= Seq::<bool>::empty());
        assert(bits::value_of(more.drop_last()) == 0);
    }
}

/// `n` zeros are `n` bits, none of them set.
pub proof fn zeros_are_zero(n: nat, i: int)
    requires
        0 <= i < n,
    ensures
        bits::zeros(n).len() == n,
        !bits::zeros(n)[i],
{
}

} // verus!
