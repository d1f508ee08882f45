//! Quantization laws and variable-length codes (Tables 1 and 2/H.120).
//!
//! Every code in both tables has one of two forms:
//!   - positive side: k zeros followed by a 1          (k = 1..8)
//!   - negative side: a 1, m zeros, then a 1           (m = 0..8)
//!
//! The end-of-cluster code EOC = 1001 corresponds to m = 2 (code no. 11,
//! §1.4.1.3.2) in both tables, which makes the whole set prefix-free.
//!
//! Erratum: Table 2 prints "0 to 22" for level +15; this should read
//! "10 to 22" (otherwise the ranges 0..9 and 0..22 overlap).

use vstd::prelude::*;
use crate::codec::bitio::{BitReader, BitWriter};
use crate::codec::bits;

verus! {

/// Decoded symbol of a moving area.
#[derive(Clone, Copy, Debug, PartialEq, Eq, Structural)]
pub enum Vlc {
    /// DPCM output level. `extra` only makes sense on subsampled lines
    /// ("extra" element, §1.4.1.4.1).
    Level { level: i16, extra: bool },
    /// End of cluster.
    Eoc,
}

/// Result of reading a VLC code.
#[derive(Clone, Copy, Debug, PartialEq, Eq, Structural)]
pub enum VlcRead {
    /// Valid symbol.
    Sym(Vlc),
    /// Malformed code (more than 8 zeros): cannot appear in a conforming
    /// stream, so it signals corruption — to be distinguished from a clean end.
    Invalid,
    /// Stream exhausted in the middle of a code.
    Eof,
}

/// Table 1, errors of zero and above: (level, zeros of the code).
pub open spec fn table1_positive(diff: int) -> (int, nat) {
    if diff <= 7 {
        (3, 1)
    } else if diff <= 17 {
        (12, 2)
    } else if diff <= 30 {
        (23, 3)
    } else if diff <= 47 {
        (38, 4)
    } else if diff <= 68 {
        (57, 5)
    } else if diff <= 93 {
        (80, 6)
    } else if diff <= 123 {
        (107, 7)
    } else {
        (140, 8)
    }
}

/// Table 1, errors below zero, by magnitude: (level, zeros of the code).
pub open spec fn table1_negative(magnitude: int) -> (int, nat) {
    if magnitude <= 8 {
        (-4, 0)
    } else if magnitude <= 18 {
        (-13, 1)
    } else if magnitude <= 31 {
        (-24, 3)
    } else if magnitude <= 48 {
        (-39, 4)
    } else if magnitude <= 69 {
        (-58, 5)
    } else if magnitude <= 94 {
        (-81, 6)
    } else if magnitude <= 124 {
        (-108, 7)
    } else {
        (-141, 8)
    }
}

/// Table 2, errors of zero and above: (level, zeros of the code of a normal
/// element, zeros of the code of an extra element).
pub open spec fn table2_positive(diff: int) -> (int, nat, nat) {
    if diff <= 9 {
        (4, 1, 3)
    } else if diff <= 22 {
        (15, 2, 5)
    } else if diff <= 39 {
        (30, 4, 7)
    } else {
        (49, 6, 8)
    }
}

/// Table 2, errors below zero, by magnitude: (level, zeros of the code of a
/// normal element, zeros of the code of an extra element).
pub open spec fn table2_negative(magnitude: int) -> (int, nat, nat) {
    if magnitude <= 10 {
        (-5, 0, 3)
    } else if magnitude <= 23 {
        (-16, 1, 5)
    } else if magnitude <= 40 {
        (-31, 4, 7)
    } else {
        (-50, 6, 8)
    }
}

/// The quantization of a prediction error: (level, zeros of the code, negative
/// side of the table).
#[verifier::opaque]
pub open spec fn quantized(diff: int, subsampled: bool, extra: bool) -> (int, nat, bool) {
    if subsampled {
        let row = if diff >= 0 {
            table2_positive(diff)
        } else {
            table2_negative(-diff)
        };
        (row.0, if extra { row.2 } else { row.1 }, diff < 0)
    } else {
        let row = if diff >= 0 {
            table1_positive(diff)
        } else {
            table1_negative(-diff)
        };
        (row.0, row.1, diff < 0)
    }
}

/// The bits of a code: `0^run 1` on the positive side, `1 0^run 1` on the
/// negative side.
pub open spec fn code_bits(run: nat, negative: bool) -> Seq<bool> {
    if negative {
        seq![true] + bits::zeros(run) + seq![true]
    } else {
        bits::zeros(run) + seq![true]
    }
}

/// The bits of the end-of-cluster code, 1001.
pub open spec fn eoc_bits() -> Seq<bool> {
    code_bits(2, true)
}

/// The codes of the tables: 1 to 8 zeros on the positive side, 0 to 8 on the
/// negative side.
pub open spec fn is_code(run: nat, negative: bool) -> bool {
    run <= 8 && (negative || run >= 1)
}

/// The level of a Table 1 code.
pub open spec fn table1_level(run: nat, negative: bool) -> int {
    if negative {
        if run == 0 {
            -4
        } else if run == 1 {
            -13
        } else if run == 3 {
            -24
        } else if run == 4 {
            -39
        } else if run == 5 {
            -58
        } else if run == 6 {
            -81
        } else if run == 7 {
            -108
        } else {
            -141
        }
    } else {
        if run == 1 {
            3
        } else if run == 2 {
            12
        } else if run == 3 {
            23
        } else if run == 4 {
            38
        } else if run == 5 {
            57
        } else if run == 6 {
            80
        } else if run == 7 {
            107
        } else {
            140
        }
    }
}

/// The level of a Table 2 code, and whether it codes an extra element.
pub open spec fn table2_level(run: nat, negative: bool) -> (int, bool) {
    if negative {
        if run == 0 {
            (-5, false)
        } else if run == 1 {
            (-16, false)
        } else if run == 3 {
            (-5, true)
        } else if run == 4 {
            (-31, false)
        } else if run == 5 {
            (-16, true)
        } else if run == 6 {
            (-50, false)
        } else if run == 7 {
            (-31, true)
        } else {
            (-50, true)
        }
    } else {
        if run == 1 {
            (4, false)
        } else if run == 2 {
            (15, false)
        } else if run == 3 {
            (4, true)
        } else if run == 4 {
            (30, false)
        } else if run == 5 {
            (15, true)
        } else if run == 6 {
            (49, false)
        } else if run == 7 {
            (30, true)
        } else {
            (49, true)
        }
    }
}

/// The symbol of a code.
pub open spec fn symbol(run: nat, negative: bool, subsampled: bool) -> Vlc {
    if negative && run == 2 {
        Vlc::Eoc
    } else if subsampled {
        Vlc::Level {
            level: table2_level(run, negative).0 as i16,
            extra: table2_level(run, negative).1,
        }
    } else {
        Vlc::Level { level: table1_level(run, negative) as i16, extra: false }
    }
}

/// The number of zero bits in a row from position `p` on.
pub open spec fn zero_run(stream: Seq<bool>, p: nat) -> nat
    decreases stream.len() - p,
{
    if p < stream.len() && !stream[p as int] {
        1 + zero_run(stream, p + 1)
    } else {
        0
    }
}

/// What a code read at position `p` is, and the position behind it: `Eof`
/// where the stream ends before the code does, `Invalid` where it has more
/// zeros than a code of the tables.
pub open spec fn vlc_at(stream: Seq<bool>, p: nat, subsampled: bool) -> (VlcRead, nat) {
    if p >= stream.len() {
        (VlcRead::Eof, p)
    } else {
        let negative = stream[p as int];
        let run = zero_run(stream, p + 1);
        if run > 8 {
            (VlcRead::Invalid, p + 10)
        } else if p + 1 + run >= stream.len() {
            (VlcRead::Eof, stream.len())
        } else if negative {
            (VlcRead::Sym(symbol(run, true, subsampled)), p + run + 2)
        } else if run == 8 {
            (VlcRead::Invalid, p + run + 2)
        } else {
            (VlcRead::Sym(symbol(run + 1, false, subsampled)), p + run + 2)
        }
    }
}

/// A run of zeros ends within the stream.
pub proof fn lemma_zero_run_in_range(stream: Seq<bool>, p: nat)
    requires
        p <= stream.len(),
    ensures
        p + zero_run(stream, p) <= stream.len(),
    decreases stream.len() - p,
{
    if p < stream.len() && !stream[p as int] {
        lemma_zero_run_in_range(stream, p + 1);
    }
}

/// `n` zeros followed by a one are a run of `n` zeros.
pub proof fn lemma_zero_run(stream: Seq<bool>, p: nat, n: nat)
    requires
        p + n < stream.len(),
        forall|i: int| p <= i < p + n ==> !#[trigger] stream[i],
        stream[(p + n) as int],
    ensures
        zero_run(stream, p) == n,
    decreases n,
{
    if n > 0 {
        lemma_zero_run(stream, p + 1, (n - 1) as nat);
    }
}

/// A code of the tables that stands at `p` is read there as its symbol, and
/// the reader stops behind it.
pub proof fn code_reads_back(stream: Seq<bool>, p: nat, run: nat, negative: bool, subsampled: bool)
    requires
        is_code(run, negative),
        bits::stands_at(stream, p as int, code_bits(run, negative)),
    ensures
        vlc_at(stream, p, subsampled) == (
            VlcRead::Sym(symbol(run, negative, subsampled)),
            p + code_bits(run, negative).len(),
        ),
{
    let code = code_bits(run, negative);
    let n = code.len();
    assert forall|i: int| 0 <= i < n implies #[trigger] code[i] == stream[p + i] by {
        assert(stream.subrange(p as int, (p + n) as int)[i] == stream[p + i]);
    }
    let head: nat = if negative { 1 } else { 0 };
    assert forall|i: int| p + head <= i < p + head + run implies !#[trigger] stream[i] by {
        assert(code[i - p] == stream[p + (i - p)]);
    }
    assert(code[n - 1] == stream[p + (n - 1)]);
    if negative {
        assert(code[0] == stream[p as int]);
        lemma_zero_run(stream, p + 1, run);
    } else {
        assert(code[0] == stream[p as int]);
        lemma_zero_run(stream, p + 1, (run - 1) as nat);
    }
}

/// The code that the quantizer picks is a code of the tables, is not the
/// end-of-cluster code, and stands for the level that the quantizer returned.
pub proof fn quantized_reads_back(diff: int, subsampled: bool, extra: bool)
    requires
        extra ==> subsampled,
    ensures
        ({
            let (level, run, negative) = quantized(diff, subsampled, extra);
            &&& is_code(run, negative)
            &&& symbol(run, negative, subsampled) == (Vlc::Level { level: level as i16, extra })
            &&& -141 <= level <= 140
        }),
{
    reveal(quantized);
}

/// No code of the tables is the beginning of another one.
pub proof fn codes_are_prefix_free(run1: nat, negative1: bool, run2: nat, negative2: bool)
    requires
        is_code(run1, negative1),
        is_code(run2, negative2),
        code_bits(run1, negative1).is_prefix_of(code_bits(run2, negative2)),
    ensures
        run1 == run2,
        negative1 == negative2,
{
    let (a, b) = (code_bits(run1, negative1), code_bits(run2, negative2));
    assert(forall|i: int| 0 <= i < a.len() ==> a[i] == b[i]);
    assert(a[0] == b[0]);
    let h: int = if negative1 { 1 } else { 0 };
    if run1 < run2 {
        assert(a[h + run1] == b[h + run1]);
    }
    if run2 < run1 {
        assert(a[h + run2] == b[h + run2]);
    }
}

/// The quantizer's levels stay within the error range, and its codes have at
/// most 8 zeros.
pub proof fn lemma_level_range(diff: int, subsampled: bool, extra: bool)
    ensures
        quantized(diff, subsampled, extra).1 <= 8,
        -141 <= quantized(diff, subsampled, extra).0 <= 140,
{
    reveal(quantized);
}

/// Quantizes a prediction error and returns (level, run, negative side).
/// `diff` is in [−255, 255] (§1.4.1.3.2: 511 input levels).
pub fn quantize(diff: i16, subsampled: bool, extra: bool) -> (q: (i16, u8, bool))
    requires
        -255 <= diff <= 255,
        extra ==> subsampled,
    ensures
        (q.0 as int, q.1 as nat, q.2) == quantized(diff as int, subsampled, extra),
        q.2 == (diff < 0),
        !subsampled ==> (q.0 as int, q.1 as nat) == (if diff >= 0 {
            table1_positive(diff as int)
        } else {
            table1_negative(-diff)
        }),
        subsampled && diff >= 0 ==> q.0 == table2_positive(diff as int).0 && q.1 == (if extra {
            table2_positive(diff as int).2
        } else {
            table2_positive(diff as int).1
        }),
        subsampled && diff < 0 ==> q.0 == table2_negative(-diff).0 && q.1 == (if extra {
            table2_negative(-diff).2
        } else {
            table2_negative(-diff).1
        }),
{
    proof {
        reveal(quantized);
    }
    if subsampled {
        if diff >= 0 {
            let (level, normal, other): (i16, u8, u8) = if diff <= 9 {
                (4, 1, 3)
            } else if diff <= 22 {
                (15, 2, 5)
            } else if diff <= 39 {
                (30, 4, 7)
            } else {
                (49, 6, 8)
            };
            (level, if extra { other } else { normal }, false)
        } else {
            let (level, normal, other): (i16, u8, u8) = if -diff <= 10 {
                (-5, 0, 3)
            } else if -diff <= 23 {
                (-16, 1, 5)
            } else if -diff <= 40 {
                (-31, 4, 7)
            } else {
                (-50, 6, 8)
            };
            (level, if extra { other } else { normal }, true)
        }
    } else if diff >= 0 {
        let (level, run): (i16, u8) = if diff <= 7 {
            (3, 1)
        } else if diff <= 17 {
            (12, 2)
        } else if diff <= 30 {
            (23, 3)
        } else if diff <= 47 {
            (38, 4)
        } else if diff <= 68 {
            (57, 5)
        } else if diff <= 93 {
            (80, 6)
        } else if diff <= 123 {
            (107, 7)
        } else {
            (140, 8)
        };
        (level, run, false)
    } else {
        let (level, run): (i16, u8) = if -diff <= 8 {
            (-4, 0)
        } else if -diff <= 18 {
            (-13, 1)
        } else if -diff <= 31 {
            (-24, 3)
        } else if -diff <= 48 {
            (-39, 4)
        } else if -diff <= 69 {
            (-58, 5)
        } else if -diff <= 94 {
            (-81, 6)
        } else if -diff <= 124 {
            (-108, 7)
        } else {
            (-141, 8)
        };
        (level, run, true)
    }
}

/// Writes a VLC code: positive side `0^k 1`, negative side `1 0^m 1`.
pub fn write_code(w: &mut BitWriter, run: u8, negative: bool)
    requires
        old(w).wf(),
        old(w)@.len() + run + 2 <= u64::MAX,
    ensures
        final(w).wf(),
        final(w)@ == old(w)@ + code_bits(run as nat, negative),
{
    if negative {
        w.put_bit(true);
    }
    let ghost start = w@;
    let mut i: u8 = 0;
    assert(w@ =~= start + bits::zeros(0));
    while i < run
        invariant
            i <= run,
            w.wf(),
            start.len() + run + 1 <= u64::MAX,
            w@ == start + bits::zeros(i as nat),
        decreases run - i,
    {
        w.put_bit(false);
        i += 1;
        assert(w@ =~= start + bits::zeros(i as nat));
    }
    w.put_bit(true);
    assert(w@ =~= old(w)@ + code_bits(run as nat, negative));
}

/// Writes the end-of-cluster code (1001).
pub fn write_eoc(w: &mut BitWriter)
    requires
        old(w).wf(),
        old(w)@.len() + 4 <= u64::MAX,
    ensures
        final(w).wf(),
        final(w)@ == old(w)@ + eoc_bits(),
{
    write_code(w, 2, true);
}

/// The level of a Table 1 code.
fn level1(run: u8, negative: bool) -> (level: i16)
    requires
        is_code(run as nat, negative),
        !(negative && run == 2),
    ensures
        level == table1_level(run as nat, negative),
{
    if negative {
        match run {
            0 => -4,
            1 => -13,
            3 => -24,
            4 => -39,
            5 => -58,
            6 => -81,
            7 => -108,
            _ => -141,
        }
    } else {
        match run {
            1 => 3,
            2 => 12,
            3 => 23,
            4 => 38,
            5 => 57,
            6 => 80,
            7 => 107,
            _ => 140,
        }
    }
}

/// The level of a Table 2 code, and whether it codes an extra element.
fn level2(run: u8, negative: bool) -> (level: (i16, bool))
    requires
        is_code(run as nat, negative),
        !(negative && run == 2),
    ensures
        (level.0 as int, level.1) == table2_level(run as nat, negative),
{
    if negative {
        match run {
            0 => (-5, false),
            1 => (-16, false),
            3 => (-5, true),
            4 => (-31, false),
            5 => (-16, true),
            6 => (-50, false),
            7 => (-31, true),
            _ => (-50, true),
        }
    } else {
        match run {
            1 => (4, false),
            2 => (15, false),
            3 => (4, true),
            4 => (30, false),
            5 => (15, true),
            6 => (49, false),
            7 => (30, true),
            _ => (49, true),
        }
    }
}

/// Reads a VLC symbol. Synchronization codes (≥ 12 zeros) are detected before
/// the call; a code with more than 8 zeros is therefore necessarily a
/// corruption (`Invalid`), distinct from a clean end of stream (`Eof`).
pub fn read_vlc(r: &mut BitReader, subsampled: bool) -> (read: VlcRead)
    requires
        old(r).wf(),
    ensures
        final(r).bits() == old(r).bits(),
        (read, final(r).at()) == vlc_at(old(r).bits(), old(r).at(), subsampled),
{
    let ghost stream = r.bits();
    let ghost p = r.at();
    let negative = match r.read_bit() {
        Some(b) => b,
        None => {
            return VlcRead::Eof;
        },
    };
    let mut run: u8 = 0;
    loop
        invariant_except_break
            r.wf(),
            r.bits() == stream,
            p < stream.len(),
            r.at() == p + 1 + run,
            r.at() <= stream.len(),
            run <= 8,
            negative == stream[p as int],
            zero_run(stream, p + 1) == run + zero_run(stream, p + 1 + run as nat),
            old(r).bits() == stream,
            old(r).at() == p,
        ensures
            r.bits() == stream,
            run <= 8,
            zero_run(stream, p + 1) == run,
            p + 1 + run < stream.len(),
            r.at() == p + 2 + run,
        decreases 9 - run,
    {
        match r.read_bit() {
            None => {
                return VlcRead::Eof;
            },
            Some(b) => {
                if b {
                    break;
                }
                run += 1;
                if run > 8 {
                    return VlcRead::Invalid;
                }
            },
        }
    }
    if negative {
        // `1 1` corresponds to run = 0; `1 0^m 1` to run = m.
        if run == 2 {
            return VlcRead::Sym(Vlc::Eoc);
        }
        if subsampled {
            let (level, extra) = level2(run, true);
            VlcRead::Sym(Vlc::Level { level, extra })
        } else {
            VlcRead::Sym(Vlc::Level { level: level1(run, true), extra: false })
        }
    } else {
        // The first bit read was the first zero of `0^k 1`, so k = run + 1.
        let k: u8 = run + 1;
        if k > 8 {
            return VlcRead::Invalid;
        }
        if subsampled {
            let (level, extra) = level2(k, false);
            VlcRead::Sym(Vlc::Level { level, extra })
        } else {
            VlcRead::Sym(Vlc::Level { level: level1(k, false), extra: false })
        }
    }
}

} // verus!
