use h120::codec::bitio::{BitReader, BitWriter};
use h120::codec::tables::{quantize, read_vlc, write_code, write_eoc, Vlc, VlcRead};

/// Rebuilds a code's bit string for comparison with the tables.
fn code_str(run: u8, negative: bool) -> String {
    let mut s = String::new();
    if negative {
        s.push('1');
    }
    for _ in 0..run {
        s.push('0');
    }
    s.push('1');
    s
}

#[test]
fn table1_codes_match_spec() {
    // (representative diff, level, expected code) — Table 1/H.120.
    let cases: &[(i16, i16, &str)] = &[
        (-200, -141, "1000000001"),
        (-100, -108, "100000001"),
        (-80, -81, "10000001"),
        (-60, -58, "1000001"),
        (-40, -39, "100001"),
        (-25, -24, "10001"),
        (-10, -13, "101"),
        (-5, -4, "11"),
        (0, 3, "01"),
        (10, 12, "001"),
        (20, 23, "0001"),
        (40, 38, "00001"),
        (50, 57, "000001"),
        (70, 80, "0000001"),
        (100, 107, "00000001"),
        (200, 140, "000000001"),
    ];
    for &(diff, level, code) in cases {
        let (l, run, neg) = quantize(diff, false, false);
        assert_eq!(l, level, "diff {diff}");
        assert_eq!(code_str(run, neg), code, "diff {diff}");
    }
}

#[test]
fn table2_codes_match_spec() {
    // Normal elements then extra — Table 2/H.120.
    let normal: &[(i16, i16, &str)] = &[
        (-100, -50, "10000001"),
        (-30, -31, "100001"),
        (-15, -16, "101"),
        (-5, -5, "11"),
        (5, 4, "01"),
        (15, 15, "001"),
        (30, 30, "00001"),
        (100, 49, "0000001"),
    ];
    let extra: &[(i16, i16, &str)] = &[
        (-100, -50, "1000000001"),
        (-30, -31, "100000001"),
        (-15, -16, "1000001"),
        (-5, -5, "10001"),
        (5, 4, "0001"),
        (15, 15, "000001"),
        (30, 30, "00000001"),
        (100, 49, "000000001"),
    ];
    for &(diff, level, code) in normal {
        let (l, run, neg) = quantize(diff, true, false);
        assert_eq!(l, level, "diff {diff}");
        assert_eq!(code_str(run, neg), code, "diff {diff}");
    }
    for &(diff, level, code) in extra {
        let (l, run, neg) = quantize(diff, true, true);
        assert_eq!(l, level, "diff extra {diff}");
        assert_eq!(code_str(run, neg), code, "diff extra {diff}");
    }
}

/// A corrupted code (more than 8 zeros, impossible in a conforming stream)
/// must be distinguished from a clean end of stream, otherwise mid-stream
/// corruption is taken for a normal end and silently swallowed.
#[test]
fn invalid_vlc_distinguished_from_eof() {
    // Valid code: `01` = level +3 (Table 1).
    let mut w = BitWriter::new();
    w.put_bits(0b01, 2);
    let bytes = w.finish();
    assert!(matches!(read_vlc(&mut BitReader::new(&bytes), false), VlcRead::Sym(_)));

    // `1` followed by 10 zeros then `1`: run = 10 > 8 → corrupted code.
    let mut w = BitWriter::new();
    w.put_bit(true);
    for _ in 0..10 {
        w.put_bit(false);
    }
    w.put_bit(true);
    let bytes = w.finish();
    assert_eq!(read_vlc(&mut BitReader::new(&bytes), false), VlcRead::Invalid);

    // Empty stream: clean end.
    assert_eq!(read_vlc(&mut BitReader::new(&[]), false), VlcRead::Eof);
}

/// Table 2 erratum: the 9/10 boundary between +4 and +15.
#[test]
fn table2_erratum_boundary() {
    assert_eq!(quantize(9, true, false).0, 4);
    assert_eq!(quantize(10, true, false).0, 15);
}

/// Every encoded diff must read back identically, and the EOC must stay
/// distinguishable — which in effect verifies the code space is prefix-free.
#[test]
fn roundtrip_all_diffs_with_eoc() {
    for subsampled in [false, true] {
        for extra in [false, true] {
            if extra && !subsampled {
                continue;
            }
            let mut w = BitWriter::new();
            let mut expect = Vec::new();
            for diff in -255i16..=255 {
                let (level, run, neg) = quantize(diff, subsampled, extra);
                write_code(&mut w, run, neg);
                expect.push(Vlc::Level { level, extra });
                write_eoc(&mut w);
                expect.push(Vlc::Eoc);
            }
            let bytes = w.finish();
            let mut r = BitReader::new(&bytes);
            for (i, e) in expect.iter().enumerate() {
                let got = read_vlc(&mut r, subsampled);
                assert_eq!(got, VlcRead::Sym(*e), "symbol {i} (sub={subsampled} extra={extra})");
            }
        }
    }
}

/// The set of valid codes of a table is prefix-free: no string is a prefix
/// of another.
#[test]
fn prefix_freeness_exhaustive() {
    // All possible codes: positive k=1..8, negative m=0..8 (m=2 = EOC).
    let mut codes: Vec<String> = Vec::new();
    for k in 1..=8u8 {
        codes.push(code_str(k, false));
    }
    for m in 0..=8u8 {
        codes.push(code_str(m, true));
    }
    for (i, a) in codes.iter().enumerate() {
        for (j, b) in codes.iter().enumerate() {
            if i != j {
                assert!(!b.starts_with(a.as_str()), "{a} is a prefix of {b}");
            }
        }
    }
}
