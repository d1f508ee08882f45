//! What a malformed stream is answered, and how a well-formed one ends.

use h120::codec::bitio::BitWriter;
use h120::codec::decoder::{DecodeError, Decoder};
use h120::codec::{BLANKING, LINES_PER_FIELD, WIDTH};

/// A line start code.
fn lst(w: &mut BitWriter, s: bool, line_code: u32) {
    w.put_bits(0b0000_0000_0000_1000, 16);
    w.put_bit(s);
    w.put_bits(line_code, 3);
}

/// A field start code, with its central byte and the line code of its second
/// LST.
fn fst(w: &mut BitWriter, first_field: bool, s: bool) {
    w.put_bits(0b0000_0000_0000_1, 13);
    w.put_bits(0b000, 3);
    w.put_bit(first_field);
    w.put_bits(0b111, 3);
    w.put_bits(if first_field { 0x0F } else { 0x06 }, 8);
    lst(w, s, 0);
}

/// The lines behind the first line of a field, all empty.
fn empty_lines(w: &mut BitWriter, first_number: usize) {
    for l in 1..LINES_PER_FIELD {
        lst(w, false, ((first_number + l) % 8) as u32);
    }
}

/// A whole field of empty lines.
fn empty_field(w: &mut BitWriter, first_field: bool) {
    fst(w, first_field, false);
    empty_lines(w, if first_field { 0 } else { 144 });
}

/// The first error that a stream gives.
fn error_of(w: BitWriter) -> DecodeError {
    let data = w.finish();
    let mut dec = Decoder::new(&data);
    loop {
        match dec.next_frame() {
            Ok(Some(_)) => {}
            Ok(None) => panic!("no error"),
            Err(e) => return e,
        }
    }
}

#[test]
fn empty_fields_are_a_frame() {
    let mut w = BitWriter::new();
    empty_field(&mut w, true);
    empty_field(&mut w, false);
    let data = w.finish();
    let mut dec = Decoder::new(&data);
    let fields = dec.next_frame().unwrap().unwrap();
    assert!(fields.iter().all(|f| f.y.iter().all(|l| l.iter().all(|&v| v == BLANKING))));
    assert!(dec.next_frame().unwrap().is_none());
    assert_eq!(dec.stats.frames, 1);
    assert_eq!(dec.stats.fields_decoded, 2);
    assert_eq!(dec.stats.empty_lines, 286);
    assert_eq!(dec.stats.fields_omitted, 0);
}

#[test]
fn repeated_field_number_reveals_an_omitted_field() {
    let mut w = BitWriter::new();
    empty_field(&mut w, true);
    empty_field(&mut w, true);
    empty_field(&mut w, true);
    let data = w.finish();
    let mut dec = Decoder::new(&data);
    assert!(dec.next_frame().unwrap().is_some());
    assert!(dec.next_frame().unwrap().is_some());
    assert!(dec.next_frame().unwrap().is_none());
    assert_eq!(dec.stats.fields_omitted, 2);
    assert_eq!(dec.stats.fields_decoded, 3);
}

#[test]
fn decoding_starts_at_the_first_field_start_code() {
    let mut w = BitWriter::new();
    w.put_bits(0b1_0110_1110_1, 10);
    empty_field(&mut w, true);
    empty_field(&mut w, false);
    let data = w.finish();
    let mut dec = Decoder::new(&data);
    assert!(dec.next_frame().unwrap().is_some());
    assert!(dec.next_frame().unwrap().is_none());
}

#[test]
fn a_stream_without_start_code_is_empty() {
    let data = [0xABu8; 100];
    let mut dec = Decoder::new(&data);
    assert!(dec.next_frame().unwrap().is_none());
    let mut nothing = Decoder::new(&[]);
    assert!(nothing.next_frame().unwrap().is_none());
}

#[test]
fn fst_expected() {
    let mut w = BitWriter::new();
    empty_field(&mut w, true);
    let at = w.bit_len();
    w.put_bits(0xFFFF_FFFF, 32);
    w.put_bits(0xFFFF_FFFF, 32);
    // The last line is a PCM line by its first byte; its marker fits, but the
    // stream ends inside it.
    let data = w.finish();
    assert!(Decoder::new(&data).next_frame().unwrap().is_none());

    let mut w = BitWriter::new();
    empty_field(&mut w, true);
    w.put_bits(0, 13);
    w.put_bits(0xFFFF_FFFF, 32);
    w.put_bits(0xFFFF_FFFF, 32);
    assert_eq!(error_of(w), DecodeError::FstExpected { bit: at });
}

#[test]
fn fst_line_code() {
    let mut w = BitWriter::new();
    empty_field(&mut w, true);
    lst(&mut w, false, 3);
    w.put_bits(0xFFFF_FFFF, 32);
    assert_eq!(error_of(w), DecodeError::FstLineCode { found: 3 });
}

#[test]
fn fst_middle_byte() {
    let mut w = BitWriter::new();
    empty_field(&mut w, true);
    lst(&mut w, false, 7);
    w.put_bits(0x55, 8);
    lst(&mut w, false, 0);
    assert_eq!(error_of(w), DecodeError::FstMiddleByte { found: 0x55 });
}

#[test]
fn fst_second_lst() {
    let mut w = BitWriter::new();
    empty_field(&mut w, true);
    lst(&mut w, false, 7);
    w.put_bits(0x06, 8);
    w.put_bits(0xFFFF_FFFF, 32);
    assert_eq!(error_of(w), DecodeError::FstSecondLst);
}

#[test]
fn fst_second_line_code() {
    let mut w = BitWriter::new();
    empty_field(&mut w, true);
    lst(&mut w, false, 7);
    w.put_bits(0x06, 8);
    lst(&mut w, false, 2);
    assert_eq!(error_of(w), DecodeError::FstSecondLineCode);
}

#[test]
fn lst_missing() {
    let mut w = BitWriter::new();
    fst(&mut w, true, false);
    w.put_bits(0, 13);
    w.put_bits(0xFFFF, 16);
    assert_eq!(error_of(w), DecodeError::LstMissing { line: 1 });
}

#[test]
fn lst_unexpected() {
    let mut w = BitWriter::new();
    fst(&mut w, false, false);
    lst(&mut w, false, 5);
    w.put_bits(0xFFFF, 16);
    assert_eq!(
        error_of(w),
        DecodeError::LstUnexpected { line: 145, found: 5, expected: 1 }
    );
}

#[test]
fn luma_address() {
    let mut w = BitWriter::new();
    fst(&mut w, true, false);
    w.put_bits(100, 8);
    w.put_bits(255, 8);
    w.put_bits(0xFFFF, 16);
    assert_eq!(error_of(w), DecodeError::LumaAddress { addr: 255 });
}

#[test]
fn luma_overrun() {
    let mut w = BitWriter::new();
    fst(&mut w, true, false);
    w.put_bits(100, 8);
    w.put_bits(254, 8);
    w.put_bits(0b01, 2);
    w.put_bits(0xFFFF, 16);
    assert_eq!(error_of(w), DecodeError::LumaOverrun { position: 255 });
}

#[test]
fn luma_extra() {
    let mut w = BitWriter::new();
    fst(&mut w, true, true);
    w.put_bits(100, 8);
    w.put_bits(0, 8);
    w.put_bits(0b0001, 4);
    w.put_bits(0b0001, 4);
    w.put_bits(0xFFFF, 16);
    assert_eq!(error_of(w), DecodeError::LumaExtra { position: 1 });
}

#[test]
fn chroma_address() {
    for addr in [3, 55] {
        let mut w = BitWriter::new();
        fst(&mut w, true, false);
        w.put_bits(0x09, 8);
        w.put_bits(100, 8);
        w.put_bits(addr, 8);
        w.put_bits(0xFFFF, 16);
        assert_eq!(error_of(w), DecodeError::ChromaAddress { addr: addr as usize });
    }
}

#[test]
fn chroma_overrun() {
    let mut w = BitWriter::new();
    fst(&mut w, true, false);
    w.put_bits(0x09, 8);
    w.put_bits(100, 8);
    w.put_bits(54, 8);
    w.put_bits(0b01, 2);
    w.put_bits(0b01, 2);
    w.put_bits(0xFFFF, 16);
    assert_eq!(error_of(w), DecodeError::ChromaOverrun { position: 52 });
}

#[test]
fn chroma_extra() {
    let mut w = BitWriter::new();
    fst(&mut w, true, true);
    w.put_bits(0x09, 8);
    w.put_bits(100, 8);
    w.put_bits(4, 8);
    w.put_bits(0b0001, 4);
    w.put_bits(0b0001, 4);
    w.put_bits(0xFFFF, 16);
    assert_eq!(error_of(w), DecodeError::ChromaExtra { position: 1 });
}

#[test]
fn pcm_marker() {
    let mut w = BitWriter::new();
    fst(&mut w, true, false);
    w.put_bits(0xFF, 8);
    w.put_bits(0x7F, 8);
    assert_eq!(error_of(w), DecodeError::PcmMarker { found: 0x7F });
}

#[test]
fn invalid_code() {
    let mut w = BitWriter::new();
    fst(&mut w, true, false);
    w.put_bits(100, 8);
    w.put_bits(10, 8);
    w.put_bits(0b10_0000_0000_0001, 14);
    w.put_bits(0xFFFF, 16);
    assert_eq!(error_of(w), DecodeError::InvalidCode);
}

/// A cluster by hand: PCM 100 at element 10, then +3 and −4 of Table 1, each
/// added to (A + D)/2 with D at blanking level.
#[test]
fn luma_cluster_is_reconstructed() {
    let mut w = BitWriter::new();
    fst(&mut w, true, false);
    w.put_bits(100, 8);
    w.put_bits(10, 8);
    w.put_bits(0b01, 2);
    w.put_bits(0b11, 2);
    empty_lines(&mut w, 0);
    empty_field(&mut w, false);
    let data = w.finish();
    let mut dec = Decoder::new(&data);
    let fields = dec.next_frame().unwrap().unwrap();
    let line = &fields[0].y[0];
    assert_eq!(line[9], BLANKING);
    assert_eq!(line[10], 100);
    assert_eq!(line[11], (100 + 128) / 2 + 3);
    assert_eq!(line[12], (117 + 128) / 2 - 4);
    assert_eq!(line[13], BLANKING);
    assert_eq!(line[WIDTH - 1], BLANKING);
    assert!(fields[0].y_moving[0][10] && fields[0].y_moving[0][12]);
    assert!(!fields[0].y_moving[0][9] && !fields[0].y_moving[0][13]);
    assert_eq!(dec.stats.luma_clusters, 1);
    assert_eq!(dec.stats.moving_lines, 1);
}

/// The first bits of a field may already be wrong.
#[test]
fn addresses_behind_the_field_start_code() {
    for (bytes, error) in [
        (vec![0x80, 0xFF], DecodeError::LumaAddress { addr: 255 }),
        (vec![0x09, 0x80, 0x37], DecodeError::ChromaAddress { addr: 0x37 }),
        (vec![0x09, 0x80, 0x03], DecodeError::ChromaAddress { addr: 3 }),
    ] {
        let mut w = BitWriter::new();
        fst(&mut w, true, false);
        for b in bytes {
            w.put_bits(b, 8);
        }
        assert_eq!(error_of(w), error);
    }
}
