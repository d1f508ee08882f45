use h120::codec::bitio::{BitReader, BitWriter};

#[test]
fn roundtrip_bits() {
    let mut w = BitWriter::new();
    w.put_bits(0b1011, 4);
    w.put_bits(0x00, 8);
    w.put_bits(0b1, 1);
    w.put_bits(0x2A3, 10);
    assert_eq!(w.bit_len(), 23);
    let bytes = w.finish();
    let mut r = BitReader::new(&bytes);
    assert_eq!(r.read_bits(4), Some(0b1011));
    assert_eq!(r.read_bits(8), Some(0));
    assert_eq!(r.read_bits(1), Some(1));
    assert_eq!(r.read_bits(10), Some(0x2A3));
    // Padding: one bit left, at zero.
    assert_eq!(r.read_bits(1), Some(0));
    assert_eq!(r.read_bit(), None);
}

#[test]
fn peek_does_not_consume() {
    let bytes = [0b1010_0101, 0xFF];
    let mut r = BitReader::new(&bytes);
    assert_eq!(r.peek_bits(8), Some(0b1010_0101));
    assert_eq!(r.peek_bits(16), Some(0b1010_0101_1111_1111));
    assert_eq!(r.read_bits(8), Some(0b1010_0101));
    assert_eq!(r.bit_pos(), 8);
}
