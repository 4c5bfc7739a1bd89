use damf2joc::bits::{BitReader, BitWriter};
use damf2joc::crc::{crc16, crc32_bits, crc8_bits};

#[test]
fn variable_bits_roundtrip() {
    for &(v, n) in &[
        (0u32, 4),
        (15, 4),
        (16, 4),
        (271, 4),
        (272, 4),
        (407, 4),
        (4367, 4),
        (0, 8),
        (255, 8),
        (3, 2),
    ] {
        let mut w = BitWriter::new();
        w.write_var(v, n);
        let total = w.bit_len();
        let bytes = w.into_bytes();
        let mut r = BitReader::new(&bytes);
        let got = r.read_var(n, 4.max(8));
        assert_eq!(got, v, "var roundtrip n={n}");
        assert!(r.pos <= total + 7);
    }
}

#[test]
fn variable_bits_layout() {
    // 16 in groups of four: 0000 1 0000 0.
    let mut w = BitWriter::new();
    w.write_var(16, 4);
    assert_eq!(w.snapshot(), (vec![0b0000_1000, 0b0000_0000], 10));
    // 272 needs three groups: 0000 1 0000 1 0000 0.
    let mut w = BitWriter::new();
    w.write_var(272, 4);
    assert_eq!(w.snapshot(), (vec![0b0000_1000, 0b0100_0000], 15));
}

#[test]
fn writing_and_reading() {
    let mut w = BitWriter::with_capacity(4);
    w.bit(1);
    w.write(0b0110, 4);
    w.copy_bits_from(&[0xF0, 0x0F], 4, 8);
    w.copy_bits(&[0xA0], 3);
    w.zero_bits(2);
    assert_eq!(w.bits_written(), 18);
    let bytes = w.into_bytes();
    assert_eq!(bytes, vec![0b1011_0000, 0b0000_0101, 0b0000_0000]);
    let mut r = BitReader::at(&bytes, 1);
    assert!(!r.read_bit());
    assert_eq!(r.read(3), 0b110);
    r.seek(20);
    assert_eq!(r.read(32), 0); // past the end
    assert_eq!(r.pos, 52);
}

#[test]
fn whole_bytes_finish() {
    let mut w = BitWriter::new();
    w.write(0xABCD, 16);
    assert_eq!(w.finish(), vec![0xAB, 0xCD]);
}

#[test]
fn check_values() {
    assert_eq!(crc16(b"123456789"), 0xFEE8);
    assert_eq!(crc32_bits(b"123456789", 72), 0x89A1_897F);
    assert_eq!(crc8_bits(b"123456789", 72), 0x3E);
    assert_eq!(crc32_bits(b"123456789", 13), 0x6773_44F4);
    assert_eq!(crc8_bits(b"123456789", 13), 0xB9);
}

#[test]
fn check_word_makes_the_check_zero() {
    let mut d = b"some frame body".to_vec();
    let c = crc16(&d);
    d.push((c >> 8) as u8);
    d.push((c & 0xFF) as u8);
    assert_eq!(crc16(&d), 0);
}
