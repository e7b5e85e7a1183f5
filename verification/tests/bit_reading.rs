use gzdec::{BitReader, BitSequence, ByteReader, DecodeError};

fn reader_over(data: Vec<u8>) -> BitReader {
    BitReader::new(ByteReader::new(data))
}

#[test]
fn read_bits() {
    let data: Vec<u8> = vec![0b01100011, 0b11011011, 0b10101111];
    let mut reader = reader_over(data);
    assert_eq!(reader.read_bits(1).unwrap(), BitSequence::new(0b1, 1));
    assert_eq!(reader.read_bits(2).unwrap(), BitSequence::new(0b01, 2));
    assert_eq!(reader.read_bits(3).unwrap(), BitSequence::new(0b100, 3));
    assert_eq!(reader.read_bits(4).unwrap(), BitSequence::new(0b1101, 4));
    assert_eq!(reader.read_bits(5).unwrap(), BitSequence::new(0b10110, 5));
    assert_eq!(reader.read_bits(8).unwrap(), BitSequence::new(0b01011111, 8));
    assert_eq!(reader.read_bits(2).unwrap_err(), DecodeError::UnexpectedEof);
}

#[test]
fn borrow_reader_from_boundary() {
    let data: Vec<u8> = vec![0b01100011, 0b11011011, 0b10101111];
    let mut reader = reader_over(data);
    assert_eq!(reader.read_bits(3).unwrap(), BitSequence::new(0b011, 3));
    assert_eq!(
        reader.borrow_reader_from_boundary().read_byte().unwrap(),
        0b11011011
    );
    assert_eq!(reader.read_bits(8).unwrap(), BitSequence::new(0b10101111, 8));
}

#[test]
fn bit_sequence_masks_high_bits() {
    let s = BitSequence::new(0b1111_0101, 4);
    assert_eq!(s.bits(), 0b0101);
    assert_eq!(s.len(), 4);
    let t = BitSequence::new(0xffff, 16);
    assert_eq!(t.bits(), 0xffff);
}

#[test]
fn concat_packs_low_then_high() {
    let low = BitSequence::new(0b01, 2);
    let high = BitSequence::new(0b110, 3);
    let joined = low.concat(high);
    assert_eq!(joined.len(), 5);
    assert_eq!(joined.bits(), 0b110_01);
}

#[test]
fn successive_reads_match_one_wide_read() {
    let data: Vec<u8> = vec![0xa5, 0x3c];
    let mut one = reader_over(data.clone());
    let whole = one.read_bits(11).unwrap().bits();
    let mut two = reader_over(data);
    let first = two.read_bits(4).unwrap().bits();
    let second = two.read_bits(7).unwrap().bits();
    assert_eq!(first as u32, (whole as u32) % 16);
    assert_eq!(second as u32, (whole as u32) / 16);
}

#[test]
fn read_bits_zero_is_empty() {
    let mut reader = reader_over(vec![0xff]);
    let s = reader.read_bits(0).unwrap();
    assert_eq!(s.len(), 0);
    assert_eq!(s.bits(), 0);
    assert_eq!(reader.read_bits(8).unwrap().bits(), 0xff);
}
