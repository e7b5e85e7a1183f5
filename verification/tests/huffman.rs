use gzdec::{
    BitReader, BitSequence, ByteReader, DecodeError, DistanceToken, HuffmanCoding, LitLenToken,
};

fn reader_over(data: Vec<u8>) -> BitReader {
    BitReader::new(ByteReader::new(data))
}

fn lit(v: u16) -> Option<LitLenToken> {
    Some(LitLenToken::Literal(v as u8))
}

#[test]
fn from_lengths() {
    let code = HuffmanCoding::<LitLenToken>::from_lengths(&[2, 3, 4, 3, 3, 4, 2]).unwrap();

    assert_eq!(code.decode_symbol(BitSequence::new(0b00, 2)), lit(0));
    assert_eq!(code.decode_symbol(BitSequence::new(0b100, 3)), lit(1));
    assert_eq!(code.decode_symbol(BitSequence::new(0b1110, 4)), lit(2));
    assert_eq!(code.decode_symbol(BitSequence::new(0b101, 3)), lit(3));
    assert_eq!(code.decode_symbol(BitSequence::new(0b110, 3)), lit(4));
    assert_eq!(code.decode_symbol(BitSequence::new(0b1111, 4)), lit(5));
    assert_eq!(code.decode_symbol(BitSequence::new(0b01, 2)), lit(6));

    assert_eq!(code.decode_symbol(BitSequence::new(0b0, 1)), None);
    assert_eq!(code.decode_symbol(BitSequence::new(0b10, 2)), None);
    assert_eq!(code.decode_symbol(BitSequence::new(0b111, 3)), None);
}

#[test]
fn read_symbol() {
    let code = HuffmanCoding::<LitLenToken>::from_lengths(&[2, 3, 4, 3, 3, 4, 2]).unwrap();
    let mut reader = reader_over(vec![0b10111001, 0b11001010, 0b11101101]);

    assert_eq!(code.read_symbol(&mut reader).unwrap(), LitLenToken::Literal(1));
    assert_eq!(code.read_symbol(&mut reader).unwrap(), LitLenToken::Literal(2));
    assert_eq!(code.read_symbol(&mut reader).unwrap(), LitLenToken::Literal(3));
    assert_eq!(code.read_symbol(&mut reader).unwrap(), LitLenToken::Literal(6));
    assert_eq!(code.read_symbol(&mut reader).unwrap(), LitLenToken::Literal(0));
    assert_eq!(code.read_symbol(&mut reader).unwrap(), LitLenToken::Literal(2));
    assert_eq!(code.read_symbol(&mut reader).unwrap(), LitLenToken::Literal(4));
    assert!(code.read_symbol(&mut reader).is_err());
}

#[test]
fn from_lengths_with_zeros() {
    let lengths = [3, 4, 5, 5, 0, 0, 6, 6, 4, 0, 6, 0, 7];
    let code = HuffmanCoding::<LitLenToken>::from_lengths(&lengths).unwrap();
    let mut reader = reader_over(vec![
        0b00100000, 0b00100001, 0b00010101, 0b10010101, 0b00110101, 0b00011101,
    ]);

    assert_eq!(code.read_symbol(&mut reader).unwrap(), LitLenToken::Literal(0));
    assert_eq!(code.read_symbol(&mut reader).unwrap(), LitLenToken::Literal(1));
    assert_eq!(code.read_symbol(&mut reader).unwrap(), LitLenToken::Literal(2));
    assert_eq!(code.read_symbol(&mut reader).unwrap(), LitLenToken::Literal(3));
    assert_eq!(code.read_symbol(&mut reader).unwrap(), LitLenToken::Literal(6));
    assert_eq!(code.read_symbol(&mut reader).unwrap(), LitLenToken::Literal(7));
    assert_eq!(code.read_symbol(&mut reader).unwrap(), LitLenToken::Literal(8));
    assert_eq!(code.read_symbol(&mut reader).unwrap(), LitLenToken::Literal(10));
    assert_eq!(code.read_symbol(&mut reader).unwrap(), LitLenToken::Literal(12));
    assert!(code.read_symbol(&mut reader).is_err());
}

#[test]
fn from_lengths_additional() {
    let lengths = [
        9, 10, 10, 8, 8, 8, 5, 6, 4, 5, 4, 5, 4, 5, 4, 4, 5, 4, 4, 5, 4, 5, 4, 5, 5, 5, 4, 6, 6,
    ];
    let code = HuffmanCoding::<LitLenToken>::from_lengths(&lengths).unwrap();
    let mut reader = reader_over(vec![
        0b11111000, 0b10111100, 0b01010001, 0b11111111, 0b00110101, 0b11111001, 0b11011111,
        0b11100001, 0b01110111, 0b10011111, 0b10111111, 0b00110100, 0b10111010, 0b11111111,
        0b11111101, 0b10010100, 0b11001110, 0b01000011, 0b11100111, 0b00000010,
    ]);

    let expected: Vec<u16> = vec![
        10, 7, 27, 22, 9, 0, 11, 15, 2, 20, 8, 4, 23, 24, 5, 26, 18, 12, 25, 1, 3, 6, 13, 14, 16,
        17, 19, 21,
    ];
    for want in expected {
        assert_eq!(code.read_symbol(&mut reader).unwrap(), LitLenToken::Literal(want as u8));
    }
}

#[test]
fn from_lengths_rejects_overlong_length() {
    let r = HuffmanCoding::<LitLenToken>::from_lengths(&[16, 1]);
    assert!(matches!(r, Err(DecodeError::InvalidHuffmanCode)));
}

#[test]
fn from_lengths_rejects_oversubscribed_code() {
    let r = HuffmanCoding::<LitLenToken>::from_lengths(&[1, 1, 1]);
    assert!(matches!(r, Err(DecodeError::InvalidHuffmanCode)));
}

#[test]
fn read_symbol_fails_cleanly_mid_code() {
    let code = HuffmanCoding::<LitLenToken>::from_lengths(&[2, 3, 4, 3, 3, 4, 2]).unwrap();
    let mut reader = reader_over(vec![]);
    assert_eq!(code.read_symbol(&mut reader).unwrap_err(), DecodeError::UnexpectedEof);
}

#[test]
fn distance_token_table() {
    let pairs: Vec<(u16, u16, u8)> = vec![
        (0, 1, 0),
        (1, 2, 0),
        (2, 3, 0),
        (3, 4, 0),
        (4, 5, 1),
        (9, 25, 3),
        (20, 1025, 9),
        (29, 24577, 13),
    ];
    for (w, base, extra) in pairs {
        let code = HuffmanCoding::<DistanceToken>::from_lengths(
            &word_singleton_lengths(w),
        )
        .unwrap();
        let tok = code.decode_symbol(BitSequence::new(0, 1)).unwrap();
        assert_eq!(tok.base, base);
        assert_eq!(tok.extra_bits, extra);
    }
}

fn word_singleton_lengths(w: u16) -> Vec<u8> {
    let mut lengths = vec![0u8; (w as usize) + 1];
    lengths[w as usize] = 1;
    lengths
}
