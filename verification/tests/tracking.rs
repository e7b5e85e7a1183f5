use gzdec::{DecodeError, TrackingWriter};

#[test]
fn write_tracks_count_and_crc() {
    let mut writer = TrackingWriter::new();

    assert_eq!(writer.write(&[1, 2, 3, 4]), 4);
    assert_eq!(writer.byte_count(), 4);

    assert_eq!(writer.write(&[4, 8, 15, 16, 23]), 5);
    assert_eq!(writer.byte_count(), 9);

    assert_eq!(writer.crc32(), 0xeb57019f);
    let reference = crc::Crc::<u32>::new(&crc::CRC_32_ISO_HDLC)
        .checksum(&[1, 2, 3, 4, 4, 8, 15, 16, 23]);
    assert_eq!(writer.crc32(), reference);
}

#[test]
fn write_previous_copies_cyclically() {
    let mut writer = TrackingWriter::new();
    let mut data: Vec<u8> = Vec::new();
    for i in 0..=255u32 {
        data.push(i as u8);
    }
    writer.write(&data);

    writer.write_previous(192, 128).unwrap();
    assert_eq!(writer.byte_count(), 384);

    assert_eq!(writer.write_previous(10000, 20).unwrap_err(), DecodeError::InvalidDistance);
    assert_eq!(writer.byte_count(), 384);

    writer.write_previous(256, 256).unwrap();
    assert_eq!(writer.byte_count(), 640);

    writer.write_previous(1, 1).unwrap();
    assert_eq!(writer.byte_count(), 641);
}

#[test]
fn write_previous_distance_one_repeats_last_byte() {
    let mut writer = TrackingWriter::new();
    writer.write(&[7, 9]);
    writer.write_previous(1, 5).unwrap();
    let out = writer.into_output();
    assert_eq!(out, vec![7, 9, 9, 9, 9, 9, 9]);
}

#[test]
fn write_previous_short_distance_repeats_pattern() {
    let mut writer = TrackingWriter::new();
    writer.write(&[1, 2, 3]);
    writer.write_previous(2, 5).unwrap();
    let out = writer.into_output();
    assert_eq!(out, vec![1, 2, 3, 2, 3, 2, 3, 2]);
}

#[test]
fn write_previous_rejects_zero_and_overlong_distance() {
    let mut writer = TrackingWriter::new();
    writer.write(&[1, 2, 3]);
    assert_eq!(writer.write_previous(0, 1).unwrap_err(), DecodeError::InvalidDistance);
    assert_eq!(writer.write_previous(4, 1).unwrap_err(), DecodeError::InvalidDistance);
    writer.write_previous(3, 3).unwrap();
    assert_eq!(writer.byte_count(), 6);
}

#[test]
fn reset_starts_a_fresh_member() {
    let mut writer = TrackingWriter::new();
    writer.write(&[b'h', b'i']);
    writer.reset();
    assert_eq!(writer.byte_count(), 0);
    writer.write(b"hello");
    assert_eq!(writer.byte_count(), 5);
    assert_eq!(writer.crc32(), 0x3610a686);
    assert_eq!(writer.write_previous(6, 1).unwrap_err(), DecodeError::InvalidDistance);
    let out = writer.into_output();
    assert_eq!(out, b"hihello".to_vec());
}

#[test]
fn crc32_of_empty_member_is_zero() {
    let writer = TrackingWriter::new();
    assert_eq!(writer.crc32(), 0);
    assert_eq!(writer.byte_count(), 0);
}
