use sdrtool::sample_codec::{decode_iq_s16, encode_i16_le, pair_iq_u8, tuner_frequency_command};

#[test]
fn encode_is_little_endian_twos_complement() {
    assert_eq!(encode_i16_le(&[-1, 258, 0, i16::MIN, i16::MAX]), vec![
        0xff, 0xff, 2, 1, 0, 0, 0x00, 0x80, 0xff, 0x7f
    ]);
    assert!(encode_i16_le(&[]).is_empty());
}

#[test]
fn decode_reads_signed_pairs() {
    assert_eq!(decode_iq_s16(&[0xff, 0xff, 2, 1, 0x00, 0x80, 0xff, 0x7f]), vec![
        (-1, 258),
        (-32768, 32767)
    ]);
    assert!(decode_iq_s16(&[]).is_empty());
}

#[test]
fn encode_then_decode_gives_back_the_samples() {
    let samples: Vec<i16> = vec![0, 1, -1, 1000, -1000, i16::MIN, i16::MAX, 12345];
    let pairs = decode_iq_s16(&encode_i16_le(&samples));
    let expected: Vec<(i32, i32)> = samples
        .chunks(2)
        .map(|c| (c[0] as i32, c[1] as i32))
        .collect();
    assert_eq!(pairs, expected);
}

#[test]
fn pairs_of_unsigned_bytes() {
    assert_eq!(pair_iq_u8(&[1, 2, 3, 4]), vec![(1, 2), (3, 4)]);
    assert!(pair_iq_u8(&[]).is_empty());
}

#[test]
fn tuner_command_is_big_endian_after_opcode() {
    assert_eq!(tuner_frequency_command(103_600_000), vec![0x01, 6, 44, 207, 128]);
    assert_eq!(tuner_frequency_command(0), vec![0x01, 0, 0, 0, 0]);
    assert_eq!(tuner_frequency_command(u32::MAX), vec![0x01, 0xff, 0xff, 0xff, 0xff]);
}
