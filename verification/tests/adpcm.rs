use mksfx::adpcm::{
    check_wav_format, clamp_i16, decode_block_int, decode_samples, detect_loop, loop_start,
    WavFormatError,
};

fn block_a() -> Vec<u8> {
    vec![0x0C, 0x00, 0x71, 0x80, 0x0F, 0xF0, 0x12, 0x34, 0x56, 0x78, 0x9A, 0xBC, 0xDE, 0xF0, 0x00, 0x7F]
}

fn block_b() -> Vec<u8> {
    let mut b = vec![0x42, 0x02];
    b.extend(std::iter::repeat(0x77).take(14));
    b
}

#[test]
fn clamp_saturates() {
    assert_eq!(clamp_i16(40000), 32767);
    assert_eq!(clamp_i16(-40000), -32768);
    assert_eq!(clamp_i16(32767), 32767);
    assert_eq!(clamp_i16(-32768), -32768);
    assert_eq!(clamp_i16(-5), -5);
}

#[test]
fn block_without_prediction() {
    let (s, h) = decode_block_int(&block_a(), (0, 0));
    assert_eq!(
        s,
        vec![1, 7, 0, -8, -1, 0, 0, -1, 2, 1, 4, 3, 6, 5, -8, 7, -6, -7, -4, -5, -2, -3, 0, -1, 0, 0, -1, 7]
    );
    assert_eq!(h, (7, -1));
}

#[test]
fn block_with_filter_two() {
    let b = vec![0x2A, 0x00, 0x1F, 0xE2, 0x3D, 0xC4, 0x5B, 0xA6, 0x79, 0x88, 0x97, 0x6A, 0xB5, 0x4C, 0xD3, 0x2E];
    let (s, h) = decode_block_int(&b, (-300, 250));
    assert_eq!(
        s,
        vec![
            -746, -1093, -1350, -1546, -1693, -1774, -1796, -1802, -1799, -1748, -1655, -1578, -1519,
            -1419, -1348, -1301, -1214, -1152, -1108, -1031, -932, -857, -799, -723, -638, -571, -516,
            -455
        ]
    );
    assert_eq!(h, (-455, -516));
}

#[test]
fn scaled_nibbles_round_down() {
    let b = vec![0x0D, 0x00, 0xF8, 0x07, 0x1F, 0, 0, 0, 0, 0, 0, 0, 0, 0, 0, 0];
    let (s, h) = decode_block_int(&b, (0, 0));
    assert_eq!(&s[..5], &[-4, -1, 3, 0, -1]);
    assert!(s[5..].iter().all(|&x| x == 0));
    assert_eq!(h, (0, 0));
}

#[test]
fn unknown_filter_acts_as_filter_zero() {
    let mut b = vec![0x5F, 0x00];
    b.extend(std::iter::repeat(0x10).take(14));
    let (s, h) = decode_block_int(&b, (5, 5));
    assert_eq!(s, vec![0i16; 28]);
    assert_eq!(h, (0, 0));
}

#[test]
fn saturating_prediction() {
    let (s, h) = decode_block_int(&block_b(), (1000, -2000));
    assert_eq!(s[0], 10949);
    assert_eq!(s[1], 27102);
    assert!(s[2..].iter().all(|&x| x == 32767));
    assert_eq!(h, (32767, 32767));
}

#[test]
fn short_block_decodes_to_nothing() {
    let (s, h) = decode_block_int(&[0u8; 15], (12, 34));
    assert!(s.is_empty());
    assert_eq!(h, (12, 34));
}

#[test]
fn stream_carries_history_between_blocks() {
    let mut data = block_a();
    data.extend(block_b());
    data.extend([1, 2, 3]);
    let s = decode_samples(&data);
    assert_eq!(s.len(), 56);
    let (first, h) = decode_block_int(&block_a(), (0, 0));
    let (second, _) = decode_block_int(&block_b(), h);
    assert_eq!(&s[..28], &first[..]);
    assert_eq!(&s[28..], &second[..]);
    assert_eq!(s[28], 7182);
    assert_eq!(s[29], 20852);
}

#[test]
fn empty_and_partial_streams() {
    assert!(decode_samples(&[]).is_empty());
    assert!(decode_samples(&[0u8; 15]).is_empty());
    assert_eq!(decode_samples(&[0u8; 32]).len(), 56);
}

#[test]
fn loop_flags() {
    assert!(!detect_loop(&[]));
    assert!(!detect_loop(&[0, 0]));
    assert!(detect_loop(&[0, 0x04]));
    assert!(detect_loop(&[0, 0x06, 0]));
    assert!(!detect_loop(&[0, 0x03]));
    let mut b = vec![0u8; 32];
    assert!(!detect_loop(&b));
    b[17] = 0x04;
    assert!(detect_loop(&b));
    b[17] = 0xFB;
    assert!(!detect_loop(&b));
}

#[test]
fn wav_format_checks() {
    assert_eq!(check_wav_format(1, 16), Ok(()));
    assert_eq!(check_wav_format(2, 16), Err(WavFormatError::NotMono));
    assert_eq!(check_wav_format(2, 8), Err(WavFormatError::NotMono));
    assert_eq!(check_wav_format(1, 8), Err(WavFormatError::Not16Bit));
    assert_eq!(WavFormatError::NotMono.message(), "WAV file must have only 1 track (mono).");
    assert_eq!(WavFormatError::Not16Bit.message(), "WAV file must be 16-bit.");
}

#[test]
fn loop_start_values() {
    assert_eq!(loop_start(true), 0);
    assert_eq!(loop_start(false), -1);
}
