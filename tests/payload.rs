use mping::payload::{decode_timestamp, encode_timestamp, pattern_for, Pattern, Patterns};

fn patterns() -> Patterns {
    Patterns { random: (0..48u8).map(|b| b.wrapping_mul(31).wrapping_add(3)).collect() }
}

#[test]
fn pattern_by_sequence() {
    assert_eq!(pattern_for(0), Pattern::Random);
    assert_eq!(pattern_for(1), Pattern::Zero);
    assert_eq!(pattern_for(2), Pattern::One);
    assert_eq!(pattern_for(3), Pattern::Marker);
    assert_eq!(pattern_for(7), Pattern::Marker);
    assert_eq!(pattern_for(65535), Pattern::Marker);
    assert_eq!(pattern_for(65532), Pattern::Random);
}

#[test]
fn timestamp_bytes_are_big_endian() {
    let ts: u128 = 0x0102_0304_0506_0708_090A_0B0C_0D0E_0F10;
    assert_eq!(encode_timestamp(ts), ts.to_be_bytes().to_vec());
    assert_eq!(decode_timestamp(&ts.to_be_bytes()), ts);
    assert_eq!(decode_timestamp(&encode_timestamp(u128::MAX)), u128::MAX);
    assert_eq!(decode_timestamp(&encode_timestamp(0)), 0);
}

#[test]
fn payload_holds_timestamp_then_pattern() {
    let p = patterns();
    let ts: u128 = 1_700_000_000_123_456_789;
    for seq in 0..8u16 {
        let body = p.payload(seq, ts);
        assert_eq!(body.len(), 48);
        assert_eq!(&body[..16], &ts.to_be_bytes());
        let expected: Vec<u8> = match seq % 4 {
            0 => p.random[16..].to_vec(),
            1 => vec![0; 32],
            2 => vec![1; 32],
            _ => vec![0x5A; 32],
        };
        assert_eq!(&body[16..], &expected[..]);
        assert_eq!(decode_timestamp(&body), ts);
    }
}

#[test]
fn intact_payload_is_not_corrupted() {
    let p = patterns();
    for seq in 0..4u16 {
        let body = p.payload(seq, 99);
        assert!(!p.is_corrupted(seq, &body));
    }
}

#[test]
fn flipped_marker_byte_is_detected() {
    let p = patterns();
    let seq = 11u16;
    let mut body = p.payload(seq, 5);
    assert_eq!(body[20], 0x5A);
    body[20] ^= 0x01;
    assert!(p.is_corrupted(seq, &body));
}

#[test]
fn changed_timestamp_is_not_corruption() {
    let p = patterns();
    let mut body = p.payload(3, 5);
    body[0] = 0xFF;
    assert!(!p.is_corrupted(3, &body));
}

#[test]
fn wrong_length_or_pattern_is_corrupted() {
    let p = patterns();
    let body = p.payload(2, 5);
    assert!(p.is_corrupted(2, &body[..40]));
    assert!(p.is_corrupted(1, &body));
}

#[test]
fn random_patterns_have_requested_length() {
    let p = Patterns::new(64);
    assert_eq!(p.random.len(), 64);
    let q = Patterns::new(16);
    assert_eq!(q.random.len(), 16);
}
