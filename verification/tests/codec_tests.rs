use tokhost::codec::{decode_frame, encode_frame, u32_from_be_bytes, u32_to_be_bytes, DecodeOutcome};

#[test]
fn round_trip_empty_payload() {
    let payload: Vec<u8> = Vec::new();
    let frame = encode_frame(&payload).unwrap();
    assert_eq!(frame, vec![0u8, 0, 0, 0]);
    match decode_frame(&frame) {
        DecodeOutcome::Frame { payload: p, consumed } => {
            assert_eq!(p, Vec::<u8>::new());
            assert_eq!(consumed, 4);
        }
        DecodeOutcome::Incomplete => panic!("whole frame expected"),
    }
}

#[test]
fn round_trip_bytes() {
    let payload: Vec<u8> = b"hello".to_vec();
    let frame = encode_frame(&payload).unwrap();
    assert_eq!(frame, vec![0u8, 0, 0, 5, b'h', b'e', b'l', b'l', b'o']);
    match decode_frame(&frame) {
        DecodeOutcome::Frame { payload: p, consumed } => {
            assert_eq!(p, payload);
            assert_eq!(consumed, 9);
        }
        DecodeOutcome::Incomplete => panic!("whole frame expected"),
    }
}

#[test]
fn prefix_is_big_endian() {
    let bytes = u32_to_be_bytes(0x0102_0304);
    assert_eq!(bytes, vec![1u8, 2, 3, 4]);
    assert_eq!(u32_from_be_bytes(&bytes), 0x0102_0304);
    let max = u32_to_be_bytes(u32::MAX);
    assert_eq!(max, vec![255u8, 255, 255, 255]);
    assert_eq!(u32_from_be_bytes(&max), u32::MAX);
}

#[test]
fn decode_needs_whole_prefix() {
    let buf: Vec<u8> = vec![0, 0, 0];
    assert!(matches!(decode_frame(&buf), DecodeOutcome::Incomplete));
}

#[test]
fn decode_needs_whole_payload() {
    let buf: Vec<u8> = vec![0, 0, 0, 5, 1, 2];
    assert!(matches!(decode_frame(&buf), DecodeOutcome::Incomplete));
}

#[test]
fn decode_leaves_trailing_bytes() {
    let mut buf = encode_frame(&vec![9u8, 8]).unwrap();
    buf.push(0xAA);
    buf.push(0xBB);
    match decode_frame(&buf) {
        DecodeOutcome::Frame { payload, consumed } => {
            assert_eq!(payload, vec![9u8, 8]);
            assert_eq!(consumed, 6);
        }
        DecodeOutcome::Incomplete => panic!("whole frame expected"),
    }
}

#[test]
fn stream_of_frames_decodes_in_order() {
    let m1: Vec<u8> = b"first".to_vec();
    let m2: Vec<u8> = b"second".to_vec();
    let m3: Vec<u8> = Vec::new();
    let mut wire = encode_frame(&m1).unwrap();
    wire.extend_from_slice(&encode_frame(&m2).unwrap());
    wire.extend_from_slice(&encode_frame(&m3).unwrap());

    let mut seen: Vec<Vec<u8>> = Vec::new();
    loop {
        match decode_frame(&wire) {
            DecodeOutcome::Frame { payload, consumed } => {
                seen.push(payload);
                wire.drain(..consumed);
            }
            DecodeOutcome::Incomplete => break,
        }
    }
    assert_eq!(seen, vec![m1, m2, m3]);
    assert!(wire.is_empty());
}
