use listory::protocol::{decode_message, encode_message, read_length_prefix, FrameError};

#[test]
fn test_encode_decode() {
    // An empty message encodes to no bytes.
    let req: Vec<u8> = Vec::new();
    let encoded = encode_message(&req);

    // Check length prefix
    assert_eq!(encoded.len(), 4); // Just the length prefix for empty message

    let decoded = decode_message(&encoded).unwrap();
    assert_eq!(req.as_slice(), decoded);
}

#[test]
fn protocol_frame_layout() {
    let payload = vec![1u8, 2, 3, 4, 5];
    let framed = encode_message(&payload);
    assert_eq!(framed, vec![5, 0, 0, 0, 1, 2, 3, 4, 5]);
    assert_eq!(decode_message(&framed).unwrap(), &payload[..]);
    let big = vec![7u8; 0x1_0203];
    let framed = encode_message(&big);
    assert_eq!(&framed[..4], &[0x03, 0x02, 0x01, 0x00]);
    assert_eq!(read_length_prefix(&framed), Some(0x1_0203));
}

#[test]
fn protocol_decode_errors() {
    assert_eq!(decode_message(&[1, 0, 0]), Err(FrameError::TooShort));
    assert_eq!(
        decode_message(&[4, 0, 0, 0, 9, 9]),
        Err(FrameError::Incomplete { expected: 4, got: 2 })
    );
    // Bytes after the announced payload are ignored.
    assert_eq!(decode_message(&[1, 0, 0, 0, 9, 8]).unwrap(), &[9u8][..]);
}

#[test]
fn protocol_read_length_prefix() {
    assert_eq!(read_length_prefix(&[]), None);
    assert_eq!(read_length_prefix(&[1, 2, 3]), None);
    assert_eq!(read_length_prefix(&[0x78, 0x56, 0x34, 0x12, 0xff]), Some(0x12345678));
}
