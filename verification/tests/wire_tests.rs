use stitch::error::StitchError;
use stitch::wire::{
    decode_response, decode_single_request, encode_batch_request, encode_composite_request,
    encode_single_request, read_string, write_string, write_i64_be, CompositeRequest,
};

#[test]
fn single_request_roundtrip() {
    let path = b"/data/a1/image.tif".to_vec();
    let encoded = encode_single_request(&path).expect("path fits");
    assert_eq!(encoded[0], 0u8);
    let (op, decoded, sub) = decode_single_request(&encoded).expect("well-formed");
    assert_eq!(op, 0u8);
    assert_eq!(decoded, path);
    assert_eq!(sub, 0u8);
}

#[test]
fn single_request_layout() {
    let path = b"ab".to_vec();
    let encoded = encode_single_request(&path).expect("path fits");
    assert_eq!(encoded, vec![0u8, 2u8, b'a', b'b', 0u8]);
}

#[test]
fn single_request_path_too_long() {
    let path = vec![b'x'; 256];
    assert!(encode_single_request(&path).is_none());
}

#[test]
fn string_field_roundtrip() {
    let mut buf: Vec<u8> = vec![9u8];
    let value = b"geocode12".to_vec();
    write_string(&value, &mut buf);
    assert_eq!(buf, vec![9u8, 9u8, b'g', b'e', b'o', b'c', b'o', b'd', b'e', b'1', b'2']);
    let (read, next) = read_string(&buf, 1).expect("field present");
    assert_eq!(read, value);
    assert_eq!(next, buf.len());
}

#[test]
fn string_field_truncated() {
    let buf: Vec<u8> = vec![5u8, b'a', b'b'];
    match read_string(&buf, 0) {
        Err(StitchError::ProtocolViolation) => {}
        _ => panic!("truncated field must be a protocol violation"),
    }
}

#[test]
fn response_success_payload() {
    let buf: Vec<u8> = vec![0u8, 1, 2, 3, 4];
    let payload = decode_response(&buf).expect("success status");
    assert_eq!(payload, vec![1, 2, 3, 4]);
}

#[test]
fn response_remote_error_message() {
    let mut buf: Vec<u8> = vec![1u8];
    let message = b"node on fire".to_vec();
    buf.push(message.len() as u8);
    buf.extend_from_slice(&message);
    match decode_response(&buf) {
        Err(StitchError::RemoteError(m)) => assert_eq!(m, message),
        _ => panic!("non-zero status must surface the remote message"),
    }
}

#[test]
fn response_empty_is_violation() {
    let buf: Vec<u8> = Vec::new();
    match decode_response(&buf) {
        Err(StitchError::ProtocolViolation) => {}
        _ => panic!("an empty response is a protocol violation"),
    }
}

#[test]
fn response_truncated_error_is_violation() {
    let buf: Vec<u8> = vec![1u8, 200u8, b'x'];
    match decode_response(&buf) {
        Err(StitchError::ProtocolViolation) => {}
        _ => panic!("a truncated error message is a protocol violation"),
    }
}

#[test]
fn i64_big_endian_bytes() {
    let mut buf: Vec<u8> = Vec::new();
    write_i64_be(&mut buf, 1);
    assert_eq!(buf, vec![0, 0, 0, 0, 0, 0, 0, 1]);
    let mut buf2: Vec<u8> = Vec::new();
    write_i64_be(&mut buf2, -1);
    assert_eq!(buf2, vec![255, 255, 255, 255, 255, 255, 255, 255]);
    let mut buf3: Vec<u8> = Vec::new();
    write_i64_be(&mut buf3, 1577836800);
    assert_eq!(buf3, vec![0, 0, 0, 0, 0x5e, 0x0b, 0xe1, 0x00]);
}

#[test]
fn composite_request_layout() {
    let c = CompositeRequest {
        geocode: b"u0p0".to_vec(),
        timestamp: 2,
        primary_paths: vec![b"p1".to_vec(), b"p2".to_vec()],
        secondary_path: b"s".to_vec(),
    };
    let encoded = encode_composite_request(&c).expect("fields fit");
    let expected: Vec<u8> = vec![
        4, b'u', b'0', b'p', b'0', // geocode
        0, 0, 0, 0, 0, 0, 0, 2, // timestamp
        2, // primary count
        2, b'p', b'1', 2, b'p', b'2', // primary paths
        1, b's', // secondary path
    ];
    assert_eq!(encoded, expected);
}

#[test]
fn batch_request_prefixes_size() {
    let one = CompositeRequest {
        geocode: b"u0p0".to_vec(),
        timestamp: 1,
        primary_paths: vec![b"a".to_vec()],
        secondary_path: b"b".to_vec(),
    };
    let two = CompositeRequest {
        geocode: b"u0p1".to_vec(),
        timestamp: 2,
        primary_paths: vec![b"c".to_vec()],
        secondary_path: b"d".to_vec(),
    };
    let body_one = encode_composite_request(&one).expect("fields fit");
    let body_two = encode_composite_request(&two).expect("fields fit");
    let batch = encode_batch_request(&vec![one, two]).expect("batch fits");
    let mut expected: Vec<u8> = vec![2u8];
    expected.extend_from_slice(&body_one);
    expected.extend_from_slice(&body_two);
    assert_eq!(batch, expected);
}
