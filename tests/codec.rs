use daemon_core::codec::{
    decode_bytes, decode_string, decode_u32, decode_varint, encode_bytes, encode_string,
    encode_varint, CodecError,
};
use daemon_core::message::{decode_message, encode_message, BaseMessage, MessageType};
use daemon_core::time::SystemTime;

fn varint_bytes(n: u64) -> Vec<u8> {
    let mut out = Vec::new();
    encode_varint(n, &mut out);
    out
}

#[test]
fn varint_single_byte_up_to_250() {
    assert_eq!(varint_bytes(0), vec![0]);
    assert_eq!(varint_bytes(7), vec![7]);
    assert_eq!(varint_bytes(250), vec![250]);
}

#[test]
fn varint_two_bytes_big_endian() {
    assert_eq!(varint_bytes(251), vec![251, 0, 251]);
    assert_eq!(varint_bytes(0x1234), vec![251, 0x12, 0x34]);
    assert_eq!(varint_bytes(0xffff), vec![251, 0xff, 0xff]);
}

#[test]
fn varint_four_and_eight_bytes() {
    assert_eq!(varint_bytes(0x1_0000), vec![252, 0, 1, 0, 0]);
    assert_eq!(varint_bytes(0xffff_ffff), vec![252, 0xff, 0xff, 0xff, 0xff]);
    assert_eq!(
        varint_bytes(0x1_0000_0000),
        vec![253, 0, 0, 0, 1, 0, 0, 0, 0]
    );
}

#[test]
fn varint_round_trip_at_edges() {
    for n in [0u64, 1, 250, 251, 0xffff, 0x1_0000, 0xffff_ffff, 0x1_0000_0000, u64::MAX] {
        let mut bytes = vec![9u8];
        encode_varint(n, &mut bytes);
        bytes.push(42);
        let (v, p) = decode_varint(&bytes, 1).unwrap();
        assert_eq!(v, n);
        assert_eq!(bytes[p], 42);
    }
}

#[test]
fn varint_errors() {
    assert_eq!(decode_varint(&[], 0), Err(CodecError::Truncated));
    assert_eq!(decode_varint(&[251, 1], 0), Err(CodecError::Truncated));
    assert_eq!(decode_varint(&[254, 0, 0], 0), Err(CodecError::InvalidTag));
    assert_eq!(decode_varint(&[255], 0), Err(CodecError::InvalidTag));
}

#[test]
fn u32_field_rejects_large_values() {
    let bytes = varint_bytes(0x1_0000_0000);
    assert_eq!(decode_u32(&bytes, 0), Err(CodecError::Overflow));
    let bytes = varint_bytes(0xffff_ffff);
    assert_eq!(decode_u32(&bytes, 0), Ok((0xffff_ffff, 5)));
}

#[test]
fn bytes_and_strings_round_trip() {
    let mut out = Vec::new();
    encode_bytes(&[1, 2, 3], &mut out);
    encode_string("héllo", &mut out);
    assert_eq!(out[..4], [3, 1, 2, 3]);
    let (b, p) = decode_bytes(&out, 0).unwrap();
    assert_eq!(b, vec![1, 2, 3]);
    let (s, q) = decode_string(&out, p).unwrap();
    assert_eq!(s, "héllo");
    assert_eq!(q, out.len());
}

#[test]
fn string_errors() {
    assert_eq!(decode_string(&[2, 0xff, 0xfe], 0), Err(CodecError::InvalidUtf8));
    assert_eq!(decode_string(&[5, b'a'], 0), Err(CodecError::Truncated));
}

#[test]
fn message_round_trip() {
    let m = BaseMessage {
        service: 1,
        object: 300,
        kind: MessageType::Event,
        content: vec![4, 5, 6],
    };
    let bytes = encode_message(&m);
    assert_eq!(bytes, vec![1, 251, 1, 44, 2, 3, 4, 5, 6]);
    let back = decode_message(&bytes).unwrap();
    assert_eq!(back.service, 1);
    assert_eq!(back.object, 300);
    assert_eq!(back.kind, MessageType::Event);
    assert_eq!(back.content, vec![4, 5, 6]);
}

#[test]
fn message_errors() {
    assert_eq!(decode_message(&[1, 0, 3, 0]).unwrap_err(), CodecError::InvalidTag);
    assert_eq!(decode_message(&[1, 0, 0, 2, 7]).unwrap_err(), CodecError::Truncated);
    assert_eq!(decode_message(&[1, 0, 0, 0, 9]).unwrap_err(), CodecError::TrailingBytes);
    assert_eq!(decode_message(&[]).unwrap_err(), CodecError::Truncated);
}

#[test]
fn system_time_as_millis() {
    let t = SystemTime::from_millis(1_600_000_000_000);
    let mut out = Vec::new();
    t.encode(&mut out);
    assert_eq!(out[0], 253);
    let (back, p) = SystemTime::decode(&out, 0).unwrap();
    assert_eq!(back.as_millis(), 1_600_000_000_000);
    assert_eq!(p, 9);
}
