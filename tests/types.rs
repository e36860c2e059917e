use std::fmt::Debug;

use kafka_protocol::protocol::types::{
    Array, Bytes, CompactArray, CompactBytes, CompactString, Int32, Int8, StrBytes, String, Struct,
    UnsignedVarInt, UnsignedVarLong, Uuid as UuidCodec, VarInt, VarLong,
};
use kafka_protocol::protocol::{Codec, DecodeError, DeepView, EncodeError, Uuid};
use kafka_protocol::messages::list_offsets_request::ListOffsetsPartition;

fn test_encoder_decoder<V: PartialEq + Debug + DeepView, E: Codec<V>>(encoder: E, value: V, expected: &[u8]) {
    let mut buf = vec![];
    encoder.encode(&mut buf, &value).unwrap();
    assert_eq!(buf, expected);
    assert_eq!(encoder.compute_size(&value).unwrap(), expected.len());

    let (decoded, end) = encoder.decode(expected, 0).unwrap();
    assert_eq!(value, decoded);
    assert_eq!(end, expected.len());
}

#[test]
fn smoke_varint_encoder_decoder() {
    test_encoder_decoder(VarInt, 0, &[0]);
    test_encoder_decoder(VarInt, -1, &[1]);
    test_encoder_decoder(VarInt, 1, &[2]);
    test_encoder_decoder(VarInt, -2, &[3]);
    test_encoder_decoder(VarInt, 300, &[216, 4]);
    test_encoder_decoder(VarInt, i32::MAX, &[254, 255, 255, 255, 15]);
    test_encoder_decoder(VarInt, i32::MIN, &[255, 255, 255, 255, 15]);
}

#[test]
fn smoke_varlong_encoder_decoder() {
    test_encoder_decoder(VarLong, 0, &[0]);
    test_encoder_decoder(VarLong, -1, &[1]);
    test_encoder_decoder(VarLong, 1, &[2]);
    test_encoder_decoder(VarLong, -2, &[3]);
    test_encoder_decoder(VarLong, 300, &[216, 4]);
    test_encoder_decoder(
        VarLong,
        std::i64::MAX,
        &[254, 255, 255, 255, 255, 255, 255, 255, 255, 1],
    );
    test_encoder_decoder(
        VarLong,
        std::i64::MIN,
        &[255, 255, 255, 255, 255, 255, 255, 255, 255, 1],
    );
}

#[test]
fn smoke_string_encoder_decoder() {
    test_encoder_decoder(
        String,
        StrBytes::from_str("hello"),
        &[0, 5, 104, 101, 108, 108, 111],
    );
    test_encoder_decoder(String, None::<StrBytes>, &[255, 255]);
}

#[test]
fn smoke_compact_string_encoder_decoder() {
    test_encoder_decoder(
        CompactString,
        StrBytes::from_str("hello"),
        &[6, 104, 101, 108, 108, 111],
    );
    test_encoder_decoder(CompactString, None::<StrBytes>, &[0]);
}

#[test]
fn smoke_bytes_encoder_decoder() {
    test_encoder_decoder(Bytes, vec![1u8, 2, 3, 4], &[0, 0, 0, 4, 1, 2, 3, 4]);
    test_encoder_decoder(Bytes, None::<Vec<u8>>, &[255, 255, 255, 255]);
}

#[test]
fn smoke_compact_bytes_encoder_decoder() {
    test_encoder_decoder(CompactBytes, vec![1u8, 2, 3, 4], &[5, 1, 2, 3, 4]);
    test_encoder_decoder(CompactBytes, None::<Vec<u8>>, &[0]);
}

#[test]
fn unsigned_varint_group_boundaries() {
    test_encoder_decoder(UnsignedVarInt, 127u32, &[127]);
    test_encoder_decoder(UnsignedVarInt, 128u32, &[128, 1]);
    test_encoder_decoder(UnsignedVarInt, 16383u32, &[255, 127]);
    test_encoder_decoder(UnsignedVarInt, 16384u32, &[128, 128, 1]);
    test_encoder_decoder(UnsignedVarInt, u32::MAX, &[255, 255, 255, 255, 15]);
    test_encoder_decoder(UnsignedVarLong, u64::MAX, &[255, 255, 255, 255, 255, 255, 255, 255, 255, 1]);
}

#[test]
fn truncated_varint_is_a_decode_error() {
    let r: Result<(u32, usize), DecodeError> = UnsignedVarInt.decode(&[128, 128], 0);
    assert_eq!(r, Err(DecodeError));
}

#[test]
fn fixed_width_integers_are_big_endian() {
    test_encoder_decoder(Int32, 0x01020304i32, &[1, 2, 3, 4]);
    test_encoder_decoder(Int32, -1i32, &[255, 255, 255, 255]);
    test_encoder_decoder(Int8, -1i8, &[255]);
}

#[test]
fn uuid_is_sixteen_raw_bytes() {
    let id = Uuid(0x000102030405060708090a0b0c0d0e0f);
    test_encoder_decoder(
        UuidCodec,
        id,
        &[0, 1, 2, 3, 4, 5, 6, 7, 8, 9, 10, 11, 12, 13, 14, 15],
    );
}

#[test]
fn null_and_empty_strings_differ() {
    test_encoder_decoder(String, None::<StrBytes>, &[255, 255]);
    test_encoder_decoder(String, Some(StrBytes::from_str("")), &[0, 0]);
    test_encoder_decoder(CompactString, None::<StrBytes>, &[0]);
    test_encoder_decoder(CompactString, Some(StrBytes::from_str("")), &[1]);
}

#[test]
fn null_and_empty_bytes_and_arrays_differ() {
    test_encoder_decoder(Bytes, None::<Vec<u8>>, &[255, 255, 255, 255]);
    test_encoder_decoder(Bytes, Some(Vec::<u8>::new()), &[0, 0, 0, 0]);
    test_encoder_decoder(CompactBytes, Some(Vec::<u8>::new()), &[1]);
    test_encoder_decoder(Array(Int32), None::<Vec<i32>>, &[255, 255, 255, 255]);
    test_encoder_decoder(Array(Int32), Some(Vec::<i32>::new()), &[0, 0, 0, 0]);
    test_encoder_decoder(CompactArray(Int32), None::<Vec<i32>>, &[0]);
    test_encoder_decoder(CompactArray(Int32), Some(Vec::<i32>::new()), &[1]);
}

#[test]
fn arrays_of_integers() {
    test_encoder_decoder(Array(Int32), vec![1i32, 2], &[0, 0, 0, 2, 0, 0, 0, 1, 0, 0, 0, 2]);
    test_encoder_decoder(CompactArray(Int32), vec![7i32], &[2, 0, 0, 0, 7]);
}

#[test]
fn negative_lengths_are_decode_errors() {
    let r: Result<(Option<StrBytes>, usize), DecodeError> = String.decode(&[255, 254], 0);
    assert_eq!(r, Err(DecodeError));
    let r: Result<(Option<Vec<u8>>, usize), DecodeError> = Bytes.decode(&[255, 255, 255, 254], 0);
    assert_eq!(r, Err(DecodeError));
    let r: Result<(Option<Vec<i32>>, usize), DecodeError> =
        Array(Int32).decode(&[128, 0, 0, 0], 0);
    assert_eq!(r, Err(DecodeError));
}

#[test]
fn null_where_a_value_is_required_is_a_decode_error() {
    let r: Result<(StrBytes, usize), DecodeError> = String.decode(&[255, 255], 0);
    assert_eq!(r, Err(DecodeError));
    let r: Result<(Vec<u8>, usize), DecodeError> = CompactBytes.decode(&[0], 0);
    assert_eq!(r, Err(DecodeError));
}

#[test]
fn truncated_payload_is_a_decode_error() {
    let r: Result<(StrBytes, usize), DecodeError> = String.decode(&[0, 5, 104], 0);
    assert_eq!(r, Err(DecodeError));
    let r: Result<(Vec<u8>, usize), DecodeError> = CompactBytes.decode(&[5, 1, 2], 0);
    assert_eq!(r, Err(DecodeError));
}

#[test]
fn invalid_utf8_is_a_decode_error() {
    let r: Result<(StrBytes, usize), DecodeError> = String.decode(&[0, 1, 0xff], 0);
    assert_eq!(r, Err(DecodeError));
    let r: Result<(StrBytes, usize), DecodeError> = CompactString.decode(&[2, 0xc3], 0);
    assert_eq!(r, Err(DecodeError));
}

#[test]
fn classic_string_longer_than_i16_is_an_encode_error() {
    let long = "a".repeat(32768);
    let s = StrBytes::from_str(&long);
    let mut buf = vec![];
    assert_eq!(String.encode(&mut buf, &s), Err(EncodeError));
    assert_eq!(String.compute_size(&s), Err(EncodeError));
    let ok = StrBytes::from_str(&long[..32767]);
    let mut buf = vec![];
    assert!(String.encode(&mut buf, &ok).is_ok());
    assert_eq!(buf.len(), 32769);
    let mut buf = vec![];
    assert!(CompactString.encode(&mut buf, &s).is_ok());
    assert_eq!(buf.len(), 3 + 32768);
}

#[test]
fn decoding_starts_at_the_given_position() {
    let (v, end): (i32, usize) = VarInt.decode(&[9, 9, 216, 4], 2).unwrap();
    assert_eq!((v, end), (300, 4));
}

#[test]
fn nullable_struct_has_a_presence_byte() {
    let codec = Struct { version: 0 };
    let p = ListOffsetsPartition::default();
    let mut buf = vec![];
    codec.encode(&mut buf, &Some(p.clone())).unwrap();
    assert_eq!(buf[0], 1);
    let (back, end): (Option<ListOffsetsPartition>, usize) = codec.decode(&buf, 0).unwrap();
    assert_eq!(back, Some(p));
    assert_eq!(end, buf.len());
    test_encoder_decoder(Struct { version: 0 }, None::<ListOffsetsPartition>, &[255]);
}

#[test]
fn str_bytes_checks_utf8() {
    assert!(StrBytes::from_utf8(vec![104, 105]).is_some());
    assert!(StrBytes::from_utf8(vec![0xff]).is_none());
    assert_eq!(StrBytes::from_str("hi").as_bytes(), &[104, 105]);
}
