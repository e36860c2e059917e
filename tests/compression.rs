use kafka_protocol::compression::snappy::Snappy;
use kafka_protocol::protocol::DecodeError;

#[test]
fn snappy_round_trips_across_blocks() {
    let data: Vec<u8> = (0..100_000u32).map(|i| (i % 251) as u8).collect();
    let framed = Snappy::compress(&data).unwrap();
    assert_eq!(&framed[..16], &[130, 83, 78, 65, 80, 80, 89, 0, 0, 0, 0, 1, 0, 0, 0, 1]);
    assert!(Snappy::is_framed(&framed));
    assert_eq!(Snappy::decompress(&framed).unwrap(), data);
}

#[test]
fn snappy_empty_input_is_just_the_header() {
    let framed = Snappy::compress(&[]).unwrap();
    assert_eq!(framed.len(), 16);
    assert_eq!(Snappy::decompress(&framed).unwrap(), Vec::<u8>::new());
}

#[test]
fn snappy_frame_longer_than_the_input_is_an_error() {
    let mut framed = Snappy::compress(b"hello").unwrap();
    framed[19] = framed[19].wrapping_add(10);
    assert_eq!(Snappy::decompress(&framed), Err(DecodeError));
}

#[test]
fn snappy_unframed_input_is_one_raw_block() {
    let raw = snap::raw::Encoder::new().compress_vec(b"abcabcabc").unwrap();
    assert!(!Snappy::is_framed(&raw));
    assert_eq!(Snappy::decompress(&raw).unwrap(), b"abcabcabc".to_vec());
}

#[test]
fn snappy_malformed_block_is_an_error() {
    let mut framed = vec![130, 83, 78, 65, 80, 80, 89, 0, 0, 0, 0, 1, 0, 0, 0, 1];
    framed.extend_from_slice(&[0, 0, 0, 1, 0xff]);
    assert_eq!(Snappy::decompress(&framed), Err(DecodeError));
    assert_eq!(Snappy::decompress(&[0xff]), Err(DecodeError));
}
