use matrix_service::wire::{encode_frame, i32_from_be, i32_to_be, push_word_be, u32_from_be, u32_to_be};

#[test]
fn u32_big_endian_value() {
    assert_eq!(u32_from_be(0x12, 0x34, 0x56, 0x78), 0x1234_5678);
    assert_eq!(u32_from_be(0, 0, 0, 0), 0);
    assert_eq!(u32_from_be(0xFF, 0xFF, 0xFF, 0xFF), u32::MAX);
}

#[test]
fn i32_big_endian_negative() {
    assert_eq!(i32_from_be(0xFF, 0xFF, 0xFF, 0xFE), -2);
    assert_eq!(i32_from_be(0x80, 0, 0, 0), i32::MIN);
    assert_eq!(i32_from_be(0x7F, 0xFF, 0xFF, 0xFF), i32::MAX);
}

#[test]
fn u32_round_trip() {
    for v in [0u32, 1, 255, 256, 0xDEAD_BEEF, u32::MAX] {
        let (b0, b1, b2, b3) = u32_to_be(v);
        assert_eq!([b0, b1, b2, b3], v.to_be_bytes());
        assert_eq!(u32_from_be(b0, b1, b2, b3), v);
    }
}

#[test]
fn i32_round_trip() {
    for v in [0i32, 1, -1, 19, -19, i32::MAX, i32::MIN] {
        let (b0, b1, b2, b3) = i32_to_be(v);
        assert_eq!([b0, b1, b2, b3], v.to_be_bytes());
        assert_eq!(i32_from_be(b0, b1, b2, b3), v);
    }
}

#[test]
fn push_word_appends_big_endian_bytes() {
    let mut out = vec![0xAA];
    push_word_be(&mut out, -2);
    assert_eq!(out, vec![0xAA, 0xFF, 0xFF, 0xFF, 0xFE]);
}

#[test]
fn frame_is_length_prefixed() {
    let payload = vec![1u8, 2, 3];
    assert_eq!(encode_frame(&payload), vec![0, 0, 0, 3, 1, 2, 3]);
    let empty: Vec<u8> = Vec::new();
    assert_eq!(encode_frame(&empty), vec![0, 0, 0, 0]);
}
