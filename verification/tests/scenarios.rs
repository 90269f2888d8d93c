use msgpacker::{Error, Packable, Unpackable, VecSource};

fn packed<T: Packable>(v: T) -> Vec<u8> {
    let mut buf: Vec<u8> = Vec::new();
    let n = v.pack(&mut buf);
    assert_eq!(n, buf.len());
    buf
}

#[test]
fn u32_300_encodes_to_three_bytes() {
    let bytes = packed(300u32);
    assert_eq!(bytes, vec![0xcd, 0x01, 0x2c]);
    assert_eq!(u32::unpack(&bytes), Ok((3, 300u32)));
}

#[test]
fn i8_minus_40_uses_int8() {
    let bytes = packed(-40i8);
    assert_eq!(bytes, vec![0xd0, 0xd8]);
    assert_eq!(i32::unpack(&bytes), Ok((2, -40i32)));
}

#[test]
fn i8_minus_10_is_a_negative_fixint() {
    let bytes = packed(-10i8);
    assert_eq!(bytes, vec![0xf6]);
    assert_eq!(i64::unpack(&bytes), Ok((1, -10i64)));
}

#[test]
fn u128_two_to_the_100_uses_the_bin8_frame() {
    let v: u128 = 1u128 << 100;
    let bytes = packed(v);
    let mut expected: Vec<u8> = vec![0xc4, 0x10];
    expected.extend_from_slice(&v.to_be_bytes());
    assert_eq!(bytes, expected);
    assert_eq!(u128::unpack(&bytes), Ok((18, v)));
    assert_eq!(u64::unpack(&bytes), Err(Error::UnexpectedFormatTag));
}

#[test]
fn fixarray_of_narrow_values_decodes_at_a_wider_width() {
    let bytes: Vec<u8> = vec![0x93, 0x01, 0x02, 0x03];
    let r: Result<(usize, Vec<u16>), Error> = msgpacker::unpack_array(&bytes);
    assert_eq!(r, Ok((4, vec![1u16, 2, 3])));
}

#[test]
fn bin8_with_a_length_other_than_16_is_rejected() {
    let bytes: Vec<u8> = vec![0xc4, 0x08, 0, 0, 0, 0, 0, 0, 0, 0];
    assert_eq!(u128::unpack(&bytes), Err(Error::UnexpectedBinLength));
    assert_eq!(i128::unpack(&bytes), Err(Error::UnexpectedBinLength));
    let mut src = VecSource::new(bytes);
    assert_eq!(u128::unpack_iter(&mut src), Err(Error::UnexpectedBinLength));
}

#[test]
fn unsigned_lengths_follow_the_ladder_table() {
    assert_eq!(packed(0u32).len(), 1);
    assert_eq!(packed(127u32).len(), 1);
    assert_eq!(packed(128u32).len(), 2);
    assert_eq!(packed(255u32).len(), 2);
    assert_eq!(packed(256u32).len(), 3);
    assert_eq!(packed(65535u32).len(), 3);
    assert_eq!(packed(65536u32).len(), 5);
    assert_eq!(packed(0xffff_ffffu64).len(), 5);
    assert_eq!(packed(0x1_0000_0000u64).len(), 9);
    assert_eq!(packed(u64::MAX as u128).len(), 9);
    assert_eq!(packed(u64::MAX as u128 + 1).len(), 18);
}

#[test]
fn signed_lengths_follow_the_ladder_table() {
    assert_eq!(packed(0i64).len(), 1);
    assert_eq!(packed(127i64).len(), 1);
    assert_eq!(packed(128i64).len(), 3);
    assert_eq!(packed(-1i64).len(), 1);
    assert_eq!(packed(-32i64).len(), 1);
    assert_eq!(packed(-33i64).len(), 2);
    assert_eq!(packed(-128i64).len(), 2);
    assert_eq!(packed(-129i64).len(), 3);
    assert_eq!(packed(32767i64).len(), 3);
    assert_eq!(packed(32768i64).len(), 5);
    assert_eq!(packed(-32768i64).len(), 3);
    assert_eq!(packed(-32769i64).len(), 5);
    assert_eq!(packed(i32::MAX as i64).len(), 5);
    assert_eq!(packed(i32::MAX as i64 + 1).len(), 9);
    assert_eq!(packed(i64::MIN as i128 - 1).len(), 18);
    assert_eq!(packed(i64::MAX as i128 + 1).len(), 18);
}

#[test]
fn zero_is_a_single_zero_byte_at_every_width() {
    assert_eq!(packed(0u8), vec![0x00]);
    assert_eq!(packed(0u16), vec![0x00]);
    assert_eq!(packed(0u32), vec![0x00]);
    assert_eq!(packed(0u64), vec![0x00]);
    assert_eq!(packed(0u128), vec![0x00]);
    assert_eq!(packed(0usize), vec![0x00]);
    assert_eq!(packed(0i8), vec![0x00]);
    assert_eq!(packed(0i16), vec![0x00]);
    assert_eq!(packed(0i32), vec![0x00]);
    assert_eq!(packed(0i64), vec![0x00]);
    assert_eq!(packed(0i128), vec![0x00]);
    assert_eq!(packed(0isize), vec![0x00]);
    assert_eq!(u8::unpack(&[0x00]), Ok((1, 0u8)));
    assert_eq!(i128::unpack(&[0x00]), Ok((1, 0i128)));
}

#[test]
fn round_trip_at_every_width() {
    for v in [0u8, 1, 127, 128, 200, 255] {
        assert_eq!(u8::unpack(&packed(v)), Ok((packed(v).len(), v)));
    }
    for v in [0u16, 127, 128, 255, 256, 65535] {
        assert_eq!(u16::unpack(&packed(v)), Ok((packed(v).len(), v)));
    }
    for v in [0u32, 300, 65535, 65536, u32::MAX] {
        assert_eq!(u32::unpack(&packed(v)), Ok((packed(v).len(), v)));
    }
    for v in [0u64, 1 << 20, u32::MAX as u64 + 1, u64::MAX] {
        assert_eq!(u64::unpack(&packed(v)), Ok((packed(v).len(), v)));
    }
    for v in [0u128, 1 << 90, u64::MAX as u128, u128::MAX] {
        assert_eq!(u128::unpack(&packed(v)), Ok((packed(v).len(), v)));
    }
    for v in [0usize, 4096, usize::MAX] {
        assert_eq!(usize::unpack(&packed(v)), Ok((packed(v).len(), v)));
    }
    for v in [i8::MIN, -33, -32, -1, 0i8, 1, i8::MAX] {
        assert_eq!(i8::unpack(&packed(v)), Ok((packed(v).len(), v)));
    }
    for v in [i16::MIN, -129, -40, 127, 128, i16::MAX] {
        assert_eq!(i16::unpack(&packed(v)), Ok((packed(v).len(), v)));
    }
    for v in [i32::MIN, -32769, 32768, i32::MAX] {
        assert_eq!(i32::unpack(&packed(v)), Ok((packed(v).len(), v)));
    }
    for v in [i64::MIN, i32::MIN as i64 - 1, i32::MAX as i64 + 1, i64::MAX] {
        assert_eq!(i64::unpack(&packed(v)), Ok((packed(v).len(), v)));
    }
    for v in [i128::MIN, i64::MIN as i128 - 1, i64::MAX as i128 + 1, i128::MAX, -7i128] {
        assert_eq!(i128::unpack(&packed(v)), Ok((packed(v).len(), v)));
    }
    for v in [isize::MIN, -1, 0isize, isize::MAX] {
        assert_eq!(isize::unpack(&packed(v)), Ok((packed(v).len(), v)));
    }
}

#[test]
fn narrow_frames_decode_at_wider_widths_of_the_same_signedness() {
    let bytes = packed(200u8);
    assert_eq!(u16::unpack(&bytes), Ok((2, 200u16)));
    assert_eq!(u32::unpack(&bytes), Ok((2, 200u32)));
    assert_eq!(u64::unpack(&bytes), Ok((2, 200u64)));
    assert_eq!(u128::unpack(&bytes), Ok((2, 200u128)));
    assert_eq!(usize::unpack(&bytes), Ok((2, 200usize)));
    let bytes = packed(-100i8);
    assert_eq!(i16::unpack(&bytes), Ok((2, -100i16)));
    assert_eq!(i32::unpack(&bytes), Ok((2, -100i32)));
    assert_eq!(i64::unpack(&bytes), Ok((2, -100i64)));
    assert_eq!(i128::unpack(&bytes), Ok((2, -100i128)));
    assert_eq!(isize::unpack(&bytes), Ok((2, -100isize)));
}

#[test]
fn wider_tags_are_rejected_even_when_the_value_would_fit() {
    // A UINT16 frame carrying 200: u8 refuses the tag outright.
    let bytes: Vec<u8> = vec![0xcd, 0x00, 0xc8];
    assert_eq!(u8::unpack(&bytes), Err(Error::UnexpectedFormatTag));
    assert_eq!(u16::unpack(&bytes), Ok((3, 200u16)));
    // A negative fixint is no unsigned tag.
    assert_eq!(u32::unpack(&[0xf6]), Err(Error::UnexpectedFormatTag));
    // An unsigned tag is no signed tag.
    assert_eq!(i32::unpack(&[0xcc, 0x07]), Err(Error::UnexpectedFormatTag));
}

#[test]
fn shorter_than_necessary_frames_are_accepted() {
    // 7 carried in a UINT16 frame: legal, three bytes consumed.
    let bytes: Vec<u8> = vec![0xcd, 0x00, 0x07];
    assert_eq!(u32::unpack(&bytes), Ok((3, 7u32)));
}

#[test]
fn truncated_input_reports_buffer_too_short() {
    assert_eq!(u8::unpack(&[]), Err(Error::BufferTooShort));
    assert_eq!(u32::unpack(&[0xcd]), Err(Error::BufferTooShort));
    assert_eq!(u32::unpack(&[0xce, 0x01, 0x02]), Err(Error::BufferTooShort));
    assert_eq!(u64::unpack(&[0xcf, 1, 2, 3, 4, 5, 6, 7]), Err(Error::BufferTooShort));
    assert_eq!(u128::unpack(&[0xc4]), Err(Error::BufferTooShort));
    assert_eq!(u128::unpack(&[0xc4, 0x10, 1, 2, 3]), Err(Error::BufferTooShort));
    assert_eq!(i16::unpack(&[0xd1, 0x12]), Err(Error::BufferTooShort));
}

#[test]
fn extra_bytes_after_the_frame_are_left_alone() {
    let mut bytes = packed(300u32);
    bytes.extend_from_slice(&[0xaa, 0xbb]);
    assert_eq!(u32::unpack(&bytes), Ok((3, 300u32)));
}

#[test]
fn usize_and_isize_match_the_64_bit_encodings() {
    assert_eq!(packed(70000usize), packed(70000u64));
    assert_eq!(packed(-70000isize), packed(-70000i64));
    assert_eq!(usize::unpack(&packed(70000u64)), Ok((5, 70000usize)));
    assert_eq!(isize::unpack(&packed(-70000i64)), Ok((5, -70000isize)));
}
