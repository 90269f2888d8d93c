use msgpacker::{ByteSource, Error, Packable, Unpackable, VecSource};

fn packed<T: Packable>(v: T) -> Vec<u8> {
    let mut buf: Vec<u8> = Vec::new();
    v.pack(&mut buf);
    buf
}

#[test]
fn both_modalities_agree_on_well_formed_frames() {
    let frames: Vec<Vec<u8>> = vec![
        packed(0u32),
        packed(300u32),
        packed(u32::MAX),
        packed(-40i32),
        packed(i64::MIN),
        packed(u128::MAX),
        packed(i128::MIN),
    ];
    for bytes in frames {
        let mut src = VecSource::new(bytes.clone());
        assert_eq!(u32::unpack(&bytes), u32::unpack_iter(&mut src));
        let mut src = VecSource::new(bytes.clone());
        assert_eq!(i64::unpack(&bytes), i64::unpack_iter(&mut src));
        let mut src = VecSource::new(bytes.clone());
        assert_eq!(u128::unpack(&bytes), u128::unpack_iter(&mut src));
        let mut src = VecSource::new(bytes.clone());
        assert_eq!(i128::unpack(&bytes), i128::unpack_iter(&mut src));
    }
}

#[test]
fn both_modalities_agree_on_malformed_input() {
    let inputs: Vec<Vec<u8>> = vec![
        vec![],
        vec![0xcd],
        vec![0xce, 0x01],
        vec![0xc4, 0x08, 0x00],
        vec![0xc4],
        vec![0xc1],
        vec![0xf6],
    ];
    for bytes in inputs {
        let mut src = VecSource::new(bytes.clone());
        assert_eq!(u32::unpack(&bytes), u32::unpack_iter(&mut src));
        let mut src = VecSource::new(bytes.clone());
        assert_eq!(u128::unpack(&bytes), u128::unpack_iter(&mut src));
        let mut src = VecSource::new(bytes.clone());
        assert_eq!(i8::unpack(&bytes), i8::unpack_iter(&mut src));
    }
}

#[test]
fn a_source_is_consumed_frame_by_frame() {
    let mut bytes = packed(300u32);
    bytes.extend_from_slice(&packed(-40i8));
    bytes.extend_from_slice(&packed(7u8));
    let mut src = VecSource::new(bytes);
    assert_eq!(u32::unpack_iter(&mut src), Ok((3, 300u32)));
    assert_eq!(i8::unpack_iter(&mut src), Ok((2, -40i8)));
    assert_eq!(u8::unpack_iter(&mut src), Ok((1, 7u8)));
    assert_eq!(u8::unpack_iter(&mut src), Err(Error::BufferTooShort));
}

#[test]
fn next_byte_yields_the_bytes_in_order_once() {
    let mut src = VecSource::new(vec![1, 2]);
    assert_eq!(src.next_byte(), Some(1));
    assert_eq!(src.next_byte(), Some(2));
    assert_eq!(src.next_byte(), None);
    assert_eq!(src.next_byte(), None);
}

#[test]
fn iter_decoding_follows_the_same_ladder() {
    let mut src = VecSource::new(packed(u64::MAX));
    assert_eq!(u64::unpack_iter(&mut src), Ok((9, u64::MAX)));
    let mut src = VecSource::new(packed(i16::MIN));
    assert_eq!(i16::unpack_iter(&mut src), Ok((3, i16::MIN)));
    let mut src = VecSource::new(packed(usize::MAX));
    assert_eq!(usize::unpack_iter(&mut src), Ok((packed(usize::MAX).len(), usize::MAX)));
    let mut src = VecSource::new(packed(isize::MIN));
    assert_eq!(isize::unpack_iter(&mut src), Ok((packed(isize::MIN).len(), isize::MIN)));
}
