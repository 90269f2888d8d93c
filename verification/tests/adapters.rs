use msgpacker::{Error, Packable, Unpackable, VecSource};
use msgpacker::{unpack_array, unpack_array_iter, unpack_map, unpack_map_iter};

fn packed<T: Packable>(v: T) -> Vec<u8> {
    let mut buf: Vec<u8> = Vec::new();
    v.pack(&mut buf);
    buf
}

#[test]
fn absence_packs_as_the_single_zero_byte() {
    assert_eq!(packed(None::<u8>), vec![0x00]);
    assert_eq!(packed(None::<u16>), vec![0x00]);
    assert_eq!(packed(None::<u32>), vec![0x00]);
    assert_eq!(packed(None::<u64>), vec![0x00]);
    assert_eq!(packed(None::<u128>), vec![0x00]);
    assert_eq!(packed(None::<usize>), vec![0x00]);
    assert_eq!(packed(None::<i8>), vec![0x00]);
    assert_eq!(packed(None::<i16>), vec![0x00]);
    assert_eq!(packed(None::<i32>), vec![0x00]);
    assert_eq!(packed(None::<i64>), vec![0x00]);
    assert_eq!(packed(None::<i128>), vec![0x00]);
    assert_eq!(packed(None::<isize>), vec![0x00]);
    assert_eq!(packed(None::<u32>), packed(0u8));
}

#[test]
fn a_present_value_packs_as_itself() {
    assert_eq!(packed(Some(300u32)), packed(300u32));
    assert_eq!(packed(Some(-40i8)), packed(-40i8));
}

#[test]
fn a_decoded_zero_materializes_as_absent() {
    assert_eq!(Option::<u32>::unpack(&[0x00]), Ok((1, None)));
    assert_eq!(Option::<i64>::unpack(&[0x00]), Ok((1, None)));
    assert_eq!(Option::<u32>::unpack(&packed(300u32)), Ok((3, Some(300u32))));
    assert_eq!(Option::<i8>::unpack(&packed(-40i8)), Ok((2, Some(-40i8))));
    let mut src = VecSource::new(vec![0x00]);
    assert_eq!(Option::<u16>::unpack_iter(&mut src), Ok((1, None)));
    let mut src = VecSource::new(packed(300u16));
    assert_eq!(Option::<u16>::unpack_iter(&mut src), Ok((3, Some(300u16))));
}

#[test]
fn optional_errors_pass_through() {
    assert_eq!(Option::<u32>::unpack(&[]), Err(Error::BufferTooShort));
    assert_eq!(Option::<u32>::unpack(&[0xf6]), Err(Error::UnexpectedFormatTag));
}

fn array_bytes<T: Packable>(values: Vec<T>) -> Vec<u8> {
    assert!(values.len() < 16);
    let mut bytes: Vec<u8> = vec![0x90 + values.len() as u8];
    for v in values {
        v.pack(&mut bytes);
    }
    bytes
}

#[test]
fn arrays_decode_in_wire_order() {
    let bytes = array_bytes(vec![1u8, 2, 3]);
    assert_eq!(bytes, vec![0x93, 0x01, 0x02, 0x03]);
    assert_eq!(unpack_array::<u16>(&bytes), Ok((4, vec![1u16, 2, 3])));
    let mut src = VecSource::new(bytes.clone());
    assert_eq!(unpack_array_iter::<VecSource, u16>(&mut src), Ok((4, vec![1u16, 2, 3])));
}

#[test]
fn an_empty_array_is_one_byte() {
    assert_eq!(unpack_array::<u32>(&[0x90]), Ok((1, Vec::new())));
    let mut src = VecSource::new(vec![0x90]);
    assert_eq!(unpack_array_iter::<VecSource, u32>(&mut src), Ok((1, Vec::new())));
}

#[test]
fn array16_and_array32_headers_are_understood() {
    let mut bytes: Vec<u8> = vec![0xdc, 0x00, 0x11];
    for i in 0..17u32 {
        i.pack(&mut bytes);
    }
    let expect: Vec<u32> = (0..17).collect();
    assert_eq!(unpack_array::<u32>(&bytes), Ok((3 + 17, expect.clone())));
    let mut bytes: Vec<u8> = vec![0xdd, 0x00, 0x00, 0x00, 0x11];
    for i in 0..17u32 {
        i.pack(&mut bytes);
    }
    assert_eq!(unpack_array::<u32>(&bytes), Ok((5 + 17, expect)));
}

#[test]
fn an_array_propagates_the_first_element_error() {
    // Three elements declared, the second is a truncated UINT16 frame.
    let bytes: Vec<u8> = vec![0x93, 0x01, 0xcd, 0x02];
    assert_eq!(unpack_array::<u16>(&bytes), Err(Error::BufferTooShort));
    // An element tag the target rejects.
    let bytes: Vec<u8> = vec![0x92, 0x01, 0xf6];
    assert_eq!(unpack_array::<u16>(&bytes), Err(Error::UnexpectedFormatTag));
    // A declared count larger than what follows.
    let bytes: Vec<u8> = vec![0x93, 0x01, 0x02];
    assert_eq!(unpack_array::<u16>(&bytes), Err(Error::BufferTooShort));
}

#[test]
fn a_non_container_tag_is_not_an_array() {
    assert_eq!(unpack_array::<u16>(&[0xcc, 0x01]), Err(Error::UnexpectedFormatTag));
    assert_eq!(unpack_array::<u16>(&[]), Err(Error::BufferTooShort));
    assert_eq!(unpack_map::<u16, u16>(&[0x93]), Err(Error::UnexpectedFormatTag));
}

fn map_bytes<K: Packable, V: Packable>(pairs: Vec<(K, V)>) -> Vec<u8> {
    assert!(pairs.len() < 16);
    let mut bytes: Vec<u8> = vec![0x80 + pairs.len() as u8];
    for (k, v) in pairs {
        k.pack(&mut bytes);
        v.pack(&mut bytes);
    }
    bytes
}

#[test]
fn maps_preserve_pair_ordering() {
    let bytes = map_bytes(vec![(3u8, 30u32), (1u8, 10u32), (2u8, 20u32)]);
    let r = unpack_map::<u8, u32>(&bytes);
    assert_eq!(r, Ok((7, vec![(3u8, 30u32), (1u8, 10u32), (2u8, 20u32)])));
    let mut src = VecSource::new(bytes);
    let r = unpack_map_iter::<VecSource, u8, u32>(&mut src);
    assert_eq!(r, Ok((7, vec![(3u8, 30u32), (1u8, 10u32), (2u8, 20u32)])));
}

#[test]
fn map16_headers_are_understood() {
    let mut bytes: Vec<u8> = vec![0xde, 0x00, 0x02];
    bytes.extend_from_slice(&[0x01, 0x0a, 0x02, 0x0b]);
    assert_eq!(unpack_map::<u8, u8>(&bytes), Ok((7, vec![(1u8, 10u8), (2u8, 11u8)])));
}

#[test]
fn a_map_propagates_a_key_or_value_error() {
    // The second pair's value is missing.
    let bytes: Vec<u8> = vec![0x82, 0x01, 0x0a, 0x02];
    assert_eq!(unpack_map::<u8, u8>(&bytes), Err(Error::BufferTooShort));
    // The first key has a tag the key target rejects.
    let bytes: Vec<u8> = vec![0x81, 0xf6, 0x0a];
    assert_eq!(unpack_map::<u8, u8>(&bytes), Err(Error::UnexpectedFormatTag));
}

#[test]
fn containers_of_optional_values_decode_elementwise() {
    // [0x00, 7] as optional bytes: absent, then present.
    let bytes: Vec<u8> = vec![0x92, 0x00, 0x07];
    assert_eq!(unpack_array::<Option<u8>>(&bytes), Ok((3, vec![None, Some(7u8)])));
}
