use pumpkin::codec::{read_bytes, read_fixed_bitset, read_i64_be, read_string_bounded, read_u8, ReadingError, VarInt};

fn var_int(bytes: &[u8]) -> Result<(i32, usize), ReadingError> {
    VarInt::decode(bytes, 0).map(|(v, end)| (v.0, end))
}

#[test]
fn var_int_single_byte_values() {
    assert_eq!(var_int(&[0x00]), Ok((0, 1)));
    assert_eq!(var_int(&[0x01]), Ok((1, 1)));
    assert_eq!(var_int(&[0x7f]), Ok((127, 1)));
}

#[test]
fn var_int_multi_byte_values() {
    assert_eq!(var_int(&[0x80, 0x01]), Ok((128, 2)));
    assert_eq!(var_int(&[0xff, 0x01]), Ok((255, 2)));
    assert_eq!(var_int(&[0xdd, 0xc7, 0x01]), Ok((25565, 3)));
    assert_eq!(var_int(&[0xff, 0xff, 0x7f]), Ok((2097151, 3)));
    assert_eq!(var_int(&[0xff, 0xff, 0xff, 0xff, 0x07]), Ok((2147483647, 5)));
}

#[test]
fn var_int_negative_values() {
    assert_eq!(var_int(&[0xff, 0xff, 0xff, 0xff, 0x0f]), Ok((-1, 5)));
    assert_eq!(var_int(&[0x80, 0x80, 0x80, 0x80, 0x08]), Ok((-2147483648, 5)));
}

#[test]
fn var_int_high_bits_of_fifth_byte_are_dropped() {
    assert_eq!(var_int(&[0xff, 0xff, 0xff, 0xff, 0x7f]), Ok((-1, 5)));
}

#[test]
fn var_int_too_long() {
    assert_eq!(var_int(&[0xff, 0xff, 0xff, 0xff, 0xff, 0x01]), Err(ReadingError::TooLarge));
}

#[test]
fn var_int_incomplete() {
    assert_eq!(var_int(&[]), Err(ReadingError::Incomplete));
    assert_eq!(var_int(&[0x80]), Err(ReadingError::Incomplete));
}

#[test]
fn var_int_at_position_leaves_rest() {
    assert_eq!(
        VarInt::decode(&[0x05, 0x80, 0x01, 0x09], 1).map(|(v, e)| (v.0, e)),
        Ok((128, 3))
    );
}

#[test]
fn reads_u8_and_bytes() {
    assert_eq!(read_u8(&[7, 8], 1), Ok((8, 2)));
    assert_eq!(read_u8(&[7], 1), Err(ReadingError::Incomplete));
    assert_eq!(read_bytes(&[1, 2, 3, 4], 1, 2), Ok((vec![2, 3], 3)));
    assert_eq!(read_bytes(&[1, 2, 3, 4], 3, 2), Err(ReadingError::Incomplete));
}

#[test]
fn reads_i64_big_endian() {
    assert_eq!(read_i64_be(&[0, 0, 0, 0, 0, 0, 1, 2], 0), Ok((258, 8)));
    assert_eq!(read_i64_be(&[0xff; 8], 0), Ok((-1, 8)));
    assert_eq!(read_i64_be(&[0x80, 0, 0, 0, 0, 0, 0, 0], 0), Ok((i64::MIN, 8)));
    assert_eq!(read_i64_be(&[0x7f, 0xff, 0xff, 0xff, 0xff, 0xff, 0xff, 0xff], 0), Ok((i64::MAX, 8)));
    assert_eq!(read_i64_be(&[1, 2, 3], 0), Err(ReadingError::Incomplete));
}

#[test]
fn reads_strings() {
    let mut data = vec![5u8];
    data.extend_from_slice(b"hello");
    data.push(9);
    assert_eq!(read_string_bounded(&data, 0, 16), Ok(("hello".to_string(), 6)));
    assert_eq!(read_string_bounded(&data, 0, 4), Err(ReadingError::TooLarge));
    assert_eq!(read_string_bounded(&data, 0, 5), Ok(("hello".to_string(), 6)));
}

#[test]
fn string_length_is_counted_in_bytes() {
    let mut data = vec![3u8];
    data.extend_from_slice("é!".as_bytes());
    assert_eq!(read_string_bounded(&data, 0, 3), Ok(("é!".to_string(), 4)));
    assert_eq!(read_string_bounded(&data, 0, 2), Err(ReadingError::TooLarge));
}

#[test]
fn string_errors() {
    assert_eq!(read_string_bounded(&[2, 0xc3, 0x28], 0, 16), Err(ReadingError::InvalidUtf8));
    assert_eq!(read_string_bounded(&[4, b'a', b'b'], 0, 16), Err(ReadingError::Incomplete));
    assert_eq!(
        read_string_bounded(&[0xff, 0xff, 0xff, 0xff, 0x0f], 0, 16),
        Err(ReadingError::TooLarge)
    );
    assert_eq!(read_string_bounded(&[0, 1], 0, 16), Ok((String::new(), 1)));
}

#[test]
fn fixed_bitset_takes_whole_bytes() {
    assert_eq!(read_fixed_bitset(&[1, 2, 3, 4], 0, 20), Ok((vec![1, 2, 3], 3)));
    assert_eq!(read_fixed_bitset(&[1, 2, 3, 4], 0, 8), Ok((vec![1], 1)));
    assert_eq!(read_fixed_bitset(&[1, 2], 0, 20), Err(ReadingError::Incomplete));
}
