use compact_size::{
    big_endian_bytes_for_value, little_endian_bytes_for_value, value_for_big_endian,
    value_for_little_endian,
};

#[test]
fn test_value_for_little_endian() {
    // One byte value 17
    let data: Vec<u8> = vec![17];
    let one_byte: u64 = value_for_little_endian(&data).unwrap();
    assert_eq!(one_byte, 17);

    // Two byte value 1000
    let data: Vec<u8> = vec![0b11111101, 0b11101000, 0b00000011];
    let two_byte: u64 = value_for_little_endian(&data).unwrap();
    assert_eq!(two_byte, 1000);

    // Four byte value 70000
    let data: Vec<u8> = vec![0b11111110, 0b01110000, 0b00010001, 0b00000001, 0b00000000];
    let four_byte: u64 = value_for_little_endian(&data).unwrap();
    assert_eq!(four_byte, 70000);

    // Eight byte value 18446634746297128183
    let data: Vec<u8> = vec![
        0b11111111, 0b11110111, 0b00010100, 0b01101011, 0b00111010, 0b10010001, 0b10011100,
        0b11111111, 0b11111111,
    ];
    let eight_byte: u64 = value_for_little_endian(&data).unwrap();
    assert_eq!(eight_byte, 18446634746297128183);
}

#[test]
fn test_value_for_big_endian() {
    // One byte value 17
    let data: Vec<u8> = vec![17];
    let one_byte: u64 = value_for_big_endian(&data).unwrap();
    assert_eq!(one_byte, 17);

    // Two byte value 1000
    let data: Vec<u8> = vec![0b11111101, 0b00000011, 0b11101000];
    let two_byte: u64 = value_for_big_endian(&data).unwrap();
    assert_eq!(two_byte, 1000);

    // Four byte value 70000
    let data: Vec<u8> = vec![0b11111110, 0b00000000, 0b00000001, 0b00010001, 0b01110000];
    let four_byte: u64 = value_for_big_endian(&data).unwrap();
    assert_eq!(four_byte, 70000);

    // Eight byte value 18446634746297128183
    let data: Vec<u8> = vec![
        0b11111111, 0b11111111, 0b11111111, 0b10011100, 0b10010001, 0b00111010, 0b01101011,
        0b00010100, 0b11110111,
    ];
    let eight_byte: u64 = value_for_big_endian(&data).unwrap();
    assert_eq!(eight_byte, 18446634746297128183);
}

#[test]
fn test_little_endian_bytes_for_value() {
    let expected_bytes: Vec<u8> = vec![0];
    assert_eq!(little_endian_bytes_for_value(0), expected_bytes);

    let expected_bytes: Vec<u8> = vec![112];
    assert_eq!(little_endian_bytes_for_value(112), expected_bytes);

    let expected_bytes: Vec<u8> = vec![0b11111101, 0b11101000, 0b00000011];
    assert_eq!(little_endian_bytes_for_value(1000), expected_bytes);

    let expected_bytes: Vec<u8> = vec![0b11111110, 0b01110000, 0b00010001, 0b00000001, 0b00000000];
    assert_eq!(little_endian_bytes_for_value(70000), expected_bytes);

    let expected_bytes: Vec<u8> = vec![
        0b11111111, 0b11110111, 0b00010100, 0b01101011, 0b00111010, 0b10010001, 0b10011100,
        0b11111111, 0b11111111,
    ];
    assert_eq!(
        little_endian_bytes_for_value(18446634746297128183),
        expected_bytes
    );
}

#[test]
fn test_big_endian_bytes_for_value() {
    let expected_bytes: Vec<u8> = vec![0];
    assert_eq!(big_endian_bytes_for_value(0), expected_bytes);

    let expected_bytes: Vec<u8> = vec![112];
    assert_eq!(big_endian_bytes_for_value(112), expected_bytes);

    let expected_bytes: Vec<u8> = vec![0b11111101, 0b00000011, 0b11101000];
    assert_eq!(big_endian_bytes_for_value(1000), expected_bytes);

    let expected_bytes: Vec<u8> = vec![0b11111110, 0b00000000, 0b00000001, 0b00010001, 0b01110000];
    assert_eq!(big_endian_bytes_for_value(70000), expected_bytes);

    let expected_bytes: Vec<u8> = vec![
        0b11111111, 0b11111111, 0b11111111, 0b10011100, 0b10010001, 0b00111010, 0b01101011,
        0b00010100, 0b11110111,
    ];
    assert_eq!(
        big_endian_bytes_for_value(18446634746297128183),
        expected_bytes
    );
}
