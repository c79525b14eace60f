use miniserve::crc32::{checksum, Crc32};

#[test]
fn checksum_of_check_string() {
    assert_eq!(checksum(b"123456789"), 0xCBF4_3926);
}

#[test]
fn checksum_of_nothing_is_zero() {
    assert_eq!(checksum(b""), 0);
}

#[test]
fn checksum_agrees_with_independent_implementation() {
    let data: Vec<u8> = (0..5000u32).map(|i| (i * 7 + 3) as u8).collect();
    assert_eq!(checksum(&data), crc32fast::hash(&data));
}

#[test]
fn checksum_in_pieces_is_checksum_of_whole() {
    let data: Vec<u8> = (0..1000u32).map(|i| (i % 251) as u8).collect();
    let mut crc = Crc32::new();
    crc.update(&data[..1]);
    crc.update(&data[1..400]);
    crc.update(&data[400..]);
    assert_eq!(crc.value(), checksum(&data));
}
