use miniserve::encoding::{push_be64, push_bytes, push_le16, push_le32, push_octal, push_zeros};

#[test]
fn octal_digits_are_padded_and_truncated_to_width() {
    let mut out = b">".to_vec();
    push_octal(&mut out, 0o644, 7);
    assert_eq!(out, b">0000644".to_vec());
    let mut out = Vec::new();
    push_octal(&mut out, 0o12345, 3);
    assert_eq!(out, b"345".to_vec());
    let mut out = Vec::new();
    push_octal(&mut out, 9, 0);
    assert!(out.is_empty());
}

#[test]
fn little_endian_fields() {
    let mut out = vec![9u8];
    push_le16(&mut out, 0x1234);
    push_le32(&mut out, 0x04034b50);
    assert_eq!(out, vec![9, 0x34, 0x12, 0x50, 0x4b, 0x03, 0x04]);
    let mut out = Vec::new();
    push_le32(&mut out, u32::MAX);
    push_le16(&mut out, u16::MAX);
    assert_eq!(out, vec![255u8; 6]);
}

#[test]
fn big_endian_field() {
    let mut out = Vec::new();
    push_be64(&mut out, 0x0102_0304_0506_0708);
    assert_eq!(out, vec![1, 2, 3, 4, 5, 6, 7, 8]);
}

#[test]
fn zeros_and_copies() {
    let mut out = vec![1u8];
    push_zeros(&mut out, 3);
    push_bytes(&mut out, b"ab");
    push_zeros(&mut out, 0);
    push_bytes(&mut out, b"");
    assert_eq!(out, vec![1, 0, 0, 0, b'a', b'b']);
}
