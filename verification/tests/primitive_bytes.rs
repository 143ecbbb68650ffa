use bytesbox::primitives::BytesPrimitives;
use bytesbox::ByteBox;

#[test]
fn unsigned_decimal_forms() {
    assert_eq!(42u32.to_bytes(), b"42".to_vec());
    assert_eq!(0u8.to_bytes(), b"0".to_vec());
    assert_eq!(255u8.to_bytes(), b"255".to_vec());
    assert_eq!(65535u16.to_bytes(), b"65535".to_vec());
    assert_eq!(4294967295u32.to_bytes(), b"4294967295".to_vec());
    assert_eq!(18446744073709551615u64.to_bytes(), b"18446744073709551615".to_vec());
    assert_eq!(1024usize.to_bytes(), b"1024".to_vec());
}

#[test]
fn signed_decimal_forms() {
    assert_eq!((-128i8).to_bytes(), b"-128".to_vec());
    assert_eq!(0i8.to_bytes(), b"0".to_vec());
    assert_eq!((-32768i16).to_bytes(), b"-32768".to_vec());
    assert_eq!((-2147483648i32).to_bytes(), b"-2147483648".to_vec());
    assert_eq!((-9223372036854775808i64).to_bytes(), b"-9223372036854775808".to_vec());
    assert_eq!(9223372036854775807i64.to_bytes(), b"9223372036854775807".to_vec());
    assert_eq!((-1024isize).to_bytes(), b"-1024".to_vec());
}

#[test]
fn insert_primitive_stores_decimal_text() {
    let mut table = ByteBox::new();
    table.insert_primitive(b"number", 42u32);
    assert_eq!(table.get(b"number"), Some(&b"42"[..]));
    table.insert_primitive(b"negative", -7i32);
    assert_eq!(table.get(b"negative"), Some(&b"-7"[..]));
    table.insert_primitive(b"number", 256u16);
    assert_eq!(table.get(b"number"), Some(&b"256"[..]));
}
