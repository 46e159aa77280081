use pgcopy::cast::{i16, i16_from_unsigned, i32, i32_from_unsigned, IntWidth};

#[test]
fn narrowing_to_i16() {
    assert_eq!(i16("x", 5).unwrap(), 5);
    assert_eq!(i16("x", -32768).unwrap(), i16::MIN);
    let e = i16("field count", 40000).unwrap_err();
    assert_eq!(e.width, IntWidth::I16);
    assert_eq!(e.message(), "field count does not fit into an i16");
}

#[test]
fn narrowing_to_i32() {
    assert_eq!(i32("len", 2147483647).unwrap(), i32::MAX);
    let e = i32("len", 2147483648).unwrap_err();
    assert_eq!(e.context, "len");
    assert_eq!(e.message(), "len does not fit into an i32");
    assert!(i32("len", -2147483649).is_err());
}

#[test]
fn narrowing_unsigned() {
    assert_eq!(i16_from_unsigned("n", 32767).unwrap(), i16::MAX);
    assert!(i16_from_unsigned("n", 32768).is_err());
    assert_eq!(i32_from_unsigned("n", 7).unwrap(), 7);
    let e = i32_from_unsigned("n", u128::MAX).unwrap_err();
    assert_eq!(e.width, IntWidth::I32);
}
