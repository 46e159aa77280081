use pgcopy::binary::{ArityError, CopyToBinary};
use pgcopy::cast::IntWidth;

const HEADER: [u8; 19] = [
    0x50, 0x47, 0x43, 0x4F, 0x50, 0x59, 0x0A, 0xFF, 0x0D, 0x0A, 0x00, 0, 0, 0, 0, 0, 0, 0, 0,
];

#[test]
fn header_starts_every_stream() {
    let enc = CopyToBinary::new(2).unwrap();
    let out = enc.finish();
    assert_eq!(&out[..11], b"PGCOPY\n\xFF\r\n\0");
    assert_eq!(&out[..19], &HEADER);
    assert_eq!(&out[19..], &[0xFF, 0xFF]);
}

#[test]
fn too_many_columns_is_a_range_error() {
    let err = CopyToBinary::new(40000).err().unwrap();
    assert_eq!(err.context, "field count");
    assert_eq!(err.width, IntWidth::I16);
    assert_eq!(err.message(), "field count does not fit into an i16");
    assert!(CopyToBinary::new(32767).is_ok());
    assert!(CopyToBinary::new(32768).is_err());
}

#[test]
fn null_field_is_minus_one() {
    let mut enc = CopyToBinary::new(1).unwrap();
    enc.flush();
    enc.encode_row(&[None]).unwrap();
    assert_eq!(enc.flush(), vec![0, 1, 0xFF, 0xFF, 0xFF, 0xFF]);
}

#[test]
fn three_column_row() {
    let mut enc = CopyToBinary::new(3).unwrap();
    let row = vec![Some(42i32.to_be_bytes().to_vec()), None, Some(b"x".to_vec())];
    enc.encode_row(&row).unwrap();
    let out = enc.finish();
    let mut expected = HEADER.to_vec();
    expected.extend([0, 3]);
    expected.extend([0, 0, 0, 4, 0, 0, 0, 42]);
    expected.extend([0xFF, 0xFF, 0xFF, 0xFF]);
    expected.extend([0, 0, 0, 1, b'x']);
    expected.extend([0xFF, 0xFF]);
    assert_eq!(out, expected);
}

#[test]
fn flush_keeps_the_stream() {
    let mut enc = CopyToBinary::new(1).unwrap();
    let mut all = enc.flush();
    assert_eq!(all, HEADER.to_vec());
    enc.encode_row(&[Some(vec![7])]).unwrap();
    all.extend(enc.flush());
    assert!(enc.flush().is_empty());
    enc.encode_row(&[None]).unwrap();
    all.extend(enc.finish());
    let mut expected = HEADER.to_vec();
    expected.extend([0, 1, 0, 0, 0, 1, 7, 0, 1, 0xFF, 0xFF, 0xFF, 0xFF, 0xFF, 0xFF]);
    assert_eq!(all, expected);
}

#[test]
fn wrong_arity_is_rejected() {
    let mut enc = CopyToBinary::new(2).unwrap();
    let before = enc.flush();
    assert_eq!(enc.encode_row(&[None]), Err(ArityError { expected: 2, found: 1 }));
    assert!(enc.flush().is_empty());
    assert_eq!(before.len(), 19);
}
