use pgcopy::config::{
    CopyCsvCommonConfig, CopyCsvFromConfig, CopyCsvToConfig, CopyFromConfig, CopyTextConfig,
    CopyToConfig, DEFAULT_COPY_CSV_DELIMITER, DEFAULT_COPY_TEXT_DELIMITER, DEFAULT_COPY_TEXT_NULL,
};

#[test]
fn text_defaults() {
    let c = CopyTextConfig::default();
    assert_eq!(c.delimiter, b'\t');
    assert_eq!(c.null, "\\N");
    assert_eq!(DEFAULT_COPY_TEXT_DELIMITER, b'\t');
    assert_eq!(DEFAULT_COPY_TEXT_NULL, "\\N");
}

#[test]
fn csv_defaults() {
    let c = CopyCsvCommonConfig::default();
    assert_eq!(c.delimiter, b',');
    assert_eq!(c.null, "");
    assert!(!c.header);
    assert_eq!(c.quote, b'"');
    assert_eq!(c.escape, b'"');
    assert_eq!(DEFAULT_COPY_CSV_DELIMITER, b',');
    let q = CopyCsvCommonConfig::with_quote(b'\'');
    assert_eq!(q.escape, b'\'');
}

#[test]
fn per_column_flags() {
    let mut from = CopyCsvFromConfig::new(CopyCsvCommonConfig::default(), 3);
    assert!(from.fits_arity(3));
    assert!(!from.fits_arity(2));
    assert!(!from.force_null_at(1));
    from.force_null[1] = true;
    assert!(from.force_null_at(1));
    assert!(!from.force_not_null_at(7));
    let to = CopyCsvToConfig::new(CopyCsvCommonConfig::default(), 2);
    assert!(!to.force_quote_at(0));
    assert!(CopyToConfig::Csv(to).fits_arity(2));
    assert!(CopyFromConfig::Csv(from).fits_arity(3));
    assert!(CopyFromConfig::Binary.fits_arity(9));
    assert!(CopyToConfig::Text(CopyTextConfig::default()).fits_arity(0));
}
