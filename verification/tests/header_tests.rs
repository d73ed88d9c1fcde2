use fits::header::Bitpix;
use fits::header::Header;
use fits::header::Naxis;
use fits::parsing::Keyword;
use fits::values::Value;

#[test]
fn bitpix_test() {
    for i in vec![8, 16, 32, 64, -32, -64] {
        assert_eq!(i, Bitpix::from_int(i).unwrap().to_int())
    }

    assert!(Bitpix::from_int(0).is_none());
    assert!(Bitpix::from_int(-63).is_none());
    assert!(Bitpix::from_int(-8).is_none());
}

#[test]
fn naxis_bounds_test() {
    assert!(Naxis::new(0).is_some());
    assert_eq!(Naxis::new(999).unwrap().get(), 999);
    assert!(Naxis::new(1000).is_none());
    assert_eq!(Naxis::new(2).unwrap().get(), 2);
}

fn value_keyword(name: &str, v: Value) -> Keyword {
    Keyword::Value(name.to_string(), v, String::new())
}

#[test]
fn header_from_keyword_list_test() {
    let keywords = vec![
        value_keyword("SIMPLE", Value::Boolean(true)),
        value_keyword("BITPIX", Value::Integer(-64)),
        value_keyword("NAXIS", Value::Integer(2)),
        value_keyword("NAXIS1", Value::Integer(3)),
        value_keyword("NAXIS2", Value::Integer(2)),
    ];
    let header = Header::from_keyword_list(keywords).unwrap();
    assert!(header.simple);
    assert_eq!(header.bitpix, Bitpix::Float64);
    assert_eq!(header.naxis.get(), 2);
    assert_eq!(header.axes, vec![3, 2]);
    header.print_keywords();
}

#[test]
fn header_missing_naxis_test() {
    let keywords = vec![value_keyword("SIMPLE", Value::Boolean(true))];
    let err = Header::from_keyword_list(keywords).unwrap_err();
    assert_eq!(err, fits::Error::InvalidMandatoryKeyword("NAXIS".to_string()));
}

#[test]
fn header_bad_bitpix_test() {
    let keywords = vec![
        value_keyword("NAXIS", Value::Integer(0)),
        value_keyword("BITPIX", Value::Integer(7)),
    ];
    let err = Header::from_keyword_list(keywords).unwrap_err();
    assert_eq!(err, fits::Error::InvalidMandatoryKeyword("BITPIX".to_string()));
}

#[test]
fn header_missing_axis_test() {
    let keywords = vec![
        value_keyword("NAXIS", Value::Integer(2)),
        value_keyword("BITPIX", Value::Integer(-64)),
        value_keyword("NAXIS1", Value::Integer(4)),
    ];
    let err = Header::from_keyword_list(keywords).unwrap_err();
    assert_eq!(err, fits::Error::InvalidMandatoryKeyword("NAXIS2".to_string()));
}

#[test]
fn header_nonpositive_axis_test() {
    let keywords = vec![
        value_keyword("NAXIS", Value::Integer(1)),
        value_keyword("BITPIX", Value::Integer(-64)),
        value_keyword("NAXIS1", Value::Integer(0)),
    ];
    let err = Header::from_keyword_list(keywords).unwrap_err();
    assert_eq!(err, fits::Error::InvalidMandatoryKeyword("NAXIS1".to_string()));
}

#[test]
fn header_naxis_out_of_range_test() {
    let keywords = vec![
        value_keyword("NAXIS", Value::Integer(1000)),
        value_keyword("BITPIX", Value::Integer(-64)),
    ];
    let err = Header::from_keyword_list(keywords).unwrap_err();
    assert_eq!(err, fits::Error::InvalidMandatoryKeyword("NAXIS".to_string()));
}

#[test]
fn header_simple_defaults_false_test() {
    let keywords = vec![
        value_keyword("NAXIS", Value::Integer(0)),
        value_keyword("BITPIX", Value::Integer(8)),
    ];
    let header = Header::from_keyword_list(keywords).unwrap();
    assert!(!header.simple);
    assert_eq!(header.bitpix, Bitpix::Int8);
    assert_eq!(header.axes, Vec::<usize>::new());
}

#[test]
fn extract_values_test() {
    let keywords = vec![
        value_keyword("SIMPLE", Value::Boolean(true)),
        value_keyword("BITPIX", Value::Integer(16)),
        value_keyword("NAXIS", Value::Integer(3)),
        value_keyword("NAXIS1", Value::Integer(10)),
        value_keyword("NAXIS2", Value::Integer(20)),
        value_keyword("NAXIS3", Value::Integer(30)),
    ];
    let (simple, naxis, axes, bitpix) = fits::parsing::extract_values(&keywords).unwrap();
    assert!(simple);
    assert_eq!(naxis, 3);
    assert_eq!(axes, vec![10, 20, 30]);
    assert_eq!(bitpix, 16);
}
