use fstk::parse_number_range;
use fstk::FstkError;

#[test]
fn test_single_number() {
    assert_eq!(parse_number_range("5").unwrap(), vec![5]);
}

#[test]
fn test_comma_separated() {
    assert_eq!(parse_number_range("1,3,5").unwrap(), vec![1, 3, 5]);
}

#[test]
fn test_range() {
    assert_eq!(parse_number_range("1-5").unwrap(), vec![1, 2, 3, 4, 5]);
}

#[test]
fn test_combined() {
    assert_eq!(parse_number_range("1,3-5,7").unwrap(), vec![1, 3, 4, 5, 7]);
}

#[test]
fn test_duplicates() {
    assert_eq!(parse_number_range("1,1,3-5,3").unwrap(), vec![1, 3, 4, 5]);
}

#[test]
fn test_invalid_format() {
    assert!(parse_number_range("1-5-7").is_err());
}

#[test]
fn test_invalid_range() {
    assert!(parse_number_range("5-1").is_err());
}

#[test]
fn test_invalid_number() {
    assert!(parse_number_range("abc").is_err());
}

#[test]
fn test_empty_expression() {
    assert!(parse_number_range("").is_err());
    assert!(parse_number_range(" , ,").is_err());
}

#[test]
fn test_whitespace_around_terms_and_dash() {
    assert_eq!(parse_number_range(" 1 , 3 - 5 ,7 ").unwrap(), vec![1, 3, 4, 5, 7]);
}

#[test]
fn test_trailing_comma() {
    assert_eq!(parse_number_range("2,").unwrap(), vec![2]);
}

#[test]
fn test_overflowing_number() {
    // Far beyond the machine bound: rejected, not wrapped.
    assert!(parse_number_range("99999999999999999999999999").is_err());
}

#[test]
fn test_parse_error_is_invalid_argument() {
    match parse_number_range("abc") {
        Err(FstkError::InvalidArgument(msg)) => assert!(msg.contains("abc")),
        _ => panic!("Expected InvalidArgument variant"),
    }
}

#[test]
fn test_zero_is_a_number() {
    assert_eq!(parse_number_range("0").unwrap(), vec![0]);
}
