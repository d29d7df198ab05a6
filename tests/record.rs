use ml_basics::record::{labeled_record, parse_i32, record_fields, split_fields, trim_bytes, LoadError};

#[test]
fn two_fields_is_a_load_error() {
    assert_eq!(labeled_record(b"1.0,2.0").err(), Some(LoadError::FieldCount(2)));
    assert!(matches!(record_fields(b"1.0,2.0"), Err(LoadError::FieldCount(2))));
}

#[test]
fn other_field_counts_are_errors() {
    assert_eq!(labeled_record(b"1,2,3,4").err(), Some(LoadError::FieldCount(4)));
    assert_eq!(labeled_record(b"").err(), Some(LoadError::FieldCount(1)));
    assert_eq!(labeled_record(b"1,2,3,").err(), Some(LoadError::FieldCount(4)));
}

#[test]
fn labeled_line_is_read() {
    let (a, b, c) = labeled_record(b"1.5,-2.25,3\n").unwrap();
    assert_eq!(a, b"1.5".to_vec());
    assert_eq!(b, b"-2.25".to_vec());
    assert_eq!(c, 3);
}

#[test]
fn label_whitespace_is_trimmed() {
    let (_, _, c) = labeled_record(b"0,0, -7 \r\n").unwrap();
    assert_eq!(c, -7);
    let f = record_fields(b" 1 ,2,\t4.5  ").unwrap();
    assert_eq!(f.first, b" 1 ".to_vec());
    assert_eq!(f.second, b"2".to_vec());
    assert_eq!(f.last, b"4.5".to_vec());
}

#[test]
fn bad_label_is_an_error() {
    assert_eq!(labeled_record(b"1,2,abc").err(), Some(LoadError::BadLabel));
    assert_eq!(labeled_record(b"1,2,").err(), Some(LoadError::BadLabel));
    assert_eq!(labeled_record(b"1,2,1.5").err(), Some(LoadError::BadLabel));
    assert_eq!(labeled_record(b"1,2,2147483648").err(), Some(LoadError::BadLabel));
}

#[test]
fn split_keeps_empty_fields() {
    let f = split_fields(b"a,,b,");
    assert_eq!(f, vec![b"a".to_vec(), vec![], b"b".to_vec(), vec![]]);
    assert_eq!(split_fields(b""), vec![Vec::<u8>::new()]);
}

#[test]
fn trim_removes_both_ends() {
    assert_eq!(trim_bytes(b"  x y \t\n"), b"x y".to_vec());
    assert_eq!(trim_bytes(b" \r\n "), Vec::<u8>::new());
    assert_eq!(trim_bytes(b"z"), b"z".to_vec());
}

#[test]
fn parse_i32_accepts_signs_and_bounds() {
    assert_eq!(parse_i32(b"007"), Some(7));
    assert_eq!(parse_i32(b"+12"), Some(12));
    assert_eq!(parse_i32(b"-0"), Some(0));
    assert_eq!(parse_i32(b"2147483647"), Some(i32::MAX));
    assert_eq!(parse_i32(b"-2147483648"), Some(i32::MIN));
    assert_eq!(parse_i32(b"000000000000000000042"), Some(42));
}

#[test]
fn parse_i32_rejects_malformed() {
    assert_eq!(parse_i32(b""), None);
    assert_eq!(parse_i32(b"-"), None);
    assert_eq!(parse_i32(b"+"), None);
    assert_eq!(parse_i32(b"1-2"), None);
    assert_eq!(parse_i32(b" 1"), None);
    assert_eq!(parse_i32(b"-2147483649"), None);
    assert_eq!(parse_i32(b"99999999999999999999"), None);
}

#[test]
fn parse_i32_agrees_with_std() {
    for s in ["0", "-15", "+3", "123456", "x", "", "-", "2147483648", "-2147483648", "0012"] {
        assert_eq!(parse_i32(s.as_bytes()), s.parse::<i32>().ok());
    }
}
