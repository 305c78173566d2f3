use oid_str::{AbsoluteOid, AbsoluteOidVec, Arc, OidParsingError, RelativeOidVec};


#[test]
fn parse_absolute_0() {
    let oid: AbsoluteOidVec = "0.2.840.10045.2.1".parse().unwrap();
    let expected = AbsoluteOid::from_bytes(b"\x02\x86\x48\xCE\x3D\x02\x01").unwrap();
    assert_eq!(oid.to_string(), "0.2.840.10045.2.1");
    assert_eq!(oid.as_bytes(), expected.as_bytes());
}

#[test]
fn parse_absolute_1() {
    let oid: AbsoluteOidVec = "1.2.840.10045.2.1".parse().unwrap();
    let expected = AbsoluteOid::from_bytes(b"\x2A\x86\x48\xCE\x3D\x02\x01").unwrap();
    assert_eq!(oid.to_string(), "1.2.840.10045.2.1");
    assert_eq!(oid.as_bytes(), expected.as_bytes());
}

#[test]
fn parse_absolute_2() {
    let oid: AbsoluteOidVec = "2.16.840.1.101.3.4.1.42".parse().unwrap();
    let expected = AbsoluteOid::from_bytes(b"\x60\x86\x48\x01\x65\x03\x04\x01\x2A").unwrap();
    assert_eq!(oid.to_string(), "2.16.840.1.101.3.4.1.42");
    assert_eq!(oid.as_bytes(), expected.as_bytes());
}

#[test]
fn parse_absolute_with_leading_dot() {
    let oid: AbsoluteOidVec = ".1.3.6.1.4".parse().unwrap();
    assert_eq!(oid.to_string(), "1.3.6.1.4");
    assert_eq!(oid.as_bytes(), b"\x2b\x06\x01\x04");
}

#[test]
fn parse_absolute_failure_double_dot() {
    let result = ".1.3..1.4".parse::<AbsoluteOidVec>().unwrap_err();
    assert!(
        matches!(result, OidParsingError::IntegerExpected(4)),
        "result is {:?}",
        result
    );
}

#[test]
fn parse_absolute_failure_invalid_char() {
    let result = ".1.3.1d.4".parse::<AbsoluteOidVec>().unwrap_err();
    assert!(
        matches!(result, OidParsingError::InvalidChar(6)),
        "result is {:?}",
        result
    );
}

#[test]
fn parse_absolute_failure_unfinished_last_segment() {
    let result = ".1.3.1.4.".parse::<AbsoluteOidVec>().unwrap_err();
    assert!(
        matches!(result, OidParsingError::IntegerExpected(8)),
        "result is {:?}",
        result
    );
}

#[test]
fn parse_absolute_failure_empty() {
    let result = "".parse::<AbsoluteOidVec>().unwrap_err();
    assert!(
        matches!(result, OidParsingError::IntegerExpected(0)),
        "result is {:?}",
        result
    );
}

#[test]
fn parse_absolute_failure_no_arc1() {
    let result = ".1".parse::<AbsoluteOidVec>().unwrap_err();
    assert!(
        matches!(result, OidParsingError::NoArc1),
        "result is {:?}",
        result
    );
}

#[test]
fn parse_absolute_failure_no_arc1_with_dot() {
    let result = ".1.".parse::<AbsoluteOidVec>().unwrap_err();
    assert!(
        matches!(result, OidParsingError::IntegerExpected(2)),
        "result is {:?}",
        result
    );
}

#[test]
fn parse_absolute_failure_no_arc0_overflow() {
    let result = ".3.6".parse::<AbsoluteOidVec>().unwrap_err();
    assert!(
        matches!(result, OidParsingError::OverflowError),
        "result is {:?}",
        result
    );
}

#[test]
fn parse_absolute_failure_arc1_overflow() {
    let result = ".1.40".parse::<AbsoluteOidVec>().unwrap_err();
    assert!(
        matches!(result, OidParsingError::OverflowError),
        "result is {:?}",
        result
    );
}

#[test]
fn parse_absolute_arc1_max_value() {
    let oid: AbsoluteOidVec = ".1.39".parse().unwrap();
    assert_eq!(oid.as_bytes(), b"\x4f");
}

#[test]
fn parse_absolute_failure_only_dot() {
    let result = ".".parse::<AbsoluteOidVec>().unwrap_err();
    assert!(
        matches!(result, OidParsingError::IntegerExpected(0)),
        "result is {:?}",
        result
    );
}

#[test]
fn parse_relative_empty() {
    let result: RelativeOidVec = "".parse().unwrap();
    assert_eq!(result.as_bytes(), b"");
}

#[test]
fn parse_relative_empty_dot() {
    let result: RelativeOidVec = ".".parse().unwrap();
    assert_eq!(result.as_bytes(), b"");
}

#[test]
fn parse_relative() {
    let oid: RelativeOidVec = "840.10045.2.1".parse().unwrap();
    assert_eq!(oid.as_bytes(), b"\x86\x48\xCE\x3D\x02\x01");
}

#[test]
fn parse_relative_max_value() {
    assert_eq!(Arc::MAX, 4294967295);
    let oid: RelativeOidVec = "1.4294967295".parse().unwrap();
    assert_eq!(oid.as_bytes(), b"\x01\x8f\xff\xff\xff\x7f")
}

#[test]
fn parse_relative_arc_overflow() {
    assert_eq!(Arc::MAX, 4294967295);
    let result = "1.4294967296".parse::<RelativeOidVec>().unwrap_err();
    assert!(
        matches!(result, OidParsingError::OverflowError),
        "result is {:?}",
        result
    );
}

#[test]
fn parse_relative_double_dot() {
    let result = "1.3.4..8.1.2".parse::<RelativeOidVec>().unwrap_err();
    assert!(
        matches!(result, OidParsingError::IntegerExpected(5)),
        "result is {:?}",
        result
    );
}


#[test]
fn parse_relative_letter() {
    let result = "1.3.4.f.8.1.2".parse::<RelativeOidVec>().unwrap_err();
    assert!(
        matches!(result, OidParsingError::InvalidChar(6)),
        "result is {:?}",
        result
    );
}
#[test]
fn parse_absolute_gives_root_and_the_rest() {
    let (root, mut arcs) = oid_str::parse_absolute("1.3.6.4294967296.7").unwrap();
    assert_eq!(root.into_u8(), 0x2b);
    assert!(matches!(arcs.next(), Some(Ok(6))));
    assert!(matches!(arcs.next(), Some(Err(OidParsingError::OverflowError))));
    assert!(matches!(arcs.next(), Some(Ok(7))));
    assert!(arcs.next().is_none());
    assert!(arcs.next().is_none());
}

#[test]
fn parse_relative_gives_the_numbers() {
    let mut arcs = oid_str::parse_relative(".840.0010.0").unwrap();
    assert!(matches!(arcs.next(), Some(Ok(840))));
    assert!(matches!(arcs.next(), Some(Ok(10))));
    assert!(matches!(arcs.next(), Some(Ok(0))));
    assert!(arcs.next().is_none());
    let mut none = oid_str::parse_relative("").unwrap();
    assert!(none.next().is_none());
}

#[test]
fn parse_errors_come_in_order() {
    // a byte that may not stand there comes before everything else
    assert!(matches!(oid_str::parse_relative("1..x"), Err(OidParsingError::InvalidChar(3))));
    // two dots in a row come before the dot at the end
    assert!(matches!(oid_str::parse_relative("1..2."), Err(OidParsingError::IntegerExpected(1))));
    assert!(matches!(oid_str::parse_relative("1.2."), Err(OidParsingError::IntegerExpected(3))));
    assert!(matches!(oid_str::parse_relative(".."), Err(OidParsingError::IntegerExpected(0))));
    assert!(matches!(oid_str::parse_relative("+1"), Err(OidParsingError::InvalidChar(0))));
    assert!(matches!(oid_str::parse_relative("1.\u{e9}"), Err(OidParsingError::InvalidChar(2))));
    // the first number is looked at before the second is missed
    assert!(matches!(oid_str::parse_absolute("3"), Err(OidParsingError::OverflowError)));
    assert!(matches!(oid_str::parse_absolute("256.1"), Err(OidParsingError::OverflowError)));
    assert!(matches!(oid_str::parse_absolute("2"), Err(OidParsingError::NoArc1)));
    assert!(matches!(oid_str::parse_absolute("2.300"), Err(OidParsingError::OverflowError)));
    assert!(matches!(oid_str::parse_absolute(""), Err(OidParsingError::IntegerExpected(0))));
    assert!(matches!(oid_str::parse_absolute("."), Err(OidParsingError::IntegerExpected(0))));
    assert!(matches!(oid_str::parse_absolute("1.a"), Err(OidParsingError::InvalidChar(2))));
}

#[test]
fn parse_absolute_overflow_after_the_root() {
    let result = "1.3.4294967296".parse::<AbsoluteOidVec>().unwrap_err();
    assert!(matches!(result, OidParsingError::OverflowError), "result is {:?}", result);
    let result = "1.3.99999999999999999999999999".parse::<AbsoluteOidVec>().unwrap_err();
    assert!(matches!(result, OidParsingError::OverflowError), "result is {:?}", result);
}

#[test]
fn parse_leading_zeros() {
    let oid: AbsoluteOidVec = "01.003.0840".parse().unwrap();
    assert_eq!(oid.to_string(), "1.3.840");
    let oid: RelativeOidVec = "000".parse().unwrap();
    assert_eq!(oid.as_bytes(), b"\x00");
}

#[test]
fn parse_of_display_is_the_fragment() {
    for bytes in [&b""[..], b"\x00", b"\x86\x48\x01\x65\x03\x04\x01\x2A", b"\x8f\xff\xff\xff\x7f\x00"] {
        let oid = oid_str::RelativeOid::from_bytes(bytes).unwrap();
        let parsed: RelativeOidVec = oid.to_string().parse().unwrap();
        assert_eq!(parsed.as_bytes(), bytes);
    }
}
