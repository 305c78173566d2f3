use oid_str::{AbsoluteOidVec, RelativeOid, RootOid};

#[test]
fn test_display0() {
    let oid: AbsoluteOidVec = "0.2.840.10045.2.1".parse().unwrap();
    let arcs = oid.to_string();
    assert_eq!(arcs, "0.2.840.10045.2.1");
}

#[test]
fn test_display1() {
    let oid: AbsoluteOidVec = "1.2.840.10045.2.1".parse().unwrap();
    let arcs = oid.to_string();
    assert_eq!(arcs, "1.2.840.10045.2.1");
}

#[test]
fn test_display2() {
    let oid: AbsoluteOidVec = "2.16.840.1.101.3.4.1.42".parse().unwrap();
    let arcs = oid.to_string();
    assert_eq!(arcs, "2.16.840.1.101.3.4.1.42");
}

#[test]
fn display_root() {
    assert_eq!(RootOid::from_u8(0x2b).unwrap().to_string(), "1.3");
    assert_eq!(RootOid::from_u8(0).unwrap().to_string(), "0.0");
    assert_eq!(RootOid::from_u8(119).unwrap().to_string(), "2.39");
}

#[test]
fn display_empty_fragment() {
    assert_eq!(RelativeOid::empty().to_string(), "");
}

#[test]
fn display_fragment_numbers() {
    let oid = RelativeOid::from_bytes(b"\x00\x0a\x8f\xff\xff\xff\x7f\x64").unwrap();
    assert_eq!(oid.to_string(), ".0.10.4294967295.100");
}

#[test]
fn decimal_of_numbers() {
    assert_eq!(oid_str::text::decimal_string(0), "0");
    assert_eq!(oid_str::text::decimal_string(9), "9");
    assert_eq!(oid_str::text::decimal_string(10), "10");
    assert_eq!(oid_str::text::decimal_string(1234567890), "1234567890");
    assert_eq!(oid_str::text::decimal_string(u64::MAX), "18446744073709551615");
}

#[test]
fn display_then_parse_then_display() {
    let text = "1.3.6.1.2.1.1";
    let oid: AbsoluteOidVec = text.parse().unwrap();
    assert_eq!(oid.as_bytes(), b"\x2b\x06\x01\x02\x01\x01");
    assert_eq!(oid.to_string(), text);
    let dotted: AbsoluteOidVec = ".1.3.6.1.2.1.1".parse().unwrap();
    assert_eq!(dotted.to_string(), text);
}
