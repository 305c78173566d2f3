use oid_str::{AbsoluteOid, RelativeOid};

#[test]
fn split_at() {
    let oid = RelativeOid::from_bytes(b"\x01\x02\x82\x01").unwrap();
    assert_eq!(oid.to_string(), ".1.2.257");

    let (first, last) = oid.split_at(2);

    assert_eq!(first.to_string(), ".1.2");
    assert_eq!(last.to_string(), ".257");
}

#[test]
fn split_at_start() {
    let oid = RelativeOid::from_bytes(b"\x01\x02\x03").unwrap();
    assert_eq!(oid.to_string(), ".1.2.3");

    let (first, last) = oid.split_at(0);

    assert_eq!(first.to_string(), "");
    assert_eq!(last.to_string(), ".1.2.3");
}

#[test]
fn split_at_end() {
    let oid = RelativeOid::from_bytes(b"\x01\x02\x03").unwrap();
    assert_eq!(oid.to_string(), ".1.2.3");

    let (first, last) = oid.split_at(3);

    assert_eq!(first.to_string(), ".1.2.3");
    assert_eq!(last.to_string(), "");
}

#[test]
fn starts_with() {
    let oid = RelativeOid::from_bytes(b"\x01\x82\x03\x04").unwrap();
    assert_eq!(oid.to_string(), ".1.259.4");

    let prefix = RelativeOid::from_bytes(b"\x01\x82\x03").unwrap();
    assert_eq!(prefix.to_string(), ".1.259");

    assert!(oid.starts_with(&prefix))
}

#[test]
fn not_starts_with() {
    let oid = RelativeOid::from_bytes(b"\x01\x82\x03\x04").unwrap();
    assert_eq!(oid.to_string(), ".1.259.4");

    let prefix = RelativeOid::from_bytes(b"\x01\x02").unwrap();
    assert_eq!(prefix.to_string(), ".1.2");

    assert!(!oid.starts_with(&prefix))
}

#[test]
fn ends_with() {
    let oid = RelativeOid::from_bytes(b"\x01\x82\x03\x04").unwrap();
    assert_eq!(oid.to_string(), ".1.259.4");

    let suffix = RelativeOid::from_bytes(b"\x82\x03\x04").unwrap();
    assert_eq!(suffix.to_string(), ".259.4");

    assert!(oid.ends_with(&suffix))
}

#[test]
fn ends_with_in_the_middle() {
    let oid = RelativeOid::from_bytes(b"\x01\x82\x03\x04").unwrap();
    assert_eq!(oid.to_string(), ".1.259.4");

    let suffix = RelativeOid::from_bytes(b"\x03\x04").unwrap();
    assert_eq!(suffix.to_string(), ".3.4");

    assert!(!oid.ends_with(&suffix))
}

#[test]
fn strip_prefix() {
    let oid = RelativeOid::from_bytes(b"\x01\x82\x03\x81\x04").unwrap();
    assert_eq!(oid.to_string(), ".1.259.132");

    let prefix = RelativeOid::from_bytes(b"\x01\x82\x03").unwrap();
    assert_eq!(prefix.to_string(), ".1.259");

    let suffix = oid.strip_prefix(&prefix).unwrap();
    assert_eq!(suffix.to_string(), ".132")
}

#[test]
fn strip_prefix_long() {
    let oid = RelativeOid::from_bytes(b"\x01\x82\x03\x81\x04").unwrap();
    assert_eq!(oid.to_string(), ".1.259.132");

    let prefix = RelativeOid::from_bytes(b"\x01\x82\x03\x81\x04\x01").unwrap();
    assert_eq!(prefix.to_string(), ".1.259.132.1");

    let suffix = oid.strip_prefix(&prefix);
    assert!(suffix.is_none());
}

#[test]
fn strip_suffix() {
    let oid = AbsoluteOid::from_bytes(b"\x10\x01\x82\x03\x81\x04").unwrap();
    assert_eq!(oid.to_string(), "0.16.1.259.132");

    let suffix = RelativeOid::from_bytes(b"\x81\x04").unwrap();
    assert_eq!(suffix.to_string(), ".132");

    let prefix = oid.strip_suffix(&suffix).unwrap();
    assert_eq!(prefix.to_string(), "0.16.1.259")
}

#[test]
fn copy_from() {
    let mut buffer = *b"\x01\x82\x03\x04";
    let mut oid = RelativeOid::from_mut_bytes(&mut buffer).unwrap();
    assert_eq!(oid.as_oid().to_string(), ".1.259.4");

    let part = RelativeOid::from_bytes(b"\x81\x00").unwrap();
    assert_eq!(part.to_string(), ".128");

    oid.index_mut(1..3).copy_from(&part);

    assert_eq!(oid.as_oid().to_string(), ".1.128.4");
}

#[test]
fn copy_changes_n_arcs() {
    let mut buffer = *b"\x01\x82\x03\x04";
    let mut oid = RelativeOid::from_mut_bytes(&mut buffer).unwrap();
    assert_eq!(oid.as_oid().to_string(), ".1.259.4");

    let part = RelativeOid::from_bytes(b"\x02\x00").unwrap();
    assert_eq!(part.to_string(), ".2.0");

    oid.index_mut(1..3).copy_from(&part);

    assert_eq!(oid.as_oid().to_string(), ".1.2.0.4");
}

#[test]
fn copy_from_writes_the_buffer() {
    let mut buffer = *b"\x01\x82\x03\x04";
    {
        let mut oid = RelativeOid::from_mut_bytes(&mut buffer).unwrap();
        let part = RelativeOid::from_bytes(b"\x81\x00").unwrap();
        oid.get_mut(1..3).unwrap().copy_from(&part);
    }
    assert_eq!(buffer, *b"\x01\x81\x00\x04");
}

#[test]
fn split_at_mut_writes_both_parts() {
    let mut buffer = *b"\x01\x02\x82\x01";
    {
        let mut oid = RelativeOid::from_mut_bytes(&mut buffer).unwrap();
        let (mut first, mut last) = oid.split_at_mut(2);
        assert_eq!(first.as_bytes(), b"\x01\x02");
        assert_eq!(last.as_bytes(), b"\x82\x01");
        first.copy_from(&RelativeOid::from_bytes(b"\x81\x05").unwrap());
        last.copy_from(&RelativeOid::from_bytes(b"\x07\x08").unwrap());
        assert_eq!(oid.as_oid().to_string(), ".133.7.8");
    }
    assert_eq!(buffer, *b"\x81\x05\x07\x08");
}

#[test]
fn ends_with_inside_an_arc() {
    let oid = RelativeOid::from_bytes(b"\x81\x81\x01").unwrap();
    let suffix = RelativeOid::from_bytes(b"\x81\x01").unwrap();
    assert!(!oid.ends_with(&suffix));
    assert!(oid.strip_suffix(&suffix).is_none());
    assert!(oid.ends_with(&oid));
    assert!(oid.ends_with(&RelativeOid::empty()));
    assert_eq!(oid.strip_suffix(&RelativeOid::empty()).unwrap(), oid);
    assert!(oid.strip_suffix(&oid).unwrap().is_empty());
    let longer = RelativeOid::from_bytes(b"\x01\x81\x81\x01").unwrap();
    assert!(!oid.ends_with(&longer));
}

#[test]
fn starts_with_edges() {
    let oid = RelativeOid::from_bytes(b"\x01\x82\x03").unwrap();
    assert!(oid.starts_with(&RelativeOid::empty()));
    assert!(oid.starts_with(&oid));
    assert_eq!(oid.strip_prefix(&RelativeOid::empty()).unwrap(), oid);
    assert!(oid.strip_prefix(&oid).unwrap().is_empty());
    let other = RelativeOid::from_bytes(b"\x01\x82\x04").unwrap();
    assert!(!oid.starts_with(&other));
}

#[test]
fn absolute_prefix_and_suffix() {
    let oid = AbsoluteOid::from_bytes(b"\x2b\x06\x01\x82\x03").unwrap();
    let prefix = AbsoluteOid::from_bytes(b"\x2b\x06").unwrap();
    let other_root = AbsoluteOid::from_bytes(b"\x2a\x06").unwrap();
    assert!(oid.starts_with(&prefix));
    assert!(!oid.starts_with(&other_root));
    assert!(!prefix.starts_with(&oid));
    assert_eq!(oid.strip_prefix(&prefix).unwrap().as_bytes(), b"\x01\x82\x03");
    assert!(oid.strip_prefix(&other_root).is_none());
    assert!(oid.strip_prefix(&oid).unwrap().is_empty());

    let suffix = RelativeOid::from_bytes(b"\x82\x03").unwrap();
    assert!(oid.ends_with(&suffix));
    assert!(!oid.ends_with(&RelativeOid::from_bytes(b"\x03").unwrap()));
    // the root is no arc of the tail
    let whole = RelativeOid::from_bytes(b"\x2b\x06\x01\x82\x03").unwrap();
    assert!(!oid.ends_with(&whole));
    assert!(oid.strip_suffix(&whole).is_none());
    let tail = RelativeOid::from_bytes(b"\x06\x01\x82\x03").unwrap();
    assert_eq!(oid.strip_suffix(&tail).unwrap().as_bytes(), b"\x2b");
}
