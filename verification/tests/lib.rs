use oid_str::{
    AbsoluteOid, AbsoluteOidVec, Arc0, Arc1, RelativeOid, RelativeOidVec, RootOid,
    StaticAbsoluteOid, StaticRelativeOid, OidDecodingError,
};

#[test]
fn test_vec_from_root() {
    let root = RootOid::new(Arc0::Iso, Arc1::new(3).unwrap());
    let oid = AbsoluteOidVec::from_root(root);

    assert_eq!(oid.as_bytes(), b"\x2B");
}

#[test]
fn absolute_mut_tail() {
    let mut buffer1 = *b"\x60\x86\x48\x01\x65\x03\x04\x01\x2A";
    let mut buffer2 = buffer1;
    let mut absolute = AbsoluteOid::from_mut_bytes(&mut buffer1).unwrap();
    let relative = RelativeOid::from_mut_bytes(&mut buffer2[1..]).unwrap();
    assert_eq!(absolute.tail_mut(), relative);
}

#[test]
fn arc0_values() {
    assert_eq!(Arc0::new(0).unwrap(), Arc0::ItuT);
    assert_eq!(Arc0::new(1).unwrap(), Arc0::Iso);
    assert_eq!(Arc0::new(2).unwrap(), Arc0::JointIsoItuT);
    assert!(Arc0::new(3).is_err());
    assert!(Arc0::new(255).is_err());
    assert_eq!(Arc0::JointIsoItuT.as_u8(), 2);
}

#[test]
fn arc1_values() {
    assert_eq!(Arc1::new(0).unwrap().as_u8(), 0);
    assert_eq!(Arc1::new(39).unwrap().as_u8(), 39);
    assert!(Arc1::new(40).is_err());
    assert!(Arc1::new(255).is_err());
}

#[test]
fn root_packs_forty_times_arc0_plus_arc1() {
    let root = RootOid::new(Arc0::JointIsoItuT, Arc1::new(39).unwrap());
    assert_eq!(root.into_u8(), 119);
    let root = RootOid::new(Arc0::ItuT, Arc1::new(0).unwrap());
    assert_eq!(root.into_u8(), 0);
    assert_eq!(RootOid::from_u8(119).unwrap().into_u8(), 119);
    assert!(RootOid::check(119).is_ok());
    assert!(RootOid::check(120).is_err());
}

#[test]
fn root_as_absolute_is_the_one_byte() {
    let root = RootOid::from_u8(0x2b).unwrap();
    let oid = root.as_absolute();
    assert_eq!(oid.as_bytes(), b"\x2b");
    assert_eq!(oid.len(), 1);
    assert_eq!(oid.root(), root);
    assert!(oid.tail().is_empty());
}

#[test]
fn absolute_root_and_tail() {
    let oid = AbsoluteOid::from_bytes(b"\x2b\x06\x2b\x01").unwrap();
    assert_eq!(oid.to_string(), "1.3.6.43.1");
    assert_eq!(oid.root().into_u8(), 0x2b);
    assert_eq!(oid.tail().as_bytes(), b"\x06\x2b\x01");
    let relative = RelativeOid::from_bytes(b"\x2b\x06\x2b\x01").unwrap();
    assert_eq!(relative.to_string(), ".43.6.43.1");
}

#[test]
fn vec_push_and_extend() {
    let mut oid: AbsoluteOidVec = "1.3.6.1".parse().unwrap();
    let suffix: RelativeOidVec = ".2.1.1".parse().unwrap();
    oid.extend(&suffix.as_oid());
    assert_eq!(oid.to_string(), "1.3.6.1.2.1.1");
    oid.push(257);
    assert_eq!(oid.as_bytes(), b"\x2b\x06\x01\x02\x01\x01\x82\x01");
    assert_eq!(oid.clone().into_bytes(), b"\x2b\x06\x01\x02\x01\x01\x82\x01".to_vec());

    let mut relative = RelativeOidVec::default();
    assert_eq!(relative.as_bytes(), b"");
    relative.push(0);
    relative.extend(&RelativeOid::from_bytes(b"\x81\x00").unwrap());
    assert_eq!(relative.as_bytes(), b"\x00\x81\x00");
    assert_eq!(relative.to_string(), ".0.128");
    assert_eq!(relative.into_bytes(), b"\x00\x81\x00".to_vec());
}

#[test]
fn vec_from_oid_and_back() {
    let view = AbsoluteOid::from_bytes(b"\x2b\x06\x01").unwrap();
    let mut owned = AbsoluteOidVec::from_oid(&view);
    assert_eq!(owned.as_oid(), view);
    owned.as_mut_oid().tail_mut().copy_from(&RelativeOid::from_bytes(b"\x07\x02").unwrap());
    assert_eq!(owned.as_bytes(), b"\x2b\x07\x02");
}

#[test]
fn static_views() {
    let oid = StaticAbsoluteOid::from_bytes(b"\x2b\x06\x01").unwrap();
    assert_eq!(oid.as_oid().to_string(), "1.3.6.1");
    assert!(matches!(StaticAbsoluteOid::from_bytes(b""), Err(OidDecodingError::Empty)));
    assert!(matches!(StaticAbsoluteOid::from_bytes(b"\x78"), Err(OidDecodingError::Root(_))));
    let oid = StaticRelativeOid::from_bytes(b"\x06\x01").unwrap();
    assert_eq!(oid.as_oid().to_string(), ".6.1");
    match StaticRelativeOid::from_bytes(b"\x01\x80") {
        Err(OidDecodingError::Base128(e)) => assert_eq!(e.pos, 1),
        _ => panic!("a fault of the bytes was expected"),
    }
    match StaticAbsoluteOid::from_bytes(b"\x2b\x01\x80") {
        Err(OidDecodingError::Base128(e)) => assert_eq!(e.pos, 2),
        _ => panic!("a fault of the bytes was expected"),
    }
    let oid = StaticRelativeOid::from_bytes_unchecked(b"\x06\x01");
    assert_eq!(oid.as_oid().as_bytes(), b"\x06\x01");
    let oid = StaticAbsoluteOid::from_bytes_unchecked(b"\x2b\x06\x01");
    assert_eq!(oid.as_oid().as_bytes(), b"\x2b\x06\x01");
}

#[test]
fn conversions() {
    assert_eq!(Arc0::try_from(1u8).unwrap(), Arc0::Iso);
    assert!(Arc0::try_from(3u8).is_err());
    assert_eq!(Arc1::try_from(39u8).unwrap().as_u8(), 39);
    assert!(Arc1::try_from(40u8).is_err());
    assert_eq!(u8::from(Arc1::new(7).unwrap()), 7);
    assert_eq!(Arc1::new_unchecked(5).as_u8(), 5);
    assert_eq!(RootOid::from_u8_unchecked(0x2b).into_u8(), 0x2b);
    let root = RootOid::from_u8(200).unwrap_err();
    assert!(matches!(OidDecodingError::from(root), OidDecodingError::Root(_)));
    let fault = RelativeOid::from_bytes(b"\x80").unwrap_err();
    assert!(matches!(OidDecodingError::from(fault), OidDecodingError::Base128(_)));
}
