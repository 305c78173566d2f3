use oid_str::{write_b128, AbsoluteOid, Arc, RelativeOid, RelativeOidVec, RootOid, ARC_LEN};

fn relative_arcs(oid: &RelativeOid) -> Vec<Arc> {
    let mut arcs = oid.arcs();
    let mut all = Vec::new();
    while let Some(arc) = arcs.next() {
        all.push(arc);
    }
    all
}

fn absolute_arcs(oid: &AbsoluteOid) -> Vec<Arc> {
    let mut arcs = oid.arcs();
    let mut all = Vec::new();
    while let Some(arc) = arcs.next() {
        all.push(arc);
    }
    all
}

#[test]
fn iter_arcs_maximal_size() {
    assert_eq!(Arc::MAX, 0xffff_ffff);
    let oid = RelativeOid::from_bytes(b"\x8f\xff\xff\xff\x7f").unwrap();
    let arcs: Vec<_> = relative_arcs(&oid);
    assert_eq!(arcs, &[0xffff_ffff]);
}

#[test]
fn iter_absolute_arcs0() {
    let oid = AbsoluteOid::from_bytes(b"\x02\x86\x48\xCE\x3D\x02\x01").unwrap();
    let arcs: Vec<_> = absolute_arcs(&oid);
    assert_eq!(arcs, [0, 2, 840, 10045, 2, 1]);
}

#[test]
fn iter_absolute_arcs1() {
    let oid = AbsoluteOid::from_bytes(b"\x2A\x86\x48\xCE\x3D\x02\x01").unwrap();
    let arcs: Vec<_> = absolute_arcs(&oid);
    assert_eq!(arcs, [1, 2, 840, 10045, 2, 1]);
}

#[test]
fn iter_absolute_arcs2() {
    let oid = AbsoluteOid::from_bytes(b"\x60\x86\x48\x01\x65\x03\x04\x01\x2A").unwrap();
    let arcs: Vec<_> = absolute_arcs(&oid);
    assert_eq!(arcs, [2, 16, 840, 1, 101, 3, 4, 1, 42]);
}

#[test]
fn iter_large_with_zeros() {
    let oid = RelativeOid::from_bytes(b"\x81\x80\x00").unwrap();
    let arcs: Vec<_> = relative_arcs(&oid);
    assert_eq!(arcs, &[128 * 128]);
}

#[test]
fn iter_empty_fragment_has_no_arcs() {
    let oid = RelativeOid::empty();
    let mut arcs = oid.arcs();
    assert_eq!(arcs.next(), None);
    assert_eq!(arcs.next(), None);
}

#[test]
fn iter_root_arcs() {
    let root = RootOid::from_u8(119).unwrap();
    let mut arcs = root.arcs();
    assert_eq!(arcs.next(), Some(2));
    assert_eq!(arcs.next(), Some(39));
    assert_eq!(arcs.next(), None);
    assert_eq!(arcs.next(), None);

    let root = RootOid::from_u8(0).unwrap();
    let mut arcs = root.arcs();
    assert_eq!(arcs.next(), Some(0));
    assert_eq!(arcs.next(), Some(0));
    assert_eq!(arcs.next(), None);
}

#[test]
fn root_into_arcs() {
    for byte in 0..=119u8 {
        let (arc0, arc1) = RootOid::from_u8(byte).unwrap().into_arcs();
        assert_eq!(arc0.as_u8(), byte / 40);
        assert_eq!(arc1.as_u8(), byte % 40);
        assert_eq!(RootOid::new(arc0, arc1).into_u8(), byte);
    }
}

#[test]
fn decode_of_encode_is_the_arc() {
    for arc in [0u32, 1, 127, 128, 257, 16383, 16384, 0x1f_ffff, 0x20_0000, 0xffff_fffe, 0xffff_ffff] {
        let mut buffer = [0; ARC_LEN];
        let written = write_b128(&mut buffer, arc);
        let oid = RelativeOid::from_bytes(written.as_bytes()).unwrap();
        assert_eq!(relative_arcs(&oid), [arc]);
    }
}

#[test]
fn arcs_pushed_are_arcs_read() {
    let arcs = [840u32, 0, 10045, 0xffff_ffff, 2, 128, 1];
    let mut oid = RelativeOidVec::default();
    for arc in arcs {
        oid.push(arc);
    }
    let view = RelativeOid::from_bytes(oid.as_bytes()).unwrap();
    assert_eq!(relative_arcs(&view), arcs);
}
