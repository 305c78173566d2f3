use oid_str::{write_b128, Arc, ARC_LEN};

#[test]
fn test_encode_small() {
    let mut buffer = [0; ARC_LEN];
    let oid = write_b128(&mut buffer, 1);
    assert_eq!(oid.as_bytes(), b"\x01");
}

#[test]
fn test_encode_zero() {
    let mut buffer = [0; ARC_LEN];
    let oid = write_b128(&mut buffer, 0);
    assert_eq!(oid.as_bytes(), b"\x00");
}

#[test]
fn test_encode_large() {
    let mut buffer = [0; ARC_LEN];
    let oid = write_b128(&mut buffer, 257);
    assert_eq!(oid.as_bytes(), b"\x82\x01");
}

#[test]
fn test_encode_large_with_zeros() {
    let mut buffer = [0; ARC_LEN];
    let oid = write_b128(&mut buffer, 128 * 128);
    assert_eq!(oid.as_bytes(), b"\x81\x80\x00");
}

#[test]
fn test_encode_maximal_size() {
    let mut buffer = [0; ARC_LEN];
    assert_eq!(Arc::MAX, 0xffff_ffff);
    let oid = write_b128(&mut buffer, 0xffff_ffff);
    assert_eq!(oid.as_bytes(), b"\x8f\xff\xff\xff\x7f");

    let oid = write_b128(&mut buffer, 0xffff_fffe);
    assert_eq!(oid.as_bytes(), b"\x8f\xff\xff\xff\x7e");
}

#[test]
fn encode_leaves_the_front_of_the_buffer() {
    let mut buffer = [0xaa; ARC_LEN];
    let written = write_b128(&mut buffer, 300).as_bytes().to_vec();
    assert_eq!(written, b"\x82\x2c");
    assert_eq!(buffer, [0xaa, 0xaa, 0xaa, 0x82, 0x2c]);
}

#[test]
fn encode_at_each_length_boundary() {
    let cases: [(Arc, &[u8]); 8] = [
        (0x7f, b"\x7f"),
        (0x80, b"\x81\x00"),
        (0x3fff, b"\xff\x7f"),
        (0x4000, b"\x81\x80\x00"),
        (0x1f_ffff, b"\xff\xff\x7f"),
        (0x20_0000, b"\x81\x80\x80\x00"),
        (0xfff_ffff, b"\xff\xff\xff\x7f"),
        (0x1000_0000, b"\x81\x80\x80\x80\x00"),
    ];
    for (arc, bytes) in cases {
        let mut buffer = [0; ARC_LEN];
        let oid = write_b128(&mut buffer, arc);
        assert_eq!(oid.as_bytes(), bytes);
        assert_eq!(oid_str::b128_len(arc), bytes.len());
    }
}

#[test]
fn encode_is_never_longer_than_needed() {
    for arc in [0u32, 1, 127, 128, 255, 16383, 16384, 70000, 0xffff_ffff] {
        let mut buffer = [0; ARC_LEN];
        let oid = write_b128(&mut buffer, arc);
        let bytes = oid.as_bytes();
        assert_ne!(bytes[0], 0x80);
        let mut bits: u32 = 32 - arc.leading_zeros();
        if bits == 0 {
            bits = 1;
        }
        assert_eq!(bytes.len() as u32, (bits + 6) / 7);
    }
}
